//! Findings of one script, and the report over all scripts of an asset.
use vstd::prelude::*;
use vstd::utf8::encode_utf8;
use crate::position::{PositionIndex, line_of, column_of, lemma_position_order, lemma_position_bounds};
use crate::rules::{
    CallChain, CallStyle, CallSuffix, Hit, Rule, chain_hits, chain_sites, check_call, direct_sites,
    method_sites, site_hits,
};

verus! {

/// One script of an asset: where it sits in the tree, and its text.
pub struct ScriptUnit {
    /// Names from the root's child down to the script, joined by `.`.
    pub location: String,
    pub source: String,
}

/// A script text that is not valid code.
pub struct SyntaxError {
    /// Byte offset in the script where parsing failed.
    pub offset: usize,
    pub message: String,
}

/// A script together with the outcome of parsing it: its call chains, or the
/// syntax error.
pub struct ParsedScript {
    pub unit: ScriptUnit,
    pub calls: Result<Vec<CallChain>, SyntaxError>,
}

/// One located rule violation.
pub struct Finding {
    pub script_location: String,
    /// 1-based line of the call's first byte.
    pub line: usize,
    /// 1-based column, in bytes, of the call's first byte.
    pub column: usize,
    pub rule: Rule,
}

/// The outcome of scanning every script of an asset.
pub struct ScanReport {
    /// True exactly when `findings` is not empty.
    pub is_malicious: bool,
    pub findings: Vec<Finding>,
}

pub open spec fn rule_id_text(r: Rule) -> Seq<char> {
    match r {
        Rule::GlobalEnvRead => "global-env-read"@,
        Rule::GlobalEnvWrite => "global-env-write"@,
        Rule::NumericRequire(_) => "numeric-require"@,
    }
}

pub open spec fn digit_char(d: nat) -> char {
    if d == 0 { '0' } else if d == 1 { '1' } else if d == 2 { '2' } else if d == 3 { '3' }
    else if d == 4 { '4' } else if d == 5 { '5' } else if d == 6 { '6' } else if d == 7 { '7' }
    else if d == 8 { '8' } else { '9' }
}

/// Decimal digits of `n`, without leading zeros.
pub open spec fn decimal_text(n: nat) -> Seq<char>
    decreases n,
{
    if n < 10 {
        seq![digit_char(n)]
    } else {
        decimal_text(n / 10) + seq![digit_char(n % 10)]
    }
}

pub open spec fn message_text(r: Rule) -> Seq<char> {
    match r {
        Rule::GlobalEnvRead => "Detected `getfenv` usage, which is extremely forbidden as it's commonly used for malicious purposes."@,
        Rule::GlobalEnvWrite => "Detected `setfenv` usage, changing the script environment is not allowed."@,
        Rule::NumericRequire(id) => "Detected requiring by id ("@ + decimal_text(id as nat)
            + "). This is used to download malicious scripts, thus is not allowed."@,
    }
}

fn digit_str(d: u64) -> (r: &'static str)
    requires
        d < 10,
    ensures
        r@ == seq![digit_char(d as nat)],
{
    proof {
        reveal_strlit("0");
        reveal_strlit("1");
        reveal_strlit("2");
        reveal_strlit("3");
        reveal_strlit("4");
        reveal_strlit("5");
        reveal_strlit("6");
        reveal_strlit("7");
        reveal_strlit("8");
        reveal_strlit("9");
    }
    let r = if d == 0 { "0" } else if d == 1 { "1" } else if d == 2 { "2" } else if d == 3 { "3" }
    else if d == 4 { "4" } else if d == 5 { "5" } else if d == 6 { "6" } else if d == 7 { "7" }
    else if d == 8 { "8" } else { "9" };
    assert(r@ =~= seq![digit_char(d as nat)]);
    r
}

/// `n` written in decimal.
pub fn decimal_string(n: u64) -> (r: String)
    ensures
        r@ == decimal_text(n as nat),
    decreases n,
{
    if n < 10 {
        digit_str(n).to_owned()
    } else {
        let high = decimal_string(n / 10);
        high.concat(digit_str(n % 10))
    }
}

impl Rule {
    /// The stable identifier of the rule.
    pub fn rule_id(&self) -> (r: &'static str)
        ensures
            r@ == rule_id_text(*self),
    {
        match self {
            Rule::GlobalEnvRead => "global-env-read",
            Rule::GlobalEnvWrite => "global-env-write",
            Rule::NumericRequire(_) => "numeric-require",
        }
    }

    /// The human-readable reason given for the violation.
    pub fn message(&self) -> (r: String)
        ensures
            r@ == message_text(*self),
    {
        match self {
            Rule::GlobalEnvRead => "Detected `getfenv` usage, which is extremely forbidden as it's commonly used for malicious purposes.".to_owned(),
            Rule::GlobalEnvWrite => "Detected `setfenv` usage, changing the script environment is not allowed.".to_owned(),
            Rule::NumericRequire(id) => {
                let digits = decimal_string(*id);
                "Detected requiring by id (".to_owned().concat(digits.as_str()).concat(
                    "). This is used to download malicious scripts, thus is not allowed.",
                )
            },
        }
    }
}

impl Finding {
    pub fn rule_id(&self) -> (r: &'static str)
        ensures
            r@ == rule_id_text(self.rule),
    {
        self.rule.rule_id()
    }

    pub fn message(&self) -> (r: String)
        ensures
            r@ == message_text(self.rule),
    {
        self.rule.message()
    }
}

/// The UTF-8 bytes of a text, in which call offsets are counted.
pub open spec fn text_bytes(s: String) -> Seq<u8> {
    encode_utf8(s@)
}

/// A chain starts inside the text (or at its end).
pub open spec fn chain_in_text(text: Seq<u8>, c: CallChain) -> bool {
    c.offset <= text.len() && c.offset < usize::MAX
}

/// Every call starts inside the text (or at its end).
pub open spec fn calls_in_text(text: Seq<u8>, calls: Seq<CallChain>) -> bool {
    forall|i: int| 0 <= i < calls.len() ==> #[trigger] chain_in_text(text, calls[i])
}

/// The rules broken in a script: chain after chain, and within a chain in the
/// order of its calls.
pub open spec fn calls_hits(calls: Seq<CallChain>) -> Seq<Hit>
    decreases calls.len(),
{
    if calls.len() == 0 {
        seq![]
    } else {
        calls_hits(calls.drop_last()) + chain_hits(calls.last())
    }
}

/// `h` placed into `s` after the trailing hits of larger offset only: a stable insertion.
pub open spec fn insert_by_offset(s: Seq<Hit>, h: Hit) -> Seq<Hit>
    decreases s.len(),
{
    if s.len() == 0 || s.last().offset <= h.offset {
        s.push(h)
    } else {
        insert_by_offset(s.drop_last(), h).push(s.last())
    }
}

/// The hits ordered by offset; hits at one offset keep their order.
pub open spec fn sort_by_offset(s: Seq<Hit>) -> Seq<Hit>
    decreases s.len(),
{
    if s.len() == 0 {
        s
    } else {
        insert_by_offset(sort_by_offset(s.drop_last()), s.last())
    }
}

pub open spec fn finding_at(location: String, text: Seq<u8>, h: Hit) -> Finding {
    Finding {
        script_location: location,
        line: line_of(text, h.offset as int) as usize,
        column: column_of(text, h.offset as int) as usize,
        rule: h.rule,
    }
}

/// The findings of one script: one for each call that breaks a rule, in the
/// order of the calls' offsets.
pub open spec fn script_findings(location: String, text: Seq<u8>, calls: Seq<CallChain>) -> Seq<
    Finding,
> {
    sort_by_offset(calls_hits(calls)).map_values(|h: Hit| finding_at(location, text, h))
}

/// Every hit lies inside a text of length `len`.
pub open spec fn hits_within(s: Seq<Hit>, len: nat) -> bool {
    forall|i: int| 0 <= i < s.len() ==> (#[trigger] s[i]).offset <= len && s[i].offset < usize::MAX
}

proof fn lemma_chain_hits_within(text: Seq<u8>, c: CallChain)
    requires
        chain_in_text(text, c),
    ensures
        hits_within(chain_hits(c), text.len()),
{
    let sites = chain_sites(c);
    lemma_method_sites_at(c.suffixes@, c.offset);
    assert forall|i: int| 0 <= i < sites.len() implies (#[trigger] sites[i]).0 <= text.len()
        && sites[i].0 < usize::MAX by {
        let d = direct_sites(c);
        if i >= d.len() {
            assert(sites[i] == method_sites(c.suffixes@, c.offset)[i - d.len()]);
        }
    }
    lemma_site_hits_within(sites, text.len());
}

proof fn lemma_method_sites_at(s: Seq<CallSuffix>, offset: usize)
    ensures
        forall|i: int| 0 <= i < method_sites(s, offset).len() ==> (#[trigger] method_sites(s, offset)[i]).0 == offset,
    decreases s.len(),
{
    if s.len() > 0 {
        lemma_method_sites_at(s.drop_last(), offset);
        let rest = method_sites(s.drop_last(), offset);
        assert forall|i: int| 0 <= i < method_sites(s, offset).len() implies (#[trigger] method_sites(s, offset)[i]).0
            == offset by {
            if i < rest.len() {
                assert(method_sites(s, offset)[i] == rest[i]);
            }
        }
    }
}

proof fn lemma_site_hits_within(sites: Seq<(usize, Seq<char>, CallStyle, Option<u64>)>, len: nat)
    requires
        forall|i: int| 0 <= i < sites.len() ==> (#[trigger] sites[i]).0 <= len && sites[i].0 < usize::MAX,
    ensures
        hits_within(site_hits(sites), len),
    decreases sites.len(),
{
    if sites.len() > 0 {
        let shorter = sites.drop_last();
        assert forall|i: int| 0 <= i < shorter.len() implies (#[trigger] shorter[i]).0 <= len
            && shorter[i].0 < usize::MAX by {
            assert(shorter[i] == sites[i]);
        }
        lemma_site_hits_within(shorter, len);
        assert(sites[sites.len() - 1] == sites.last());
    }
}

proof fn lemma_calls_hits_within(text: Seq<u8>, calls: Seq<CallChain>)
    requires
        calls_in_text(text, calls),
    ensures
        hits_within(calls_hits(calls), text.len()),
    decreases calls.len(),
{
    if calls.len() > 0 {
        let shorter = calls.drop_last();
        assert forall|i: int| 0 <= i < shorter.len() implies #[trigger] chain_in_text(text, shorter[i]) by {
            assert(shorter[i] == calls[i]);
        }
        lemma_calls_hits_within(text, shorter);
        assert(chain_in_text(text, calls[calls.len() - 1]));
        lemma_chain_hits_within(text, calls.last());
        let a = calls_hits(shorter);
        let b = chain_hits(calls.last());
        assert forall|i: int| 0 <= i < (a + b).len() implies (#[trigger] (a + b)[i]).offset <= text.len()
            && (a + b)[i].offset < usize::MAX by {
            if i >= a.len() {
                assert((a + b)[i] == b[i - a.len()]);
            } else {
                assert((a + b)[i] == a[i]);
            }
        }
    }
}

/// The offsets never decrease.
pub open spec fn offsets_nondecreasing(s: Seq<Hit>) -> bool {
    forall|i: int, j: int| 0 <= i < j < s.len() ==> s[i].offset <= s[j].offset
}

/// No two hits share an offset.
pub open spec fn offsets_distinct(s: Seq<Hit>) -> bool {
    forall|i: int, j: int| 0 <= i < j < s.len() ==> s[i].offset != s[j].offset
}

proof fn lemma_insert_by_offset(s: Seq<Hit>, h: Hit)
    ensures
        insert_by_offset(s, h).len() == s.len() + 1,
        forall|i: int|
            0 <= i < insert_by_offset(s, h).len() ==> #[trigger] insert_by_offset(s, h)[i] == h
                || s.contains(insert_by_offset(s, h)[i]),
        offsets_nondecreasing(s) ==> offsets_nondecreasing(insert_by_offset(s, h)),
        insert_by_offset(s, h).last() == h || (s.len() > 0 && insert_by_offset(s, h).last() == s.last()),
        (offsets_nondecreasing(s) && offsets_distinct(s) && forall|i: int|
            0 <= i < s.len() ==> s[i].offset != h.offset) ==> offsets_distinct(insert_by_offset(s, h)),
    decreases s.len(),
{
    let r = insert_by_offset(s, h);
    if s.len() == 0 || s.last().offset <= h.offset {
        assert forall|i: int| 0 <= i < r.len() implies #[trigger] r[i] == h || s.contains(r[i]) by {
            if i < s.len() {
                assert(r[i] == s[i]);
            }
        }
    } else {
        let t = s.drop_last();
        lemma_insert_by_offset(t, h);
        let q = insert_by_offset(t, h);
        assert forall|i: int| 0 <= i < r.len() implies #[trigger] r[i] == h || s.contains(r[i]) by {
            if i < q.len() {
                assert(r[i] == q[i]);
                if q[i] != h {
                    let k = choose|k: int| 0 <= k < t.len() && t[k] == q[i];
                    assert(s[k] == t[k]);
                }
            } else {
                assert(r[i] == s[s.len() - 1]);
            }
        }
        if offsets_nondecreasing(s) {
            assert(offsets_nondecreasing(t)) by {
                assert forall|i: int, j: int| 0 <= i < j < t.len() implies t[i].offset <= t[j].offset by {
                    assert(t[i] == s[i] && t[j] == s[j]);
                }
            }
            assert forall|i: int| 0 <= i < q.len() implies q[i].offset <= s.last().offset by {
                if q[i] != h {
                    let k = choose|k: int| 0 <= k < t.len() && t[k] == q[i];
                    assert(t[k] == s[k]);
                }
            }
            assert forall|i: int, j: int| 0 <= i < j < r.len() implies r[i].offset <= r[j].offset by {
                if j < q.len() {
                    assert(r[i] == q[i] && r[j] == q[j]);
                } else {
                    assert(r[i] == q[i]);
                }
            }
        }
        if offsets_nondecreasing(s) && offsets_distinct(s) && forall|i: int|
            0 <= i < s.len() ==> s[i].offset != h.offset {
            assert(offsets_distinct(t)) by {
                assert forall|i: int, j: int| 0 <= i < j < t.len() implies t[i].offset != t[j].offset by {
                    assert(t[i] == s[i] && t[j] == s[j]);
                }
            }
            assert(offsets_nondecreasing(t)) by {
                assert forall|i: int, j: int| 0 <= i < j < t.len() implies t[i].offset <= t[j].offset by {
                    assert(t[i] == s[i] && t[j] == s[j]);
                }
            }
            assert forall|i: int| 0 <= i < t.len() implies t[i].offset != h.offset by {
                assert(t[i] == s[i]);
            }
            assert forall|i: int| 0 <= i < q.len() implies q[i].offset != s.last().offset by {
                if q[i] != h {
                    let k = choose|k: int| 0 <= k < t.len() && t[k] == q[i];
                    assert(t[k] == s[k]);
                    assert(s[k].offset != s[s.len() - 1].offset);
                }
            }
            assert forall|i: int, j: int| 0 <= i < j < r.len() implies r[i].offset != r[j].offset by {
                if j < q.len() {
                    assert(r[i] == q[i] && r[j] == q[j]);
                } else {
                    assert(r[i] == q[i]);
                }
            }
        }
    }
}

proof fn lemma_sort_by_offset(s: Seq<Hit>)
    ensures
        sort_by_offset(s).len() == s.len(),
        offsets_nondecreasing(sort_by_offset(s)),
        forall|i: int| 0 <= i < s.len() ==> s.contains(#[trigger] sort_by_offset(s)[i]),
        offsets_distinct(s) ==> offsets_distinct(sort_by_offset(s)),
    decreases s.len(),
{
    if s.len() > 0 {
        let t = s.drop_last();
        lemma_sort_by_offset(t);
        let q = sort_by_offset(t);
        lemma_insert_by_offset(q, s.last());
        let r = sort_by_offset(s);
        assert forall|i: int| 0 <= i < s.len() implies s.contains(#[trigger] r[i]) by {
            if r[i] == s.last() {
                assert(s[s.len() - 1] == s.last());
            } else {
                let k = choose|k: int| 0 <= k < q.len() && q[k] == r[i];
                let m = choose|m: int| 0 <= m < t.len() && t[m] == q[k];
                assert(s[m] == t[m]);
            }
        }
        if offsets_distinct(s) {
            assert(offsets_distinct(t)) by {
                assert forall|i: int, j: int| 0 <= i < j < t.len() implies t[i].offset != t[j].offset by {
                    assert(t[i] == s[i] && t[j] == s[j]);
                }
            }
            assert forall|i: int| 0 <= i < q.len() implies q[i].offset != s.last().offset by {
                let m = choose|m: int| 0 <= m < t.len() && t[m] == q[i];
                assert(s[m] == t[m]);
            }
        }
    } else {
        assert(offsets_nondecreasing(sort_by_offset(s)));
    }
}

proof fn lemma_sort_within(s: Seq<Hit>, len: nat)
    requires
        hits_within(s, len),
    ensures
        hits_within(sort_by_offset(s), len),
{
    lemma_sort_by_offset(s);
    let r = sort_by_offset(s);
    assert forall|i: int| 0 <= i < r.len() implies (#[trigger] r[i]).offset <= len && r[i].offset
        < usize::MAX by {
        let k = choose|k: int| 0 <= k < s.len() && s[k] == r[i];
    }
}

/// Inserts a hit after every hit of smaller or equal offset at the end.
fn insert_hit(v: &mut Vec<Hit>, h: Hit)
    ensures
        final(v)@ == insert_by_offset(old(v)@, h),
{
    let ghost start = v@;
    let mut j = v.len();
    assert(start.subrange(0, j as int) =~= start);
    assert(insert_by_offset(start, h) =~= insert_by_offset(start.subrange(0, j as int), h) + start.subrange(
        j as int,
        start.len() as int,
    ));
    while j > 0 && v[j - 1].offset > h.offset
        invariant
            j <= v@.len(),
            v@ == start,
            insert_by_offset(start, h) == insert_by_offset(start.subrange(0, j as int), h) + start.subrange(
                j as int,
                start.len() as int,
            ),
        decreases j,
    {
        let ghost sub = start.subrange(0, j as int);
        assert(sub.drop_last() =~= start.subrange(0, j - 1));
        assert(sub.last() == start[j - 1]);
        assert(insert_by_offset(sub, h) == insert_by_offset(start.subrange(0, j - 1), h).push(start[j - 1]));
        assert(insert_by_offset(start.subrange(0, j - 1), h).push(start[j - 1]) + start.subrange(
            j as int,
            start.len() as int,
        ) =~= insert_by_offset(start.subrange(0, j - 1), h) + start.subrange(j - 1, start.len() as int));
        j = j - 1;
    }
    assert(insert_by_offset(start.subrange(0, j as int), h) == start.subrange(0, j as int).push(h));
    v.insert(j, h);
    assert(v@ =~= start.subrange(0, j as int).push(h) + start.subrange(j as int, start.len() as int));
}

/// The findings of all scripts in order, or the first syntax error.
pub open spec fn scan_outcome(scripts: Seq<ParsedScript>) -> Result<Seq<Finding>, SyntaxError>
    decreases scripts.len(),
{
    if scripts.len() == 0 {
        Ok(seq![])
    } else {
        match scan_outcome(scripts.drop_last()) {
            Err(e) => Err(e),
            Ok(before) => match scripts.last().calls {
                Err(e) => Err(e),
                Ok(calls) => Ok(
                    before + script_findings(
                        scripts.last().unit.location,
                        text_bytes(scripts.last().unit.source),
                        calls@,
                    ),
                ),
            },
        }
    }
}

/// Every parsed script's calls lie inside its text.
pub open spec fn scripts_well_located(scripts: Seq<ParsedScript>) -> bool {
    forall|i: int|
        0 <= i < scripts.len() ==> match #[trigger] scripts[i].calls {
            Ok(calls) => calls_in_text(text_bytes(scripts[i].unit.source), calls@),
            Err(_) => true,
        }
}

/// Findings of one script, located through a position index of its text:
/// one for each call that breaks a rule, ordered by the calls' offsets.
pub fn scan_script(unit: &ScriptUnit, calls: &Vec<CallChain>) -> (r: Vec<Finding>)
    requires
        calls_in_text(text_bytes(unit.source), calls@),
    ensures
        r@ == script_findings(unit.location, text_bytes(unit.source), calls@),
        in_weak_position_order(r@),
        offsets_distinct(calls_hits(calls@)) ==> in_position_order(r@),
{
    let text = unit.source.as_str().as_bytes();
    let index = PositionIndex::new(text);
    let mut sorted: Vec<Hit> = Vec::new();
    let ghost mut seen: Seq<Hit> = seq![];
    let mut i: usize = 0;
    while i < calls.len()
        invariant
            i <= calls@.len(),
            seen == calls_hits(calls@.subrange(0, i as int)),
            sorted@ == sort_by_offset(seen),
        decreases calls@.len() - i,
    {
        let ghost sub = calls@.subrange(0, i as int + 1);
        assert(sub.drop_last() =~= calls@.subrange(0, i as int));
        assert(sub.last() == calls@[i as int]);
        let hits = check_call(&calls[i]);
        let ghost base = seen;
        let mut k: usize = 0;
        while k < hits.len()
            invariant
                k <= hits@.len(),
                sorted@ == sort_by_offset(base + hits@.subrange(0, k as int)),
            decreases hits@.len() - k,
        {
            let ghost before = base + hits@.subrange(0, k as int);
            let ghost after = base + hits@.subrange(0, k as int + 1);
            assert(after.drop_last() =~= before);
            assert(after.last() == hits@[k as int]);
            insert_hit(&mut sorted, hits[k]);
            k = k + 1;
        }
        assert(hits@.subrange(0, k as int) =~= hits@);
        proof {
            seen = base + hits@;
        }
        i = i + 1;
    }
    assert(calls@.subrange(0, i as int) =~= calls@);
    let ghost tb = text_bytes(unit.source);
    proof {
        lemma_calls_hits_within(tb, calls@);
        lemma_sort_within(seen, tb.len());
    }
    let mut found: Vec<Finding> = Vec::new();
    let mut j: usize = 0;
    while j < sorted.len()
        invariant
            j <= sorted@.len(),
            index.wf(),
            index.text() == tb,
            hits_within(sorted@, tb.len()),
            found@ == sorted@.subrange(0, j as int).map_values(|h: Hit| finding_at(unit.location, tb, h)),
        decreases sorted@.len() - j,
    {
        let h = sorted[j];
        assert(sorted@[j as int] == h);
        let (line, column) = index.map(h.offset);
        let ghost before = found@;
        found.push(Finding { script_location: unit.location.clone(), line, column, rule: h.rule });
        assert(found@ =~= sorted@.subrange(0, j as int + 1).map_values(|h: Hit| finding_at(unit.location, tb, h)));
        j = j + 1;
    }
    assert(sorted@.subrange(0, j as int) =~= sorted@);
    proof {
        lemma_findings_in_position_order(unit.location, tb, calls@);
    }
    found
}

fn copy_syntax_error(e: &SyntaxError) -> (r: SyntaxError)
    ensures
        r == *e,
{
    SyntaxError { offset: e.offset, message: e.message.clone() }
}

/// Scans every script in order. The first script that failed to parse makes
/// the whole scan fail with its error; otherwise the report holds, script
/// after script, one finding for every call of every chain that breaks a
/// rule, ordered within a script by the calls' offsets.
pub fn scan_scripts(scripts: &Vec<ParsedScript>) -> (r: Result<ScanReport, SyntaxError>)
    requires
        scripts_well_located(scripts@),
    ensures
        match scan_outcome(scripts@) {
            Ok(findings) => r matches Ok(report) && report.findings@ == findings
                && report.is_malicious == (findings.len() > 0),
            Err(e) => r == Err::<ScanReport, SyntaxError>(e),
        },
{
    let mut all: Vec<Finding> = Vec::new();
    let mut i: usize = 0;
    while i < scripts.len()
        invariant
            i <= scripts@.len(),
            scripts_well_located(scripts@),
            scan_outcome(scripts@.subrange(0, i as int)) == Ok::<Seq<Finding>, SyntaxError>(all@),
        decreases scripts@.len() - i,
    {
        let ghost prefix = scripts@.subrange(0, i as int + 1);
        assert(prefix.drop_last() =~= scripts@.subrange(0, i as int));
        let s = &scripts[i];
        match &s.calls {
            Err(e) => {
                proof {
                    lemma_outcome_err_extends(scripts@, i as int + 1);
                }
                return Err(copy_syntax_error(e));
            },
            Ok(calls) => {
                assert(calls_in_text(text_bytes(s.unit.source), calls@)) by {
                    assert(scripts@[i as int] == *s);
                }
                let mut found = scan_script(&s.unit, calls);
                all.append(&mut found);
            },
        }
        i = i + 1;
    }
    assert(scripts@.subrange(0, i as int) =~= scripts@);
    let is_malicious = all.len() > 0;
    Ok(ScanReport { is_malicious, findings: all })
}

/// `a` lies strictly before the position (`line`, `column`).
pub open spec fn before_position(a: Finding, line: int, column: int) -> bool {
    a.line < line || (a.line == line && a.column < column)
}

/// Each finding lies strictly before the next one.
pub open spec fn in_position_order(f: Seq<Finding>) -> bool {
    forall|i: int, j: int|
        0 <= i < j < f.len() ==> before_position(f[i], f[j].line as int, f[j].column as int)
}

/// No finding lies after a later one.
pub open spec fn in_weak_position_order(f: Seq<Finding>) -> bool {
    forall|i: int, j: int|
        0 <= i < j < f.len() ==> before_position(f[i], f[j].line as int, f[j].column as int) || (
        f[i].line == f[j].line && f[i].column == f[j].column)
}

/// Within one script, findings follow the byte offsets of their calls: a
/// finding never lies after a later one, and when no two offending calls
/// share an offset each finding lies strictly after the one before it (on a
/// later line, or later on the same line).
pub proof fn lemma_findings_in_position_order(location: String, text: Seq<u8>, calls: Seq<CallChain>)
    requires
        calls_in_text(text, calls),
    ensures
        in_weak_position_order(script_findings(location, text, calls)),
        offsets_distinct(calls_hits(calls)) ==> in_position_order(script_findings(location, text, calls)),
{
    let hits = calls_hits(calls);
    lemma_calls_hits_within(text, calls);
    lemma_sort_by_offset(hits);
    lemma_sort_within(hits, text.len());
    let s = sort_by_offset(hits);
    let f = script_findings(location, text, calls);
    assert forall|i: int, j: int| 0 <= i < j < f.len() implies before_position(
        f[i],
        f[j].line as int,
        f[j].column as int,
    ) || (f[i].line == f[j].line && f[i].column == f[j].column) by {
        assert(f[i] == finding_at(location, text, s[i]));
        assert(f[j] == finding_at(location, text, s[j]));
        lemma_position_bounds(text, s[i].offset as int);
        lemma_position_bounds(text, s[j].offset as int);
        if s[i].offset < s[j].offset {
            lemma_position_order(text, s[i].offset as int, s[j].offset as int);
        }
    }
    if offsets_distinct(hits) {
        assert forall|i: int, j: int| 0 <= i < j < f.len() implies before_position(
            f[i],
            f[j].line as int,
            f[j].column as int,
        ) by {
            assert(f[i] == finding_at(location, text, s[i]));
            assert(f[j] == finding_at(location, text, s[j]));
            lemma_position_bounds(text, s[i].offset as int);
            lemma_position_bounds(text, s[j].offset as int);
            assert(s[i].offset != s[j].offset);
            lemma_position_order(text, s[i].offset as int, s[j].offset as int);
        }
    }
}

/// Across scripts, findings come script after script: the findings of a scan
/// that adds one script are those of the scripts before it, then its own.
pub proof fn lemma_findings_by_script(scripts: Seq<ParsedScript>, next: ParsedScript)
    requires
        scan_outcome(scripts) is Ok,
        next.calls is Ok,
    ensures
        scan_outcome(scripts.push(next)) == Ok::<Seq<Finding>, SyntaxError>(
            scan_outcome(scripts)->Ok_0 + script_findings(
                next.unit.location,
                text_bytes(next.unit.source),
                next.calls->Ok_0@,
            ),
        ),
{
    assert(scripts.push(next).drop_last() =~= scripts);
}

proof fn lemma_outcome_err_extends(scripts: Seq<ParsedScript>, k: int)
    requires
        0 <= k <= scripts.len(),
        scan_outcome(scripts.subrange(0, k)) is Err,
    ensures
        scan_outcome(scripts) == scan_outcome(scripts.subrange(0, k)),
    decreases scripts.len() - k,
{
    if k < scripts.len() {
        assert(scripts.drop_last().subrange(0, k) =~= scripts.subrange(0, k));
        lemma_outcome_err_extends(scripts.drop_last(), k);
    } else {
        assert(scripts.subrange(0, k) =~= scripts);
    }
}

} // verus!
