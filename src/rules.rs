//! Call shapes of the scripting language and the fixed rule set matched against them.
use vstd::prelude::*;

verus! {

/// What a call chain starts from.
pub enum CallPrefix {
    /// A bare identifier, as in `f(...)` or `obj:f(...)`.
    Name(String),
    /// Anything else, such as a parenthesised expression.
    Expression,
}

/// One argument inside a parenthesised argument list.
pub enum Argument {
    /// A number token, with its text as written.
    Number(String),
    /// Any other expression.
    Other,
}

/// The argument part of one call.
pub enum CallArgs {
    /// `(a, b, ...)`.
    Parentheses(Vec<Argument>),
    /// A lone string literal, as in `f "x"`.
    StringLiteral,
    /// A lone table constructor, as in `f { ... }`.
    Table,
}

/// One link of a call chain after its prefix.
pub enum CallSuffix {
    /// `.name` or `[expr]`.
    Index,
    /// `(args)`: a call of what precedes it.
    Call(CallArgs),
    /// `:name(args)`: a method-style call.
    MethodCall(String, CallArgs),
}

/// A call expression: a prefix followed by index and call links.
pub struct CallChain {
    /// Byte offset of the first byte of the expression in its script.
    pub offset: usize,
    pub prefix: CallPrefix,
    /// The links after the prefix, in source order.
    pub suffixes: Vec<CallSuffix>,
}

/// How the resolved function was invoked.
#[derive(PartialEq, Eq, Structural, Clone, Copy, Debug)]
pub enum CallStyle {
    /// `f(...)`.
    Direct,
    /// `obj:f(...)`.
    Method,
}

/// A call whose function name could be resolved: the function named by the
/// prefix of a chain whose first link is `(...)`, or the name of a
/// `:name(...)` link; it lies at the start of its chain.
pub struct CallSite {
    pub offset: usize,
    pub callee: String,
    pub style: CallStyle,
    /// The first argument, when it is a bare number token that reads as a `u64`.
    pub literal_first_argument: Option<u64>,
}

/// A rule violation found at a call site.
#[derive(PartialEq, Eq, Structural, Clone, Copy, Debug)]
pub enum Rule {
    /// A call of `getfenv`.
    GlobalEnvRead,
    /// A call of `setfenv`.
    GlobalEnvWrite,
    /// A call of `require` whose first argument is a numeric module id.
    NumericRequire(u64),
}

pub open spec fn is_decimal_digit(c: char) -> bool {
    '0' <= c && c <= '9'
}

pub open spec fn all_digits(s: Seq<char>) -> bool {
    forall|i: int| 0 <= i < s.len() ==> is_decimal_digit(#[trigger] s[i])
}

/// Value of a string of decimal digits.
pub open spec fn digits_value(s: Seq<char>) -> nat
    decreases s.len(),
{
    if s.len() == 0 {
        0
    } else {
        digits_value(s.drop_last()) * 10 + ((s.last() as u32) - ('0' as u32)) as nat
    }
}

/// The digits of an unsigned number: the text without one leading `+`.
pub open spec fn unsigned_digits(text: Seq<char>) -> Seq<char> {
    if text.len() > 0 && text[0] == '+' {
        text.drop_first()
    } else {
        text
    }
}

/// The `u64` that `text` spells in decimal, with an optional leading `+`.
pub open spec fn decimal_u64(text: Seq<char>) -> Option<u64> {
    let d = unsigned_digits(text);
    if d.len() > 0 && all_digits(d) && digits_value(d) <= u64::MAX {
        Some(digits_value(d) as u64)
    } else {
        None
    }
}

proof fn lemma_digits_value_prefix(s: Seq<char>, k: int)
    requires
        0 <= k <= s.len(),
        all_digits(s),
    ensures
        digits_value(s.subrange(0, k)) <= digits_value(s),
    decreases s.len() - k,
{
    if k < s.len() {
        let t = s.drop_last();
        assert(all_digits(t)) by {
            assert forall|i: int| 0 <= i < t.len() implies is_decimal_digit(#[trigger] t[i]) by {
                assert(t[i] == s[i]);
            }
        }
        if k < t.len() {
            lemma_digits_value_prefix(t, k);
        }
        assert(t.subrange(0, k) =~= s.subrange(0, k));
        assert(s.subrange(0, s.len() as int) =~= s);
        assert(t.subrange(0, t.len() as int) =~= t);
    } else {
        assert(s.subrange(0, k) =~= s);
    }
}

/// Reads a number token as a `u64`: an optional `+`, then one or more decimal
/// digits, whose value fits.
pub fn parse_decimal_u64(text: &str) -> (r: Option<u64>)
    ensures
        r == decimal_u64(text@),
{
    let n = text.unicode_len();
    let mut start: usize = 0;
    if n > 0 && text.get_char(0) == '+' {
        start = 1;
    }
    let ghost d = unsigned_digits(text@);
    assert(d =~= text@.subrange(start as int, n as int));
    if start >= n {
        return None;
    }
    let mut v: u64 = 0;
    let mut i: usize = start;
    while i < n
        invariant
            start <= i <= n,
            n == text@.len(),
            d == text@.subrange(start as int, n as int),
            d == unsigned_digits(text@),
            all_digits(text@.subrange(start as int, i as int)),
            v == digits_value(text@.subrange(start as int, i as int)),
        decreases n - i,
    {
        let c = text.get_char(i);
        let ghost p = text@.subrange(start as int, i as int + 1);
        assert(p.drop_last() =~= text@.subrange(start as int, i as int));
        assert(p.last() == c);
        if !('0' <= c && c <= '9') {
            assert(d[i - start] == c);
            assert(!is_decimal_digit(d[i - start]));
            assert(!all_digits(d));
            return None;
        }
        assert(all_digits(p)) by {
            assert forall|j: int| 0 <= j < p.len() implies is_decimal_digit(#[trigger] p[j]) by {
                if j < p.len() - 1 {
                    assert(p[j] == text@.subrange(start as int, i as int)[j]);
                }
            }
        }
        let digit = ((c as u32) - ('0' as u32)) as u64;
        let w: u128 = (v as u128) * 10 + (digit as u128);
        assert(digits_value(p) == w);
        if w > u64::MAX as u128 {
            proof {
                if all_digits(d) {
                    assert(d.subrange(0, i - start + 1) =~= p);
                    lemma_digits_value_prefix(d, i - start + 1);
                }
            }
            return None;
        }
        v = w as u64;
        i = i + 1;
    }
    assert(text@.subrange(start as int, i as int) =~= d);
    Some(v)
}

/// The numeric id in the first argument of a call, if it has one.
pub open spec fn literal_of(args: CallArgs) -> Option<u64> {
    match args {
        CallArgs::Parentheses(list) => {
            if list@.len() > 0 {
                match list@[0] {
                    Argument::Number(t) => decimal_u64(t@),
                    Argument::Other => None,
                }
            } else {
                None
            }
        },
        _ => None,
    }
}

/// A resolved call as the contracts see it: offset, callee, style, literal first argument.
pub open spec fn site_view(s: CallSite) -> (usize, Seq<char>, CallStyle, Option<u64>) {
    (s.offset, s.callee@, s.style, s.literal_first_argument)
}

/// The direct call of a chain: its prefix name, when the first link is `(...)`,
/// at the start of the chain.
pub open spec fn direct_sites(c: CallChain) -> Seq<(usize, Seq<char>, CallStyle, Option<u64>)> {
    let s = c.suffixes@;
    if s.len() == 0 {
        seq![]
    } else {
        match (c.prefix, s[0]) {
            (CallPrefix::Name(n), CallSuffix::Call(args)) => seq![
                (c.offset, n@, CallStyle::Direct, literal_of(args)),
            ],
            _ => seq![],
        }
    }
}

/// The method calls among links, in order. A call starts where its call
/// expression starts, so each lies at `offset`, the start of the chain.
pub open spec fn method_sites(s: Seq<CallSuffix>, offset: usize) -> Seq<
    (usize, Seq<char>, CallStyle, Option<u64>),
>
    decreases s.len(),
{
    if s.len() == 0 {
        seq![]
    } else {
        let rest = method_sites(s.drop_last(), offset);
        match s.last() {
            CallSuffix::MethodCall(m, args) => rest.push(
                (offset, m@, CallStyle::Method, literal_of(args)),
            ),
            _ => rest,
        }
    }
}

/// Every call of a chain whose function name resolves: the direct call, then
/// the method calls in order. Calls of other values (`f()()`, `t.f()`) name no function.
pub open spec fn chain_sites(c: CallChain) -> Seq<(usize, Seq<char>, CallStyle, Option<u64>)> {
    direct_sites(c) + method_sites(c.suffixes@, c.offset)
}

/// The rule that a resolved call breaks, if any.
pub open spec fn rule_for(callee: Seq<char>, literal: Option<u64>) -> Option<Rule> {
    if callee == "getfenv"@ {
        Some(Rule::GlobalEnvRead)
    } else if callee == "setfenv"@ {
        Some(Rule::GlobalEnvWrite)
    } else if callee == "require"@ && literal is Some {
        Some(Rule::NumericRequire(literal->0))
    } else {
        None
    }
}

/// A rule broken at a byte offset.
#[derive(PartialEq, Eq, Structural, Clone, Copy, Debug)]
pub struct Hit {
    pub offset: usize,
    pub rule: Rule,
}

/// The rules broken by resolved calls, in their order.
pub open spec fn site_hits(sites: Seq<(usize, Seq<char>, CallStyle, Option<u64>)>) -> Seq<Hit>
    decreases sites.len(),
{
    if sites.len() == 0 {
        seq![]
    } else {
        let rest = site_hits(sites.drop_last());
        let s = sites.last();
        match rule_for(s.1, s.3) {
            Some(rule) => rest.push(Hit { offset: s.0, rule }),
            None => rest,
        }
    }
}

/// The rules broken by the calls of a chain, in the order of its calls.
pub open spec fn chain_hits(c: CallChain) -> Seq<Hit> {
    site_hits(chain_sites(c))
}

fn first_literal(args: &CallArgs) -> (r: Option<u64>)
    ensures
        r == literal_of(*args),
{
    match args {
        CallArgs::Parentheses(list) => {
            if list.len() > 0 {
                match &list[0] {
                    Argument::Number(t) => parse_decimal_u64(t.as_str()),
                    Argument::Other => None,
                }
            } else {
                None
            }
        },
        _ => None,
    }
}

/// Resolves every call of a chain whose function name is known, whatever the
/// call style: the prefix name when the first link is `(...)`, then the name
/// of each `:name(...)` link. Each call lies at the start of the chain, where
/// its call expression starts.
pub fn resolve_call(c: &CallChain) -> (r: Vec<CallSite>)
    ensures
        r@.map_values(|s: CallSite| site_view(s)) == chain_sites(*c),
{
    let mut sites: Vec<CallSite> = Vec::new();
    let n = c.suffixes.len();
    if n > 0 {
        if let CallPrefix::Name(name) = &c.prefix {
            if let CallSuffix::Call(args) = &c.suffixes[0] {
                sites.push(
                    CallSite {
                        offset: c.offset,
                        callee: name.clone(),
                        style: CallStyle::Direct,
                        literal_first_argument: first_literal(args),
                    },
                );
            }
        }
    }
    let ghost direct = sites@.map_values(|s: CallSite| site_view(s));
    assert(direct =~= direct_sites(*c));
    let mut i: usize = 0;
    while i < n
        invariant
            i <= n,
            n == c.suffixes@.len(),
            direct == direct_sites(*c),
            sites@.map_values(|s: CallSite| site_view(s)) == direct + method_sites(
                c.suffixes@.subrange(0, i as int),
                c.offset,
            ),
        decreases n - i,
    {
        let ghost before = sites@.map_values(|s: CallSite| site_view(s));
        let ghost sub = c.suffixes@.subrange(0, i as int + 1);
        assert(sub.drop_last() =~= c.suffixes@.subrange(0, i as int));
        assert(sub.last() == c.suffixes@[i as int]);
        match &c.suffixes[i] {
            CallSuffix::MethodCall(m, args) => {
                let site = CallSite {
                    offset: c.offset,
                    callee: m.clone(),
                    style: CallStyle::Method,
                    literal_first_argument: first_literal(args),
                };
                sites.push(site);
                assert(sites@.map_values(|s: CallSite| site_view(s)) =~= before.push(site_view(site)));
            },
            _ => {},
        }
        i = i + 1;
    }
    assert(c.suffixes@.subrange(0, i as int) =~= c.suffixes@);
    sites
}

/// Applies the rules in order to a resolved call; the first that matches is reported.
pub fn check_site(site: &CallSite) -> (r: Option<Rule>)
    ensures
        r == rule_for(site.callee@, site.literal_first_argument),
{
    if site.callee == "getfenv".to_owned() {
        Some(Rule::GlobalEnvRead)
    } else if site.callee == "setfenv".to_owned() {
        Some(Rule::GlobalEnvWrite)
    } else if site.callee == "require".to_owned() {
        match site.literal_first_argument {
            Some(id) => Some(Rule::NumericRequire(id)),
            None => None,
        }
    } else {
        None
    }
}

/// The rules that the calls of a chain break, one per offending call, in the
/// order of its calls.
pub fn check_call(c: &CallChain) -> (r: Vec<Hit>)
    ensures
        r@ == chain_hits(*c),
{
    let sites = resolve_call(c);
    let ghost sv = sites@.map_values(|s: CallSite| site_view(s));
    let mut hits: Vec<Hit> = Vec::new();
    let mut i: usize = 0;
    while i < sites.len()
        invariant
            i <= sites@.len(),
            sv == sites@.map_values(|s: CallSite| site_view(s)),
            sv == chain_sites(*c),
            hits@ == site_hits(sv.subrange(0, i as int)),
        decreases sites@.len() - i,
    {
        let ghost sub = sv.subrange(0, i as int + 1);
        assert(sub.drop_last() =~= sv.subrange(0, i as int));
        assert(sub.last() == site_view(sites@[i as int]));
        match check_site(&sites[i]) {
            Some(rule) => hits.push(Hit { offset: sites[i].offset, rule }),
            None => {},
        }
        i = i + 1;
    }
    assert(sv.subrange(0, i as int) =~= sv);
    hits
}

/// Call style does not change detection: a direct call `f(args)` and a
/// method-style call `obj:f(args)` of the same name with the same arguments
/// resolve to the same callee and literal, and break the same rule.
pub proof fn lemma_call_style_irrelevant(
    direct: CallChain,
    method: CallChain,
    name: Seq<char>,
    args: CallArgs,
)
    requires
        direct.prefix matches CallPrefix::Name(n) && n@ == name,
        direct.suffixes@ == seq![CallSuffix::Call(args)],
        method.suffixes@.len() == 1,
        method.suffixes@[0] matches CallSuffix::MethodCall(m, a) && m@ == name && a == args,
        direct.offset == method.offset,
    ensures
        chain_sites(direct) == seq![(direct.offset, name, CallStyle::Direct, literal_of(args))],
        chain_sites(method) == seq![(method.offset, name, CallStyle::Method, literal_of(args))],
        chain_hits(direct) == chain_hits(method),
{
    let ms = method.suffixes@;
    assert(ms.drop_last() =~= Seq::<CallSuffix>::empty());
    assert(direct.suffixes@.drop_last() =~= Seq::<CallSuffix>::empty());
    assert(direct.suffixes@[0] == CallSuffix::Call(args));
    assert(direct.suffixes@.last() == CallSuffix::Call(args));
    assert(method_sites(direct.suffixes@.drop_last(), direct.offset) =~= Seq::<(usize, Seq<char>, CallStyle, Option<u64>)>::empty());
    assert(method_sites(direct.suffixes@, direct.offset) =~= Seq::<(usize, Seq<char>, CallStyle, Option<u64>)>::empty());
    assert(direct_sites(direct) =~= seq![(direct.offset, name, CallStyle::Direct, literal_of(args))]);
    assert(chain_sites(direct) =~= seq![(direct.offset, name, CallStyle::Direct, literal_of(args))]);
    assert(method_sites(ms.drop_last(), method.offset) =~= Seq::<(usize, Seq<char>, CallStyle, Option<u64>)>::empty());
    assert(ms.last() == ms[0]);
    assert(direct_sites(method) =~= Seq::<(usize, Seq<char>, CallStyle, Option<u64>)>::empty());
    let ds = chain_sites(direct);
    let mt = chain_sites(method);
    assert(mt =~= method_sites(ms, method.offset));
    assert(ds.drop_last() =~= Seq::<(usize, Seq<char>, CallStyle, Option<u64>)>::empty());
    assert(mt.drop_last() =~= Seq::<(usize, Seq<char>, CallStyle, Option<u64>)>::empty());
}

} // verus!
