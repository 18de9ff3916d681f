//! Reading the text container encoding, an XML document: elements with
//! their attributes, child elements and text, with character references
//! resolved, CDATA kept, and comments and processing instructions skipped.
use vstd::prelude::*;
use vstd::utf8::{encode_utf8, encode_utf8_decode_utf8, encode_utf8_valid_utf8, valid_utf8};
use crate::binary::{ContainerFormatError, copy_range};
use crate::tree::text_from_utf8;

verus! {

/// An attribute of an element.
pub struct XmlAttr {
    pub name: String,
    pub value: String,
}

/// An element with its attributes, child elements, and the text directly inside it.
pub struct XmlElement {
    pub name: String,
    pub attrs: Vec<XmlAttr>,
    pub children: Vec<XmlElement>,
    pub text: Vec<u8>,
}

pub open spec fn is_space_byte(c: u8) -> bool {
    c == 32 || c == 9 || c == 10 || c == 13
}

/// `<roblox` followed by a space, `>` or `/`: the start of a text container.
pub open spec fn xml_marker(b: Seq<u8>) -> bool {
    &&& b.len() >= 8
    &&& b.subrange(0, 7) == seq![60u8, 114, 111, 98, 108, 111, 120]
    &&& (is_space_byte(b[7]) || b[7] == 62 || b[7] == 47)
}

pub fn has_xml_marker(b: &[u8]) -> (r: bool)
    ensures
        r == xml_marker(b@),
{
    if b.len() < 8 {
        return false;
    }
    let r = b[0] == 60 && b[1] == 114 && b[2] == 111 && b[3] == 98 && b[4] == 108 && b[5] == 111
        && b[6] == 120 && (is_space(b[7]) || b[7] == 62 || b[7] == 47);
    proof {
        if r {
            assert(b@.subrange(0, 7) =~= seq![60u8, 114, 111, 98, 108, 111, 120]);
        } else if b@.subrange(0, 7) == seq![60u8, 114, 111, 98, 108, 111, 120] {
            assert forall|i: int| 0 <= i < 7 implies b@[i] == seq![60u8, 114, 111, 98, 108, 111, 120][i] by {
                assert(b@.subrange(0, 7)[i] == b@[i]);
            }
        }
    }
    r
}

fn is_space(c: u8) -> (r: bool)
    ensures
        r == is_space_byte(c),
{
    c == 32 || c == 9 || c == 10 || c == 13
}

/// Bytes that may appear in a tag or attribute name.
pub open spec fn is_name_byte(c: u8) -> bool {
    !(is_space_byte(c) || c == 60 || c == 62 || c == 47 || c == 61 || c == 34 || c == 39 || c == 38)
}

/// `lit` occurs in `b` at `p`.
pub open spec fn occurs(b: Seq<u8>, p: int, lit: Seq<u8>) -> bool {
    0 <= p && p + lit.len() <= b.len() && b.subrange(p, p + lit.len()) == lit
}

/// The first position at or after `p` that does not hold a space.
pub open spec fn space_end(b: Seq<u8>, p: int) -> int
    decreases b.len() - p,
{
    if 0 <= p < b.len() && is_space_byte(b[p]) {
        space_end(b, p + 1)
    } else {
        p
    }
}

/// The first position at or after `p` that does not hold a name byte.
pub open spec fn name_end(b: Seq<u8>, p: int) -> int
    decreases b.len() - p,
{
    if 0 <= p < b.len() && is_name_byte(b[p]) {
        name_end(b, p + 1)
    } else {
        p
    }
}

/// A non-empty UTF-8 name at `p`, and where it ends.
pub open spec fn name_at(b: Seq<u8>, p: int) -> Option<(Seq<u8>, int)> {
    let q = name_end(b, p);
    if q == p || !valid_utf8(b.subrange(p, q)) {
        None
    } else {
        Some((b.subrange(p, q), q))
    }
}

/// Just past the first occurrence of `lit` that starts at or after `p`.
pub open spec fn find_past(b: Seq<u8>, p: int, lit: Seq<u8>) -> Option<int>
    decreases b.len() - p,
{
    if p < 0 || p >= b.len() {
        None
    } else if occurs(b, p, lit) {
        Some(p + lit.len())
    } else {
        find_past(b, p + 1, lit)
    }
}

/// The value of a digit of a character reference.
pub open spec fn digit_value(c: u8, hex: bool) -> Option<nat> {
    if 48 <= c <= 57 {
        Some((c - 48) as nat)
    } else if hex && 97 <= c <= 102 {
        Some((c - 87) as nat)
    } else if hex && 65 <= c <= 70 {
        Some((c - 55) as nat)
    } else {
        None
    }
}

/// The code point that the digits from `q` up to `;` (or the end) spell, on
/// top of `cp` read so far, and where they stop; no larger than `0x10FFFF`.
pub open spec fn ref_digits(b: Seq<u8>, q: int, hex: bool, cp: nat) -> Option<(nat, int)>
    decreases b.len() - q,
{
    if q < 0 {
        None
    } else if q >= b.len() || b[q] == 59 {
        Some((cp, q))
    } else {
        match digit_value(b[q], hex) {
            None => None,
            Some(v) => {
                let next = if hex { cp * 16 + v } else { cp * 10 + v };
                if next > 0x10FFFF {
                    None
                } else {
                    ref_digits(b, q + 1, hex, next)
                }
            },
        }
    }
}

/// The UTF-8 bytes of a character code other than zero and the surrogates.
pub open spec fn utf8_of(cp: nat) -> Option<Seq<u8>> {
    if cp == 0 || cp > 0x10FFFF || (0xD800 <= cp && cp <= 0xDFFF) {
        None
    } else if cp < 0x80 {
        Some(seq![cp as u8])
    } else if cp < 0x800 {
        Some(seq![(0xC0 + cp / 64) as u8, (0x80 + cp % 64) as u8])
    } else if cp < 0x10000 {
        Some(seq![(0xE0 + cp / 4096) as u8, (0x80 + (cp / 64) % 64) as u8, (0x80 + cp % 64) as u8])
    } else {
        Some(
            seq![
                (0xF0 + cp / 262144) as u8,
                (0x80 + (cp / 4096) % 64) as u8,
                (0x80 + (cp / 64) % 64) as u8,
                (0x80 + cp % 64) as u8,
            ],
        )
    }
}

/// The five named entities `lt`, `gt`, `amp`, `quot`, `apos` with their `;`,
/// at `q`: the byte each stands for, and where it ends.
pub open spec fn named_ref(b: Seq<u8>, q: int) -> Option<(u8, int)> {
    if occurs(b, q, seq![108u8, 116, 59]) {
        Some((60u8, q + 3))
    } else if occurs(b, q, seq![103u8, 116, 59]) {
        Some((62u8, q + 3))
    } else if occurs(b, q, seq![97u8, 109, 112, 59]) {
        Some((38u8, q + 4))
    } else if occurs(b, q, seq![113u8, 117, 111, 116, 59]) {
        Some((34u8, q + 5))
    } else if occurs(b, q, seq![97u8, 112, 111, 115, 59]) {
        Some((39u8, q + 5))
    } else {
        None
    }
}

/// The bytes that the reference starting with `&` at `p` stands for, and where it ends.
pub open spec fn reference_at(b: Seq<u8>, p: int) -> Option<(Seq<u8>, int)> {
    let q = p + 1;
    if 0 <= q < b.len() && b[q] == 35 {
        let hex = q + 1 < b.len() && b[q + 1] == 120;
        let start = if hex { q + 2 } else { q + 1 };
        match ref_digits(b, start, hex, 0) {
            None => None,
            Some((cp, e)) => if e == start || e >= b.len() {
                None
            } else {
                match utf8_of(cp) {
                    Some(s) => Some((s, e + 1)),
                    None => None,
                }
            },
        }
    } else {
        match named_ref(b, q) {
            Some((c, e)) => Some((seq![c], e)),
            None => None,
        }
    }
}

/// The text of an attribute value from `q` up to the closing `quote`, after
/// `acc`, and where the value ends.
pub open spec fn attr_text(b: Seq<u8>, q: int, quote: u8, acc: Seq<u8>) -> Option<(Seq<u8>, int)>
    decreases b.len() - q,
{
    if q < 0 || q >= b.len() {
        None
    } else if b[q] == quote {
        Some((acc, q + 1))
    } else if b[q] == 38 {
        match reference_at(b, q) {
            Some((s, e)) => if q < e <= b.len() {
                attr_text(b, e, quote, acc + s)
            } else {
                None
            },
            None => None,
        }
    } else if b[q] == 60 {
        None
    } else {
        attr_text(b, q + 1, quote, acc.push(b[q]))
    }
}

/// A quoted UTF-8 attribute value at `q`, and where it ends.
pub open spec fn attr_value_at(b: Seq<u8>, q: int) -> Option<(Seq<u8>, int)> {
    if q < 0 || q >= b.len() || (b[q] != 34 && b[q] != 39) {
        None
    } else {
        match attr_text(b, q + 1, b[q], seq![]) {
            Some((v, e)) => if valid_utf8(v) {
                Some((v, e))
            } else {
                None
            },
            None => None,
        }
    }
}

/// The attributes from `q` on, after `acc`, up to the `>` or `/` that ends the tag.
pub open spec fn attrs_from(b: Seq<u8>, q: int, acc: Seq<(Seq<u8>, Seq<u8>)>) -> Option<
    (Seq<(Seq<u8>, Seq<u8>)>, int),
>
    decreases b.len() - q,
{
    let q1 = space_end(b, q);
    if q < 0 || q1 >= b.len() {
        None
    } else if b[q1] == 62 || b[q1] == 47 {
        Some((acc, q1))
    } else {
        match name_at(b, q1) {
            None => None,
            Some((an, after)) => {
                let q2 = space_end(b, after);
                if !(q2 < b.len() && b[q2] == 61) {
                    None
                } else {
                    let q3 = space_end(b, q2 + 1);
                    if q3 >= b.len() {
                        None
                    } else {
                        match attr_value_at(b, q3) {
                            None => None,
                            Some((v, e)) => if q < e <= b.len() {
                                attrs_from(b, e, acc.push((an, v)))
                            } else {
                                None
                            },
                        }
                    }
                }
            },
        }
    }
}

/// An element as the bytes give it: name, attributes, child elements, text.
pub struct XmlView {
    pub name: Seq<u8>,
    pub attrs: Seq<(Seq<u8>, Seq<u8>)>,
    pub children: Seq<XmlView>,
    pub text: Seq<u8>,
}

pub open spec fn cdata_open() -> Seq<u8> {
    seq![60u8, 33, 91, 67, 68, 65, 84, 65, 91]
}

/// The content of an element named `name` from `q` on, after the children
/// `kids` and text `text` read so far: child elements, text with references
/// resolved, CDATA sections kept as they are, comments and processing
/// instructions skipped, up to the end tag; and where the element ends.
pub open spec fn content_from(
    b: Seq<u8>,
    q: int,
    depth: nat,
    name: Seq<u8>,
    kids: Seq<XmlView>,
    text: Seq<u8>,
) -> Option<
    (Seq<XmlView>, Seq<u8>, int),
>
    decreases b.len() - q, 2nat,
{
    if q < 0 || q >= b.len() {
        None
    } else if b[q] == 60 {
        if q + 1 < b.len() && b[q + 1] == 47 {
            match name_at(b, q + 2) {
                None => None,
                Some((closing, after)) => if closing != name {
                    None
                } else {
                    let end = space_end(b, after);
                    if end < b.len() && b[end] == 62 {
                        Some((kids, text, end + 1))
                    } else {
                        None
                    }
                },
            }
        } else if occurs(b, q, cdata_open()) {
            let start = q + 9;
            match find_past(b, start, seq![93u8, 93, 62]) {
                None => None,
                Some(end) => if end - start < 3 || end > b.len() {
                    None
                } else {
                    content_from(b, end, depth, name, kids, text + b.subrange(start, end - 3))
                },
            }
        } else if occurs(b, q, seq![60u8, 33, 45, 45]) {
            match find_past(b, q + 4, seq![45u8, 45, 62]) {
                None => None,
                Some(e) => if q < e <= b.len() {
                    content_from(b, e, depth, name, kids, text)
                } else {
                    None
                },
            }
        } else if q + 1 < b.len() && b[q + 1] == 63 {
            match find_past(b, q + 2, seq![63u8, 62]) {
                None => None,
                Some(e) => if q < e <= b.len() {
                    content_from(b, e, depth, name, kids, text)
                } else {
                    None
                },
            }
        } else {
            match element_at(b, q, (depth - 1) as nat) {
                None => None,
                Some((child, after)) => if q < after <= b.len() {
                    content_from(b, after, depth, name, kids.push(child), text)
                } else {
                    None
                },
            }
        }
    } else if b[q] == 38 {
        match reference_at(b, q) {
            Some((s, e)) => if q < e <= b.len() {
                content_from(b, e, depth, name, kids, text + s)
            } else {
                None
            },
            None => None,
        }
    } else {
        content_from(b, q + 1, depth, name, kids, text.push(b[q]))
    }
}

/// The element whose `<` is at `p`, with elements nested at most `depth`
/// deep, and where it ends: `<name attrs/>`, or `<name attrs>` then its content.
pub open spec fn element_at(b: Seq<u8>, p: int, depth: nat) -> Option<(XmlView, int)>
    decreases b.len() - p, 1nat,
{
    if depth == 0 || p < 0 || p >= b.len() {
        None
    } else {
        match name_at(b, p + 1) {
            None => None,
            Some((name, q)) => match attrs_from(b, q, seq![]) {
                None => None,
                Some((attrs, q1)) => if q1 < p || q1 >= b.len() {
                    None
                } else if b[q1] == 47 {
                    if q1 + 1 < b.len() && b[q1 + 1] == 62 {
                        Some((XmlView { name, attrs, children: seq![], text: seq![] }, q1 + 2))
                    } else {
                        None
                    }
                } else {
                    match content_from(b, q1 + 1, depth, name, seq![], seq![]) {
                        Some((kids, text, e)) => Some((XmlView { name, attrs, children: kids, text }, e)),
                        None => None,
                    }
                },
            },
        }
    }
}

proof fn lemma_attrs_from_stop(b: Seq<u8>, q: int, acc: Seq<(Seq<u8>, Seq<u8>)>)
    ensures
        attrs_from(b, q, acc) matches Some((_, q1)) ==> 0 <= q1 < b.len() && (b[q1] == 62 || b[q1] == 47),
    decreases b.len() - q,
{
    let q1 = space_end(b, q);
    lemma_space_end_from(b, q);
    if q >= 0 && q1 < b.len() && !(b[q1] == 62 || b[q1] == 47) {
        match name_at(b, q1) {
            None => {},
            Some((an, after)) => {
                let q2 = space_end(b, after);
                if q2 < b.len() && b[q2] == 61 {
                    let q3 = space_end(b, q2 + 1);
                    if q3 < b.len() {
                        match attr_value_at(b, q3) {
                            None => {},
                            Some((v, e)) => if q < e <= b.len() {
                                lemma_attrs_from_stop(b, e, acc.push((an, v)));
                            },
                        }
                    }
                }
            },
        }
    }
}

proof fn lemma_space_end_from(b: Seq<u8>, p: int)
    ensures
        space_end(b, p) >= p,
    decreases b.len() - p,
{
    if 0 <= p < b.len() && is_space_byte(b[p]) {
        lemma_space_end_from(b, p + 1);
    }
}

/// Every element ends its start tag with `>`: bytes that hold none hold no element.
pub proof fn lemma_element_needs_close(b: Seq<u8>, p: int, depth: nat)
    requires
        forall|i: int| 0 <= i < b.len() ==> b[i] != 62,
    ensures
        element_at(b, p, depth) is None,
{
    if depth > 0 && 0 <= p < b.len() {
        match name_at(b, p + 1) {
            None => {},
            Some((name, q)) => {
                lemma_attrs_from_stop(b, q, seq![]);
            },
        }
    }
}

pub open spec fn attrs_match(attrs: Seq<XmlAttr>, v: Seq<(Seq<u8>, Seq<u8>)>) -> bool {
    &&& attrs.len() == v.len()
    &&& forall|i: int|
        0 <= i < attrs.len() ==> encode_utf8(#[trigger] attrs[i].name@) == v[i].0 && encode_utf8(
            attrs[i].value@,
        ) == v[i].1
}

/// `el` holds what the view `v` gives, names and values as UTF-8 text.
pub open spec fn element_matches(el: XmlElement, v: XmlView) -> bool
    decreases el, 1nat,
{
    &&& encode_utf8(el.name@) == v.name
    &&& attrs_match(el.attrs@, v.attrs)
    &&& el.text@ == v.text
    &&& elements_match(el.children@, v.children)
}

pub open spec fn elements_match(els: Seq<XmlElement>, vs: Seq<XmlView>) -> bool
    decreases els, 0nat,
{
    &&& els.len() == vs.len()
    &&& els.len() > 0 ==> {
        &&& elements_match(els.subrange(0, els.len() - 1), vs.subrange(0, vs.len() - 1))
        &&& element_matches(els[els.len() - 1], vs[vs.len() - 1])
    }
}

fn byte_at(b: &[u8], p: usize, c: u8) -> (r: bool)
    ensures
        r == (p < b@.len() && b@[p as int] == c),
{
    p < b.len() && b[p] == c
}

/// Where `lit` ends, when it occurs in `b` at `p`.
fn occurs_at(b: &[u8], p: usize, lit: &[u8]) -> (r: Option<usize>)
    ensures
        match r {
            Some(e) => occurs(b@, p as int, lit@) && e == p + lit@.len(),
            None => !occurs(b@, p as int, lit@),
        },
{
    let n = b.len();
    if p > n || lit.len() > n - p {
        return None;
    }
    let mut i: usize = 0;
    while i < lit.len()
        invariant
            n == b@.len(),
            i <= lit@.len(),
            p + lit@.len() <= n,
            forall|j: int| 0 <= j < i ==> b@[p + j] == lit@[j],
        decreases lit@.len() - i,
    {
        if b[p + i] != lit[i] {
            assert(b@.subrange(p as int, p + lit@.len())[i as int] != lit@[i as int]);
            return None;
        }
        i = i + 1;
    }
    assert(b@.subrange(p as int, p + lit@.len()) =~= lit@);
    Some(p + lit.len())
}

fn skip_space(b: &[u8], p: usize) -> (r: usize)
    requires
        p <= b@.len(),
    ensures
        r == space_end(b@, p as int),
        p <= r <= b@.len(),
{
    let mut q = p;
    while q < b.len() && is_space(b[q])
        invariant
            p <= q <= b@.len(),
            space_end(b@, p as int) == space_end(b@, q as int),
        decreases b@.len() - q,
    {
        q = q + 1;
    }
    q
}

/// Skips to just past the first occurrence of `end` at or after `p`.
fn skip_past(b: &[u8], p: usize, end: &[u8]) -> (r: Result<usize, ContainerFormatError>)
    requires
        p <= b@.len(),
    ensures
        match r {
            Ok(q) => find_past(b@, p as int, end@) == Some(q as int) && p <= q <= b@.len(),
            Err(_) => find_past(b@, p as int, end@) is None,
        },
{
    let mut q = p;
    while q < b.len()
        invariant
            p <= q <= b@.len(),
            find_past(b@, p as int, end@) == find_past(b@, q as int, end@),
        decreases b@.len() - q,
    {
        match occurs_at(b, q, end) {
            Some(e) => {
                return Ok(e);
            },
            None => {},
        }
        q = q + 1;
    }
    Err(ContainerFormatError::BadDocument)
}

fn read_name(b: &[u8], p: usize) -> (r: Result<(String, usize), ContainerFormatError>)
    requires
        p <= b@.len(),
    ensures
        match (r, name_at(b@, p as int)) {
            (Ok((s, q)), Some((bytes, e))) => encode_utf8(s@) == bytes && q == e && p < q <= b@.len(),
            (Err(_), None) => true,
            _ => false,
        },
{
    let mut q = p;
    while q < b.len() && is_name_byte_exec(b[q])
        invariant
            p <= q <= b@.len(),
            name_end(b@, p as int) == name_end(b@, q as int),
        decreases b@.len() - q,
    {
        q = q + 1;
    }
    if q == p {
        return Err(ContainerFormatError::BadDocument);
    }
    match text_from_utf8(copy_range(b, p, q)) {
        Some(name) => {
            proof {
                encode_utf8_valid_utf8(name@);
            }
            Ok((name, q))
        },
        None => Err(ContainerFormatError::BadText),
    }
}

fn is_name_byte_exec(c: u8) -> (r: bool)
    ensures
        r == is_name_byte(c),
{
    !(is_space(c) || c == 60 || c == 62 || c == 47 || c == 61 || c == 34 || c == 39 || c == 38)
}

/// Appends the UTF-8 encoding of a character code, when it is one.
fn push_code_point(out: &mut Vec<u8>, cp: u32) -> (ok: bool)
    ensures
        match utf8_of(cp as nat) {
            Some(s) => ok && final(out)@ == old(out)@ + s,
            None => !ok && final(out)@ == old(out)@,
        },
{
    let ghost start = out@;
    if cp == 0 || cp > 0x10FFFF || (cp >= 0xD800 && cp <= 0xDFFF) {
        false
    } else if cp < 0x80 {
        out.push(cp as u8);
        assert(out@ =~= start + utf8_of(cp as nat)->0);
        true
    } else if cp < 0x800 {
        out.push((0xC0 + cp / 64) as u8);
        out.push((0x80 + cp % 64) as u8);
        assert(out@ =~= start + utf8_of(cp as nat)->0);
        true
    } else if cp < 0x10000 {
        out.push((0xE0 + cp / 4096) as u8);
        out.push((0x80 + (cp / 64) % 64) as u8);
        out.push((0x80 + cp % 64) as u8);
        assert(out@ =~= start + utf8_of(cp as nat)->0);
        true
    } else {
        out.push((0xF0 + cp / 262144) as u8);
        out.push((0x80 + (cp / 4096) % 64) as u8);
        out.push((0x80 + (cp / 64) % 64) as u8);
        out.push((0x80 + cp % 64) as u8);
        assert(out@ =~= start + utf8_of(cp as nat)->0);
        true
    }
}

fn digit(c: u8, hex: bool) -> (r: Option<u32>)
    ensures
        match (r, digit_value(c, hex)) {
            (Some(v), Some(w)) => v as nat == w && v < 16,
            (None, None) => true,
            _ => false,
        },
{
    if c >= 48 && c <= 57 {
        Some((c - 48) as u32)
    } else if hex && c >= 97 && c <= 102 {
        Some((c - 87) as u32)
    } else if hex && c >= 65 && c <= 70 {
        Some((c - 55) as u32)
    } else {
        None
    }
}

/// Reads the reference that starts with `&` at `p`, appending what it stands for.
fn read_reference(b: &[u8], p: usize, out: &mut Vec<u8>) -> (r: Result<usize, ContainerFormatError>)
    requires
        p < b@.len(),
    ensures
        match (r, reference_at(b@, p as int)) {
            (Ok(q), Some((s, e))) => q == e && final(out)@ == old(out)@ + s && p < q <= b@.len(),
            (Err(_), None) => true,
            _ => false,
        },
{
    let n = b.len();
    let mut q = p + 1;
    if byte_at(b, q, 35) {
        let hex = byte_at(b, q + 1, 120);
        q = if hex { q + 2 } else { q + 1 };
        let start = q;
        let mut cp: u32 = 0;
        while q < n && b[q] != 59
            invariant
                start <= q <= n,
                n == b@.len(),
                p + 1 < n && b@[p + 1] == 35,
                hex == (p + 2 < n && b@[p + 2] == 120),
                start == if hex { p + 3 } else { p + 2 },
                cp <= 0x10FFFF,
                ref_digits(b@, start as int, hex, 0) == ref_digits(b@, q as int, hex, cp as nat),
            decreases n - q,
        {
            match digit(b[q], hex) {
                Some(v) => {
                    let next: u64 = if hex {
                        (cp as u64) * 16 + v as u64
                    } else {
                        (cp as u64) * 10 + v as u64
                    };
                    if next > 0x10FFFF {
                        assert(ref_digits(b@, q as int, hex, cp as nat) is None);
                        return Err(ContainerFormatError::BadDocument);
                    }
                    cp = next as u32;
                },
                None => {
                    assert(ref_digits(b@, q as int, hex, cp as nat) is None);
                    return Err(ContainerFormatError::BadDocument);
                },
            }
            q = q + 1;
        }
        if q == start || q >= n {
            return Err(ContainerFormatError::BadDocument);
        }
        if !push_code_point(out, cp) {
            return Err(ContainerFormatError::BadDocument);
        }
        return Ok(q + 1);
    }
    if let Some(e) = occurs_at(b, q, &[108u8, 116, 59]) {
        out.push(60);
        Ok(e)
    } else if let Some(e) = occurs_at(b, q, &[103u8, 116, 59]) {
        out.push(62);
        Ok(e)
    } else if let Some(e) = occurs_at(b, q, &[97u8, 109, 112, 59]) {
        out.push(38);
        Ok(e)
    } else if let Some(e) = occurs_at(b, q, &[113u8, 117, 111, 116, 59]) {
        out.push(34);
        Ok(e)
    } else if let Some(e) = occurs_at(b, q, &[97u8, 112, 111, 115, 59]) {
        out.push(39);
        Ok(e)
    } else {
        Err(ContainerFormatError::BadDocument)
    }
}

fn read_attr_value(b: &[u8], p: usize) -> (r: Result<(String, usize), ContainerFormatError>)
    requires
        p < b@.len(),
    ensures
        match (r, attr_value_at(b@, p as int)) {
            (Ok((s, q)), Some((bytes, e))) => encode_utf8(s@) == bytes && q == e && p < q <= b@.len(),
            (Err(_), None) => true,
            _ => false,
        },
{
    let n = b.len();
    let quote = b[p];
    if quote != 34 && quote != 39 {
        return Err(ContainerFormatError::BadDocument);
    }
    let mut out: Vec<u8> = Vec::new();
    let mut q = p + 1;
    while q < n && b[q] != quote
        invariant
            p < q <= n,
            n == b@.len(),
            quote == b@[p as int],
            attr_text(b@, p + 1, quote, seq![]) == attr_text(b@, q as int, quote, out@),
        decreases n - q,
    {
        if b[q] == 38 {
            q = match read_reference(b, q, &mut out) {
                Ok(e) => e,
                Err(e) => {
                    return Err(e);
                },
            };
        } else if b[q] == 60 {
            return Err(ContainerFormatError::BadDocument);
        } else {
            out.push(b[q]);
            q = q + 1;
        }
    }
    if q >= n {
        return Err(ContainerFormatError::BadDocument);
    }
    let ghost bytes = out@;
    match text_from_utf8(out) {
        Some(v) => {
            proof {
                encode_utf8_valid_utf8(v@);
            }
            Ok((v, q + 1))
        },
        None => Err(ContainerFormatError::BadText),
    }
}

pub open spec fn attr_views(attrs: Seq<XmlAttr>) -> Seq<(Seq<u8>, Seq<u8>)> {
    attrs.map_values(|a: XmlAttr| (encode_utf8(a.name@), encode_utf8(a.value@)))
}

proof fn lemma_attr_views_match(attrs: Seq<XmlAttr>)
    ensures
        attrs_match(attrs, attr_views(attrs)),
{
}

/// Texts with the same UTF-8 bytes are the same text.
pub proof fn lemma_same_encoding(a: Seq<char>, b: Seq<char>)
    requires
        encode_utf8(a) == encode_utf8(b),
    ensures
        a == b,
{
    encode_utf8_decode_utf8(a);
    encode_utf8_decode_utf8(b);
}

/// Reads the element whose `<` is at `p`, with everything inside it, nested
/// at most `depth` deep.
pub fn read_element(b: &[u8], p: usize, depth: usize) -> (r: Result<(XmlElement, usize), ContainerFormatError>)
    requires
        p < b@.len(),
    ensures
        match (r, element_at(b@, p as int, depth as nat)) {
            (Ok((el, q)), Some((v, e))) => element_matches(el, v) && q == e && p < q <= b@.len(),
            (Err(_), None) => true,
            _ => false,
        },
    decreases b@.len() - p,
{
    let n = b.len();
    if depth == 0 {
        return Err(ContainerFormatError::BadDocument);
    }
    let (name, mut q) = match read_name(b, p + 1) {
        Ok(v) => v,
        Err(e) => {
            return Err(e);
        },
    };
    let ghost name_bytes = encode_utf8(name@);
    let ghost q_attrs = q;
    let mut attrs: Vec<XmlAttr> = Vec::new();
    assert(attr_views(attrs@) =~= Seq::<(Seq<u8>, Seq<u8>)>::empty());
    loop
        invariant
            p < q_attrs <= q <= n,
            n == b@.len(),
            name_at(b@, p + 1) == Some((name_bytes, q_attrs as int)),
            attrs_from(b@, q_attrs as int, seq![]) == attrs_from(b@, q as int, attr_views(attrs@)),
        ensures
            p < q_attrs <= q < n,
            n == b@.len(),
            name_at(b@, p + 1) == Some((name_bytes, q_attrs as int)),
            b@[q as int] == 62 || b@[q as int] == 47,
            attrs_from(b@, q_attrs as int, seq![]) == Some((attr_views(attrs@), q as int)),
        decreases n - q,
    {
        let q0 = q;
        q = skip_space(b, q);
        if q >= n {
            return Err(ContainerFormatError::BadDocument);
        }
        if b[q] == 62 || b[q] == 47 {
            break;
        }
        let (attr, after) = match read_name(b, q) {
            Ok(v) => v,
            Err(e) => {
                return Err(e);
            },
        };
        q = skip_space(b, after);
        if !byte_at(b, q, 61) {
            return Err(ContainerFormatError::BadDocument);
        }
        q = skip_space(b, q + 1);
        if q >= n {
            return Err(ContainerFormatError::BadDocument);
        }
        let (value, after_value) = match read_attr_value(b, q) {
            Ok(v) => v,
            Err(e) => {
                return Err(e);
            },
        };
        let ghost before = attr_views(attrs@);
        let a = XmlAttr { name: attr, value };
        attrs.push(a);
        assert(attr_views(attrs@) =~= before.push((encode_utf8(a.name@), encode_utf8(a.value@))));
        assert(after_value > q0);
        q = after_value;
    }
    proof {
        lemma_attr_views_match(attrs@);
    }
    if b[q] == 47 {
        if !byte_at(b, q + 1, 62) {
            return Err(ContainerFormatError::BadDocument);
        }
        let el = XmlElement { name, attrs, children: Vec::new(), text: Vec::new() };
        proof {
            assert(el.children@ =~= Seq::<XmlElement>::empty());
            assert(el.text@ =~= Seq::<u8>::empty());
            let v = XmlView { name: name_bytes, attrs: attr_views(el.attrs@), children: seq![], text: seq![] };
            assert(element_matches(el, v));
        }
        return Ok((el, q + 2));
    }
    q = q + 1;
    let ghost q_content = q;
    let mut children: Vec<XmlElement> = Vec::new();
    let mut text: Vec<u8> = Vec::new();
    let ghost mut kids: Seq<XmlView> = seq![];
    proof {
        assert(children@ =~= Seq::<XmlElement>::empty());
        assert(text@ =~= Seq::<u8>::empty());
    }
    loop
        invariant
            p < q_content <= q <= n,
            n == b@.len(),
            name_bytes == encode_utf8(name@),
            depth > 0,
            element_at(b@, p as int, depth as nat) == match content_from(b@, q_content as int, depth as nat, name_bytes, seq![], seq![]) {
                Some((ks, t, e)) => Some((XmlView { name: name_bytes, attrs: attr_views(attrs@), children: ks, text: t }, e)),
                None => None,
            },
            attrs_match(attrs@, attr_views(attrs@)),
            content_from(b@, q_content as int, depth as nat, name_bytes, seq![], seq![]) == content_from(b@, q as int, depth as nat, name_bytes, kids, text@),
            elements_match(children@, kids),
        decreases n - q,
    {
        if q >= n {
            return Err(ContainerFormatError::BadDocument);
        }
        if b[q] == 60 {
            if byte_at(b, q + 1, 47) {
                let (closing, after) = match read_name(b, q + 2) {
                    Ok(v) => v,
                    Err(e) => {
                        return Err(e);
                    },
                };
                if closing != name {
                    proof {
                        if encode_utf8(closing@) == name_bytes {
                            lemma_same_encoding(closing@, name@);
                        }
                    }
                    return Err(ContainerFormatError::BadDocument);
                }
                let end = skip_space(b, after);
                if !byte_at(b, end, 62) {
                    return Err(ContainerFormatError::BadDocument);
                }
                let el = XmlElement { name, attrs, children, text };
                return Ok((el, end + 1));
            } else if let Some(start) = occurs_at(b, q, &[60u8, 33, 91, 67, 68, 65, 84, 65, 91]) {
                let end = match skip_past(b, start, &[93u8, 93, 62]) {
                    Ok(e) => e,
                    Err(e) => {
                        return Err(e);
                    },
                };
                if end - start < 3 {
                    return Err(ContainerFormatError::BadDocument);
                }
                let mut raw = copy_range(b, start, end - 3);
                text.append(&mut raw);
                q = end;
            } else if let Some(start) = occurs_at(b, q, &[60u8, 33, 45, 45]) {
                q = match skip_past(b, start, &[45u8, 45, 62]) {
                    Ok(e) => e,
                    Err(e) => {
                        return Err(e);
                    },
                };
            } else if byte_at(b, q + 1, 63) {
                q = match skip_past(b, q + 2, &[63u8, 62]) {
                    Ok(e) => e,
                    Err(e) => {
                        return Err(e);
                    },
                };
            } else {
                let (child, after) = match read_element(b, q, depth - 1) {
                    Ok(v) => v,
                    Err(e) => {
                        return Err(e);
                    },
                };
                let ghost cv = (element_at(b@, q as int, (depth - 1) as nat)->0).0;
                let ghost before = children@;
                children.push(child);
                proof {
                    assert(children@.subrange(0, children@.len() - 1) =~= before);
                    assert(kids.push(cv).subrange(0, kids.len() as int) =~= kids);
                    kids = kids.push(cv);
                }
                q = after;
            }
        } else if b[q] == 38 {
            q = match read_reference(b, q, &mut text) {
                Ok(e) => e,
                Err(e) => {
                    return Err(e);
                },
            };
        } else {
            text.push(b[q]);
            q = q + 1;
        }
    }
}

} // verus!
