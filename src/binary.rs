//! The binary container encoding: a fixed header, then chunks that are stored
//! raw or as LZ4 blocks, up to an `END` chunk.
use vstd::prelude::*;

verus! {

/// Why asset bytes could not be decoded.
#[derive(PartialEq, Eq, Structural, Clone, Copy, Debug)]
pub enum ContainerFormatError {
    /// The bytes start with neither known container signature.
    BadMagic,
    /// The binary header names a format version other than zero.
    UnsupportedVersion,
    /// The stream ends inside the header, a chunk, or before the `END` chunk.
    Truncated,
    /// A chunk's payload does not decode.
    BadChunk,
    /// A name or property text is not UTF-8.
    BadText,
    /// Instances and parent links do not form a tree.
    BadTree,
    /// The text encoding is not a well-formed document.
    BadDocument,
}

/// Length of the binary header.
pub const HEADER_LEN: usize = 32;

/// Largest payload, in bytes, that a chunk may declare.
pub const MAX_CHUNK_LEN: u32 = 64 * 1024 * 1024;

/// Chunk tags, as the little-endian value of their four bytes.
pub const TAG_INST: u32 = 0x5453_4E49;
pub const TAG_PROP: u32 = 0x504F_5250;
pub const TAG_PRNT: u32 = 0x544E_5250;
pub const TAG_END: u32 = 0x0044_4E45;

pub open spec fn u32_le(b: Seq<u8>, p: int) -> nat {
    b[p] as nat + b[p + 1] as nat * 256 + b[p + 2] as nat * 65536 + b[p + 3] as nat * 16777216
}

/// `<roblox!` followed by the signature bytes `89 FF 0D 0A 1A 0A`.
pub open spec fn binary_magic() -> Seq<u8> {
    seq![60u8, 114, 111, 98, 108, 111, 120, 33, 0x89, 0xFF, 0x0D, 0x0A, 0x1A, 0x0A]
}

/// The first eight bytes, `<roblox!`, mark the binary encoding.
pub open spec fn binary_marker(b: Seq<u8>) -> bool {
    b.len() >= 8 && b.subrange(0, 8) == binary_magic().subrange(0, 8)
}

/// A complete header: the signature, then format version zero.
pub open spec fn header_ok(b: Seq<u8>) -> bool {
    &&& b.len() >= HEADER_LEN
    &&& b.subrange(0, 14) == binary_magic()
    &&& b[14] == 0
    &&& b[15] == 0
}

/// The bytes that an LZ4 block decodes to, when it decodes within `capacity` bytes.
pub uninterp spec fn lz4_block_decoded(block: Seq<u8>, capacity: nat) -> Option<Seq<u8>>;

/// Relies on `lz4_flex::block::decompress`: decodes one LZ4 block into at most
/// `capacity` bytes, or fails; the outcome depends on the arguments alone.
#[verifier::external_body]
fn lz4_decompress(block: &[u8], capacity: usize) -> (r: Option<Vec<u8>>)
    requires
        capacity <= MAX_CHUNK_LEN,
    ensures
        match r {
            Some(v) => lz4_block_decoded(block@, capacity as nat) == Some(v@),
            None => lz4_block_decoded(block@, capacity as nat) is None,
        },
{
    lz4_flex::block::decompress(block, capacity).ok()
}

/// A complete signature followed by a format version other than zero.
pub open spec fn version_unsupported(b: Seq<u8>) -> bool {
    &&& b.len() >= HEADER_LEN
    &&& b.subrange(0, 14) == binary_magic()
    &&& (b[14] != 0 || b[15] != 0)
}

/// The chunk at `p`: its tag, its decoded payload, and where the next chunk starts.
pub open spec fn chunk_at(b: Seq<u8>, p: int) -> Option<(nat, Seq<u8>, int)> {
    if p < 0 || p + 16 > b.len() {
        None
    } else {
        let tag = u32_le(b, p);
        let stored = u32_le(b, p + 4);
        let plain = u32_le(b, p + 8);
        if stored == 0 {
            if p + 16 + plain > b.len() {
                None
            } else {
                Some((tag, b.subrange(p + 16, p + 16 + plain), p + 16 + plain))
            }
        } else if p + 16 + stored > b.len() || plain > MAX_CHUNK_LEN {
            None
        } else {
            match lz4_block_decoded(b.subrange(p + 16, p + 16 + stored), plain) {
                Some(d) => if d.len() == plain {
                    Some((tag, d, p + 16 + stored))
                } else {
                    None
                },
                None => None,
            }
        }
    }
}

/// The chunks from `p` up to and including the first `END` chunk.
pub open spec fn chunks_from(b: Seq<u8>, p: int) -> Option<Seq<(nat, Seq<u8>)>>
    decreases b.len() - p,
{
    match chunk_at(b, p) {
        None => None,
        Some((tag, data, next)) => if tag == TAG_END {
            Some(seq![(tag, data)])
        } else if next <= p {
            None
        } else {
            match chunks_from(b, next) {
                Some(rest) => Some(seq![(tag, data)] + rest),
                None => None,
            }
        },
    }
}

/// The chunks of a binary container, when its header and framing are sound.
pub open spec fn binary_chunks(b: Seq<u8>) -> Option<Seq<(nat, Seq<u8>)>> {
    if header_ok(b) {
        chunks_from(b, HEADER_LEN as int)
    } else {
        None
    }
}

/// One decoded chunk.
pub struct Chunk {
    pub tag: u32,
    pub data: Vec<u8>,
}

pub open spec fn chunk_view(c: Chunk) -> (nat, Seq<u8>) {
    (c.tag as nat, c.data@)
}

pub fn read_u32(b: &[u8], p: usize) -> (r: u32)
    requires
        p + 4 <= b@.len(),
    ensures
        r == u32_le(b@, p as int),
{
    (b[p] as u32) + (b[p + 1] as u32) * 256 + (b[p + 2] as u32) * 65536 + (b[p + 3] as u32)
        * 16777216
}

/// The bytes `b[from..to]` as a vector.
pub fn copy_range(b: &[u8], from: usize, to: usize) -> (r: Vec<u8>)
    requires
        from <= to <= b@.len(),
    ensures
        r@ == b@.subrange(from as int, to as int),
{
    let mut r: Vec<u8> = Vec::new();
    let mut i: usize = from;
    while i < to
        invariant
            from <= i <= to <= b@.len(),
            r@ == b@.subrange(from as int, i as int),
        decreases to - i,
    {
        r.push(b[i]);
        i = i + 1;
        assert(r@ =~= b@.subrange(from as int, i as int));
    }
    r
}

fn read_chunk(b: &[u8], p: usize) -> (r: Option<(Chunk, usize)>)
    ensures
        match (r, chunk_at(b@, p as int)) {
            (Some((c, next)), Some((tag, data, n))) => c.tag == tag && c.data@ == data && next
                == n,
            (None, None) => true,
            _ => false,
        },
{
    if b.len() < 16 || p > b.len() - 16 {
        return None;
    }
    let tag = read_u32(b, p);
    let stored = read_u32(b, p + 4);
    let plain = read_u32(b, p + 8);
    let start = p + 16;
    if stored == 0 {
        if plain as usize > b.len() - start {
            return None;
        }
        let end = start + plain as usize;
        Some((Chunk { tag, data: copy_range(b, start, end) }, end))
    } else {
        if stored as usize > b.len() - start || plain > MAX_CHUNK_LEN {
            return None;
        }
        let end = start + stored as usize;
        let block = copy_range(b, start, end);
        match lz4_decompress(block.as_slice(), plain as usize) {
            Some(data) => {
                if data.len() == plain as usize {
                    Some((Chunk { tag, data }, end))
                } else {
                    None
                }
            },
            None => None,
        }
    }
}

/// Checks the header and reads every chunk up to the `END` chunk.
pub fn read_chunks(b: &[u8]) -> (r: Result<Vec<Chunk>, ContainerFormatError>)
    ensures
        match binary_chunks(b@) {
            Some(cs) => r matches Ok(v) && v@.map_values(|c: Chunk| chunk_view(c)) == cs,
            None => r is Err,
        },
        b@.len() < HEADER_LEN ==> r == Err::<Vec<Chunk>, _>(ContainerFormatError::Truncated),
        version_unsupported(b@) ==> r == Err::<Vec<Chunk>, _>(ContainerFormatError::UnsupportedVersion),
{
    if b.len() < HEADER_LEN {
        return Err(ContainerFormatError::Truncated);
    }
    let magic_ok = b[0] == 60 && b[1] == 114 && b[2] == 111 && b[3] == 98 && b[4] == 108 && b[5]
        == 111 && b[6] == 120 && b[7] == 33 && b[8] == 0x89 && b[9] == 0xFF && b[10] == 0x0D
        && b[11] == 0x0A && b[12] == 0x1A && b[13] == 0x0A;
    if !magic_ok {
        proof {
            if b@.subrange(0, 14) == binary_magic() {
                assert forall|i: int| 0 <= i < 14 implies b@[i] == binary_magic()[i] by {
                    assert(b@.subrange(0, 14)[i] == b@[i]);
                }
            }
        }
        return Err(ContainerFormatError::BadMagic);
    }
    assert(b@.subrange(0, 14) =~= binary_magic());
    if b[14] != 0 || b[15] != 0 {
        return Err(ContainerFormatError::UnsupportedVersion);
    }
    let mut chunks: Vec<Chunk> = Vec::new();
    let mut p: usize = HEADER_LEN;
    loop
        invariant
            header_ok(b@),
            HEADER_LEN <= p <= b@.len(),
            binary_chunks(b@) == match chunks_from(b@, p as int) {
                Some(rest) => Some(chunks@.map_values(|c: Chunk| chunk_view(c)) + rest),
                None => None,
            },
        decreases b@.len() - p,
    {
        let ghost before = chunks@.map_values(|c: Chunk| chunk_view(c));
        match read_chunk(b, p) {
            None => {
                return Err(ContainerFormatError::Truncated);
            },
            Some((c, next)) => {
                let tag = c.tag;
                chunks.push(c);
                assert(chunks@.map_values(|c: Chunk| chunk_view(c)) =~= before.push(
                    chunk_view(chunks@.last()),
                ));
                if tag == TAG_END {
                    assert(before.push(chunk_view(chunks@.last())) =~= before + seq![
                        chunk_view(chunks@.last()),
                    ]);
                    return Ok(chunks);
                }
                if next <= p {
                    return Err(ContainerFormatError::Truncated);
                }
                proof {
                    let cv = chunk_view(chunks@.last());
                    match chunks_from(b@, next as int) {
                        Some(rest) => {
                            assert(before + (seq![cv] + rest) =~= before.push(cv) + rest);
                        },
                        None => {},
                    }
                }
                p = next;
            },
        }
    }
}

/// A length-prefixed byte string at `p`, and where it ends.
pub open spec fn string_at(d: Seq<u8>, p: int) -> Option<(Seq<u8>, int)> {
    if p < 0 || p + 4 > d.len() {
        None
    } else if p + 4 + u32_le(d, p) > d.len() {
        None
    } else {
        Some((d.subrange(p + 4, p + 4 + u32_le(d, p)), p + 4 + u32_le(d, p)))
    }
}

/// Value `i` of an array of `n` 32-bit words stored byte-interleaved from `p`:
/// all most significant bytes first, then the next bytes, and so on.
pub open spec fn interleaved_word(d: Seq<u8>, p: int, n: int, i: int) -> nat {
    d[p + i] as nat * 16777216 + d[p + n + i] as nat * 65536 + d[p + 2 * n + i] as nat * 256
        + d[p + 3 * n + i] as nat
}

/// The signed value of a zigzag-encoded word: even words are non-negative.
pub open spec fn unzigzag(w: nat) -> int {
    if w % 2 == 0 {
        (w / 2) as int
    } else {
        -(((w + 1) / 2) as int)
    }
}

/// Referent `k - 1` of a delta-encoded referent array: the sum of the first `k` deltas.
pub open spec fn referent_sum(d: Seq<u8>, p: int, n: int, k: int) -> int
    decreases k,
{
    if k <= 0 {
        0
    } else {
        referent_sum(d, p, n, k - 1) + unzigzag(interleaved_word(d, p, n, k - 1))
    }
}

pub open spec fn fits_i32(x: int) -> bool {
    i32::MIN <= x <= i32::MAX
}

/// The `n` referents stored from `p`, when they fit and every referent is a 32-bit value.
pub open spec fn referents_at(d: Seq<u8>, p: int, n: int) -> Option<Seq<int>> {
    if 0 <= p && 0 <= n && p + 4 * n <= d.len() && (forall|k: int|
        1 <= k <= n ==> fits_i32(#[trigger] referent_sum(d, p, n, k))) {
        Some(Seq::new(n as nat, |i: int| referent_sum(d, p, n, i + 1)))
    } else {
        None
    }
}

/// An instance chunk: class id, class name, and the referents of its instances.
pub open spec fn inst_payload(d: Seq<u8>) -> Option<(nat, Seq<u8>, Seq<int>)> {
    if d.len() < 4 {
        None
    } else {
        match string_at(d, 4) {
            None => None,
            Some((class_name, p)) => if p + 5 > d.len() {
                None
            } else {
                match referents_at(d, p + 5, u32_le(d, p + 1) as int) {
                    Some(refs) => Some((u32_le(d, 0), class_name, refs)),
                    None => None,
                }
            },
        }
    }
}

/// A property chunk's head: class id, property name, value type, and where the values start.
pub open spec fn prop_head(d: Seq<u8>) -> Option<(nat, Seq<u8>, u8, int)> {
    if d.len() < 4 {
        None
    } else {
        match string_at(d, 4) {
            None => None,
            Some((name, p)) => if p + 1 > d.len() {
                None
            } else {
                Some((u32_le(d, 0), name, d[p], p + 1))
            },
        }
    }
}

/// `count` consecutive length-prefixed strings from `p`.
pub open spec fn strings_at(d: Seq<u8>, p: int, count: nat) -> Option<Seq<Seq<u8>>>
    decreases count,
{
    if count == 0 {
        Some(seq![])
    } else {
        match string_at(d, p) {
            None => None,
            Some((s, next)) => match strings_at(d, next, (count - 1) as nat) {
                Some(rest) => Some(seq![s] + rest),
                None => None,
            },
        }
    }
}

/// A parent chunk: pairs of (child referent, parent referent).
pub open spec fn prnt_payload(d: Seq<u8>) -> Option<Seq<(int, int)>> {
    if d.len() < 5 || d[0] != 0 {
        None
    } else {
        let n = u32_le(d, 1) as int;
        match (referents_at(d, 5, n), referents_at(d, 5 + 4 * n, n)) {
            (Some(children), Some(parents)) => Some(
                Seq::new(n as nat, |i: int| (children[i], parents[i])),
            ),
            _ => None,
        }
    }
}

/// Reads a length-prefixed byte string.
pub fn read_string(d: &[u8], p: usize) -> (r: Option<(Vec<u8>, usize)>)
    ensures
        match (r, string_at(d@, p as int)) {
            (Some((s, next)), Some((t, n))) => s@ == t && next == n,
            (None, None) => true,
            _ => false,
        },
{
    if d.len() < 4 || p > d.len() - 4 {
        return None;
    }
    let len = read_u32(d, p);
    if len as usize > d.len() - 4 - p {
        return None;
    }
    let end = p + 4 + len as usize;
    Some((copy_range(d, p + 4, end), end))
}

fn interleaved(d: &[u8], p: usize, n: usize, i: usize) -> (r: u32)
    requires
        p + 4 * n <= d@.len(),
        i < n,
    ensures
        r == interleaved_word(d@, p as int, n as int, i as int),
{
    let len = d.len();
    assert(p + 3 * n + i < len);
    (d[p + i] as u32) * 16777216 + (d[p + n + i] as u32) * 65536 + (d[p + 2 * n + i] as u32) * 256
        + (d[p + 3 * n + i] as u32)
}

/// Decodes `n` interleaved, zigzag, delta-encoded referents.
pub fn read_referents(d: &[u8], p: usize, n: usize) -> (r: Option<Vec<i64>>)
    ensures
        match (r, referents_at(d@, p as int, n as int)) {
            (Some(v), Some(s)) => v@.len() == s.len() && forall|i: int|
                0 <= i < s.len() ==> v@[i] == s[i],
            (None, None) => true,
            _ => false,
        },
{
    if (p as u128) + 4 * (n as u128) > d.len() as u128 {
        return None;
    }
    let mut out: Vec<i64> = Vec::new();
    let mut acc: i64 = 0;
    let mut k: usize = 0;
    while k < n
        invariant
            p + 4 * n <= d@.len(),
            k <= n,
            out@.len() == k,
            acc == referent_sum(d@, p as int, n as int, k as int),
            fits_i32(acc as int),
            forall|j: int| 1 <= j <= k ==> fits_i32(#[trigger] referent_sum(d@, p as int, n as int, j)),
            forall|j: int| 0 <= j < k ==> out@[j] == referent_sum(d@, p as int, n as int, j + 1),
        decreases n - k,
    {
        let w = interleaved(d, p, n, k);
        let delta: i64 = if w % 2 == 0 {
            (w / 2) as i64
        } else {
            -(((w as i64) + 1) / 2)
        };
        assert(delta == unzigzag(w as nat));
        acc = acc + delta;
        assert(acc == referent_sum(d@, p as int, n as int, k as int + 1));
        if acc < i32::MIN as i64 || acc > i32::MAX as i64 {
            assert(!fits_i32(referent_sum(d@, p as int, n as int, k as int + 1)));
            return None;
        }
        out.push(acc);
        k = k + 1;
    }
    Some(out)
}

/// A decoded instance chunk.
pub struct InstChunk {
    pub class_id: u32,
    pub class_name: Vec<u8>,
    pub referents: Vec<i64>,
}

pub fn read_inst(d: &[u8]) -> (r: Option<InstChunk>)
    ensures
        match (r, inst_payload(d@)) {
            (Some(c), Some((id, name, refs))) => c.class_id == id && c.class_name@ == name
                && c.referents@.len() == refs.len() && forall|i: int|
                0 <= i < refs.len() ==> c.referents@[i] == refs[i],
            (None, None) => true,
            _ => false,
        },
{
    if d.len() < 4 {
        return None;
    }
    let class_id = read_u32(d, 0);
    match read_string(d, 4) {
        None => None,
        Some((class_name, p)) => {
            if p >= d.len() || d.len() - p < 5 {
                return None;
            }
            let n = read_u32(d, p + 1);
            match read_referents(d, p + 5, n as usize) {
                Some(referents) => Some(InstChunk { class_id, class_name, referents }),
                None => None,
            }
        },
    }
}

/// A decoded property chunk head.
pub struct PropHead {
    pub class_id: u32,
    pub name: Vec<u8>,
    pub value_type: u8,
    pub values_start: usize,
}

pub fn read_prop_head(d: &[u8]) -> (r: Option<PropHead>)
    ensures
        match (r, prop_head(d@)) {
            (Some(h), Some((id, name, ty, start))) => h.class_id == id && h.name@ == name
                && h.value_type == ty && h.values_start == start,
            (None, None) => true,
            _ => false,
        },
{
    if d.len() < 4 {
        return None;
    }
    let class_id = read_u32(d, 0);
    match read_string(d, 4) {
        None => None,
        Some((name, p)) => {
            if p >= d.len() {
                return None;
            }
            Some(PropHead { class_id, name, value_type: d[p], values_start: p + 1 })
        },
    }
}

/// Reads `count` consecutive strings.
pub fn read_strings(d: &[u8], p: usize, count: usize) -> (r: Option<Vec<Vec<u8>>>)
    ensures
        match (r, strings_at(d@, p as int, count as nat)) {
            (Some(v), Some(s)) => v@.len() == s.len() && forall|i: int|
                0 <= i < s.len() ==> #[trigger] v@[i]@ == s[i],
            (None, None) => true,
            _ => false,
        },
{
    let mut out: Vec<Vec<u8>> = Vec::new();
    let mut pos: usize = p;
    let mut k: usize = 0;
    while k < count
        invariant
            k <= count,
            out@.len() == k,
            strings_at(d@, p as int, count as nat) == match strings_at(
                d@,
                pos as int,
                (count - k) as nat,
            ) {
                Some(rest) => Some(out@.map_values(|v: Vec<u8>| v@) + rest),
                None => None,
            },
        decreases count - k,
    {
        let ghost before = out@.map_values(|v: Vec<u8>| v@);
        match read_string(d, pos) {
            None => {
                return None;
            },
            Some((s, next)) => {
                out.push(s);
                proof {
                    assert(out@.map_values(|v: Vec<u8>| v@) =~= before.push(out@.last()@));
                    match strings_at(d@, next as int, (count - k - 1) as nat) {
                        Some(rest) => {
                            assert(before + (seq![out@.last()@] + rest) =~= before.push(
                                out@.last()@,
                            ) + rest);
                        },
                        None => {},
                    }
                }
                pos = next;
                k = k + 1;
            },
        }
    }
    proof {
        let m = out@.map_values(|v: Vec<u8>| v@);
        assert(m + seq![] =~= m);
        assert forall|i: int| 0 <= i < m.len() implies #[trigger] out@[i]@ == m[i] by {}
    }
    Some(out)
}

/// A parent link: a child referent and its parent's (`-1` for the root).
pub struct ParentLink {
    pub child: i64,
    pub parent: i64,
}

pub fn read_prnt(d: &[u8]) -> (r: Option<Vec<ParentLink>>)
    ensures
        match (r, prnt_payload(d@)) {
            (Some(v), Some(s)) => v@.len() == s.len() && forall|i: int|
                0 <= i < s.len() ==> (#[trigger] v@[i]).child == s[i].0 && v@[i].parent == s[i].1,
            (None, None) => true,
            _ => false,
        },
{
    if d.len() < 5 || d[0] != 0 {
        return None;
    }
    let n = read_u32(d, 1) as usize;
    if (n as u128) * 4 + 5 > d.len() as u128 {
        return None;
    }
    let children = match read_referents(d, 5, n) {
        Some(v) => v,
        None => {
            return None;
        },
    };
    let parents = match read_referents(d, 5 + 4 * n, n) {
        Some(v) => v,
        None => {
            return None;
        },
    };
    let mut links: Vec<ParentLink> = Vec::new();
    let mut i: usize = 0;
    while i < n
        invariant
            i <= n,
            children@.len() == n,
            parents@.len() == n,
            links@.len() == i,
            forall|j: int|
                0 <= j < i ==> (#[trigger] links@[j]).child == children@[j] && links@[j].parent
                    == parents@[j],
        decreases n - i,
    {
        links.push(ParentLink { child: children[i], parent: parents[i] });
        i = i + 1;
    }
    Some(links)
}

} // verus!
