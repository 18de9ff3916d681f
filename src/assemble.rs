//! From the chunks of a binary container to its instances, their names and
//! text properties, and the parent links that place them in the tree.
use vstd::prelude::*;
use vstd::utf8::{encode_utf8, encode_utf8_valid_utf8, valid_utf8};
use crate::binary::{
    Chunk, ContainerFormatError, HEADER_LEN, ParentLink, TAG_INST, TAG_PROP, TAG_PRNT,
    binary_chunks, chunk_view, copy_range, version_unsupported, inst_payload, prnt_payload, prop_head, read_chunks,
    read_inst, read_prnt, read_prop_head, read_strings, strings_at,
};
use crate::tree::{
    AssetNode, Instance, Property, build_tree, copy_string, is_root, lemma_buildable_referents,
    same_instances, text_from_utf8, tree_buildable, tree_built, unique_children,
};
use crate::xml::lemma_same_encoding;

verus! {

/// The value type tag of text properties.
pub const TYPE_STRING: u8 = 1;

/// What the chunks declare so far: class records (id, name, referents), text
/// properties (class id, name, one value per instance) and parent links.
pub struct TablesView {
    pub classes: Seq<(nat, Seq<u8>, Seq<int>)>,
    pub props: Seq<(nat, Seq<u8>, Seq<Seq<u8>>)>,
    pub links: Seq<(int, int)>,
}

/// Position of the first class record with id `id`.
pub open spec fn first_class(cs: Seq<(nat, Seq<u8>, Seq<int>)>, id: nat) -> Option<int>
    decreases cs.len(),
{
    if cs.len() == 0 {
        None
    } else {
        match first_class(cs.drop_last(), id) {
            Some(k) => Some(k),
            None => if cs.last().0 == id {
                Some(cs.len() - 1)
            } else {
                None
            },
        }
    }
}

/// Number of instances that the class records declare.
pub open spec fn total_referents(cs: Seq<(nat, Seq<u8>, Seq<int>)>) -> nat
    decreases cs.len(),
{
    if cs.len() == 0 {
        0
    } else {
        total_referents(cs.drop_last()) + cs.last().2.len()
    }
}

pub open spec fn all_utf8(vals: Seq<Seq<u8>>) -> bool {
    forall|i: int| 0 <= i < vals.len() ==> valid_utf8(#[trigger] vals[i])
}

/// The `Name` property's name in bytes.
pub open spec fn is_name_bytes(b: Seq<u8>) -> bool {
    b == seq![78u8, 97, 109, 101]
}

/// The tables after one more chunk: a class chunk adds a record, a text
/// property chunk adds the values of its class's first record, a parent chunk
/// adds links; other chunks and other property types change nothing.
pub open spec fn tables_step(t: TablesView, tag: nat, d: Seq<u8>) -> Option<TablesView> {
    if tag == TAG_INST {
        match inst_payload(d) {
            Some(r) => if valid_utf8(r.1) && total_referents(t.classes) + r.2.len() < usize::MAX {
                Some(TablesView { classes: t.classes.push(r), ..t })
            } else {
                None
            },
            None => None,
        }
    } else if tag == TAG_PROP {
        match prop_head(d) {
            None => None,
            Some((id, name, ty, start)) => if ty != TYPE_STRING {
                Some(t)
            } else {
                match first_class(t.classes, id) {
                    None => None,
                    Some(k) => match strings_at(d, start, t.classes[k].2.len()) {
                        None => None,
                        Some(vals) => if valid_utf8(name) && all_utf8(vals) {
                            Some(TablesView { props: t.props.push((id, name, vals)), ..t })
                        } else {
                            None
                        },
                    },
                }
            },
        }
    } else if tag == TAG_PRNT {
        match prnt_payload(d) {
            Some(l) => Some(TablesView { links: t.links + l, ..t }),
            None => None,
        }
    } else {
        Some(t)
    }
}

/// The tables that a sequence of chunks declares, chunk after chunk.
pub open spec fn tables_of(cs: Seq<(nat, Seq<u8>)>) -> Option<TablesView>
    decreases cs.len(),
{
    if cs.len() == 0 {
        Some(TablesView { classes: seq![], props: seq![], links: seq![] })
    } else {
        match tables_of(cs.drop_last()) {
            Some(t) => tables_step(t, cs.last().0, cs.last().1),
            None => None,
        }
    }
}

/// The value of the first `Name` property of class `id` for its instance `i`.
pub open spec fn first_name(ps: Seq<(nat, Seq<u8>, Seq<Seq<u8>>)>, id: nat, i: int) -> Option<Seq<u8>>
    decreases ps.len(),
{
    if ps.len() == 0 {
        None
    } else {
        match first_name(ps.drop_last(), id, i) {
            Some(v) => Some(v),
            None => {
                let p = ps.last();
                if p.0 == id && is_name_bytes(p.1) && 0 <= i < p.2.len() {
                    Some(p.2[i])
                } else {
                    None
                }
            },
        }
    }
}

/// The other text properties of class `id` for its instance `i`: (name, value), in chunk order.
pub open spec fn other_props(ps: Seq<(nat, Seq<u8>, Seq<Seq<u8>>)>, id: nat, i: int) -> Seq<(Seq<u8>, Seq<u8>)>
    decreases ps.len(),
{
    if ps.len() == 0 {
        seq![]
    } else {
        let rest = other_props(ps.drop_last(), id, i);
        let p = ps.last();
        if p.0 == id && !is_name_bytes(p.1) && 0 <= i < p.2.len() {
            rest.push((p.1, p.2[i]))
        } else {
            rest
        }
    }
}

pub open spec fn property_view(p: Property) -> (Seq<u8>, Seq<u8>) {
    (encode_utf8(p.name@), encode_utf8(p.value@))
}

/// `inst` is instance `i` of class record `c`.
pub open spec fn instance_matches(
    inst: Instance,
    c: (nat, Seq<u8>, Seq<int>),
    i: int,
    ps: Seq<(nat, Seq<u8>, Seq<Seq<u8>>)>,
) -> bool {
    &&& inst.referent == c.2[i]
    &&& encode_utf8(inst.class_name@) == c.1
    &&& match first_name(ps, c.0, i) {
        Some(v) => encode_utf8(inst.name@) == v,
        None => inst.name@ == Seq::<char>::empty(),
    }
    &&& inst.properties@.map_values(|p: Property| property_view(p)) == other_props(ps, c.0, i)
}

/// `insts` holds one instance per referent of the class records, record after record.
pub open spec fn instances_match(
    insts: Seq<Instance>,
    cs: Seq<(nat, Seq<u8>, Seq<int>)>,
    ps: Seq<(nat, Seq<u8>, Seq<Seq<u8>>)>,
) -> bool {
    &&& insts.len() == total_referents(cs)
    &&& forall|k: int, i: int|
        0 <= k < cs.len() && 0 <= i < cs[k].2.len() ==> #[trigger] instance_matches(
            insts[total_referents(cs.subrange(0, k)) + i],
            cs[k],
            i,
            ps,
        )
}

pub open spec fn link_view(l: ParentLink) -> (int, int) {
    (l.child as int, l.parent as int)
}

struct ClassRecord {
    class_id: u32,
    class_name: String,
    referents: Vec<i64>,
}

struct PropValues {
    class_id: u32,
    is_name: bool,
    name: String,
    values: Vec<String>,
}

spec fn class_view(c: ClassRecord) -> (nat, Seq<u8>, Seq<int>) {
    (c.class_id as nat, encode_utf8(c.class_name@), c.referents@.map_values(|r: i64| r as int))
}

spec fn prop_view(p: PropValues) -> (nat, Seq<u8>, Seq<Seq<u8>>) {
    (p.class_id as nat, encode_utf8(p.name@), p.values@.map_values(|v: String| encode_utf8(v@)))
}

spec fn prop_ok(p: PropValues) -> bool {
    p.is_name == is_name_bytes(encode_utf8(p.name@))
}

spec fn tables_view(classes: Seq<ClassRecord>, props: Seq<PropValues>, links: Seq<ParentLink>) -> TablesView {
    TablesView {
        classes: classes.map_values(|c: ClassRecord| class_view(c)),
        props: props.map_values(|p: PropValues| prop_view(p)),
        links: links.map_values(|l: ParentLink| link_view(l)),
    }
}

fn name_bytes(b: &Vec<u8>) -> (r: bool)
    ensures
        r == is_name_bytes(b@),
{
    let r = b.len() == 4 && b[0] == 78 && b[1] == 97 && b[2] == 109 && b[3] == 101;
    proof {
        if r {
            assert(b@ =~= seq![78u8, 97, 109, 101]);
        }
    }
    r
}

fn find_class(classes: &Vec<ClassRecord>, class_id: u32) -> (r: Option<usize>)
    ensures
        match (r, first_class(classes@.map_values(|c: ClassRecord| class_view(c)), class_id as nat)) {
            (Some(k), Some(j)) => k == j && k < classes@.len(),
            (None, None) => true,
            _ => false,
        },
{
    let ghost cv = classes@.map_values(|c: ClassRecord| class_view(c));
    let mut k: usize = 0;
    while k < classes.len()
        invariant
            k <= classes@.len(),
            cv == classes@.map_values(|c: ClassRecord| class_view(c)),
            first_class(cv.subrange(0, k as int), class_id as nat) is None,
        decreases classes@.len() - k,
    {
        assert(cv.subrange(0, k as int + 1).drop_last() =~= cv.subrange(0, k as int));
        if classes[k].class_id == class_id {
            proof {
                lemma_first_class_prefix(cv, k as int + 1, class_id as nat);
            }
            return Some(k);
        }
        k = k + 1;
    }
    assert(cv.subrange(0, k as int) =~= cv);
    None
}

proof fn lemma_first_class_prefix(cs: Seq<(nat, Seq<u8>, Seq<int>)>, n: int, id: nat)
    requires
        0 <= n <= cs.len(),
        first_class(cs.subrange(0, n), id) is Some,
    ensures
        first_class(cs, id) == first_class(cs.subrange(0, n), id),
    decreases cs.len() - n,
{
    if n < cs.len() {
        assert(cs.drop_last().subrange(0, n) =~= cs.subrange(0, n));
        lemma_first_class_prefix(cs.drop_last(), n, id);
    } else {
        assert(cs.subrange(0, n) =~= cs);
    }
}

fn texts_from_utf8(raw: Vec<Vec<u8>>) -> (r: Option<Vec<String>>)
    ensures
        match r {
            Some(v) => v@.map_values(|s: String| encode_utf8(s@)) == raw@.map_values(
                |b: Vec<u8>| b@,
            ),
            None => !all_utf8(raw@.map_values(|b: Vec<u8>| b@)),
        },
{
    let ghost rv = raw@.map_values(|b: Vec<u8>| b@);
    let mut out: Vec<String> = Vec::new();
    let mut i: usize = 0;
    while i < raw.len()
        invariant
            i <= raw@.len(),
            rv == raw@.map_values(|b: Vec<u8>| b@),
            out@.map_values(|s: String| encode_utf8(s@)) == rv.subrange(0, i as int),
        decreases raw@.len() - i,
    {
        let bytes = copy_range(raw[i].as_slice(), 0, raw[i].len());
        assert(bytes@ =~= raw@[i as int]@);
        match text_from_utf8(bytes) {
            Some(t) => {
                let ghost before = out@.map_values(|s: String| encode_utf8(s@));
                let ghost tv = t@;
                assert(encode_utf8(tv) == rv[i as int]);
                out.push(t);
                assert(out@.map_values(|s: String| encode_utf8(s@)) =~= before.push(encode_utf8(tv)));
                assert(rv.subrange(0, i as int + 1) =~= rv.subrange(0, i as int).push(rv[i as int]));
            },
            None => {
                assert(!valid_utf8(rv[i as int]));
                return None;
            },
        }
        i = i + 1;
    }
    assert(rv.subrange(0, i as int) =~= rv);
    Some(out)
}

/// Reads the class records, text properties and parent links of the chunks.
fn read_tables(chunks: &Vec<Chunk>) -> (r: Result<(Vec<ClassRecord>, Vec<PropValues>, Vec<ParentLink>, usize), ContainerFormatError>)
    ensures
        match tables_of(chunks@.map_values(|c: Chunk| chunk_view(c))) {
            Some(t) => r matches Ok((classes, props, links, total)) && tables_view(classes@, props@, links@) == t
                && total == total_referents(t.classes) && total < usize::MAX
                && forall|i: int| 0 <= i < props@.len() ==> prop_ok(#[trigger] props@[i]),
            None => r is Err,
        },
{
    let ghost cs = chunks@.map_values(|c: Chunk| chunk_view(c));
    let mut classes: Vec<ClassRecord> = Vec::new();
    let mut props: Vec<PropValues> = Vec::new();
    let mut links: Vec<ParentLink> = Vec::new();
    let mut total: usize = 0;
    let mut c: usize = 0;
    proof {
        let t0 = tables_view(classes@, props@, links@);
        assert(t0.classes =~= Seq::<(nat, Seq<u8>, Seq<int>)>::empty());
        assert(t0.props =~= Seq::<(nat, Seq<u8>, Seq<Seq<u8>>)>::empty());
        assert(t0.links =~= Seq::<(int, int)>::empty());
        assert(cs.subrange(0, 0) =~= Seq::<(nat, Seq<u8>)>::empty());
    }
    while c < chunks.len()
        invariant
            c <= chunks@.len(),
            cs == chunks@.map_values(|c: Chunk| chunk_view(c)),
            tables_of(cs.subrange(0, c as int)) == Some(tables_view(classes@, props@, links@)),
            total == total_referents(tables_view(classes@, props@, links@).classes),
            total < usize::MAX,
            forall|i: int| 0 <= i < props@.len() ==> prop_ok(#[trigger] props@[i]),
        decreases chunks@.len() - c,
    {
        let ghost t = tables_view(classes@, props@, links@);
        let ghost sub = cs.subrange(0, c as int + 1);
        assert(sub.drop_last() =~= cs.subrange(0, c as int));
        assert(sub.last() == chunk_view(chunks@[c as int]));
        let chunk = &chunks[c];
        let data = chunk.data.as_slice();
        if chunk.tag == TAG_INST {
            let inst = match read_inst(data) {
                Some(i) => i,
                None => {
                    proof { lemma_tables_none_extends(cs, c as int + 1); }
                    return Err(ContainerFormatError::BadChunk);
                },
            };
            let ghost spec_refs = inst.referents@.map_values(|r: i64| r as int);
            assert(spec_refs =~= (inst_payload(data@)->0).2);
            let count = inst.referents.len();
            if count > usize::MAX - 1 - total {
                proof { lemma_tables_none_extends(cs, c as int + 1); }
                return Err(ContainerFormatError::BadChunk);
            }
            let ghost class_bytes = inst.class_name@;
            let class_name = match text_from_utf8(inst.class_name) {
                Some(t) => t,
                None => {
                    proof { lemma_tables_none_extends(cs, c as int + 1); }
                    return Err(ContainerFormatError::BadText);
                },
            };
            let record = ClassRecord { class_id: inst.class_id, class_name, referents: inst.referents };
            proof {
                encode_utf8_valid_utf8(record.class_name@);
            }
            classes.push(record);
            total = total + count;
            assert(classes@.map_values(|c: ClassRecord| class_view(c)) =~= t.classes.push(class_view(record)));
            assert(props@.map_values(|p: PropValues| prop_view(p)) =~= t.props);
            assert(links@.map_values(|l: ParentLink| link_view(l)) =~= t.links);
            assert(tables_view(classes@, props@, links@).classes.drop_last() =~= t.classes);
        } else if chunk.tag == TAG_PROP {
            let head = match read_prop_head(data) {
                Some(h) => h,
                None => {
                    proof { lemma_tables_none_extends(cs, c as int + 1); }
                    return Err(ContainerFormatError::BadChunk);
                },
            };
            if head.value_type == TYPE_STRING {
                let k = match find_class(&classes, head.class_id) {
                    Some(k) => k,
                    None => {
                        proof { lemma_tables_none_extends(cs, c as int + 1); }
                        return Err(ContainerFormatError::BadChunk);
                    },
                };
                assert(t.classes[k as int].2.len() == classes@[k as int].referents@.len());
                let raw = match read_strings(data, head.values_start, classes[k].referents.len()) {
                    Some(v) => v,
                    None => {
                        proof { lemma_tables_none_extends(cs, c as int + 1); }
                        return Err(ContainerFormatError::BadChunk);
                    },
                };
                let ghost vals = raw@.map_values(|b: Vec<u8>| b@);
                assert(vals =~= strings_at(data@, head.values_start as int, t.classes[k as int].2.len())->0);
                let values = match texts_from_utf8(raw) {
                    Some(v) => v,
                    None => {
                        proof { lemma_tables_none_extends(cs, c as int + 1); }
                        return Err(ContainerFormatError::BadText);
                    },
                };
                let is_name = name_bytes(&head.name);
                let ghost name_bytes_seq = head.name@;
                let name = match text_from_utf8(head.name) {
                    Some(t) => t,
                    None => {
                        proof { lemma_tables_none_extends(cs, c as int + 1); }
                        return Err(ContainerFormatError::BadText);
                    },
                };
                let pv = PropValues { class_id: head.class_id, is_name, name, values };
                proof {
                    encode_utf8_valid_utf8(pv.name@);
                    assert forall|i: int| 0 <= i < vals.len() implies valid_utf8(#[trigger] vals[i]) by {
                        assert(vals[i] == encode_utf8(pv.values@[i]@));
                        encode_utf8_valid_utf8(pv.values@[i]@);
                    }
                }
                props.push(pv);
                assert(props@.map_values(|p: PropValues| prop_view(p)) =~= t.props.push(prop_view(pv)));
                assert(classes@.map_values(|c: ClassRecord| class_view(c)) =~= t.classes);
                assert(links@.map_values(|l: ParentLink| link_view(l)) =~= t.links);
            }
        } else if chunk.tag == TAG_PRNT {
            let mut more = match read_prnt(data) {
                Some(l) => l,
                None => {
                    proof { lemma_tables_none_extends(cs, c as int + 1); }
                    return Err(ContainerFormatError::BadChunk);
                },
            };
            let ghost added = more@.map_values(|l: ParentLink| link_view(l));
            assert(added =~= prnt_payload(data@)->0);
            links.append(&mut more);
            assert(links@.map_values(|l: ParentLink| link_view(l)) =~= t.links + added);
            assert(classes@.map_values(|c: ClassRecord| class_view(c)) =~= t.classes);
            assert(props@.map_values(|p: PropValues| prop_view(p)) =~= t.props);
        } else {
            assert(tables_view(classes@, props@, links@) == t);
        }
        c = c + 1;
    }
    assert(cs.subrange(0, c as int) =~= cs);
    Ok((classes, props, links, total))
}

proof fn lemma_tables_none_extends(cs: Seq<(nat, Seq<u8>)>, n: int)
    requires
        0 <= n <= cs.len(),
        tables_of(cs.subrange(0, n)) is None,
    ensures
        tables_of(cs) is None,
    decreases cs.len() - n,
{
    if n < cs.len() {
        assert(cs.drop_last().subrange(0, n) =~= cs.subrange(0, n));
        lemma_tables_none_extends(cs.drop_last(), n);
    } else {
        assert(cs.subrange(0, n) =~= cs);
    }
}

proof fn lemma_total_prefix(cs: Seq<(nat, Seq<u8>, Seq<int>)>, a: int, b: int)
    requires
        0 <= a <= b <= cs.len(),
    ensures
        total_referents(cs.subrange(0, a)) + (if a < b { cs[a].2.len() } else { 0 }) <= total_referents(
            cs.subrange(0, b),
        ),
    decreases b - a,
{
    if a < b {
        let sb = cs.subrange(0, b);
        assert(sb.drop_last() =~= cs.subrange(0, b - 1));
        if a < b - 1 {
            lemma_total_prefix(cs, a, b - 1);
        }
    }
}

/// Instance `i` of class record `k`: its referent and class, the first `Name`
/// value of its class, and the other text properties of its class, in order.
fn make_instance(classes: &Vec<ClassRecord>, props: &Vec<PropValues>, k: usize, i: usize) -> (r: Instance)
    requires
        k < classes@.len(),
        i < classes@[k as int].referents@.len(),
        forall|j: int| 0 <= j < props@.len() ==> prop_ok(#[trigger] props@[j]),
    ensures
        instance_matches(
            r,
            class_view(classes@[k as int]),
            i as int,
            props@.map_values(|p: PropValues| prop_view(p)),
        ),
{
    let ghost ps = props@.map_values(|p: PropValues| prop_view(p));
    let ghost id = classes@[k as int].class_id as nat;
    let class_id = classes[k].class_id;
    let mut name = String::new();
    let mut named = false;
    let mut properties: Vec<Property> = Vec::new();
    let mut p: usize = 0;
    while p < props.len()
        invariant
            p <= props@.len(),
            k < classes@.len(),
            class_id == classes@[k as int].class_id,
            id == class_id as nat,
            ps == props@.map_values(|p: PropValues| prop_view(p)),
            forall|j: int| 0 <= j < props@.len() ==> prop_ok(#[trigger] props@[j]),
            named <==> first_name(ps.subrange(0, p as int), id, i as int) is Some,
            named ==> encode_utf8(name@) == first_name(ps.subrange(0, p as int), id, i as int)->0,
            !named ==> name@ == Seq::<char>::empty(),
            properties@.map_values(|q: Property| property_view(q)) == other_props(
                ps.subrange(0, p as int),
                id,
                i as int,
            ),
        decreases props@.len() - p,
    {
        let ghost sub = ps.subrange(0, p as int + 1);
        assert(sub.drop_last() =~= ps.subrange(0, p as int));
        assert(sub.last() == prop_view(props@[p as int]));
        assert(prop_ok(props@[p as int]));
        let pv = &props[p];
        if pv.class_id == class_id && i < pv.values.len() {
            assert(prop_view(*pv).2[i as int] == encode_utf8(pv.values@[i as int]@));
            if pv.is_name {
                if !named {
                    name = copy_string(&pv.values[i]);
                    named = true;
                }
            } else {
                let ghost before = properties@.map_values(|q: Property| property_view(q));
                let prop = Property { name: copy_string(&pv.name), value: copy_string(&pv.values[i]) };
                properties.push(prop);
                assert(properties@.map_values(|q: Property| property_view(q)) =~= before.push(
                    property_view(prop),
                ));
            }
        }
        p = p + 1;
    }
    assert(ps.subrange(0, p as int) =~= ps);
    Instance {
        referent: classes[k].referents[i],
        class_name: copy_string(&classes[k].class_name),
        name,
        properties,
    }
}

/// One instance per referent of the class records, record after record.
fn make_instances(classes: &Vec<ClassRecord>, props: &Vec<PropValues>, total: usize) -> (r: Vec<Instance>)
    requires
        total == total_referents(classes@.map_values(|c: ClassRecord| class_view(c))),
        forall|j: int| 0 <= j < props@.len() ==> prop_ok(#[trigger] props@[j]),
    ensures
        instances_match(
            r@,
            classes@.map_values(|c: ClassRecord| class_view(c)),
            props@.map_values(|p: PropValues| prop_view(p)),
        ),
{
    let ghost cs = classes@.map_values(|c: ClassRecord| class_view(c));
    let ghost ps = props@.map_values(|p: PropValues| prop_view(p));
    let mut insts: Vec<Instance> = Vec::new();
    let mut k: usize = 0;
    while k < classes.len()
        invariant
            k <= classes@.len(),
            cs == classes@.map_values(|c: ClassRecord| class_view(c)),
            ps == props@.map_values(|p: PropValues| prop_view(p)),
            forall|j: int| 0 <= j < props@.len() ==> prop_ok(#[trigger] props@[j]),
            insts@.len() == total_referents(cs.subrange(0, k as int)),
            forall|kk: int, i: int|
                0 <= kk < k && 0 <= i < cs[kk].2.len() ==> #[trigger] instance_matches(
                    insts@[total_referents(cs.subrange(0, kk)) + i],
                    cs[kk],
                    i,
                    ps,
                ),
        decreases classes@.len() - k,
    {
        let ghost base = total_referents(cs.subrange(0, k as int));
        let n = classes[k].referents.len();
        assert(cs[k as int].2.len() == n);
        let mut i: usize = 0;
        while i < n
            invariant
                i <= n,
                k < classes@.len(),
                n == cs[k as int].2.len(),
                cs == classes@.map_values(|c: ClassRecord| class_view(c)),
                ps == props@.map_values(|p: PropValues| prop_view(p)),
                forall|j: int| 0 <= j < props@.len() ==> prop_ok(#[trigger] props@[j]),
                base == total_referents(cs.subrange(0, k as int)),
                insts@.len() == base + i,
                forall|kk: int, ii: int|
                    0 <= kk < k && 0 <= ii < cs[kk].2.len() ==> #[trigger] instance_matches(
                        insts@[total_referents(cs.subrange(0, kk)) + ii],
                        cs[kk],
                        ii,
                        ps,
                    ),
                forall|ii: int|
                    0 <= ii < i ==> #[trigger] instance_matches(insts@[base + ii], cs[k as int], ii, ps),
            decreases n - i,
        {
            let inst = make_instance(classes, props, k, i);
            let ghost prev = insts@;
            insts.push(inst);
            proof {
                assert forall|kk: int, ii: int|
                    0 <= kk < k && 0 <= ii < cs[kk].2.len() implies #[trigger] instance_matches(
                        insts@[total_referents(cs.subrange(0, kk)) + ii],
                        cs[kk],
                        ii,
                        ps,
                    ) by {
                    lemma_total_prefix(cs, kk, k as int);
                    assert(insts@[total_referents(cs.subrange(0, kk)) + ii] == prev[total_referents(cs.subrange(0, kk)) + ii]);
                }
                assert forall|ii: int| 0 <= ii < i + 1 implies #[trigger] instance_matches(
                    insts@[base + ii],
                    cs[k as int],
                    ii,
                    ps,
                ) by {
                    if ii < i {
                        assert(insts@[base + ii] == prev[base + ii]);
                    }
                }
            }
            i = i + 1;
        }
        proof {
            let s1 = cs.subrange(0, k as int + 1);
            assert(s1.drop_last() =~= cs.subrange(0, k as int));
            assert forall|kk: int, ii: int|
                0 <= kk < k + 1 && 0 <= ii < cs[kk].2.len() implies #[trigger] instance_matches(
                    insts@[total_referents(cs.subrange(0, kk)) + ii],
                    cs[kk],
                    ii,
                    ps,
                ) by {
                if kk == k {
                    assert(instance_matches(insts@[base + ii], cs[k as int], ii, ps));
                }
            }
        }
        k = k + 1;
    }
    assert(cs.subrange(0, k as int) =~= cs);
    insts
}

/// The class record and position within it of instance slot `s`.
proof fn lemma_slot(cs: Seq<(nat, Seq<u8>, Seq<int>)>, s: int) -> (ki: (int, int))
    requires
        0 <= s < total_referents(cs),
    ensures
        0 <= ki.0 < cs.len(),
        0 <= ki.1 < cs[ki.0].2.len(),
        s == total_referents(cs.subrange(0, ki.0)) + ki.1,
    decreases cs.len(),
{
    let last = cs.len() - 1;
    assert(cs.subrange(0, last) =~= cs.drop_last());
    let base = total_referents(cs.drop_last());
    if s >= base {
        (last, s - base)
    } else {
        let (k, i) = lemma_slot(cs.drop_last(), s);
        assert(cs.drop_last().subrange(0, k) =~= cs.subrange(0, k));
        assert(cs.drop_last()[k] == cs[k]);
        (k, i)
    }
}

/// Two instance lists that match the same tables hold the same referents.
proof fn lemma_same_referents(
    a: Seq<Instance>,
    b: Seq<Instance>,
    cs: Seq<(nat, Seq<u8>, Seq<int>)>,
    ps: Seq<(nat, Seq<u8>, Seq<Seq<u8>>)>,
)
    requires
        instances_match(a, cs, ps),
        instances_match(b, cs, ps),
    ensures
        a.len() == b.len(),
        forall|j: int| 0 <= j < a.len() ==> #[trigger] a[j].referent == b[j].referent,
{
    assert forall|j: int| 0 <= j < a.len() implies #[trigger] a[j].referent == b[j].referent by {
        let (k, i) = lemma_slot(cs, j);
        assert(instance_matches(a[total_referents(cs.subrange(0, k)) + i], cs[k], i, ps));
        assert(instance_matches(b[total_referents(cs.subrange(0, k)) + i], cs[k], i, ps));
    }
}

/// Two instance lists that match the same tables hold the same referents and texts.
pub proof fn lemma_same_instances(
    a: Seq<Instance>,
    b: Seq<Instance>,
    cs: Seq<(nat, Seq<u8>, Seq<int>)>,
    ps: Seq<(nat, Seq<u8>, Seq<Seq<u8>>)>,
)
    requires
        instances_match(a, cs, ps),
        instances_match(b, cs, ps),
    ensures
        same_instances(a, b),
{
    assert forall|j: int| 0 <= j < a.len() implies {
        &&& (#[trigger] a[j]).referent == b[j].referent
        &&& a[j].class_name@ == b[j].class_name@
        &&& a[j].name@ == b[j].name@
        &&& crate::tree::same_properties(a[j].properties@, b[j].properties@)
    } by {
        let (k, i) = lemma_slot(cs, j);
        let x = a[total_referents(cs.subrange(0, k)) + i];
        let y = b[total_referents(cs.subrange(0, k)) + i];
        assert(x == a[j] && y == b[j]);
        assert(instance_matches(x, cs[k], i, ps));
        assert(instance_matches(y, cs[k], i, ps));
        lemma_same_encoding(x.class_name@, y.class_name@);
        if first_name(ps, cs[k].0, i) is Some {
            lemma_same_encoding(x.name@, y.name@);
        }
        let px = x.properties@.map_values(|p: Property| property_view(p));
        let py = y.properties@.map_values(|p: Property| property_view(p));
        assert(px == py);
        assert(x.properties@.len() == px.len() && y.properties@.len() == py.len());
        assert forall|q: int| 0 <= q < x.properties@.len() implies (#[trigger] x.properties@[q]).name@
            == y.properties@[q].name@ && x.properties@[q].value@ == y.properties@[q].value@ by {
            assert(px[q] == property_view(x.properties@[q]));
            assert(py[q] == property_view(y.properties@[q]));
            assert(px[q] == py[q]);
            lemma_same_encoding(x.properties@[q].name@, y.properties@[q].name@);
            lemma_same_encoding(x.properties@[q].value@, y.properties@[q].value@);
        }
    }
}

/// Links with the same views are the same links.
pub proof fn lemma_links_same(x: Seq<ParentLink>, y: Seq<ParentLink>)
    requires
        x.map_values(|l: ParentLink| link_view(l)) == y.map_values(|l: ParentLink| link_view(l)),
    ensures
        x == y,
{
    let vx = x.map_values(|l: ParentLink| link_view(l));
    let vy = y.map_values(|l: ParentLink| link_view(l));
    assert(vx.len() == x.len() && vy.len() == y.len());
    assert forall|k: int| 0 <= k < x.len() implies x[k] == y[k] by {
        assert(vx[k] == link_view(x[k]));
        assert(vy[k] == link_view(y[k]));
    }
    assert(x =~= y);
}

/// The instances and links that the tables declare can be placed in a tree.
pub open spec fn tables_buildable(t: TablesView) -> bool {
    forall|insts: Seq<Instance>, links: Seq<ParentLink>|
        instances_match(insts, t.classes, t.props) && links.map_values(|l: ParentLink| link_view(l))
            == t.links ==> tree_buildable(insts, links)
}

/// Decodes a binary container into its instance tree: the chunks up to `END`,
/// then the instances and links that they declare, then the tree those form.
pub fn decode_binary(b: &[u8]) -> (r: Result<AssetNode, ContainerFormatError>)
    ensures
        b@.len() < HEADER_LEN ==> r == Err::<AssetNode, _>(ContainerFormatError::Truncated),
        version_unsupported(b@) ==> r == Err::<AssetNode, _>(ContainerFormatError::UnsupportedVersion),
        match binary_chunks(b@) {
            Some(cs) => match tables_of(cs) {
                Some(t) => r is Ok <==> tables_buildable(t),
                None => r is Err,
            },
            None => r is Err,
        },
        r matches Ok(root) ==> {
            &&& is_root(root)
            &&& binary_chunks(b@) matches Some(cs)
            &&& tables_of(cs) matches Some(t)
            &&& exists|insts: Seq<Instance>, links: Seq<ParentLink>|
                instances_match(insts, t.classes, t.props) && links.map_values(
                    |l: ParentLink| link_view(l),
                ) == t.links && tree_built(insts, links, root)
        },
{
    let chunks = match read_chunks(b) {
        Ok(c) => c,
        Err(e) => {
            return Err(e);
        },
    };
    let (classes, props, links, total) = match read_tables(&chunks) {
        Ok(v) => v,
        Err(e) => {
            return Err(e);
        },
    };
    let insts = make_instances(&classes, &props, total);
    let r = build_tree(&insts, &links);
    proof {
        let t = tables_view(classes@, props@, links@);
        assert(instances_match(insts@, t.classes, t.props));
        if r is Ok {
            assert forall|i2: Seq<Instance>, l2: Seq<ParentLink>|
                instances_match(i2, t.classes, t.props) && l2.map_values(|l: ParentLink| link_view(l))
                    == t.links implies tree_buildable(i2, l2) by {
                lemma_same_referents(insts@, i2, t.classes, t.props);
                lemma_links_same(l2, links@);
                lemma_buildable_referents(insts@, i2, links@, crate::tree::children_of(links@, -1), crate::tree::MAX_DEPTH as nat);
            }
        }
    }
    r
}

} // verus!
