//! The decoded instance tree, and its assembly from flat instances and parent links.
use vstd::prelude::*;
use vstd::utf8::{encode_utf8, valid_utf8};
use crate::binary::{ContainerFormatError, ParentLink};
use std::collections::{HashMap, HashSet};

verus! {

broadcast use vstd::std_specs::hash::group_hash_axioms;

/// One named text property of a node.
pub struct Property {
    pub name: String,
    pub value: String,
}

/// A node of the instance tree; each node owns its children.
pub struct AssetNode {
    pub class_name: String,
    pub display_name: String,
    pub properties: Vec<Property>,
    pub children: Vec<AssetNode>,
}

/// Deepest nesting of nodes that a decoded tree may have.
pub const MAX_DEPTH: usize = 256;

/// The synthetic root: no class, no name, no properties.
pub open spec fn is_root(n: AssetNode) -> bool {
    n.class_name@ == Seq::<char>::empty() && n.display_name@ == Seq::<char>::empty()
        && n.properties@.len() == 0
}

/// Two property lists hold the same names and values, in order.
pub open spec fn same_properties(a: Seq<Property>, b: Seq<Property>) -> bool {
    &&& a.len() == b.len()
    &&& forall|i: int| 0 <= i < a.len() ==> (#[trigger] a[i]).name@ == b[i].name@ && a[i].value@ == b[i].value@
}

/// Two nodes hold the same texts and the same subtrees.
pub open spec fn same_node(a: AssetNode, b: AssetNode) -> bool
    decreases a, 1nat,
{
    &&& a.class_name@ == b.class_name@
    &&& a.display_name@ == b.display_name@
    &&& same_properties(a.properties@, b.properties@)
    &&& same_nodes(a.children@, b.children@)
}

/// Two node lists hold the same nodes, in order.
pub open spec fn same_nodes(xs: Seq<AssetNode>, ys: Seq<AssetNode>) -> bool
    decreases xs, 0nat,
{
    &&& xs.len() == ys.len()
    &&& xs.len() > 0 ==> {
        &&& same_nodes(xs.subrange(0, xs.len() - 1), ys.subrange(0, ys.len() - 1))
        &&& same_node(xs[xs.len() - 1], ys[ys.len() - 1])
    }
}

/// One instance of a container before it is placed in the tree.
pub struct Instance {
    pub referent: i64,
    pub class_name: String,
    pub name: String,
    pub properties: Vec<Property>,
}

/// The referents whose parent is `parent`, in link order.
pub open spec fn children_of(links: Seq<ParentLink>, parent: int) -> Seq<i64>
    decreases links.len(),
{
    if links.len() == 0 {
        seq![]
    } else {
        let rest = children_of(links.drop_last(), parent);
        if links.last().parent == parent {
            rest.push(links.last().child)
        } else {
            rest
        }
    }
}

/// `node` is the subtree of instance `inst`: its class, name and properties,
/// and one child subtree per link to it, in link order, at most `depth` deep.
pub open spec fn node_built(
    insts: Seq<Instance>,
    links: Seq<ParentLink>,
    node: AssetNode,
    inst: Instance,
    depth: nat,
) -> bool
    decreases depth, 1nat, 0nat,
{
    &&& node.class_name == inst.class_name
    &&& node.display_name == inst.name
    &&& node.properties@ == inst.properties@
    &&& forest_built(insts, links, node.children@, children_of(links, inst.referent as int), depth)
}

/// `k` is the first position of an instance with referent `r`.
pub open spec fn first_with(insts: Seq<Instance>, r: i64, k: int) -> bool {
    &&& 0 <= k < insts.len()
    &&& insts[k].referent == r
    &&& forall|i: int| 0 <= i < k ==> insts[i].referent != r
}

/// The first instance with referent `r`.
pub open spec fn instance_with(insts: Seq<Instance>, r: i64) -> Instance {
    insts[choose|k: int| first_with(insts, r, k)]
}

proof fn lemma_instance_with(insts: Seq<Instance>, r: i64, k: int)
    requires
        first_with(insts, r, k),
    ensures
        instance_with(insts, r) == insts[k],
{
    let c = choose|k: int| first_with(insts, r, k);
    assert(first_with(insts, r, c));
    if c < k {
        assert(insts[c].referent != r);
    } else if c > k {
        assert(insts[k].referent != r);
    }
}

/// `nodes` are the subtrees of the instances with referents `refs`, in order,
/// each within `depth` levels.
pub open spec fn forest_built(
    insts: Seq<Instance>,
    links: Seq<ParentLink>,
    nodes: Seq<AssetNode>,
    refs: Seq<i64>,
    depth: nat,
) -> bool
    decreases depth, 0nat, refs.len(),
{
    &&& nodes.len() == refs.len()
    &&& refs.len() > 0 ==> {
        &&& forest_built(insts, links, nodes.drop_last(), refs.drop_last(), depth)
        &&& exists|m: int| first_with(insts, refs.last(), m)
        &&& depth > 0
        &&& node_built(insts, links, nodes.last(), instance_with(insts, refs.last()), (depth - 1) as nat)
    }
}

/// Every referent of `refs` names an instance, and the instances linked to
/// each of them can be placed in turn, within `depth` levels.
pub open spec fn forest_buildable(insts: Seq<Instance>, links: Seq<ParentLink>, refs: Seq<i64>, depth: nat) -> bool
    decreases depth, 0nat, refs.len(),
{
    refs.len() > 0 ==> {
        &&& forest_buildable(insts, links, refs.drop_last(), depth)
        &&& exists|m: int| first_with(insts, refs.last(), m)
        &&& depth > 0
        &&& forest_buildable(
            insts,
            links,
            children_of(links, instance_with(insts, refs.last()).referent as int),
            (depth - 1) as nat,
        )
    }
}

/// The links form a tree under the root: no child is linked twice, every
/// linked referent names an instance, and nesting stays within `MAX_DEPTH`.
pub open spec fn tree_buildable(insts: Seq<Instance>, links: Seq<ParentLink>) -> bool {
    unique_children(links) && forest_buildable(insts, links, children_of(links, -1), MAX_DEPTH as nat)
}

proof fn lemma_buildable_prefix(insts: Seq<Instance>, links: Seq<ParentLink>, refs: Seq<i64>, depth: nat, k: int)
    requires
        0 <= k <= refs.len(),
        forest_buildable(insts, links, refs, depth),
    ensures
        forest_buildable(insts, links, refs.subrange(0, k), depth),
    decreases refs.len() - k,
{
    if k < refs.len() {
        assert(refs.drop_last().subrange(0, k) =~= refs.subrange(0, k));
        lemma_buildable_prefix(insts, links, refs.drop_last(), depth, k);
    } else {
        assert(refs.subrange(0, k) =~= refs);
    }
}

proof fn lemma_first_with_same(a: Seq<Instance>, b: Seq<Instance>, r: i64, m: int)
    requires
        a.len() == b.len(),
        forall|j: int| 0 <= j < a.len() ==> #[trigger] a[j].referent == b[j].referent,
        first_with(a, r, m),
    ensures
        first_with(b, r, m),
{
    assert(a[m].referent == b[m].referent);
    assert forall|i: int| 0 <= i < m implies b[i].referent != r by {
        assert(a[i].referent == b[i].referent);
    }
}

/// Buildability looks at referents only.
pub proof fn lemma_buildable_referents(
    a: Seq<Instance>,
    b: Seq<Instance>,
    links: Seq<ParentLink>,
    refs: Seq<i64>,
    depth: nat,
)
    requires
        a.len() == b.len(),
        forall|j: int| 0 <= j < a.len() ==> #[trigger] a[j].referent == b[j].referent,
    ensures
        forest_buildable(a, links, refs, depth) == forest_buildable(b, links, refs, depth),
    decreases depth, refs.len(),
{
    if refs.len() > 0 {
        lemma_buildable_referents(a, b, links, refs.drop_last(), depth);
        let r = refs.last();
        if exists|m: int| first_with(a, r, m) {
            let m = choose|m: int| first_with(a, r, m);
            lemma_first_with_same(a, b, r, m);
            lemma_instance_with(a, r, m);
            lemma_instance_with(b, r, m);
        }
        if exists|m: int| first_with(b, r, m) {
            let m = choose|m: int| first_with(b, r, m);
            assert forall|j: int| 0 <= j < b.len() implies #[trigger] b[j].referent == a[j].referent by {
                assert(a[j].referent == b[j].referent);
            }
            lemma_first_with_same(b, a, r, m);
            lemma_instance_with(a, r, m);
            lemma_instance_with(b, r, m);
        }
        if depth > 0 && (exists|m: int| first_with(a, r, m)) {
            let m = choose|m: int| first_with(a, r, m);
            lemma_first_with_same(a, b, r, m);
            lemma_instance_with(a, r, m);
            lemma_instance_with(b, r, m);
            lemma_buildable_referents(
                a,
                b,
                links,
                children_of(links, instance_with(a, r).referent as int),
                (depth - 1) as nat,
            );
        }
    }
}

/// Two instance lists hold the same referents and texts, position by position.
pub open spec fn same_instances(a: Seq<Instance>, b: Seq<Instance>) -> bool {
    &&& a.len() == b.len()
    &&& forall|j: int|
        0 <= j < a.len() ==> {
            &&& (#[trigger] a[j]).referent == b[j].referent
            &&& a[j].class_name@ == b[j].class_name@
            &&& a[j].name@ == b[j].name@
            &&& same_properties(a[j].properties@, b[j].properties@)
        }
}

/// Subtrees built from instance lists with the same texts are the same.
pub proof fn lemma_forest_built_same(
    a: Seq<Instance>,
    b: Seq<Instance>,
    links: Seq<ParentLink>,
    refs: Seq<i64>,
    na: Seq<AssetNode>,
    nb: Seq<AssetNode>,
    depth: nat,
)
    requires
        same_instances(a, b),
        forest_built(a, links, na, refs, depth),
        forest_built(b, links, nb, refs, depth),
    ensures
        same_nodes(na, nb),
    decreases depth, refs.len(),
{
    if refs.len() > 0 {
        lemma_forest_built_same(a, b, links, refs.drop_last(), na.drop_last(), nb.drop_last(), depth);
        assert(na.subrange(0, na.len() - 1) =~= na.drop_last());
        assert(nb.subrange(0, nb.len() - 1) =~= nb.drop_last());
        let r = refs.last();
        let m = choose|m: int| first_with(a, r, m);
        assert(forall|j: int| 0 <= j < a.len() ==> #[trigger] a[j].referent == b[j].referent);
        lemma_first_with_same(a, b, r, m);
        lemma_instance_with(a, r, m);
        lemma_instance_with(b, r, m);
        let x = na[na.len() - 1];
        let y = nb[nb.len() - 1];
        assert(na.last() == x && nb.last() == y);
        let d = (depth - 1) as nat;
        assert(node_built(a, links, na.last(), instance_with(a, refs.last()), d));
        assert(node_built(b, links, nb.last(), instance_with(b, refs.last()), d));
        assert(node_built(a, links, x, a[m], d));
        assert(node_built(b, links, y, b[m], d));
        assert(a[m].referent == b[m].referent);
        assert(a[m].class_name@ == b[m].class_name@);
        assert(same_properties(a[m].properties@, b[m].properties@));
        assert(forest_built(a, links, x.children@, children_of(links, a[m].referent as int), d));
        assert(forest_built(b, links, y.children@, children_of(links, a[m].referent as int), d));
        lemma_forest_built_same(
            a,
            b,
            links,
            children_of(links, a[m].referent as int),
            x.children@,
            y.children@,
            d,
        );
        assert(same_properties(x.properties@, y.properties@));
        assert(x.display_name@ == y.display_name@);
        assert(same_node(x, y));
        assert(same_nodes(na.subrange(0, na.len() - 1), nb.subrange(0, nb.len() - 1)));
    }
}

/// `root` is the synthetic root whose children are the instances linked to
/// parent `-1`, nested at most `MAX_DEPTH` deep.
pub open spec fn tree_built(insts: Seq<Instance>, links: Seq<ParentLink>, root: AssetNode) -> bool {
    &&& is_root(root)
    &&& forest_built(insts, links, root.children@, children_of(links, -1), MAX_DEPTH as nat)
}

/// Relies on `String::from_utf8`: it succeeds exactly on valid UTF-8 and keeps the bytes.
#[verifier::external_body]
pub(crate) fn text_from_utf8(bytes: Vec<u8>) -> (r: Option<String>)
    ensures
        match r {
            Some(s) => encode_utf8(s@) == bytes@,
            None => !valid_utf8(bytes@),
        },
{
    String::from_utf8(bytes).ok()
}

pub fn copy_string(s: &String) -> (r: String)
    ensures
        r == *s,
{
    s.clone()
}

pub fn copy_properties(props: &Vec<Property>) -> (r: Vec<Property>)
    ensures
        r@ == props@,
{
    let mut r: Vec<Property> = Vec::new();
    let mut i: usize = 0;
    while i < props.len()
        invariant
            i <= props@.len(),
            r@ == props@.subrange(0, i as int),
        decreases props@.len() - i,
    {
        let p = &props[i];
        r.push(Property { name: copy_string(&p.name), value: copy_string(&p.value) });
        i = i + 1;
        assert(r@ =~= props@.subrange(0, i as int));
    }
    assert(props@.subrange(0, i as int) =~= props@);
    r
}

/// Each child referent occurs in at most one link.
pub open spec fn unique_children(links: Seq<ParentLink>) -> bool {
    forall|i: int, j: int| 0 <= i < j < links.len() ==> links[i].child != links[j].child
}

/// `index` maps each referent of the instances to the first position that has it.
pub open spec fn indexes(insts: Seq<Instance>, index: Map<i64, usize>) -> bool {
    &&& forall|r: i64| #[trigger] index.contains_key(r) ==> first_with(insts, r, index[r] as int)
    &&& forall|j: int| 0 <= j < insts.len() ==> index.contains_key(#[trigger] insts[j].referent)
}

/// `kids` maps each parent referent to the referents linked to it, in link order.
pub open spec fn groups(links: Seq<ParentLink>, kids: Map<i64, Vec<i64>>) -> bool {
    forall|p: i64|
        #[trigger] children_of(links, p as int) == if kids.contains_key(p) {
            kids[p]@
        } else {
            Seq::<i64>::empty()
        }
}

/// Whether no child referent occurs in two links.
pub fn children_unique(links: &Vec<ParentLink>) -> (r: bool)
    ensures
        r == unique_children(links@),
{
    let mut seen: HashSet<i64> = HashSet::new();
    let mut i: usize = 0;
    while i < links.len()
        invariant
            i <= links@.len(),
            unique_children(links@.subrange(0, i as int)),
            forall|c: i64|
                #[trigger] seen@.contains(c) <==> exists|j: int| 0 <= j < i && links@[j].child == c,
        decreases links@.len() - i,
    {
        let c = links[i].child;
        if !seen.insert(c) {
            proof {
                let j = choose|j: int| 0 <= j < i && links@[j].child == c;
                assert(links@[j].child == links@[i as int].child);
            }
            return false;
        }
        proof {
            let sub = links@.subrange(0, i + 1);
            assert forall|a: int, b: int| #![trigger sub[a], sub[b]] 0 <= a < b < i + 1 implies sub[a].child
                != sub[b].child by {
                assert(sub[a] == links@[a]);
                assert(sub[b] == links@[b]);
                if b < i {
                    assert(links@.subrange(0, i as int)[a] == links@[a]);
                    assert(links@.subrange(0, i as int)[b] == links@[b]);
                } else {
                    assert(!(exists|j: int| 0 <= j < i && links@[j].child == c));
                    assert(!(0 <= a < i && links@[a].child == c));
                }
            }
            assert forall|x: i64| #[trigger] seen@.contains(x) <==> exists|j: int|
                0 <= j < i + 1 && links@[j].child == x by {
                if x == c {
                    assert(links@[i as int].child == x);
                }
                if exists|j: int| 0 <= j < i + 1 && links@[j].child == x {
                    let j = choose|j: int| 0 <= j < i + 1 && links@[j].child == x;
                    if j < i {
                        assert(exists|k: int| 0 <= k < i && links@[k].child == x);
                    }
                }
            }
        }
        i = i + 1;
    }
    assert(links@.subrange(0, i as int) =~= links@);
    true
}

/// The first position of each referent.
fn index_instances(insts: &Vec<Instance>) -> (r: HashMap<i64, usize>)
    ensures
        indexes(insts@, r@),
{
    let mut index: HashMap<i64, usize> = HashMap::new();
    let mut j: usize = 0;
    while j < insts.len()
        invariant
            j <= insts@.len(),
            forall|r: i64| #[trigger] index@.contains_key(r) ==> first_with(insts@, r, index@[r] as int)
                && index@[r] < j,
            forall|k: int| 0 <= k < j ==> index@.contains_key(#[trigger] insts@[k].referent),
        decreases insts@.len() - j,
    {
        let r = insts[j].referent;
        if !index.contains_key(&r) {
            proof {
                assert forall|k: int| 0 <= k < j implies insts@[k].referent != r by {
                    assert(index@.contains_key(insts@[k].referent));
                }
                assert(first_with(insts@, r, j as int));
            }
            index.insert(r, j);
        }
        j = j + 1;
    }
    index
}

/// The referents linked to each parent, in link order.
fn group_links(links: &Vec<ParentLink>) -> (r: HashMap<i64, Vec<i64>>)
    ensures
        groups(links@, r@),
{
    let mut kids: HashMap<i64, Vec<i64>> = HashMap::new();
    let mut i: usize = 0;
    while i < links.len()
        invariant
            i <= links@.len(),
            groups(links@.subrange(0, i as int), kids@),
        decreases links@.len() - i,
    {
        let parent = links[i].parent;
        let child = links[i].child;
        let ghost before = kids@;
        let mut list = match kids.remove(&parent) {
            Some(v) => v,
            None => Vec::new(),
        };
        list.push(child);
        kids.insert(parent, list);
        proof {
            let sub = links@.subrange(0, i as int + 1);
            assert(sub.drop_last() =~= links@.subrange(0, i as int));
            assert forall|p: i64| #[trigger] children_of(sub, p as int) == if kids@.contains_key(p) {
                kids@[p]@
            } else {
                Seq::<i64>::empty()
            } by {
                assert(children_of(links@.subrange(0, i as int), p as int) == if before.contains_key(p) {
                    before[p]@
                } else {
                    Seq::<i64>::empty()
                });
            }
        }
        i = i + 1;
    }
    assert(links@.subrange(0, i as int) =~= links@);
    kids
}

fn build_forest(
    insts: &Vec<Instance>,
    links: &Vec<ParentLink>,
    index: &HashMap<i64, usize>,
    kids: &HashMap<i64, Vec<i64>>,
    refs: &Vec<i64>,
    depth: usize,
) -> (r: Result<Vec<AssetNode>, ContainerFormatError>)
    requires
        indexes(insts@, index@),
        groups(links@, kids@),
    ensures
        r matches Ok(nodes) ==> forest_built(insts@, links@, nodes@, refs@, depth as nat),
        r is Ok <==> forest_buildable(insts@, links@, refs@, depth as nat),
    decreases depth, 0nat, refs@.len() + 1,
{
    if refs.len() > 0 && depth == 0 {
        assert(refs@.subrange(0, 1).drop_last() =~= refs@.subrange(0, 0));
        proof {
            if forest_buildable(insts@, links@, refs@, depth as nat) {
                lemma_buildable_prefix(insts@, links@, refs@, depth as nat, 1);
            }
        }
        return Err(ContainerFormatError::BadTree);
    }
    let mut nodes: Vec<AssetNode> = Vec::new();
    let mut i: usize = 0;
    while i < refs.len()
        invariant
            i <= refs@.len(),
            nodes@.len() == i,
            refs@.len() > 0 ==> depth > 0,
            indexes(insts@, index@),
            groups(links@, kids@),
            forest_built(insts@, links@, nodes@, refs@.subrange(0, i as int), depth as nat),
            forest_buildable(insts@, links@, refs@.subrange(0, i as int), depth as nat),
        decreases refs@.len() - i,
    {
        let ghost r1 = refs@.subrange(0, i as int + 1);
        assert(r1.drop_last() =~= refs@.subrange(0, i as int));
        assert(r1.last() == refs@[i as int]);
        let j = match index.get(&refs[i]) {
            Some(j) => *j,
            None => {
                proof {
                    assert forall|m: int| !first_with(insts@, refs@[i as int], m) by {
                        if first_with(insts@, refs@[i as int], m) {
                            assert(index@.contains_key(insts@[m].referent));
                        }
                    }
                    if forest_buildable(insts@, links@, refs@, depth as nat) {
                        lemma_buildable_prefix(insts@, links@, refs@, depth as nat, i as int + 1);
                    }
                }
                return Err(ContainerFormatError::BadTree);
            },
        };
        proof {
            assert(index@.contains_key(refs@[i as int]));
            lemma_instance_with(insts@, refs@[i as int], j as int);
        }
        let node = match build_node(insts, links, index, kids, j, depth - 1) {
            Ok(n) => n,
            Err(e) => {
                proof {
                    let dn = depth as nat;
                    assert((dn - 1) as nat == (depth - 1) as nat);
                    if forest_buildable(insts@, links@, refs@, depth as nat) {
                        lemma_buildable_prefix(insts@, links@, refs@, depth as nat, i as int + 1);
                    }
                }
                return Err(e);
            },
        };
        let ghost prev = nodes@;
        nodes.push(node);
        proof {
            let dn = depth as nat;
            assert((dn - 1) as nat == (depth - 1) as nat);
            assert(nodes@.drop_last() =~= prev);
            assert(first_with(insts@, r1.last(), j as int));
        }
        i = i + 1;
    }
    assert(refs@.subrange(0, i as int) =~= refs@);
    Ok(nodes)
}

fn build_node(
    insts: &Vec<Instance>,
    links: &Vec<ParentLink>,
    index: &HashMap<i64, usize>,
    kids: &HashMap<i64, Vec<i64>>,
    idx: usize,
    depth: usize,
) -> (r: Result<AssetNode, ContainerFormatError>)
    requires
        idx < insts@.len(),
        indexes(insts@, index@),
        groups(links@, kids@),
    ensures
        r matches Ok(n) ==> node_built(insts@, links@, n, insts@[idx as int], depth as nat),
        r is Ok <==> forest_buildable(
            insts@,
            links@,
            children_of(links@, insts@[idx as int].referent as int),
            depth as nat,
        ),
    decreases depth, 1nat, 0nat,
{
    let inst = &insts[idx];
    let no_children: Vec<i64> = Vec::new();
    let refs = match kids.get(&inst.referent) {
        Some(v) => v,
        None => &no_children,
    };
    assert(refs@ == children_of(links@, inst.referent as int));
    let children = match build_forest(insts, links, index, kids, refs, depth) {
        Ok(c) => c,
        Err(e) => {
            return Err(e);
        },
    };
    Ok(
        AssetNode {
            class_name: copy_string(&inst.class_name),
            display_name: copy_string(&inst.name),
            properties: copy_properties(&inst.properties),
            children,
        },
    )
}

/// Places the instances under a synthetic root by their parent links. Links
/// that name one child twice are refused, and so are a link to an unknown
/// instance and nesting deeper than `MAX_DEPTH` (which a cycle always is); a
/// tree that comes back is the one the links describe.
pub fn build_tree(insts: &Vec<Instance>, links: &Vec<ParentLink>) -> (r: Result<AssetNode, ContainerFormatError>)
    ensures
        r is Ok <==> tree_buildable(insts@, links@),
        r matches Ok(root) ==> tree_built(insts@, links@, root),
{
    if !children_unique(links) {
        return Err(ContainerFormatError::BadTree);
    }
    let index = index_instances(insts);
    let kids = group_links(links);
    let no_children: Vec<i64> = Vec::new();
    let top = match kids.get(&-1) {
        Some(v) => v,
        None => &no_children,
    };
    assert(top@ == children_of(links@, -1));
    let children = match build_forest(insts, links, &index, &kids, top, MAX_DEPTH) {
        Ok(c) => c,
        Err(e) => {
            return Err(e);
        },
    };
    Ok(
        AssetNode {
            class_name: String::new(),
            display_name: String::new(),
            properties: Vec::new(),
            children,
        },
    )
}

} // verus!
