//! Finding the scripts of an instance tree, in depth-first pre-order.
use vstd::prelude::*;
use crate::report::{ParsedScript, ScriptUnit, SyntaxError, Finding, scan_outcome};
use crate::tree::{AssetNode, Property, copy_string, same_node, same_nodes, same_properties};

verus! {

/// Classes whose instances hold executable code.
pub open spec fn is_script_class(c: Seq<char>) -> bool {
    c == "Script"@ || c == "LocalScript"@ || c == "ModuleScript"@
}

/// The first `Source` property's value, or the empty text when there is none.
pub open spec fn source_of(props: Seq<Property>) -> Seq<char>
    decreases props.len(),
{
    if props.len() == 0 {
        Seq::empty()
    } else if props[0].name@ == "Source"@ {
        props[0].value@
    } else {
        source_of(props.subrange(1, props.len() as int))
    }
}

/// The location of a node named `name` under the location `prefix`; a node
/// directly under the root has its own name as location.
pub open spec fn path_of(prefix: Seq<char>, top: bool, name: Seq<char>) -> Seq<char> {
    if top {
        name
    } else {
        prefix + "."@ + name
    }
}

/// The scripts of `nodes` and their subtrees, in depth-first pre-order, as
/// (location, source) pairs.
pub open spec fn forest_scripts(nodes: Seq<AssetNode>, prefix: Seq<char>, top: bool) -> Seq<
    (Seq<char>, Seq<char>),
>
    decreases nodes,
{
    if nodes.len() == 0 {
        seq![]
    } else {
        forest_scripts(nodes.subrange(0, nodes.len() - 1), prefix, top) + node_scripts(
            nodes[nodes.len() - 1],
            prefix,
            top,
        )
    }
}

/// The scripts of `n` and its subtree: `n` itself first, then its children in order.
pub open spec fn node_scripts(n: AssetNode, prefix: Seq<char>, top: bool) -> Seq<
    (Seq<char>, Seq<char>),
>
    decreases n,
{
    let loc = path_of(prefix, top, n.display_name@);
    let own = if is_script_class(n.class_name@) {
        seq![(loc, source_of(n.properties@))]
    } else {
        seq![]
    };
    own + forest_scripts(n.children@, loc, false)
}

/// The scripts of a tree: those below its root, located from the root's children.
pub open spec fn tree_scripts(root: AssetNode) -> Seq<(Seq<char>, Seq<char>)> {
    forest_scripts(root.children@, Seq::empty(), true)
}

/// No node of `nodes` or below holds code.
pub open spec fn code_free_forest(nodes: Seq<AssetNode>) -> bool
    decreases nodes,
{
    nodes.len() == 0 || (code_free_forest(nodes.subrange(0, nodes.len() - 1)) && code_free_node(
        nodes[nodes.len() - 1],
    ))
}

/// Neither `n` nor any node below it holds code.
pub open spec fn code_free_node(n: AssetNode) -> bool
    decreases n,
{
    !is_script_class(n.class_name@) && code_free_forest(n.children@)
}

proof fn lemma_code_free_forest(nodes: Seq<AssetNode>, prefix: Seq<char>, top: bool)
    requires
        code_free_forest(nodes),
    ensures
        forest_scripts(nodes, prefix, top) == Seq::<(Seq<char>, Seq<char>)>::empty(),
    decreases nodes,
{
    if nodes.len() > 0 {
        lemma_code_free_forest(nodes.subrange(0, nodes.len() - 1), prefix, top);
        lemma_code_free_node(nodes[nodes.len() - 1], prefix, top);
        assert(Seq::<(Seq<char>, Seq<char>)>::empty() + Seq::<(Seq<char>, Seq<char>)>::empty()
            =~= Seq::<(Seq<char>, Seq<char>)>::empty());
    }
}

proof fn lemma_code_free_node(n: AssetNode, prefix: Seq<char>, top: bool)
    requires
        code_free_node(n),
    ensures
        node_scripts(n, prefix, top) == Seq::<(Seq<char>, Seq<char>)>::empty(),
    decreases n,
{
    lemma_code_free_forest(n.children@, path_of(prefix, top, n.display_name@), false);
    assert(Seq::<(Seq<char>, Seq<char>)>::empty() + Seq::<(Seq<char>, Seq<char>)>::empty()
        =~= Seq::<(Seq<char>, Seq<char>)>::empty());
}

/// A tree without code-bearing nodes yields no scripts, and scanning no
/// scripts succeeds with no findings, so the asset is judged not malicious.
pub proof fn lemma_code_free_tree_is_clean(root: AssetNode)
    requires
        code_free_forest(root.children@),
    ensures
        tree_scripts(root) == Seq::<(Seq<char>, Seq<char>)>::empty(),
        scan_outcome(Seq::<ParsedScript>::empty()) == Ok::<Seq<Finding>, SyntaxError>(Seq::empty()),
{
    lemma_code_free_forest(root.children@, Seq::empty(), true);
}

proof fn lemma_same_source(p: Seq<Property>, q: Seq<Property>)
    requires
        same_properties(p, q),
    ensures
        source_of(p) == source_of(q),
    decreases p.len(),
{
    if p.len() > 0 {
        let ps = p.subrange(1, p.len() as int);
        let qs = q.subrange(1, q.len() as int);
        assert forall|i: int| 0 <= i < ps.len() implies (#[trigger] ps[i]).name@ == qs[i].name@
            && ps[i].value@ == qs[i].value@ by {
            assert(ps[i] == p[i + 1] && qs[i] == q[i + 1]);
        }
        lemma_same_source(ps, qs);
        assert(p[0].name@ == q[0].name@);
    }
}

proof fn lemma_same_forest_scripts(xs: Seq<AssetNode>, ys: Seq<AssetNode>, prefix: Seq<char>, top: bool)
    requires
        same_nodes(xs, ys),
    ensures
        forest_scripts(xs, prefix, top) == forest_scripts(ys, prefix, top),
    decreases xs,
{
    if xs.len() > 0 {
        lemma_same_forest_scripts(xs.subrange(0, xs.len() - 1), ys.subrange(0, ys.len() - 1), prefix, top);
        lemma_same_node_scripts(xs[xs.len() - 1], ys[ys.len() - 1], prefix, top);
    }
}

proof fn lemma_same_node_scripts(a: AssetNode, b: AssetNode, prefix: Seq<char>, top: bool)
    requires
        same_node(a, b),
    ensures
        node_scripts(a, prefix, top) == node_scripts(b, prefix, top),
    decreases a,
{
    lemma_same_source(a.properties@, b.properties@);
    lemma_same_forest_scripts(a.children@, b.children@, path_of(prefix, top, a.display_name@), false);
}

/// Trees with the same texts and subtrees hold the same scripts.
pub proof fn lemma_same_tree_scripts(a: AssetNode, b: AssetNode)
    requires
        same_node(a, b),
    ensures
        tree_scripts(a) == tree_scripts(b),
{
    lemma_same_forest_scripts(a.children@, b.children@, Seq::empty(), true);
}

pub open spec fn unit_view(u: ScriptUnit) -> (Seq<char>, Seq<char>) {
    (u.location@, u.source@)
}

fn is_script(class_name: &String) -> (r: bool)
    ensures
        r == is_script_class(class_name@),
{
    *class_name == "Script".to_owned() || *class_name == "LocalScript".to_owned() || *class_name
        == "ModuleScript".to_owned()
}

fn source_text(props: &Vec<Property>) -> (r: String)
    ensures
        r@ == source_of(props@),
{
    let key = "Source".to_owned();
    let mut i: usize = 0;
    assert(props@.subrange(0, props@.len() as int) =~= props@);
    while i < props.len()
        invariant
            i <= props@.len(),
            key@ == "Source"@,
            source_of(props@) == source_of(props@.subrange(i as int, props@.len() as int)),
        decreases props@.len() - i,
    {
        let ghost rest = props@.subrange(i as int, props@.len() as int);
        assert(rest.subrange(1, rest.len() as int) =~= props@.subrange(
            i as int + 1,
            props@.len() as int,
        ));
        assert(rest[0] == props@[i as int]);
        if props[i].name == key {
            return copy_string(&props[i].value);
        }
        i = i + 1;
    }
    String::new()
}

fn location_of(prefix: &String, top: bool, name: &String) -> (r: String)
    ensures
        r@ == path_of(prefix@, top, name@),
{
    if top {
        copy_string(name)
    } else {
        copy_string(prefix).concat(".").concat(name.as_str())
    }
}

fn extract_node(n: &AssetNode, prefix: &String, top: bool, out: &mut Vec<ScriptUnit>)
    ensures
        final(out)@.map_values(|u: ScriptUnit| unit_view(u)) == old(out)@.map_values(
            |u: ScriptUnit| unit_view(u),
        ) + node_scripts(*n, prefix@, top),
    decreases *n, 1nat,
{
    let ghost start = old(out)@.map_values(|u: ScriptUnit| unit_view(u));
    let location = location_of(prefix, top, &n.display_name);
    if is_script(&n.class_name) {
        let source = source_text(&n.properties);
        out.push(ScriptUnit { location: copy_string(&location), source });
        assert(out@.map_values(|u: ScriptUnit| unit_view(u)) =~= start + seq![
            (location@, source_of(n.properties@)),
        ]);
    }
    let ghost mid = out@.map_values(|u: ScriptUnit| unit_view(u));
    extract_forest(&n.children, &location, false, out);
    assert(out@.map_values(|u: ScriptUnit| unit_view(u)) =~= start + node_scripts(
        *n,
        prefix@,
        top,
    ));
}

fn extract_forest(nodes: &Vec<AssetNode>, prefix: &String, top: bool, out: &mut Vec<ScriptUnit>)
    ensures
        final(out)@.map_values(|u: ScriptUnit| unit_view(u)) == old(out)@.map_values(
            |u: ScriptUnit| unit_view(u),
        ) + forest_scripts(nodes@, prefix@, top),
    decreases nodes@, 0nat,
{
    let ghost start = old(out)@.map_values(|u: ScriptUnit| unit_view(u));
    let mut i: usize = 0;
    while i < nodes.len()
        invariant
            i <= nodes@.len(),
            out@.map_values(|u: ScriptUnit| unit_view(u)) == start + forest_scripts(
                nodes@.subrange(0, i as int),
                prefix@,
                top,
            ),
        decreases nodes@.len() - i,
    {
        let ghost before = out@.map_values(|u: ScriptUnit| unit_view(u));
        let ghost sub = nodes@.subrange(0, i as int + 1);
        assert(sub.subrange(0, sub.len() - 1) =~= nodes@.subrange(0, i as int));
        assert(sub[sub.len() - 1] == nodes@[i as int]);
        extract_node(&nodes[i], prefix, top, out);
        assert(out@.map_values(|u: ScriptUnit| unit_view(u)) =~= start + forest_scripts(
            sub,
            prefix@,
            top,
        ));
        i = i + 1;
    }
    assert(nodes@.subrange(0, i as int) =~= nodes@);
}

/// The scripts of a tree in depth-first pre-order: each with its location
/// (the names from the root's child down to it, joined by `.`) and its
/// `Source` text (empty when it has none).
pub fn extract_scripts(root: &AssetNode) -> (r: Vec<ScriptUnit>)
    ensures
        r@.map_values(|u: ScriptUnit| unit_view(u)) == tree_scripts(*root),
{
    let mut out: Vec<ScriptUnit> = Vec::new();
    let prefix = String::new();
    extract_forest(&root.children, &prefix, true, &mut out);
    assert(Seq::<(Seq<char>, Seq<char>)>::empty() + tree_scripts(*root) =~= tree_scripts(*root));
    out
}

} // verus!
