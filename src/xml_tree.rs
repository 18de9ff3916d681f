//! The tree of a text container: the `Item` elements inside its `roblox`
//! element, each with a `class` attribute, a `Properties` element and child
//! items.
use vstd::prelude::*;
use vstd::utf8::{encode_utf8, encode_utf8_valid_utf8, valid_utf8};
use crate::binary::{ContainerFormatError, copy_range};
use crate::tree::{
    AssetNode, MAX_DEPTH, Property, copy_string, is_root, same_node, same_nodes, text_from_utf8,
};
use crate::xml::{
    XmlAttr, XmlElement, XmlView, attrs_match, element_at, element_matches, elements_match,
    has_xml_marker, lemma_same_encoding, read_element, xml_marker,
};

verus! {

/// The value of the first attribute named `key`.
pub open spec fn attr_value(attrs: Seq<XmlAttr>, key: Seq<char>) -> Option<Seq<char>>
    decreases attrs.len(),
{
    if attrs.len() == 0 {
        None
    } else {
        match attr_value(attrs.subrange(0, attrs.len() - 1), key) {
            Some(v) => Some(v),
            None => if attrs[attrs.len() - 1].name@ == key {
                Some(attrs[attrs.len() - 1].value@)
            } else {
                None
            },
        }
    }
}

/// The text properties among the children of a `Properties` element: each
/// element without child elements that has a `name` attribute gives
/// (name, text), in order.
pub open spec fn text_entries(props: Seq<XmlElement>) -> Seq<(Seq<char>, Seq<u8>)>
    decreases props.len(),
{
    if props.len() == 0 {
        seq![]
    } else {
        let rest = text_entries(props.subrange(0, props.len() - 1));
        let p = props[props.len() - 1];
        if p.children@.len() == 0 && attr_value(p.attrs@, "name"@) is Some {
            rest.push((attr_value(p.attrs@, "name"@)->0, p.text@))
        } else {
            rest
        }
    }
}

/// The text properties of all `Properties` children of an item, in order.
pub open spec fn item_entries(children: Seq<XmlElement>) -> Seq<(Seq<char>, Seq<u8>)>
    decreases children.len(),
{
    if children.len() == 0 {
        seq![]
    } else {
        let rest = item_entries(children.subrange(0, children.len() - 1));
        let c = children[children.len() - 1];
        if c.name@ == "Properties"@ {
            rest + text_entries(c.children@)
        } else {
            rest
        }
    }
}

/// The text of the last `Name` entry.
pub open spec fn last_name(entries: Seq<(Seq<char>, Seq<u8>)>) -> Option<Seq<u8>>
    decreases entries.len(),
{
    if entries.len() == 0 {
        None
    } else if entries.last().0 == "Name"@ {
        Some(entries.last().1)
    } else {
        last_name(entries.drop_last())
    }
}

/// The entries other than `Name`, in order.
pub open spec fn other_entries(entries: Seq<(Seq<char>, Seq<u8>)>) -> Seq<(Seq<char>, Seq<u8>)>
    decreases entries.len(),
{
    if entries.len() == 0 {
        seq![]
    } else if entries.last().0 == "Name"@ {
        other_entries(entries.drop_last())
    } else {
        other_entries(entries.drop_last()).push(entries.last())
    }
}

pub open spec fn entry_view(p: Property) -> (Seq<char>, Seq<u8>) {
    (p.name@, encode_utf8(p.value@))
}

/// `node` is the tree of `Item` element `el`: its `class` attribute, the last
/// `Name` text as its name, its other text properties, and its child items.
pub open spec fn item_built(el: XmlElement, node: AssetNode) -> bool
    decreases el, 1nat,
{
    let entries = item_entries(el.children@);
    &&& attr_value(el.attrs@, "class"@) == Some(node.class_name@)
    &&& match last_name(entries) {
        Some(v) => encode_utf8(node.display_name@) == v,
        None => node.display_name@ == Seq::<char>::empty(),
    }
    &&& node.properties@.map_values(|p: Property| entry_view(p)) == other_entries(entries)
    &&& items_built(el.children@, node.children@)
}

/// `nodes` are the trees of the `Item` elements among `els`, in order.
pub open spec fn items_built(els: Seq<XmlElement>, nodes: Seq<AssetNode>) -> bool
    decreases els, 0nat,
{
    if els.len() == 0 {
        nodes.len() == 0
    } else if els[els.len() - 1].name@ == "Item"@ {
        &&& nodes.len() > 0
        &&& items_built(els.subrange(0, els.len() - 1), nodes.subrange(0, nodes.len() - 1))
        &&& item_built(els[els.len() - 1], nodes[nodes.len() - 1])
    } else {
        items_built(els.subrange(0, els.len() - 1), nodes)
    }
}

/// Every text property entry is UTF-8.
pub open spec fn entries_utf8(entries: Seq<(Seq<char>, Seq<u8>)>) -> bool {
    forall|i: int| 0 <= i < entries.len() ==> valid_utf8(#[trigger] entries[i].1)
}

/// `s` is a prefix of `t`.
pub open spec fn is_prefix<T>(s: Seq<T>, t: Seq<T>) -> bool {
    s.len() <= t.len() && t.subrange(0, s.len() as int) == s
}

/// An `Item` element can be turned into a node: it has a `class` attribute,
/// its text properties are UTF-8, and so can its child items.
pub open spec fn item_convertible(el: XmlElement) -> bool
    decreases el, 1nat,
{
    &&& attr_value(el.attrs@, "class"@) is Some
    &&& entries_utf8(item_entries(el.children@))
    &&& items_convertible(el.children@)
}

/// Every `Item` element among `els` can be turned into a node.
pub open spec fn items_convertible(els: Seq<XmlElement>) -> bool
    decreases els, 0nat,
{
    els.len() > 0 ==> {
        &&& items_convertible(els.subrange(0, els.len() - 1))
        &&& els[els.len() - 1].name@ == "Item"@ ==> item_convertible(els[els.len() - 1])
    }
}

proof fn lemma_items_convertible_prefix(els: Seq<XmlElement>, n: int)
    requires
        0 <= n <= els.len(),
        items_convertible(els),
    ensures
        items_convertible(els.subrange(0, n)),
    decreases els.len() - n,
{
    if n < els.len() {
        let shorter = els.subrange(0, els.len() - 1);
        assert(shorter.subrange(0, n) =~= els.subrange(0, n));
        lemma_items_convertible_prefix(shorter, n);
    } else {
        assert(els.subrange(0, n) =~= els);
    }
}

proof fn lemma_text_entries_prefix(props: Seq<XmlElement>, n: int)
    requires
        0 <= n <= props.len(),
    ensures
        is_prefix(text_entries(props.subrange(0, n)), text_entries(props)),
    decreases props.len() - n,
{
    if n < props.len() {
        let shorter = props.subrange(0, props.len() - 1);
        assert(shorter.subrange(0, n) =~= props.subrange(0, n));
        lemma_text_entries_prefix(shorter, n);
        let a = text_entries(props.subrange(0, n));
        let b = text_entries(shorter);
        let c = text_entries(props);
        assert(c.subrange(0, a.len() as int) =~= b.subrange(0, a.len() as int));
    } else {
        assert(props.subrange(0, n) =~= props);
        assert(text_entries(props).subrange(0, text_entries(props).len() as int) =~= text_entries(props));
    }
}

proof fn lemma_item_entries_prefix(children: Seq<XmlElement>, n: int)
    requires
        0 <= n <= children.len(),
    ensures
        is_prefix(item_entries(children.subrange(0, n)), item_entries(children)),
    decreases children.len() - n,
{
    if n < children.len() {
        let shorter = children.subrange(0, children.len() - 1);
        assert(shorter.subrange(0, n) =~= children.subrange(0, n));
        lemma_item_entries_prefix(shorter, n);
        let a = item_entries(children.subrange(0, n));
        let b = item_entries(shorter);
        let c = item_entries(children);
        assert(c.subrange(0, a.len() as int) =~= b.subrange(0, a.len() as int));
    } else {
        assert(children.subrange(0, n) =~= children);
        assert(item_entries(children).subrange(0, item_entries(children).len() as int) =~= item_entries(children));
    }
}

proof fn lemma_attr_value_same(x: Seq<XmlAttr>, y: Seq<XmlAttr>, key: Seq<char>)
    requires
        x.len() == y.len(),
        forall|i: int| 0 <= i < x.len() ==> #[trigger] x[i].name@ == y[i].name@ && x[i].value@ == y[i].value@,
    ensures
        attr_value(x, key) == attr_value(y, key),
    decreases x.len(),
{
    if x.len() > 0 {
        let xs = x.subrange(0, x.len() - 1);
        let ys = y.subrange(0, y.len() - 1);
        assert forall|i: int| 0 <= i < xs.len() implies #[trigger] xs[i].name@ == ys[i].name@
            && xs[i].value@ == ys[i].value@ by {
            assert(xs[i] == x[i]);
            assert(ys[i] == y[i]);
        }
        lemma_attr_value_same(xs, ys, key);
        assert(x[x.len() - 1].name@ == y[y.len() - 1].name@);
    }
}

/// Two elements read as the same view agree on everything the conversion looks at.
proof fn lemma_same_view(a: XmlElement, b: XmlElement, v: XmlView)
    requires
        element_matches(a, v),
        element_matches(b, v),
    ensures
        a.name@ == b.name@,
        a.text@ == b.text@,
        a.children@.len() == b.children@.len(),
        forall|key: Seq<char>| #[trigger] attr_value(a.attrs@, key) == attr_value(b.attrs@, key),
        text_entries(a.children@) == text_entries(b.children@),
        item_entries(a.children@) == item_entries(b.children@),
        items_convertible(a.children@) == items_convertible(b.children@),
        item_convertible(a) == item_convertible(b),
    decreases v,
{
    lemma_same_encoding(a.name@, b.name@);
    assert(attrs_match(a.attrs@, v.attrs) && attrs_match(b.attrs@, v.attrs));
    assert forall|i: int| 0 <= i < a.attrs@.len() implies #[trigger] a.attrs@[i].name@ == b.attrs@[i].name@
        && a.attrs@[i].value@ == b.attrs@[i].value@ by {
        assert(encode_utf8(a.attrs@[i].name@) == v.attrs[i].0);
        assert(encode_utf8(b.attrs@[i].name@) == v.attrs[i].0);
        lemma_same_encoding(a.attrs@[i].name@, b.attrs@[i].name@);
        lemma_same_encoding(a.attrs@[i].value@, b.attrs@[i].value@);
    }
    assert forall|key: Seq<char>| #[trigger] attr_value(a.attrs@, key) == attr_value(b.attrs@, key) by {
        lemma_attr_value_same(a.attrs@, b.attrs@, key);
    }
    lemma_same_views(a.children@, b.children@, v.children);
}

proof fn lemma_same_views(xs: Seq<XmlElement>, ys: Seq<XmlElement>, vs: Seq<XmlView>)
    requires
        elements_match(xs, vs),
        elements_match(ys, vs),
    ensures
        xs.len() == ys.len(),
        text_entries(xs) == text_entries(ys),
        item_entries(xs) == item_entries(ys),
        items_convertible(xs) == items_convertible(ys),
    decreases vs,
{
    if xs.len() > 0 {
        let n = xs.len() as int;
        lemma_same_views(xs.subrange(0, n - 1), ys.subrange(0, n - 1), vs.subrange(0, n - 1));
        lemma_same_view(xs[n - 1], ys[n - 1], vs[n - 1]);
        assert(attr_value(xs[n - 1].attrs@, "name"@) == attr_value(ys[n - 1].attrs@, "name"@));
    }
}

/// Nodes built from items read as the same views are the same nodes.
pub proof fn lemma_items_built_same(
    xs: Seq<XmlElement>,
    ys: Seq<XmlElement>,
    vs: Seq<XmlView>,
    na: Seq<AssetNode>,
    nb: Seq<AssetNode>,
)
    requires
        elements_match(xs, vs),
        elements_match(ys, vs),
        items_built(xs, na),
        items_built(ys, nb),
    ensures
        same_nodes(na, nb),
    decreases vs,
{
    if xs.len() > 0 {
        let n = xs.len() as int;
        let x = xs[n - 1];
        let y = ys[n - 1];
        lemma_same_view(x, y, vs[n - 1]);
        if x.name@ == "Item"@ {
            lemma_items_built_same(
                xs.subrange(0, n - 1),
                ys.subrange(0, n - 1),
                vs.subrange(0, n - 1),
                na.subrange(0, na.len() - 1),
                nb.subrange(0, nb.len() - 1),
            );
            lemma_item_built_same(x, y, vs[n - 1], na[na.len() - 1], nb[nb.len() - 1]);
        } else {
            lemma_items_built_same(xs.subrange(0, n - 1), ys.subrange(0, n - 1), vs.subrange(0, n - 1), na, nb);
        }
    }
}

/// The node built from an item is fixed by the view it was read as.
pub proof fn lemma_item_built_same(x: XmlElement, y: XmlElement, v: XmlView, p: AssetNode, q: AssetNode)
    requires
        element_matches(x, v),
        element_matches(y, v),
        item_built(x, p),
        item_built(y, q),
    ensures
        same_node(p, q),
    decreases v,
{
    lemma_same_view(x, y, v);
    let entries = item_entries(x.children@);
    assert(attr_value(x.attrs@, "class"@) == attr_value(y.attrs@, "class"@));
    if last_name(entries) is Some {
        lemma_same_encoding(p.display_name@, q.display_name@);
    }
    let pv = p.properties@.map_values(|e: Property| entry_view(e));
    let qv = q.properties@.map_values(|e: Property| entry_view(e));
    assert(pv == qv);
    assert(p.properties@.len() == pv.len() && q.properties@.len() == qv.len());
    assert forall|i: int| 0 <= i < p.properties@.len() implies (#[trigger] p.properties@[i]).name@
        == q.properties@[i].name@ && p.properties@[i].value@ == q.properties@[i].value@ by {
        assert(pv[i] == entry_view(p.properties@[i]));
        assert(qv[i] == entry_view(q.properties@[i]));
        lemma_same_encoding(p.properties@[i].value@, q.properties@[i].value@);
    }
    lemma_items_built_same(x.children@, y.children@, v.children, p.children@, q.children@);
}

/// Every element read as the view `v` has items that can be turned into nodes.
pub open spec fn xml_convertible(v: XmlView) -> bool {
    forall|doc: XmlElement| element_matches(doc, v) ==> items_convertible(doc.children@)
}

/// The value of the first attribute named `key`.
fn attribute(el: &XmlElement, key: &str) -> (r: Option<String>)
    ensures
        match r {
            Some(v) => attr_value(el.attrs@, key@) == Some(v@),
            None => attr_value(el.attrs@, key@) is None,
        },
{
    let wanted = key.to_owned();
    let mut i: usize = 0;
    while i < el.attrs.len()
        invariant
            i <= el.attrs@.len(),
            wanted@ == key@,
            attr_value(el.attrs@.subrange(0, i as int), key@) is None,
        decreases el.attrs@.len() - i,
    {
        let ghost sub = el.attrs@.subrange(0, i as int + 1);
        assert(sub.subrange(0, sub.len() - 1) =~= el.attrs@.subrange(0, i as int));
        assert(sub[sub.len() - 1] == el.attrs@[i as int]);
        if el.attrs[i].name == wanted {
            proof {
                lemma_attr_prefix(el.attrs@, i as int + 1, key@);
            }
            return Some(copy_string(&el.attrs[i].value));
        }
        i = i + 1;
    }
    assert(el.attrs@.subrange(0, i as int) =~= el.attrs@);
    None
}

proof fn lemma_attr_prefix(attrs: Seq<XmlAttr>, n: int, key: Seq<char>)
    requires
        0 <= n <= attrs.len(),
        attr_value(attrs.subrange(0, n), key) is Some,
    ensures
        attr_value(attrs, key) == attr_value(attrs.subrange(0, n), key),
    decreases attrs.len() - n,
{
    if n < attrs.len() {
        let shorter = attrs.subrange(0, attrs.len() - 1);
        assert(shorter.subrange(0, n) =~= attrs.subrange(0, n));
        lemma_attr_prefix(shorter, n, key);
    } else {
        assert(attrs.subrange(0, n) =~= attrs);
    }
}

/// The tree of an `Item` element; fails when an item has no `class` or a
/// text property is not UTF-8.
pub fn item_node(el: &XmlElement) -> (r: Result<AssetNode, ContainerFormatError>)
    ensures
        r matches Ok(node) ==> item_built(*el, node),
        r is Ok <==> item_convertible(*el),
    decreases *el,
{
    proof {
        reveal_strlit("Item");
        reveal_strlit("Properties");
        assert("Item"@.len() == 4);
        assert("Properties"@.len() == 10);
        assert("Item"@ != "Properties"@);
    }
    let class_name = match attribute(el, "class") {
        Some(c) => c,
        None => {
            return Err(ContainerFormatError::BadDocument);
        },
    };
    let item = "Item".to_owned();
    let properties_tag = "Properties".to_owned();
    let name_key = "Name".to_owned();
    let mut display_name = String::new();
    let mut properties: Vec<Property> = Vec::new();
    let mut children: Vec<AssetNode> = Vec::new();
    let ghost mut entries: Seq<(Seq<char>, Seq<u8>)> = seq![];
    let mut i: usize = 0;
    while i < el.children.len()
        invariant
            i <= el.children@.len(),
            item@ == "Item"@,
            properties_tag@ == "Properties"@,
            "Item"@ != "Properties"@,
            name_key@ == "Name"@,
            entries == item_entries(el.children@.subrange(0, i as int)),
            match last_name(entries) {
                Some(v) => encode_utf8(display_name@) == v,
                None => display_name@ == Seq::<char>::empty(),
            },
            properties@.map_values(|p: Property| entry_view(p)) == other_entries(entries),
            items_built(el.children@.subrange(0, i as int), children@),
            entries_utf8(entries),
            items_convertible(el.children@.subrange(0, i as int)),
            attr_value(el.attrs@, "class"@) is Some,
        decreases el.children@.len() - i,
    {
        let ghost sub = el.children@.subrange(0, i as int + 1);
        assert(sub.subrange(0, sub.len() - 1) =~= el.children@.subrange(0, i as int));
        assert(sub[sub.len() - 1] == el.children@[i as int]);
        let child = &el.children[i];
        if child.name == item {
            let node = match item_node(child) {
                Ok(n) => n,
                Err(e) => {
                    proof {
                        if items_convertible(el.children@) {
                            lemma_items_convertible_prefix(el.children@, i as int + 1);
                        }
                    }
                    return Err(e);
                },
            };
            let ghost before = children@;
            children.push(node);
            assert(children@.subrange(0, children@.len() - 1) =~= before);
            assert(item_entries(sub) == item_entries(el.children@.subrange(0, i as int)));
        } else if child.name == properties_tag {
            let ghost start = entries;
            let mut k: usize = 0;
            while k < child.children.len()
                invariant
                    k <= child.children@.len(),
                    name_key@ == "Name"@,
                    i < el.children@.len(),
                    start == item_entries(el.children@.subrange(0, i as int)),
                    entries == start + text_entries(child.children@.subrange(0, k as int)),
                    entries_utf8(entries),
                    child == el.children@[i as int],
                    child.name@ == "Properties"@,
                    match last_name(entries) {
                        Some(v) => encode_utf8(display_name@) == v,
                        None => display_name@ == Seq::<char>::empty(),
                    },
                    properties@.map_values(|p: Property| entry_view(p)) == other_entries(entries),
                decreases child.children@.len() - k,
            {
                let ghost psub = child.children@.subrange(0, k as int + 1);
                assert(psub.subrange(0, psub.len() - 1) =~= child.children@.subrange(0, k as int));
                assert(psub[psub.len() - 1] == child.children@[k as int]);
                let prop = &child.children[k];
                if prop.children.len() == 0 {
                    match attribute(prop, "name") {
                        Some(key) => {
                            let ghost text = prop.text@;
                            assert(text.subrange(0, text.len() as int) =~= text);
                            let ghost e = (key@, text);
                            assert(start + text_entries(psub) =~= (start + text_entries(
                                child.children@.subrange(0, k as int),
                            )).push(e));
                            let value = match text_from_utf8(
                                copy_range(prop.text.as_slice(), 0, prop.text.len()),
                            ) {
                                Some(v) => v,
                                None => {
                                    proof {
                                        let upto = el.children@.subrange(0, i as int + 1);
                                        assert(upto.subrange(0, upto.len() - 1) =~= el.children@.subrange(0, i as int));
                                        assert(upto[upto.len() - 1] == el.children@[i as int]);
                                        let mine = start + text_entries(psub);
                                        lemma_text_entries_prefix(child.children@, k as int + 1);
                                        let te = text_entries(child.children@);
                                        let tp = text_entries(psub);
                                        assert(te.subrange(0, tp.len() as int)[tp.len() - 1] == te[tp.len() - 1]);
                                        let whole = start + te;
                                        assert(whole == item_entries(upto));
                                        assert(whole[mine.len() - 1] == mine[mine.len() - 1]);
                                        lemma_item_entries_prefix(el.children@, i as int + 1);
                                        let all = item_entries(el.children@);
                                        assert(all.subrange(0, whole.len() as int)[mine.len() - 1] == all[mine.len() - 1]);
                                        assert(all[mine.len() - 1] == whole[mine.len() - 1]);
                                        assert(!valid_utf8(all[mine.len() - 1].1));
                                    }
                                    return Err(ContainerFormatError::BadText);
                                },
                            };
                            proof {
                                encode_utf8_valid_utf8(value@);
                                entries = entries.push(e);
                            }
                            assert(entries.drop_last() =~= start + text_entries(
                                child.children@.subrange(0, k as int),
                            ));
                            if key == name_key {
                                display_name = value;
                            } else {
                                let ghost before = properties@.map_values(|p: Property| entry_view(p));
                                let property = Property { name: key, value };
                                properties.push(property);
                                assert(properties@.map_values(|p: Property| entry_view(p)) =~= before.push(
                                    entry_view(property),
                                ));
                            }
                        },
                        None => {},
                    }
                }
                k = k + 1;
            }
            assert(child.children@.subrange(0, k as int) =~= child.children@);
            assert(item_entries(sub) == item_entries(el.children@.subrange(0, i as int))
                + text_entries(child.children@));
            assert(items_convertible(sub));
        } else {
            assert(item_entries(sub) == item_entries(el.children@.subrange(0, i as int)));
        }
        i = i + 1;
    }
    assert(el.children@.subrange(0, i as int) =~= el.children@);
    Ok(AssetNode { class_name, display_name, properties, children })
}

/// The tree of a document: a synthetic root holding the trees of the `Item`
/// elements directly inside the document element, in order.
pub fn tree_from_document(doc: &XmlElement) -> (r: Result<AssetNode, ContainerFormatError>)
    ensures
        r matches Ok(root) ==> is_root(root) && items_built(doc.children@, root.children@),
        r is Ok <==> items_convertible(doc.children@),
{
    let item = "Item".to_owned();
    let mut children: Vec<AssetNode> = Vec::new();
    let mut i: usize = 0;
    while i < doc.children.len()
        invariant
            i <= doc.children@.len(),
            item@ == "Item"@,
            items_built(doc.children@.subrange(0, i as int), children@),
            items_convertible(doc.children@.subrange(0, i as int)),
        decreases doc.children@.len() - i,
    {
        let ghost sub = doc.children@.subrange(0, i as int + 1);
        assert(sub.subrange(0, sub.len() - 1) =~= doc.children@.subrange(0, i as int));
        assert(sub[sub.len() - 1] == doc.children@[i as int]);
        let child = &doc.children[i];
        if child.name == item {
            let node = match item_node(child) {
                Ok(n) => n,
                Err(e) => {
                    proof {
                        if items_convertible(doc.children@) {
                            lemma_items_convertible_prefix(doc.children@, i as int + 1);
                        }
                    }
                    return Err(e);
                },
            };
            let ghost before = children@;
            children.push(node);
            assert(children@.subrange(0, children@.len() - 1) =~= before);
        }
        i = i + 1;
    }
    assert(doc.children@.subrange(0, i as int) =~= doc.children@);
    Ok(AssetNode { class_name: String::new(), display_name: String::new(), properties: Vec::new(), children })
}

/// Reads the document element of a text container.
pub fn read_document(b: &[u8]) -> (r: Result<XmlElement, ContainerFormatError>)
    ensures
        !xml_marker(b@) ==> r is Err,
        xml_marker(b@) ==> match (r, element_at(b@, 0, MAX_DEPTH as nat)) {
            (Ok(doc), Some((v, _))) => element_matches(doc, v),
            (Err(_), None) => true,
            _ => false,
        },
{
    if !has_xml_marker(b) {
        return Err(ContainerFormatError::BadMagic);
    }
    match read_element(b, 0, MAX_DEPTH) {
        Ok((doc, _end)) => Ok(doc),
        Err(e) => Err(e),
    }
}

/// Decodes a text container: the tree of the items inside its `roblox` element.
pub fn decode_xml(b: &[u8]) -> (r: Result<AssetNode, ContainerFormatError>)
    ensures
        !xml_marker(b@) ==> r == Err::<AssetNode, _>(ContainerFormatError::BadMagic),
        match element_at(b@, 0, MAX_DEPTH as nat) {
            Some((v, _)) => xml_marker(b@) ==> (r is Ok <==> xml_convertible(v)),
            None => r is Err,
        },
        r matches Ok(root) ==> {
            &&& is_root(root)
            &&& element_at(b@, 0, MAX_DEPTH as nat) matches Some((v, _))
            &&& exists|doc: XmlElement| element_matches(doc, v) && items_built(doc.children@, root.children@)
        },
{
    if !has_xml_marker(b) {
        return Err(ContainerFormatError::BadMagic);
    }
    match read_document(b) {
        Ok(doc) => {
            let r = tree_from_document(&doc);
            proof {
                let v = (element_at(b@, 0, MAX_DEPTH as nat)->0).0;
                if r is Ok {
                    assert forall|d: XmlElement| element_matches(d, v) implies items_convertible(d.children@) by {
                        lemma_same_view(doc, d, v);
                    }
                }
            }
            r
        },
        Err(e) => Err(e),
    }
}

} // verus!
