//! Decoding asset bytes in either container encoding into one instance tree.
use vstd::prelude::*;
use crate::assemble::{
    decode_binary, instances_match, lemma_links_same, lemma_same_instances, link_view,
    tables_buildable, tables_of,
};
use crate::binary::{
    ContainerFormatError, HEADER_LEN, ParentLink, binary_chunks, binary_magic, binary_marker,
    version_unsupported,
};
use crate::extract::{lemma_same_tree_scripts, tree_scripts};
use crate::tree::{
    AssetNode, Instance, MAX_DEPTH, children_of, is_root, lemma_forest_built_same, same_node,
    tree_built,
};
use crate::xml::{
    XmlElement, element_at, element_matches, has_xml_marker, lemma_element_needs_close, xml_marker,
};
use crate::xml_tree::{decode_xml, items_built, lemma_items_built_same, xml_convertible};

verus! {

/// The two container encodings.
#[derive(PartialEq, Eq, Structural, Clone, Copy, Debug)]
pub enum Encoding {
    Binary,
    Xml,
}

/// The encoding that the first bytes announce, if any.
pub open spec fn encoding_of(b: Seq<u8>) -> Option<Encoding> {
    if binary_marker(b) {
        Some(Encoding::Binary)
    } else if xml_marker(b) {
        Some(Encoding::Xml)
    } else {
        None
    }
}

/// `b` is a binary header cut short: fewer bytes than a header, each equal to
/// the signature byte at its place.
pub open spec fn truncated_header(b: Seq<u8>) -> bool {
    &&& b.len() < HEADER_LEN
    &&& forall|i: int| 0 <= i < b.len() && i < 14 ==> b[i] == binary_magic()[i]
}

/// `b` is a text container cut inside its opening tag: it starts like one,
/// but the `>` that ends the tag never comes.
pub open spec fn unclosed_open_tag(b: Seq<u8>) -> bool {
    &&& xml_marker(b)
    &&& forall|i: int| 0 <= i < b.len() ==> b[i] != 62
}

/// Whether `b` is a binary header cut short.
pub fn is_truncated_header(b: &[u8]) -> (r: bool)
    ensures
        r == truncated_header(b@),
{
    if b.len() >= HEADER_LEN {
        return false;
    }
    let sig: [u8; 14] = [60, 114, 111, 98, 108, 111, 120, 33, 0x89, 0xFF, 0x0D, 0x0A, 0x1A, 0x0A];
    assert(sig@ == binary_magic());
    let mut i: usize = 0;
    while i < b.len() && i < 14
        invariant
            i <= b@.len(),
            i <= 14,
            b@.len() < HEADER_LEN,
            sig@ == binary_magic(),
            forall|k: int| 0 <= k < i ==> b@[k] == binary_magic()[k],
        decreases 14 - i,
    {
        if b[i] != sig[i] {
            return false;
        }
        i = i + 1;
    }
    true
}

/// Tells the encoding from the first bytes.
pub fn sniff_encoding(b: &[u8]) -> (r: Option<Encoding>)
    ensures
        r == encoding_of(b@),
{
    if b.len() >= 8 && b[0] == 60 && b[1] == 114 && b[2] == 111 && b[3] == 98 && b[4] == 108
        && b[5] == 111 && b[6] == 120 && b[7] == 33 {
        assert(b@.subrange(0, 8) =~= binary_magic().subrange(0, 8));
        Some(Encoding::Binary)
    } else {
        proof {
            if binary_marker(b@) {
                assert forall|i: int| 0 <= i < 8 implies b@[i] == binary_magic()[i] by {
                    assert(b@.subrange(0, 8)[i] == b@[i]);
                    assert(binary_magic().subrange(0, 8)[i] == binary_magic()[i]);
                }
            }
        }
        if has_xml_marker(b) {
            Some(Encoding::Xml)
        } else {
            None
        }
    }
}

/// What a tree decoded from binary bytes is: the tree of the instances and
/// links that the chunks declare.
pub open spec fn binary_tree_of(b: Seq<u8>, root: AssetNode) -> bool {
    &&& binary_chunks(b) matches Some(cs)
    &&& tables_of(cs) matches Some(t)
    &&& exists|insts: Seq<Instance>, links: Seq<ParentLink>|
        instances_match(insts, t.classes, t.props) && links.map_values(|l: ParentLink| link_view(l))
            == t.links && tree_built(insts, links, root)
}

/// What a tree decoded from text bytes is: the tree of the items of the
/// document element.
pub open spec fn xml_tree_of(b: Seq<u8>, root: AssetNode) -> bool {
    &&& element_at(b, 0, MAX_DEPTH as nat) matches Some((v, _))
    &&& exists|doc: XmlElement| element_matches(doc, v) && items_built(doc.children@, root.children@)
}

/// `root` is a tree that the bytes declare, in the encoding they announce.
pub open spec fn tree_of(b: Seq<u8>, root: AssetNode) -> bool {
    &&& is_root(root)
    &&& match encoding_of(b) {
        Some(Encoding::Binary) => binary_tree_of(b, root),
        Some(Encoding::Xml) => xml_tree_of(b, root),
        None => false,
    }
}

/// The tree that the bytes declare.
pub open spec fn decoded_tree(b: Seq<u8>) -> AssetNode {
    choose|t: AssetNode| tree_of(b, t)
}

/// The bytes fix their tree: two trees that they declare hold the same texts
/// and the same subtrees.
pub proof fn lemma_tree_of_unique(b: Seq<u8>, r1: AssetNode, r2: AssetNode)
    requires
        tree_of(b, r1),
        tree_of(b, r2),
    ensures
        same_node(r1, r2),
{
    if encoding_of(b) == Some(Encoding::Binary) {
        let cs = binary_chunks(b)->0;
        let t = tables_of(cs)->0;
        let (i1, l1) = choose|insts: Seq<Instance>, links: Seq<ParentLink>|
            instances_match(insts, t.classes, t.props) && links.map_values(|l: ParentLink| link_view(l))
                == t.links && tree_built(insts, links, r1);
        let (i2, l2) = choose|insts: Seq<Instance>, links: Seq<ParentLink>|
            instances_match(insts, t.classes, t.props) && links.map_values(|l: ParentLink| link_view(l))
                == t.links && tree_built(insts, links, r2);
        lemma_same_instances(i1, i2, t.classes, t.props);
        lemma_links_same(l1, l2);
        lemma_forest_built_same(i1, i2, l1, children_of(l1, -1), r1.children@, r2.children@, MAX_DEPTH as nat);
    } else {
        let v = (element_at(b, 0, MAX_DEPTH as nat)->0).0;
        let d1 = choose|doc: XmlElement| element_matches(doc, v) && items_built(doc.children@, r1.children@);
        let d2 = choose|doc: XmlElement| element_matches(doc, v) && items_built(doc.children@, r2.children@);
        lemma_items_built_same(d1.children@, d2.children@, v.children, r1.children@, r2.children@);
    }
}

/// Decodes asset bytes into their instance tree, whichever encoding they use.
/// Bytes that announce no known encoding, bytes cut inside a binary header,
/// and bytes that do not follow their encoding are refused; a tree that comes
/// back has the synthetic root and is what the bytes declare.
pub fn parse_container(b: &[u8]) -> (r: Result<AssetNode, ContainerFormatError>)
    ensures
        encoding_of(b@) is None && !truncated_header(b@) ==> r == Err::<AssetNode, _>(
            ContainerFormatError::BadMagic,
        ),
        truncated_header(b@) ==> r == Err::<AssetNode, _>(ContainerFormatError::Truncated),
        unclosed_open_tag(b@) ==> r is Err,
        version_unsupported(b@) ==> r == Err::<AssetNode, _>(ContainerFormatError::UnsupportedVersion),
        encoding_of(b@) == Some(Encoding::Binary) ==> match binary_chunks(b@) {
            Some(cs) => match tables_of(cs) {
                Some(t) => r is Ok <==> tables_buildable(t),
                None => r is Err,
            },
            None => r is Err,
        },
        encoding_of(b@) == Some(Encoding::Xml) ==> match element_at(b@, 0, MAX_DEPTH as nat) {
            Some((v, _)) => r is Ok <==> xml_convertible(v),
            None => r is Err,
        },
        r matches Ok(root) ==> same_node(root, decoded_tree(b@)),
        r matches Ok(root) ==> is_root(root) && match encoding_of(b@) {
            Some(Encoding::Binary) => binary_tree_of(b@, root),
            Some(Encoding::Xml) => xml_tree_of(b@, root),
            None => false,
        },
{
    proof {
        if truncated_header(b@) && b@.len() >= 8 {
            assert(b@.subrange(0, 8) =~= binary_magic().subrange(0, 8));
        }
        if truncated_header(b@) && xml_marker(b@) {
            assert(b@.subrange(0, 7)[7 - 1] == b@[6]);
            assert(b@[7] == binary_magic()[7]);
        }
    }
    if is_truncated_header(b) {
        return Err(ContainerFormatError::Truncated);
    }
    proof {
        if unclosed_open_tag(b@) {
            lemma_element_needs_close(b@, 0, MAX_DEPTH as nat);
            if binary_marker(b@) {
                assert(b@.subrange(0, 8)[7] == binary_magic().subrange(0, 8)[7]);
            }
        }
    }
    proof {
        if version_unsupported(b@) {
            assert(b@.subrange(0, 8) =~= binary_magic().subrange(0, 8)) by {
                assert forall|i: int| 0 <= i < 8 implies b@[i] == binary_magic()[i] by {
                    assert(b@.subrange(0, 14)[i] == b@[i]);
                }
            }
        }
    }
    let r = match sniff_encoding(b) {
        Some(Encoding::Binary) => decode_binary(b),
        Some(Encoding::Xml) => decode_xml(b),
        None => Err(ContainerFormatError::BadMagic),
    };
    proof {
        if r is Ok {
            let root = r->Ok_0;
            assert(tree_of(b@, root));
            lemma_tree_of_unique(b@, root, decoded_tree(b@));
        }
    }
    r
}

/// Scanning the same bytes twice reports the same. Each time the bytes
/// decode, the tree that comes back is the same as the tree they declare, and
/// the same trees hold the same scripts; what follows (parsing each script
/// and `scan_scripts`) is fixed by those scripts. Whether the bytes decode at
/// all is fixed by them too (see `parse_container`).
pub proof fn lemma_scan_repeatable(b: Seq<u8>, r1: AssetNode, r2: AssetNode)
    requires
        same_node(r1, decoded_tree(b)),
        same_node(r2, decoded_tree(b)),
    ensures
        tree_scripts(r1) == tree_scripts(r2),
{
    lemma_same_tree_scripts(r1, decoded_tree(b));
    lemma_same_tree_scripts(r2, decoded_tree(b));
}

} // verus!
