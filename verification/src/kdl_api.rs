//! The calls into the `kdl` crate. A document holds nodes; a node holds a
//! name, entries, an optional children document and a format; an entry holds
//! an optional name and a value. The names below stand for those contents.
use vstd::prelude::*;

use crate::xml_to_kdl::kdl_out::{fresh_format, Fmt, NodeFormat};

verus! {

#[verifier::external_type_specification]
#[verifier::external_body]
pub struct ExKdlDocument(kdl::KdlDocument);

#[verifier::external_type_specification]
#[verifier::external_body]
pub struct ExKdlNode(kdl::KdlNode);

#[verifier::external_type_specification]
#[verifier::external_body]
pub struct ExKdlEntry(kdl::KdlEntry);

/// The nodes of a document, in order.
pub uninterp spec fn kdl_document_nodes(d: kdl::KdlDocument) -> Seq<kdl::KdlNode>;

/// The format (leading and trailing text) of a document, if it has one.
pub uninterp spec fn kdl_document_format(d: kdl::KdlDocument) -> Option<(Seq<char>, Seq<char>)>;

/// The name of a node as it is written (`name().to_string()`).
pub uninterp spec fn kdl_node_name(n: kdl::KdlNode) -> Seq<char>;

/// The value of a node's name (`name().value()`).
pub uninterp spec fn kdl_node_ident(n: kdl::KdlNode) -> Seq<char>;

/// The entries of a node, in order.
pub uninterp spec fn kdl_node_entries(n: kdl::KdlNode) -> Seq<kdl::KdlEntry>;

/// The children document of a node, if it has one.
pub uninterp spec fn kdl_node_children(n: kdl::KdlNode) -> Option<kdl::KdlDocument>;

/// The format of a node, if it has one.
pub uninterp spec fn kdl_node_format(n: kdl::KdlNode) -> Option<Fmt>;

/// The height of the tree under a node: each child is lower than its parent.
pub uninterp spec fn kdl_node_height(n: kdl::KdlNode) -> nat;

/// The name of an entry as it is written, for a property.
pub uninterp spec fn kdl_entry_name(e: kdl::KdlEntry) -> Option<Seq<char>>;

/// The value of an entry's name, for a property.
pub uninterp spec fn kdl_entry_key(e: kdl::KdlEntry) -> Option<Seq<char>>;

/// The value of an entry when it is a string.
pub uninterp spec fn kdl_entry_string(e: kdl::KdlEntry) -> Option<Seq<char>>;

/// The `Debug` text of an entry's value.
pub uninterp spec fn kdl_entry_debug(e: kdl::KdlEntry) -> Seq<char>;

/// The nodes of the document that `KdlDocument::parse` makes of a text, or
/// `None` when it refuses the text.
pub uninterp spec fn kdl_parse(text: Seq<char>) -> Option<Seq<kdl::KdlNode>>;

// ---------------------------------------------------------------------------
// Reading
// ---------------------------------------------------------------------------

/// `str::parse::<KdlDocument>` (that is, `KdlDocument::parse`): the nodes
/// that come out are those of [`kdl_parse`], which also decides whether the
/// text is accepted.
#[verifier::external_body]
pub fn parse_kdl_document(text: &str) -> (res: Result<kdl::KdlDocument, kdl::KdlError>)
    ensures
        match kdl_parse(text@) {
            Some(ns) => res matches Ok(d) && kdl_document_nodes(d) == ns,
            None => res is Err,
        },
{
    text.parse()
}

/// `KdlDocument::nodes`.
#[verifier::external_body]
pub fn document_nodes(d: &kdl::KdlDocument) -> (res: &[kdl::KdlNode])
    ensures
        res@ == kdl_document_nodes(*d),
{
    d.nodes()
}

/// `KdlNode::name` written out with `to_string`.
#[verifier::external_body]
pub fn node_name_text(n: &kdl::KdlNode) -> (res: String)
    ensures
        res@ == kdl_node_name(*n),
{
    n.name().to_string()
}

/// `KdlNode::entries`.
#[verifier::external_body]
pub fn node_entries(n: &kdl::KdlNode) -> (res: &[kdl::KdlEntry])
    ensures
        res@ == kdl_node_entries(*n),
{
    n.entries()
}

/// `KdlNode::children`; a child is lower in the tree than its parent.
#[verifier::external_body]
pub fn node_children(n: &kdl::KdlNode) -> (res: Option<&kdl::KdlDocument>)
    ensures
        match res {
            Some(d) => kdl_node_children(*n) == Some(*d) && forall|i: int|
                0 <= i < kdl_document_nodes(*d).len() ==> #[trigger] kdl_node_height(
                    kdl_document_nodes(*d)[i],
                ) < kdl_node_height(*n),
            None => kdl_node_children(*n) is None,
        },
{
    n.children()
}

/// `KdlEntry::name` written out with `to_string`.
#[verifier::external_body]
pub fn entry_name_text(e: &kdl::KdlEntry) -> (res: Option<String>)
    ensures
        match res {
            Some(s) => kdl_entry_name(*e) == Some(s@),
            None => kdl_entry_name(*e) is None,
        },
{
    e.name().map(|i| i.to_string())
}

/// `KdlEntry::name` and `KdlIdentifier::value`.
#[verifier::external_body]
pub fn entry_key(e: &kdl::KdlEntry) -> (res: Option<String>)
    ensures
        match res {
            Some(s) => kdl_entry_key(*e) == Some(s@),
            None => kdl_entry_key(*e) is None,
        },
{
    e.name().map(|i| i.value().to_string())
}

/// `KdlValue::as_string` on the entry's value.
#[verifier::external_body]
pub fn entry_string(e: &kdl::KdlEntry) -> (res: Option<String>)
    ensures
        match res {
            Some(s) => kdl_entry_string(*e) == Some(s@),
            None => kdl_entry_string(*e) is None,
        },
{
    e.value().as_string().map(|s| s.to_string())
}

/// The entry's value written with `Debug`.
#[verifier::external_body]
pub fn entry_debug(e: &kdl::KdlEntry) -> (res: String)
    ensures
        res@ == kdl_entry_debug(*e),
{
    format!("{:?}", e.value())
}

// ---------------------------------------------------------------------------
// Building
// ---------------------------------------------------------------------------

/// `KdlDocument::new`: no nodes and no format.
#[verifier::external_body]
pub fn document_new() -> (d: kdl::KdlDocument)
    ensures
        kdl_document_nodes(d) == Seq::<kdl::KdlNode>::empty(),
        kdl_document_format(d) is None,
{
    kdl::KdlDocument::new()
}

/// `KdlDocument::nodes_mut` and `Vec::push`: the node goes last.
#[verifier::external_body]
pub fn document_push(d: &mut kdl::KdlDocument, n: kdl::KdlNode)
    ensures
        kdl_document_nodes(*final(d)) == kdl_document_nodes(*old(d)).push(n),
        kdl_document_format(*final(d)) == kdl_document_format(*old(d)),
{
    d.nodes_mut().push(n);
}

/// `KdlNode::new` with an identifier made from the name: no entries, no
/// children, and a format that is empty but for a trailing newline.
#[verifier::external_body]
pub fn node_new(name: String) -> (n: kdl::KdlNode)
    ensures
        kdl_node_ident(n) == name@,
        kdl_node_entries(n) == Seq::<kdl::KdlEntry>::empty(),
        kdl_node_children(n) is None,
        kdl_node_format(n) == Some(fresh_format()),
{
    kdl::KdlNode::new(kdl::KdlIdentifier::from(name))
}

/// `KdlNode::push` of `KdlEntry::new_prop(key, KdlValue::String(value))`.
#[verifier::external_body]
pub fn node_push_prop(n: &mut kdl::KdlNode, key: String, value: String)
    ensures
        kdl_node_entries(*final(n)).len() == kdl_node_entries(*old(n)).len() + 1,
        kdl_node_entries(*final(n)).drop_last() == kdl_node_entries(*old(n)),
        kdl_entry_key(kdl_node_entries(*final(n)).last()) == Some(key@),
        kdl_entry_string(kdl_node_entries(*final(n)).last()) == Some(value@),
        kdl_node_ident(*final(n)) == kdl_node_ident(*old(n)),
        kdl_node_children(*final(n)) == kdl_node_children(*old(n)),
        kdl_node_format(*final(n)) == kdl_node_format(*old(n)),
{
    n.push(kdl::KdlEntry::new_prop(kdl::KdlIdentifier::from(key), kdl::KdlValue::String(value)));
}

/// `KdlNode::push` of `KdlEntry::new(KdlValue::String(value))`.
#[verifier::external_body]
pub fn node_push_arg(n: &mut kdl::KdlNode, value: String)
    ensures
        kdl_node_entries(*final(n)).len() == kdl_node_entries(*old(n)).len() + 1,
        kdl_node_entries(*final(n)).drop_last() == kdl_node_entries(*old(n)),
        kdl_entry_key(kdl_node_entries(*final(n)).last()) is None,
        kdl_entry_string(kdl_node_entries(*final(n)).last()) == Some(value@),
        kdl_node_ident(*final(n)) == kdl_node_ident(*old(n)),
        kdl_node_children(*final(n)) == kdl_node_children(*old(n)),
        kdl_node_format(*final(n)) == kdl_node_format(*old(n)),
{
    n.push(kdl::KdlEntry::new(kdl::KdlValue::String(value)));
}

/// `KdlNode::ensure_children`: a node without children gets an empty
/// children document; one with children keeps it.
#[verifier::external_body]
pub fn node_ensure_children(n: &mut kdl::KdlNode)
    ensures
        match kdl_node_children(*old(n)) {
            Some(d) => kdl_node_children(*final(n)) == Some(d),
            None => kdl_node_children(*final(n)) matches Some(d) && kdl_document_nodes(d)
                == Seq::<kdl::KdlNode>::empty() && kdl_document_format(d) is None,
        },
        kdl_node_ident(*final(n)) == kdl_node_ident(*old(n)),
        kdl_node_entries(*final(n)) == kdl_node_entries(*old(n)),
        kdl_node_format(*final(n)) == kdl_node_format(*old(n)),
{
    n.ensure_children();
}

/// `KdlNode::ensure_children`, `KdlDocument::nodes_mut` and `Vec::push`:
/// the child goes last in the node's children document.
#[verifier::external_body]
pub fn node_push_child(n: &mut kdl::KdlNode, child: kdl::KdlNode)
    requires
        kdl_node_children(*old(n)) is Some,
    ensures
        kdl_node_children(*final(n)) matches Some(d) && kdl_document_nodes(d) == kdl_document_nodes(
            kdl_node_children(*old(n))->0,
        ).push(child) && kdl_document_format(d) == kdl_document_format(
            kdl_node_children(*old(n))->0,
        ),
        kdl_node_ident(*final(n)) == kdl_node_ident(*old(n)),
        kdl_node_entries(*final(n)) == kdl_node_entries(*old(n)),
        kdl_node_format(*final(n)) == kdl_node_format(*old(n)),
{
    n.ensure_children().nodes_mut().push(child);
}

/// `KdlNode::set_format` with a `KdlNodeFormat` made of the same strings.
#[verifier::external_body]
pub fn node_set_format(n: &mut kdl::KdlNode, f: NodeFormat)
    ensures
        kdl_node_format(*final(n)) == Some(f@),
        kdl_node_ident(*final(n)) == kdl_node_ident(*old(n)),
        kdl_node_entries(*final(n)) == kdl_node_entries(*old(n)),
        kdl_node_children(*final(n)) == kdl_node_children(*old(n)),
{
    n.set_format(kdl::KdlNodeFormat {
        leading: f.leading,
        before_ty_name: f.before_ty_name,
        after_ty_name: f.after_ty_name,
        after_ty: f.after_ty,
        before_children: f.before_children,
        before_terminator: f.before_terminator,
        terminator: f.terminator,
        trailing: f.trailing,
    });
}

/// `KdlDocument::set_format` on the node's children document, with a
/// `KdlDocumentFormat` made of the two strings.
#[verifier::external_body]
pub fn node_set_children_format(n: &mut kdl::KdlNode, leading: String, trailing: String)
    requires
        kdl_node_children(*old(n)) is Some,
    ensures
        kdl_node_children(*final(n)) is Some,
        kdl_document_nodes(kdl_node_children(*final(n))->0) == kdl_document_nodes(
            kdl_node_children(*old(n))->0,
        ),
        kdl_document_format(kdl_node_children(*final(n))->0) == Some((leading@, trailing@)),
        kdl_node_ident(*final(n)) == kdl_node_ident(*old(n)),
        kdl_node_entries(*final(n)) == kdl_node_entries(*old(n)),
        kdl_node_format(*final(n)) == kdl_node_format(*old(n)),
{
    if let Some(d) = n.children_mut() {
        d.set_format(kdl::KdlDocumentFormat { leading, trailing });
    }
}

} // verus!
