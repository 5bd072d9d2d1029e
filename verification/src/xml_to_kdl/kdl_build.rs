//! Building `kdl` nodes from the plain description of the document.
use vstd::prelude::*;

use super::kdl_out::{lemma_out_nodes_view, out_node_view, out_nodes_view, NodeFormat, ONode, OutNode};
use crate::kdl_api::{
    document_new, document_push, kdl_document_format, kdl_document_nodes, kdl_entry_key,
    kdl_entry_string, kdl_node_children, kdl_node_entries, kdl_node_format, kdl_node_ident, node_ensure_children,
    node_new, node_push_arg, node_push_child, node_push_prop, node_set_children_format,
    node_set_format,
};

verus! {

broadcast use vstd::string::group_string_axioms;

/// Whether the entries of a `kdl` node are the described ones.
pub open spec fn entries_match(es: Seq<kdl::KdlEntry>, ms: Seq<(Option<Seq<char>>, Seq<char>)>) -> bool {
    &&& es.len() == ms.len()
    &&& forall|i: int|
        0 <= i < es.len() ==> kdl_entry_key(#[trigger] es[i]) == ms[i].0 && kdl_entry_string(es[i])
            == Some(ms[i].1)
}

/// Whether a `kdl` node is the described node: name, entries, format, and
/// children block with its format and, one by one, its nodes.
pub open spec fn built_matches(n: kdl::KdlNode, m: ONode) -> bool
    decreases m,
{
    &&& kdl_node_ident(n) == m.name
    &&& entries_match(kdl_node_entries(n), m.entries)
    &&& kdl_node_format(n) == Some(m.format)
    &&& match m.children {
        None => kdl_node_children(n) is None,
        Some(cs) => kdl_node_children(n) matches Some(d) && kdl_document_format(d)
            == m.children_format && kdl_document_nodes(d).len() == cs.len() && forall|i: int|
            0 <= i < cs.len() ==> built_matches(#[trigger] kdl_document_nodes(d)[i], cs[i]),
    }
}

/// Whether the nodes of a `kdl` document are the described ones.
pub open spec fn nodes_match(ns: Seq<kdl::KdlNode>, ms: Seq<ONode>) -> bool {
    &&& ns.len() == ms.len()
    &&& forall|i: int| 0 <= i < ns.len() ==> built_matches(#[trigger] ns[i], ms[i])
}

fn copy_format(f: &NodeFormat) -> (r: NodeFormat)
    ensures
        r@ == f@,
{
    NodeFormat {
        leading: f.leading.clone(),
        before_ty_name: f.before_ty_name.clone(),
        after_ty_name: f.after_ty_name.clone(),
        after_ty: f.after_ty.clone(),
        before_children: f.before_children.clone(),
        before_terminator: f.before_terminator.clone(),
        terminator: f.terminator.clone(),
        trailing: f.trailing.clone(),
    }
}

/// The `kdl` node described by `m`.
pub fn build_node(m: &OutNode) -> (n: kdl::KdlNode)
    ensures
        built_matches(n, m@),
    decreases m,
{
    let mut n = node_new(m.name.clone());
    let mut i: usize = 0;
    while i < m.entries.len()
        invariant
            i <= m.entries.len(),
            kdl_node_ident(n) == m.name@,
            kdl_node_children(n) is None,
            kdl_node_entries(n).len() == i,
            forall|j: int| 0 <= j < i ==> kdl_entry_key(#[trigger] kdl_node_entries(n)[j])
                == super::kdl_out::entry_view(m.entries@[j]).0 && kdl_entry_string(kdl_node_entries(n)[j])
                == Some(super::kdl_out::entry_view(m.entries@[j]).1),
        decreases m.entries.len() - i,
    {
        let ghost before = kdl_node_entries(n);
        let e = &m.entries[i];
        assert(*e == m.entries@[i as int]);
        match &e.key {
            Some(k) => {
                node_push_prop(&mut n, k.clone(), e.value.clone());
                assert(super::kdl_out::entry_view(*e).0 == Some(k@));
            },
            None => {
                node_push_arg(&mut n, e.value.clone());
                assert(super::kdl_out::entry_view(*e).0 is None);
            },
        }
        assert(kdl_node_entries(n).last() == kdl_node_entries(n)[i as int]);
        assert forall|j: int| 0 <= j < i + 1 implies kdl_entry_key(#[trigger] kdl_node_entries(n)[j])
            == super::kdl_out::entry_view(m.entries@[j]).0 && kdl_entry_string(kdl_node_entries(n)[j])
            == Some(super::kdl_out::entry_view(m.entries@[j]).1) by {
            if j < i {
                assert(kdl_node_entries(n).drop_last()[j] == kdl_node_entries(n)[j]);
                assert(kdl_node_entries(n)[j] == before[j]);
            }
        }
        i = i + 1;
    }
    node_set_format(&mut n, copy_format(&m.format));
    match &m.children {
        None => {},
        Some(cs) => {
            proof { lemma_out_nodes_view(cs@); }
            node_ensure_children(&mut n);
            build_children(&mut n, cs);
            match &m.children_format {
                Some(df) => node_set_children_format(&mut n, df.leading.clone(), df.trailing.clone()),
                None => {},
            }
        },
    }
    assert(entries_match(kdl_node_entries(n), super::kdl_out::entries_view(m.entries@)));
    n
}

/// A `kdl` document whose nodes are the described ones, with no format.
pub fn build_document(ms: &Vec<OutNode>) -> (d: kdl::KdlDocument)
    ensures
        nodes_match(kdl_document_nodes(d), out_nodes_view(ms@)),
        kdl_document_format(d) is None,
{
    proof { lemma_out_nodes_view(ms@); }
    let mut d = document_new();
    let mut i: usize = 0;
    while i < ms.len()
        invariant
            i <= ms.len(),
            kdl_document_format(d) is None,
            kdl_document_nodes(d).len() == i,
            out_nodes_view(ms@).len() == ms@.len(),
            forall|j: int| 0 <= j < ms@.len() ==> #[trigger] out_nodes_view(ms@)[j] == out_node_view(ms@[j]),
            forall|j: int| 0 <= j < i ==> built_matches(#[trigger] kdl_document_nodes(d)[j], out_node_view(ms@[j])),
        decreases ms.len() - i,
    {
        let n = build_node(&ms[i]);
        let ghost before = kdl_document_nodes(d);
        document_push(&mut d, n);
        assert forall|j: int| 0 <= j < i + 1 implies built_matches(
            #[trigger] kdl_document_nodes(d)[j],
            out_node_view(ms@[j]),
        ) by {
            if j < i {
                assert(kdl_document_nodes(d)[j] == before[j]);
            }
        }
        i = i + 1;
    }
    d
}

/// Appends the nodes described by `cs` to the (empty) children block of `n`.
fn build_children(n: &mut kdl::KdlNode, cs: &Vec<OutNode>)
    requires
        kdl_node_children(*old(n)) matches Some(d) && kdl_document_nodes(d).len() == 0
            && kdl_document_format(d) is None,
    ensures
        kdl_node_ident(*final(n)) == kdl_node_ident(*old(n)),
        kdl_node_entries(*final(n)) == kdl_node_entries(*old(n)),
        kdl_node_format(*final(n)) == kdl_node_format(*old(n)),
        kdl_node_children(*final(n)) matches Some(d) && kdl_document_format(d) is None
            && nodes_match(kdl_document_nodes(d), out_nodes_view(cs@)),
    decreases cs,
{
    proof { lemma_out_nodes_view(cs@); }
    let mut k: usize = 0;
    while k < cs.len()
        invariant
            k <= cs.len(),
            kdl_node_ident(*n) == kdl_node_ident(*old(n)),
            kdl_node_entries(*n) == kdl_node_entries(*old(n)),
            kdl_node_format(*n) == kdl_node_format(*old(n)),
            out_nodes_view(cs@).len() == cs@.len(),
            forall|j: int| 0 <= j < cs@.len() ==> #[trigger] out_nodes_view(cs@)[j] == out_node_view(cs@[j]),
            kdl_node_children(*n) matches Some(d) && kdl_document_format(d) is None
                && kdl_document_nodes(d).len() == k && forall|j: int|
                0 <= j < k ==> built_matches(#[trigger] kdl_document_nodes(d)[j], out_node_view(cs@[j])),
        decreases cs.len() - k,
    {
        let child = build_node(&cs[k]);
        let ghost before = kdl_document_nodes(kdl_node_children(*n)->0);
        node_push_child(n, child);
        proof {
            let d = kdl_node_children(*n)->0;
            assert forall|j: int| 0 <= j < k + 1 implies built_matches(
                #[trigger] kdl_document_nodes(d)[j],
                out_node_view(cs@[j]),
            ) by {
                if j < k {
                    assert(kdl_document_nodes(d)[j] == before[j]);
                }
            }
        }
        k = k + 1;
    }
}

} // verus!
