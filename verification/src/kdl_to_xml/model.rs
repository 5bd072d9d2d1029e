//! A KDL document as plain values, read off `kdl` nodes.
use vstd::prelude::*;

use crate::kdl_api::{
    document_nodes, entry_debug, entry_key, entry_name_text, entry_string, kdl_document_nodes,
    kdl_entry_debug, kdl_entry_key, kdl_entry_name, kdl_entry_string, kdl_node_children,
    kdl_node_entries, kdl_node_height, kdl_node_name, node_children, node_entries, node_name_text,
};

verus! {

broadcast use vstd::string::group_string_axioms;

/// The value of an entry: a string, or something else (shown by its `Debug` text).
pub enum KValue {
    Str(String),
    Other(String),
}

/// An entry: for a property its name as written and the name's value; its value.
pub struct KEntry {
    pub name: Option<String>,
    pub key: Option<String>,
    pub value: KValue,
}

/// A node: its name as written, its entries, and its children block if any.
pub struct KNode {
    pub name: String,
    pub entries: Vec<KEntry>,
    pub children: Option<Vec<KNode>>,
}

pub enum KV {
    Str(Seq<char>),
    Other(Seq<char>),
}

pub struct KE {
    pub name: Option<Seq<char>>,
    pub key: Option<Seq<char>>,
    pub value: KV,
}

pub struct KN {
    pub name: Seq<char>,
    pub entries: Seq<KE>,
    pub children: Option<Seq<KN>>,
}

pub open spec fn opt_str(o: Option<String>) -> Option<Seq<char>> {
    match o {
        Some(s) => Some(s@),
        None => None,
    }
}

pub open spec fn entry_view(e: KEntry) -> KE {
    KE {
        name: opt_str(e.name),
        key: opt_str(e.key),
        value: match e.value {
            KValue::Str(s) => KV::Str(s@),
            KValue::Other(s) => KV::Other(s@),
        },
    }
}

pub open spec fn knodes_view(s: Seq<KNode>) -> Seq<KN>
    decreases s,
{
    if s.len() == 0 {
        Seq::empty()
    } else {
        seq![knode_view(s[0])] + knodes_view(s.subrange(1, s.len() as int))
    }
}

pub open spec fn knode_view(n: KNode) -> KN
    decreases n,
{
    KN {
        name: n.name@,
        entries: n.entries@.map_values(|e: KEntry| entry_view(e)),
        children: match n.children {
            Some(v) => Some(knodes_view(v@)),
            None => None,
        },
    }
}

impl View for KNode {
    type V = KN;

    open spec fn view(&self) -> KN {
        knode_view(*self)
    }
}

pub proof fn lemma_knodes_view(s: Seq<KNode>)
    ensures
        knodes_view(s).len() == s.len(),
        forall|i: int| 0 <= i < s.len() ==> #[trigger] knodes_view(s)[i] == knode_view(s[i]),
    decreases s.len(),
{
    if s.len() > 0 {
        lemma_knodes_view(s.subrange(1, s.len() as int));
        assert forall|i: int| 0 <= i < s.len() implies #[trigger] knodes_view(s)[i] == knode_view(s[i]) by {
            if i > 0 {
                assert(s.subrange(1, s.len() as int)[i - 1] == s[i]);
            }
        }
    }
}

/// The plain value of a `kdl` entry.
pub open spec fn read_entry(e: kdl::KdlEntry) -> KE {
    KE {
        name: kdl_entry_name(e),
        key: kdl_entry_key(e),
        value: match kdl_entry_string(e) {
            Some(s) => KV::Str(s),
            None => KV::Other(kdl_entry_debug(e)),
        },
    }
}

/// Whether `k` is the plain value of the `kdl` node `n`, down to every descendant.
pub open spec fn read_matches(n: kdl::KdlNode, k: KN) -> bool
    decreases k,
{
    &&& k.name == kdl_node_name(n)
    &&& k.entries == kdl_node_entries(n).map_values(|e: kdl::KdlEntry| read_entry(e))
    &&& match k.children {
        None => kdl_node_children(n) is None,
        Some(cs) => kdl_node_children(n) matches Some(d) && kdl_document_nodes(d).len() == cs.len()
            && forall|i: int| 0 <= i < cs.len() ==> read_matches(#[trigger] kdl_document_nodes(d)[i], cs[i]),
    }
}

/// Whether `ks` are the plain values of the `kdl` nodes `ns`.
pub open spec fn reads_match(ns: Seq<kdl::KdlNode>, ks: Seq<KN>) -> bool {
    &&& ns.len() == ks.len()
    &&& forall|i: int| 0 <= i < ns.len() ==> read_matches(#[trigger] ns[i], ks[i])
}

fn read_entry_value(e: &kdl::KdlEntry) -> (r: KEntry)
    ensures
        entry_view(r) == read_entry(*e),
{
    let name = entry_name_text(e);
    let key = entry_key(e);
    let value = match entry_string(e) {
        Some(s) => KValue::Str(s),
        None => KValue::Other(entry_debug(e)),
    };
    KEntry { name, key, value }
}

/// The plain value of a `kdl` node.
pub fn read_node(n: &kdl::KdlNode) -> (k: KNode)
    ensures
        read_matches(*n, k@),
    decreases kdl_node_height(*n),
{
    let name = node_name_text(n);
    let es = node_entries(n);
    let mut entries: Vec<KEntry> = Vec::new();
    let mut i: usize = 0;
    while i < es.len()
        invariant
            i <= es.len(),
            es@ == kdl_node_entries(*n),
            entries@.len() == i,
            forall|j: int| 0 <= j < i ==> #[trigger] entry_view(entries@[j]) == read_entry(es@[j]),
        decreases es.len() - i,
    {
        entries.push(read_entry_value(&es[i]));
        i = i + 1;
    }
    assert(entries@.map_values(|e: KEntry| entry_view(e)) =~= kdl_node_entries(*n).map_values(
        |e: kdl::KdlEntry| read_entry(e),
    ));
    let children = match node_children(n) {
        None => None,
        Some(d) => {
            let ns = document_nodes(d);
            let mut kids: Vec<KNode> = Vec::new();
            let mut k: usize = 0;
            while k < ns.len()
                invariant
                    k <= ns.len(),
                    ns@ == kdl_document_nodes(*d),
                    forall|j: int| 0 <= j < ns@.len() ==> #[trigger] kdl_node_height(ns@[j]) < kdl_node_height(*n),
                    kids@.len() == k,
                    forall|j: int| 0 <= j < k ==> read_matches(ns@[j], #[trigger] knode_view(kids@[j])),
                decreases ns.len() - k,
            {
                assert(kdl_node_height(ns@[k as int]) < kdl_node_height(*n));
                let c = read_node(&ns[k]);
                kids.push(c);
                k = k + 1;
            }
            proof { lemma_knodes_view(kids@); }
            Some(kids)
        },
    };
    KNode { name, entries, children }
}

/// The plain values of the nodes of a `kdl` document.
pub fn read_document(d: &kdl::KdlDocument) -> (ks: Vec<KNode>)
    ensures
        reads_match(kdl_document_nodes(*d), knodes_view(ks@)),
{
    let ns = document_nodes(d);
    let mut ks: Vec<KNode> = Vec::new();
    let mut i: usize = 0;
    while i < ns.len()
        invariant
            i <= ns.len(),
            ns@ == kdl_document_nodes(*d),
            ks@.len() == i,
            forall|j: int| 0 <= j < i ==> read_matches(ns@[j], #[trigger] knode_view(ks@[j])),
        decreases ns.len() - i,
    {
        ks.push(read_node(&ns[i]));
        i = i + 1;
    }
    proof { lemma_knodes_view(ks@); }
    ks
}

} // verus!
