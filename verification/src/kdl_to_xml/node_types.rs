//! Which XiK construct a node stands for, and reading its arguments.
use vstd::prelude::*;

use super::model::{entry_view, KEntry, KNode, KValue, KE, KN, KV, lemma_knodes_view};
use crate::constants::{COMMENT_NODE_NAME, DOCTYPE_NODE_NAME, PI_PREFIX, TEXT_NODE_NAME};
use crate::error::Kdl2XmlError;
use crate::text::{chars_of, concat3, str_eq};

verus! {

broadcast use vstd::string::group_string_axioms;

/// `!doctype`.
pub open spec fn is_doctype_name(n: Seq<char>) -> bool {
    n == "!doctype"@
}

/// A name that starts with `?`.
pub open spec fn is_pi_name(n: Seq<char>) -> bool {
    n.len() > 0 && n[0] == '?'
}

/// `!`.
pub open spec fn is_comment_name(n: Seq<char>) -> bool {
    n == "!"@
}

/// `-`.
pub open spec fn is_text_name(n: Seq<char>) -> bool {
    n == "-"@
}

/// Whether the node name stands for a DOCTYPE declaration.
pub fn is_doctype_node(name: &str) -> (b: bool)
    ensures
        b == is_doctype_name(name@),
{
    str_eq(name, DOCTYPE_NODE_NAME)
}

/// Whether the node name stands for a processing instruction.
pub fn is_pi_node(name: &str) -> (b: bool)
    ensures
        b == is_pi_name(name@),
{
    let v = chars_of(name);
    v.len() > 0 && v[0] == PI_PREFIX
}

/// Whether the node name stands for a comment.
pub fn is_comment_node(name: &str) -> (b: bool)
    ensures
        b == is_comment_name(name@),
{
    str_eq(name, COMMENT_NODE_NAME)
}

/// Whether the node name stands for text in mixed content.
pub fn is_text_node(name: &str) -> (b: bool)
    ensures
        b == is_text_name(name@),
{
    str_eq(name, TEXT_NODE_NAME)
}

/// The index of the first argument (entry without a name) at or after `i`.
pub open spec fn first_unnamed(es: Seq<KE>, i: int) -> Option<int>
    decreases es.len() - i,
{
    if i < 0 || i >= es.len() {
        None
    } else if es[i].name is None {
        Some(i)
    } else {
        first_unnamed(es, i + 1)
    }
}

/// The first argument of a node, which must be a string.
pub open spec fn first_argument(n: KN) -> Result<Seq<char>, Seq<char>> {
    match first_unnamed(n.entries, 0) {
        Some(i) => match n.entries[i].value {
            KV::Str(s) => Ok(s),
            KV::Other(d) => Err("Node '"@ + n.name + "' argument must be a string, got "@ + d),
        },
        None => Err("Node '"@ + n.name + "' requires a string argument"@),
    }
}

/// Whether a node has a children block with at least one node.
pub open spec fn has_child_nodes(n: KN) -> bool {
    n.children matches Some(cs) && cs.len() > 0
}

/// The text argument of an element: none when it has child nodes or no
/// argument; the first argument otherwise, which must be a string.
pub open spec fn text_argument(n: KN) -> Result<Option<Seq<char>>, Seq<char>> {
    if has_child_nodes(n) {
        Ok(None)
    } else {
        match first_unnamed(n.entries, 0) {
            Some(i) => match n.entries[i].value {
                KV::Str(s) => Ok(Some(s)),
                KV::Other(d) => Err("Element '"@ + n.name + "' text content must be a string, got "@ + d),
            },
            None => Ok(None),
        }
    }
}

/// Whether some entry of the node is a property.
pub open spec fn has_props(n: KN) -> bool {
    exists|i: int| 0 <= i < n.entries.len() && #[trigger] n.entries[i].name is Some
}

pub proof fn lemma_first_unnamed(es: Seq<KE>, i: int)
    requires
        0 <= i,
    ensures
        match first_unnamed(es, i) {
            Some(k) => i <= k < es.len() && es[k].name is None && forall|j: int|
                i <= j < k ==> (#[trigger] es[j]).name is Some,
            None => forall|j: int| i <= j < es.len() ==> (#[trigger] es[j]).name is Some,
        },
    decreases es.len() - i,
{
    if 0 <= i < es.len() && es[i].name is Some {
        lemma_first_unnamed(es, i + 1);
    }
}

/// The index of the first argument of a node.
fn find_first_unnamed(entries: &Vec<KEntry>) -> (r: Option<usize>)
    ensures
        match r {
            Some(k) => first_unnamed(entries@.map_values(|e: KEntry| entry_view(e)), 0) == Some(k as int)
                && k < entries@.len(),
            None => first_unnamed(entries@.map_values(|e: KEntry| entry_view(e)), 0) is None,
        },
{
    let ghost es = entries@.map_values(|e: KEntry| entry_view(e));
    let mut i: usize = 0;
    while i < entries.len()
        invariant
            i <= entries.len(),
            es == entries@.map_values(|e: KEntry| entry_view(e)),
            first_unnamed(es, 0) == first_unnamed(es, i as int),
        decreases entries.len() - i,
    {
        if entries[i].name.is_none() {
            assert(es[i as int].name is None);
            return Some(i);
        }
        assert(es[i as int].name is Some);
        i = i + 1;
    }
    None
}

/// The first argument of a node, which must be a string.
pub fn get_first_argument(node: &KNode) -> (res: Result<String, Kdl2XmlError>)
    ensures
        match first_argument(node@) {
            Ok(s) => res matches Ok(r) && r@ == s,
            Err(m) => res matches Err(Kdl2XmlError::InvalidStructure(e)) && e@ == m,
        },
{
    match find_first_unnamed(&node.entries) {
        Some(k) => match &node.entries[k].value {
            KValue::Str(s) => Ok(s.clone()),
            KValue::Other(d) => {
                let mut m = concat3("Node '", node.name.as_str(), "' argument must be a string, got ");
                m.append(d.as_str());
                Err(Kdl2XmlError::InvalidStructure(m))
            },
        },
        None => Err(Kdl2XmlError::InvalidStructure(
            concat3("Node '", node.name.as_str(), "' requires a string argument"),
        )),
    }
}

/// Whether a node has a children block with at least one node.
pub fn has_children_nodes(node: &KNode) -> (b: bool)
    ensures
        b == has_child_nodes(node@),
{
    match &node.children {
        Some(cs) => {
            proof { lemma_knodes_view(cs@); }
            cs.len() > 0
        },
        None => false,
    }
}

/// The text argument of an element, if it has no child nodes.
pub fn get_text_argument(node: &KNode) -> (res: Result<Option<String>, Kdl2XmlError>)
    ensures
        match text_argument(node@) {
            Ok(Some(s)) => res matches Ok(Some(r)) && r@ == s,
            Ok(None) => res matches Ok(None),
            Err(m) => res matches Err(Kdl2XmlError::InvalidStructure(e)) && e@ == m,
        },
{
    if has_children_nodes(node) {
        return Ok(None);
    }
    match find_first_unnamed(&node.entries) {
        Some(k) => match &node.entries[k].value {
            KValue::Str(s) => Ok(Some(s.clone())),
            KValue::Other(d) => {
                let mut m = concat3("Element '", node.name.as_str(), "' text content must be a string, got ");
                m.append(d.as_str());
                Err(Kdl2XmlError::InvalidStructure(m))
            },
        },
        None => Ok(None),
    }
}

/// Whether the node has any property (named entry).
pub fn has_properties(node: &KNode) -> (b: bool)
    ensures
        b == has_props(node@),
{
    let ghost es = node.entries@.map_values(|e: KEntry| entry_view(e));
    let mut i: usize = 0;
    while i < node.entries.len()
        invariant
            i <= node.entries.len(),
            es == node.entries@.map_values(|e: KEntry| entry_view(e)),
            es == node@.entries,
            forall|j: int| 0 <= j < i ==> (#[trigger] es[j]).name is None,
        decreases node.entries.len() - i,
    {
        if node.entries[i].name.is_some() {
            assert(es[i as int].name is Some);
            return true;
        }
        assert(es[i as int].name is None);
        i = i + 1;
    }
    false
}

} // verus!
