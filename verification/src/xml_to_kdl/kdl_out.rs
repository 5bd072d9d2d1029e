//! The KDL document that the conversion builds, as plain values: node
//! names, entries, children blocks and the formatting of each node.
use vstd::prelude::*;

verus! {

broadcast use vstd::string::group_string_axioms;

/// Formatting of a node (the fields of `kdl::KdlNodeFormat`).
pub struct NodeFormat {
    pub leading: String,
    pub before_ty_name: String,
    pub after_ty_name: String,
    pub after_ty: String,
    pub before_children: String,
    pub before_terminator: String,
    pub terminator: String,
    pub trailing: String,
}

/// The value of a [`NodeFormat`].
pub struct Fmt {
    pub leading: Seq<char>,
    pub before_ty_name: Seq<char>,
    pub after_ty_name: Seq<char>,
    pub after_ty: Seq<char>,
    pub before_children: Seq<char>,
    pub before_terminator: Seq<char>,
    pub terminator: Seq<char>,
    pub trailing: Seq<char>,
}

impl View for NodeFormat {
    type V = Fmt;

    open spec fn view(&self) -> Fmt {
        Fmt {
            leading: self.leading@,
            before_ty_name: self.before_ty_name@,
            after_ty_name: self.after_ty_name@,
            after_ty: self.after_ty@,
            before_children: self.before_children@,
            before_terminator: self.before_terminator@,
            terminator: self.terminator@,
            trailing: self.trailing@,
        }
    }
}

/// Formatting of a children block (the fields of `kdl::KdlDocumentFormat`).
pub struct DocFormat {
    pub leading: String,
    pub trailing: String,
}

/// One entry: a property when `key` is present, an argument otherwise; values are strings.
pub struct OutEntry {
    pub key: Option<String>,
    pub value: String,
}

/// A KDL node to be built.
pub struct OutNode {
    pub name: String,
    pub entries: Vec<OutEntry>,
    pub children: Option<Vec<OutNode>>,
    pub format: NodeFormat,
    pub children_format: Option<DocFormat>,
}

/// The value of an [`OutNode`].
pub struct ONode {
    pub name: Seq<char>,
    pub entries: Seq<(Option<Seq<char>>, Seq<char>)>,
    pub children: Option<Seq<ONode>>,
    pub format: Fmt,
    pub children_format: Option<(Seq<char>, Seq<char>)>,
}

pub open spec fn entry_view(e: OutEntry) -> (Option<Seq<char>>, Seq<char>) {
    (
        match e.key {
            Some(k) => Some(k@),
            None => None,
        },
        e.value@,
    )
}

pub open spec fn entries_view(s: Seq<OutEntry>) -> Seq<(Option<Seq<char>>, Seq<char>)> {
    s.map_values(|e: OutEntry| entry_view(e))
}

pub open spec fn doc_format_view(f: Option<DocFormat>) -> Option<(Seq<char>, Seq<char>)> {
    match f {
        Some(d) => Some((d.leading@, d.trailing@)),
        None => None,
    }
}

pub open spec fn out_nodes_view(s: Seq<OutNode>) -> Seq<ONode>
    decreases s,
{
    if s.len() == 0 {
        Seq::empty()
    } else {
        seq![out_node_view(s[0])] + out_nodes_view(s.subrange(1, s.len() as int))
    }
}

pub open spec fn out_node_view(n: OutNode) -> ONode
    decreases n,
{
    ONode {
        name: n.name@,
        entries: entries_view(n.entries@),
        children: match n.children {
            Some(v) => Some(out_nodes_view(v@)),
            None => None,
        },
        format: n.format@,
        children_format: doc_format_view(n.children_format),
    }
}

impl View for OutNode {
    type V = ONode;

    open spec fn view(&self) -> ONode {
        out_node_view(*self)
    }
}

pub proof fn lemma_out_nodes_view(s: Seq<OutNode>)
    ensures
        out_nodes_view(s).len() == s.len(),
        forall|i: int| 0 <= i < s.len() ==> #[trigger] out_nodes_view(s)[i] == out_node_view(s[i]),
    decreases s.len(),
{
    if s.len() > 0 {
        lemma_out_nodes_view(s.subrange(1, s.len() as int));
        assert forall|i: int| 0 <= i < s.len() implies #[trigger] out_nodes_view(s)[i] == out_node_view(s[i]) by {
            if i > 0 {
                assert(s.subrange(1, s.len() as int)[i - 1] == s[i]);
            }
        }
    }
}

/// `out_nodes_view` read off element by element.
pub proof fn lemma_out_nodes_view_eq(s: Seq<OutNode>, t: Seq<ONode>)
    requires
        s.len() == t.len(),
        forall|i: int| 0 <= i < s.len() ==> out_node_view(#[trigger] s[i]) == t[i],
    ensures
        out_nodes_view(s) == t,
{
    lemma_out_nodes_view(s);
    assert(out_nodes_view(s) =~= t);
}

/// The value of a format made of these eight strings.
pub open spec fn fmt(
    leading: Seq<char>,
    before_children: Seq<char>,
    terminator: Seq<char>,
    trailing: Seq<char>,
) -> Fmt {
    Fmt {
        leading,
        before_ty_name: Seq::empty(),
        after_ty_name: Seq::empty(),
        after_ty: Seq::empty(),
        before_children,
        before_terminator: Seq::empty(),
        terminator,
        trailing,
    }
}

/// The format that a fresh `kdl::KdlNode` has: empty but for a trailing newline.
pub open spec fn fresh_format() -> Fmt {
    fmt(Seq::empty(), Seq::empty(), Seq::empty(), "\n"@)
}

/// A format with the given leading text, a space before children, the given
/// terminator and trailing text, and nothing else.
pub fn make_format(leading: String, terminator: String, trailing: String) -> (f: NodeFormat)
    ensures
        f@ == fmt(leading@, " "@, terminator@, trailing@),
{
    NodeFormat {
        leading,
        before_ty_name: String::new(),
        after_ty_name: String::new(),
        after_ty: String::new(),
        before_children: " ".to_string(),
        before_terminator: String::new(),
        terminator,
        trailing,
    }
}

pub fn new_format() -> (f: NodeFormat)
    ensures
        f@ == fresh_format(),
{
    NodeFormat {
        leading: String::new(),
        before_ty_name: String::new(),
        after_ty_name: String::new(),
        after_ty: String::new(),
        before_children: String::new(),
        before_terminator: String::new(),
        terminator: String::new(),
        trailing: "\n".to_string(),
    }
}

/// A node with a name, entries and children, formatted as a fresh node.
pub open spec fn onode(
    name: Seq<char>,
    entries: Seq<(Option<Seq<char>>, Seq<char>)>,
    children: Option<Seq<ONode>>,
) -> ONode {
    ONode { name, entries, children, format: fresh_format(), children_format: None }
}

} // verus!
