//! Compact layout: children blocks written on one line, `;` between nodes.
use vstd::prelude::*;

use super::kdl_out::{
    fmt, lemma_out_nodes_view, make_format, out_node_view, out_nodes_view, DocFormat, Fmt,
    NodeFormat, ONode, OutEntry, OutNode,
};

verus! {

broadcast use vstd::string::group_string_axioms;

/// Whether every child of `n` is a leaf: it has no children block, or an
/// empty one.
pub open spec fn leaf_children(n: ONode) -> bool {
    match n.children {
        None => true,
        Some(cs) => forall|i: int|
            0 <= i < cs.len() ==> match #[trigger] cs[i].children {
                None => true,
                Some(g) => g.len() == 0,
            },
    }
}

/// The format a child gets: on one line, a space before the first child and
/// `; ` after every child but the last; on its own line, indented one level
/// deeper than `indent` and ended by a newline.
pub open spec fn child_fmt(inline: bool, i: int, total: int, indent: Seq<char>) -> Fmt {
    if inline {
        fmt(
            if i == 0 { " "@ } else { Seq::empty() },
            " "@,
            if i < total - 1 { "; "@ } else { Seq::empty() },
            Seq::empty(),
        )
    } else {
        fmt(indent + "    "@, " "@, "\n"@, Seq::empty())
    }
}

/// The node `n`, whose format is `f` at this point, laid out compactly at
/// the indentation `indent`: a node with a children block keeps its leading,
/// terminator and trailing text and gets a space before `{`; its block goes
/// on one line when `leaf_only` is off or all its children are leaves, and
/// on separate indented lines otherwise; children are treated the same way
/// one level deeper.
pub open spec fn compact(n: ONode, f: Fmt, leaf_only: bool, indent: Seq<char>) -> ONode
    decreases n,
{
    match n.children {
        None => ONode { format: f, ..n },
        Some(cs) => {
            let inline = !leaf_only || leaf_children(n);
            ONode {
                format: fmt(f.leading, " "@, f.terminator, f.trailing),
                children_format: Some(
                    if inline {
                        (Seq::empty(), " "@)
                    } else {
                        ("\n"@, indent)
                    },
                ),
                children: Some(compact_children(cs, inline, cs.len() as int, leaf_only, indent)),
                ..n
            }
        },
    }
}

/// The children `cs` of a block of `total` children, laid out.
pub open spec fn compact_children(
    cs: Seq<ONode>,
    inline: bool,
    total: int,
    leaf_only: bool,
    indent: Seq<char>,
) -> Seq<ONode>
    decreases cs,
{
    if cs.len() == 0 {
        Seq::empty()
    } else {
        let k = cs.len() - 1;
        compact_children(cs.subrange(0, k), inline, total, leaf_only, indent) + seq![
            compact(cs[k], child_fmt(inline, k, total, indent), leaf_only, indent + "    "@),
        ]
    }
}

/// Whether two nodes say the same thing: the same names and entries, and
/// children blocks in the same places holding nodes that say the same thing,
/// whatever their formatting.
pub open spec fn same_content(a: ONode, b: ONode) -> bool
    decreases a,
{
    &&& a.name == b.name
    &&& a.entries == b.entries
    &&& match a.children {
        None => b.children is None,
        Some(x) => match b.children {
            None => false,
            Some(y) => same_contents(x, y),
        },
    }
}

/// [`same_content`], node by node, for two lists of nodes.
pub open spec fn same_contents(x: Seq<ONode>, y: Seq<ONode>) -> bool
    decreases x,
{
    &&& x.len() == y.len()
    &&& x.len() > 0 ==> {
        let k = x.len() - 1;
        same_contents(x.subrange(0, k), y.subrange(0, k)) && same_content(x[k], y[k])
    }
}

/// Compact layout changes formatting only: the laid-out node says the same
/// thing as the node, whatever the mode and the indentation.
pub proof fn lemma_compact_keeps_content(n: ONode, f: Fmt, leaf_only: bool, indent: Seq<char>)
    ensures
        same_content(compact(n, f, leaf_only, indent), n),
    decreases n,
{
    match n.children {
        None => {},
        Some(cs) => {
            let inline = !leaf_only || leaf_children(n);
            lemma_compact_children_keep_content(cs, inline, cs.len() as int, leaf_only, indent);
        },
    }
}

/// [`lemma_compact_keeps_content`] for the children of one block.
pub proof fn lemma_compact_children_keep_content(
    cs: Seq<ONode>,
    inline: bool,
    total: int,
    leaf_only: bool,
    indent: Seq<char>,
)
    ensures
        same_contents(compact_children(cs, inline, total, leaf_only, indent), cs),
    decreases cs,
{
    if cs.len() > 0 {
        let k = cs.len() - 1;
        let front = compact_children(cs.subrange(0, k), inline, total, leaf_only, indent);
        let last = compact(cs[k], child_fmt(inline, k, total, indent), leaf_only, indent + "    "@);
        let r = compact_children(cs, inline, total, leaf_only, indent);
        lemma_compact_children_keep_content(cs.subrange(0, k), inline, total, leaf_only, indent);
        lemma_compact_keeps_content(cs[k], child_fmt(inline, k, total, indent), leaf_only, indent + "    "@);
        assert(r == front + seq![last]);
        assert(r.subrange(0, r.len() - 1) == front);
        assert(r[r.len() - 1] == last);
    }
}

fn copy_entries(v: &Vec<OutEntry>) -> (r: Vec<OutEntry>)
    ensures
        super::kdl_out::entries_view(r@) == super::kdl_out::entries_view(v@),
{
    let mut r: Vec<OutEntry> = Vec::new();
    let mut i: usize = 0;
    while i < v.len()
        invariant
            i <= v.len(),
            r@.len() == i,
            forall|j: int| 0 <= j < i ==> #[trigger] super::kdl_out::entry_view(r@[j])
                == super::kdl_out::entry_view(v@[j]),
        decreases v.len() - i,
    {
        let key = match &v[i].key {
            Some(k) => Some(k.clone()),
            None => None,
        };
        r.push(OutEntry { key, value: v[i].value.clone() });
        i = i + 1;
    }
    assert(super::kdl_out::entries_view(r@) =~= super::kdl_out::entries_view(v@));
    r
}

fn copy_doc_format(f: &Option<DocFormat>) -> (r: Option<DocFormat>)
    ensures
        super::kdl_out::doc_format_view(r) == super::kdl_out::doc_format_view(*f),
{
    match f {
        Some(d) => Some(DocFormat { leading: d.leading.clone(), trailing: d.trailing.clone() }),
        None => None,
    }
}

fn child_format(inline: bool, i: usize, total: usize, indent: &String) -> (f: NodeFormat)
    requires
        i < total,
    ensures
        f@ == child_fmt(inline, i as int, total as int, indent@),
{
    if inline {
        let leading = if i == 0 { " ".to_string() } else { String::new() };
        let terminator = if i < total - 1 { "; ".to_string() } else { String::new() };
        make_format(leading, terminator, String::new())
    } else {
        let mut leading = indent.clone();
        leading.append("    ");
        make_format(leading, "\n".to_string(), String::new())
    }
}

/// The node `n`, formatted with `f`, laid out compactly at `indent`.
pub fn apply_compact_format_to_node(n: &OutNode, f: NodeFormat, leaf_only: bool, indent: &String) -> (r: OutNode)
    ensures
        r@ == compact(n@, f@, leaf_only, indent@),
    decreases n,
{
    let entries = copy_entries(&n.entries);
    match &n.children {
        None => OutNode {
            name: n.name.clone(),
            entries,
            children: None,
            format: f,
            children_format: copy_doc_format(&n.children_format),
        },
        Some(cs) => {
            proof { lemma_out_nodes_view(cs@); }
            let inline = if leaf_only {
                is_leaf_children(n)
            } else {
                true
            };
            let format = make_format(f.leading, f.terminator, f.trailing);
            let children_format = if inline {
                DocFormat { leading: String::new(), trailing: " ".to_string() }
            } else {
                DocFormat { leading: "\n".to_string(), trailing: indent.clone() }
            };
            let kids = compact_kids(cs, inline, leaf_only, indent);
            OutNode {
                name: n.name.clone(),
                entries,
                children: Some(kids),
                format,
                children_format: Some(children_format),
            }
        },
    }
}

/// Whether all children of a node are leaves (have no nested children).
pub fn is_leaf_children(node: &OutNode) -> (b: bool)
    ensures
        b == leaf_children(node@),
{
    match &node.children {
        None => true,
        Some(cs) => {
            proof { lemma_out_nodes_view(cs@); }
            let mut i: usize = 0;
            while i < cs.len()
                invariant
                    i <= cs.len(),
                    node.children == Some(*cs),
                    out_nodes_view(cs@).len() == cs@.len(),
                    forall|j: int| 0 <= j < cs@.len() ==> #[trigger] out_nodes_view(cs@)[j] == out_node_view(cs@[j]),
                    forall|j: int| 0 <= j < i ==> match (#[trigger] out_nodes_view(cs@)[j]).children {
                        None => true,
                        Some(g) => g.len() == 0,
                    },
                decreases cs.len() - i,
            {
                match &cs[i].children {
                    None => {},
                    Some(g) => {
                        if g.len() != 0 {
                            proof { lemma_out_nodes_view(g@); }
                            assert(!leaf_children(node@)) by {
                                assert(out_nodes_view(cs@)[i as int].children == Some(out_nodes_view(g@)));
                            }
                            return false;
                        }
                        proof { lemma_out_nodes_view(g@); }
                    },
                }
                i = i + 1;
            }
            true
        },
    }
}

/// The children `cs` of one block, laid out.
fn compact_kids(cs: &Vec<OutNode>, inline: bool, leaf_only: bool, indent: &String) -> (kids: Vec<OutNode>)
    ensures
        out_nodes_view(kids@) == compact_children(
            out_nodes_view(cs@),
            inline,
            cs@.len() as int,
            leaf_only,
            indent@,
        ),
    decreases cs,
{
    proof { lemma_out_nodes_view(cs@); }
    let mut deeper = indent.clone();
    deeper.append("    ");
    let total = cs.len();
    let ghost s = out_nodes_view(cs@);
    let mut kids: Vec<OutNode> = Vec::new();
    let mut i: usize = 0;
    assert(s.subrange(0, 0) == Seq::<ONode>::empty());
    proof { lemma_out_nodes_view(kids@); }
    while i < total
        invariant
            i <= total == cs.len(),
            s == out_nodes_view(cs@),
            s.len() == cs@.len(),
            forall|j: int| 0 <= j < cs@.len() ==> #[trigger] s[j] == out_node_view(cs@[j]),
            deeper@ == indent@ + "    "@,
            out_nodes_view(kids@) == compact_children(
                s.subrange(0, i as int),
                inline,
                total as int,
                leaf_only,
                indent@,
            ),
        decreases total - i,
    {
        let ghost before = kids@;
        let fi = child_format(inline, i, total, indent);
        let c = apply_compact_format_to_node(&cs[i], fi, leaf_only, &deeper);
        kids.push(c);
        proof {
            let p = s.subrange(0, i + 1);
            assert(p.subrange(0, i as int) == s.subrange(0, i as int));
            lemma_out_nodes_view(before);
            lemma_out_nodes_view(kids@);
            assert(out_nodes_view(kids@) =~= compact_children(p, inline, total as int, leaf_only, indent@));
        }
        i = i + 1;
    }
    assert(s.subrange(0, total as int) == s);
    kids
}

} // verus!
