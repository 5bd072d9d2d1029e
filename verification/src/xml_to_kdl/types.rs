//! The tree that an XML document is read into before it becomes KDL.
use vstd::prelude::*;

verus! {

/// One node of an XML document.
#[derive(Debug)]
pub enum XmlNode {
    /// An element with its attributes, in document order, and its children.
    Element { name: String, attributes: Vec<(String, String)>, children: Vec<XmlNode> },
    /// Text content within an element.
    Text(String),
    /// A comment.
    Comment(String),
    /// A processing instruction (`<?target content?>`).
    ProcessingInstruction { target: String, content: Option<String> },
    /// A DOCTYPE declaration.
    DocType(String),
}

/// The mathematical value of an [`XmlNode`].
pub enum XNode {
    Element { name: Seq<char>, attributes: Seq<(Seq<char>, Seq<char>)>, children: Seq<XNode> },
    Text(Seq<char>),
    Comment(Seq<char>),
    ProcessingInstruction { target: Seq<char>, content: Option<Seq<char>> },
    DocType(Seq<char>),
}

/// The value of a list of attributes.
pub open spec fn attrs_view(a: Seq<(String, String)>) -> Seq<(Seq<char>, Seq<char>)> {
    a.map_values(|p: (String, String)| (p.0@, p.1@))
}

/// The value of an optional string.
pub open spec fn opt_view(o: Option<String>) -> Option<Seq<char>> {
    match o {
        Some(s) => Some(s@),
        None => None,
    }
}

/// The values of a list of nodes.
pub open spec fn nodes_view(s: Seq<XmlNode>) -> Seq<XNode>
    decreases s,
{
    if s.len() == 0 {
        Seq::empty()
    } else {
        seq![node_view(s[0])] + nodes_view(s.subrange(1, s.len() as int))
    }
}

/// The value of one node.
pub open spec fn node_view(n: XmlNode) -> XNode
    decreases n,
{
    match n {
        XmlNode::Element { name, attributes, children } => XNode::Element {
            name: name@,
            attributes: attrs_view(attributes@),
            children: nodes_view(children@),
        },
        XmlNode::Text(t) => XNode::Text(t@),
        XmlNode::Comment(t) => XNode::Comment(t@),
        XmlNode::ProcessingInstruction { target, content } => XNode::ProcessingInstruction {
            target: target@,
            content: opt_view(content),
        },
        XmlNode::DocType(t) => XNode::DocType(t@),
    }
}

impl View for XmlNode {
    type V = XNode;

    open spec fn view(&self) -> XNode {
        node_view(*self)
    }
}

pub proof fn lemma_nodes_view(s: Seq<XmlNode>)
    ensures
        nodes_view(s).len() == s.len(),
        forall|i: int| 0 <= i < s.len() ==> #[trigger] nodes_view(s)[i] == node_view(s[i]),
    decreases s.len(),
{
    if s.len() > 0 {
        lemma_nodes_view(s.subrange(1, s.len() as int));
        assert forall|i: int| 0 <= i < s.len() implies #[trigger] nodes_view(s)[i] == node_view(s[i]) by {
            if i > 0 {
                assert(s.subrange(1, s.len() as int)[i - 1] == s[i]);
            }
        }
    }
}

/// `nodes_view` read off element by element.
pub proof fn lemma_nodes_view_eq(s: Seq<XmlNode>, t: Seq<XNode>)
    requires
        s.len() == t.len(),
        forall|i: int| 0 <= i < s.len() ==> node_view(#[trigger] s[i]) == t[i],
    ensures
        nodes_view(s) == t,
{
    lemma_nodes_view(s);
    assert(nodes_view(s) =~= t);
}

/// A copy of a node with the same value.
pub fn copy_node(n: &XmlNode) -> (r: XmlNode)
    ensures
        r@ == n@,
    decreases n,
{
    match n {
        XmlNode::Element { name, attributes, children } => {
            let mut attrs: Vec<(String, String)> = Vec::new();
            let mut i: usize = 0;
            while i < attributes.len()
                invariant
                    i <= attributes.len(),
                    attrs@.len() == i,
                    forall|j: int| 0 <= j < i ==> (#[trigger] attrs@[j]).0@ == attributes@[j].0@
                        && attrs@[j].1@ == attributes@[j].1@,
                decreases attributes.len() - i,
            {
                attrs.push((attributes[i].0.clone(), attributes[i].1.clone()));
                i = i + 1;
            }
            assert(attrs_view(attrs@) =~= attrs_view(attributes@));
            let cs = copy_nodes(children);
            XmlNode::Element { name: name.clone(), attributes: attrs, children: cs }
        },
        XmlNode::Text(t) => XmlNode::Text(t.clone()),
        XmlNode::Comment(t) => XmlNode::Comment(t.clone()),
        XmlNode::ProcessingInstruction { target, content } => XmlNode::ProcessingInstruction {
            target: target.clone(),
            content: match content {
                Some(c) => Some(c.clone()),
                None => None,
            },
        },
        XmlNode::DocType(t) => XmlNode::DocType(t.clone()),
    }
}

/// A copy of a list of nodes with the same values.
pub fn copy_nodes(v: &Vec<XmlNode>) -> (r: Vec<XmlNode>)
    ensures
        nodes_view(r@) == nodes_view(v@),
    decreases v,
{
    let mut r: Vec<XmlNode> = Vec::new();
    let mut i: usize = 0;
    while i < v.len()
        invariant
            i <= v.len(),
            r@.len() == i,
            forall|j: int| 0 <= j < i ==> node_view(#[trigger] r@[j]) == node_view(v@[j]),
        decreases v.len() - i,
    {
        let c = copy_node(&v[i]);
        r.push(c);
        i = i + 1;
    }
    proof {
        lemma_nodes_view(v@);
        lemma_nodes_view_eq(r@, nodes_view(v@));
    }
    r
}

/// How the children of an element are laid out in KDL.
#[derive(Debug)]
pub enum ContentType {
    /// No content.
    Empty,
    /// Only text: it becomes one string argument.
    PureText(String),
    /// Only elements (and comments or processing instructions): a children block.
    ElementsOnly(Vec<XmlNode>),
    /// Text interleaved with other nodes: a children block with `-` nodes for the text.
    Mixed(Vec<XmlNode>),
}

/// The mathematical value of a [`ContentType`].
pub enum Content {
    Empty,
    PureText(Seq<char>),
    ElementsOnly(Seq<XNode>),
    Mixed(Seq<XNode>),
}

impl View for ContentType {
    type V = Content;

    open spec fn view(&self) -> Content {
        match *self {
            ContentType::Empty => Content::Empty,
            ContentType::PureText(t) => Content::PureText(t@),
            ContentType::ElementsOnly(v) => Content::ElementsOnly(nodes_view(v@)),
            ContentType::Mixed(v) => Content::Mixed(nodes_view(v@)),
        }
    }
}

} // verus!
