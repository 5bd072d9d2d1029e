//! XML to KDL conversion, following the XiK mapping.
pub mod compact;
pub mod kdl_build;
pub mod kdl_out;
pub mod parser;
pub mod transformer;
pub mod types;

use vstd::prelude::*;

pub use types::XmlNode;

use crate::error::Xml2KdlError;
use crate::kdl_api::{kdl_document_format, kdl_document_nodes};
use crate::text::{blank, concat2, decimal, decimal_string, is_blank};
use compact::{compact, apply_compact_format_to_node};
use kdl_build::{build_document, build_node, built_matches, nodes_match};
use kdl_out::{lemma_out_nodes_view, out_node_view, out_nodes_view, ONode, OutNode};
use transformer::{to_kdl, xml_node_to_model};
use types::{lemma_nodes_view, node_view, nodes_view, XNode};
use parser::{read_outcome, ReadFault};
use crate::xml_api::{xml_reader_untrimmed, xml_text_events};

verus! {

broadcast use vstd::string::group_string_axioms;

/// Compact output mode.
#[derive(Debug, Clone, Copy, PartialEq, Eq, Structural, Default)]
pub enum CompactMode {
    /// Children blocks over several lines (the default).
    #[default]
    Off,
    /// Every children block on a single line.
    All,
    /// Only blocks whose children have no children of their own on a single line.
    Leaf,
}

/// Configuration of the XML to KDL converter.
#[derive(Debug, Clone)]
pub struct XmlToKdlConverter {
    /// Whether comments become `!` nodes (true) or are dropped (false).
    pub comments_as_nodes: bool,
    /// Whether whitespace-only text nodes are kept.
    pub preserve_whitespace: bool,
    /// Compact output mode.
    pub compact_mode: CompactMode,
}

impl Default for XmlToKdlConverter {
    fn default() -> (c: Self)
        ensures
            !c.comments_as_nodes,
            !c.preserve_whitespace,
            c.compact_mode == CompactMode::Off,
    {
        Self::new()
    }
}

/// How the top-level nodes have been seen so far: elements, DOCTYPEs, and
/// whether an element came already; or the message of the first fault.
pub open spec fn xml_root_scan(s: Seq<XNode>) -> Result<(nat, nat, bool), Seq<char>>
    decreases s.len(),
{
    if s.len() == 0 {
        Ok((0, 0, false))
    } else {
        match xml_root_scan(s.drop_last()) {
            Err(m) => Err(m),
            Ok((elements, doctypes, seen)) => match s.last() {
                XNode::Element { .. } => Ok((elements + 1, doctypes, true)),
                XNode::DocType(_) => if doctypes + 1 > 1 {
                    Err("Multiple DOCTYPE declarations not allowed"@)
                } else if seen {
                    Err("DOCTYPE must appear before root element"@)
                } else {
                    Ok((elements, doctypes + 1, seen))
                },
                XNode::Text(t) => if !is_blank(t) {
                    Err("Text content not allowed at document root"@)
                } else {
                    Ok((elements, doctypes, seen))
                },
                _ => Ok((elements, doctypes, seen)),
            },
        }
    }
}

/// The message with which a list of top-level nodes is refused, or `None`:
/// there must be exactly one element, at most one DOCTYPE and that before
/// the element, and no text but white space.
pub open spec fn xml_root_error(s: Seq<XNode>) -> Option<Seq<char>> {
    match xml_root_scan(s) {
        Err(m) => Some(m),
        Ok((elements, _, _)) => if elements == 0 {
            Some("Document must contain exactly one root element"@)
        } else if elements > 1 {
            Some("Document must contain exactly one root element, found "@ + decimal(elements))
        } else {
            None
        },
    }
}

/// The KDL nodes for the top-level XML nodes, in order (bare text gives none).
pub open spec fn root_models(s: Seq<XNode>, preserve: bool) -> Seq<ONode>
    decreases s.len(),
{
    if s.len() == 0 {
        Seq::empty()
    } else {
        root_models(s.drop_last(), preserve) + match to_kdl(s.last(), preserve) {
            Some(o) => seq![o],
            None => Seq::empty(),
        }
    }
}

/// The nodes laid out in the given mode.
pub open spec fn layout(ms: Seq<ONode>, mode: CompactMode) -> Seq<ONode> {
    match mode {
        CompactMode::Off => ms,
        CompactMode::All => ms.map_values(|m: ONode| compact(m, m.format, false, Seq::empty())),
        CompactMode::Leaf => ms.map_values(|m: ONode| compact(m, m.format, true, Seq::empty())),
    }
}

/// The KDL document for a list of top-level XML nodes, as plain values.
pub open spec fn document_model(s: Seq<XNode>, c: XmlToKdlConverter) -> Seq<ONode> {
    layout(root_models(s, c.preserve_whitespace), c.compact_mode)
}

/// Whether `res` is what converting gives when reading the XML gives `o`
/// (see [`parser::read_outcome`]): for the nodes read, the top-level check
/// and then the document of [`document_model`]; otherwise the reader's
/// error, the error of an event that cannot be read (see
/// [`parser::event_error`]), or the error for an element left open.
pub open spec fn xml_converted(
    o: core::result::Result<Seq<XNode>, ReadFault>,
    c: XmlToKdlConverter,
    res: crate::error::Result<kdl::KdlDocument>,
) -> bool {
    match o {
        Ok(ns) => match xml_root_error(ns) {
            Some(m) => res matches Err(Xml2KdlError::InvalidStructure(e)) && e@ == m,
            None => res matches Ok(d) && kdl_document_format(d) is None && nodes_match(
                kdl_document_nodes(d),
                document_model(ns, c),
            ),
        },
        Err(ReadFault::Reader(e)) => res matches Err(Xml2KdlError::XmlParse(x)) && x == e,
        Err(ReadFault::Event(k)) => res matches Err(x) && parser::error_matches(k, x),
        Err(ReadFault::Unclosed) => res matches Err(Xml2KdlError::InvalidStructure(m)) && m@
            == "Unclosed XML elements"@,
    }
}

impl XmlToKdlConverter {
    /// A converter that drops comments, drops whitespace-only text, and does not compact.
    pub fn new() -> (c: Self)
        ensures
            !c.comments_as_nodes,
            !c.preserve_whitespace,
            c.compact_mode == CompactMode::Off,
    {
        Self { comments_as_nodes: false, preserve_whitespace: false, compact_mode: CompactMode::Off }
    }

    /// Sets whether comments become `!` nodes.
    pub fn comments_as_nodes(self, value: bool) -> (c: Self)
        ensures
            c == (Self { comments_as_nodes: value, ..self }),
    {
        let mut s = self;
        s.comments_as_nodes = value;
        s
    }

    /// Sets whether whitespace-only text nodes are kept.
    pub fn preserve_whitespace(self, value: bool) -> (c: Self)
        ensures
            c == (Self { preserve_whitespace: value, ..self }),
    {
        let mut s = self;
        s.preserve_whitespace = value;
        s
    }

    /// Sets the compact mode to `All` (true) or `Off` (false).
    pub fn compact(self, value: bool) -> (c: Self)
        ensures
            c == (Self { compact_mode: if value { CompactMode::All } else { CompactMode::Off }, ..self }),
    {
        let mut s = self;
        s.compact_mode = if value {
            CompactMode::All
        } else {
            CompactMode::Off
        };
        s
    }

    /// Sets the compact mode.
    pub fn compact_mode(self, mode: CompactMode) -> (c: Self)
        ensures
            c == (Self { compact_mode: mode, ..self }),
    {
        let mut s = self;
        s.compact_mode = mode;
        s
    }

    /// Converts an XML text to a KDL document: the text is read into a tree
    /// (see [`parser::read_outcome`]), the tree's top level is checked, and
    /// the document is the one [`document_model`] describes.
    pub fn convert(&self, xml: &str) -> (res: crate::error::Result<kdl::KdlDocument>)
        ensures
            xml_converted(read_outcome(xml_text_events(xml@), self.comments_as_nodes, Seq::empty()), *self, res),
    {
        let reader = crate::xml_api::reader_from_str(xml);
        self.convert_reader(reader)
    }

    /// Converts the XML that a slice reader holds to a KDL document.
    pub fn convert_reader(&self, reader: quick_xml::Reader<&[u8]>) -> (res: crate::error::Result<kdl::KdlDocument>)
        ensures
            xml_converted(
                read_outcome(xml_reader_untrimmed(reader), self.comments_as_nodes, Seq::empty()),
                *self,
                res,
            ),
    {
        let nodes = match parser::parse_xml_to_tree(reader, self.comments_as_nodes) {
            Ok(ns) => ns,
            Err(e) => {
                return Err(e);
            },
        };
        self.nodes_to_kdl_document(nodes.as_slice())
    }

    /// Checks the top-level structure, then builds the KDL document.
    pub fn nodes_to_kdl_document(&self, nodes: &[XmlNode]) -> (res: crate::error::Result<kdl::KdlDocument>)
        ensures
            match xml_root_error(nodes_view(nodes@)) {
                Some(m) => res matches Err(Xml2KdlError::InvalidStructure(e)) && e@ == m,
                None => res matches Ok(d) && kdl_document_format(d) is None && nodes_match(
                    kdl_document_nodes(d),
                    document_model(nodes_view(nodes@), *self),
                ),
            },
    {
        let ghost s = nodes_view(nodes@);
        proof { lemma_nodes_view(nodes@); }
        let mut element_count: usize = 0;
        let mut doctype_count: usize = 0;
        let mut seen_element = false;
        let mut i: usize = 0;
        assert(s.take(0) == Seq::<XNode>::empty());
        while i < nodes.len()
            invariant
                i <= nodes.len(),
                s == nodes_view(nodes@),
                s.len() == nodes@.len(),
                forall|j: int| 0 <= j < nodes@.len() ==> #[trigger] s[j] == node_view(nodes@[j]),
                element_count <= i,
                doctype_count <= 1,
                xml_root_scan(s.take(i as int)) == Ok::<(nat, nat, bool), Seq<char>>(
                    (element_count as nat, doctype_count as nat, seen_element),
                ),
            decreases nodes.len() - i,
        {
            assert(s.take(i + 1).drop_last() == s.take(i as int));
            assert(s.take(i + 1).last() == s[i as int]);
            match &nodes[i] {
                XmlNode::Element { .. } => {
                    element_count = element_count + 1;
                    seen_element = true;
                },
                XmlNode::DocType(_) => {
                    doctype_count = doctype_count + 1;
                    if doctype_count > 1 {
                        proof { lemma_root_scan_err_extends(s, i as int + 1); }
                        return Err(Xml2KdlError::InvalidStructure(
                            "Multiple DOCTYPE declarations not allowed".to_string(),
                        ));
                    }
                    if seen_element {
                        proof { lemma_root_scan_err_extends(s, i as int + 1); }
                        return Err(Xml2KdlError::InvalidStructure(
                            "DOCTYPE must appear before root element".to_string(),
                        ));
                    }
                },
                XmlNode::Text(t) => {
                    if !blank(t.as_str()) {
                        proof { lemma_root_scan_err_extends(s, i as int + 1); }
                        return Err(Xml2KdlError::InvalidStructure(
                            "Text content not allowed at document root".to_string(),
                        ));
                    }
                },
                _ => {},
            }
            i = i + 1;
        }
        assert(s.take(nodes.len() as int) == s);
        if element_count == 0 {
            return Err(Xml2KdlError::InvalidStructure(
                "Document must contain exactly one root element".to_string(),
            ));
        }
        if element_count > 1 {
            let count = decimal_string(element_count);
            return Err(Xml2KdlError::InvalidStructure(
                concat2("Document must contain exactly one root element, found ", count.as_str()),
            ));
        }
        let mut models: Vec<OutNode> = Vec::new();
        let mut k: usize = 0;
        assert(s.take(0) == Seq::<XNode>::empty());
        proof { lemma_out_nodes_view(models@); }
        while k < nodes.len()
            invariant
                k <= nodes.len(),
                s == nodes_view(nodes@),
                s.len() == nodes@.len(),
                forall|j: int| 0 <= j < nodes@.len() ==> #[trigger] s[j] == node_view(nodes@[j]),
                out_nodes_view(models@) == root_models(s.take(k as int), self.preserve_whitespace),
            decreases nodes.len() - k,
        {
            assert(s.take(k + 1).drop_last() == s.take(k as int));
            assert(s.take(k + 1).last() == s[k as int]);
            let ghost before = models@;
            if let Some(m) = xml_node_to_model(&nodes[k], self.preserve_whitespace) {
                models.push(m);
            }
            proof {
                lemma_out_nodes_view(before);
                lemma_out_nodes_view(models@);
                assert(out_nodes_view(models@) =~= root_models(s.take(k + 1), self.preserve_whitespace));
            }
            k = k + 1;
        }
        assert(s.take(nodes.len() as int) == s);
        let laid_out = match self.compact_mode {
            CompactMode::Off => models,
            CompactMode::All => apply_compact_format(&models, false),
            CompactMode::Leaf => apply_compact_format(&models, true),
        };
        Ok(build_document(&laid_out))
    }
}

/// Once the scan of the top-level nodes has failed, it fails on any longer list.
proof fn lemma_root_scan_err_extends(s: Seq<XNode>, i: int)
    requires
        0 <= i <= s.len(),
        xml_root_scan(s.take(i)) is Err,
    ensures
        xml_root_scan(s) == xml_root_scan(s.take(i)),
    decreases s.len() - i,
{
    if i < s.len() {
        assert(s.take(i + 1).drop_last() == s.take(i));
        lemma_root_scan_err_extends(s, i + 1);
    } else {
        assert(s.take(i) == s);
    }
}

/// Lays out every top-level node compactly (`leaf_only`: only blocks whose
/// children are leaves).
fn apply_compact_format(doc: &Vec<OutNode>, leaf_only: bool) -> (r: Vec<OutNode>)
    ensures
        out_nodes_view(r@) == out_nodes_view(doc@).map_values(
            |m: ONode| compact(m, m.format, leaf_only, Seq::empty()),
        ),
{
    proof { lemma_out_nodes_view(doc@); }
    let indent = String::new();
    let mut r: Vec<OutNode> = Vec::new();
    let mut i: usize = 0;
    while i < doc.len()
        invariant
            i <= doc.len(),
            indent@ == Seq::<char>::empty(),
            r@.len() == i,
            out_nodes_view(doc@).len() == doc@.len(),
            forall|j: int| 0 <= j < doc@.len() ==> #[trigger] out_nodes_view(doc@)[j] == out_node_view(doc@[j]),
            forall|j: int| 0 <= j < i ==> out_node_view(#[trigger] r@[j]) == compact(
                out_node_view(doc@[j]),
                out_node_view(doc@[j]).format,
                leaf_only,
                Seq::empty(),
            ),
        decreases doc.len() - i,
    {
        let f = copy_node_format(&doc[i].format);
        r.push(apply_compact_format_to_node(&doc[i], f, leaf_only, &indent));
        i = i + 1;
    }
    proof {
        kdl_out::lemma_out_nodes_view_eq(r@, out_nodes_view(doc@).map_values(
            |m: ONode| compact(m, m.format, leaf_only, Seq::empty()),
        ));
    }
    r
}

fn copy_node_format(f: &kdl_out::NodeFormat) -> (r: kdl_out::NodeFormat)
    ensures
        r@ == f@,
{
    kdl_out::NodeFormat {
        leading: f.leading.clone(),
        before_ty_name: f.before_ty_name.clone(),
        after_ty_name: f.after_ty_name.clone(),
        after_ty: f.after_ty.clone(),
        before_children: f.before_children.clone(),
        before_terminator: f.before_terminator.clone(),
        terminator: f.terminator.clone(),
        trailing: f.trailing.clone(),
    }
}

/// The `kdl` node for an XML node; `None` for bare text, which its parent places.
pub fn xml_node_to_kdl(node: &XmlNode, inherit_preserve: bool) -> (r: Option<kdl::KdlNode>)
    ensures
        match to_kdl(node@, inherit_preserve) {
            Some(m) => r matches Some(n) && built_matches(n, m),
            None => r is None,
        },
{
    match xml_node_to_model(node, inherit_preserve) {
        Some(m) => Some(build_node(&m)),
        None => None,
    }
}

} // verus!
