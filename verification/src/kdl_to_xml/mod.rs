//! KDL (XiK) to XML conversion.
pub mod model;
pub mod node_types;
pub mod render;
pub mod validation;
pub mod writers;

use vstd::prelude::*;

use crate::error::Kdl2XmlError;
use crate::kdl_api::{kdl_parse, parse_kdl_document};
use crate::text::{concat2, decimal, decimal_string};
use model::{knodes_view, lemma_knodes_view, read_document, reads_match, KNode, KN};
use node_types::{
    is_comment_name, is_comment_node, is_doctype_name, is_doctype_node, is_pi_name, is_pi_node,
    is_text_name, is_text_node,
};
use render::{render_xml, rendered};
use writers::{children_xml, node_to_xml, outs_view, XmlOut, XO};

pub use crate::error::Kdl2XmlResult;

verus! {

broadcast use vstd::string::group_string_axioms;

/// Configuration of the KDL to XML converter.
#[derive(Debug, Clone)]
pub struct KdlToXmlConverter {
    /// Indentation string for pretty printing, written once per nesting level.
    pub indent: String,
    /// Whether to pretty-print the output.
    pub pretty: bool,
}

impl Default for KdlToXmlConverter {
    fn default() -> (c: Self)
        ensures
            c.indent@ == "  "@,
            c.pretty,
    {
        Self::new()
    }
}

/// How the top-level nodes have been seen so far: elements, DOCTYPEs, and
/// whether an element came already; or the message of the first fault.
pub open spec fn kdl_root_scan(s: Seq<KN>) -> Result<(nat, nat, bool), Seq<char>>
    decreases s.len(),
{
    if s.len() == 0 {
        Ok((0, 0, false))
    } else {
        match kdl_root_scan(s.drop_last()) {
            Err(m) => Err(m),
            Ok((elements, doctypes, seen)) => {
                let name = s.last().name;
                if is_doctype_name(name) {
                    if doctypes + 1 > 1 {
                        Err("Multiple DOCTYPE declarations not allowed"@)
                    } else if seen {
                        Err("DOCTYPE must appear before root element"@)
                    } else {
                        Ok((elements, doctypes + 1, seen))
                    }
                } else if is_pi_name(name) || is_comment_name(name) {
                    Ok((elements, doctypes, seen))
                } else if is_text_name(name) {
                    Err("Text nodes (-) not allowed at document root"@)
                } else {
                    Ok((elements + 1, doctypes, true))
                }
            },
        }
    }
}

/// The message with which the top level of a document is refused, or
/// `None`: exactly one element, at most one DOCTYPE and that before the
/// element, and no text nodes.
pub open spec fn kdl_root_error(s: Seq<KN>) -> Option<Seq<char>> {
    match kdl_root_scan(s) {
        Err(m) => Some(m),
        Ok((elements, _, _)) => if elements == 0 {
            Some("Document must contain exactly one root element"@)
        } else if elements > 1 {
            Some("Document must contain exactly one root element, found "@ + decimal(elements))
        } else {
            None
        },
    }
}

/// What the conversion of a document gives: the message of the first
/// fault, or the output steps.
pub open spec fn document_xml(s: Seq<KN>, pretty: bool) -> Result<Seq<XO>, Seq<char>> {
    match kdl_root_error(s) {
        Some(m) => Err(m),
        None => children_xml(s, pretty),
    }
}

/// The indentation of the output: `indent` when pretty-printing, none otherwise.
pub open spec fn output_indent(c: KdlToXmlConverter) -> Option<Seq<char>> {
    if c.pretty {
        Some(c.indent@)
    } else {
        None
    }
}

/// What the converter gives for the nodes of a document: the message of
/// the first fault, or else the text of the output steps (see [`rendered`]).
pub open spec fn converted(c: KdlToXmlConverter, s: Seq<KN>, res: Result<String, Kdl2XmlError>) -> bool {
    match document_xml(s, c.pretty) {
        Err(m) => res matches Err(Kdl2XmlError::InvalidStructure(e)) && e@ == m,
        Ok(evs) => res matches Ok(x) && x@ == rendered(evs, output_indent(c)),
    }
}

/// Once the scan of the top-level nodes has failed, it fails on any longer list.
proof fn lemma_kdl_root_scan_err_extends(s: Seq<KN>, i: int)
    requires
        0 <= i <= s.len(),
        kdl_root_scan(s.take(i)) is Err,
    ensures
        kdl_root_scan(s) == kdl_root_scan(s.take(i)),
    decreases s.len() - i,
{
    if i < s.len() {
        assert(s.take(i + 1).drop_last() == s.take(i));
        lemma_kdl_root_scan_err_extends(s, i + 1);
    } else {
        assert(s.take(i) == s);
    }
}

impl KdlToXmlConverter {
    /// A converter that pretty-prints with two spaces.
    pub fn new() -> (c: Self)
        ensures
            c.indent@ == "  "@,
            c.pretty,
    {
        Self { indent: "  ".to_string(), pretty: true }
    }

    /// Sets the indentation string for pretty printing.
    pub fn indent(self, value: &str) -> (c: Self)
        ensures
            c.indent@ == value@,
            c.pretty == self.pretty,
    {
        let mut s = self;
        s.indent = value.to_string();
        s
    }

    /// Sets whether to pretty-print.
    pub fn pretty(self, value: bool) -> (c: Self)
        ensures
            c.indent == self.indent,
            c.pretty == value,
    {
        let mut s = self;
        s.pretty = value;
        s
    }

    /// Converts KDL text to XML: the text must parse as KDL, and then it is
    /// converted as [`converted`] says of the document's nodes.
    pub fn convert(&self, kdl: &str) -> (res: Kdl2XmlResult<String>)
        ensures
            match kdl_parse(kdl@) {
                None => res matches Err(Kdl2XmlError::KdlParse(_)),
                Some(ns) => exists|ks: Seq<KN>| #[trigger] reads_match(ns, ks) && converted(*self, ks, res),
            },
    {
        let doc = match parse_kdl_document(kdl) {
            Ok(d) => d,
            Err(e) => {
                return Err(Kdl2XmlError::KdlParse(e));
            },
        };
        self.convert_document(&doc)
    }

    /// Converts a KDL document to XML, as [`converted`] says of its nodes.
    pub fn convert_document(&self, doc: &kdl::KdlDocument) -> (res: Kdl2XmlResult<String>)
        ensures
            exists|ks: Seq<KN>| #[trigger] reads_match(crate::kdl_api::kdl_document_nodes(*doc), ks)
                && converted(*self, ks, res),
    {
        let nodes = read_document(doc);
        let res = self.convert_nodes(&nodes);
        assert(reads_match(crate::kdl_api::kdl_document_nodes(*doc), knodes_view(nodes@))
            && converted(*self, knodes_view(nodes@), res));
        res
    }

    /// Converts the nodes of a document: checks the top level, collects the
    /// output steps of every node, and renders them.
    pub fn convert_nodes(&self, nodes: &Vec<KNode>) -> (res: Kdl2XmlResult<String>)
        ensures
            converted(*self, knodes_view(nodes@), res),
    {
        let ghost s = knodes_view(nodes@);
        proof { lemma_knodes_view(nodes@); }
        let mut element_count: usize = 0;
        let mut doctype_count: usize = 0;
        let mut seen_element = false;
        let mut i: usize = 0;
        assert(s.take(0) == Seq::<KN>::empty());
        while i < nodes.len()
            invariant
                i <= nodes.len(),
                s == knodes_view(nodes@),
                s.len() == nodes@.len(),
                forall|j: int| 0 <= j < nodes@.len() ==> #[trigger] s[j] == nodes@[j]@,
                element_count <= i,
                doctype_count <= 1,
                kdl_root_scan(s.take(i as int)) == Ok::<(nat, nat, bool), Seq<char>>(
                    (element_count as nat, doctype_count as nat, seen_element),
                ),
            decreases nodes.len() - i,
        {
            assert(s.take(i + 1).drop_last() == s.take(i as int));
            assert(s.take(i + 1).last() == s[i as int]);
            let name = nodes[i].name.as_str();
            if is_doctype_node(name) {
                doctype_count = doctype_count + 1;
                if doctype_count > 1 {
                    proof { lemma_kdl_root_scan_err_extends(s, i as int + 1); }
                    return Err(Kdl2XmlError::InvalidStructure(
                        "Multiple DOCTYPE declarations not allowed".to_string(),
                    ));
                }
                if seen_element {
                    proof { lemma_kdl_root_scan_err_extends(s, i as int + 1); }
                    return Err(Kdl2XmlError::InvalidStructure(
                        "DOCTYPE must appear before root element".to_string(),
                    ));
                }
            } else if is_pi_node(name) || is_comment_node(name) {
            } else if is_text_node(name) {
                proof { lemma_kdl_root_scan_err_extends(s, i as int + 1); }
                return Err(Kdl2XmlError::InvalidStructure(
                    "Text nodes (-) not allowed at document root".to_string(),
                ));
            } else {
                element_count = element_count + 1;
                seen_element = true;
            }
            i = i + 1;
        }
        assert(s.take(nodes.len() as int) == s);
        if element_count == 0 {
            return Err(Kdl2XmlError::InvalidStructure(
                "Document must contain exactly one root element".to_string(),
            ));
        }
        if element_count > 1 {
            let count = decimal_string(element_count);
            return Err(Kdl2XmlError::InvalidStructure(
                concat2("Document must contain exactly one root element, found ", count.as_str()),
            ));
        }
        let mut out: Vec<XmlOut> = Vec::new();
        let mut k: usize = 0;
        assert(s.subrange(0, 0) == Seq::<KN>::empty());
        assert(outs_view(out@) =~= Seq::<XO>::empty());
        assert(kdl_root_error(s) is None);
        while k < nodes.len()
            invariant
                kdl_root_error(s) is None,
                k <= nodes.len(),
                s == knodes_view(nodes@),
                s.len() == nodes@.len(),
                forall|j: int| 0 <= j < nodes@.len() ==> #[trigger] s[j] == nodes@[j]@,
                children_xml(s.subrange(0, k as int), self.pretty) == Ok::<Seq<XO>, Seq<char>>(outs_view(out@)),
            decreases nodes.len() - k,
        {
            let ghost p = s.subrange(0, k + 1);
            assert(p.subrange(0, k as int) == s.subrange(0, k as int));
            assert(p[k as int] == s[k as int]);
            match node_to_xml(&nodes[k], &mut out, self.pretty) {
                Ok(()) => {},
                Err(e) => {
                    proof { lemma_children_err(s, k as int + 1, self.pretty); }
                    return Err(e);
                },
            }
            k = k + 1;
        }
        assert(s.subrange(0, nodes.len() as int) == s);
        let indent = if self.pretty {
            Some(self.indent.as_str())
        } else {
            None
        };
        render_xml(&out, indent)
    }
}

/// Once a prefix of the nodes fails, the whole list fails the same way.
proof fn lemma_children_err(s: Seq<KN>, i: int, pretty: bool)
    requires
        0 <= i <= s.len(),
        children_xml(s.subrange(0, i), pretty) is Err,
    ensures
        children_xml(s, pretty) == children_xml(s.subrange(0, i), pretty),
    decreases s.len() - i,
{
    if i < s.len() {
        assert(s.subrange(0, i + 1).subrange(0, i) == s.subrange(0, i));
        lemma_children_err(s, i + 1, pretty);
    } else {
        assert(s.subrange(0, i) == s);
    }
}

} // verus!
