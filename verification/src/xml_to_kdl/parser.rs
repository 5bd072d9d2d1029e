//! Reading an XML document into a tree of [`XmlNode`]s.
//!
//! The reader of `quick_xml` hands out events one by one; each event is
//! turned into a [`TreeEvent`] of plain values, and the tree is grown from
//! those events by [`apply_event`], whose effect [`tree_step`] states.
use vstd::prelude::*;

use super::types::{
    attrs_view, lemma_nodes_view, lemma_nodes_view_eq, nodes_view, opt_view,
    XNode, XmlNode,
};
use crate::error::{Result, Xml2KdlError};
use crate::text::{
    chars_of, concat2, concat3, is_white_space, join_spaces, join_with_spaces, parts_view,
    string_from_chars, trim, trim_bounds, white_space, all_white, lemma_trim_exact,
};
use crate::xml_api::{
    attr_error_into, attribute_key_bytes, attribute_unescape_value, cdata_decode, decl_encoding,
    decl_standalone, decl_version, encoding_error_text, escape_error_text, general_ref_decode,
    next_attribute, pi_bytes, read_event, reader_keep_text, start_attributes, start_name_bytes,
    text_bytes, text_decode, utf8_str, xml_attribute_value, xml_attributes_left,
    xml_cdata_content, xml_decl_encoding, xml_decl_standalone, xml_decl_version, xml_pi_content,
    xml_ref_content, xml_start_attributes, xml_start_name, xml_text_content, xml_unescape,
    xml_unescaped, xml_decode_error_message, xml_encoding_error_text, xml_reader_ahead,
    xml_reader_untrimmed, xml_unescape_error_message, RawEvent,
};
use vstd::utf8::{decode_utf8, valid_utf8};

verus! {

broadcast use vstd::string::group_string_axioms;

/// What one XML event does to the tree being built.
pub enum TreeEvent {
    /// A start tag: an element is opened.
    Open(String, Vec<(String, String)>),
    /// An end tag: the innermost open element is closed.
    Close,
    /// An empty-element tag.
    Empty(String, Vec<(String, String)>),
    /// Text, CDATA or a resolved entity reference.
    Text(String),
    /// A comment that is kept.
    Comment(String),
    /// An XML declaration, with its content written back as `key="value"` pairs.
    Decl(Option<String>),
    /// A processing instruction: target and content.
    Pi(String, Option<String>),
    /// A DOCTYPE declaration.
    DocType(String),
}

/// The value of a [`TreeEvent`].
pub enum TEvent {
    Open(Seq<char>, Seq<(Seq<char>, Seq<char>)>),
    Close,
    Empty(Seq<char>, Seq<(Seq<char>, Seq<char>)>),
    Text(Seq<char>),
    Comment(Seq<char>),
    Decl(Option<Seq<char>>),
    Pi(Seq<char>, Option<Seq<char>>),
    DocType(Seq<char>),
}

impl View for TreeEvent {
    type V = TEvent;

    open spec fn view(&self) -> TEvent {
        match *self {
            TreeEvent::Open(n, a) => TEvent::Open(n@, attrs_view(a@)),
            TreeEvent::Close => TEvent::Close,
            TreeEvent::Empty(n, a) => TEvent::Empty(n@, attrs_view(a@)),
            TreeEvent::Text(t) => TEvent::Text(t@),
            TreeEvent::Comment(t) => TEvent::Comment(t@),
            TreeEvent::Decl(c) => TEvent::Decl(opt_view(c)),
            TreeEvent::Pi(t, c) => TEvent::Pi(t@, opt_view(c)),
            TreeEvent::DocType(t) => TEvent::DocType(t@),
        }
    }
}

/// An element that is open: its name, its attributes and its children so far.
pub type Frame = (Seq<char>, Seq<(Seq<char>, Seq<char>)>, Seq<XNode>);

/// The tree being built: the open elements, innermost last, and the
/// top-level nodes so far.
pub struct TreeState {
    pub stack: Seq<Frame>,
    pub roots: Seq<XNode>,
}

/// Places a node in the innermost open element, or at the top level.
pub open spec fn attach(st: TreeState, n: XNode) -> TreeState {
    if st.stack.len() == 0 {
        TreeState { roots: st.roots.push(n), ..st }
    } else {
        let top = st.stack.last();
        TreeState { stack: st.stack.drop_last().push((top.0, top.1, top.2.push(n))), ..st }
    }
}

/// The effect of one event: a start tag opens an element, an end tag closes
/// the innermost one and places it (an end tag with nothing open does
/// nothing); empty elements, comments and processing instructions are placed
/// where they stand; text goes into the innermost element and is dropped at
/// the top level; declarations and DOCTYPEs always go to the top level.
pub open spec fn tree_step(st: TreeState, ev: TEvent) -> TreeState {
    match ev {
        TEvent::Open(name, attrs) => TreeState { stack: st.stack.push((name, attrs, Seq::empty())), ..st },
        TEvent::Close => if st.stack.len() == 0 {
            st
        } else {
            let top = st.stack.last();
            attach(
                TreeState { stack: st.stack.drop_last(), ..st },
                XNode::Element { name: top.0, attributes: top.1, children: top.2 },
            )
        },
        TEvent::Empty(name, attrs) => attach(
            st,
            XNode::Element { name, attributes: attrs, children: Seq::empty() },
        ),
        TEvent::Text(t) => if st.stack.len() == 0 {
            st
        } else {
            attach(st, XNode::Text(t))
        },
        TEvent::Comment(t) => attach(st, XNode::Comment(t)),
        TEvent::Decl(c) => TreeState {
            roots: st.roots.push(XNode::ProcessingInstruction { target: "xml"@, content: c }),
            ..st
        },
        TEvent::Pi(t, c) => attach(st, XNode::ProcessingInstruction { target: t, content: c }),
        TEvent::DocType(t) => TreeState { roots: st.roots.push(XNode::DocType(t)), ..st },
    }
}

/// The tree after a sequence of events, from nothing open and no nodes.
pub open spec fn tree_after(evs: Seq<TEvent>) -> TreeState
    decreases evs.len(),
{
    if evs.len() == 0 {
        TreeState { stack: Seq::empty(), roots: Seq::empty() }
    } else {
        tree_step(tree_after(evs.drop_last()), evs.last())
    }
}

/// The top-level nodes that a complete sequence of events gives, or an error
/// when an element is left open.
pub open spec fn tree_of(evs: Seq<TEvent>) -> core::result::Result<Seq<XNode>, Seq<char>> {
    let st = tree_after(evs);
    if st.stack.len() == 0 {
        Ok(st.roots)
    } else {
        Err("Unclosed XML elements"@)
    }
}

/// An open element during parsing.
pub struct OpenElement {
    pub name: String,
    pub attributes: Vec<(String, String)>,
    pub children: Vec<XmlNode>,
}

pub open spec fn frame_view(f: OpenElement) -> Frame {
    (f.name@, attrs_view(f.attributes@), nodes_view(f.children@))
}

pub open spec fn stack_view(s: Seq<OpenElement>) -> Seq<Frame> {
    s.map_values(|f: OpenElement| frame_view(f))
}

/// Places `n` in the innermost open element, or at the top level.
fn attach_node(stack: &mut Vec<OpenElement>, roots: &mut Vec<XmlNode>, n: XmlNode)
    ensures
        ({
            let st = attach(TreeState { stack: stack_view(old(stack)@), roots: nodes_view(old(roots)@) }, n@);
            stack_view(final(stack)@) == st.stack && nodes_view(final(roots)@) == st.roots
        }),
{
    let ghost nv = n@;
    if stack.len() == 0 {
        let ghost before = roots@;
        roots.push(n);
        proof {
            lemma_nodes_view(before);
            lemma_nodes_view_eq(roots@, nodes_view(before).push(nv));
        }
    } else {
        let mut top = stack.pop().unwrap();
        let ghost before = top.children@;
        top.children.push(n);
        proof {
            lemma_nodes_view(before);
            lemma_nodes_view_eq(top.children@, nodes_view(before).push(nv));
        }
        stack.push(top);
        proof {
            assert(stack_view(stack@) =~= stack_view(old(stack)@).drop_last().push(
                (stack_view(old(stack)@).last().0, stack_view(old(stack)@).last().1,
                stack_view(old(stack)@).last().2.push(nv)),
            ));
        }
    }
}

/// Applies one event to the tree being built.
pub fn apply_event(stack: &mut Vec<OpenElement>, roots: &mut Vec<XmlNode>, ev: TreeEvent)
    ensures
        ({
            let st = tree_step(TreeState { stack: stack_view(old(stack)@), roots: nodes_view(old(roots)@) }, ev@);
            stack_view(final(stack)@) == st.stack && nodes_view(final(roots)@) == st.roots
        }),
{
    match ev {
        TreeEvent::Open(name, attributes) => {
            let ghost a = attrs_view(attributes@);
            let ghost nm = name@;
            let children: Vec<XmlNode> = Vec::new();
            proof { lemma_nodes_view(children@); }
            stack.push(OpenElement { name, attributes, children });
            assert(stack_view(stack@) =~= stack_view(old(stack)@).push((nm, a, Seq::empty())));
        },
        TreeEvent::Close => {
            if stack.len() > 0 {
                let top = stack.pop().unwrap();
                assert(stack_view(stack@) =~= stack_view(old(stack)@).drop_last());
                attach_node(
                    stack,
                    roots,
                    XmlNode::Element { name: top.name, attributes: top.attributes, children: top.children },
                );
            }
        },
        TreeEvent::Empty(name, attributes) => {
            let children: Vec<XmlNode> = Vec::new();
            proof { lemma_nodes_view(children@); }
            attach_node(stack, roots, XmlNode::Element { name, attributes, children });
        },
        TreeEvent::Text(t) => {
            if stack.len() > 0 {
                attach_node(stack, roots, XmlNode::Text(t));
            }
        },
        TreeEvent::Comment(t) => {
            attach_node(stack, roots, XmlNode::Comment(t));
        },
        TreeEvent::Decl(content) => {
            let ghost before = roots@;
            let n = XmlNode::ProcessingInstruction { target: "xml".to_string(), content };
            let ghost nv = n@;
            roots.push(n);
            proof {
                lemma_nodes_view(before);
                lemma_nodes_view_eq(roots@, nodes_view(before).push(nv));
            }
        },
        TreeEvent::Pi(target, content) => {
            attach_node(stack, roots, XmlNode::ProcessingInstruction { target, content });
        },
        TreeEvent::DocType(t) => {
            let ghost before = roots@;
            let n = XmlNode::DocType(t);
            let ghost nv = n@;
            roots.push(n);
            proof {
                lemma_nodes_view(before);
                lemma_nodes_view_eq(roots@, nodes_view(before).push(nv));
            }
        },
    }
}

// ---------------------------------------------------------------------------
// From reader events to tree events
// ---------------------------------------------------------------------------

/// The attributes of a start tag from the iterator's items: each key must be
/// UTF-8 and each value must unescape; `None` on the first failure.
pub open spec fn attrs_from_items(items: Seq<Option<(Seq<u8>, Seq<u8>)>>) -> Option<Seq<(Seq<char>, Seq<char>)>>
    decreases items.len(),
{
    if items.len() == 0 {
        Some(Seq::empty())
    } else {
        match items[0] {
            None => None,
            Some((k, raw)) => if !valid_utf8(k) {
                None
            } else {
                match xml_attribute_value(raw) {
                    None => None,
                    Some(v) => match attrs_from_items(items.drop_first()) {
                        None => None,
                        Some(rest) => Some(seq![(decode_utf8(k), v)] + rest),
                    },
                }
            },
        }
    }
}

pub open spec fn prepend_attrs(
    acc: Seq<(Seq<char>, Seq<char>)>,
    rest: Option<Seq<(Seq<char>, Seq<char>)>>,
) -> Option<Seq<(Seq<char>, Seq<char>)>> {
    match rest {
        Some(r) => Some(acc + r),
        None => None,
    }
}

/// Reads the attributes of a start tag (keys decoded, values unescaped).
pub fn parse_attributes(e: &quick_xml::events::BytesStart<'static>) -> (res: Result<Vec<(String, String)>>)
    ensures
        match attrs_from_items(xml_start_attributes(*e)) {
            Some(a) => res matches Ok(v) && attrs_view(v@) == a,
            None => res matches Err(x) && error_matches(attrs_error(xml_start_attributes(*e)), x),
        },
{
    let mut it = start_attributes(e);
    let ghost all = xml_start_attributes(*e);
    let mut attrs: Vec<(String, String)> = Vec::new();
    assert(attrs_view(attrs@) + Seq::empty() == Seq::<(Seq<char>, Seq<char>)>::empty());
    assert(prepend_attrs(attrs_view(attrs@), attrs_from_items(all)) == attrs_from_items(all));
    loop
        invariant
            all == xml_start_attributes(*e),
            prepend_attrs(attrs_view(attrs@), attrs_from_items(xml_attributes_left(it)))
                == attrs_from_items(all),
            attrs_from_items(all) is None ==> attrs_error(xml_attributes_left(it)) == attrs_error(all),
        decreases xml_attributes_left(it).len(),
    {
        let ghost left = xml_attributes_left(it);
        match next_attribute(&mut it) {
            None => {
                assert(left.len() == 0);
                assert(attrs_view(attrs@) + Seq::empty() == attrs_view(attrs@));
                return Ok(attrs);
            },
            Some(Err(err)) => {
                assert(attrs_from_items(left) is None);
                return Err(Xml2KdlError::XmlParse(attr_error_into(err)));
            },
            Some(Ok(a)) => {
                assert(left.drop_first() == xml_attributes_left(it));
                let key_bytes = attribute_key_bytes(&a);
                let key = match utf8_str(key_bytes.as_slice()) {
                    Ok(k) => k.to_string(),
                    Err(err) => {
                        return Err(Xml2KdlError::Utf8(err));
                    },
                };
                let value = match attribute_unescape_value(&a) {
                    Ok(v) => v,
                    Err(err) => {
                        return Err(Xml2KdlError::XmlParse(err));
                    },
                };
                let ghost before = attrs_view(attrs@);
                let ghost pair = (key@, value@);
                attrs.push((key, value));
                assert(attrs_view(attrs@) == before.push(pair));
                proof {
                    match attrs_from_items(xml_attributes_left(it)) {
                        Some(r) => {
                            assert(before + (seq![pair] + r) == attrs_view(attrs@) + r);
                        },
                        None => {},
                    }
                }
            },
        }
    }
}

/// The index of the first white-space character of `s`, if any.
pub open spec fn first_ws(s: Seq<char>, i: int) -> Option<int>
    decreases s.len() - i,
{
    if i < 0 || i >= s.len() {
        None
    } else if is_white_space(s[i]) {
        Some(i)
    } else {
        first_ws(s, i + 1)
    }
}

/// A processing instruction's text split into its target (up to the first
/// white space) and its content (the rest, trimmed; `None` when empty).
pub open spec fn pi_split(s: Seq<char>) -> (Seq<char>, Option<Seq<char>>) {
    match first_ws(s, 0) {
        Some(k) => {
            let rest = trim(s.subrange(k, s.len() as int));
            (s.subrange(0, k), if rest.len() == 0 { None } else { Some(rest) })
        },
        None => (s, None),
    }
}

fn split_pi(s: &str) -> (r: (String, Option<String>))
    ensures
        r.0@ == pi_split(s@).0,
        opt_view(r.1) == pi_split(s@).1,
{
    let v = chars_of(s);
    let mut k: usize = 0;
    while k < v.len() && !white_space(v[k])
        invariant
            v@ == s@,
            k <= v.len(),
            first_ws(s@, 0) == first_ws(s@, k as int),
        decreases v.len() - k,
    {
        k = k + 1;
    }
    if k == v.len() {
        assert(v@.subrange(0, k as int) == v@);
        return (string_from_chars(&v, 0, k), None);
    }
    let target = string_from_chars(&v, 0, k);
    let after = string_from_chars(&v, k, v.len());
    let rest_chars = chars_of(after.as_str());
    let (lo, hi) = trim_bounds(&rest_chars);
    if lo == hi {
        (target, None)
    } else {
        (target, Some(string_from_chars(&rest_chars, lo, hi)))
    }
}

/// Text of the form `key="value"` for a present part.
pub open spec fn decl_part(key: Seq<char>, v: Option<Seq<char>>) -> Seq<Seq<char>> {
    match v {
        Some(x) => seq![key + "=\""@ + x + "\""@],
        None => Seq::empty(),
    }
}

/// The content of an XML declaration as `version="..." encoding="..."
/// standalone="..."` for the parts that are present; `None` when none is.
pub open spec fn decl_content(
    version: Option<Seq<char>>,
    encoding: Option<Seq<char>>,
    standalone: Option<Seq<char>>,
) -> Option<Seq<char>> {
    let parts = decl_part("version"@, version) + decl_part("encoding"@, encoding) + decl_part(
        "standalone"@,
        standalone,
    );
    if parts.len() == 0 {
        None
    } else {
        Some(join_spaces(parts))
    }
}

/// Bytes read as UTF-8 text, when they are valid.
pub open spec fn utf8_text(b: Option<Seq<u8>>) -> Option<Seq<char>> {
    match b {
        Some(x) => if valid_utf8(x) {
            Some(decode_utf8(x))
        } else {
            None
        },
        None => None,
    }
}

fn optional_utf8(b: Option<Vec<u8>>) -> (r: Option<String>)
    ensures
        opt_view(r) == utf8_text(match b {
            Some(x) => Some(x@),
            None => None,
        }),
{
    match b {
        Some(x) => match utf8_str(x.as_slice()) {
            Ok(s) => Some(s.to_string()),
            Err(_) => None,
        },
        None => None,
    }
}

fn add_part(parts: &mut Vec<String>, key: &str, v: Option<String>)
    ensures
        parts_view(final(parts)@) == parts_view(old(parts)@) + decl_part(key@, opt_view(v)),
{
    match v {
        Some(x) => {
            let mut p = concat2(key, "=\"");
            p.append(x.as_str());
            p.append("\"");
            let ghost before = parts_view(parts@);
            let ghost pv = p@;
            parts.push(p);
            assert(parts_view(parts@) =~= before + seq![pv]);
        },
        None => {
            assert(parts_view(parts@) + Seq::<Seq<char>>::empty() == parts_view(parts@));
        },
    }
}

fn decl_event(e: &quick_xml::events::BytesDecl<'static>) -> (r: Option<String>)
    ensures
        opt_view(r) == decl_content(
            utf8_text(xml_decl_version(*e)),
            utf8_text(xml_decl_encoding(*e)),
            utf8_text(xml_decl_standalone(*e)),
        ),
{
    let version = optional_utf8(decl_version(e));
    let encoding = optional_utf8(decl_encoding(e));
    let standalone = optional_utf8(decl_standalone(e));
    let mut parts: Vec<String> = Vec::new();
    assert(parts_view(parts@) == Seq::<Seq<char>>::empty());
    add_part(&mut parts, "version", version);
    add_part(&mut parts, "encoding", encoding);
    add_part(&mut parts, "standalone", standalone);
    if parts.len() == 0 {
        None
    } else {
        Some(join_with_spaces(&parts))
    }
}

/// Which error an event that cannot be read gives: a UTF-8 error, an error
/// of the XML reader, or a structure error with the given message.
pub enum EventError {
    Utf8,
    Parse,
    Message(Seq<char>),
}

/// Whether `e` is the error that [`EventError`] `k` describes.
pub open spec fn error_matches(k: EventError, e: Xml2KdlError) -> bool {
    match k {
        EventError::Utf8 => e is Utf8,
        EventError::Parse => e is XmlParse,
        EventError::Message(m) => e matches Xml2KdlError::InvalidStructure(x) && x@ == m,
    }
}

/// The error for the first attribute that cannot be read: a malformed
/// attribute or a value that does not unescape is a reader error, a key that
/// is not UTF-8 a UTF-8 error.
pub open spec fn attrs_error(items: Seq<Option<(Seq<u8>, Seq<u8>)>>) -> EventError
    decreases items.len(),
{
    if items.len() == 0 {
        EventError::Parse
    } else {
        match items[0] {
            None => EventError::Parse,
            Some((k, raw)) => if !valid_utf8(k) {
                EventError::Utf8
            } else if xml_attribute_value(raw) is None {
                EventError::Parse
            } else {
                attrs_error(items.drop_first())
            },
        }
    }
}

/// The structure error for text that is not UTF-8.
pub open spec fn encoding_message(b: Seq<u8>) -> EventError {
    EventError::Message("Encoding error: "@ + xml_decode_error_message(b))
}

/// The structure error for text that does not unescape.
pub open spec fn unescape_message(t: Seq<char>) -> EventError {
    EventError::Message("Unescape error: "@ + xml_unescape_error_message(t))
}

/// The error of a reader event that cannot be read (see [`tree_event_of`]):
/// for a tag, a name that is not UTF-8 or its first bad attribute; for text,
/// CDATA and entity references, bytes that are not UTF-8 or text that does
/// not unescape; for comments, processing instructions and DOCTYPEs, bytes
/// that are not UTF-8.
pub open spec fn event_error(raw: RawEvent) -> EventError {
    match raw {
        RawEvent::Start(e) => if !valid_utf8(xml_start_name(e)) {
            EventError::Utf8
        } else {
            attrs_error(xml_start_attributes(e))
        },
        RawEvent::Empty(e) => if !valid_utf8(xml_start_name(e)) {
            EventError::Utf8
        } else {
            attrs_error(xml_start_attributes(e))
        },
        RawEvent::Text(e) => if !valid_utf8(xml_text_content(e)) {
            encoding_message(xml_text_content(e))
        } else {
            unescape_message(decode_utf8(xml_text_content(e)))
        },
        RawEvent::CData(e) => encoding_message(xml_cdata_content(e)),
        RawEvent::GeneralRef(e) => if !valid_utf8(xml_ref_content(e)) {
            encoding_message(xml_ref_content(e))
        } else {
            unescape_message("&"@ + decode_utf8(xml_ref_content(e)) + ";"@)
        },
        _ => EventError::Utf8,
    }
}

/// What a reader event becomes: `Some(None)` when it is skipped (a comment
/// that is dropped), `None` when its bytes cannot be read.
pub open spec fn tree_event_of(raw: RawEvent, comments_as_nodes: bool) -> Option<Option<TEvent>> {
    match raw {
        RawEvent::Start(e) => if !valid_utf8(xml_start_name(e)) {
            None
        } else {
            match attrs_from_items(xml_start_attributes(e)) {
                Some(a) => Some(Some(TEvent::Open(decode_utf8(xml_start_name(e)), a))),
                None => None,
            }
        },
        RawEvent::End => Some(Some(TEvent::Close)),
        RawEvent::Empty(e) => if !valid_utf8(xml_start_name(e)) {
            None
        } else {
            match attrs_from_items(xml_start_attributes(e)) {
                Some(a) => Some(Some(TEvent::Empty(decode_utf8(xml_start_name(e)), a))),
                None => None,
            }
        },
        RawEvent::Text(e) => if !valid_utf8(xml_text_content(e)) {
            None
        } else {
            match xml_unescaped(decode_utf8(xml_text_content(e))) {
                Some(t) => Some(Some(TEvent::Text(t))),
                None => None,
            }
        },
        RawEvent::CData(e) => if !valid_utf8(xml_cdata_content(e)) {
            None
        } else {
            Some(Some(TEvent::Text(decode_utf8(xml_cdata_content(e)))))
        },
        RawEvent::GeneralRef(e) => if !valid_utf8(xml_ref_content(e)) {
            None
        } else {
            match xml_unescaped("&"@ + decode_utf8(xml_ref_content(e)) + ";"@) {
                Some(t) => Some(Some(TEvent::Text(t))),
                None => None,
            }
        },
        RawEvent::Comment(e) => if !comments_as_nodes {
            Some(None)
        } else if !valid_utf8(xml_text_content(e)) {
            None
        } else {
            Some(Some(TEvent::Comment(decode_utf8(xml_text_content(e)))))
        },
        RawEvent::Decl(e) => Some(Some(TEvent::Decl(decl_content(
            utf8_text(xml_decl_version(e)),
            utf8_text(xml_decl_encoding(e)),
            utf8_text(xml_decl_standalone(e)),
        )))),
        RawEvent::PI(e) => if !valid_utf8(xml_pi_content(e)) {
            None
        } else {
            let p = pi_split(decode_utf8(xml_pi_content(e)));
            Some(Some(TEvent::Pi(p.0, p.1)))
        },
        RawEvent::DocType(e) => if !valid_utf8(xml_text_content(e)) {
            None
        } else {
            Some(Some(TEvent::DocType(trim(decode_utf8(xml_text_content(e))))))
        },
        RawEvent::Eof => Some(None),
    }
}

fn start_event(e: &quick_xml::events::BytesStart<'static>) -> (res: Result<(String, Vec<(String, String)>)>)
    ensures
        match res {
            Ok((n, a)) => valid_utf8(xml_start_name(*e)) && n@ == decode_utf8(xml_start_name(*e))
                && attrs_from_items(xml_start_attributes(*e)) == Some(attrs_view(a@)),
            Err(x) => (!valid_utf8(xml_start_name(*e)) && x is Utf8) || (valid_utf8(xml_start_name(*e))
                && attrs_from_items(xml_start_attributes(*e)) is None && error_matches(
                attrs_error(xml_start_attributes(*e)),
                x,
            )),
        },
{
    let name_bytes = start_name_bytes(e);
    let name = match utf8_str(name_bytes.as_slice()) {
        Ok(n) => n.to_string(),
        Err(err) => {
            return Err(Xml2KdlError::Utf8(err));
        },
    };
    let attrs = parse_attributes(e)?;
    Ok((name, attrs))
}

fn unescape_text(decoded: &str) -> (res: Result<String>)
    ensures
        match xml_unescaped(decoded@) {
            Some(t) => res matches Ok(s) && s@ == t,
            None => res matches Err(x) && error_matches(unescape_message(decoded@), x),
        },
{
    match xml_unescape(decoded) {
        Ok(t) => Ok(t),
        Err(err) => {
            let msg = escape_error_text(&err);
            Err(Xml2KdlError::InvalidStructure(concat2("Unescape error: ", msg.as_str())))
        },
    }
}

/// The error for text that cannot be decoded, with the decoder's message.
fn encoding_error(err: &quick_xml::encoding::EncodingError) -> (res: Xml2KdlError)
    ensures
        res matches Xml2KdlError::InvalidStructure(m) && m@ == "Encoding error: "@ + xml_encoding_error_text(*err),
{
    let msg = encoding_error_text(err);
    Xml2KdlError::InvalidStructure(concat2("Encoding error: ", msg.as_str()))
}

/// The tree event for one reader event (`Ok(None)` when it is skipped).
pub fn convert_event(raw: RawEvent, comments_as_nodes: bool) -> (res: Result<Option<TreeEvent>>)
    ensures
        match tree_event_of(raw, comments_as_nodes) {
            None => res matches Err(x) && error_matches(event_error(raw), x),
            Some(None) => res matches Ok(None),
            Some(Some(ev)) => res matches Ok(Some(t)) && t@ == ev,
        },
{
    match raw {
        RawEvent::Start(e) => {
            let (name, attrs) = start_event(&e)?;
            Ok(Some(TreeEvent::Open(name, attrs)))
        },
        RawEvent::End => Ok(Some(TreeEvent::Close)),
        RawEvent::Empty(e) => {
            let (name, attrs) = start_event(&e)?;
            Ok(Some(TreeEvent::Empty(name, attrs)))
        },
        RawEvent::Text(e) => {
            let decoded = match text_decode(&e) {
                Ok(d) => d,
                Err(err) => {
                    return Err(encoding_error(&err));
                },
            };
            let text = unescape_text(decoded.as_str())?;
            Ok(Some(TreeEvent::Text(text)))
        },
        RawEvent::CData(e) => {
            match cdata_decode(&e) {
                Ok(d) => Ok(Some(TreeEvent::Text(d))),
                Err(err) => Err(encoding_error(&err)),
            }
        },
        RawEvent::GeneralRef(e) => {
            let decoded = match general_ref_decode(&e) {
                Ok(d) => d,
                Err(err) => {
                    return Err(encoding_error(&err));
                },
            };
            let entity = concat3("&", decoded.as_str(), ";");
            let text = unescape_text(entity.as_str())?;
            Ok(Some(TreeEvent::Text(text)))
        },
        RawEvent::Comment(e) => {
            if comments_as_nodes {
                let bytes = text_bytes(&e);
                match utf8_str(bytes.as_slice()) {
                    Ok(c) => Ok(Some(TreeEvent::Comment(c.to_string()))),
                    Err(err) => Err(Xml2KdlError::Utf8(err)),
                }
            } else {
                Ok(None)
            }
        },
        RawEvent::Decl(e) => Ok(Some(TreeEvent::Decl(decl_event(&e)))),
        RawEvent::PI(e) => {
            let bytes = pi_bytes(&e);
            match utf8_str(bytes.as_slice()) {
                Ok(c) => {
                    let (target, content) = split_pi(c);
                    Ok(Some(TreeEvent::Pi(target, content)))
                },
                Err(err) => Err(Xml2KdlError::Utf8(err)),
            }
        },
        RawEvent::DocType(e) => {
            let bytes = text_bytes(&e);
            match utf8_str(bytes.as_slice()) {
                Ok(c) => {
                    let all = chars_of(c);
                    let (lo, hi) = trim_bounds(&all);
                    Ok(Some(TreeEvent::DocType(string_from_chars(&all, lo, hi))))
                },
                Err(err) => Err(Xml2KdlError::Utf8(err)),
            }
        },
        RawEvent::Eof => Ok(None),
    }
}

/// Why reading a document fails: the reader refused the input, an event's
/// bytes could not be read, or an element was left open.
pub enum ReadFault {
    Reader(quick_xml::Error),
    Event(EventError),
    Unclosed,
}

/// The top-level nodes that reading gives, from the reader outcomes `outs`
/// when the tree events `evs` have been read already: events are read in
/// order and grow the tree (see [`tree_event_of`], [`tree_of`]) until `Eof`;
/// a reader error or an event that cannot be read stops it.
pub open spec fn read_outcome(outs: Seq<core::result::Result<RawEvent, quick_xml::Error>>, comments_as_nodes: bool, evs: Seq<TEvent>) -> core::result::Result<Seq<XNode>, ReadFault>
    decreases outs.len(),
{
    if outs.len() == 0 || outs[0] matches Ok(RawEvent::Eof) {
        match tree_of(evs) {
            Ok(ns) => Ok(ns),
            Err(_) => Err(ReadFault::Unclosed),
        }
    } else {
        match outs[0] {
            Err(e) => Err(ReadFault::Reader(e)),
            Ok(raw) => match tree_event_of(raw, comments_as_nodes) {
                None => Err(ReadFault::Event(event_error(raw))),
                Some(None) => read_outcome(outs.drop_first(), comments_as_nodes, evs),
                Some(Some(ev)) => read_outcome(outs.drop_first(), comments_as_nodes, evs.push(ev)),
            },
        }
    }
}

/// Whether `res` is what reading gives when [`read_outcome`] is `o`: the
/// nodes, the reader's error, the error of an event that cannot be read,
/// or the error for an open element.
pub open spec fn read_result(o: core::result::Result<Seq<XNode>, ReadFault>, res: Result<Vec<XmlNode>>) -> bool {
    match o {
        Ok(ns) => res matches Ok(nodes) && nodes_view(nodes@) == ns,
        Err(ReadFault::Reader(e)) => res matches Err(Xml2KdlError::XmlParse(x)) && x == e,
        Err(ReadFault::Event(k)) => res matches Err(x) && error_matches(k, x),
        Err(ReadFault::Unclosed) => res matches Err(Xml2KdlError::InvalidStructure(m)) && m@
            == "Unclosed XML elements"@,
    }
}

/// Reads an XML document into its top-level nodes. Text is kept as it
/// stands; comments are kept only with `comments_as_nodes`. The nodes are
/// those that the events the reader hands out give (see [`read_outcome`]);
/// an element left open is an error.
pub fn parse_xml_to_tree(reader: quick_xml::Reader<&[u8]>, comments_as_nodes: bool) -> (res: Result<Vec<XmlNode>>)
    ensures
        read_result(read_outcome(xml_reader_untrimmed(reader), comments_as_nodes, Seq::empty()), res),
{
    let ghost target = read_outcome(xml_reader_untrimmed(reader), comments_as_nodes, Seq::empty());
    let mut rd = reader;
    reader_keep_text(&mut rd);
    let mut stack: Vec<OpenElement> = Vec::new();
    let mut roots: Vec<XmlNode> = Vec::new();
    let mut buf: Vec<u8> = Vec::new();
    let ghost mut evs: Seq<TEvent> = Seq::empty();
    proof { lemma_nodes_view(roots@); }
    assert(stack_view(stack@) =~= Seq::<Frame>::empty());
    loop
        invariant_except_break
            read_outcome(xml_reader_ahead(rd), comments_as_nodes, evs) == target,
        invariant
            target == read_outcome(xml_reader_untrimmed(reader), comments_as_nodes, Seq::empty()),
            stack_view(stack@) == tree_after(evs).stack,
            nodes_view(roots@) == tree_after(evs).roots,
        ensures
            target == match tree_of(evs) {
                Ok(ns) => Ok(ns),
                Err(_) => Err::<Seq<XNode>, ReadFault>(ReadFault::Unclosed),
            },
        decreases xml_reader_ahead(rd).len(),
    {
        let ghost outs = xml_reader_ahead(rd);
        let raw = match read_event(&mut rd, &mut buf) {
            Ok(r) => r,
            Err(e) => {
                assert(target == Err::<Seq<XNode>, ReadFault>(ReadFault::Reader(e)));
                let res = Err(Xml2KdlError::XmlParse(e));
                assert(read_result(target, res));
                return res;
            },
        };
        if let RawEvent::Eof = raw {
            break;
        }
        let ghost raw_v = raw;
        let converted = convert_event(raw, comments_as_nodes);
        let step = match converted {
            Ok(st) => st,
            Err(err) => {
                assert(tree_event_of(raw_v, comments_as_nodes) is None);
                assert(target == Err::<Seq<XNode>, ReadFault>(ReadFault::Event(event_error(raw_v))));
                return Err(err);
            },
        };
        match step {
            Some(ev) => {
                let ghost evv = ev@;
                apply_event(&mut stack, &mut roots, ev);
                proof {
                    let next = evs.push(evv);
                    assert(next.drop_last() == evs);
                    evs = next;
                }
            },
            None => {},
        }
        buf.clear();
    }
    if stack.len() > 0 {
        return Err(Xml2KdlError::InvalidStructure("Unclosed XML elements".to_string()));
    }
    assert(tree_of(evs) == Ok::<Seq<XNode>, Seq<char>>(nodes_view(roots@)));
    Ok(roots)
}

// ---------------------------------------------------------------------------
// Comments kept or dropped
// ---------------------------------------------------------------------------

/// A node with every comment under it removed.
pub open spec fn strip_comments(n: XNode) -> XNode
    decreases n, 1nat,
{
    match n {
        XNode::Element { name, attributes, children } => XNode::Element {
            name,
            attributes,
            children: strip_comments_seq(children),
        },
        _ => n,
    }
}

/// The nodes of `s` without the comments among them, each with the comments under it removed.
pub open spec fn strip_comments_seq(s: Seq<XNode>) -> Seq<XNode>
    decreases s, 0nat,
{
    if s.len() == 0 {
        Seq::empty()
    } else {
        let k = s.len() - 1;
        strip_comments_seq(s.subrange(0, k)) + if s[k] is Comment {
            Seq::empty()
        } else {
            seq![strip_comments(s[k])]
        }
    }
}

/// Whether there is no comment in `n`, at any depth.
pub open spec fn comment_free(n: XNode) -> bool
    decreases n, 1nat,
{
    match n {
        XNode::Element { children, .. } => comment_free_seq(children),
        XNode::Comment(_) => false,
        _ => true,
    }
}

/// Whether there is no comment in the nodes of `s`, at any depth.
pub open spec fn comment_free_seq(s: Seq<XNode>) -> bool
    decreases s, 0nat,
{
    s.len() > 0 ==> comment_free_seq(s.subrange(0, s.len() - 1)) && comment_free(s[s.len() - 1])
}

/// The tree events without the comments.
pub open spec fn without_comment_events(evs: Seq<TEvent>) -> Seq<TEvent>
    decreases evs.len(),
{
    if evs.len() == 0 {
        Seq::empty()
    } else {
        without_comment_events(evs.drop_last()) + if evs.last() is Comment {
            Seq::empty()
        } else {
            seq![evs.last()]
        }
    }
}

pub open spec fn strip_frame(f: Frame) -> Frame {
    (f.0, f.1, strip_comments_seq(f.2))
}

pub open spec fn strip_state(st: TreeState) -> TreeState {
    TreeState { stack: st.stack.map_values(|f: Frame| strip_frame(f)), roots: strip_comments_seq(st.roots) }
}

proof fn lemma_strip_push(s: Seq<XNode>, x: XNode)
    ensures
        strip_comments_seq(s.push(x)) == strip_comments_seq(s) + if x is Comment {
            Seq::<XNode>::empty()
        } else {
            seq![strip_comments(x)]
        },
{
    assert(s.push(x).subrange(0, s.len() as int) == s);
    assert(s.push(x)[s.len() as int] == x);
}

proof fn lemma_strip_free(n: XNode)
    requires
        !(n is Comment),
    ensures
        comment_free(strip_comments(n)),
    decreases n, 1nat,
{
    match n {
        XNode::Element { children, .. } => lemma_strip_seq_free(children),
        _ => {},
    }
}

proof fn lemma_strip_seq_free(s: Seq<XNode>)
    ensures
        comment_free_seq(strip_comments_seq(s)),
    decreases s, 0nat,
{
    if s.len() > 0 {
        let k = s.len() - 1;
        lemma_strip_seq_free(s.subrange(0, k));
        let front = strip_comments_seq(s.subrange(0, k));
        if !(s[k] is Comment) {
            lemma_strip_free(s[k]);
            let r = front + seq![strip_comments(s[k])];
            assert(r.subrange(0, r.len() - 1) == front);
            assert(r[r.len() - 1] == strip_comments(s[k]));
        } else {
            assert(front + Seq::<XNode>::empty() == front);
        }
    }
}

/// Placing a node that is not a comment commutes with removing the comments.
proof fn lemma_strip_attach(st: TreeState, n: XNode)
    requires
        !(n is Comment),
    ensures
        strip_state(attach(st, n)) == attach(strip_state(st), strip_comments(n)),
{
    lemma_strip_push(st.roots, n);
    let ss = strip_state(st);
    if st.stack.len() == 0 {
        assert(strip_comments_seq(st.roots) + seq![strip_comments(n)] =~= ss.roots.push(strip_comments(n)));
        assert(strip_state(attach(st, n)).stack =~= attach(ss, strip_comments(n)).stack);
    } else {
        let top = st.stack.last();
        lemma_strip_push(top.2, n);
        let newtop = (top.0, top.1, top.2.push(n));
        let top2 = ss.stack.last();
        assert(top2 == strip_frame(top));
        let newtop2 = (top2.0, top2.1, top2.2.push(strip_comments(n)));
        assert(strip_comments_seq(top.2) + seq![strip_comments(n)] =~= strip_comments_seq(top.2).push(
            strip_comments(n),
        ));
        assert(strip_frame(newtop) == newtop2);
        let a = strip_state(attach(st, n));
        let b = attach(ss, strip_comments(n));
        assert(a.stack.len() == b.stack.len());
        assert forall|i: int| 0 <= i < a.stack.len() implies a.stack[i] == b.stack[i] by {
            if i < a.stack.len() - 1 {
                assert(a.stack[i] == strip_frame(st.stack[i]));
                assert(b.stack[i] == ss.stack[i]);
            }
        }
        assert(a.stack =~= b.stack);
    }
}

/// Placing a comment changes nothing once the comments are removed.
proof fn lemma_strip_attach_comment(st: TreeState, t: Seq<char>)
    ensures
        strip_state(attach(st, XNode::Comment(t))) == strip_state(st),
{
    let c = XNode::Comment(t);
    if st.stack.len() == 0 {
        lemma_strip_push(st.roots, c);
        assert(strip_comments_seq(st.roots) + Seq::<XNode>::empty() == strip_comments_seq(st.roots));
        assert(strip_state(attach(st, c)).stack =~= strip_state(st).stack);
    } else {
        let top = st.stack.last();
        lemma_strip_push(top.2, c);
        assert(strip_comments_seq(top.2) + Seq::<XNode>::empty() == strip_comments_seq(top.2));
        assert(strip_state(attach(st, c)).stack =~= strip_state(st).stack);
    }
}

/// Growing the tree from the events without the comments gives the tree
/// grown from all of them, with the comments removed.
proof fn lemma_tree_without_comments(evs: Seq<TEvent>)
    ensures
        tree_after(without_comment_events(evs)) == strip_state(tree_after(evs)),
    decreases evs.len(),
{
    if evs.len() == 0 {
        assert(strip_state(tree_after(evs)).stack =~= Seq::<Frame>::empty());
        assert(strip_comments_seq(Seq::<XNode>::empty()) == Seq::<XNode>::empty());
    } else {
        let front = evs.drop_last();
        let ev = evs.last();
        lemma_tree_without_comments(front);
        let st = tree_after(front);
        let f = without_comment_events(front);
        match ev {
            TEvent::Comment(t) => {
                assert(without_comment_events(evs) == f + Seq::<TEvent>::empty());
                assert(f + Seq::<TEvent>::empty() == f);
                lemma_strip_attach_comment(st, t);
                assert(tree_after(without_comment_events(evs)) == tree_after(f));
            },
            _ => {
                assert(without_comment_events(evs) == f + seq![ev]);
                assert((f + seq![ev]).drop_last() == f);
                assert((f + seq![ev]).last() == ev);
                let ss = strip_state(st);
                assert(tree_after(without_comment_events(evs)) == tree_step(ss, ev));
                match ev {
                    TEvent::Open(name, attrs) => {
                        assert(strip_frame((name, attrs, Seq::empty())) == (name, attrs, Seq::<XNode>::empty()));
                        assert(strip_state(tree_step(st, ev)).stack =~= tree_step(ss, ev).stack);
                    },
                    TEvent::Close => {
                        if st.stack.len() > 0 {
                            let top = st.stack.last();
                            let rest = TreeState { stack: st.stack.drop_last(), ..st };
                            let el = XNode::Element { name: top.0, attributes: top.1, children: top.2 };
                            lemma_strip_attach(rest, el);
                            assert(strip_state(rest).stack =~= ss.stack.drop_last());
                            assert(ss.stack.last() == strip_frame(top));
                        } else {
                            assert(ss.stack.len() == 0);
                        }
                    },
                    TEvent::Empty(name, attrs) => {
                        let el = XNode::Element { name, attributes: attrs, children: Seq::empty() };
                        lemma_strip_attach(st, el);
                        assert(strip_comments_seq(Seq::<XNode>::empty()) == Seq::<XNode>::empty());
                    },
                    TEvent::Text(t) => {
                        if st.stack.len() > 0 {
                            lemma_strip_attach(st, XNode::Text(t));
                        }
                    },
                    TEvent::Decl(c) => {
                        let x = XNode::ProcessingInstruction { target: "xml"@, content: c };
                        lemma_strip_push(st.roots, x);
                        assert(strip_comments_seq(st.roots) + seq![x] =~= ss.roots.push(x));
                    },
                    TEvent::Pi(t, c) => {
                        lemma_strip_attach(st, XNode::ProcessingInstruction { target: t, content: c });
                    },
                    TEvent::DocType(t) => {
                        lemma_strip_push(st.roots, XNode::DocType(t));
                        assert(strip_comments_seq(st.roots) + seq![XNode::DocType(t)] =~= ss.roots.push(
                            XNode::DocType(t),
                        ));
                    },
                    TEvent::Comment(_) => {},
                }
                assert(strip_state(tree_step(st, ev)) == tree_step(ss, ev));
            },
        }
    }
}

/// Reading with comments kept and with comments dropped, from the same
/// outcomes, after events that agree but for the comments.
proof fn lemma_read_with_and_without_comments(outs: Seq<core::result::Result<RawEvent, quick_xml::Error>>, ea: Seq<TEvent>, eb: Seq<TEvent>)
    requires
        eb == without_comment_events(ea),
    ensures
        read_outcome(outs, true, ea) matches Ok(a) ==> read_outcome(outs, false, eb) == Ok::<Seq<XNode>, ReadFault>(strip_comments_seq(a)),
        read_outcome(outs, true, ea) matches Err(ReadFault::Reader(e)) ==> read_outcome(outs, false, eb) == Err::<Seq<XNode>, ReadFault>(ReadFault::Reader(e)),
        read_outcome(outs, true, ea) matches Err(ReadFault::Unclosed) ==> read_outcome(outs, false, eb) matches Err(ReadFault::Unclosed),
    decreases outs.len(),
{
    if outs.len() == 0 || outs[0] matches Ok(RawEvent::Eof) {
        lemma_tree_without_comments(ea);
    } else {
        match outs[0] {
            Err(_) => {},
            Ok(raw) => {
                match raw {
                    RawEvent::Comment(e) => {
                        if tree_event_of(raw, true) is Some {
                            let c = TEvent::Comment(decode_utf8(xml_text_content(e)));
                            assert(ea.push(c).drop_last() == ea);
                            assert(ea.push(c).last() == c);
                            assert(without_comment_events(ea.push(c)) == eb + Seq::<TEvent>::empty());
                            assert(eb + Seq::<TEvent>::empty() == eb);
                            lemma_read_with_and_without_comments(outs.drop_first(), ea.push(c), eb);
                        }
                    },
                    _ => {
                        assert(tree_event_of(raw, true) == tree_event_of(raw, false));
                        match tree_event_of(raw, true) {
                            Some(Some(ev)) => {
                                assert(!(ev is Comment));
                                assert(ea.push(ev).drop_last() == ea);
                                assert(ea.push(ev).last() == ev);
                                assert(without_comment_events(ea.push(ev)) == eb + seq![ev]);
                                assert(eb + seq![ev] == eb.push(ev));
                                lemma_read_with_and_without_comments(outs.drop_first(), ea.push(ev), eb.push(ev));
                            },
                            Some(None) => {
                                lemma_read_with_and_without_comments(outs.drop_first(), ea, eb);
                            },
                            None => {},
                        }
                    },
                }
            },
        }
    }
}

/// Reading with comments dropped gives no comment, at any depth.
proof fn lemma_read_without_comments_free(outs: Seq<core::result::Result<RawEvent, quick_xml::Error>>, eb: Seq<TEvent>)
    requires
        without_comment_events(eb) == eb,
    ensures
        read_outcome(outs, false, eb) matches Ok(b) ==> comment_free_seq(b),
    decreases outs.len(),
{
    if outs.len() == 0 || outs[0] matches Ok(RawEvent::Eof) {
        lemma_tree_without_comments(eb);
        lemma_strip_seq_free(tree_after(eb).roots);
    } else {
        match outs[0] {
            Err(_) => {},
            Ok(raw) => match tree_event_of(raw, false) {
                Some(Some(ev)) => {
                    assert(!(ev is Comment));
                    assert(eb.push(ev).drop_last() == eb);
                    assert(eb.push(ev).last() == ev);
                    assert(without_comment_events(eb.push(ev)) == eb + seq![ev]);
                    assert(eb + seq![ev] == eb.push(ev));
                    lemma_read_without_comments_free(outs.drop_first(), eb.push(ev));
                },
                Some(None) => {
                    lemma_read_without_comments_free(outs.drop_first(), eb);
                },
                None => {},
            },
        }
    }
}

/// Keeping comments only adds comment nodes: from the same reader outcomes,
/// when reading with comments kept succeeds, reading with comments dropped
/// gives the same nodes with every comment removed; a reader error or an
/// element left open is met the same way by both; and reading with comments
/// dropped never gives a comment.
pub proof fn lemma_comments_only_add_comment_nodes(outs: Seq<core::result::Result<RawEvent, quick_xml::Error>>)
    ensures
        read_outcome(outs, true, Seq::empty()) matches Ok(a) ==> read_outcome(outs, false, Seq::empty())
            == Ok::<Seq<XNode>, ReadFault>(strip_comments_seq(a)),
        read_outcome(outs, true, Seq::empty()) matches Err(ReadFault::Reader(e)) ==> read_outcome(
            outs,
            false,
            Seq::empty(),
        ) == Err::<Seq<XNode>, ReadFault>(ReadFault::Reader(e)),
        read_outcome(outs, true, Seq::empty()) matches Err(ReadFault::Unclosed) ==> read_outcome(
            outs,
            false,
            Seq::empty(),
        ) matches Err(ReadFault::Unclosed),
        read_outcome(outs, false, Seq::empty()) matches Ok(b) ==> comment_free_seq(b),
{
    assert(without_comment_events(Seq::<TEvent>::empty()) == Seq::<TEvent>::empty());
    lemma_read_with_and_without_comments(outs, Seq::empty(), Seq::empty());
    lemma_read_without_comments_free(outs, Seq::empty());
}

// ---------------------------------------------------------------------------
// DOCTYPE declarations
// ---------------------------------------------------------------------------

/// A DOCTYPE declaration is kept whole: its text, split as white space, the
/// declaration proper (not starting or ending with white space) and white
/// space, becomes the DOCTYPE event of the declaration proper, whatever it
/// holds (public and system identifiers, an internal subset).
pub proof fn lemma_doctype_kept_whole(
    e: quick_xml::events::BytesText<'static>,
    comments_as_nodes: bool,
    w1: Seq<char>,
    body: Seq<char>,
    w2: Seq<char>,
)
    requires
        valid_utf8(xml_text_content(e)),
        decode_utf8(xml_text_content(e)) == w1 + body + w2,
        all_white(w1),
        all_white(w2),
        body.len() == 0 || (!is_white_space(body[0]) && !is_white_space(body.last())),
    ensures
        tree_event_of(RawEvent::DocType(e), comments_as_nodes) == Some(Some(TEvent::DocType(body))),
{
    lemma_trim_exact(w1, body, w2);
}

} // verus!
