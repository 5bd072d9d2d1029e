//! What each kind of KDL node writes: a list of XML output events.
use vstd::prelude::*;

use super::model::{entry_view, knodes_view, lemma_knodes_view, KNode, KValue, KE, KN, KV};
use super::node_types::{
    first_argument, get_first_argument, get_text_argument, has_child_nodes, has_children_nodes,
    has_properties, has_props, is_comment_name, is_comment_node, is_doctype_name,
    is_doctype_node, is_pi_name, is_pi_node, is_text_name, is_text_node, text_argument,
};
use super::validation::{doctype_error, validate_doctype_content};
use crate::error::Kdl2XmlError;
use crate::text::{
    chars_of, concat2, concat3, decimal, decimal_string, join_spaces, join_with_spaces,
    occurs_at, parts_view, push_char, replace, replace_all, str_eq, string_from_chars,
};
use crate::validation::{name_error, validate_xml_name};

verus! {

broadcast use vstd::string::group_string_axioms;

/// One step of XML output.
pub enum XmlOut {
    /// Text written as it stands.
    Raw(String),
    /// An XML declaration: version, encoding, standalone.
    Decl(String, Option<String>, Option<String>),
    /// Character data, escaped by the writer.
    Text(String),
    /// A start tag with its attributes (values escaped by the writer).
    Start(String, Vec<(String, String)>),
    /// An empty-element tag with its attributes.
    Empty(String, Vec<(String, String)>),
    /// An end tag.
    End(String),
}

/// The value of an [`XmlOut`].
pub enum XO {
    Raw(Seq<char>),
    Decl(Seq<char>, Option<Seq<char>>, Option<Seq<char>>),
    Text(Seq<char>),
    Start(Seq<char>, Seq<(Seq<char>, Seq<char>)>),
    Empty(Seq<char>, Seq<(Seq<char>, Seq<char>)>),
    End(Seq<char>),
}

pub open spec fn pairs_view(a: Seq<(String, String)>) -> Seq<(Seq<char>, Seq<char>)> {
    a.map_values(|p: (String, String)| (p.0@, p.1@))
}

pub open spec fn opt_str(o: Option<String>) -> Option<Seq<char>> {
    match o {
        Some(s) => Some(s@),
        None => None,
    }
}

pub open spec fn out_view(e: XmlOut) -> XO {
    match e {
        XmlOut::Raw(s) => XO::Raw(s@),
        XmlOut::Decl(v, e, s) => XO::Decl(v@, opt_str(e), opt_str(s)),
        XmlOut::Text(t) => XO::Text(t@),
        XmlOut::Start(n, a) => XO::Start(n@, pairs_view(a@)),
        XmlOut::Empty(n, a) => XO::Empty(n@, pairs_view(a@)),
        XmlOut::End(n) => XO::End(n@),
    }
}

pub open spec fn outs_view(v: Seq<XmlOut>) -> Seq<XO> {
    v.map_values(|e: XmlOut| out_view(e))
}

/// A newline after the node when pretty-printing.
pub open spec fn nl(pretty: bool) -> Seq<XO> {
    if pretty {
        seq![XO::Raw("\n"@)]
    } else {
        Seq::empty()
    }
}

fn emit(out: &mut Vec<XmlOut>, e: XmlOut)
    ensures
        outs_view(final(out)@) == outs_view(old(out)@).push(out_view(e)),
{
    let ghost v = out_view(e);
    out.push(e);
    assert(outs_view(out@) =~= outs_view(old(out)@).push(v));
}

fn emit_newline(out: &mut Vec<XmlOut>, pretty: bool)
    ensures
        outs_view(final(out)@) == outs_view(old(out)@) + nl(pretty),
{
    if pretty {
        emit(out, XmlOut::Raw("\n".to_string()));
        assert(outs_view(old(out)@).push(XO::Raw("\n"@)) == outs_view(old(out)@) + nl(pretty));
    } else {
        assert(outs_view(old(out)@) + nl(pretty) == outs_view(old(out)@));
    }
}

// ---------------------------------------------------------------------------
// DOCTYPE
// ---------------------------------------------------------------------------

/// A DOCTYPE node writes `<!DOCTYPE content>` for its first argument, which
/// must pass [`doctype_error`].
pub open spec fn doctype_xml(n: KN, pretty: bool) -> Result<Seq<XO>, Seq<char>> {
    match first_argument(n) {
        Err(m) => Err(m),
        Ok(c) => match doctype_error(c) {
            Some(m) => Err(m),
            None => Ok(seq![XO::Raw("<!DOCTYPE "@ + c + ">"@)] + nl(pretty)),
        },
    }
}

/// Writes a DOCTYPE declaration.
pub fn write_doctype(node: &KNode, out: &mut Vec<XmlOut>, pretty: bool) -> (res: Result<(), Kdl2XmlError>)
    ensures
        match doctype_xml(node@, pretty) {
            Ok(evs) => res is Ok && outs_view(final(out)@) == outs_view(old(out)@) + evs,
            Err(m) => res matches Err(Kdl2XmlError::InvalidStructure(e)) && e@ == m && final(out)@ == old(out)@,
        },
{
    let content = get_first_argument(node)?;
    validate_doctype_content(content.as_str())?;
    let doctype = concat3("<!DOCTYPE ", content.as_str(), ">");
    emit(out, XmlOut::Raw(doctype));
    emit_newline(out, pretty);
    proof {
        let a = outs_view(old(out)@);
        assert(a.push(XO::Raw("<!DOCTYPE "@ + content@ + ">"@)) + nl(pretty) =~= a + (seq![
            XO::Raw("<!DOCTYPE "@ + content@ + ">"@),
        ] + nl(pretty)));
    }
    Ok(())
}

// ---------------------------------------------------------------------------
// Processing instructions
// ---------------------------------------------------------------------------

/// The index of the last property whose name has the value `key`.
pub open spec fn last_keyed(es: Seq<KE>, key: Seq<char>) -> Option<int>
    decreases es.len(),
{
    if es.len() == 0 {
        None
    } else if es.last().key == Some(key) {
        Some(es.len() - 1)
    } else {
        last_keyed(es.drop_last(), key)
    }
}

/// The string value of the property `key` (the last one of that name), as `KdlNode::get` finds it.
pub open spec fn get_str(n: KN, key: Seq<char>) -> Option<Seq<char>> {
    match last_keyed(n.entries, key) {
        Some(i) => match n.entries[i].value {
            KV::Str(s) => Some(s),
            KV::Other(_) => None,
        },
        None => None,
    }
}

/// `key="value"` for each property with a string value, the value's `"`
/// written `&quot;` and its `?>` written `? >`.
pub open spec fn prop_parts(es: Seq<KE>) -> Seq<Seq<char>>
    decreases es.len(),
{
    if es.len() == 0 {
        Seq::empty()
    } else {
        prop_parts(es.drop_last()) + match (es.last().name, es.last().value) {
            (Some(nm), KV::Str(v)) => seq![
                nm + "=\""@ + replace_all(replace_all(v, "\""@, "&quot;"@), "?>"@, "? >"@) + "\""@,
            ],
            _ => Seq::empty(),
        }
    }
}

/// The content of a processing instruction: its properties as attribute
/// text, or else its first argument with `?>` written `? >`, or else nothing.
pub open spec fn pi_content(n: KN) -> Seq<char> {
    if has_props(n) {
        join_spaces(prop_parts(n.entries))
    } else {
        match first_argument(n) {
            Ok(a) => replace_all(a, "?>"@, "? >"@),
            Err(_) => Seq::empty(),
        }
    }
}

/// The target of a processing instruction: its node name without the first character.
pub open spec fn pi_target(n: KN) -> Seq<char> {
    if n.name.len() == 0 {
        Seq::empty()
    } else {
        n.name.drop_first()
    }
}

/// A processing-instruction node writes an XML declaration when its target
/// is `xml` and it has a string `version`, `encoding` or `standalone`
/// property (version `1.0` when absent); otherwise `<?target content?>`.
pub open spec fn pi_xml(n: KN, pretty: bool) -> Result<Seq<XO>, Seq<char>> {
    let target = pi_target(n);
    if target.len() == 0 {
        Err("Processing instruction target name cannot be empty"@)
    } else {
        match name_error(target, "processing instruction target"@) {
            Some(m) => Err(m),
            None => if target == "xml"@ && (get_str(n, "version"@) is Some || get_str(n, "encoding"@) is Some
                || get_str(n, "standalone"@) is Some) {
                Ok(seq![
                    XO::Decl(
                        match get_str(n, "version"@) {
                            Some(v) => v,
                            None => "1.0"@,
                        },
                        get_str(n, "encoding"@),
                        get_str(n, "standalone"@),
                    ),
                ] + nl(pretty))
            } else {
                let content = pi_content(n);
                Ok(seq![
                    XO::Raw(
                        if content.len() == 0 {
                            "<?"@ + target + "?>"@
                        } else {
                            "<?"@ + target + " "@ + content + "?>"@
                        },
                    ),
                ] + nl(pretty))
            },
        }
    }
}

proof fn lemma_last_keyed(es: Seq<KE>, key: Seq<char>, i: int)
    requires
        0 <= i < es.len(),
        es[i].key == Some(key),
        forall|j: int| i < j < es.len() ==> (#[trigger] es[j]).key != Some(key),
    ensures
        last_keyed(es, key) == Some(i),
    decreases es.len(),
{
    if i < es.len() - 1 {
        assert(es.last() == es[es.len() - 1]);
        let f = es.drop_last();
        assert forall|j: int| i < j < f.len() implies (#[trigger] f[j]).key != Some(key) by {
            assert(f[j] == es[j]);
        }
        lemma_last_keyed(f, key, i);
    }
}

/// The XML declaration that a `?xml` node writes when its property `key`
/// (the last of that name) is the string `v`.
proof fn lemma_xml_decl_written(n: KN, pretty: bool, key: Seq<char>, i: int, v: Seq<char>)
    requires
        n.name == "?xml"@,
        key == "version"@ || key == "encoding"@ || key == "standalone"@,
        0 <= i < n.entries.len(),
        n.entries[i].key == Some(key),
        n.entries[i].value == KV::Str(v),
        forall|j: int| i < j < n.entries.len() ==> (#[trigger] n.entries[j]).key != Some(key),
    ensures
        get_str(n, key) == Some(v),
        pi_xml(n, pretty) == Ok::<Seq<XO>, Seq<char>>(
            seq![
                XO::Decl(
                    match get_str(n, "version"@) {
                        Some(x) => x,
                        None => "1.0"@,
                    },
                    get_str(n, "encoding"@),
                    get_str(n, "standalone"@),
                ),
            ] + nl(pretty),
        ),
{
    reveal_strlit("?xml");
    reveal_strlit("xml");
    lemma_last_keyed(n.entries, key, i);
    assert(pi_target(n) =~= "xml"@);
    crate::validation::lemma_name_error_iff("xml"@, "processing instruction target"@);
    assert(crate::validation::is_xml_name("xml"@));
}

/// A `?xml` node whose last `standalone` property is the string `v` writes
/// an XML declaration whose standalone part is `v`.
pub proof fn lemma_xml_declaration_standalone(n: KN, pretty: bool, i: int, v: Seq<char>)
    requires
        n.name == "?xml"@,
        0 <= i < n.entries.len(),
        n.entries[i].key == Some("standalone"@),
        n.entries[i].value == KV::Str(v),
        forall|j: int| i < j < n.entries.len() ==> (#[trigger] n.entries[j]).key != Some("standalone"@),
    ensures
        pi_xml(n, pretty) matches Ok(evs) && (evs.len() > 0 && (evs[0] matches XO::Decl(_, _, Some(s)) && s == v)),
{
    lemma_xml_decl_written(n, pretty, "standalone"@, i, v);
}

/// A `?xml` node whose last `encoding` property is the string `v` writes an
/// XML declaration whose encoding part is `v`.
pub proof fn lemma_xml_declaration_encoding(n: KN, pretty: bool, i: int, v: Seq<char>)
    requires
        n.name == "?xml"@,
        0 <= i < n.entries.len(),
        n.entries[i].key == Some("encoding"@),
        n.entries[i].value == KV::Str(v),
        forall|j: int| i < j < n.entries.len() ==> (#[trigger] n.entries[j]).key != Some("encoding"@),
    ensures
        pi_xml(n, pretty) matches Ok(evs) && (evs.len() > 0 && (evs[0] matches XO::Decl(_, Some(s), _) && s == v)),
{
    lemma_xml_decl_written(n, pretty, "encoding"@, i, v);
}

/// A `?xml` node whose last `version` property is the string `v` writes an
/// XML declaration of version `v`.
pub proof fn lemma_xml_declaration_version(n: KN, pretty: bool, i: int, v: Seq<char>)
    requires
        n.name == "?xml"@,
        0 <= i < n.entries.len(),
        n.entries[i].key == Some("version"@),
        n.entries[i].value == KV::Str(v),
        forall|j: int| i < j < n.entries.len() ==> (#[trigger] n.entries[j]).key != Some("version"@),
    ensures
        pi_xml(n, pretty) matches Ok(evs) && (evs.len() > 0 && (evs[0] matches XO::Decl(s, _, _) && s == v)),
{
    lemma_xml_decl_written(n, pretty, "version"@, i, v);
}

/// The string value of the last property named `key`.
fn get_string_prop(node: &KNode, key: &str) -> (r: Option<String>)
    ensures
        opt_str(r) == get_str(node@, key@),
{
    let ghost es = node@.entries;
    let mut i: usize = node.entries.len();
    assert(es.take(i as int) == es);
    while i > 0
        invariant
            i <= node.entries.len(),
            es == node@.entries,
            es.len() == node.entries.len(),
            forall|j: int| 0 <= j < es.len() ==> #[trigger] es[j] == entry_view(node.entries@[j]),
            last_keyed(es, key@) == last_keyed(es.take(i as int), key@),
        decreases i,
    {
        let e = &node.entries[i - 1];
        assert(es.take(i as int).last() == es[i - 1]);
        assert(es.take(i as int).drop_last() == es.take(i - 1));
        let hit = match &e.key {
            Some(k) => str_eq(k.as_str(), key),
            None => false,
        };
        if hit {
            assert(last_keyed(es, key@) == Some(i - 1));
            return match &e.value {
                KValue::Str(s) => Some(s.clone()),
                KValue::Other(_) => None,
            };
        }
        i = i - 1;
    }
    None
}

/// The attribute text of the properties of a processing instruction.
fn pi_property_parts(node: &KNode) -> (parts: Vec<String>)
    ensures
        parts_view(parts@) == prop_parts(node@.entries),
{
    let ghost es = node@.entries;
    let mut parts: Vec<String> = Vec::new();
    let mut i: usize = 0;
    assert(es.take(0) == Seq::<KE>::empty());
    while i < node.entries.len()
        invariant
            i <= node.entries.len(),
            es == node@.entries,
            es.len() == node.entries.len(),
            forall|j: int| 0 <= j < es.len() ==> #[trigger] es[j] == entry_view(node.entries@[j]),
            parts_view(parts@) == prop_parts(es.take(i as int)),
        decreases node.entries.len() - i,
    {
        assert(es.take(i + 1).last() == es[i as int]);
        assert(es.take(i + 1).drop_last() == es.take(i as int));
        let e = &node.entries[i];
        let ghost before = parts_view(parts@);
        match (&e.name, &e.value) {
            (Some(nm), KValue::Str(v)) => {
                proof {
                    reveal_strlit("\"");
                    reveal_strlit("?>");
                }
                let q = replace(v.as_str(), "\"", "&quot;");
                let escaped = replace(q.as_str(), "?>", "? >");
                let mut p = concat2(nm.as_str(), "=\"");
                p.append(escaped.as_str());
                p.append("\"");
                let ghost pv = p@;
                parts.push(p);
                assert(parts_view(parts@) =~= before + seq![pv]);
            },
            _ => {
                assert(parts_view(parts@) =~= before + Seq::<Seq<char>>::empty());
            },
        }
        i = i + 1;
    }
    assert(es.take(node.entries.len() as int) == es);
    parts
}

/// Writes a processing instruction (or an XML declaration).
pub fn write_processing_instruction(node: &KNode, out: &mut Vec<XmlOut>, pretty: bool) -> (res: Result<(), Kdl2XmlError>)
    ensures
        match pi_xml(node@, pretty) {
            Ok(evs) => res is Ok && outs_view(final(out)@) == outs_view(old(out)@) + evs,
            Err(m) => res matches Err(Kdl2XmlError::InvalidStructure(e)) && e@ == m && final(out)@ == old(out)@,
        },
{
    let name = chars_of(node.name.as_str());
    let target = if name.len() == 0 {
        String::new()
    } else {
        string_from_chars(&name, 1, name.len())
    };
    assert(target@ == pi_target(node@)) by {
        if name@.len() > 0 {
            assert(name@.subrange(1, name@.len() as int) == name@.drop_first());
        }
    }
    if target.as_str().is_empty() {
        return Err(Kdl2XmlError::InvalidStructure(
            "Processing instruction target name cannot be empty".to_string(),
        ));
    }
    validate_xml_name(target.as_str(), "processing instruction target")?;
    if str_eq(target.as_str(), "xml") {
        let version = get_string_prop(node, "version");
        let encoding = get_string_prop(node, "encoding");
        let standalone = get_string_prop(node, "standalone");
        if version.is_some() || encoding.is_some() || standalone.is_some() {
            let v = match version {
                Some(v) => v,
                None => "1.0".to_string(),
            };
            let ghost d = XO::Decl(v@, opt_str(encoding), opt_str(standalone));
            emit(out, XmlOut::Decl(v, encoding, standalone));
            emit_newline(out, pretty);
            assert(outs_view(old(out)@).push(d) + nl(pretty) =~= outs_view(old(out)@) + (seq![d] + nl(pretty)));
            return Ok(());
        }
    }
    let content = if has_properties(node) {
        let parts = pi_property_parts(node);
        join_with_spaces(&parts)
    } else {
        match get_first_argument(node) {
            Ok(arg) => {
                proof { reveal_strlit("?>"); }
                replace(arg.as_str(), "?>", "? >")
            },
            Err(_) => String::new(),
        }
    };
    let pi = if content.as_str().is_empty() {
        concat3("<?", target.as_str(), "?>")
    } else {
        let mut p = concat3("<?", target.as_str(), " ");
        p.append(content.as_str());
        p.append("?>");
        p
    };
    let ghost r = XO::Raw(pi@);
    emit(out, XmlOut::Raw(pi));
    emit_newline(out, pretty);
    assert(outs_view(old(out)@).push(r) + nl(pretty) =~= outs_view(old(out)@) + (seq![r] + nl(pretty)));
    Ok(())
}

// ---------------------------------------------------------------------------
// Comments
// ---------------------------------------------------------------------------

/// How many arguments (entries without a name) there are.
pub open spec fn unnamed_count(es: Seq<KE>) -> nat
    decreases es.len(),
{
    if es.len() == 0 {
        0
    } else {
        unnamed_count(es.drop_last()) + if es.last().name is None {
            1nat
        } else {
            0nat
        }
    }
}

/// Comment text made safe: a space goes after every `-` that another `-`
/// follows or that ends the text, so that no `--` remains and the text does
/// not run into the closing `-->`.
pub open spec fn comment_escape(c: Seq<char>) -> Seq<char>
    decreases c.len(),
{
    if c.len() == 0 {
        Seq::empty()
    } else if c[0] == '-' && (c.len() == 1 || c[1] == '-') {
        "- "@ + comment_escape(c.drop_first())
    } else {
        seq![c[0]] + comment_escape(c.drop_first())
    }
}

/// A comment node has exactly one argument, a string, and nothing else; it
/// writes `<!--text-->` with the text made safe.
pub open spec fn comment_xml(n: KN, pretty: bool) -> Result<Seq<XO>, Seq<char>> {
    if has_props(n) {
        Err("Comment node must not have properties"@)
    } else if has_child_nodes(n) {
        Err("Comment node must not have children"@)
    } else if unnamed_count(n.entries) != 1 {
        Err("Comment node must have exactly one string argument, found "@ + decimal(unnamed_count(n.entries)))
    } else {
        match first_argument(n) {
            Err(m) => Err(m),
            Ok(c) => Ok(seq![XO::Raw("<!--"@ + comment_escape(c) + "-->"@)] + nl(pretty)),
        }
    }
}

fn count_unnamed(node: &KNode) -> (c: usize)
    ensures
        c == unnamed_count(node@.entries),
{
    let ghost es = node@.entries;
    let mut c: usize = 0;
    let mut i: usize = 0;
    assert(es.take(0) == Seq::<KE>::empty());
    while i < node.entries.len()
        invariant
            i <= node.entries.len(),
            es == node@.entries,
            es.len() == node.entries.len(),
            forall|j: int| 0 <= j < es.len() ==> #[trigger] es[j] == entry_view(node.entries@[j]),
            c == unnamed_count(es.take(i as int)),
            c <= i,
        decreases node.entries.len() - i,
    {
        assert(es.take(i + 1).last() == es[i as int]);
        assert(es.take(i + 1).drop_last() == es.take(i as int));
        if node.entries[i].name.is_none() {
            c = c + 1;
        }
        i = i + 1;
    }
    assert(es.take(node.entries.len() as int) == es);
    c
}

/// The comment text made safe, as [`comment_escape`] says.
fn escape_comment_text(text: &str) -> (r: String)
    ensures
        r@ == comment_escape(text@),
{
    let v = chars_of(text);
    let mut r = String::new();
    let mut i: usize = 0;
    assert(v@.skip(0) == v@);
    assert(r@ + comment_escape(v@.skip(0)) == comment_escape(text@));
    while i < v.len()
        invariant
            v@ == text@,
            i <= v.len(),
            r@ + comment_escape(v@.skip(i as int)) == comment_escape(text@),
        decreases v.len() - i,
    {
        let ghost rest = v@.skip(i as int);
        assert(rest[0] == v@[i as int]);
        assert(rest.drop_first() == v@.skip(i + 1));
        push_char(&mut r, v[i]);
        if v[i] == '-' && (i + 1 == v.len() || v[i + 1] == '-') {
            assert(rest.len() == 1 || rest[1] == v@[i + 1]);
            push_char(&mut r, ' ');
            proof { reveal_strlit("- "); }
            assert(r@ + comment_escape(v@.skip(i + 1)) =~= comment_escape(text@));
        } else {
            proof {
                if rest.len() > 1 {
                    assert(rest[1] == v@[i + 1]);
                }
            }
            assert(r@ + comment_escape(v@.skip(i + 1)) =~= comment_escape(text@));
        }
        i = i + 1;
    }
    assert(v@.skip(i as int).len() == 0);
    assert(r@ + Seq::<char>::empty() == r@);
    r
}

/// Writes a comment.
pub fn write_comment(node: &KNode, out: &mut Vec<XmlOut>, pretty: bool) -> (res: Result<(), Kdl2XmlError>)
    ensures
        match comment_xml(node@, pretty) {
            Ok(evs) => res is Ok && outs_view(final(out)@) == outs_view(old(out)@) + evs,
            Err(m) => res matches Err(Kdl2XmlError::InvalidStructure(e)) && e@ == m && final(out)@ == old(out)@,
        },
{
    if has_properties(node) {
        return Err(Kdl2XmlError::InvalidStructure("Comment node must not have properties".to_string()));
    }
    if has_children_nodes(node) {
        return Err(Kdl2XmlError::InvalidStructure("Comment node must not have children".to_string()));
    }
    let unnamed = count_unnamed(node);
    if unnamed != 1 {
        let count = decimal_string(unnamed);
        return Err(Kdl2XmlError::InvalidStructure(
            concat2("Comment node must have exactly one string argument, found ", count.as_str()),
        ));
    }
    let content = get_first_argument(node)?;
    let escaped = escape_comment_text(content.as_str());
    let comment = concat3("<!--", escaped.as_str(), "-->");
    let ghost r = XO::Raw(comment@);
    emit(out, XmlOut::Raw(comment));
    emit_newline(out, pretty);
    assert(outs_view(old(out)@).push(r) + nl(pretty) =~= outs_view(old(out)@) + (seq![r] + nl(pretty)));
    Ok(())
}

/// Whether `s` holds two hyphens in a row.
pub open spec fn has_double_hyphen(s: Seq<char>) -> bool {
    exists|i: int| 0 <= i && i + 1 < s.len() && #[trigger] s[i] == '-' && s[i + 1] == '-'
}

/// Whether `s` ends with a hyphen.
pub open spec fn ends_with_hyphen(s: Seq<char>) -> bool {
    s.len() > 0 && s.last() == '-'
}

/// The escaped text starts as the text does.
proof fn lemma_comment_escape_first(c: Seq<char>)
    ensures
        comment_escape(c).len() == 0 <==> c.len() == 0,
        c.len() > 0 ==> comment_escape(c)[0] == c[0],
    decreases c.len(),
{
    reveal_strlit("- ");
    if c.len() > 0 {
        lemma_comment_escape_first(c.drop_first());
    }
}

/// Escaped comment text is safe inside `<!--` and `-->`, whatever the text:
/// it holds no two hyphens in a row and does not end with a hyphen; and text
/// that has neither is left as it is.
pub proof fn lemma_comment_escape_is_safe(c: Seq<char>)
    ensures
        !has_double_hyphen(comment_escape(c)),
        !ends_with_hyphen(comment_escape(c)),
        !has_double_hyphen(c) && !ends_with_hyphen(c) ==> comment_escape(c) == c,
    decreases c.len(),
{
    reveal_strlit("- ");
    let r = comment_escape(c);
    if c.len() > 0 {
        let t = c.drop_first();
        lemma_comment_escape_is_safe(t);
        lemma_comment_escape_first(t);
        let x = comment_escape(t);
        if c[0] == '-' && (c.len() == 1 || c[1] == '-') {
            assert(r == "- "@ + x);
            assert forall|i: int| 0 <= i && i + 1 < r.len() && #[trigger] r[i] == '-' implies r[i + 1] != '-' by {
                if i >= 2 {
                    assert(r[i] == x[i - 2] && r[i + 1] == x[i - 1]);
                }
            }
            if x.len() > 0 {
                assert(r.last() == x.last());
            }
            assert(has_double_hyphen(c) || ends_with_hyphen(c)) by {
                if c.len() == 1 {
                    assert(c.last() == c[0]);
                } else {
                    assert(c[0] == '-' && c[1] == '-');
                }
            }
        } else {
            assert(r == seq![c[0]] + x);
            assert forall|i: int| 0 <= i && i + 1 < r.len() && #[trigger] r[i] == '-' implies r[i + 1] != '-' by {
                if i >= 1 {
                    assert(r[i] == x[i - 1] && r[i + 1] == x[i]);
                } else {
                    assert(r[1] == x[0] && x[0] == t[0] && t[0] == c[1]);
                }
            }
            if x.len() > 0 {
                assert(r.last() == x.last());
            }
            if !has_double_hyphen(c) && !ends_with_hyphen(c) {
                assert(!has_double_hyphen(t)) by {
                    if has_double_hyphen(t) {
                        let i = choose|i: int| 0 <= i && i + 1 < t.len() && #[trigger] t[i] == '-' && t[i + 1] == '-';
                        assert(c[i + 1] == '-' && c[i + 2] == '-');
                    }
                }
                if t.len() > 0 {
                    assert(t.last() == c.last());
                }
                assert(x == t);
                assert(r =~= c);
            }
        }
    }
}

/// Replacing `?>` by `? >` keeps the first character, and empties nothing.
proof fn lemma_pi_replace_first(s: Seq<char>)
    ensures
        replace_all(s, "?>"@, "? >"@).len() == 0 <==> s.len() == 0,
        s.len() > 0 ==> replace_all(s, "?>"@, "? >"@)[0] == s[0],
    decreases s.len(),
{
    reveal_strlit("?>");
    reveal_strlit("? >");
    if s.len() > 0 {
        if occurs_at(s, "?>"@, 0) {
            assert(s.subrange(0, 2)[0] == s[0]);
            assert(replace_all(s, "?>"@, "? >"@) == "? >"@ + replace_all(s.skip(2), "?>"@, "? >"@));
        } else {
            lemma_pi_replace_first(s.drop_first());
        }
    }
}

/// Whether `s` holds `?>`, which would end a processing instruction.
pub open spec fn has_pi_end(s: Seq<char>) -> bool {
    exists|i: int| 0 <= i && i + 1 < s.len() && #[trigger] s[i] == '?' && s[i + 1] == '>'
}

/// The argument of a processing instruction, once `?>` is written `? >`,
/// cannot end the instruction early: it holds no `?>`, whatever it was.
pub proof fn lemma_pi_argument_escape_is_safe(a: Seq<char>)
    ensures
        !has_pi_end(replace_all(a, "?>"@, "? >"@)),
    decreases a.len(),
{
    reveal_strlit("?>");
    reveal_strlit("? >");
    let r = replace_all(a, "?>"@, "? >"@);
    if a.len() == 0 {
    } else if occurs_at(a, "?>"@, 0) {
        let t = a.skip(2);
        lemma_pi_argument_escape_is_safe(t);
        let x = replace_all(t, "?>"@, "? >"@);
        assert(r == "? >"@ + x);
        assert forall|i: int| 0 <= i && i + 1 < r.len() && #[trigger] r[i] == '?' implies r[i + 1] != '>' by {
            if i >= 3 {
                assert(r[i] == x[i - 3] && r[i + 1] == x[i - 2]);
            }
        }
    } else {
        let t = a.drop_first();
        lemma_pi_argument_escape_is_safe(t);
        lemma_pi_replace_first(t);
        let x = replace_all(t, "?>"@, "? >"@);
        assert(r == seq![a[0]] + x);
        assert forall|i: int| 0 <= i && i + 1 < r.len() && #[trigger] r[i] == '?' implies r[i + 1] != '>' by {
            if i >= 1 {
                assert(r[i] == x[i - 1] && r[i + 1] == x[i]);
            } else {
                assert(r[1] == x[0] && x[0] == a[1]);
                if a[1] == '>' {
                    assert(a.subrange(0, 2) =~= "?>"@);
                }
            }
        }
    }
}

// ---------------------------------------------------------------------------
// Text
// ---------------------------------------------------------------------------

/// A text node writes its first argument as character data.
pub open spec fn text_xml(n: KN) -> Result<Seq<XO>, Seq<char>> {
    match first_argument(n) {
        Err(m) => Err(m),
        Ok(c) => Ok(seq![XO::Text(c)]),
    }
}

/// Writes text content (the `-` nodes of mixed content).
pub fn write_text_content(node: &KNode, out: &mut Vec<XmlOut>) -> (res: Result<(), Kdl2XmlError>)
    ensures
        match text_xml(node@) {
            Ok(evs) => res is Ok && outs_view(final(out)@) == outs_view(old(out)@) + evs,
            Err(m) => res matches Err(Kdl2XmlError::InvalidStructure(e)) && e@ == m && final(out)@ == old(out)@,
        },
{
    let content = get_first_argument(node)?;
    let ghost t = XO::Text(content@);
    emit(out, XmlOut::Text(content));
    assert(outs_view(old(out)@).push(t) =~= outs_view(old(out)@) + seq![t]);
    Ok(())
}

// ---------------------------------------------------------------------------
// Elements
// ---------------------------------------------------------------------------

/// The attributes of an element from its properties: each name must be an
/// XML name and each value a string; the first fault gives the message.
pub open spec fn element_attrs(es: Seq<KE>, elem: Seq<char>) -> Result<Seq<(Seq<char>, Seq<char>)>, Seq<char>>
    decreases es.len(),
{
    if es.len() == 0 {
        Ok(Seq::empty())
    } else {
        match element_attrs(es.drop_last(), elem) {
            Err(m) => Err(m),
            Ok(a) => match es.last().name {
                None => Ok(a),
                Some(nm) => match name_error(nm, "attribute"@) {
                    Some(m) => Err(m),
                    None => match es.last().value {
                        KV::Str(v) => Ok(a.push((nm, v))),
                        KV::Other(d) => Err("Attribute '"@ + nm + "' on element '"@ + elem
                            + "' must have a string value, got "@ + d),
                    },
                },
            },
        }
    }
}

/// What a node writes: by its name, a DOCTYPE, a processing instruction,
/// a comment, text, or else an element.
pub open spec fn node_xml(n: KN, pretty: bool) -> Result<Seq<XO>, Seq<char>>
    decreases n, 2nat,
{
    if is_doctype_name(n.name) {
        doctype_xml(n, pretty)
    } else if is_pi_name(n.name) {
        pi_xml(n, pretty)
    } else if is_comment_name(n.name) {
        comment_xml(n, pretty)
    } else if is_text_name(n.name) {
        text_xml(n)
    } else {
        element_xml(n, pretty)
    }
}

/// An element: its name must be an XML name; it has at most one argument,
/// and not both an argument and child nodes; its properties become
/// attributes; with neither text nor child nodes it is an empty-element
/// tag, otherwise a start tag, its text, what its children write, and an end tag.
pub open spec fn element_xml(n: KN, pretty: bool) -> Result<Seq<XO>, Seq<char>>
    decreases n, 1nat,
{
    match name_error(n.name, "element"@) {
        Some(m) => Err(m),
        None => {
            let count = unnamed_count(n.entries);
            if count > 1 {
                Err("Element '"@ + n.name + "' cannot have multiple text arguments, found "@ + decimal(count))
            } else if count > 0 && has_child_nodes(n) {
                Err("Element '"@ + n.name + "' cannot have both text argument and child nodes"@)
            } else {
                match element_attrs(n.entries, n.name) {
                    Err(m) => Err(m),
                    Ok(attrs) => match text_argument(n) {
                        Err(m) => Err(m),
                        Ok(text) => if !has_child_nodes(n) && text is None {
                            Ok(seq![XO::Empty(n.name, attrs)])
                        } else {
                            match n.children {
                                Some(cs) => match children_xml(cs, pretty) {
                                    Err(m) => Err(m),
                                    Ok(inner) => Ok(seq![XO::Start(n.name, attrs)] + match text {
                                        Some(t) => seq![XO::Text(t)],
                                        None => Seq::empty(),
                                    } + inner + seq![XO::End(n.name)]),
                                },
                                None => Ok(seq![XO::Start(n.name, attrs)] + match text {
                                    Some(t) => seq![XO::Text(t)],
                                    None => Seq::empty(),
                                } + seq![XO::End(n.name)]),
                            }
                        },
                    },
                }
            }
        },
    }
}

/// The fault of an element itself, before anything is written for it: its
/// name, the number of its arguments, its attributes and its text argument.
pub open spec fn element_fault(n: KN) -> Option<Seq<char>> {
    match name_error(n.name, "element"@) {
        Some(m) => Some(m),
        None => {
            let count = unnamed_count(n.entries);
            if count > 1 {
                Some("Element '"@ + n.name + "' cannot have multiple text arguments, found "@ + decimal(count))
            } else if count > 0 && has_child_nodes(n) {
                Some("Element '"@ + n.name + "' cannot have both text argument and child nodes"@)
            } else {
                match element_attrs(n.entries, n.name) {
                    Err(m) => Some(m),
                    Ok(_) => match text_argument(n) {
                        Err(m) => Some(m),
                        Ok(_) => None,
                    },
                }
            }
        },
    }
}

/// The fault of a node itself, before anything is written for it: for a
/// DOCTYPE, processing instruction, comment or text node its error; for an
/// element its [`element_fault`].
pub open spec fn node_fault(n: KN, pretty: bool) -> Option<Seq<char>> {
    if is_doctype_name(n.name) || is_pi_name(n.name) || is_comment_name(n.name) || is_text_name(n.name) {
        match node_xml(n, pretty) {
            Err(m) => Some(m),
            Ok(_) => None,
        }
    } else {
        element_fault(n)
    }
}

/// What a list of nodes writes, one after the other; the first fault stops it.
pub open spec fn children_xml(cs: Seq<KN>, pretty: bool) -> Result<Seq<XO>, Seq<char>>
    decreases cs, 0nat,
{
    if cs.len() == 0 {
        Ok(Seq::empty())
    } else {
        let k = cs.len() - 1;
        match children_xml(cs.subrange(0, k), pretty) {
            Err(m) => Err(m),
            Ok(evs) => match node_xml(cs[k], pretty) {
                Err(m) => Err(m),
                Ok(more) => Ok(evs + more),
            },
        }
    }
}

/// The attributes of an element.
fn element_attributes(node: &KNode) -> (res: Result<Vec<(String, String)>, Kdl2XmlError>)
    ensures
        match element_attrs(node@.entries, node@.name) {
            Ok(a) => res matches Ok(v) && pairs_view(v@) == a,
            Err(m) => res matches Err(Kdl2XmlError::InvalidStructure(e)) && e@ == m,
        },
{
    let ghost es = node@.entries;
    let mut attrs: Vec<(String, String)> = Vec::new();
    let mut i: usize = 0;
    assert(es.take(0) == Seq::<KE>::empty());
    assert(pairs_view(attrs@) =~= Seq::<(Seq<char>, Seq<char>)>::empty());
    while i < node.entries.len()
        invariant
            i <= node.entries.len(),
            es == node@.entries,
            es.len() == node.entries.len(),
            forall|j: int| 0 <= j < es.len() ==> #[trigger] es[j] == entry_view(node.entries@[j]),
            element_attrs(es.take(i as int), node@.name) == Ok::<Seq<(Seq<char>, Seq<char>)>, Seq<char>>(
                pairs_view(attrs@),
            ),
        decreases node.entries.len() - i,
    {
        assert(es.take(i + 1).last() == es[i as int]);
        assert(es.take(i + 1).drop_last() == es.take(i as int));
        let e = &node.entries[i];
        match &e.name {
            Some(nm) => {
                match validate_xml_name(nm.as_str(), "attribute") {
                    Ok(()) => {},
                    Err(err) => {
                        proof { lemma_element_attrs_err_extends(es, i as int + 1, node@.name); }
                        return Err(err);
                    },
                }
                match &e.value {
                    KValue::Str(v) => {
                        let ghost before = pairs_view(attrs@);
                        attrs.push((nm.clone(), v.clone()));
                        assert(pairs_view(attrs@) =~= before.push((nm@, v@)));
                    },
                    KValue::Other(d) => {
                        let mut m = concat3("Attribute '", nm.as_str(), "' on element '");
                        m.append(node.name.as_str());
                        m.append("' must have a string value, got ");
                        m.append(d.as_str());
                        proof { lemma_element_attrs_err_extends(es, i as int + 1, node@.name); }
                        return Err(Kdl2XmlError::InvalidStructure(m));
                    },
                }
            },
            None => {},
        }
        i = i + 1;
    }
    assert(es.take(node.entries.len() as int) == es);
    Ok(attrs)
}

/// Once the attributes of a prefix of the entries fail, they fail the same way for all of them.
proof fn lemma_element_attrs_err_extends(es: Seq<KE>, i: int, elem: Seq<char>)
    requires
        0 <= i <= es.len(),
        element_attrs(es.take(i), elem) is Err,
    ensures
        element_attrs(es, elem) == element_attrs(es.take(i), elem),
    decreases es.len() - i,
{
    if i < es.len() {
        assert(es.take(i + 1).drop_last() == es.take(i));
        lemma_element_attrs_err_extends(es, i + 1, elem);
    } else {
        assert(es.take(i) == es);
    }
}

/// Writes an element and, through [`node_to_xml`], its children.
pub fn write_element(node: &KNode, out: &mut Vec<XmlOut>, pretty: bool) -> (res: Result<(), Kdl2XmlError>)
    ensures
        match element_xml(node@, pretty) {
            Ok(evs) => res is Ok && outs_view(final(out)@) == outs_view(old(out)@) + evs,
            Err(m) => res matches Err(Kdl2XmlError::InvalidStructure(e)) && e@ == m,
        },
        element_fault(node@) is Some ==> final(out)@ == old(out)@,
    decreases node, 1nat,
{
    validate_xml_name(node.name.as_str(), "element")?;
    let unnamed = count_unnamed(node);
    let has_children = has_children_nodes(node);
    if unnamed > 1 {
        let count = decimal_string(unnamed);
        let mut m = concat3("Element '", node.name.as_str(), "' cannot have multiple text arguments, found ");
        m.append(count.as_str());
        return Err(Kdl2XmlError::InvalidStructure(m));
    }
    if unnamed > 0 && has_children {
        return Err(Kdl2XmlError::InvalidStructure(
            concat3("Element '", node.name.as_str(), "' cannot have both text argument and child nodes"),
        ));
    }
    let attrs = element_attributes(node)?;
    let text_argument = get_text_argument(node)?;
    let ghost attrs_v = pairs_view(attrs@);
    let ghost text_v = opt_str(text_argument);
    if !has_children && text_argument.is_none() {
        let ghost e = XO::Empty(node@.name, attrs_v);
        emit(out, XmlOut::Empty(node.name.clone(), attrs));
        assert(outs_view(old(out)@).push(e) =~= outs_view(old(out)@) + seq![e]);
        return Ok(());
    }
    emit(out, XmlOut::Start(node.name.clone(), attrs));
    let ghost after_start = outs_view(out@);
    let ghost text_evs: Seq<XO> = match text_v {
        Some(t) => seq![XO::Text(t)],
        None => Seq::empty(),
    };
    match text_argument {
        Some(text) => {
            emit(out, XmlOut::Text(text));
        },
        None => {},
    }
    assert(outs_view(out@) =~= after_start + text_evs);
    let ghost after_text = outs_view(out@);
    match &node.children {
        Some(cs) => {
            write_children(cs, out, pretty)?;
            proof {
                assert(node@.children == Some(knodes_view(cs@)));
                let evs = children_xml(knodes_view(cs@), pretty)->Ok_0;
                assert(outs_view(out@) == after_text + evs);
                assert(outs_view(out@).subrange(after_text.len() as int, outs_view(out@).len() as int) =~= evs);
            }
        },
        None => {},
    }
    let ghost inner = outs_view(out@).subrange(after_text.len() as int, outs_view(out@).len() as int);
    assert(outs_view(out@) =~= after_text + inner);
    emit(out, XmlOut::End(node.name.clone()));
    proof {
        let a = outs_view(old(out)@);
        let s = XO::Start(node@.name, attrs_v);
        let e = XO::End(node@.name);
        assert(outs_view(out@) =~= a + (seq![s] + text_evs + inner + seq![e]));
        match node@.children {
            Some(cv) => {
                assert(children_xml(cv, pretty) == Ok::<Seq<XO>, Seq<char>>(inner));
            },
            None => {
                assert(inner =~= Seq::<XO>::empty());
                assert(seq![s] + text_evs + inner + seq![e] =~= seq![s] + text_evs + seq![e]);
            },
        }
    }
    Ok(())
}

/// Writes each node of a children block in turn.
fn write_children(cs: &Vec<KNode>, out: &mut Vec<XmlOut>, pretty: bool) -> (res: Result<(), Kdl2XmlError>)
    ensures
        match children_xml(knodes_view(cs@), pretty) {
            Ok(evs) => res is Ok && outs_view(final(out)@) == outs_view(old(out)@) + evs,
            Err(m) => res matches Err(Kdl2XmlError::InvalidStructure(e)) && e@ == m,
        },
    decreases cs, 0nat,
{
    let ghost s = knodes_view(cs@);
    proof { lemma_knodes_view(cs@); }
    let mut i: usize = 0;
    assert(s.subrange(0, 0) == Seq::<KN>::empty());
    assert(outs_view(out@) =~= outs_view(old(out)@) + Seq::empty());
    while i < cs.len()
        invariant
            i <= cs.len(),
            s == knodes_view(cs@),
            s.len() == cs@.len(),
            forall|j: int| 0 <= j < cs@.len() ==> #[trigger] s[j] == cs@[j]@,
            children_xml(s.subrange(0, i as int), pretty) matches Ok(evs) && outs_view(out@)
                == outs_view(old(out)@) + evs,
        decreases cs.len() - i,
    {
        let ghost p = s.subrange(0, i + 1);
        assert(p.subrange(0, i as int) == s.subrange(0, i as int));
        assert(p[i as int] == s[i as int]);
        let ghost prev = outs_view(out@);
        match node_to_xml(&cs[i], out, pretty) {
            Ok(()) => {},
            Err(e) => {
                proof { lemma_children_xml_err_extends(s, i as int + 1, pretty); }
                return Err(e);
            },
        }
        proof {
            let evs = children_xml(s.subrange(0, i as int), pretty)->Ok_0;
            let more = node_xml(s[i as int], pretty)->Ok_0;
            assert(outs_view(out@) =~= outs_view(old(out)@) + (evs + more));
        }
        i = i + 1;
    }
    assert(s.subrange(0, cs.len() as int) == s);
    Ok(())
}

/// Once a prefix of the children fails, the whole block fails the same way.
proof fn lemma_children_xml_err_extends(s: Seq<KN>, i: int, pretty: bool)
    requires
        0 <= i <= s.len(),
        children_xml(s.subrange(0, i), pretty) is Err,
    ensures
        children_xml(s, pretty) == children_xml(s.subrange(0, i), pretty),
    decreases s.len() - i,
{
    if i < s.len() {
        assert(s.subrange(0, i + 1).subrange(0, i) == s.subrange(0, i));
        lemma_children_xml_err_extends(s, i + 1, pretty);
    } else {
        assert(s.subrange(0, i) == s);
    }
}

/// Writes one node, by its kind.
pub fn node_to_xml(node: &KNode, out: &mut Vec<XmlOut>, pretty: bool) -> (res: Result<(), Kdl2XmlError>)
    ensures
        match node_xml(node@, pretty) {
            Ok(evs) => res is Ok && outs_view(final(out)@) == outs_view(old(out)@) + evs,
            Err(m) => res matches Err(Kdl2XmlError::InvalidStructure(e)) && e@ == m,
        },
        node_fault(node@, pretty) is Some ==> final(out)@ == old(out)@,
    decreases node, 2nat,
{
    let name = node.name.as_str();
    if is_doctype_node(name) {
        return write_doctype(node, out, pretty);
    }
    if is_pi_node(name) {
        return write_processing_instruction(node, out, pretty);
    }
    if is_comment_node(name) {
        return write_comment(node, out, pretty);
    }
    if is_text_node(name) {
        return write_text_content(node, out);
    }
    write_element(node, out, pretty)
}

} // verus!
