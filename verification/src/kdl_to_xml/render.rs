//! Feeding the output steps to the `quick_xml` writer, with the line breaks
//! and indentation of pretty printing.
use vstd::prelude::*;

use vstd::utf8::{encode_utf8, encode_utf8_decode_utf8, encode_utf8_valid_utf8};

use super::writers::{out_view, outs_view, pairs_view, XmlOut, XO};
use crate::error::Kdl2XmlError;
use crate::xml_api::{
    io_error_text, start_tag, start_tag_push_attribute, string_from_utf8, writer_decl,
    writer_empty, writer_end, writer_finish, writer_plain, writer_raw, writer_start, writer_text,
    xml_decl_text, xml_escape, xml_tag_bytes, xml_writer_appends, xml_written,
};

verus! {

broadcast use vstd::string::group_string_axioms;

// ---------------------------------------------------------------------------
// The text of the output
// ---------------------------------------------------------------------------

/// The attributes of a tag as written: for each, a space, the name, `="`,
/// the escaped value and `"`.
pub open spec fn attrs_text(a: Seq<(Seq<char>, Seq<char>)>) -> Seq<char>
    decreases a.len(),
{
    if a.len() == 0 {
        Seq::empty()
    } else {
        attrs_text(a.drop_last()) + " "@ + a.last().0 + "=\""@ + xml_escape(a.last().1) + "\""@
    }
}

/// The text that one output step writes: raw text as it is, character data
/// escaped, tags with their attributes, and the XML declaration.
pub open spec fn step_text(e: XO) -> Seq<char> {
    match e {
        XO::Raw(t) => t,
        XO::Text(t) => xml_escape(t),
        XO::Start(n, a) => "<"@ + n + attrs_text(a) + ">"@,
        XO::Empty(n, a) => "<"@ + n + attrs_text(a) + "/>"@,
        XO::End(n) => "</"@ + n + ">"@,
        XO::Decl(v, e, s) => "<?"@ + xml_decl_text(v, e, s) + "?>"@,
    }
}

/// `s` written `n` times.
pub open spec fn repeat(s: Seq<char>, n: nat) -> Seq<char>
    decreases n,
{
    if n == 0 {
        Seq::empty()
    } else {
        repeat(s, (n - 1) as nat) + s
    }
}

/// The layout after the steps `evs`: whether the next tag or declaration
/// goes on a new line, and the depth of open elements. Every tag and
/// declaration asks for a line break after it, character data cancels
/// that, and raw text leaves it as it is.
pub open spec fn layout_after(evs: Seq<XO>) -> (bool, nat)
    decreases evs.len(),
{
    if evs.len() == 0 {
        (false, 0)
    } else {
        let (brk, depth) = layout_after(evs.drop_last());
        match evs.last() {
            XO::Start(_, _) => (true, depth + 1),
            XO::End(_) => (true, if depth > 0 { (depth - 1) as nat } else { 0 }),
            XO::Empty(_, _) => (true, depth),
            XO::Decl(_, _, _) => (true, depth),
            XO::Text(_) => (false, depth),
            XO::Raw(_) => (brk, depth),
        }
    }
}

/// What goes before a step when pretty-printing with `indent`: a tag or a
/// declaration that is due on a new line gets a newline and `indent` once
/// per open element (an end tag one level less); nothing else does.
pub open spec fn break_before(e: XO, state: (bool, nat), indent: Seq<char>) -> Seq<char> {
    let (brk, depth) = state;
    if !brk {
        Seq::empty()
    } else {
        match e {
            XO::Start(_, _) => "\n"@ + repeat(indent, depth),
            XO::Empty(_, _) => "\n"@ + repeat(indent, depth),
            XO::Decl(_, _, _) => "\n"@ + repeat(indent, depth),
            XO::End(_) => "\n"@ + repeat(indent, if depth > 0 { (depth - 1) as nat } else { 0 }),
            _ => Seq::empty(),
        }
    }
}

/// The text of the steps `evs`: each step's text, preceded, when
/// pretty-printing with `indent`, by its line break.
pub open spec fn rendered(evs: Seq<XO>, indent: Option<Seq<char>>) -> Seq<char>
    decreases evs.len(),
{
    if evs.len() == 0 {
        Seq::empty()
    } else {
        rendered(evs.drop_last(), indent) + match indent {
            Some(ind) => break_before(evs.last(), layout_after(evs.drop_last()), ind),
            None => Seq::empty(),
        } + step_text(evs.last())
    }
}

// ---------------------------------------------------------------------------
// Writing it
// ---------------------------------------------------------------------------

/// The UTF-8 encoding of two texts one after the other is that of each, one after the other.
pub proof fn lemma_encode_concat(a: Seq<char>, b: Seq<char>)
    ensures
        encode_utf8(a + b) == encode_utf8(a) + encode_utf8(b),
    decreases a.len(),
{
    if a.len() == 0 {
        assert(a + b == b);
        assert(Seq::<u8>::empty() + encode_utf8(b) == encode_utf8(b));
    } else {
        lemma_encode_concat(a.drop_first(), b);
        assert((a + b).drop_first() == a.drop_first() + b);
        assert((a + b)[0] == a[0]);
    }
}

/// The error for a failed write: a structure error whose message is the
/// I/O error's text.
fn write_error(e: &std::io::Error) -> (r: Kdl2XmlError)
    ensures
        r is InvalidStructure,
{
    Kdl2XmlError::InvalidStructure(io_error_text(e))
}

/// A start tag with the given name and attributes.
fn tag(name: &String, attrs: &Vec<(String, String)>) -> (e: quick_xml::events::BytesStart<'static>)
    ensures
        xml_tag_bytes(e) == encode_utf8(name@ + attrs_text(pairs_view(attrs@))),
{
    let mut e = start_tag(name.as_str());
    let ghost pv = pairs_view(attrs@);
    let mut i: usize = 0;
    assert(pv.take(0) =~= Seq::<(Seq<char>, Seq<char>)>::empty());
    assert(name@ + attrs_text(pv.take(0)) =~= name@);
    while i < attrs.len()
        invariant
            i <= attrs.len(),
            pv == pairs_view(attrs@),
            xml_tag_bytes(e) == encode_utf8(name@ + attrs_text(pv.take(i as int))),
        decreases attrs.len() - i,
    {
        let ghost before = xml_tag_bytes(e);
        let ghost piece = " "@ + attrs@[i as int].0@ + "=\""@ + xml_escape(attrs@[i as int].1@) + "\""@;
        start_tag_push_attribute(&mut e, attrs[i].0.as_str(), attrs[i].1.as_str());
        proof {
            let t = pv.take(i + 1);
            assert(t.drop_last() =~= pv.take(i as int));
            assert(t.last() == (attrs@[i as int].0@, attrs@[i as int].1@));
            assert(attrs_text(t) =~= attrs_text(pv.take(i as int)) + piece);
            lemma_encode_concat(name@ + attrs_text(pv.take(i as int)), piece);
            assert(name@ + attrs_text(t) =~= (name@ + attrs_text(pv.take(i as int))) + piece);
        }
        i = i + 1;
    }
    assert(pv.take(attrs.len() as int) =~= pv);
    e
}

fn opt_as_str(o: &Option<String>) -> (r: Option<&str>)
    ensures
        match r {
            Some(x) => o matches Some(s) && x@ == s@,
            None => o is None,
        },
{
    match o {
        Some(s) => Some(s.as_str()),
        None => None,
    }
}

/// A newline and `indent` written `depth` times.
fn line_break(indent: &str, depth: usize) -> (r: String)
    ensures
        r@ == "\n"@ + repeat(indent@, depth as nat),
{
    let mut r = "\n".to_string();
    let mut k: usize = 0;
    assert("\n"@ + repeat(indent@, 0) =~= "\n"@);
    while k < depth
        invariant
            k <= depth,
            r@ == "\n"@ + repeat(indent@, k as nat),
        decreases depth - k,
    {
        r.append(indent);
        assert("\n"@ + repeat(indent@, (k + 1) as nat) =~= "\n"@ + repeat(indent@, k as nat) + indent@);
        k = k + 1;
    }
    r
}

/// Writes the output steps with a `quick_xml` writer and reads the bytes
/// back as text. With `indent`, tags and declarations go on lines of their
/// own, indented with `indent` once per open element, as [`rendered`] says.
pub fn render_xml(events: &Vec<XmlOut>, indent: Option<&str>) -> (res: Result<String, Kdl2XmlError>)
    ensures
        res matches Ok(s) && s@ == rendered(
            outs_view(events@),
            match indent {
                Some(t) => Some(t@),
                None => None,
            },
        ),
{
    let ghost ind: Option<Seq<char>> = match indent {
        Some(t) => Some(t@),
        None => None,
    };
    let ghost evs = outs_view(events@);
    let mut w = writer_plain();
    let mut brk = false;
    let mut depth: usize = 0;
    let mut i: usize = 0;
    assert(evs.take(0) =~= Seq::<XO>::empty());
    assert(encode_utf8(Seq::<char>::empty()) =~= Seq::<u8>::empty());
    while i < events.len()
        invariant
            i <= events.len(),
            evs == outs_view(events@),
            ind == match indent {
                Some(t) => Some(t@),
                None => None,
            },
            depth <= i,
            layout_after(evs.take(i as int)) == (brk, depth as nat),
            xml_writer_appends(w),
            xml_written(w) == encode_utf8(rendered(evs.take(i as int), ind)),
        decreases events.len() - i,
    {
        let ghost p = evs.take(i as int);
        let ghost e = out_view(events@[i as int]);
        let ghost start = xml_written(w);
        assert(evs.take(i + 1).drop_last() =~= p);
        assert(evs.take(i + 1).last() == e);
        let ghost brk_text = match ind {
            Some(t) => break_before(e, (brk, depth as nat), t),
            None => Seq::empty(),
        };
        // The line break before the step.
        match indent {
            Some(t) => {
                let due = brk && match &events[i] {
                    XmlOut::Start(_, _) => true,
                    XmlOut::Empty(_, _) => true,
                    XmlOut::Decl(_, _, _) => true,
                    XmlOut::End(_) => true,
                    _ => false,
                };
                if due {
                    let level = match &events[i] {
                        XmlOut::End(_) => if depth > 0 { depth - 1 } else { 0 },
                        _ => depth,
                    };
                    let b = line_break(t, level);
                    assert(b@ == brk_text);
                    let _ = writer_raw(&mut w, b.as_str());
                } else {
                    assert(brk_text =~= Seq::<char>::empty());
                    assert(encode_utf8(brk_text) =~= Seq::<u8>::empty());
                    assert(xml_written(w) =~= start + encode_utf8(brk_text));
                }
            },
            None => {
                assert(encode_utf8(brk_text) =~= Seq::<u8>::empty());
                assert(xml_written(w) =~= start + encode_utf8(brk_text));
            },
        }
        let ghost mid = xml_written(w);
        assert(mid == start + encode_utf8(brk_text));
        // The step itself.
        let r = match &events[i] {
            XmlOut::Raw(s) => match writer_raw(&mut w, s.as_str()) {
                Ok(()) => Ok(()),
                Err(err) => Err(Kdl2XmlError::Io(err)),
            },
            XmlOut::Decl(v, e, s) => match writer_decl(&mut w, v.as_str(), opt_as_str(e), opt_as_str(s)) {
                Ok(()) => Ok(()),
                Err(err) => Err(write_error(&err)),
            },
            XmlOut::Text(t) => match writer_text(&mut w, t.as_str()) {
                Ok(()) => Ok(()),
                Err(err) => Err(write_error(&err)),
            },
            XmlOut::Start(n, a) => {
                let tg = tag(n, a);
                let ghost tb = xml_tag_bytes(tg);
                let r = writer_start(&mut w, tg);
                proof {
                    lemma_encode_concat("<"@, n@ + attrs_text(pairs_view(a@)));
                    lemma_encode_concat("<"@ + (n@ + attrs_text(pairs_view(a@))), ">"@);
                    assert("<"@ + (n@ + attrs_text(pairs_view(a@))) + ">"@ =~= step_text(e));
                }
                match r {
                    Ok(()) => Ok(()),
                    Err(err) => Err(write_error(&err)),
                }
            },
            XmlOut::Empty(n, a) => {
                let tg = tag(n, a);
                let r = writer_empty(&mut w, tg);
                proof {
                    lemma_encode_concat("<"@, n@ + attrs_text(pairs_view(a@)));
                    lemma_encode_concat("<"@ + (n@ + attrs_text(pairs_view(a@))), "/>"@);
                    assert("<"@ + (n@ + attrs_text(pairs_view(a@))) + "/>"@ =~= step_text(e));
                }
                match r {
                    Ok(()) => Ok(()),
                    Err(err) => Err(write_error(&err)),
                }
            },
            XmlOut::End(n) => match writer_end(&mut w, n.as_str()) {
                Ok(()) => Ok(()),
                Err(err) => Err(write_error(&err)),
            },
        };
        match r {
            Ok(()) => {},
            Err(e) => {
                return Err(e);
            },
        }
        proof {
            assert(xml_written(w) == mid + encode_utf8(step_text(e)));
            lemma_encode_concat(rendered(p, ind), brk_text);
            lemma_encode_concat(rendered(p, ind) + brk_text, step_text(e));
            assert(rendered(evs.take(i + 1), ind) == rendered(p, ind) + brk_text + step_text(e));
        }
        match &events[i] {
            XmlOut::Start(_, _) => {
                brk = true;
                depth = depth + 1;
            },
            XmlOut::End(_) => {
                brk = true;
                if depth > 0 {
                    depth = depth - 1;
                }
            },
            XmlOut::Empty(_, _) => {
                brk = true;
            },
            XmlOut::Decl(_, _, _) => {
                brk = true;
            },
            XmlOut::Text(_) => {
                brk = false;
            },
            XmlOut::Raw(_) => {},
        }
        i = i + 1;
    }
    assert(evs.take(events.len() as int) =~= evs);
    let bytes = writer_finish(w);
    proof {
        encode_utf8_valid_utf8(rendered(evs, ind));
        encode_utf8_decode_utf8(rendered(evs, ind));
    }
    match string_from_utf8(bytes) {
        Ok(s) => Ok(s),
        Err(e) => Err(Kdl2XmlError::Utf8(e)),
    }
}

} // verus!
