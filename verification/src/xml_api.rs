//! The calls into `quick_xml` on the reading side: the reader, the events it
//! hands out, and the decoding and unescaping of their contents.
use vstd::prelude::*;

use quick_xml::events::Event;
use vstd::utf8::{decode_utf8, encode_utf8, valid_utf8};

verus! {

#[verifier::external_type_specification]
#[verifier::external_body]
#[verifier::reject_recursive_types(R)]
pub struct ExReader<R>(quick_xml::Reader<R>);

#[verifier::external_type_specification]
#[verifier::external_body]
pub struct ExBytesStart<'a>(quick_xml::events::BytesStart<'a>);

#[verifier::external_type_specification]
#[verifier::external_body]
pub struct ExBytesText<'a>(quick_xml::events::BytesText<'a>);

#[verifier::external_type_specification]
#[verifier::external_body]
pub struct ExBytesCData<'a>(quick_xml::events::BytesCData<'a>);

#[verifier::external_type_specification]
#[verifier::external_body]
pub struct ExBytesRef<'a>(quick_xml::events::BytesRef<'a>);

#[verifier::external_type_specification]
#[verifier::external_body]
pub struct ExBytesDecl<'a>(quick_xml::events::BytesDecl<'a>);

#[verifier::external_type_specification]
#[verifier::external_body]
pub struct ExBytesPI<'a>(quick_xml::events::BytesPI<'a>);

#[verifier::external_type_specification]
#[verifier::external_body]
pub struct ExAttributes<'a>(quick_xml::events::attributes::Attributes<'a>);

#[verifier::external_type_specification]
#[verifier::external_body]
pub struct ExAttribute<'a>(quick_xml::events::attributes::Attribute<'a>);

#[verifier::external_type_specification]
#[verifier::external_body]
pub struct ExAttrError(quick_xml::events::attributes::AttrError);

#[verifier::external_type_specification]
#[verifier::external_body]
pub struct ExEncodingError(quick_xml::encoding::EncodingError);

#[verifier::external_type_specification]
#[verifier::external_body]
pub struct ExEscapeError(quick_xml::escape::EscapeError);

/// An event of the reader, with its payload owned.
pub enum RawEvent {
    Start(quick_xml::events::BytesStart<'static>),
    End,
    Empty(quick_xml::events::BytesStart<'static>),
    Text(quick_xml::events::BytesText<'static>),
    CData(quick_xml::events::BytesCData<'static>),
    Comment(quick_xml::events::BytesText<'static>),
    Decl(quick_xml::events::BytesDecl<'static>),
    PI(quick_xml::events::BytesPI<'static>),
    DocType(quick_xml::events::BytesText<'static>),
    GeneralRef(quick_xml::events::BytesRef<'static>),
    Eof,
}

/// The name of a start tag, as bytes.
pub uninterp spec fn xml_start_name(e: quick_xml::events::BytesStart<'static>) -> Seq<u8>;

/// The attributes that an attribute iterator has yet to hand out: the key and
/// the raw value of each, or `None` where the iterator reports an error.
pub uninterp spec fn xml_attributes_left(it: quick_xml::events::attributes::Attributes<'_>) -> Seq<Option<(Seq<u8>, Seq<u8>)>>;

/// The attributes of a start tag, as its attribute iterator hands them out.
pub uninterp spec fn xml_start_attributes(e: quick_xml::events::BytesStart<'static>) -> Seq<Option<(Seq<u8>, Seq<u8>)>>;

/// The key of an attribute, as bytes.
pub uninterp spec fn xml_attribute_key(a: quick_xml::events::attributes::Attribute<'_>) -> Seq<u8>;

/// The raw value of an attribute, as bytes.
pub uninterp spec fn xml_attribute_raw(a: quick_xml::events::attributes::Attribute<'_>) -> Seq<u8>;

/// The value of an attribute, decoded and unescaped, or `None` when that fails.
pub uninterp spec fn xml_attribute_value(raw: Seq<u8>) -> Option<Seq<char>>;

/// The bytes of a text, comment or DOCTYPE event.
pub uninterp spec fn xml_text_content(e: quick_xml::events::BytesText<'static>) -> Seq<u8>;

/// The bytes of a CDATA event.
pub uninterp spec fn xml_cdata_content(e: quick_xml::events::BytesCData<'static>) -> Seq<u8>;

/// The bytes of an entity reference (between `&` and `;`).
pub uninterp spec fn xml_ref_content(e: quick_xml::events::BytesRef<'static>) -> Seq<u8>;

/// The bytes of a processing instruction (between `<?` and `?>`).
pub uninterp spec fn xml_pi_content(e: quick_xml::events::BytesPI<'static>) -> Seq<u8>;

/// The `version` of an XML declaration, when it can be read.
pub uninterp spec fn xml_decl_version(e: quick_xml::events::BytesDecl<'static>) -> Option<Seq<u8>>;

/// The `encoding` of an XML declaration, when it is present and can be read.
pub uninterp spec fn xml_decl_encoding(e: quick_xml::events::BytesDecl<'static>) -> Option<Seq<u8>>;

/// The `standalone` of an XML declaration, when it is present and can be read.
pub uninterp spec fn xml_decl_standalone(e: quick_xml::events::BytesDecl<'static>) -> Option<Seq<u8>>;

/// Text with its XML escapes (`&lt;`, `&#65;`, ...) resolved, or `None` when
/// an escape is not recognized.
pub uninterp spec fn xml_unescaped(s: Seq<char>) -> Option<Seq<char>>;

/// What a slice reader hands out from where it stands, one outcome per call
/// of `read_event_into` (the event made owned): every event up to and
/// including the first `Eof` or the first error. A slice reader consumes
/// input with every other event, so the outcomes are finitely many.
pub uninterp spec fn xml_reader_ahead(r: quick_xml::Reader<&[u8]>) -> Seq<Result<RawEvent, quick_xml::Error>>;

/// What the reader hands out, as [`xml_reader_ahead`] says, once its text
/// trimming is switched off (`trim_text(false)`).
pub uninterp spec fn xml_reader_untrimmed(r: quick_xml::Reader<&[u8]>) -> Seq<Result<RawEvent, quick_xml::Error>>;

/// What a reader made by `Reader::from_str` of the text hands out with text
/// trimming off, as [`xml_reader_ahead`] says.
pub uninterp spec fn xml_text_events(text: Seq<char>) -> Seq<Result<RawEvent, quick_xml::Error>>;

/// `Reader::from_str`: a reader over the text.
#[verifier::external_body]
pub fn reader_from_str(s: &str) -> (r: quick_xml::Reader<&[u8]>)
    ensures
        xml_reader_untrimmed(r) == xml_text_events(s@),
{
    quick_xml::Reader::from_str(s)
}

/// `Config::trim_text(false)` on the reader's configuration: from then on
/// text is handed out as it stands.
#[verifier::external_body]
pub fn reader_keep_text(r: &mut quick_xml::Reader<&[u8]>)
    ensures
        xml_reader_ahead(*final(r)) == xml_reader_untrimmed(*old(r)),
{
    r.config_mut().trim_text(false);
}

/// `Reader::read_event_into` and `Event::into_owned`, with the event's
/// variant told apart: the first of the outcomes ahead; after an event other
/// than `Eof`, the rest are ahead.
#[verifier::external_body]
pub fn read_event(r: &mut quick_xml::Reader<&[u8]>, buf: &mut Vec<u8>) -> (res: Result<RawEvent, quick_xml::Error>)
    ensures
        xml_reader_ahead(*old(r)).len() > 0,
        res == xml_reader_ahead(*old(r))[0],
        res matches Ok(ev) && !(ev is Eof) ==> xml_reader_ahead(*final(r)) == xml_reader_ahead(
            *old(r),
        ).drop_first(),
{
    Ok(match r.read_event_into(buf)?.into_owned() {
        Event::Start(e) => RawEvent::Start(e),
        Event::End(_) => RawEvent::End,
        Event::Empty(e) => RawEvent::Empty(e),
        Event::Text(e) => RawEvent::Text(e),
        Event::CData(e) => RawEvent::CData(e),
        Event::Comment(e) => RawEvent::Comment(e),
        Event::Decl(e) => RawEvent::Decl(e),
        Event::PI(e) => RawEvent::PI(e),
        Event::DocType(e) => RawEvent::DocType(e),
        Event::GeneralRef(e) => RawEvent::GeneralRef(e),
        Event::Eof => RawEvent::Eof,
    })
}

/// `std::str::from_utf8`: succeeds exactly on valid UTF-8, with the decoded characters.
#[verifier::external_body]
pub fn utf8_str(b: &[u8]) -> (res: Result<&str, std::str::Utf8Error>)
    ensures
        res is Ok <==> valid_utf8(b@),
        res matches Ok(s) ==> s@ == decode_utf8(b@),
{
    std::str::from_utf8(b)
}

/// `BytesStart::name`, as bytes.
#[verifier::external_body]
pub fn start_name_bytes(e: &quick_xml::events::BytesStart<'static>) -> (res: Vec<u8>)
    ensures
        res@ == xml_start_name(*e),
{
    e.name().as_ref().to_vec()
}

/// `BytesStart::attributes`.
#[verifier::external_body]
pub fn start_attributes<'a>(e: &'a quick_xml::events::BytesStart<'static>) -> (it: quick_xml::events::attributes::Attributes<'a>)
    ensures
        xml_attributes_left(it) == xml_start_attributes(*e),
{
    e.attributes()
}

/// `Iterator::next` on attributes: hands out the first attribute left, or
/// `None` when none is left.
#[verifier::external_body]
pub fn next_attribute<'a>(it: &mut quick_xml::events::attributes::Attributes<'a>) -> (res: Option<Result<quick_xml::events::attributes::Attribute<'a>, quick_xml::events::attributes::AttrError>>)
    ensures
        xml_attributes_left(*old(it)).len() == 0 ==> res is None && xml_attributes_left(*final(it))
            == xml_attributes_left(*old(it)),
        xml_attributes_left(*old(it)).len() > 0 ==> xml_attributes_left(*final(it))
            == xml_attributes_left(*old(it)).drop_first() && match xml_attributes_left(*old(it))[0] {
            Some(p) => res matches Some(Ok(a)) && xml_attribute_key(a) == p.0 && xml_attribute_raw(a) == p.1,
            None => res matches Some(Err(_)),
        },
{
    it.next()
}

/// The key of an attribute, as bytes.
#[verifier::external_body]
pub fn attribute_key_bytes(a: &quick_xml::events::attributes::Attribute<'_>) -> (res: Vec<u8>)
    ensures
        res@ == xml_attribute_key(*a),
{
    a.key.as_ref().to_vec()
}

/// `Attribute::unescape_value`.
#[verifier::external_body]
pub fn attribute_unescape_value(a: &quick_xml::events::attributes::Attribute<'_>) -> (res: Result<String, quick_xml::Error>)
    ensures
        match xml_attribute_value(xml_attribute_raw(*a)) {
            Some(v) => res matches Ok(s) && s@ == v,
            None => res is Err,
        },
{
    a.unescape_value().map(|v| v.into_owned())
}

/// `quick_xml::Error::from` an attribute error.
#[verifier::external_body]
pub fn attr_error_into(e: quick_xml::events::attributes::AttrError) -> (res: quick_xml::Error) {
    quick_xml::Error::from(e)
}

/// The bytes of a text, comment or DOCTYPE event (its `Deref`).
#[verifier::external_body]
pub fn text_bytes(e: &quick_xml::events::BytesText<'static>) -> (res: Vec<u8>)
    ensures
        res@ == xml_text_content(*e),
{
    e.to_vec()
}

/// `BytesText::decode`: without the `encoding` feature, UTF-8 decoding of the bytes.
#[verifier::external_body]
pub fn text_decode(e: &quick_xml::events::BytesText<'static>) -> (res: Result<String, quick_xml::encoding::EncodingError>)
    ensures
        res is Ok <==> valid_utf8(xml_text_content(*e)),
        res matches Ok(s) ==> s@ == decode_utf8(xml_text_content(*e)),
        res matches Err(err) ==> xml_encoding_error_text(err) == xml_decode_error_message(xml_text_content(*e)),
{
    e.decode().map(|s| s.into_owned())
}

/// `BytesCData::decode`: without the `encoding` feature, UTF-8 decoding of the bytes.
#[verifier::external_body]
pub fn cdata_decode(e: &quick_xml::events::BytesCData<'static>) -> (res: Result<String, quick_xml::encoding::EncodingError>)
    ensures
        res is Ok <==> valid_utf8(xml_cdata_content(*e)),
        res matches Ok(s) ==> s@ == decode_utf8(xml_cdata_content(*e)),
        res matches Err(err) ==> xml_encoding_error_text(err) == xml_decode_error_message(xml_cdata_content(*e)),
{
    e.decode().map(|s| s.into_owned())
}

/// `BytesRef::decode`: without the `encoding` feature, UTF-8 decoding of the bytes.
#[verifier::external_body]
pub fn general_ref_decode(e: &quick_xml::events::BytesRef<'static>) -> (res: Result<String, quick_xml::encoding::EncodingError>)
    ensures
        res is Ok <==> valid_utf8(xml_ref_content(*e)),
        res matches Ok(s) ==> s@ == decode_utf8(xml_ref_content(*e)),
        res matches Err(err) ==> xml_encoding_error_text(err) == xml_decode_error_message(xml_ref_content(*e)),
{
    e.decode().map(|s| s.into_owned())
}

/// The bytes of a processing instruction (its `Deref`).
#[verifier::external_body]
pub fn pi_bytes(e: &quick_xml::events::BytesPI<'static>) -> (res: Vec<u8>)
    ensures
        res@ == xml_pi_content(*e),
{
    e.to_vec()
}

/// `BytesDecl::version`, with a failure read as absence.
#[verifier::external_body]
pub fn decl_version(e: &quick_xml::events::BytesDecl<'static>) -> (res: Option<Vec<u8>>)
    ensures
        match res {
            Some(v) => xml_decl_version(*e) == Some(v@),
            None => xml_decl_version(*e) is None,
        },
{
    e.version().ok().map(|v| v.into_owned())
}

/// `BytesDecl::encoding`, with a failure read as absence.
#[verifier::external_body]
pub fn decl_encoding(e: &quick_xml::events::BytesDecl<'static>) -> (res: Option<Vec<u8>>)
    ensures
        match res {
            Some(v) => xml_decl_encoding(*e) == Some(v@),
            None => xml_decl_encoding(*e) is None,
        },
{
    e.encoding().and_then(|r| r.ok()).map(|v| v.into_owned())
}

/// `BytesDecl::standalone`, with a failure read as absence.
#[verifier::external_body]
pub fn decl_standalone(e: &quick_xml::events::BytesDecl<'static>) -> (res: Option<Vec<u8>>)
    ensures
        match res {
            Some(v) => xml_decl_standalone(*e) == Some(v@),
            None => xml_decl_standalone(*e) is None,
        },
{
    e.standalone().and_then(|r| r.ok()).map(|v| v.into_owned())
}

/// The `Display` text of the error that `quick_xml::escape::unescape` gives
/// for a text it cannot unescape.
pub uninterp spec fn xml_unescape_error_message(s: Seq<char>) -> Seq<char>;

/// The `Display` text of the error that UTF-8 decoding gives in `quick_xml`
/// (`BytesText::decode` and the like) for bytes that are not UTF-8.
pub uninterp spec fn xml_decode_error_message(b: Seq<u8>) -> Seq<char>;

/// `quick_xml::escape::unescape`.
#[verifier::external_body]
pub fn xml_unescape(s: &str) -> (res: Result<String, quick_xml::escape::EscapeError>)
    ensures
        match xml_unescaped(s@) {
            Some(t) => res matches Ok(r) && r@ == t,
            None => res matches Err(err) && xml_escape_error_text(err) == xml_unescape_error_message(s@),
        },
{
    quick_xml::escape::unescape(s).map(|t| t.into_owned())
}

/// The `Display` text of a decoding error (`cannot decode input using UTF-8: `
/// and the UTF-8 error's text).
pub uninterp spec fn xml_encoding_error_text(e: quick_xml::encoding::EncodingError) -> Seq<char>;

/// The `Display` text of a decoding error, as [`xml_encoding_error_text`] names it.
#[verifier::external_body]
pub fn encoding_error_text(e: &quick_xml::encoding::EncodingError) -> (res: String)
    ensures
        res@ == xml_encoding_error_text(*e),
{
    format!("{}", e)
}

/// The `Display` text of an unescaping error.
pub uninterp spec fn xml_escape_error_text(e: quick_xml::escape::EscapeError) -> Seq<char>;

/// The `Display` text of an unescaping error, as [`xml_escape_error_text`] names it.
#[verifier::external_body]
pub fn escape_error_text(e: &quick_xml::escape::EscapeError) -> (res: String)
    ensures
        res@ == xml_escape_error_text(*e),
{
    format!("{}", e)
}

// ---------------------------------------------------------------------------
// Writing
// ---------------------------------------------------------------------------

#[verifier::external_type_specification]
#[verifier::external_body]
#[verifier::reject_recursive_types(W)]
pub struct ExWriter<W>(quick_xml::Writer<W>);

#[verifier::external_type_specification]
#[verifier::external_body]
#[verifier::reject_recursive_types(T)]
pub struct ExCursor<T>(std::io::Cursor<T>);

/// One character as `quick_xml::escape::escape` writes it: `<`, `>`, `&`,
/// `'` and `"` as `&lt;`, `&gt;`, `&amp;`, `&apos;` and `&quot;`, any other
/// character as it is.
pub open spec fn xml_escape_char(c: char) -> Seq<char> {
    if c == '<' {
        "&lt;"@
    } else if c == '>' {
        "&gt;"@
    } else if c == '&' {
        "&amp;"@
    } else if c == '\'' {
        "&apos;"@
    } else if c == '"' {
        "&quot;"@
    } else {
        seq![c]
    }
}

/// What `quick_xml::escape::escape` gives: each character as [`xml_escape_char`] writes it.
pub open spec fn xml_escape(s: Seq<char>) -> Seq<char>
    decreases s.len(),
{
    if s.len() == 0 {
        Seq::empty()
    } else {
        xml_escape(s.drop_last()) + xml_escape_char(s.last())
    }
}

/// The content of the declaration that `BytesDecl::new` makes:
/// `xml version="…"`, then ` encoding="…"` and ` standalone="…"` when given.
pub open spec fn xml_decl_text(version: Seq<char>, encoding: Option<Seq<char>>, standalone: Option<Seq<char>>) -> Seq<char> {
    "xml version=\""@ + version + match encoding {
        Some(e) => "\" encoding=\""@ + e,
        None => Seq::empty(),
    } + match standalone {
        Some(x) => "\" standalone=\""@ + x,
        None => Seq::empty(),
    } + "\""@
}

/// The bytes that the cursor under an XML writer holds.
pub uninterp spec fn xml_written(w: quick_xml::Writer<std::io::Cursor<Vec<u8>>>) -> Seq<u8>;

/// Whether an XML writer writes without indentation and its cursor stands
/// at the end of the bytes it holds, so that what is written is appended.
pub uninterp spec fn xml_writer_appends(w: quick_xml::Writer<std::io::Cursor<Vec<u8>>>) -> bool;

/// The bytes of a start tag being built: its name, then for each attribute
/// a space, the key, `="`, the value and `"`.
pub uninterp spec fn xml_tag_bytes(e: quick_xml::events::BytesStart<'static>) -> Seq<u8>;

/// `Writer::new` over an empty `Cursor<Vec<u8>>`: nothing written, no
/// indentation, the cursor at the start.
#[verifier::external_body]
pub fn writer_plain() -> (w: quick_xml::Writer<std::io::Cursor<Vec<u8>>>)
    ensures
        xml_written(w) == Seq::<u8>::empty(),
        xml_writer_appends(w),
{
    quick_xml::Writer::new(std::io::Cursor::new(Vec::new()))
}

/// `BytesStart::new`: a start tag whose bytes are the name's.
#[verifier::external_body]
pub fn start_tag(name: &str) -> (e: quick_xml::events::BytesStart<'static>)
    ensures
        xml_tag_bytes(e) == encode_utf8(name@),
{
    quick_xml::events::BytesStart::new(name.to_string())
}

/// `BytesStart::push_attribute` of a `(&str, &str)` pair: a space, the key as
/// it is, `="`, the value escaped with `escape`, and `"` are appended.
#[verifier::external_body]
pub fn start_tag_push_attribute(e: &mut quick_xml::events::BytesStart<'static>, key: &str, value: &str)
    ensures
        xml_tag_bytes(*final(e)) == xml_tag_bytes(*old(e)) + encode_utf8(
            " "@ + key@ + "=\""@ + xml_escape(value@) + "\""@,
        ),
{
    e.push_attribute((key, value));
}

/// `Writer::write_event` with `Event::Start`: `<`, the tag's bytes and `>` are
/// appended; writing to a `Cursor<Vec<u8>>` cannot fail.
#[verifier::external_body]
pub fn writer_start(w: &mut quick_xml::Writer<std::io::Cursor<Vec<u8>>>, e: quick_xml::events::BytesStart<'static>) -> (res: Result<(), std::io::Error>)
    requires
        xml_writer_appends(*old(w)),
    ensures
        res is Ok,
        xml_writer_appends(*final(w)),
        xml_written(*final(w)) == xml_written(*old(w)) + encode_utf8("<"@) + xml_tag_bytes(e) + encode_utf8(">"@),
{
    w.write_event(quick_xml::events::Event::Start(e))
}

/// `Writer::write_event` with `Event::Empty`: `<`, the tag's bytes and `/>`
/// are appended.
#[verifier::external_body]
pub fn writer_empty(w: &mut quick_xml::Writer<std::io::Cursor<Vec<u8>>>, e: quick_xml::events::BytesStart<'static>) -> (res: Result<(), std::io::Error>)
    requires
        xml_writer_appends(*old(w)),
    ensures
        res is Ok,
        xml_writer_appends(*final(w)),
        xml_written(*final(w)) == xml_written(*old(w)) + encode_utf8("<"@) + xml_tag_bytes(e) + encode_utf8("/>"@),
{
    w.write_event(quick_xml::events::Event::Empty(e))
}

/// `Writer::write_event` with `Event::End` of `BytesEnd::new(name)`: `</`,
/// the name and `>` are appended.
#[verifier::external_body]
pub fn writer_end(w: &mut quick_xml::Writer<std::io::Cursor<Vec<u8>>>, name: &str) -> (res: Result<(), std::io::Error>)
    requires
        xml_writer_appends(*old(w)),
    ensures
        res is Ok,
        xml_writer_appends(*final(w)),
        xml_written(*final(w)) == xml_written(*old(w)) + encode_utf8("</"@ + name@ + ">"@),
{
    w.write_event(quick_xml::events::Event::End(quick_xml::events::BytesEnd::new(name)))
}

/// `Writer::write_event` with `Event::Text` of `BytesText::new(text)`: the
/// text escaped with `escape` is appended.
#[verifier::external_body]
pub fn writer_text(w: &mut quick_xml::Writer<std::io::Cursor<Vec<u8>>>, text: &str) -> (res: Result<(), std::io::Error>)
    requires
        xml_writer_appends(*old(w)),
    ensures
        res is Ok,
        xml_writer_appends(*final(w)),
        xml_written(*final(w)) == xml_written(*old(w)) + encode_utf8(xml_escape(text@)),
{
    w.write_event(quick_xml::events::Event::Text(quick_xml::events::BytesText::new(text)))
}

/// `Writer::write_event` with `Event::Decl` of `BytesDecl::new(version,
/// encoding, standalone)`: `<?`, the declaration's content and `?>` are appended.
#[verifier::external_body]
pub fn writer_decl(
    w: &mut quick_xml::Writer<std::io::Cursor<Vec<u8>>>,
    version: &str,
    encoding: Option<&str>,
    standalone: Option<&str>,
) -> (res: Result<(), std::io::Error>)
    requires
        xml_writer_appends(*old(w)),
    ensures
        res is Ok,
        xml_writer_appends(*final(w)),
        xml_written(*final(w)) == xml_written(*old(w)) + encode_utf8(
            "<?"@ + xml_decl_text(
                version@,
                match encoding {
                    Some(x) => Some(x@),
                    None => None,
                },
                match standalone {
                    Some(x) => Some(x@),
                    None => None,
                },
            ) + "?>"@,
        ),
{
    w.write_event(quick_xml::events::Event::Decl(quick_xml::events::BytesDecl::new(version, encoding, standalone)))
}

/// `Writer::get_mut` and `Write::write_all` of the text's bytes: they are appended as they are.
#[verifier::external_body]
pub fn writer_raw(w: &mut quick_xml::Writer<std::io::Cursor<Vec<u8>>>, text: &str) -> (res: Result<(), std::io::Error>)
    requires
        xml_writer_appends(*old(w)),
    ensures
        res is Ok,
        xml_writer_appends(*final(w)),
        xml_written(*final(w)) == xml_written(*old(w)) + encode_utf8(text@),
{
    std::io::Write::write_all(w.get_mut(), text.as_bytes())
}

/// `Writer::into_inner` and `Cursor::into_inner`: the bytes written.
#[verifier::external_body]
pub fn writer_finish(w: quick_xml::Writer<std::io::Cursor<Vec<u8>>>) -> (res: Vec<u8>)
    ensures
        res@ == xml_written(w),
{
    w.into_inner().into_inner()
}

/// The `Display` text of an I/O error. Nothing is stated of the text.
#[verifier::external_body]
pub fn io_error_text(e: &std::io::Error) -> (res: String) {
    e.to_string()
}

/// `String::from_utf8`: succeeds exactly on valid UTF-8, with the decoded characters.
#[verifier::external_body]
pub fn string_from_utf8(v: Vec<u8>) -> (res: Result<String, std::string::FromUtf8Error>)
    ensures
        res is Ok <==> valid_utf8(v@),
        res matches Ok(s) ==> s@ == decode_utf8(v@),
{
    String::from_utf8(v)
}

} // verus!
