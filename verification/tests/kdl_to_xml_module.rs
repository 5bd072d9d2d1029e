use kdl_xml::KdlToXmlConverter;

fn convert(kdl: &str) -> String {
    let converter = KdlToXmlConverter::new().pretty(false);
    converter.convert(kdl).expect("Conversion failed")
}

#[test]
fn test_simple_element() {
    let xml = convert("root");
    assert_eq!(xml, "<root/>");
}

#[test]
fn test_element_with_attribute() {
    let xml = convert(r#"element foo="bar""#);
    assert_eq!(xml, r#"<element foo="bar"/>"#);
}

#[test]
fn test_element_with_text() {
    let xml = convert(r#"greeting "hello""#);
    assert_eq!(xml, "<greeting>hello</greeting>");
}

#[test]
fn test_nested_elements() {
    let xml = convert("parent { child }");
    assert_eq!(xml, "<parent><child/></parent>");
}

#[test]
fn test_mixed_content() {
    let xml = convert(r#"span { - "before "; b "bold"; - " after" }"#);
    assert_eq!(xml, "<span>before <b>bold</b> after</span>");
}

#[test]
fn test_doctype() {
    let xml = convert(
        r#"!doctype "html"
html"#,
    );
    assert!(xml.contains("<!DOCTYPE html>"));
    assert!(xml.contains("<html/>"));
}

#[test]
fn test_xml_declaration() {
    let xml = convert(
        r#"?xml version="1.0" encoding="UTF-8"
root"#,
    );
    assert!(xml.contains("<?xml"));
    assert!(xml.contains("version=\"1.0\""));
    assert!(xml.contains("<root/>"));
}

#[test]
fn test_comment() {
    let xml = convert(
        r#"! " comment "
root"#,
    );
    assert!(xml.contains("<!-- comment -->"));
    assert!(xml.contains("<root/>"));
}

#[test]
fn test_multiple_attributes() {
    let xml = convert(r#"link href="style.css" rel="stylesheet""#);
    assert!(xml.contains("href=\"style.css\""));
    assert!(xml.contains("rel=\"stylesheet\""));
}

#[test]
fn test_namespace_prefix() {
    let xml = convert(r#"ns:element xmlns:ns="http://example.com""#);
    assert!(xml.contains("ns:element"));
    assert!(xml.contains("xmlns:ns="));
}

#[test]
fn test_deeply_nested() {
    let xml = convert("a { b { c { d text } } }");
    assert_eq!(xml, "<a><b><c><d>text</d></c></b></a>");
}

#[test]
fn test_entity_encoding() {
    let xml = convert(r#"p "<hello> & \"world\"""#);
    // The text should be escaped in XML
    assert!(xml.contains("&lt;hello&gt;"));
    assert!(xml.contains("&amp;"));
}
