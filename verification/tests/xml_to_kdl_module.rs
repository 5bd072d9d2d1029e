use kdl::KdlValue;
use kdl_xml::XmlToKdlConverter;

#[test]
fn mod_test_simple_element() {
    let converter = XmlToKdlConverter::new();
    let kdl = converter.convert("<root/>").unwrap();
    assert_eq!(kdl.nodes().len(), 1);
    assert_eq!(kdl.nodes()[0].name().to_string(), "root");
}

#[test]
fn mod_test_element_with_text() {
    let converter = XmlToKdlConverter::new();
    let kdl = converter.convert("<greeting>hello</greeting>").unwrap();
    let node = &kdl.nodes()[0];
    assert_eq!(node.entries().len(), 1);
    assert_eq!(
        node.entries()[0].value(),
        &KdlValue::String("hello".to_string())
    );
}

#[test]
fn test_element_with_attributes() {
    let converter = XmlToKdlConverter::new();
    let kdl = converter
        .convert(r#"<link href="http://example.com" rel="stylesheet"/>"#)
        .unwrap();
    let node = &kdl.nodes()[0];
    assert!(node.get("href").is_some());
    assert!(node.get("rel").is_some());
}

#[test]
fn mod_test_mixed_content() {
    let converter = XmlToKdlConverter::new();
    let kdl = converter
        .convert("<span>some <b>bold</b> text</span>")
        .unwrap();
    let node = &kdl.nodes()[0];
    let children = node.children().unwrap();

    // Should have: - "some ", b "bold", - " text"
    assert_eq!(children.nodes().len(), 3);
    assert_eq!(children.nodes()[0].name().to_string(), "-");
    assert_eq!(children.nodes()[1].name().to_string(), "b");
    assert_eq!(children.nodes()[2].name().to_string(), "-");
}

#[test]
fn mod_test_doctype() {
    let converter = XmlToKdlConverter::new();
    let kdl = converter.convert("<!DOCTYPE html><html/>").unwrap();
    assert_eq!(kdl.nodes()[0].name().to_string(), "!doctype");
}

#[test]
fn test_processing_instruction() {
    let converter = XmlToKdlConverter::new();
    let kdl = converter
        .convert(r#"<?xml version="1.0" encoding="UTF-8"?><root/>"#)
        .unwrap();
    let pi_node = &kdl.nodes()[0];
    assert_eq!(pi_node.name().to_string(), "?xml");
    assert!(pi_node.get("version").is_some());
}

#[test]
fn test_comment_as_node() {
    let converter = XmlToKdlConverter::new().comments_as_nodes(true);
    let kdl = converter.convert("<!-- test comment --><root/>").unwrap();
    let comment_node = &kdl.nodes()[0];
    assert_eq!(comment_node.name().to_string(), "!");
}

#[test]
fn mod_test_nested_elements() {
    let converter = XmlToKdlConverter::new();
    let kdl = converter
        .convert("<parent><child><grandchild/></child></parent>")
        .unwrap();
    let parent = &kdl.nodes()[0];
    let child = &parent.children().unwrap().nodes()[0];
    let grandchild = &child.children().unwrap().nodes()[0];
    assert_eq!(grandchild.name().to_string(), "grandchild");
}

#[test]
fn test_cdata() {
    let converter = XmlToKdlConverter::new();
    let kdl = converter
        .convert("<script><![CDATA[var x = 1 < 2;]]></script>")
        .unwrap();
    let node = &kdl.nodes()[0];
    // CDATA should be treated as text
    assert_eq!(
        node.entries()[0].value(),
        &KdlValue::String("var x = 1 < 2;".to_string())
    );
}

#[test]
fn test_entity_decoding() {
    let converter = XmlToKdlConverter::new();
    let kdl = converter
        .convert("<p>&lt;hello&gt; &amp; &quot;world&quot;</p>")
        .unwrap();
    let node = &kdl.nodes()[0];
    assert_eq!(
        node.entries()[0].value(),
        &KdlValue::String("<hello> & \"world\"".to_string())
    );
}

#[test]
fn mod_test_namespace_prefix() {
    let converter = XmlToKdlConverter::new();
    let kdl = converter
        .convert(
            r#"<svg xmlns:xlink="http://www.w3.org/1999/xlink"><a xlink:href="url"/></svg>"#,
        )
        .unwrap();
    let svg = &kdl.nodes()[0];
    let a = &svg.children().unwrap().nodes()[0];
    assert!(a.get("xlink:href").is_some());
}
