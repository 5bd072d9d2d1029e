use kdl::KdlDocument;
use kdl_xml::kdl_to_xml::model::{KEntry, KNode, KValue};
use kdl_xml::kdl_to_xml::writers::{node_to_xml, XmlOut};
use kdl_xml::xml_to_kdl::types::XmlNode;
use kdl_xml::xml_to_kdl::xml_node_to_kdl;
use kdl_xml::{CompactMode, Kdl2XmlError, KdlToXmlConverter, Xml2KdlError, XmlToKdlConverter};

fn kdl2xml(kdl: &str) -> String {
    KdlToXmlConverter::new()
        .pretty(false)
        .convert(kdl)
        .expect("conversion failed")
}

fn xml2kdl(xml: &str) -> String {
    let mut doc = XmlToKdlConverter::new().convert(xml).expect("conversion failed");
    doc.autoformat();
    doc.to_string()
}

fn normalized(kdl: &str) -> String {
    let mut doc: KdlDocument = kdl.parse().expect("not valid KDL");
    doc.autoformat();
    doc.to_string()
}

#[test]
fn comment_escape_leaves_no_double_hyphen() {
    assert_eq!(kdl2xml("! \"x--y-\"\nroot"), "<!--x- -y- --><root/>");
}

#[test]
fn comment_escape_with_three_hyphens_leaves_no_pair() {
    assert_eq!(kdl2xml("! \"a---b\"\nroot"), "<!--a- - -b--><root/>");
    assert_eq!(kdl2xml("! \"---\"\nroot"), "<!--- - - --><root/>");
    assert_eq!(kdl2xml("! \"plain - text\"\nroot"), "<!--plain - text--><root/>");
}

#[test]
fn pi_argument_never_ends_the_instruction() {
    assert_eq!(kdl2xml("?custom \"a?>b??>\"\nroot"), "<?custom a? >b?? >?><root/>");
}

#[test]
fn pi_properties_are_written_as_attributes() {
    assert_eq!(
        kdl2xml("?custom a=\"x\\\"y\" b=\"?>\"\nroot"),
        "<?custom a=\"x&quot;y\" b=\"? >\"?><root/>"
    );
}

#[test]
fn compact_layout_changes_formatting_only() {
    let xml = "<div><p>Hi <b>x</b></p><ul><li>a</li><li>b</li></ul><img src=\"i.png\"/></div>";
    let plain = xml2kdl(xml);
    for mode in [CompactMode::All, CompactMode::Leaf] {
        let doc = XmlToKdlConverter::new()
            .compact_mode(mode)
            .convert(xml)
            .expect("conversion failed");
        assert_eq!(normalized(&doc.to_string()), normalized(&plain));
    }
}

#[test]
fn text_without_elements_is_kept_whatever_it_holds() {
    assert_eq!(xml2kdl("<a>  </a>").trim(), "a \"  \"");
}

#[test]
fn whitespace_beside_elements_is_dropped_unless_preserved() {
    assert_eq!(xml2kdl("<a> <b/> </a>").trim(), "a {\n    b\n}");
    let mut doc = XmlToKdlConverter::new()
        .preserve_whitespace(true)
        .convert("<a> <b/> </a>")
        .expect("conversion failed");
    doc.autoformat();
    assert_eq!(doc.to_string().trim(), "a {\n    - \" \"\n    b\n    - \" \"\n}");
}

#[test]
fn element_tree_round_trip() {
    let xml = "<doc lang=\"en\"><p>one <b>two</b> three</p><empty/><q x=\"1\">only text</q></doc>";
    assert_eq!(kdl2xml(&xml2kdl(xml)), xml);
}

#[test]
fn element_tree_round_trip_through_compact_layout() {
    let xml = "<ul><li>a</li><li>b <i>c</i></li></ul>";
    for mode in [CompactMode::Off, CompactMode::All, CompactMode::Leaf] {
        let doc = XmlToKdlConverter::new()
            .compact_mode(mode)
            .convert(xml)
            .expect("conversion failed");
        assert_eq!(kdl2xml(&doc.to_string()), xml);
    }
}

#[test]
fn kdl_parse_error_variant() {
    let r = KdlToXmlConverter::new().convert("{ invalid }");
    assert!(matches!(r, Err(Kdl2XmlError::KdlParse(_))));
}

#[test]
fn kdl_structure_error_messages() {
    let msg = |kdl: &str| match KdlToXmlConverter::new().pretty(false).convert(kdl) {
        Err(Kdl2XmlError::InvalidStructure(m)) => m,
        other => panic!("expected a structure error, got {:?}", other),
    };
    assert_eq!(msg("a; b"), "Document must contain exactly one root element, found 2");
    assert_eq!(msg("?xml version=\"1.0\""), "Document must contain exactly one root element");
    assert_eq!(msg("- \"text\"\nroot"), "Text nodes (-) not allowed at document root");
    assert_eq!(
        msg("root\n!doctype \"html\""),
        "DOCTYPE must appear before root element"
    );
    assert_eq!(
        msg("e \"a\" \"b\""),
        "Element 'e' cannot have multiple text arguments, found 2"
    );
    assert_eq!(
        msg("e x=1"),
        "Attribute 'x' on element 'e' must have a string value, got Integer(1)"
    );
    assert_eq!(msg("! \"a\" \"b\"\nroot"), "Comment node must have exactly one string argument, found 2");
}

#[test]
fn xml_parse_error_variant() {
    let r = XmlToKdlConverter::new().convert("<a></b>");
    assert!(matches!(r, Err(Xml2KdlError::XmlParse(_))));
}

#[test]
fn xml_structure_error_messages() {
    let msg = |xml: &str| match XmlToKdlConverter::new().convert(xml) {
        Err(Xml2KdlError::InvalidStructure(m)) => m,
        other => panic!("expected a structure error, got {:?}", other),
    };
    assert_eq!(msg("<a/><b/>"), "Document must contain exactly one root element, found 2");
    assert_eq!(msg("<!-- c -->"), "Document must contain exactly one root element");
    assert_eq!(msg("<a/><!DOCTYPE html>"), "DOCTYPE must appear before root element");
}

#[test]
fn nodes_to_document_checks_the_top_level() {
    let converter = XmlToKdlConverter::new();
    let text = vec![
        XmlNode::Text("hello".to_string()),
        XmlNode::Element { name: "a".to_string(), attributes: vec![], children: vec![] },
    ];
    match converter.nodes_to_kdl_document(&text) {
        Err(Xml2KdlError::InvalidStructure(m)) => {
            assert_eq!(m, "Text content not allowed at document root")
        }
        other => panic!("expected a structure error, got {:?}", other),
    }
    let ok = vec![
        XmlNode::DocType("html".to_string()),
        XmlNode::Text("\n  ".to_string()),
        XmlNode::Element {
            name: "html".to_string(),
            attributes: vec![("lang".to_string(), "en".to_string())],
            children: vec![XmlNode::Text("hi".to_string())],
        },
    ];
    let mut doc = converter.nodes_to_kdl_document(&ok).expect("accepted");
    doc.autoformat();
    assert_eq!(doc.to_string().trim(), "!doctype html\nhtml lang=en hi");
}

#[test]
fn bare_text_gives_no_node() {
    assert!(xml_node_to_kdl(&XmlNode::Text("t".to_string()), false).is_none());
    let pi = XmlNode::ProcessingInstruction {
        target: "php".to_string(),
        content: Some("echo 1;".to_string()),
    };
    let node = xml_node_to_kdl(&pi, false).expect("a node");
    assert_eq!(node.name().value(), "?php");
}

#[test]
fn pretty_printing_indents_with_the_indent_string() {
    let xml = KdlToXmlConverter::new()
        .indent("\t")
        .convert("a { b \"t\" }")
        .expect("conversion failed");
    assert_eq!(xml.trim_end(), "<a>\n\t<b>t</b>\n</a>");
    let wide = KdlToXmlConverter::new()
        .indent("    ")
        .convert("a { b \"t\" }")
        .expect("conversion failed");
    assert_eq!(wide.trim_end(), "<a>\n    <b>t</b>\n</a>");
    let tabbed = KdlToXmlConverter::new().indent("\t").convert("parent { child }");
    assert_eq!(tabbed.expect("conversion failed"), "<parent>\n\t<child/>\n</parent>");
}

#[test]
fn keeping_comments_only_adds_comment_nodes() {
    let xml = "<a><!-- note --><b>t</b><!-- end --></a>";
    let mut with = XmlToKdlConverter::new()
        .comments_as_nodes(true)
        .convert(xml)
        .expect("conversion failed");
    with.autoformat();
    assert_eq!(
        with.to_string().trim(),
        "a {\n    ! \" note \"\n    b t\n    ! \" end \"\n}"
    );
    assert_eq!(xml2kdl(xml).trim(), "a {\n    b t\n}");
}

#[test]
fn element_fault_writes_nothing() {
    let mut out: Vec<XmlOut> = vec![XmlOut::Raw("<x>".to_string())];
    let bad = KNode {
        name: "e".to_string(),
        entries: vec![
            KEntry { name: None, key: None, value: KValue::Str("a".to_string()) },
            KEntry { name: None, key: None, value: KValue::Str("b".to_string()) },
        ],
        children: None,
    };
    assert!(node_to_xml(&bad, &mut out, false).is_err());
    assert_eq!(out.len(), 1);
    let bad_pi = KNode { name: "?".to_string(), entries: vec![], children: None };
    assert!(node_to_xml(&bad_pi, &mut out, true).is_err());
    assert_eq!(out.len(), 1);
}

#[test]
fn unreadable_events_give_their_errors() {
    match XmlToKdlConverter::new().convert("<p>&unknown;</p>") {
        Err(Xml2KdlError::InvalidStructure(m)) => assert!(m.starts_with("Unescape error: "), "{m}"),
        other => panic!("expected an unescape error, got {:?}", other),
    }
    let r = XmlToKdlConverter::new().convert("<a x=\"&unknown;\"/>");
    assert!(matches!(r, Err(Xml2KdlError::XmlParse(_))), "{:?}", r);
}
