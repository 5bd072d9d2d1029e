use kdl_xml::kdl_to_xml::validation::validate_doctype_content;
use kdl_xml::validation::validate_xml_name;
use kdl_xml::Kdl2XmlError;

#[test]
fn test_valid_names() {
    assert!(validate_xml_name("root", "element").is_ok());
    assert!(validate_xml_name("_private", "element").is_ok());
    assert!(validate_xml_name(":colon", "element").is_ok());
    assert!(validate_xml_name("my-element", "element").is_ok());
    assert!(validate_xml_name("my.element", "element").is_ok());
    assert!(validate_xml_name("ns:element", "element").is_ok());
    assert!(validate_xml_name("element123", "element").is_ok());
}

#[test]
fn test_invalid_names() {
    assert!(validate_xml_name("", "element").is_err());
    assert!(validate_xml_name("123start", "element").is_err());
    assert!(validate_xml_name("-hyphen", "element").is_err());
    assert!(validate_xml_name("has space", "element").is_err());
    assert!(validate_xml_name("has@symbol", "element").is_err());
}

#[test]
fn test_valid_doctype() {
    assert!(validate_doctype_content("html").is_ok());
    assert!(
        validate_doctype_content(
            "html PUBLIC \"-//W3C//DTD XHTML 1.0//EN\" \"http://example.com\""
        )
        .is_ok()
    );
    assert!(validate_doctype_content("root [<!ELEMENT root ANY>]").is_ok());
}

#[test]
fn test_invalid_doctype_injection() {
    assert!(validate_doctype_content("html><script>evil</script").is_err());
}

#[test]
fn test_invalid_doctype_unclosed_quote() {
    assert!(validate_doctype_content("html PUBLIC \"unclosed").is_err());
}

#[test]
fn test_empty_doctype() {
    assert!(validate_doctype_content("").is_err());
}

fn structure_message(r: Result<(), Kdl2XmlError>) -> String {
    match r {
        Err(Kdl2XmlError::InvalidStructure(m)) => m,
        other => panic!("expected a structure error, got {:?}", other),
    }
}

#[test]
fn name_error_messages_name_the_context() {
    assert_eq!(
        structure_message(validate_xml_name("", "element")),
        "element name cannot be empty"
    );
    assert_eq!(
        structure_message(validate_xml_name("1a", "attribute")),
        "Invalid attribute name '1a': must start with a letter, underscore, or colon"
    );
    assert_eq!(
        structure_message(validate_xml_name("a b", "element")),
        "Invalid element name 'a b': contains invalid character ' '"
    );
}

#[test]
fn name_with_non_ascii_letters_is_refused() {
    assert!(validate_xml_name("élément", "element").is_err());
    assert!(validate_xml_name("a数", "element").is_err());
}

#[test]
fn doctype_quotes_of_both_kinds_may_hide_angle_brackets() {
    assert!(validate_doctype_content("html SYSTEM 'a>b'").is_ok());
    assert!(validate_doctype_content("html SYSTEM \"a>b\"").is_ok());
    assert!(validate_doctype_content("html SYSTEM 'unclosed").is_err());
}

#[test]
fn doctype_errors_say_why() {
    assert_eq!(
        structure_message(validate_doctype_content("  ")),
        "DOCTYPE content cannot be empty"
    );
    assert_eq!(
        structure_message(validate_doctype_content("html [<!ENTITY a 'b'>")),
        "DOCTYPE content has unclosed internal subset bracket"
    );
    assert_eq!(
        structure_message(validate_doctype_content("html PUBLIC \"x")),
        "DOCTYPE content has unclosed quote"
    );
    assert_eq!(
        structure_message(validate_doctype_content("html x>y")),
        "DOCTYPE content contains unquoted '>' which would produce invalid XML"
    );
}

#[test]
fn doctype_root_name_must_be_a_name() {
    assert!(validate_doctype_content("123invalid").is_err());
    assert!(validate_doctype_content("   ").is_err());
}
