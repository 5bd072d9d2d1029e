use vstd::prelude::*;

verus! {

#[verifier::external_type_specification]
#[verifier::external_body]
pub struct ExQuickXmlError(quick_xml::Error);

#[verifier::external_type_specification]
#[verifier::external_body]
pub struct ExKdlError(kdl::KdlError);

#[verifier::external_type_specification]
#[verifier::external_body]
pub struct ExIoError(std::io::Error);

#[verifier::external_type_specification]
#[verifier::external_body]
pub struct ExUtf8Error(std::str::Utf8Error);

#[verifier::external_type_specification]
#[verifier::external_body]
pub struct ExFromUtf8Error(std::string::FromUtf8Error);

/// Errors of the XML to KDL direction.
#[derive(Debug)]
pub enum Xml2KdlError {
    /// The XML reader rejected the input.
    XmlParse(quick_xml::Error),
    /// An I/O error while reading.
    Io(std::io::Error),
    /// A name or a piece of text is not valid UTF-8.
    Utf8(std::str::Utf8Error),
    /// The document does not have the structure XiK asks for.
    InvalidStructure(String),
}

pub type Result<T> = core::result::Result<T, Xml2KdlError>;

/// Errors of the KDL to XML direction.
#[derive(Debug)]
pub enum Kdl2XmlError {
    /// The KDL parser rejected the input.
    KdlParse(kdl::KdlError),
    /// An I/O error while writing.
    Io(std::io::Error),
    /// The produced bytes are not valid UTF-8.
    Utf8(std::string::FromUtf8Error),
    /// The document does not have the structure XiK asks for.
    InvalidStructure(String),
}

pub type Kdl2XmlResult<T> = core::result::Result<T, Kdl2XmlError>;

} // verus!
