//! Bidirectional XML to KDL conversion following the XiK (XML in KDL) mapping.
pub mod constants;
pub mod error;
pub mod kdl_api;
pub mod kdl_to_xml;
pub mod round_trip;
pub mod text;
pub mod validation;
pub mod xml_api;
pub mod xml_to_kdl;

pub use error::{Kdl2XmlError, Kdl2XmlResult, Result, Xml2KdlError};
pub use kdl_to_xml::KdlToXmlConverter;
pub use xml_to_kdl::{CompactMode, XmlToKdlConverter};
