//! An XML document object model with a namespace-aware element tree,
//! a serializer and a deserializer, verified with Verus.
pub mod error;
pub mod text;
pub mod seqs;
pub mod validation;
pub mod dom;
pub mod parser;

pub use error::XmlError;
pub use parser::{SerializeOptions, XmlSerializer, XmlDeserializer, XmlEvent};
pub use dom::{XmlAttribute, NamespaceDeclaration, XmlNamespace, NsAlias, NsUrl, XmlElement, XmlElementContentType, NodeId, Tag, NsTag, XmlDocument};
