pub mod assoc;
pub mod attribute;
pub mod namespace;
pub mod element;

pub use attribute::XmlAttribute;
pub use namespace::{NamespaceDeclaration, XmlNamespace, NsAlias, NsUrl};
pub use element::{XmlElement, XmlElementContentType, NodeId, Tag, NsTag};
pub mod document;

pub use document::XmlDocument;
pub mod xpath;
pub mod laws;
