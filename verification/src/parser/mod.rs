pub mod plan;
pub mod namespace_optimizer;
pub mod optimizer_laws;
pub mod xml_serializer;
pub mod reader;
pub mod xml_deserializer;
pub mod start_tag;
pub mod replay;
pub use xml_serializer::{SerializeOptions, XmlSerializer};
pub use xml_deserializer::{XmlDeserializer, XmlEvent};
