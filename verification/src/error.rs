use vstd::prelude::*;

verus! {

/// The errors that the document model, the serializer and the deserializer report.
#[derive(Debug, Clone, PartialEq, Eq)]
pub enum XmlError {
    /// No element with this node id is stored in the document.
    ElementNotFound(u32),
    /// A tag is not a valid XML name.
    InvalidTagName,
    /// An attribute name is not a valid XML name.
    InvalidAttributeName,
    /// A tag uses a namespace alias that is not declared in scope.
    UndeclaredTagAlias,
    /// An attribute uses a namespace alias that is not declared in scope.
    UndeclaredAttributeAlias,
    /// The element already has attributes, so initial attributes cannot be set.
    AttributesAlreadySet,
    /// An attribute with the same namespaced name already exists on the element.
    DuplicateAttribute,
    /// The element has no content list.
    ContentsMissing,
    /// The node id counter of the document is exhausted.
    NodeIdOverflow,
    /// The element tree is deeper than the number of nodes the document ever held,
    /// so it contains a cycle.
    CyclicTree,
    /// An end tag does not match the open element: (open tag, end tag).
    EndTagMismatch(String, String),
    /// The XML reader reported an error, with its message.
    Reader(String),
    /// The XML reader returned more events than its input has bytes.
    ReaderStalled,
}

/// The model of an error: its variant, with texts as character sequences.
pub ghost enum ErrorModel {
    ElementNotFound(u32),
    InvalidTagName,
    InvalidAttributeName,
    UndeclaredTagAlias,
    UndeclaredAttributeAlias,
    AttributesAlreadySet,
    DuplicateAttribute,
    ContentsMissing,
    NodeIdOverflow,
    CyclicTree,
    EndTagMismatch(Seq<char>, Seq<char>),
    Reader(Seq<char>),
    ReaderStalled,
}

impl View for XmlError {
    type V = ErrorModel;

    open spec fn view(&self) -> ErrorModel {
        match self {
            XmlError::ElementNotFound(id) => ErrorModel::ElementNotFound(*id),
            XmlError::InvalidTagName => ErrorModel::InvalidTagName,
            XmlError::InvalidAttributeName => ErrorModel::InvalidAttributeName,
            XmlError::UndeclaredTagAlias => ErrorModel::UndeclaredTagAlias,
            XmlError::UndeclaredAttributeAlias => ErrorModel::UndeclaredAttributeAlias,
            XmlError::AttributesAlreadySet => ErrorModel::AttributesAlreadySet,
            XmlError::DuplicateAttribute => ErrorModel::DuplicateAttribute,
            XmlError::ContentsMissing => ErrorModel::ContentsMissing,
            XmlError::NodeIdOverflow => ErrorModel::NodeIdOverflow,
            XmlError::CyclicTree => ErrorModel::CyclicTree,
            XmlError::EndTagMismatch(a, b) => ErrorModel::EndTagMismatch(a@, b@),
            XmlError::Reader(m) => ErrorModel::Reader(m@),
            XmlError::ReaderStalled => ErrorModel::ReaderStalled,
        }
    }
}

} // verus!
