# draviavemal_xml_rs

An XML document object model with a namespace-aware element tree, a serializer and a
deserializer, verified with Verus.

- `src/dom`: attributes, namespace scopes, elements, documents, and the laws that tie
  their reads to their writes (`dom/laws.rs`), among them that the creating operations
  keep a document a tree, on which clearing and removing a stored element succeed.
- `src/parser`: the serializer (with its specification of the output text), the namespace
  optimizer (placement of prefixed declarations at the lowest common ancestor of their
  uses, or at each use where a binding of the same alias to another URI would clash, with
  its laws), and the deserializer (the construction of a document from reader
  events, verified; the events themselves come from `quick_xml` behind declarations in
  `parser/reader.rs`).
- `src/parser/replay.rs`: the events that describe a document, with two laws: replaying
  the events of a document that the deserializer built rebuilds it, and the serializer
  writes such a document as the text of those events. `parser/start_tag.rs` shows that an
  element's start tag, written from the element, builds the element again.
- `app`: reading and writing files.
