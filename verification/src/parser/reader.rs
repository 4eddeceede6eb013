//! The XML reader of `quick_xml`, behind trusted declarations.
//!
//! A reader over bytes in memory, trimming whitespace around texts, yields events that
//! depend on the bytes alone. The events are named (`xml_reader_events`) as plain values:
//! tag names and attributes as raw bytes, texts as unescaped characters, declarations as
//! raw values. The library turns them into its own events and verifies what it does with
//! them.
use vstd::prelude::*;
use vstd::utf8::{valid_utf8, decode_utf8};
use std::io::Cursor;
use quick_xml::NsReader;
use quick_xml::events::{BytesStart, BytesEnd, BytesText, BytesDecl, Event};
use quick_xml::events::attributes::{Attribute, Attributes, AttrError};

verus! {

#[verifier::external_type_specification]
#[verifier::external_body]
#[verifier::reject_recursive_types(R)]
pub struct ExNsReader<R>(NsReader<R>);

#[verifier::external_type_specification]
#[verifier::external_body]
#[verifier::reject_recursive_types(T)]
pub struct ExCursor<T>(Cursor<T>);

#[verifier::external_type_specification]
#[verifier::external_body]
pub struct ExBytesStart<'a>(BytesStart<'a>);

#[verifier::external_type_specification]
#[verifier::external_body]
pub struct ExBytesEnd<'a>(BytesEnd<'a>);

#[verifier::external_type_specification]
#[verifier::external_body]
pub struct ExBytesText<'a>(BytesText<'a>);

#[verifier::external_type_specification]
#[verifier::external_body]
pub struct ExBytesDecl<'a>(BytesDecl<'a>);

#[verifier::external_type_specification]
#[verifier::external_body]
pub struct ExAttributes<'a>(Attributes<'a>);

#[verifier::external_type_specification]
#[verifier::external_body]
pub struct ExAttribute<'a>(Attribute<'a>);

#[verifier::external_type_specification]
#[verifier::external_body]
pub struct ExQuickXmlError(quick_xml::Error);

#[verifier::external_type_specification]
#[verifier::external_body]
pub struct ExAttrError(AttrError);

/// The reader over an in-memory document.
pub type ByteReader = NsReader<Cursor<Vec<u8>>>;

/// An event of the reader, told apart by kind; the payloads stay the reader's.
pub enum RawEvent<'b> {
    Start(BytesStart<'b>),
    Empty(BytesStart<'b>),
    End(BytesEnd<'b>),
    Text(BytesText<'b>),
    Comment(BytesText<'b>),
    Decl(BytesDecl<'b>),
    CData,
    ProcessingInstruction,
    DocType,
    Eof,
}

/// An event of the reader as plain values.
pub ghost enum ReaderEvent {
    /// A start tag: its raw name and the items of its attribute iterator.
    Start(Seq<u8>, Seq<Option<(Seq<u8>, Seq<u8>)>>),
    /// A self-closing tag: its raw name and the items of its attribute iterator.
    Empty(Seq<u8>, Seq<Option<(Seq<u8>, Seq<u8>)>>),
    /// An end tag: its raw name.
    End(Seq<u8>),
    /// A text: its unescaped characters, or `None` when it cannot be unescaped.
    Text(Option<Seq<char>>),
    /// A comment: its unescaped characters, or `None` when it cannot be unescaped.
    Comment(Option<Seq<char>>),
    /// The declaration: its raw version (`None`: unreadable), raw encoding and raw
    /// standalone flag (`None`: absent, `Some(None)`: unreadable).
    Decl(Option<Seq<u8>>, Option<Option<Seq<u8>>>, Option<Option<Seq<u8>>>),
    /// A character data section, a processing instruction or a document type.
    Other,
    /// The end of the input.
    Eof,
    /// A reader error.
    Error,
}

/// The events that a whitespace-trimming `NsReader` over `input` yields, in order, up to
/// and including the end of the input or the first error.
pub uninterp spec fn xml_reader_events(input: Seq<u8>) -> Seq<ReaderEvent>;

/// The events that `reader` yields from its current position, in order, up to and
/// including the end of its input or the first error.
pub uninterp spec fn reader_events(reader: ByteReader) -> Seq<ReaderEvent>;

/// The text `String::from_utf8_lossy` makes of raw bytes.
pub uninterp spec fn lossy_text(bytes: Seq<u8>) -> Seq<char>;

/// The raw name of a start tag (`BytesStart::name`).
pub uninterp spec fn start_tag_name(e: BytesStart) -> Seq<u8>;

/// The items the attribute iterator of a start tag yields (`BytesStart::html_attributes`).
pub uninterp spec fn start_tag_attributes(e: BytesStart) -> Seq<Option<(Seq<u8>, Seq<u8>)>>;

/// The raw name of an end tag (`BytesEnd::name`).
pub uninterp spec fn end_tag_name(e: BytesEnd) -> Seq<u8>;

/// The unescaped characters of a text or comment (`BytesText::unescape`), `None` when it
/// fails.
pub uninterp spec fn unescaped(e: BytesText) -> Option<Seq<char>>;

/// The raw version of a declaration (`BytesDecl::version`), `None` when it fails.
pub uninterp spec fn decl_version_of(e: BytesDecl) -> Option<Seq<u8>>;

/// The raw encoding of a declaration (`BytesDecl::encoding`).
pub uninterp spec fn decl_encoding_of(e: BytesDecl) -> Option<Option<Seq<u8>>>;

/// The raw standalone flag of a declaration (`BytesDecl::standalone`).
pub uninterp spec fn decl_standalone_of(e: BytesDecl) -> Option<Option<Seq<u8>>>;

/// The raw value of a reader result, `None` when it is an error.
pub open spec fn raw_value<E>(r: Result<Vec<u8>, E>) -> Option<Seq<u8>> {
    match r {
        Ok(b) => Some(b@),
        Err(_) => None,
    }
}

/// The raw value of an optional reader result.
pub open spec fn opt_raw_value<E>(r: Option<Result<Vec<u8>, E>>) -> Option<Option<Seq<u8>>> {
    match r {
        Some(x) => Some(raw_value(x)),
        None => None,
    }
}

/// The plain event of a reader event.
pub open spec fn raw_item(raw: RawEvent) -> ReaderEvent {
    match raw {
        RawEvent::Start(e) => ReaderEvent::Start(start_tag_name(e), start_tag_attributes(e)),
        RawEvent::Empty(e) => ReaderEvent::Empty(start_tag_name(e), start_tag_attributes(e)),
        RawEvent::End(e) => ReaderEvent::End(end_tag_name(e)),
        RawEvent::Text(e) => ReaderEvent::Text(unescaped(e)),
        RawEvent::Comment(e) => ReaderEvent::Comment(unescaped(e)),
        RawEvent::Decl(e) => ReaderEvent::Decl(decl_version_of(e), decl_encoding_of(e), decl_standalone_of(e)),
        RawEvent::CData => ReaderEvent::Other,
        RawEvent::ProcessingInstruction => ReaderEvent::Other,
        RawEvent::DocType => ReaderEvent::Other,
        RawEvent::Eof => ReaderEvent::Eof,
    }
}

/// The event ends the reading: end of input or error.
pub open spec fn is_final(ev: ReaderEvent) -> bool {
    ev is Eof || ev is Error
}

/// Calls `NsReader::from_reader` on the bytes wrapped in a `Cursor`, and sets the reader to
/// trim whitespace around texts (`Config::trim_text`). It yields the events named for its
/// input; they end with the end of input or an error, and only there (each event reads
/// some input, so there are finitely many).
#[verifier::external_body]
pub(crate) fn new_reader(input: Vec<u8>) -> (r: ByteReader)
    ensures
        reader_events(r) == xml_reader_events(input@),
        reader_events(r).len() > 0,
        is_final(reader_events(r).last()),
        forall|i: int| 0 <= i < reader_events(r).len() - 1 ==> !is_final(#[trigger] reader_events(r)[i]),
{
    let mut reader = NsReader::from_reader(Cursor::new(input));
    reader.config_mut().trim_text(true);
    reader
}

/// Calls `NsReader::read_event_into` and tells the event kinds apart. While events remain,
/// it gives the next one (an error for a reader error), which is then no longer remaining;
/// what the buffer held before does not matter.
#[verifier::external_body]
pub(crate) fn read_event<'b>(reader: &mut ByteReader, buf: &'b mut Vec<u8>) -> (r: Result<RawEvent<'b>, quick_xml::Error>)
    ensures
        reader_events(*old(reader)).len() > 0 ==> {
            &&& reader_events(*final(reader)) == reader_events(*old(reader)).drop_first()
            &&& match r {
                Ok(raw) => raw_item(raw) == reader_events(*old(reader))[0],
                Err(_) => reader_events(*old(reader))[0] is Error,
            }
        },
{
    let event = reader.read_event_into(buf)?;
    Ok(match event {
        Event::Start(e) => RawEvent::Start(e),
        Event::Empty(e) => RawEvent::Empty(e),
        Event::End(e) => RawEvent::End(e),
        Event::Text(e) => RawEvent::Text(e),
        Event::Comment(e) => RawEvent::Comment(e),
        Event::Decl(e) => RawEvent::Decl(e),
        Event::CData(_) => RawEvent::CData,
        Event::PI(_) => RawEvent::ProcessingInstruction,
        Event::DocType(_) => RawEvent::DocType,
        Event::Eof => RawEvent::Eof,
    })
}

/// Calls the `Display` impl of `quick_xml::Error`: its message.
#[verifier::external_body]
pub(crate) fn reader_error_text(e: &quick_xml::Error) -> (r: String) {
    e.to_string()
}

/// Calls the `Display` impl of `AttrError`: its message.
#[verifier::external_body]
pub(crate) fn attr_error_text(e: &AttrError) -> (r: String) {
    e.to_string()
}

/// Calls `String::from_utf8_lossy`: valid UTF-8 is decoded as it is; each invalid
/// sequence would become U+FFFD.
#[verifier::external_body]
pub(crate) fn utf8_lossy(bytes: &[u8]) -> (r: String)
    ensures
        r@ == lossy_text(bytes@),
        valid_utf8(bytes@) ==> r@ == decode_utf8(bytes@),
{
    String::from_utf8_lossy(bytes).into_owned()
}

/// Calls `BytesStart::name`: the raw qualified name.
#[verifier::external_body]
pub(crate) fn start_name(e: &BytesStart) -> (r: Vec<u8>)
    ensures
        r@ == start_tag_name(*e),
{
    e.name().into_inner().to_vec()
}

/// Calls `BytesStart::html_attributes`: an iterator over the attributes of the tag.
#[verifier::external_body]
pub(crate) fn start_attributes<'a>(e: &'a BytesStart) -> (r: Attributes<'a>)
    ensures
        attribute_items(r) == start_tag_attributes(*e),
{
    e.html_attributes()
}

/// The items that an attribute iterator yields from its current position to its end, in
/// order: for each attribute its raw key and its raw value, or `None` for an item that is
/// an error. (`Attributes` is a fused iterator over the bytes of one tag; each item moves
/// its position forward.)
pub uninterp spec fn attribute_items(attributes: Attributes) -> Seq<Option<(Seq<u8>, Seq<u8>)>>;

/// The raw key of an attribute (`Attribute::key`).
pub uninterp spec fn attribute_key_of(a: Attribute) -> Seq<u8>;

/// The raw value of an attribute (`Attribute::value`), as written between the quotes.
pub uninterp spec fn attribute_value_of(a: Attribute) -> Seq<u8>;

/// Calls `<Attributes as Iterator>::next`: the next attribute. At the end it gives `None`;
/// otherwise it gives the first remaining item, which is then no longer remaining.
#[verifier::external_body]
pub(crate) fn next_attribute<'a>(attributes: &mut Attributes<'a>) -> (r: Option<Result<Attribute<'a>, AttrError>>)
    ensures
        attribute_items(*old(attributes)).len() == 0 ==> r is None,
        attribute_items(*old(attributes)).len() > 0 ==> {
            &&& attribute_items(*final(attributes)) == attribute_items(*old(attributes)).drop_first()
            &&& match attribute_items(*old(attributes))[0] {
                Some((k, v)) => r matches Some(Ok(a)) && attribute_key_of(a) == k && attribute_value_of(a) == v,
                None => r matches Some(Err(_)),
            }
        },
{
    attributes.next()
}

/// Reads `Attribute::key`: the raw key.
#[verifier::external_body]
pub(crate) fn attribute_key(a: &Attribute) -> (r: Vec<u8>)
    ensures
        r@ == attribute_key_of(*a),
{
    a.key.into_inner().to_vec()
}

/// Reads `Attribute::value`: the raw value, as written between the quotes.
#[verifier::external_body]
pub(crate) fn attribute_value(a: &Attribute) -> (r: Vec<u8>)
    ensures
        r@ == attribute_value_of(*a),
{
    a.value.to_vec()
}

/// Calls `BytesEnd::name`: the raw qualified name.
#[verifier::external_body]
pub(crate) fn end_name(e: &BytesEnd) -> (r: Vec<u8>)
    ensures
        r@ == end_tag_name(*e),
{
    e.name().into_inner().to_vec()
}

/// Calls `BytesText::unescape`: the decoded text with entity and character references
/// replaced.
#[verifier::external_body]
pub(crate) fn unescape_text(e: &BytesText) -> (r: Result<String, quick_xml::Error>)
    ensures
        match unescaped(*e) {
            Some(t) => r matches Ok(s) && s@ == t,
            None => r is Err,
        },
{
    match e.unescape() {
        Ok(t) => Ok(t.into_owned()),
        Err(err) => Err(err),
    }
}

/// Calls `BytesDecl::version`: the raw version.
#[verifier::external_body]
pub(crate) fn decl_version(e: &BytesDecl) -> (r: Result<Vec<u8>, quick_xml::Error>)
    ensures
        raw_value(r) == decl_version_of(*e),
{
    match e.version() {
        Ok(v) => Ok(v.into_owned()),
        Err(err) => Err(err),
    }
}

/// Calls `BytesDecl::encoding`: the raw declared encoding, when there is one.
#[verifier::external_body]
pub(crate) fn decl_encoding(e: &BytesDecl) -> (r: Option<Result<Vec<u8>, AttrError>>)
    ensures
        opt_raw_value(r) == decl_encoding_of(*e),
{
    match e.encoding() {
        Some(Ok(v)) => Some(Ok(v.into_owned())),
        Some(Err(err)) => Some(Err(err)),
        None => None,
    }
}

/// Calls `BytesDecl::standalone`: the raw declared standalone flag, when there is one.
#[verifier::external_body]
pub(crate) fn decl_standalone(e: &BytesDecl) -> (r: Option<Result<Vec<u8>, AttrError>>)
    ensures
        opt_raw_value(r) == decl_standalone_of(*e),
{
    match e.standalone() {
        Some(Ok(v)) => Some(Ok(v.into_owned())),
        Some(Err(err)) => Some(Err(err)),
        None => None,
    }
}

} // verus!
