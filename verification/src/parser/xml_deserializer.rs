//! Building a document from the events of an XML reader.
use vstd::prelude::*;
use crate::error::{XmlError, ErrorModel};
use crate::text::to_string;
use crate::dom::attribute::{XmlAttribute, AttributeModel, lemma_attribute_name_roundtrip};
use crate::dom::element::{
    XmlElementContentType, ContentModel, NodeId, tag_ns, push_content, attrs_view,
    opt_attrs_view,
};
use crate::dom::document::{
    XmlDocument, DocumentModel, Placement, create_root_spec, insert_child_spec, with_element,
};
use crate::dom::namespace::opt_string_view;
use crate::parser::reader::{
    RawEvent, ByteReader, new_reader, read_event, reader_error_text, ReaderEvent, reader_events,
    xml_reader_events, raw_item, is_final, lossy_text, raw_value, opt_raw_value, start_tag_attributes,
    decl_version_of, decl_encoding_of, decl_standalone_of,
    attr_error_text, start_name, start_attributes, next_attribute, end_name, unescape_text,
    attribute_key, attribute_value,
    decl_version, decl_encoding, decl_standalone, utf8_lossy, attribute_items,
};
use quick_xml::events::{BytesStart, BytesDecl};
use quick_xml::events::attributes::{AttrError, Attributes};

verus! {

// ---------------------------------------------------------------------
// Events
// ---------------------------------------------------------------------

/// An event of an XML reader, as plain values.
pub enum XmlEvent {
    /// The declaration: version, encoding and standalone flag.
    Decl(String, String, Option<String>),
    /// A start tag: raw qualified name and attributes.
    Start(String, Vec<XmlAttribute>),
    /// A self-closing tag: raw qualified name and attributes.
    Empty(String, Vec<XmlAttribute>),
    /// An end tag: raw qualified name.
    End(String),
    /// Unescaped text.
    Text(String),
    /// Unescaped comment text.
    Comment(String),
}

/// The model of an event.
pub ghost enum EventModel {
    Decl(Seq<char>, Seq<char>, Option<Seq<char>>),
    Start(Seq<char>, Seq<AttributeModel>),
    Empty(Seq<char>, Seq<AttributeModel>),
    End(Seq<char>),
    Text(Seq<char>),
    Comment(Seq<char>),
}

impl View for XmlEvent {
    type V = EventModel;

    open spec fn view(&self) -> EventModel {
        match self {
            XmlEvent::Decl(v, e, s) => EventModel::Decl(v@, e@, opt_string_view(*s)),
            XmlEvent::Start(t, a) => EventModel::Start(t@, attrs_view(a@)),
            XmlEvent::Empty(t, a) => EventModel::Empty(t@, attrs_view(a@)),
            XmlEvent::End(t) => EventModel::End(t@),
            XmlEvent::Text(t) => EventModel::Text(t@),
            XmlEvent::Comment(c) => EventModel::Comment(c@),
        }
    }
}

/// The models of a list of events.
pub open spec fn events_view(evs: Seq<XmlEvent>) -> Seq<EventModel> {
    evs.map_values(|e: XmlEvent| e@)
}

// ---------------------------------------------------------------------
// Specification of the construction
// ---------------------------------------------------------------------

/// The state of the construction: the document, whether the root exists, and the node id
/// of the element that receives contents.
pub ghost struct ParseState {
    pub doc: DocumentModel,
    pub root_loaded: bool,
    pub active: u32,
}

/// The model of a fresh document.
pub open spec fn fresh_document() -> DocumentModel {
    DocumentModel {
        version: seq!['1', '.', '0'],
        encoding: seq!['U', 'T', 'F', '-', '8'],
        standalone: None,
        prolog_comments: Seq::empty(),
        running_id: 0,
        root_id: 1,
        elements: Map::empty(),
    }
}

/// The state before the first event.
pub open spec fn initial_state() -> ParseState {
    ParseState { doc: fresh_document(), root_loaded: false, active: 0 }
}

/// Opening an element: the root while none is loaded, else a child appended to the active
/// element. Gives the new state (active element unchanged) and the new node id.
pub open spec fn open_element(s: ParseState, tag: Seq<char>, attrs: Seq<AttributeModel>) -> Result<(ParseState, u32), ErrorModel> {
    if s.doc.running_id == u32::MAX {
        Err(ErrorModel::NodeIdOverflow)
    } else {
        let (d, r) = if s.root_loaded {
            insert_child_spec(s.doc, s.active, tag, Some(attrs), Placement::Append)
        } else {
            create_root_spec(s.doc, tag, Some(attrs))
        };
        match r {
            Ok(id) => Ok((ParseState { doc: d, root_loaded: true, active: s.active }, id)),
            Err(e) => Err(e@),
        }
    }
}

/// The active element with a content item appended.
pub open spec fn add_content(s: ParseState, c: ContentModel) -> Result<ParseState, ErrorModel> {
    if !s.doc.elements.contains_key(s.active) {
        Err(ErrorModel::ElementNotFound(s.active))
    } else {
        Ok(ParseState { doc: with_element(s.doc, s.active, push_content(s.doc.elements[s.active], c)), ..s })
    }
}

/// One event applied to the state.
pub open spec fn step_spec(s: ParseState, ev: EventModel) -> Result<ParseState, ErrorModel> {
    match ev {
        EventModel::Decl(v, enc, sa) => Ok(
            ParseState { doc: DocumentModel { version: v, encoding: enc, standalone: sa, ..s.doc }, ..s },
        ),
        EventModel::Start(t, a) => match open_element(s, t, a) {
            Ok((s2, id)) => Ok(ParseState { active: id, ..s2 }),
            Err(e) => Err(e),
        },
        EventModel::Empty(t, a) => match open_element(s, t, a) {
            Ok((s2, _)) => Ok(s2),
            Err(e) => Err(e),
        },
        EventModel::Text(t) => add_content(s, ContentModel::Text(t)),
        EventModel::Comment(c) => if !s.root_loaded {
            Ok(
                ParseState {
                    doc: DocumentModel { prolog_comments: s.doc.prolog_comments.push(c), ..s.doc },
                    ..s
                },
            )
        } else {
            add_content(s, ContentModel::Comment(c))
        },
        EventModel::End(name) => if !s.doc.elements.contains_key(s.active) {
            Err(ErrorModel::ElementNotFound(s.active))
        } else {
            let e = s.doc.elements[s.active];
            if tag_ns(e) == name {
                Ok(
                    ParseState {
                        active: match e.parent_id {
                            Some(p) => p,
                            None => s.active,
                        },
                        ..s
                    },
                )
            } else {
                Err(ErrorModel::EndTagMismatch(tag_ns(e), name))
            }
        },
    }
}

/// The events applied in order; the first failure stops.
pub open spec fn apply_events(s: ParseState, evs: Seq<EventModel>) -> Result<ParseState, ErrorModel>
    decreases evs.len(),
{
    if evs.len() == 0 {
        Ok(s)
    } else {
        match apply_events(s, evs.drop_last()) {
            Ok(s2) => step_spec(s2, evs.last()),
            Err(e) => Err(e),
        }
    }
}

/// The document the events build from a fresh one.
pub open spec fn events_document(evs: Seq<EventModel>) -> Result<DocumentModel, ErrorModel> {
    match apply_events(initial_state(), evs) {
        Ok(s) => Ok(s.doc),
        Err(e) => Err(e),
    }
}

/// The model of a document result.
pub open spec fn doc_result(r: Result<XmlDocument, XmlError>) -> Result<DocumentModel, ErrorModel> {
    match r {
        Ok(d) => Ok(d@),
        Err(e) => Err(e@),
    }
}

// ---------------------------------------------------------------------
// Construction
// ---------------------------------------------------------------------

/// Whether the root exists and which element receives contents.
struct ParserState {
    root_loaded: bool,
    active: NodeId,
}

/// The model of the construction state.
spec fn state_model(p: ParserState, d: DocumentModel) -> ParseState {
    ParseState { doc: d, root_loaded: p.root_loaded, active: p.active }
}

/// Deserializer building documents from XML.
pub struct XmlDeserializer {}

impl XmlDeserializer {
    /// Opens an element; gives its node id.
    fn open_element(state: &mut ParserState, doc: &mut XmlDocument, tag: String, attributes: Vec<XmlAttribute>) -> (r: Result<NodeId, XmlError>)
        ensures
            match r {
                Ok(id) => open_element(state_model(*old(state), old(doc)@), tag@, attrs_view(attributes@))
                    == Ok::<(ParseState, u32), ErrorModel>((state_model(*final(state), final(doc)@), id)),
                Err(e) => open_element(state_model(*old(state), old(doc)@), tag@, attrs_view(attributes@))
                    == Err::<(ParseState, u32), ErrorModel>(e@),
            },
    {
        if !doc.has_free_id() {
            return Err(XmlError::NodeIdOverflow);
        }
        let ghost av = attrs_view(attributes@);
        assert(opt_attrs_view(Some(attributes)) == Some(av));
        let r = if state.root_loaded {
            doc.append_child_element_mut(state.active, tag.as_str(), Some(attributes))
        } else {
            doc.create_root_element_mut(tag.as_str(), Some(attributes))
        };
        match r {
            Ok(id) => {
                state.root_loaded = true;
                Ok(id)
            },
            Err(e) => Err(e),
        }
    }

    /// Appends a content item to the active element.
    fn add_content(state: &ParserState, doc: &mut XmlDocument, content: XmlElementContentType) -> (r: Result<(), XmlError>)
        ensures
            match r {
                Ok(_) => add_content(state_model(*state, old(doc)@), content@) == Ok::<ParseState, ErrorModel>(
                    state_model(*state, final(doc)@),
                ),
                Err(e) => add_content(state_model(*state, old(doc)@), content@) == Err::<ParseState, ErrorModel>(e@),
            },
    {
        let ghost c = content@;
        match doc.get_element_mut(state.active) {
            Ok(element) => {
                let _ = element.add_child_content_mut(content);
                Ok(())
            },
            Err(e) => Err(e),
        }
    }

    /// Applies one event to the document under construction.
    fn apply_event(state: &mut ParserState, doc: &mut XmlDocument, event: XmlEvent) -> (r: Result<(), XmlError>)
        ensures
            match r {
                Ok(_) => step_spec(state_model(*old(state), old(doc)@), event@) == Ok::<ParseState, ErrorModel>(
                    state_model(*final(state), final(doc)@),
                ),
                Err(e) => step_spec(state_model(*old(state), old(doc)@), event@) == Err::<ParseState, ErrorModel>(e@),
            },
    {
        let ghost ev = event@;
        match event {
            XmlEvent::Decl(version, encoding, standalone) => {
                doc.set_version_mut(version);
                doc.set_encoding_mut(encoding);
                doc.set_standalone_mut(standalone);
                Ok(())
            },
            XmlEvent::Start(tag, attributes) => {
                let id = Self::open_element(state, doc, tag, attributes)?;
                state.active = id;
                Ok(())
            },
            XmlEvent::Empty(tag, attributes) => {
                Self::open_element(state, doc, tag, attributes)?;
                Ok(())
            },
            XmlEvent::Text(text) => Self::add_content(state, doc, XmlElementContentType::Text(text)),
            XmlEvent::Comment(comment) => {
                if state.root_loaded {
                    Self::add_content(state, doc, XmlElementContentType::Comment(comment))
                } else {
                    doc.add_prolog_comment_mut(comment);
                    Ok(())
                }
            },
            XmlEvent::End(tag) => {
                let element = doc.get_element(state.active)?;
                let open = element.get_tag_ns();
                if crate::text::str_eq(open.as_str(), tag.as_str()) {
                    match element.get_parent_id() {
                        Some(parent_id) => {
                            state.active = parent_id;
                        },
                        None => {},
                    }
                    Ok(())
                } else {
                    Err(XmlError::EndTagMismatch(open, tag))
                }
            },
        }
    }

    /// Builds a document from reader events, in order: the declaration sets the version,
    /// encoding and standalone flag; comments before the root go to the prolog; the first
    /// start tag makes the root and later ones children of the open element; texts and
    /// comments go to the open element; an end tag must name the open element and closes
    /// it.
    pub fn events_to_xml_doc_tree(events: Vec<XmlEvent>) -> (r: Result<XmlDocument, XmlError>)
        ensures
            doc_result(r) == events_document(events_view(events@)),
    {
        let ghost evs = events_view(events@);
        let mut doc = XmlDocument::new();
        let mut state = ParserState { root_loaded: false, active: 0 };
        assert(doc@ == fresh_document());
        let total = events.len();
        let mut remaining = events;
        let mut applied: usize = 0;
        assert(evs.take(0) =~= Seq::<EventModel>::empty());
        assert(evs.skip(0) =~= evs);
        while remaining.len() > 0
            invariant
                applied <= evs.len(),
                total == evs.len(),
                evs == events_view(events@),
                events_view(remaining@) == evs.skip(applied as int),
                apply_events(initial_state(), evs.take(applied as int)) == Ok::<ParseState, ErrorModel>(state_model(state, doc@)),
            decreases remaining@.len(),
        {
            let ghost before = remaining@;
            assert(events_view(before).len() == before.len());
            assert(applied < evs.len());
            let event = remaining.remove(0);
            assert(remaining@ =~= before.subrange(1, before.len() as int));
            assert(event@ == events_view(before)[0]);
            assert(evs.skip(applied as int)[0] == evs[applied as int]);
            assert forall|k: int| 0 <= k < remaining@.len() implies #[trigger] events_view(remaining@)[k] == evs.skip(applied + 1)[k] by {
                assert(remaining@[k] == before[k + 1]);
                assert(events_view(before)[k + 1] == before[k + 1]@);
                assert(evs.skip(applied as int)[k + 1] == evs[applied + 1 + k]);
            }
            assert(events_view(remaining@) =~= evs.skip(applied + 1));
            assert(evs.take(applied + 1).drop_last() =~= evs.take(applied as int));
            match Self::apply_event(&mut state, &mut doc, event) {
                Ok(_) => {},
                Err(e) => {
                    proof {
                        lemma_apply_err_prefix(initial_state(), evs, (applied + 1) as int);
                    }
                    return Err(e);
                },
            }
            applied = applied + 1;
        }
        assert(applied == evs.len());
        assert(evs.take(applied as int) =~= evs);
        Ok(doc)
    }
}

/// Errors of the same kind: reader errors alike whatever their message, others equal.
pub open spec fn same_error(a: ErrorModel, b: ErrorModel) -> bool {
    match (a, b) {
        (ErrorModel::Reader(_), ErrorModel::Reader(_)) => true,
        _ => a == b,
    }
}

/// Results alike: the same value, or errors of the same kind.
pub open spec fn outcome_like<T>(a: Result<T, ErrorModel>, b: Result<T, ErrorModel>) -> bool {
    match (a, b) {
        (Ok(x), Ok(y)) => x == y,
        (Err(x), Err(y)) => same_error(x, y),
        _ => false,
    }
}

/// A reader error (its message is the reader's).
pub open spec fn reader_error() -> ErrorModel {
    ErrorModel::Reader(Seq::empty())
}

/// The attribute read from a raw key and a raw value, each decoded from UTF-8 with
/// replacement characters; the value is kept as written, references included.
pub open spec fn attribute_of(key: Seq<u8>, value: Seq<u8>) -> AttributeModel {
    crate::dom::attribute::attribute_from_raw(lossy_text(key), lossy_text(value))
}

/// A result with `p` before its values.
pub open spec fn prefixed(p: Seq<AttributeModel>, r: Result<Seq<AttributeModel>, ErrorModel>) -> Result<Seq<AttributeModel>, ErrorModel> {
    match r {
        Ok(v) => Ok(p + v),
        Err(e) => Err(e),
    }
}

/// Reading the attribute items from index `j` on, at most `limit + 1` reads in all: the
/// attributes up to the end, a reader error at an error item, a stalled reader once
/// `limit + 1` attributes have been read without reaching the end.
pub open spec fn attributes_read(items: Seq<Option<(Seq<u8>, Seq<u8>)>>, limit: nat, j: nat) -> Result<Seq<AttributeModel>, ErrorModel>
    decreases items.len() - j,
{
    if j > limit {
        Err(ErrorModel::ReaderStalled)
    } else if j >= items.len() {
        Ok(Seq::empty())
    } else {
        match items[j as int] {
            None => Err(reader_error()),
            Some((k, v)) => prefixed(seq![attribute_of(k, v)], attributes_read(items, limit, j + 1)),
        }
    }
}

/// The model of a result of attributes.
pub open spec fn attrs_result(r: Result<Vec<XmlAttribute>, XmlError>) -> Result<Seq<AttributeModel>, ErrorModel> {
    match r {
        Ok(v) => Ok(attrs_view(v@)),
        Err(e) => Err(e@),
    }
}

/// Reads the attributes that an iterator yields, in order; at most `limit` of them.
fn attributes_from(attributes: Attributes, limit: usize) -> (r: Result<Vec<XmlAttribute>, XmlError>)
    ensures
        outcome_like(attrs_result(r), attributes_read(attribute_items(attributes), limit as nat, 0)),
{
    let ghost items = attribute_items(attributes);
    let mut iter = attributes;
    let mut result: Vec<XmlAttribute> = Vec::new();
    let mut count: u128 = 0;
    while count <= limit as u128
        invariant
            count <= limit + 1,
            count <= items.len(),
            items == attribute_items(attributes),
            attribute_items(iter) == items.skip(count as int),
            attributes_read(items, limit as nat, 0) == prefixed(attrs_view(result@), attributes_read(items, limit as nat, count as nat)),
        decreases limit + 1 - count,
    {
        let ghost before = attribute_items(iter);
        let ghost r0 = attrs_view(result@);
        match next_attribute(&mut iter) {
            Some(Ok(attribute)) => {
                assert(before.len() > 0);
                assert(before[0] == items[count as int]);
                let name = attribute_key(&attribute);
                let value = attribute_value(&attribute);
                let a = XmlAttribute::new(utf8_lossy(name.as_slice()), utf8_lossy(value.as_slice()));
                result.push(a);
                proof {
                    assert(a@ == attribute_of(items[count as int]->Some_0.0, items[count as int]->Some_0.1));
                    assert(attrs_view(result@) =~= r0 + seq![a@]);
                    assert(items.skip(count as int).drop_first() =~= items.skip(count + 1));
                    let rest = attributes_read(items, limit as nat, (count + 1) as nat);
                    match rest {
                        Ok(v) => {
                            assert(r0 + (seq![a@] + v) =~= (r0 + seq![a@]) + v);
                        },
                        Err(e) => {},
                    }
                }
            },
            Some(Err(e)) => {
                assert(before.len() > 0);
                assert(before[0] == items[count as int]);
                return Err(XmlError::Reader(attr_error_text(&e)));
            },
            None => {
                assert(before.len() == 0);
                assert(items.len() == count) by {
                    if items.len() > count {
                        assert(items.skip(count as int).len() > 0);
                    }
                }
                assert(r0 + Seq::<AttributeModel>::empty() =~= r0);
                return Ok(result);
            },
        }
        count = count + 1;
    }
    Err(XmlError::ReaderStalled)
}

/// The attributes of a tag, in order; at most `limit` of them.
fn get_attributes_string(element: &BytesStart, limit: usize) -> (r: Result<Vec<XmlAttribute>, XmlError>)
    ensures
        outcome_like(attrs_result(r), attributes_read(start_tag_attributes(*element), limit as nat, 0)),
{
    attributes_from(start_attributes(element), limit)
}

/// The declaration event from raw values: a version (`None`: unreadable) that is empty when
/// it cannot be read, an encoding (`None`: absent, `Some(None)`: unreadable) that is
/// `utf-8` when missing or unreadable, a standalone flag that is absent when missing or
/// unreadable; the values are the texts of the raw bytes.
pub open spec fn decl_event_of(
    version: Option<Seq<u8>>,
    encoding: Option<Option<Seq<u8>>>,
    standalone: Option<Option<Seq<u8>>>,
) -> EventModel {
    EventModel::Decl(
        match version {
            Some(b) => lossy_text(b),
            None => Seq::empty(),
        },
        match encoding {
            Some(Some(b)) => lossy_text(b),
            _ => seq!['u', 't', 'f', '-', '8'],
        },
        match standalone {
            Some(Some(b)) => Some(lossy_text(b)),
            _ => None,
        },
    )
}

/// The declaration event from the raw values the reader gives.
fn declaration_from(
    version: Result<Vec<u8>, quick_xml::Error>,
    encoding: Option<Result<Vec<u8>, AttrError>>,
    standalone: Option<Result<Vec<u8>, AttrError>>,
) -> (r: XmlEvent)
    ensures
        r@ == decl_event_of(raw_value(version), opt_raw_value(encoding), opt_raw_value(standalone)),
{
    let version = match version {
        Ok(v) => utf8_lossy(v.as_slice()),
        Err(_) => {
            let empty = String::new();
            assert(empty@ =~= Seq::<char>::empty());
            empty
        },
    };
    let encoding = match encoding {
        Some(Ok(e)) => utf8_lossy(e.as_slice()),
        _ => {
            proof {
                reveal_strlit("utf-8");
                assert("utf-8"@ =~= seq!['u', 't', 'f', '-', '8']);
            }
            to_string("utf-8")
        },
    };
    let standalone = match standalone {
        Some(Ok(v)) => Some(utf8_lossy(v.as_slice())),
        _ => None,
    };
    XmlEvent::Decl(version, encoding, standalone)
}

/// The declaration as plain values.
fn declaration_event(d: &BytesDecl) -> (r: XmlEvent)
    ensures
        r@ == decl_event_of(decl_version_of(*d), decl_encoding_of(*d), decl_standalone_of(*d)),
{
    declaration_from(decl_version(d), decl_encoding(d), decl_standalone(d))
}

/// The library's event for a reader event: tags with their attributes (read as
/// `attributes_read` reads them), end tags, texts, comments and the declaration are kept;
/// character data sections, processing instructions, document types and the end of input
/// give `None`; a text or comment that cannot be unescaped, and a reader error, are reader
/// errors.
pub open spec fn item_event(item: ReaderEvent, limit: nat) -> Result<Option<EventModel>, ErrorModel> {
    match item {
        ReaderEvent::Start(n, a) => match attributes_read(a, limit, 0) {
            Ok(at) => Ok(Some(EventModel::Start(lossy_text(n), at))),
            Err(e) => Err(e),
        },
        ReaderEvent::Empty(n, a) => match attributes_read(a, limit, 0) {
            Ok(at) => Ok(Some(EventModel::Empty(lossy_text(n), at))),
            Err(e) => Err(e),
        },
        ReaderEvent::End(n) => Ok(Some(EventModel::End(lossy_text(n)))),
        ReaderEvent::Text(t) => match t {
            Some(x) => Ok(Some(EventModel::Text(x))),
            None => Err(reader_error()),
        },
        ReaderEvent::Comment(t) => match t {
            Some(x) => Ok(Some(EventModel::Comment(x))),
            None => Err(reader_error()),
        },
        ReaderEvent::Decl(v, e, sa) => Ok(Some(decl_event_of(v, e, sa))),
        ReaderEvent::Other => Ok(None),
        ReaderEvent::Eof => Ok(None),
        ReaderEvent::Error => Err(reader_error()),
    }
}

/// The model of an event result.
pub open spec fn event_result(r: Result<Option<XmlEvent>, XmlError>) -> Result<Option<EventModel>, ErrorModel> {
    match r {
        Ok(Some(ev)) => Ok(Some(ev@)),
        Ok(None) => Ok(None),
        Err(e) => Err(e@),
    }
}

/// A reader event as plain values, as `item_event` gives it.
fn to_event(raw: RawEvent, limit: usize) -> (r: Result<Option<XmlEvent>, XmlError>)
    ensures
        outcome_like(event_result(r), item_event(raw_item(raw), limit as nat)),
{
    match raw {
        RawEvent::Start(e) => {
            let name = utf8_lossy(start_name(&e).as_slice());
            let attributes = get_attributes_string(&e, limit)?;
            Ok(Some(XmlEvent::Start(name, attributes)))
        },
        RawEvent::Empty(e) => {
            let name = utf8_lossy(start_name(&e).as_slice());
            let attributes = get_attributes_string(&e, limit)?;
            Ok(Some(XmlEvent::Empty(name, attributes)))
        },
        RawEvent::End(e) => Ok(Some(XmlEvent::End(utf8_lossy(end_name(&e).as_slice())))),
        RawEvent::Text(t) => match unescape_text(&t) {
            Ok(text) => Ok(Some(XmlEvent::Text(text))),
            Err(err) => Err(XmlError::Reader(reader_error_text(&err))),
        },
        RawEvent::Comment(t) => match unescape_text(&t) {
            Ok(text) => Ok(Some(XmlEvent::Comment(text))),
            Err(err) => Err(XmlError::Reader(reader_error_text(&err))),
        },
        RawEvent::Decl(d) => Ok(Some(declaration_event(&d))),
        RawEvent::CData => Ok(None),
        RawEvent::ProcessingInstruction => Ok(None),
        RawEvent::DocType => Ok(None),
        RawEvent::Eof => Ok(None),
    }
}

/// Reading the reader events from index `i` on into the state `s`, at most `limit + 1`
/// reads in all: each event converted by `item_event` and applied by `step_spec`, until
/// the end of the input; the first failure stops, and reading `limit + 1` events without
/// reaching the end is a stalled reader. (The events always end with the end of input or
/// an error, so the run never goes past them.)
pub open spec fn parse_run(s: ParseState, items: Seq<ReaderEvent>, i: nat, limit: nat) -> Result<ParseState, ErrorModel>
    decreases items.len() - i,
{
    if i > limit || i >= items.len() {
        Err(ErrorModel::ReaderStalled)
    } else if items[i as int] is Eof {
        Ok(s)
    } else {
        match item_event(items[i as int], limit) {
            Err(e) => Err(e),
            Ok(None) => parse_run(s, items, i + 1, limit),
            Ok(Some(ev)) => match step_spec(s, ev) {
                Ok(s2) => parse_run(s2, items, i + 1, limit),
                Err(e) => Err(e),
            },
        }
    }
}

/// The document that parsing `input` builds, or its failure: the reader's events for the
/// input, read with at most one read per input byte and one more.
pub open spec fn parsed_document(input: Seq<u8>) -> Result<DocumentModel, ErrorModel> {
    match parse_run(initial_state(), xml_reader_events(input), 0, input.len()) {
        Ok(s) => Ok(s.doc),
        Err(e) => Err(e),
    }
}

impl XmlDeserializer {
    /// Parses XML bytes into a document: the reader (trimming whitespace around texts)
    /// gives its events for the bytes, and each is applied as `events_to_xml_doc_tree`
    /// applies it, until the end of the input.
    pub fn vec_to_xml_doc_tree(xml_str: Vec<u8>) -> (r: Result<XmlDocument, XmlError>)
        ensures
            outcome_like(doc_result(r), parsed_document(xml_str@)),
    {
        let ghost input = xml_str@;
        let limit = xml_str.len();
        let mut reader = new_reader(xml_str);
        let mut xml_document = XmlDocument::new();
        Self::xml_element_parser(&mut reader, &mut xml_document, limit)?;
        Ok(xml_document)
    }

    /// Applies the reader's events to a fresh document until the end of the input; at most
    /// `limit + 1` events are read.
    fn xml_element_parser(reader: &mut ByteReader, xml_document: &mut XmlDocument, limit: usize) -> (r: Result<(), XmlError>)
        requires
            old(xml_document)@ == fresh_document(),
            reader_events(*old(reader)).len() > 0,
            is_final(reader_events(*old(reader)).last()),
            forall|i: int| 0 <= i < reader_events(*old(reader)).len() - 1 ==> !is_final(#[trigger] reader_events(*old(reader))[i]),
        ensures
            outcome_like(
                match r {
                    Ok(_) => Ok::<DocumentModel, ErrorModel>(final(xml_document)@),
                    Err(e) => Err(e@),
                },
                match parse_run(initial_state(), reader_events(*old(reader)), 0, limit as nat) {
                    Ok(s) => Ok(s.doc),
                    Err(e) => Err(e),
                },
            ),
    {
        let ghost items = reader_events(*reader);
        let mut state = ParserState { root_loaded: false, active: 0 };
        let mut temp_buffer: Vec<u8> = Vec::new();
        let mut count: u128 = 0;
        assert(items.skip(0) =~= items);
        loop
            invariant_except_break
                reader_events(*reader) == items.skip(count as int),
                parse_run(initial_state(), items, 0, limit as nat) == parse_run(
                    state_model(state, xml_document@),
                    items,
                    count as nat,
                    limit as nat,
                ),
            invariant
                count <= limit + 1,
                count < items.len(),
                items == reader_events(*old(reader)),
                items.len() > 0,
                forall|i: int| 0 <= i < items.len() - 1 ==> !is_final(#[trigger] items[i]),
                is_final(items.last()),
            ensures
                parse_run(initial_state(), items, 0, limit as nat) == Ok::<ParseState, ErrorModel>(state_model(state, xml_document@)),
            decreases limit + 1 - count,
        {
            if count > limit as u128 {
                return Err(XmlError::ReaderStalled);
            }
            let ghost cur = state_model(state, xml_document@);
            assert(items.skip(count as int)[0] == items[count as int]);
            let raw = match read_event(reader, &mut temp_buffer) {
                Ok(ev) => ev,
                Err(e) => {
                    return Err(XmlError::Reader(reader_error_text(&e)));
                },
            };
            let ghost it = raw_item(raw);
            assert(it == items[count as int]);
            let at_end = match &raw {
                RawEvent::Eof => true,
                _ => false,
            };
            if at_end {
                break;
            }
            assert(!(it is Eof));
            match to_event(raw, limit)? {
                Some(event) => {
                    match Self::apply_event(&mut state, xml_document, event) {
                        Ok(_) => {},
                        Err(e) => {
                            return Err(e);
                        },
                    }
                },
                None => {},
            }
            assert(!is_final(items[count as int]));
            assert(count + 1 < items.len());
            assert(items.skip(count as int).drop_first() =~= items.skip(count + 1));
            count = count + 1;
            temp_buffer.clear();
        }
        Ok(())
    }
}

/// Opening an element inside the open one and then closing it with the same raw name
/// returns to the element that was open before, and the close leaves the document as the
/// opening left it. (A name that starts with `:` reads back without it, so its close does
/// not match.)
pub proof fn law_start_then_end_returns_to_parent(s: ParseState, tag: Seq<char>, attrs: Seq<AttributeModel>)
    requires
        s.root_loaded,
        step_spec(s, EventModel::Start(tag, attrs)) is Ok,
        s.active != s.doc.running_id + 1,
        !(tag.len() > 0 && tag[0] == ':'),
    ensures
        ({
            let s1 = step_spec(s, EventModel::Start(tag, attrs))->Ok_0;
            step_spec(s1, EventModel::End(tag)) == Ok::<ParseState, ErrorModel>(ParseState { active: s.active, ..s1 })
        }),
{
    let s1 = step_spec(s, EventModel::Start(tag, attrs))->Ok_0;
    let id = s1.active;
    assert(s.doc.running_id < u32::MAX);
    assert(id == s.doc.running_id + 1);
    assert(s1.doc.elements.contains_key(id));
    assert(s1.doc.elements[id].parent_id == Some(s.active));
    lemma_attribute_name_roundtrip(tag, Seq::empty());
    assert(tag_ns(s1.doc.elements[id]) == tag);
}

/// A failure on a prefix of the events is the failure of them all.
proof fn lemma_apply_err_prefix(s: ParseState, evs: Seq<EventModel>, n: int)
    requires
        0 <= n <= evs.len(),
        apply_events(s, evs.take(n)) is Err,
    ensures
        apply_events(s, evs) == apply_events(s, evs.take(n)),
    decreases evs.len() - n,
{
    if n < evs.len() {
        assert(evs.take(n + 1).drop_last() =~= evs.take(n));
        lemma_apply_err_prefix(s, evs, n + 1);
    } else {
        assert(evs.take(n) =~= evs);
    }
}

} // verus!
