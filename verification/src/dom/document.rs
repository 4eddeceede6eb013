//! XML documents: the prolog and the element tree, indexed by node id.
use vstd::prelude::*;
use crate::error::XmlError;
use crate::text::{to_string, copy_string, contains_colon, join_alias, join_qualified, string_push};
use crate::dom::attribute::{XmlAttribute, AttributeModel, attribute_from_raw};
use crate::dom::namespace::{XmlNamespace, NamespaceDeclaration, ScopeModel, resolve_spec, empty_scope, opt_string_view};
use crate::dom::element::{
    XmlElement, XmlElementContentType, ElementModel, ContentModel, NodeId, Tag, NsTag,
    new_element_spec, opt_attrs_view, attrs_view, contents_view, tag_ns,
    push_content, child_item, insert_after_tag, insert_after_tag_ns, insert_before_tag,
    insert_before_tag_ns, declare_resolved, first_id_where, ids_where, nonempty, child_query, any_child,
    child_tag_ns_is, contents_or_empty, attrs_or_empty, attr_matches, content_id,
};
use crate::seqs::any_match;

verus! {

/// The mathematical model of a document.
pub ghost struct DocumentModel {
    pub version: Seq<char>,
    pub encoding: Seq<char>,
    pub standalone: Option<Seq<char>>,
    pub prolog_comments: Seq<Seq<char>>,
    /// The last node id handed out.
    pub running_id: u32,
    pub root_id: u32,
    /// The elements by node id.
    pub elements: Map<u32, ElementModel>,
}

/// The model of the element slots: slot `i` holds the element with node id `i`.
pub open spec fn slots_view(v: Seq<Option<XmlElement>>) -> Map<u32, ElementModel> {
    Map::new(
        |id: u32| (id as int) < v.len() && v[id as int] is Some,
        |id: u32| v[id as int]->Some_0@,
    )
}

/// The model of a vector of strings.
pub open spec fn strings_view(v: Seq<String>) -> Seq<Seq<char>> {
    v.map_values(|s: String| s@)
}

/// Writing slot `i` writes the element with node id `i`.
pub proof fn lemma_slots_update(v: Seq<Option<XmlElement>>, i: int, x: XmlElement)
    requires
        0 <= i < v.len(),
        i <= u32::MAX,
    ensures
        slots_view(v.update(i, Some(x))) == slots_view(v).insert(i as u32, x@),
{
    assert(slots_view(v.update(i, Some(x))) =~= slots_view(v).insert(i as u32, x@));
}

/// Emptying slot `i` removes the element with node id `i`.
pub proof fn lemma_slots_clear(v: Seq<Option<XmlElement>>, i: int)
    requires
        0 <= i < v.len(),
        i <= u32::MAX,
    ensures
        slots_view(v.update(i, None)) == slots_view(v).remove(i as u32),
{
    assert(slots_view(v.update(i, None)) =~= slots_view(v).remove(i as u32));
}


/// Where a new child element goes among its parent's contents.
pub ghost enum Placement {
    /// At the end.
    Append,
    /// After the last child with this local tag, else at the end.
    AfterTag(Seq<char>),
    /// After the last child with this namespaced tag, else at the end.
    AfterTagNs(Seq<char>),
    /// Before the first child with this local tag, else at the front.
    BeforeTag(Seq<char>),
    /// Before the first child with this namespaced tag, else at the front.
    BeforeTagNs(Seq<char>),
}

/// The parent after linking `item` according to `placement`.
pub open spec fn link_child(p: ElementModel, item: ContentModel, placement: Placement) -> ElementModel {
    match placement {
        Placement::Append => push_content(p, item),
        Placement::AfterTag(q) => insert_after_tag(p, item, q),
        Placement::AfterTagNs(q) => insert_after_tag_ns(p, item, q),
        Placement::BeforeTag(q) => insert_before_tag(p, item, q),
        Placement::BeforeTagNs(q) => insert_before_tag_ns(p, item, q),
    }
}

/// A reference tag is matched by namespaced tag when it holds `:`, else by local tag.
pub open spec fn after_placement(q: Seq<char>) -> Placement {
    if q.contains(':') {
        Placement::AfterTagNs(q)
    } else {
        Placement::AfterTag(q)
    }
}

/// A reference tag is matched by namespaced tag when it holds `:`, else by local tag.
pub open spec fn before_placement(q: Seq<char>) -> Placement {
    if q.contains(':') {
        Placement::BeforeTagNs(q)
    } else {
        Placement::BeforeTag(q)
    }
}

/// The document with the node id counter advanced by one.
pub open spec fn bump(d: DocumentModel) -> DocumentModel {
    DocumentModel { running_id: (d.running_id + 1) as u32, ..d }
}

/// Creating the root element in a fresh scope with the next node id, which becomes the
/// root id. A failed creation leaves the document as it was.
pub open spec fn create_root_spec(
    d: DocumentModel,
    tag: Seq<char>,
    attrs: Option<Seq<AttributeModel>>,
) -> (DocumentModel, Result<u32, XmlError>) {
    let id = (d.running_id + 1) as u32;
    match new_element_spec(tag, attrs, empty_scope()) {
        Ok(e) => (
            DocumentModel { root_id: id, ..with_element(bump(d), id, ElementModel { id: id, ..e }) },
            Ok(id),
        ),
        Err(err) => (d, Err(err)),
    }
}

/// Creating a child element with the next node id, inheriting the parent's scope, and
/// storing it (not yet linked into the parent's contents). A failed creation leaves the
/// document as it was.
pub open spec fn create_child_spec(
    d: DocumentModel,
    parent: u32,
    tag: Seq<char>,
    attrs: Option<Seq<AttributeModel>>,
) -> (DocumentModel, Result<u32, XmlError>) {
    let id = (d.running_id + 1) as u32;
    if !d.elements.contains_key(parent) {
        (d, Err(XmlError::ElementNotFound(parent)))
    } else {
        match new_element_spec(tag, attrs, d.elements[parent].scope) {
            Ok(e) => (
                with_element(bump(d), id, ElementModel { id: id, parent_id: Some(parent), ..e }),
                Ok(id),
            ),
            Err(err) => (d, Err(err)),
        }
    }
}

/// Creating a child element and linking it into its parent's contents.
pub open spec fn insert_child_spec(
    d: DocumentModel,
    parent: u32,
    tag: Seq<char>,
    attrs: Option<Seq<AttributeModel>>,
    placement: Placement,
) -> (DocumentModel, Result<u32, XmlError>) {
    let (d2, r) = create_child_spec(d, parent, tag, attrs);
    match r {
        Ok(id) => {
            let c = d2.elements[id];
            (
                with_element(d2, parent, link_child(d2.elements[parent], child_item(id, c.tag, tag_ns(c)), placement)),
                Ok(id),
            )
        },
        Err(e) => (d2, Err(e)),
    }
}

/// The name of the `xmlns` attribute declaring `alias`.
pub open spec fn xmlns_name(alias: Seq<char>) -> Seq<char> {
    if alias.len() == 0 {
        seq!['x', 'm', 'l', 'n', 's']
    } else {
        seq!['x', 'm', 'l', 'n', 's', ':'] + alias
    }
}

/// The attributes, an empty list when absent.
pub open spec fn attrs_or_default(a: Option<Seq<AttributeModel>>) -> Seq<AttributeModel> {
    match a {
        Some(s) => s,
        None => Seq::empty(),
    }
}

/// The tag of a namespaced child and its attributes, with an `xmlns` declaration added
/// when the namespace is not bound in the parent's scope.
pub open spec fn ns_child_tag(
    scope: ScopeModel,
    d: NamespaceDeclaration,
    local: Seq<char>,
    attrs: Option<Seq<AttributeModel>>,
) -> (Seq<char>, Option<Seq<AttributeModel>>) {
    let (alias, needs) = resolve_spec(d, scope);
    let tag = join_alias(alias, local);
    if needs {
        (tag, Some(attrs_or_default(attrs).push(attribute_from_raw(xmlns_name(alias), d.uri@))))
    } else {
        (tag, attrs)
    }
}

/// Creating and linking a namespaced child; fails first when the parent is missing.
pub open spec fn insert_ns_child_spec(
    d: DocumentModel,
    parent: u32,
    local: Seq<char>,
    decl: NamespaceDeclaration,
    attrs: Option<Seq<AttributeModel>>,
    placement: Placement,
) -> (DocumentModel, Result<u32, XmlError>) {
    if !d.elements.contains_key(parent) {
        (d, Err(XmlError::ElementNotFound(parent)))
    } else {
        let (tag, a) = ns_child_tag(d.elements[parent].scope, decl, local, attrs);
        insert_child_spec(d, parent, tag, a, placement)
    }
}

/// The namespaced reference tag for `local` in the namespace of `decl` in `scope`.
pub open spec fn reference_tag(scope: ScopeModel, local: Seq<char>, decl: NamespaceDeclaration) -> Seq<char> {
    join_alias(resolve_spec(decl, scope).0, local)
}

/// Removing the descendants of `id` from the elements: its child elements in order, each
/// after its own descendants, within `fuel` levels. Gives the elements reached and the
/// outcome; a missing element stops the removal.
pub open spec fn clear_node(els: Map<u32, ElementModel>, id: u32, fuel: nat) -> (Map<u32, ElementModel>, Result<(), XmlError>)
    decreases fuel, 0nat, 0nat,
{
    if fuel == 0 {
        (els, Err(XmlError::CyclicTree))
    } else if !els.contains_key(id) {
        (els, Err(XmlError::ElementNotFound(id)))
    } else {
        clear_ids(els, ids_where(contents_or_empty(els[id]), any_child()), (fuel - 1) as nat)
    }
}

/// Removing each element of `ids`, in order, after its descendants.
pub open spec fn clear_ids(els: Map<u32, ElementModel>, ids: Seq<u32>, fuel: nat) -> (Map<u32, ElementModel>, Result<(), XmlError>)
    decreases fuel, 1nat, ids.len(),
{
    if ids.len() == 0 {
        (els, Ok(()))
    } else {
        let (m, r) = clear_ids(els, ids.drop_last(), fuel);
        match r {
            Err(e) => (m, Err(e)),
            Ok(()) => {
                let (m2, r2) = clear_node(m, ids.last(), fuel);
                match r2 {
                    Ok(()) => (m2.remove(ids.last()), Ok(())),
                    Err(e) => (m2, Err(e)),
                }
            },
        }
    }
}

/// Clearing the content of an element: its descendants are removed, then its content list.
pub open spec fn clear_content_spec(d: DocumentModel, id: u32) -> (DocumentModel, Result<(), XmlError>) {
    let (m, r) = clear_node(d.elements, id, tree_fuel(d));
    let d1 = DocumentModel { elements: m, ..d };
    match r {
        Err(e) => (d1, Err(e)),
        Ok(()) => if m.contains_key(id) {
            (with_element(d1, id, ElementModel { contents: None, ..m[id] }), Ok(()))
        } else {
            (d1, Err(XmlError::ElementNotFound(id)))
        },
    }
}

/// The depth bound for walks of the element tree: one more than the number of node ids
/// ever handed out.
pub open spec fn tree_fuel(d: DocumentModel) -> nat {
    (d.running_id + 1) as nat
}

/// The contents without the child items for node `id`.
pub open spec fn without_child(cs: Seq<ContentModel>, id: u32) -> Seq<ContentModel> {
    cs.filter_map(|c: ContentModel| if c is Element && content_id(c) == id { None } else { Some(c) })
}

/// Removing an element: it is unlinked from its parent, its descendants are removed, then
/// the element itself.
pub open spec fn remove_spec(d: DocumentModel, id: u32) -> (DocumentModel, Result<(), XmlError>) {
    if !d.elements.contains_key(id) {
        (d, Err(XmlError::ElementNotFound(id)))
    } else {
        let d1 = match d.elements[id].parent_id {
            Some(p) => if d.elements.contains_key(p) {
                match d.elements[p].contents {
                    Some(cs) => with_element(d, p, ElementModel { contents: Some(without_child(cs, id)), ..d.elements[p] }),
                    None => d,
                }
            } else {
                d
            },
            None => d,
        };
        if d.elements[id].parent_id is Some && !d.elements.contains_key(d.elements[id].parent_id->Some_0) {
            (d, Err(XmlError::ElementNotFound(d.elements[id].parent_id->Some_0)))
        } else {
            let (m, r) = clear_node(d1.elements, id, tree_fuel(d));
            match r {
                Err(e) => (DocumentModel { elements: m, ..d1 }, Err(e)),
                Ok(()) => (DocumentModel { elements: m.remove(id), ..d1 }, Ok(())),
            }
        }
    }
}

/// The element has an attribute matching `name` with value `value`.
pub open spec fn has_attr_value(e: ElementModel, name: Seq<char>, value: Seq<char>) -> bool {
    any_match(attrs_or_empty(e), |x: AttributeModel| attr_matches(x, name) && x.value == value)
}

/// The first child element (in order) having attribute `name` with value `value`; fails at
/// the first child item whose element is missing.
pub open spec fn first_by_attr(els: Map<u32, ElementModel>, cs: Seq<ContentModel>, name: Seq<char>, value: Seq<char>) -> Result<Option<u32>, XmlError>
    decreases cs.len(),
{
    if cs.len() == 0 {
        Ok(None)
    } else {
        match cs[0] {
            ContentModel::Element(cid, _, _) => if !els.contains_key(cid) {
                Err(XmlError::ElementNotFound(cid))
            } else if has_attr_value(els[cid], name, value) {
                Ok(Some(cid))
            } else {
                first_by_attr(els, cs.drop_first(), name, value)
            },
            _ => first_by_attr(els, cs.drop_first(), name, value),
        }
    }
}

/// All child elements (in order) having attribute `name` with value `value`; fails at the
/// first child item whose element is missing.
pub open spec fn all_by_attr(els: Map<u32, ElementModel>, cs: Seq<ContentModel>, name: Seq<char>, value: Seq<char>) -> Result<Seq<u32>, XmlError>
    decreases cs.len(),
{
    if cs.len() == 0 {
        Ok(Seq::empty())
    } else {
        match all_by_attr(els, cs.drop_last(), name, value) {
            Err(e) => Err(e),
            Ok(ids) => match cs.last() {
                ContentModel::Element(cid, _, _) => if !els.contains_key(cid) {
                    Err(XmlError::ElementNotFound(cid))
                } else if has_attr_value(els[cid], name, value) {
                    Ok(ids.push(cid))
                } else {
                    Ok(ids)
                },
                _ => Ok(ids),
            },
        }
    }
}

/// The contents of an element of the document, empty when it has none.
pub open spec fn children_of(d: DocumentModel, id: u32) -> Seq<ContentModel> {
    contents_or_empty(d.elements[id])
}

/// Represents an XML document: prolog information and the elements by node id.
#[derive(Debug)]
pub struct XmlDocument {
    version: String,
    encoding: String,
    standalone: Option<String>,
    prolog_comments: Vec<String>,
    running_id: NodeId,
    root_id: NodeId,
    xml_element_collection: Vec<Option<XmlElement>>,
}

impl View for XmlDocument {
    type V = DocumentModel;

    closed spec fn view(&self) -> DocumentModel {
        DocumentModel {
            version: self.version@,
            encoding: self.encoding@,
            standalone: opt_string_view(self.standalone),
            prolog_comments: strings_view(self.prolog_comments@),
            running_id: self.running_id,
            root_id: self.root_id,
            elements: slots_view(self.xml_element_collection@),
        }
    }
}

/// The document with element `id` replaced by `e`.
pub open spec fn with_element(d: DocumentModel, id: u32, e: ElementModel) -> DocumentModel {
    DocumentModel { elements: d.elements.insert(id, e), ..d }
}

impl Default for XmlDocument {
    /// An empty document: version `1.0`, encoding `UTF-8`, no root yet.
    fn default() -> (r: XmlDocument)
        ensures
            r@.version == seq!['1', '.', '0'],
            r@.encoding == seq!['U', 'T', 'F', '-', '8'],
            r@.standalone is None,
            r@.prolog_comments == Seq::<Seq<char>>::empty(),
            r@.running_id == 0,
            r@.root_id == 1,
            r@.elements == Map::<u32, ElementModel>::empty(),
    {
        XmlDocument::new()
    }
}

impl XmlDocument {
    /// Creates a new XML document: version `1.0`, encoding `UTF-8`, no root yet; the
    /// root element will get node id 1.
    pub fn new() -> (r: XmlDocument)
        ensures
            r@.version == seq!['1', '.', '0'],
            r@.encoding == seq!['U', 'T', 'F', '-', '8'],
            r@.standalone is None,
            r@.prolog_comments == Seq::<Seq<char>>::empty(),
            r@.running_id == 0,
            r@.root_id == 1,
            r@.elements == Map::<u32, ElementModel>::empty(),
    {
        let r = XmlDocument {
            version: to_string("1.0"),
            encoding: to_string("UTF-8"),
            standalone: None,
            prolog_comments: Vec::new(),
            running_id: 0,
            root_id: 1,
            xml_element_collection: Vec::new(),
        };
        proof {
            reveal_strlit("1.0");
            reveal_strlit("UTF-8");
            assert(r@.prolog_comments =~= Seq::<Seq<char>>::empty());
            assert(r@.elements =~= Map::<u32, ElementModel>::empty());
        }
        r
    }

    /// Gets a reference to an element by node ID.
    pub fn get_element(&self, active_xml_element_id: NodeId) -> (r: Result<&XmlElement, XmlError>)
        ensures
            match r {
                Ok(e) => self@.elements.contains_key(active_xml_element_id) && e@
                    == self@.elements[active_xml_element_id],
                Err(err) => !self@.elements.contains_key(active_xml_element_id) && err
                    == XmlError::ElementNotFound(active_xml_element_id),
            },
    {
        let i = active_xml_element_id as usize;
        if i < self.xml_element_collection.len() {
            match &self.xml_element_collection[i] {
                Some(e) => {
                    return Ok(e);
                },
                None => {},
            }
        }
        Err(XmlError::ElementNotFound(active_xml_element_id))
    }

    /// Gets a mutable reference to an element by node ID.
    pub fn get_element_mut(&mut self, active_xml_element_id: NodeId) -> (r: Result<
        &mut XmlElement,
        XmlError,
    >)
        ensures
            match r {
                Ok(e) => {
                    &&& old(self)@.elements.contains_key(active_xml_element_id)
                    &&& e@ == old(self)@.elements[active_xml_element_id]
                    &&& final(self)@ == with_element(old(self)@, active_xml_element_id, final(e)@)
                },
                Err(err) => {
                    &&& !old(self)@.elements.contains_key(active_xml_element_id)
                    &&& err == XmlError::ElementNotFound(active_xml_element_id)
                    &&& final(self)@ == old(self)@
                },
            },
    {
        let i = active_xml_element_id as usize;
        if i < self.xml_element_collection.len() && self.xml_element_collection[i].is_some() {
            let ghost old_slots = self.xml_element_collection@;
            let slot = &mut self.xml_element_collection[i];
            match slot.as_mut() {
                Some(e) => {
                    proof {
                        lemma_slots_update(old_slots, i as int, *final(e));
                    }
                    return Ok(e);
                },
                None => {
                    return Err(XmlError::ElementNotFound(active_xml_element_id));
                },
            }
        }
        Err(XmlError::ElementNotFound(active_xml_element_id))
    }
}

/// The `xmlns` attribute name declaring `alias`.
fn xmlns_attribute_name(alias: &str) -> (r: String)
    ensures
        r@ == xmlns_name(alias@),
{
    let mut r = to_string("xmlns");
    proof {
        reveal_strlit("xmlns");
    }
    if alias.unicode_len() > 0 {
        string_push(&mut r, ':');
        r.append(alias);
    }
    r
}

/// The attribute list with `extra` appended (an absent list counts as empty).
fn push_attribute(attributes: Option<Vec<XmlAttribute>>, extra: XmlAttribute) -> (r: Vec<XmlAttribute>)
    ensures
        attrs_view(r@) == attrs_or_default(opt_attrs_view(attributes)).push(extra@),
{
    let mut v = match attributes {
        Some(v) => v,
        None => Vec::new(),
    };
    let ghost v0 = v@;
    let ghost ev = extra@;
    assert(attrs_view(v0) =~= attrs_or_default(opt_attrs_view(attributes)));
    v.push(extra);
    assert(attrs_view(v@) =~= attrs_view(v0).push(ev));
    v
}

impl XmlDocument {
    /// Stores `element` under node id `id`.
    pub(crate) fn add_element(&mut self, id: NodeId, element: XmlElement)
        ensures
            final(self)@ == with_element(old(self)@, id, element@),
    {
        let i = id as usize;
        while self.xml_element_collection.len() <= i
            invariant
                self@ == old(self)@,
            decreases i + 1 - self.xml_element_collection.len(),
        {
            let ghost v0 = self.xml_element_collection@;
            self.xml_element_collection.push(None);
            assert(slots_view(self.xml_element_collection@) =~= slots_view(v0));
        }
        let ghost v1 = self.xml_element_collection@;
        proof {
            lemma_slots_update(v1, i as int, element);
        }
        self.xml_element_collection.set(i, Some(element));
    }

    /// Creates the root element from a fully formed `tag` in a fresh namespace scope.
    fn insert_root_element(&mut self, tag: &str, attributes: Option<Vec<XmlAttribute>>) -> (r: Result<
        NodeId,
        XmlError,
    >)
        requires
            old(self)@.running_id < u32::MAX,
        ensures
            (final(self)@, r) == create_root_spec(old(self)@, tag@, opt_attrs_view(attributes)),
    {
        let node_id = self.running_id + 1;
        let mut element = XmlElement::new(tag, attributes, XmlNamespace::new())?;
        self.running_id = node_id;
        element.set_id_mut(node_id);
        self.add_element(node_id, element);
        self.root_id = node_id;
        Ok(node_id)
    }

    /// Creates a child from a fully formed `tag` in the parent's scope and stores it.
    fn create_insert_element_into_collection(
        &mut self,
        parent_id: NodeId,
        tag: &str,
        attributes: Option<Vec<XmlAttribute>>,
    ) -> (r: Result<(NodeId, Tag, NsTag), XmlError>)
        requires
            old(self)@.running_id < u32::MAX,
        ensures
            match r {
                Ok((id, t, tn)) => {
                    &&& (final(self)@, Ok::<u32, XmlError>(id)) == create_child_spec(old(self)@, parent_id, tag@, opt_attrs_view(attributes))
                    &&& t@ == final(self)@.elements[id].tag
                    &&& tn@ == tag_ns(final(self)@.elements[id])
                },
                Err(e) => (final(self)@, Err::<u32, XmlError>(e)) == create_child_spec(old(self)@, parent_id, tag@, opt_attrs_view(attributes)),
            },
    {
        let node_id = self.running_id + 1;
        let ns_context = self.get_element(parent_id)?.get_ns_context().duplicate();
        let mut child_element = XmlElement::new(tag, attributes, ns_context)?;
        self.running_id = node_id;
        child_element.set_id_mut(node_id);
        child_element.set_parent_id_mut(parent_id);
        let tag = child_element.get_tag();
        let tag_ns = child_element.get_tag_ns();
        self.add_element(node_id, child_element);
        Ok((node_id, tag, tag_ns))
    }

    /// Creates a child from a fully formed `tag` and links it according to the placement:
    /// 0 appends, 1/2 go after the last child with the local/namespaced tag `reference`,
    /// 3/4 before the first one.
    fn insert_child_placed(
        &mut self,
        parent_id: NodeId,
        tag: &str,
        attributes: Option<Vec<XmlAttribute>>,
        reference: &str,
        placement: u8,
    ) -> (r: Result<NodeId, XmlError>)
        requires
            old(self)@.running_id < u32::MAX,
            placement <= 4,
        ensures
            (final(self)@, r) == insert_child_spec(
                old(self)@,
                parent_id,
                tag@,
                opt_attrs_view(attributes),
                placement_of(placement, reference@),
            ),
    {
        let ghost d0 = self@;
        let (node_id, tag, tag_ns) = self.create_insert_element_into_collection(parent_id, tag, attributes)?;
        let ghost d2 = self@;
        let parent = match self.get_element_mut(parent_id) {
            Ok(p) => p,
            Err(e) => {
                assert(false);
                return Err(e);
            },
        };
        if placement == 0 {
            let _ = parent.add_child_mut(node_id, tag.as_str(), tag_ns.as_str());
        } else if placement == 1 {
            let _ = parent.add_child_after_tag_mut(node_id, tag.as_str(), tag_ns.as_str(), reference);
        } else if placement == 2 {
            let _ = parent.add_child_after_tag_ns_mut(node_id, tag.as_str(), tag_ns.as_str(), reference);
        } else if placement == 3 {
            let _ = parent.add_child_before_tag_mut(node_id, tag.as_str(), tag_ns.as_str(), reference);
        } else {
            let _ = parent.add_child_before_tag_ns_mut(node_id, tag.as_str(), tag_ns.as_str(), reference);
        }
        Ok(node_id)
    }

    /// Resolves the alias for `ns_declaration` in an element's scope, declaring it if
    /// missing.
    pub fn resolve_alias_mut(&mut self, element_id: NodeId, ns_declaration: &NamespaceDeclaration) -> (r:
        Result<String, XmlError>)
        ensures
            match r {
                Ok(a) => old(self)@.elements.contains_key(element_id)
                    && a@ == resolve_spec(*ns_declaration, old(self)@.elements[element_id].scope).0
                    && final(self)@ == with_element(old(self)@, element_id, declare_resolved(old(self)@.elements[element_id], *ns_declaration)),
                Err(e) => !old(self)@.elements.contains_key(element_id) && e == XmlError::ElementNotFound(element_id)
                    && final(self)@ == old(self)@,
            },
    {
        let element = self.get_element_mut(element_id)?;
        Ok(element.resolve_alias_mut(ns_declaration))
    }

    /// Read-only resolution of `ns_declaration` in an element's scope.
    pub fn resolve_alias(&self, element_id: NodeId, ns_declaration: &NamespaceDeclaration) -> (r: Result<
        String,
        XmlError,
    >)
        ensures
            match r {
                Ok(a) => self@.elements.contains_key(element_id)
                    && a@ == resolve_spec(*ns_declaration, self@.elements[element_id].scope).0,
                Err(e) => !self@.elements.contains_key(element_id) && e == XmlError::ElementNotFound(element_id),
            },
    {
        Ok(self.get_element(element_id)?.resolve_alias(ns_declaration))
    }

    /// Creates the root element from a raw `tag`; any prefix must be declared through an
    /// accompanying `xmlns` attribute.
    pub fn create_root_element_mut(&mut self, tag: &str, attributes: Option<Vec<XmlAttribute>>) -> (r:
        Result<NodeId, XmlError>)
        requires
            old(self)@.running_id < u32::MAX,
        ensures
            (final(self)@, r) == create_root_spec(old(self)@, tag@, opt_attrs_view(attributes)),
    {
        self.insert_root_element(tag, attributes)
    }

    /// Creates the root element `local_name` with the alias of `ns_declaration` (its
    /// override, else its default alias), declared through an added `xmlns` attribute.
    pub fn create_root_element_ns_mut(
        &mut self,
        local_name: &str,
        ns_declaration: &NamespaceDeclaration,
        attributes: Option<Vec<XmlAttribute>>,
    ) -> (r: Result<NodeId, XmlError>)
        requires
            old(self)@.running_id < u32::MAX,
        ensures
            ({
                let alias = match ns_declaration.alias_override {
                    Some(o) => o@,
                    None => ns_declaration.default_alias@,
                };
                (final(self)@, r) == create_root_spec(
                    old(self)@,
                    join_alias(alias, local_name@),
                    Some(attrs_or_default(opt_attrs_view(attributes)).push(
                        attribute_from_raw(xmlns_name(alias), ns_declaration.uri@),
                    )),
                )
            }),
    {
        let alias: &str = match ns_declaration.alias_override {
            Some(o) => o,
            None => ns_declaration.default_alias,
        };
        let root_tag = join_qualified(alias, local_name);
        let xmlns = XmlAttribute::new(xmlns_attribute_name(alias), to_string(ns_declaration.uri));
        let augmented = push_attribute(attributes, xmlns);
        self.insert_root_element(root_tag.as_str(), Some(augmented))
    }

    /// The tag and attributes of a namespaced child of `parent_id`.
    fn build_ns_child_tag(
        &self,
        parent_id: NodeId,
        ns_declaration: &NamespaceDeclaration,
        local_name: &str,
        attributes: Option<Vec<XmlAttribute>>,
    ) -> (r: Result<(NsTag, Option<Vec<XmlAttribute>>), XmlError>)
        ensures
            match r {
                Ok((t, a)) => self@.elements.contains_key(parent_id) && (t@, opt_attrs_view(a)) == ns_child_tag(
                    self@.elements[parent_id].scope,
                    *ns_declaration,
                    local_name@,
                    opt_attrs_view(attributes),
                ),
                Err(e) => !self@.elements.contains_key(parent_id) && e == XmlError::ElementNotFound(parent_id),
            },
    {
        let ns_context = self.get_element(parent_id)?.get_ns_context();
        let (alias, needs_declaration) = ns_declaration.resolve_in(ns_context);
        let ns_tag = join_qualified(alias.as_str(), local_name);
        if needs_declaration {
            let xmlns = XmlAttribute::new(xmlns_attribute_name(alias.as_str()), to_string(ns_declaration.uri));
            Ok((ns_tag, Some(push_attribute(attributes, xmlns))))
        } else {
            Ok((ns_tag, attributes))
        }
    }

    /// The namespaced reference tag for `local_name` in the namespace of `ns_declaration`.
    fn build_reference_ns_tag(&self, parent_id: NodeId, local_name: &str, ns_declaration: &NamespaceDeclaration) -> (r:
        Result<String, XmlError>)
        ensures
            match r {
                Ok(t) => self@.elements.contains_key(parent_id) && t@ == reference_tag(
                    self@.elements[parent_id].scope,
                    local_name@,
                    *ns_declaration,
                ),
                Err(e) => !self@.elements.contains_key(parent_id) && e == XmlError::ElementNotFound(parent_id),
            },
    {
        let ns_context = self.get_element(parent_id)?.get_ns_context();
        Ok(ns_declaration.scoped_name(ns_context, local_name))
    }

    /// Appends a child from a raw `tag`; any prefix must already be declared in the parent
    /// scope or through an `xmlns` attribute.
    pub fn append_child_element_mut(&mut self, parent_id: NodeId, tag: &str, attributes: Option<Vec<XmlAttribute>>) -> (r:
        Result<NodeId, XmlError>)
        requires
            old(self)@.running_id < u32::MAX,
        ensures
            (final(self)@, r) == insert_child_spec(old(self)@, parent_id, tag@, opt_attrs_view(attributes), Placement::Append),
    {
        let empty = String::new();
        self.insert_child_placed(parent_id, tag, attributes, empty.as_str(), 0)
    }

    /// Appends a child `local_name` whose alias is resolved from `ns_declaration`, declaring
    /// the namespace on the child only when it is not already in the parent scope.
    pub fn append_child_element_ns_mut(
        &mut self,
        parent_id: NodeId,
        local_name: &str,
        ns_declaration: &NamespaceDeclaration,
        attributes: Option<Vec<XmlAttribute>>,
    ) -> (r: Result<NodeId, XmlError>)
        requires
            old(self)@.running_id < u32::MAX,
        ensures
            (final(self)@, r) == insert_ns_child_spec(old(self)@, parent_id, local_name@, *ns_declaration, opt_attrs_view(attributes), Placement::Append),
    {
        let (ns_tag, attributes) = self.build_ns_child_tag(parent_id, ns_declaration, local_name, attributes)?;
        let empty = String::new();
        self.insert_child_placed(parent_id, ns_tag.as_str(), attributes, empty.as_str(), 0)
    }

    /// Inserts a child from raw `tag` after the last child matching `after_tag` (by
    /// namespaced tag when it holds `:`, else by local tag), or appends it.
    pub fn insert_child_element_after_last_tag_mut(
        &mut self,
        parent_id: NodeId,
        tag: &str,
        after_tag: &str,
        attributes: Option<Vec<XmlAttribute>>,
    ) -> (r: Result<NodeId, XmlError>)
        requires
            old(self)@.running_id < u32::MAX,
        ensures
            (final(self)@, r) == insert_child_spec(old(self)@, parent_id, tag@, opt_attrs_view(attributes), after_placement(after_tag@)),
    {
        let match_by_ns = contains_colon(after_tag);
        let placement: u8 = if match_by_ns { 2 } else { 1 };
        self.insert_child_placed(parent_id, tag, attributes, after_tag, placement)
    }

    /// Inserts a namespaced child after the last child whose namespaced tag is
    /// `after_local_name` resolved through `after_ns_declaration`, or appends it.
    pub fn insert_child_element_after_last_tag_ns_mut(
        &mut self,
        parent_id: NodeId,
        local_name: &str,
        ns_declaration: &NamespaceDeclaration,
        after_local_name: &str,
        after_ns_declaration: &NamespaceDeclaration,
        attributes: Option<Vec<XmlAttribute>>,
    ) -> (r: Result<NodeId, XmlError>)
        requires
            old(self)@.running_id < u32::MAX,
        ensures
            (final(self)@, r) == insert_ns_child_spec(
                old(self)@,
                parent_id,
                local_name@,
                *ns_declaration,
                opt_attrs_view(attributes),
                Placement::AfterTagNs(reference_tag(old(self)@.elements[parent_id].scope, after_local_name@, *after_ns_declaration)),
            ),
    {
        let (ns_tag, attributes) = self.build_ns_child_tag(parent_id, ns_declaration, local_name, attributes)?;
        let after_reference = self.build_reference_ns_tag(parent_id, after_local_name, after_ns_declaration)?;
        self.insert_child_placed(parent_id, ns_tag.as_str(), attributes, after_reference.as_str(), 2)
    }

    /// Inserts a child from raw `tag` before the first child matching `before_tag` (by
    /// namespaced tag when it holds `:`, else by local tag), or at the front.
    pub fn insert_child_element_before_first_tag_mut(
        &mut self,
        parent_id: NodeId,
        tag: &str,
        before_tag: &str,
        attributes: Option<Vec<XmlAttribute>>,
    ) -> (r: Result<NodeId, XmlError>)
        requires
            old(self)@.running_id < u32::MAX,
        ensures
            (final(self)@, r) == insert_child_spec(old(self)@, parent_id, tag@, opt_attrs_view(attributes), before_placement(before_tag@)),
    {
        let match_by_ns = contains_colon(before_tag);
        let placement: u8 = if match_by_ns { 4 } else { 3 };
        self.insert_child_placed(parent_id, tag, attributes, before_tag, placement)
    }

    /// Inserts a namespaced child before the first child whose namespaced tag is
    /// `before_local_name` resolved through `before_ns_declaration`, or at the front.
    pub fn insert_child_element_before_first_tag_ns_mut(
        &mut self,
        parent_id: NodeId,
        local_name: &str,
        ns_declaration: &NamespaceDeclaration,
        before_local_name: &str,
        before_ns_declaration: &NamespaceDeclaration,
        attributes: Option<Vec<XmlAttribute>>,
    ) -> (r: Result<NodeId, XmlError>)
        requires
            old(self)@.running_id < u32::MAX,
        ensures
            (final(self)@, r) == insert_ns_child_spec(
                old(self)@,
                parent_id,
                local_name@,
                *ns_declaration,
                opt_attrs_view(attributes),
                Placement::BeforeTagNs(reference_tag(old(self)@.elements[parent_id].scope, before_local_name@, *before_ns_declaration)),
            ),
    {
        let (ns_tag, attributes) = self.build_ns_child_tag(parent_id, ns_declaration, local_name, attributes)?;
        let before_reference = self.build_reference_ns_tag(parent_id, before_local_name, before_ns_declaration)?;
        self.insert_child_placed(parent_id, ns_tag.as_str(), attributes, before_reference.as_str(), 4)
    }
}

/// The placement selected by its code.
pub open spec fn placement_of(code: u8, reference: Seq<char>) -> Placement {
    if code == 0 {
        Placement::Append
    } else if code == 1 {
        Placement::AfterTag(reference)
    } else if code == 2 {
        Placement::AfterTagNs(reference)
    } else if code == 3 {
        Placement::BeforeTag(reference)
    } else {
        Placement::BeforeTagNs(reference)
    }
}

impl XmlDocument {
    /// Removes element `id` from the document (nothing else changes).
    fn remove_stored(&mut self, id: NodeId)
        ensures
            final(self)@ == (DocumentModel { elements: old(self)@.elements.remove(id), ..old(self)@ }),
    {
        let i = id as usize;
        let ghost v0 = self.xml_element_collection@;
        if i < self.xml_element_collection.len() {
            proof {
                lemma_slots_clear(v0, i as int);
            }
            self.xml_element_collection.set(i, None);
        } else {
            assert(self@.elements =~= old(self)@.elements.remove(id));
        }
    }

    /// Removes the descendants of `element_id`: its child elements in order, each after its
    /// own descendants, within `fuel` levels.
    fn clear_element_subtree_mut(&mut self, element_id: NodeId, fuel: u64) -> (r: Result<(), XmlError>)
        ensures
            (final(self)@.elements, r) == clear_node(old(self)@.elements, element_id, fuel as nat),
            final(self)@ == (DocumentModel { elements: final(self)@.elements, ..old(self)@ }),
        decreases fuel, 0nat,
    {
        if fuel == 0 {
            return Err(XmlError::CyclicTree);
        }
        let ghost els0 = self@.elements;
        let ghost d0 = self@;
        let ids: Vec<NodeId> = match self.get_element(element_id)?.get_child_element_ids() {
            Some(v) => v,
            None => Vec::new(),
        };
        let ghost all = ids_where(contents_or_empty(els0[element_id]), any_child());
        assert(ids@ == all);
        let mut i: usize = 0;
        assert(ids@.take(0) =~= Seq::<u32>::empty());
        while i < ids.len()
            invariant
                i <= ids.len(),
                fuel > 0,
                ids@ == all,
                els0 == old(self)@.elements,
                d0 == old(self)@,
                els0.contains_key(element_id),
                all == ids_where(contents_or_empty(els0[element_id]), any_child()),
                (self@.elements, Ok::<(), XmlError>(())) == clear_ids(els0, ids@.take(i as int), (fuel - 1) as nat),
                self@ == (DocumentModel { elements: self@.elements, ..d0 }),
            decreases ids.len() - i,
        {
            let cid = ids[i];
            assert(ids@.take(i + 1).drop_last() =~= ids@.take(i as int));
            assert(ids@.take(i + 1).last() == cid);
            let ghost before = self@.elements;
            match self.clear_element_subtree_mut(cid, fuel - 1) {
                Ok(()) => {},
                Err(e) => {
                    proof {
                        assert(clear_ids(els0, ids@.take(i + 1), (fuel - 1) as nat) == (self@.elements, Err::<(), XmlError>(e)));
                        lemma_clear_ids_prefix_err(els0, ids@, (i + 1) as int, (fuel - 1) as nat);
                        assert(ids@.take(ids@.len() as int) =~= ids@);
                    }
                    return Err(e);
                },
            }
            self.remove_stored(cid);
            i = i + 1;
        }
        assert(ids@.take(ids@.len() as int) =~= ids@);
        Ok(())
    }

    /// Clears the content of an element, removing its descendants from the document; fails
    /// when the element or one of its descendants is missing.
    pub fn clear_element_content_mut(&mut self, element_id: NodeId) -> (r: Result<(), XmlError>)
        ensures
            (final(self)@, r) == clear_content_spec(old(self)@, element_id),
    {
        let fuel: u64 = self.running_id as u64 + 1;
        self.clear_element_subtree_mut(element_id, fuel)?;
        let element = self.get_element_mut(element_id)?;
        element.clear_content_mut();
        Ok(())
    }

    /// Removes an element: it is unlinked from its parent's contents and dropped from the
    /// document; fails when it, its parent or a reachable descendant is missing.
    pub fn remove_element_mut(&mut self, element_id: NodeId) -> (r: Result<(), XmlError>)
        ensures
            (final(self)@, r) == remove_spec(old(self)@, element_id),
    {
        let ghost d0 = self@;
        let fuel: u64 = self.running_id as u64 + 1;
        let parent_id = self.get_element(element_id)?.get_parent_id();
        let ghost d1 = match d0.elements[element_id].parent_id {
            Some(p) => if d0.elements.contains_key(p) {
                match d0.elements[p].contents {
                    Some(cs) => with_element(d0, p, ElementModel { contents: Some(without_child(cs, element_id)), ..d0.elements[p] }),
                    None => d0,
                }
            } else {
                d0
            },
            None => d0,
        };
        match parent_id {
            Some(pid) => {
                let parent = self.get_element_mut(pid)?;
                let ghost p0 = parent@;
                match parent.get_child_contents_mut().take() {
                    Some(v) => {
                        let kept = without_child_vec(&v, element_id);
                        let ghost k = contents_view(kept@);
                        let slot = parent.get_child_contents_mut();
                        *slot = Some(kept);
                        assert(parent@ == ElementModel { contents: Some(k), ..p0 });
                    },
                    None => {
                        assert(parent@ == p0);
                    },
                }
                let ghost pf = parent@;
                assert(self@ == with_element(d0, pid, pf));
                assert(d0.elements[element_id].parent_id == Some(pid));
                assert(d0.elements.contains_key(pid));
                proof {
                    if d0.elements[pid].contents is Some {
                        assert(pf == ElementModel { contents: Some(without_child(d0.elements[pid].contents.unwrap(), element_id)), ..d0.elements[pid] });
                    } else {
                        assert(pf == d0.elements[pid]);
                        assert(with_element(d0, pid, pf).elements =~= d0.elements);
                        assert(with_element(d0, pid, pf) == d0);
                    }
                }
            },
            None => {},
        }
        assert(self@ == d1);
        assert(self@.elements.contains_key(element_id));
        self.clear_element_subtree_mut(element_id, fuel)?;
        self.remove_stored(element_id);
        Ok(())
    }

    /// Gets the XML version string.
    pub fn get_version(&self) -> (r: &str)
        ensures
            r@ == self@.version,
    {
        self.version.as_str()
    }

    /// Gets the encoding string.
    pub fn get_encoding(&self) -> (r: &str)
        ensures
            r@ == self@.encoding,
    {
        self.encoding.as_str()
    }

    /// Gets the `standalone` declaration value, if present.
    pub fn get_standalone(&self) -> (r: Option<&str>)
        ensures
            match r {
                Some(s) => self@.standalone == Some(s@),
                None => self@.standalone is None,
            },
    {
        match &self.standalone {
            Some(s) => Some(s.as_str()),
            None => None,
        }
    }

    /// Gets the comments of the prolog, in document order.
    pub fn get_prolog_comments(&self) -> (r: &[String])
        ensures
            strings_view(r@) == self@.prolog_comments,
    {
        self.prolog_comments.as_slice()
    }

    /// The depth bound for walks of the element tree.
    pub(crate) fn get_root_id_fuel(&self) -> (r: u64)
        ensures
            r as nat == tree_fuel(self@),
    {
        self.running_id as u64 + 1
    }

    /// Whether another node id can be handed out: the element-creating methods need one.
    pub fn has_free_id(&self) -> (r: bool)
        ensures
            r == (self@.running_id < u32::MAX),
    {
        self.running_id < u32::MAX
    }

    /// Gets the root element's node ID.
    pub fn get_root_id(&self) -> (r: NodeId)
        ensures
            r == self@.root_id,
    {
        self.root_id
    }

    /// Sets the XML version string.
    pub fn set_version_mut(&mut self, version: String)
        ensures
            final(self)@ == (DocumentModel { version: version@, ..old(self)@ }),
    {
        self.version = version;
    }

    /// Sets the XML document encoding.
    pub fn set_encoding_mut(&mut self, encoding: String)
        ensures
            final(self)@ == (DocumentModel { encoding: encoding@, ..old(self)@ }),
    {
        self.encoding = encoding;
    }

    /// Sets the `standalone` declaration value.
    pub fn set_standalone_mut(&mut self, standalone: Option<String>)
        ensures
            final(self)@ == (DocumentModel { standalone: opt_string_view(standalone), ..old(self)@ }),
    {
        self.standalone = standalone;
    }

    /// Appends a comment to the document prolog.
    pub fn add_prolog_comment_mut(&mut self, comment: String)
        ensures
            final(self)@ == (DocumentModel { prolog_comments: old(self)@.prolog_comments.push(comment@), ..old(self)@ }),
    {
        let ghost p0 = self.prolog_comments@;
        let ghost c = comment@;
        self.prolog_comments.push(comment);
        assert(strings_view(self.prolog_comments@) =~= strings_view(p0).push(c));
    }

    /// A copy of the document.
    pub fn clone(&self) -> (r: XmlDocument)
        ensures
            r@ == self@,
    {
        let mut slots: Vec<Option<XmlElement>> = Vec::new();
        let mut i: usize = 0;
        while i < self.xml_element_collection.len()
            invariant
                i <= self.xml_element_collection.len(),
                slots@.len() == i,
                forall|j: int| 0 <= j < i ==> (#[trigger] slots@[j] is Some) == self.xml_element_collection@[j] is Some,
                forall|j: int| 0 <= j < i && slots@[j] is Some ==> (#[trigger] slots@[j])->Some_0@ == self.xml_element_collection@[j]->Some_0@,
            decreases self.xml_element_collection.len() - i,
        {
            let copy = match &self.xml_element_collection[i] {
                Some(e) => Some(e.clone_limited()),
                None => None,
            };
            slots.push(copy);
            i = i + 1;
        }
        let mut comments: Vec<String> = Vec::new();
        let mut k: usize = 0;
        while k < self.prolog_comments.len()
            invariant
                k <= self.prolog_comments.len(),
                strings_view(comments@) == strings_view(self.prolog_comments@).take(k as int),
            decreases self.prolog_comments.len() - k,
        {
            let ghost c0 = comments@;
            comments.push(copy_string(&self.prolog_comments[k]));
            assert(strings_view(comments@) =~= strings_view(c0).push(self.prolog_comments@[k as int]@));
            assert(strings_view(self.prolog_comments@).take(k + 1) =~= strings_view(self.prolog_comments@).take(k as int).push(self.prolog_comments@[k as int]@));
            k = k + 1;
        }
        assert(strings_view(self.prolog_comments@).take(k as int) =~= strings_view(self.prolog_comments@));
        let standalone = match &self.standalone {
            Some(s) => Some(copy_string(s)),
            None => None,
        };
        let r = XmlDocument {
            version: copy_string(&self.version),
            encoding: copy_string(&self.encoding),
            standalone,
            prolog_comments: comments,
            running_id: self.running_id,
            root_id: self.root_id,
            xml_element_collection: slots,
        };
        assert(r@.elements =~= self@.elements);
        r
    }

    /// Evaluates an XPath-style query: the query is parsed, and no evaluation exists yet,
    /// so the result is always `Ok(None)`.
    pub fn query_xpath(&self, query_path: &str) -> (r: Result<Option<Vec<NodeId>>, XmlError>)
        ensures
            r matches Ok(None),
    {
        let _xpath_handler = crate::dom::xpath::XPathHandler::new(query_path);
        Ok(None)
    }

    /// The first child of `parent_id` matching `tag` (by namespaced tag when `tag` holds
    /// a `:`, else by local tag).
    pub fn find_first_child(&self, parent_id: NodeId, tag: &str) -> (r: Result<Option<NodeId>, XmlError>)
        ensures
            match r {
                Ok(o) => self@.elements.contains_key(parent_id) && o == first_id_where(children_of(self@, parent_id), child_query(tag@)),
                Err(e) => !self@.elements.contains_key(parent_id) && e == XmlError::ElementNotFound(parent_id),
            },
    {
        Ok(self.get_element(parent_id)?.find_first_child(tag))
    }

    /// The first child of `parent_id` whose namespaced tag is exactly `tag_ns`.
    pub fn find_first_child_ns(&self, parent_id: NodeId, tag_ns: &str) -> (r: Result<Option<NodeId>, XmlError>)
        ensures
            match r {
                Ok(o) => self@.elements.contains_key(parent_id) && o == first_id_where(children_of(self@, parent_id), |c: ContentModel| child_tag_ns_is(c, tag_ns@)),
                Err(e) => !self@.elements.contains_key(parent_id) && e == XmlError::ElementNotFound(parent_id),
            },
    {
        Ok(self.get_element(parent_id)?.find_first_child_by_ns_tag(tag_ns))
    }

    /// All children of `parent_id` matching `tag`, or `None` when there are none.
    pub fn find_all_child(&self, parent_id: NodeId, tag: &str) -> (r: Result<Option<Vec<NodeId>>, XmlError>)
        ensures
            match r {
                Ok(Some(v)) => self@.elements.contains_key(parent_id) && nonempty(ids_where(children_of(self@, parent_id), child_query(tag@))) == Some(v@),
                Ok(None) => self@.elements.contains_key(parent_id) && nonempty(ids_where(children_of(self@, parent_id), child_query(tag@))) is None,
                Err(e) => !self@.elements.contains_key(parent_id) && e == XmlError::ElementNotFound(parent_id),
            },
    {
        Ok(self.get_element(parent_id)?.find_all_child(tag))
    }

    /// All children of `parent_id` whose namespaced tag is exactly `tag_ns`, or `None`.
    pub fn find_all_child_ns(&self, parent_id: NodeId, tag_ns: &str) -> (r: Result<Option<Vec<NodeId>>, XmlError>)
        ensures
            match r {
                Ok(Some(v)) => self@.elements.contains_key(parent_id) && nonempty(ids_where(children_of(self@, parent_id), |c: ContentModel| child_tag_ns_is(c, tag_ns@))) == Some(v@),
                Ok(None) => self@.elements.contains_key(parent_id) && nonempty(ids_where(children_of(self@, parent_id), |c: ContentModel| child_tag_ns_is(c, tag_ns@))) is None,
                Err(e) => !self@.elements.contains_key(parent_id) && e == XmlError::ElementNotFound(parent_id),
            },
    {
        Ok(self.get_element(parent_id)?.find_all_child_by_ns_tag(tag_ns))
    }

    /// The first child of `parent_id` with an attribute matching `attr_name` whose value is
    /// `attr_value`.
    pub fn find_first_by_attribute(&self, parent_id: NodeId, attr_name: &str, attr_value: &str) -> (r: Result<Option<NodeId>, XmlError>)
        ensures
            if self@.elements.contains_key(parent_id) {
                r == first_by_attr(self@.elements, children_of(self@, parent_id), attr_name@, attr_value@)
            } else {
                r == Err::<Option<NodeId>, XmlError>(XmlError::ElementNotFound(parent_id))
            },
    {
        let parent = self.get_element(parent_id)?;
        match parent.get_child_contents() {
            Some(contents) => {
                let ghost cv = contents_view(contents@);
                assert(cv.skip(0) =~= cv);
                let mut i: usize = 0;
                while i < contents.len()
                    invariant
                        i <= contents.len(),
                        cv == contents_view(contents@),
                        self@.elements.contains_key(parent_id),
                        cv == children_of(self@, parent_id),
                        first_by_attr(self@.elements, cv, attr_name@, attr_value@) == first_by_attr(self@.elements, cv.skip(i as int), attr_name@, attr_value@),
                    decreases contents.len() - i,
                {
                    assert(cv.skip(i as int).drop_first() =~= cv.skip(i + 1));
                    assert(cv.skip(i as int)[0] == cv[i as int]);
                    assert(cv[i as int] == contents@[i as int]@);
                    match &contents[i] {
                        XmlElementContentType::Element(t) => {
                            let child_id = t.0;
                            let child = self.get_element(child_id)?;
                            if child.attribute_value_matches(attr_name, attr_value) {
                                return Ok(Some(child_id));
                            }
                        },
                        _ => {},
                    }
                    i = i + 1;
                }
                assert(cv.skip(i as int) =~= Seq::<ContentModel>::empty());
                Ok(None)
            },
            None => {
                assert(children_of(self@, parent_id) =~= Seq::<ContentModel>::empty());
                Ok(None)
            },
        }
    }

    /// Same search as `find_first_by_attribute`; a prefixed `attr_name_ns` is matched by
    /// namespaced name.
    pub fn find_first_by_attribute_ns(&self, parent_id: NodeId, attr_name_ns: &str, attr_value: &str) -> (r: Result<Option<NodeId>, XmlError>)
        ensures
            if self@.elements.contains_key(parent_id) {
                r == first_by_attr(self@.elements, children_of(self@, parent_id), attr_name_ns@, attr_value@)
            } else {
                r == Err::<Option<NodeId>, XmlError>(XmlError::ElementNotFound(parent_id))
            },
    {
        self.find_first_by_attribute(parent_id, attr_name_ns, attr_value)
    }

    /// All children of `parent_id` with an attribute matching `attr_name` whose value is
    /// `attr_value`, or `None` when there are none.
    pub fn find_all_by_attribute(&self, parent_id: NodeId, attr_name: &str, attr_value: &str) -> (r: Result<Option<Vec<NodeId>>, XmlError>)
        ensures
            if self@.elements.contains_key(parent_id) {
                match all_by_attr(self@.elements, children_of(self@, parent_id), attr_name@, attr_value@) {
                    Ok(ids) => r matches Ok(o) && match o {
                        Some(v) => nonempty(ids) == Some(v@),
                        None => ids.len() == 0,
                    },
                    Err(e) => r == Err::<Option<Vec<NodeId>>, XmlError>(e),
                }
            } else {
                r == Err::<Option<Vec<NodeId>>, XmlError>(XmlError::ElementNotFound(parent_id))
            },
    {
        let parent = self.get_element(parent_id)?;
        let mut result: Vec<NodeId> = Vec::new();
        match parent.get_child_contents() {
            Some(contents) => {
                let ghost cv = contents_view(contents@);
                let mut i: usize = 0;
                while i < contents.len()
                    invariant
                        i <= contents.len(),
                        cv == contents_view(contents@),
                        self@.elements.contains_key(parent_id),
                        cv == children_of(self@, parent_id),
                        all_by_attr(self@.elements, cv.take(i as int), attr_name@, attr_value@) == Ok::<Seq<u32>, XmlError>(result@),
                    decreases contents.len() - i,
                {
                    assert(cv.take(i + 1).drop_last() =~= cv.take(i as int));
                    assert(cv.take(i + 1).last() == cv[i as int]);
                    assert(cv[i as int] == contents@[i as int]@);
                    match &contents[i] {
                        XmlElementContentType::Element(t) => {
                            let child_id = t.0;
                            let child = match self.get_element(child_id) {
                                Ok(c) => c,
                                Err(e) => {
                                    proof {
                                        lemma_all_by_attr_prefix_err(self@.elements, cv, (i + 1) as int, attr_name@, attr_value@);
                                    }
                                    return Err(e);
                                },
                            };
                            if child.attribute_value_matches(attr_name, attr_value) {
                                result.push(child_id);
                            }
                        },
                        _ => {},
                    }
                    i = i + 1;
                }
                assert(cv.take(i as int) =~= cv);
            },
            None => {
                assert(children_of(self@, parent_id) =~= Seq::<ContentModel>::empty());
                assert(result@ =~= Seq::<u32>::empty());
            },
        }
        if result.len() == 0 {
            Ok(None)
        } else {
            Ok(Some(result))
        }
    }

    /// Same search as `find_all_by_attribute`; a prefixed `attr_name_ns` is matched by
    /// namespaced name.
    pub fn find_all_by_attribute_ns(&self, parent_id: NodeId, attr_name_ns: &str, attr_value: &str) -> (r: Result<Option<Vec<NodeId>>, XmlError>)
        ensures
            if self@.elements.contains_key(parent_id) {
                match all_by_attr(self@.elements, children_of(self@, parent_id), attr_name_ns@, attr_value@) {
                    Ok(ids) => r matches Ok(o) && match o {
                        Some(v) => nonempty(ids) == Some(v@),
                        None => ids.len() == 0,
                    },
                    Err(e) => r == Err::<Option<Vec<NodeId>>, XmlError>(e),
                }
            } else {
                r == Err::<Option<Vec<NodeId>>, XmlError>(XmlError::ElementNotFound(parent_id))
            },
    {
        self.find_all_by_attribute(parent_id, attr_name_ns, attr_value)
    }
}

/// The contents without the child items for `id`.
fn without_child_vec(v: &Vec<XmlElementContentType>, id: NodeId) -> (r: Vec<XmlElementContentType>)
    ensures
        contents_view(r@) == without_child(contents_view(v@), id),
{
    let ghost cv = contents_view(v@);
    let ghost f = |c: ContentModel| if c is Element && content_id(c) == id { None } else { Some(c) };
    let mut kept: Vec<XmlElementContentType> = Vec::new();
    let mut i: usize = 0;
    while i < v.len()
        invariant
            i <= v.len(),
            cv == contents_view(v@),
            f == (|c: ContentModel| if c is Element && content_id(c) == id { None } else { Some(c) }),
            contents_view(kept@) == cv.take(i as int).filter_map(f),
        decreases v.len() - i,
    {
        assert(cv.take(i + 1).drop_last() =~= cv.take(i as int));
        let drop = match &v[i] {
            XmlElementContentType::Element(t) => t.0 == id,
            _ => false,
        };
        if !drop {
            let ghost k0 = kept@;
            kept.push(v[i].duplicate());
            assert(contents_view(kept@) =~= contents_view(k0).push(cv[i as int]));
        }
        i = i + 1;
    }
    assert(cv.take(v.len() as int) =~= cv);
    kept
}

/// A failing removal of a prefix of the ids fails the whole removal, where it stopped.
proof fn lemma_clear_ids_prefix_err(els: Map<u32, ElementModel>, ids: Seq<u32>, n: int, fuel: nat)
    requires
        0 <= n <= ids.len(),
        clear_ids(els, ids.take(n), fuel).1 is Err,
    ensures
        clear_ids(els, ids, fuel) == clear_ids(els, ids.take(n), fuel),
    decreases ids.len() - n,
{
    if n < ids.len() {
        assert(ids.take(n + 1).drop_last() =~= ids.take(n));
        lemma_clear_ids_prefix_err(els, ids, n + 1, fuel);
    } else {
        assert(ids.take(n) =~= ids);
    }
}

/// A failing scan of a prefix fails the whole scan with the same error.
proof fn lemma_all_by_attr_prefix_err(els: Map<u32, ElementModel>, cs: Seq<ContentModel>, n: int, name: Seq<char>, value: Seq<char>)
    requires
        0 <= n <= cs.len(),
        all_by_attr(els, cs.take(n), name, value) is Err,
    ensures
        all_by_attr(els, cs, name, value) == all_by_attr(els, cs.take(n), name, value),
    decreases cs.len() - n,
{
    if n < cs.len() {
        assert(cs.take(n + 1).drop_last() =~= cs.take(n));
        lemma_all_by_attr_prefix_err(els, cs, n + 1, name, value);
    } else {
        assert(cs.take(n) =~= cs);
    }
}

} // verus!
