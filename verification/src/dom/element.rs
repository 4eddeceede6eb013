//! XML element nodes: tag, attributes, contents and namespace scope.
use vstd::prelude::*;
use crate::error::XmlError;
use crate::text::{
    prefix_of, local_of, qualify, join_alias, find_colon, contains_colon, copy_string,
    to_string, starts_with, join_qualified, str_eq,
};
use crate::seqs::{first_match, last_match, find_first, find_last, any_match, lemma_first_match,
    lemma_last_match, lemma_find_first, lemma_find_last};
use crate::validation::{valid_xml_name, is_valid_xml_name};
use crate::dom::attribute::{XmlAttribute, AttributeModel, attribute_from_raw, attribute_ns_name, alias_in_scope};
use crate::dom::namespace::{
    scope_wf,
    XmlNamespace, NamespaceDeclaration, ScopeModel, scope_add, scope_clear_local, scope_url,
    scope_alias, resolve_spec, xmlns_alias, scope_local_declarations, opt_string_view,
};
use crate::dom::assoc::pairs_view;

verus! {

/// Type alias for node identifiers within an XML document.
pub type NodeId = u32;

/// Element tag name without namespace prefix.
pub type Tag = String;

/// Element tag name with namespace prefix.
pub type NsTag = String;

/// The different kinds of content an XML element holds.
#[derive(Debug)]
pub enum XmlElementContentType {
    /// A child element: its node id, local tag and namespaced tag.
    Element((NodeId, Tag, NsTag)),
    /// A text node.
    Text(String),
    /// A comment node.
    Comment(String),
}

/// The model of one content item.
pub ghost enum ContentModel {
    Element(u32, Seq<char>, Seq<char>),
    Text(Seq<char>),
    Comment(Seq<char>),
}

impl View for XmlElementContentType {
    type V = ContentModel;

    open spec fn view(&self) -> ContentModel {
        match self {
            XmlElementContentType::Element(t) => ContentModel::Element(t.0, t.1@, t.2@),
            XmlElementContentType::Text(s) => ContentModel::Text(s@),
            XmlElementContentType::Comment(s) => ContentModel::Comment(s@),
        }
    }
}

impl XmlElementContentType {
    /// A copy of this content item.
    pub(crate) fn duplicate(&self) -> (r: XmlElementContentType)
        ensures
            r@ == self@,
    {
        match self {
            XmlElementContentType::Element(t) => XmlElementContentType::Element(
                (t.0, copy_string(&t.1), copy_string(&t.2)),
            ),
            XmlElementContentType::Text(s) => XmlElementContentType::Text(copy_string(s)),
            XmlElementContentType::Comment(s) => XmlElementContentType::Comment(copy_string(s)),
        }
    }
}

impl Clone for XmlElementContentType {
    /// A copy of this content item.
    fn clone(&self) -> (r: Self)
        ensures
            r@ == self@,
    {
        self.duplicate()
    }
}

/// The model of a vector of contents.
pub open spec fn contents_view(v: Seq<XmlElementContentType>) -> Seq<ContentModel> {
    v.map_values(|c: XmlElementContentType| c@)
}

/// The model of optional contents.
pub open spec fn opt_contents_view(o: Option<Vec<XmlElementContentType>>) -> Option<
    Seq<ContentModel>,
> {
    match o {
        Some(v) => Some(contents_view(v@)),
        None => None,
    }
}

/// The model of a vector of attributes.
pub open spec fn attrs_view(v: Seq<XmlAttribute>) -> Seq<AttributeModel> {
    v.map_values(|a: XmlAttribute| a@)
}

/// The model of optional attributes.
pub open spec fn opt_attrs_view(o: Option<Vec<XmlAttribute>>) -> Option<Seq<AttributeModel>> {
    match o {
        Some(v) => Some(attrs_view(v@)),
        None => None,
    }
}

/// The mathematical model of an element.
pub ghost struct ElementModel {
    pub id: u32,
    /// Local tag name.
    pub tag: Seq<char>,
    pub contents: Option<Seq<ContentModel>>,
    pub parent_id: Option<u32>,
    /// Namespace alias of the tag.
    pub ns_alias: Option<Seq<char>>,
    pub attributes: Option<Seq<AttributeModel>>,
    /// Whether the element owns a namespace scope of its own.
    pub ns_override: bool,
    /// The namespace bindings in scope at this element.
    pub scope: ScopeModel,
}

// ---------------------------------------------------------------------
// Specifications of names, matching and searches
// ---------------------------------------------------------------------

/// The namespaced tag of an element.
pub open spec fn tag_ns(e: ElementModel) -> Seq<char> {
    qualify(e.ns_alias, e.tag)
}

/// A query `q` matches by namespaced name when it holds a `:`, else by local name.
pub open spec fn name_matches(local: Seq<char>, qualified: Seq<char>, q: Seq<char>) -> bool {
    if q.contains(':') {
        qualified == q
    } else {
        local == q
    }
}

/// An attribute matches a query name.
pub open spec fn attr_matches(a: AttributeModel, q: Seq<char>) -> bool {
    name_matches(a.name, attribute_ns_name(a), q)
}

/// A content item is a child element matching query `q`.
pub open spec fn child_matches(c: ContentModel, q: Seq<char>) -> bool {
    match c {
        ContentModel::Element(_, t, tn) => name_matches(t, tn, q),
        _ => false,
    }
}

/// The attributes matching query `q`.
pub open spec fn attr_query(q: Seq<char>) -> spec_fn(AttributeModel) -> bool {
    |x: AttributeModel| attr_matches(x, q)
}

/// The child elements matching query `q`.
pub open spec fn child_query(q: Seq<char>) -> spec_fn(ContentModel) -> bool {
    |c: ContentModel| child_matches(c, q)
}

/// The child elements.
pub open spec fn any_child() -> spec_fn(ContentModel) -> bool {
    |c: ContentModel| is_child(c)
}

/// A content item is a child element with local tag `q`.
pub open spec fn child_tag_is(c: ContentModel, q: Seq<char>) -> bool {
    match c {
        ContentModel::Element(_, t, _) => t == q,
        _ => false,
    }
}

/// A content item is a child element with namespaced tag `q`.
pub open spec fn child_tag_ns_is(c: ContentModel, q: Seq<char>) -> bool {
    match c {
        ContentModel::Element(_, _, tn) => tn == q,
        _ => false,
    }
}

/// A content item is a child element.
pub open spec fn is_child(c: ContentModel) -> bool {
    c is Element
}

/// The node id of a child element item.
pub open spec fn content_id(c: ContentModel) -> u32 {
    match c {
        ContentModel::Element(id, _, _) => id,
        _ => 0,
    }
}

/// The ids of the child elements of `cs` satisfying `p`, in order.
pub open spec fn ids_where(cs: Seq<ContentModel>, p: spec_fn(ContentModel) -> bool) -> Seq<u32> {
    cs.filter_map(|c: ContentModel| if p(c) { Some(content_id(c)) } else { None })
}

/// The id of the first child element of `cs` satisfying `p`.
pub open spec fn first_id_where(cs: Seq<ContentModel>, p: spec_fn(ContentModel) -> bool) -> Option<
    u32,
> {
    match find_first(cs, p) {
        Some(i) => Some(content_id(cs[i])),
        None => None,
    }
}

/// The id of the last child element of `cs` satisfying `p`.
pub open spec fn last_id_where(cs: Seq<ContentModel>, p: spec_fn(ContentModel) -> bool) -> Option<
    u32,
> {
    match find_last(cs, p) {
        Some(i) => Some(content_id(cs[i])),
        None => None,
    }
}

/// `Some(ids)` when there are ids, else `None`.
pub open spec fn nonempty(ids: Seq<u32>) -> Option<Seq<u32>> {
    if ids.len() == 0 {
        None
    } else {
        Some(ids)
    }
}

/// The contents of an element, an empty list when it has none.
pub open spec fn contents_or_empty(e: ElementModel) -> Seq<ContentModel> {
    match e.contents {
        Some(c) => c,
        None => Seq::empty(),
    }
}

/// The attributes of an element, an empty list when it has none.
pub open spec fn attrs_or_empty(e: ElementModel) -> Seq<AttributeModel> {
    match e.attributes {
        Some(a) => a,
        None => Seq::empty(),
    }
}

/// The concatenation of the direct text nodes.
pub open spec fn text_concat(cs: Seq<ContentModel>) -> Seq<char>
    decreases cs.len(),
{
    if cs.len() == 0 {
        Seq::empty()
    } else {
        text_concat(cs.drop_last()) + match cs.last() {
            ContentModel::Text(t) => t,
            _ => Seq::empty(),
        }
    }
}

/// The text of the first direct text node.
pub open spec fn first_text(cs: Seq<ContentModel>) -> Option<Seq<char>> {
    match find_first(cs, |c: ContentModel| c is Text) {
        Some(i) => Some(cs[i]->Text_0),
        None => None,
    }
}

// ---------------------------------------------------------------------
// Specifications of updates
// ---------------------------------------------------------------------

/// The element with contents `cs`.
pub open spec fn with_contents(e: ElementModel, cs: Seq<ContentModel>) -> ElementModel {
    ElementModel { contents: Some(cs), ..e }
}

/// The element with `c` appended to its contents.
pub open spec fn push_content(e: ElementModel, c: ContentModel) -> ElementModel {
    with_contents(e, contents_or_empty(e).push(c))
}

/// `c` inserted after the last item satisfying `p`, or appended when none does.
pub open spec fn insert_after(e: ElementModel, c: ContentModel, p: spec_fn(ContentModel) -> bool) -> ElementModel {
    let cs = contents_or_empty(e);
    match find_last(cs, p) {
        Some(i) => with_contents(e, cs.insert(i + 1, c)),
        None => with_contents(e, cs.push(c)),
    }
}

/// `c` inserted before the first item satisfying `p`, or at the front when none does.
pub open spec fn insert_before(e: ElementModel, c: ContentModel, p: spec_fn(ContentModel) -> bool) -> ElementModel {
    let cs = contents_or_empty(e);
    match find_first(cs, p) {
        Some(i) => with_contents(e, cs.insert(i, c)),
        None => with_contents(e, cs.insert(0, c)),
    }
}

/// The contents without their text nodes.
pub open spec fn without_texts(cs: Seq<ContentModel>) -> Seq<ContentModel> {
    cs.filter_map(|c: ContentModel| if c is Text { None } else { Some(c) })
}

/// The element owning a scope with `alias -> uri` bound: a shared scope is first copied
/// with no local declarations.
pub open spec fn ensure_scope(e: ElementModel, alias: Seq<char>, uri: Seq<char>) -> ElementModel {
    if e.ns_override {
        ElementModel { scope: scope_add(e.scope, alias, uri), ..e }
    } else {
        ElementModel { scope: scope_add(scope_clear_local(e.scope), alias, uri), ns_override: true, ..e }
    }
}

/// The element after resolving `d`, declaring the binding when it is missing.
pub open spec fn declare_resolved(e: ElementModel, d: NamespaceDeclaration) -> ElementModel {
    let (a, needs) = resolve_spec(d, e.scope);
    if needs {
        ensure_scope(e, a, d.uri@)
    } else {
        e
    }
}

/// The element after resolving each declaration of `ds` in turn.
pub open spec fn declare_all(e: ElementModel, ds: Seq<NamespaceDeclaration>) -> ElementModel
    decreases ds.len(),
{
    if ds.len() == 0 {
        e
    } else {
        declare_resolved(declare_all(e, ds.drop_last()), ds.last())
    }
}

/// Two attributes share their namespaced name.
pub open spec fn same_ns_name(a: AttributeModel, b: AttributeModel) -> bool {
    attribute_ns_name(a) == attribute_ns_name(b)
}

/// Adding a unique attribute: rejected, leaving the element as it was, when its alias is
/// undeclared or its namespaced name is taken.
pub open spec fn insert_attribute_spec(e: ElementModel, a: AttributeModel) -> (
    ElementModel,
    Result<(), XmlError>,
) {
    let attrs = attrs_or_empty(e);
    if !alias_in_scope(a, e.scope) {
        (e, Err(XmlError::UndeclaredAttributeAlias))
    } else if any_match(attrs, |x: AttributeModel| same_ns_name(x, a)) {
        (e, Err(XmlError::DuplicateAttribute))
    } else {
        (ElementModel { attributes: Some(attrs.push(a)), ..e }, Ok(()))
    }
}

/// Adding or replacing an attribute matched by namespaced name.
pub open spec fn replace_attribute_spec(e: ElementModel, a: AttributeModel) -> (
    ElementModel,
    Result<(), XmlError>,
) {
    let attrs = attrs_or_empty(e);
    if !alias_in_scope(a, e.scope) {
        (e, Err(XmlError::UndeclaredAttributeAlias))
    } else {
        match find_first(attrs, |x: AttributeModel| same_ns_name(x, a)) {
            Some(i) => (ElementModel { attributes: Some(attrs.update(i, a)), ..e }, Ok(())),
            None => (ElementModel { attributes: Some(attrs.push(a)), ..e }, Ok(())),
        }
    }
}

/// The attribute `local_name` in the namespace of `d`, as resolved in `e`'s scope.
pub open spec fn ns_attribute(
    e: ElementModel,
    local_name: Seq<char>,
    d: NamespaceDeclaration,
    value: Seq<char>,
) -> AttributeModel {
    attribute_from_raw(join_alias(resolve_spec(d, e.scope).0, local_name), value)
}

/// The namespaced name `alias:local_name` for `d` as resolved in `e`'s scope.
pub open spec fn scoped_name(e: ElementModel, local_name: Seq<char>, d: NamespaceDeclaration) -> Seq<char> {
    join_alias(resolve_spec(d, e.scope).0, local_name)
}

/// The attributes that do not match `q`, in order.
pub open spec fn kept_attrs(attrs: Seq<AttributeModel>, q: Seq<char>) -> Seq<AttributeModel> {
    attrs.filter_map(|x: AttributeModel| if attr_matches(x, q) { None } else { Some(x) })
}

/// The element without the attributes matching `q`.
pub open spec fn remove_attribute_spec(e: ElementModel, q: Seq<char>) -> ElementModel {
    match e.attributes {
        Some(attrs) => ElementModel { attributes: Some(kept_attrs(attrs, q)), ..e },
        None => e,
    }
}

/// An attribute whose namespaced name begins with `xmlns` declares a namespace.
pub open spec fn is_xmlns(a: AttributeModel) -> bool {
    let n = attribute_ns_name(a);
    n.len() >= 5 && n.take(5) == seq!['x', 'm', 'l', 'n', 's']
}

/// The scope after declaring each `xmlns` attribute of `ns` in turn.
pub open spec fn add_namespaces(s: ScopeModel, ns: Seq<AttributeModel>) -> ScopeModel
    decreases ns.len(),
{
    if ns.len() == 0 {
        s
    } else {
        scope_add(add_namespaces(s, ns.drop_last()), xmlns_alias(attribute_ns_name(ns.last())), ns.last().value)
    }
}

/// The `xmlns` attributes among `attrs`.
pub open spec fn xmlns_attrs(attrs: Seq<AttributeModel>) -> Seq<AttributeModel> {
    attrs.filter_map(|a: AttributeModel| if is_xmlns(a) { Some(a) } else { None })
}

/// The ordinary (non-`xmlns`) attributes among `attrs`.
pub open spec fn plain_attrs(attrs: Seq<AttributeModel>) -> Seq<AttributeModel> {
    attrs.filter_map(|a: AttributeModel| if is_xmlns(a) { None } else { Some(a) })
}

/// The scope, override flag and attribute list of a new element: `xmlns` attributes are
/// taken out and declared on a copy of the inherited scope with no local declarations.
pub open spec fn new_scope(attrs: Option<Seq<AttributeModel>>, ctx: ScopeModel) -> (
    Option<Seq<AttributeModel>>,
    bool,
    ScopeModel,
) {
    match attrs {
        Some(a) => {
            let nss = xmlns_attrs(a);
            let plain = plain_attrs(a);
            let filtered = if plain.len() == 0 {
                None
            } else {
                Some(plain)
            };
            if nss.len() > 0 {
                (filtered, true, add_namespaces(scope_clear_local(ctx), nss))
            } else {
                (filtered, false, ctx)
            }
        },
        None => (None, false, ctx),
    }
}

/// Creating an element from a raw tag, optional attributes and the inherited scope.
pub open spec fn new_element_spec(
    tag: Seq<char>,
    attrs: Option<Seq<AttributeModel>>,
    ctx: ScopeModel,
) -> Result<ElementModel, XmlError> {
    if !valid_xml_name(tag) {
        Err(XmlError::InvalidTagName)
    } else if attrs matches Some(a) && !(forall|i: int|
        0 <= i < a.len() ==> valid_xml_name(#[trigger] attribute_ns_name(a[i]))) {
        Err(XmlError::InvalidAttributeName)
    } else {
        let (filtered, ov, scope) = new_scope(attrs, ctx);
        if tag.contains(':') && scope_url(scope, prefix_of(tag).unwrap()) is None {
            Err(XmlError::UndeclaredTagAlias)
        } else if filtered matches Some(f) && !(forall|i: int|
            0 <= i < f.len() ==> alias_in_scope(#[trigger] f[i], scope)) {
            Err(XmlError::UndeclaredAttributeAlias)
        } else {
            Ok(
                ElementModel {
                    id: 0,
                    tag: local_of(tag),
                    contents: None,
                    parent_id: None,
                    ns_alias: prefix_of(tag),
                    attributes: filtered,
                    ns_override: ov,
                    scope: scope,
                },
            )
        }
    }
}

/// Represents an XML element node in the DOM tree.
#[derive(Debug)]
pub struct XmlElement {
    id: NodeId,
    tag: Tag,
    child_contents: Option<Vec<XmlElementContentType>>,
    parent_id: Option<NodeId>,
    ns_alias: Option<String>,
    attributes: Option<Vec<XmlAttribute>>,
    ns_context_override: bool,
    namespace_context: XmlNamespace,
}

impl View for XmlElement {
    type V = ElementModel;

    closed spec fn view(&self) -> ElementModel {
        ElementModel {
            id: self.id,
            tag: self.tag@,
            contents: opt_contents_view(self.child_contents),
            parent_id: self.parent_id,
            ns_alias: opt_string_view(self.ns_alias),
            attributes: opt_attrs_view(self.attributes),
            ns_override: self.ns_context_override,
            scope: self.namespace_context@,
        }
    }
}

/// All attribute names are valid XML names.
fn all_names_valid(v: &Vec<XmlAttribute>) -> (r: bool)
    ensures
        r == (forall|i: int|
            0 <= i < attrs_view(v@).len() ==> valid_xml_name(
                #[trigger] attribute_ns_name(attrs_view(v@)[i]),
            )),
{
    let ghost a = attrs_view(v@);
    let mut i: usize = 0;
    while i < v.len()
        invariant
            i <= v.len(),
            a == attrs_view(v@),
            forall|j: int| 0 <= j < i ==> valid_xml_name(#[trigger] attribute_ns_name(a[j])),
        decreases v.len() - i,
    {
        let n = v[i].get_ns_name();
        if !is_valid_xml_name(n.as_str()) {
            assert(!valid_xml_name(attribute_ns_name(a[i as int])));
            return false;
        }
        i = i + 1;
    }
    true
}

/// All attribute aliases are declared in `scope`.
fn all_aliases_valid(v: &Vec<XmlAttribute>, scope: &XmlNamespace) -> (r: bool)
    ensures
        r == (forall|i: int|
            0 <= i < attrs_view(v@).len() ==> alias_in_scope(#[trigger] attrs_view(v@)[i], scope@)),
{
    let ghost a = attrs_view(v@);
    let mut i: usize = 0;
    while i < v.len()
        invariant
            i <= v.len(),
            a == attrs_view(v@),
            forall|j: int| 0 <= j < i ==> alias_in_scope(#[trigger] a[j], scope@),
        decreases v.len() - i,
    {
        if !v[i].is_valid_ns_alias(scope) {
            assert(!alias_in_scope(a[i as int], scope@));
            return false;
        }
        i = i + 1;
    }
    true
}

fn is_xmlns_attribute(a: &XmlAttribute) -> (r: bool)
    ensures
        r == is_xmlns(a@),
{
    let n = a.get_ns_name();
    let r = starts_with(n.as_str(), "xmlns");
    proof {
        reveal_strlit("xmlns");
        assert("xmlns"@ =~= seq!['x', 'm', 'l', 'n', 's']);
    }
    r
}

/// Splits attributes into `xmlns` declarations and ordinary attributes.
fn split_xmlns(v: Vec<XmlAttribute>) -> (r: (Vec<XmlAttribute>, Vec<XmlAttribute>))
    ensures
        attrs_view(r.0@) == xmlns_attrs(attrs_view(v@)),
        attrs_view(r.1@) == plain_attrs(attrs_view(v@)),
{
    let ghost a = attrs_view(v@);
    let mut nss: Vec<XmlAttribute> = Vec::new();
    let mut plain: Vec<XmlAttribute> = Vec::new();
    let mut i: usize = 0;
    while i < v.len()
        invariant
            i <= v.len(),
            a == attrs_view(v@),
            attrs_view(nss@) == xmlns_attrs(a.take(i as int)),
            attrs_view(plain@) == plain_attrs(a.take(i as int)),
        decreases v.len() - i,
    {
        let x = v[i].duplicate();
        assert(a.take(i + 1).drop_last() =~= a.take(i as int));
        let ghost n0 = nss@;
        let ghost p0 = plain@;
        if is_xmlns_attribute(&x) {
            nss.push(x);
            assert(attrs_view(nss@) =~= attrs_view(n0).push(a[i as int]));
            assert(attrs_view(plain@) =~= attrs_view(p0));
        } else {
            plain.push(x);
            assert(attrs_view(plain@) =~= attrs_view(p0).push(a[i as int]));
            assert(attrs_view(nss@) =~= attrs_view(n0));
        }
        i = i + 1;
    }
    assert(a.take(v.len() as int) =~= a);
    (nss, plain)
}

impl XmlElement {
    /// Creates a new XML element from a raw tag (possibly prefixed), optional attributes
    /// and the inherited namespace scope; `xmlns` attributes become namespace
    /// declarations of a scope owned by the element.
    pub(crate) fn new(
        new_tag: &str,
        attributes: Option<Vec<XmlAttribute>>,
        namespace_context: XmlNamespace,
    ) -> (r: Result<XmlElement, XmlError>)
        ensures
            match r {
                Ok(e) => new_element_spec(new_tag@, opt_attrs_view(attributes), namespace_context@)
                    == Ok::<ElementModel, XmlError>(e@),
                Err(err) => new_element_spec(new_tag@, opt_attrs_view(attributes), namespace_context@)
                    == Err::<ElementModel, XmlError>(err),
            },
    {
        let ghost ctx0 = namespace_context@;
        let ghost attrs0 = opt_attrs_view(attributes);
        let mut namespace_context = namespace_context;
        let mut ns_context_override = false;
        if !is_valid_xml_name(new_tag) {
            return Err(XmlError::InvalidTagName);
        }
        let filtered: Option<Vec<XmlAttribute>> = match attributes {
            Some(v) => {
                if !all_names_valid(&v) {
                    return Err(XmlError::InvalidAttributeName);
                }
                let (nss, plain) = split_xmlns(v);
                if nss.len() > 0 {
                    ns_context_override = true;
                    namespace_context.clear_local_declarations_mut();
                    let mut i: usize = 0;
                    while i < nss.len()
                        invariant
                            i <= nss.len(),
                            namespace_context@ == add_namespaces(
                                scope_clear_local(ctx0),
                                attrs_view(nss@).take(i as int),
                            ),
                        decreases nss.len() - i,
                    {
                        namespace_context.add_namespace_mut(&nss[i]);
                        assert(attrs_view(nss@).take(i + 1).drop_last() =~= attrs_view(nss@).take(
                            i as int,
                        ));
                        i = i + 1;
                    }
                    assert(attrs_view(nss@).take(nss.len() as int) =~= attrs_view(nss@));
                }
                if plain.len() == 0 {
                    None
                } else {
                    Some(plain)
                }
            },
            None => None,
        };
        assert((opt_attrs_view(filtered), ns_context_override, namespace_context@) == new_scope(
            attrs0,
            ctx0,
        ));
        let (ns_alias, tag) = match find_colon(new_tag) {
            Some(pos) => {
                let len = new_tag.unicode_len();
                let ns = new_tag.substring_char(0, pos);
                let local = new_tag.substring_char(pos + 1, len);
                assert(ns@ =~= new_tag@.take(pos as int));
                assert(local@ =~= new_tag@.skip(pos + 1));
                if !namespace_context.is_valid_ns_alias(ns) {
                    return Err(XmlError::UndeclaredTagAlias);
                }
                (Some(to_string(ns)), to_string(local))
            },
            None => (None, to_string(new_tag)),
        };
        assert(!(new_tag@.contains(':') && scope_url(namespace_context@, prefix_of(new_tag@).unwrap())
            is None));
        let attributes_valid = match &filtered {
            Some(v) => all_aliases_valid(v, &namespace_context),
            None => true,
        };
        if !attributes_valid {
            proof {
                let f = opt_attrs_view(filtered).unwrap();
                let k = choose|k: int| 0 <= k < f.len() && !alias_in_scope(f[k], namespace_context@);
                assert(!alias_in_scope(f[k], namespace_context@));
            }
            return Err(XmlError::UndeclaredAttributeAlias);
        }
        Ok(
            XmlElement {
                id: 0,
                tag,
                attributes: filtered,
                parent_id: None,
                child_contents: None,
                ns_alias,
                ns_context_override,
                namespace_context,
            },
        )
    }

    /// Gets the unique node ID of this element.
    pub fn get_id(&self) -> (r: NodeId)
        ensures
            r == self@.id,
    {
        self.id
    }

    /// Gets the parent node ID, if any.
    pub fn get_parent_id(&self) -> (r: Option<NodeId>)
        ensures
            r == self@.parent_id,
    {
        self.parent_id
    }

    /// Gets the tag name of this element without its namespace prefix.
    pub fn get_tag(&self) -> (r: String)
        ensures
            r@ == self@.tag,
    {
        copy_string(&self.tag)
    }

    /// Gets the tag name with its namespace alias when present and non-empty.
    pub fn get_tag_ns(&self) -> (r: String)
        ensures
            r@ == tag_ns(self@),
    {
        match &self.ns_alias {
            Some(a) => join_qualified(a.as_str(), self.tag.as_str()),
            None => copy_string(&self.tag),
        }
    }

    /// Gets the namespace prefix applied to this element's tag, if any and non-empty.
    pub fn get_prefix(&self) -> (r: Option<String>)
        ensures
            opt_string_view(r) == match self@.ns_alias {
                Some(a) => if a.len() > 0 {
                    Some(a)
                } else {
                    None
                },
                None => None,
            },
    {
        match &self.ns_alias {
            Some(a) => if a.as_str().unicode_len() > 0 {
                Some(copy_string(a))
            } else {
                None
            },
            None => None,
        }
    }

    /// Returns the namespace alias applied to this element's tag, if any.
    pub(crate) fn get_tag_alias(&self) -> (r: Option<&str>)
        ensures
            match r {
                Some(a) => self@.ns_alias == Some(a@),
                None => self@.ns_alias is None,
            },
    {
        match &self.ns_alias {
            Some(a) => Some(a.as_str()),
            None => None,
        }
    }

    /// Gets a reference to the element's contents (children, text, comments).
    pub fn get_child_contents(&self) -> (r: &Option<Vec<XmlElementContentType>>)
        ensures
            opt_contents_view(*r) == self@.contents,
    {
        &self.child_contents
    }

    /// Gets a mutable reference to the contents collection.
    pub fn get_child_contents_mut(&mut self) -> (r: &mut Option<Vec<XmlElementContentType>>)
        ensures
            opt_contents_view(*r) == old(self)@.contents,
            final(self)@ == (ElementModel { contents: opt_contents_view(*final(r)), ..old(self)@ }),
    {
        &mut self.child_contents
    }

    /// Gets a reference to the element's attributes.
    pub(crate) fn get_attributes(&self) -> (r: &Option<Vec<XmlAttribute>>)
        ensures
            opt_attrs_view(*r) == self@.attributes,
    {
        &self.attributes
    }

    /// The namespace scope of an element is always well formed: no alias or URI bound twice,
    /// each URI's alias bound back to it. Calling this gives callers that fact, which the
    /// laws on resolving aliases ask for; it does nothing at run time.
    pub fn scope_well_formed(&self)
        ensures
            scope_wf(self@.scope),
    {
        self.namespace_context.well_formed_scope();
    }

    /// Gets the namespace scope of this element.
    pub(crate) fn get_ns_context(&self) -> (r: &XmlNamespace)
        ensures
            r@ == self@.scope,
    {
        &self.namespace_context
    }

    /// Whether this element owns a namespace scope of its own.
    pub(crate) fn has_namespace(&self) -> (r: bool)
        ensures
            r == self@.ns_override,
    {
        self.ns_context_override
    }

    /// The aliases declared directly on this element with their URIs, in declaration order.
    pub(crate) fn get_local_namespace_declarations(&self) -> (r: Vec<(String, String)>)
        ensures
            pairs_view(r@) == scope_local_declarations(self@.scope),
    {
        self.namespace_context.get_local_declarations()
    }

    /// Resolves an alias to its URI in this element's scope.
    pub(crate) fn resolve_alias_to_uri(&self, alias: &str) -> (r: Option<String>)
        ensures
            opt_string_view(r) == scope_url(self@.scope, alias@),
    {
        self.namespace_context.get_url(alias)
    }

    /// Resolves the namespace URI bound to this element's tag alias (the empty alias for an
    /// unprefixed tag).
    pub fn get_namespace_uri(&self) -> (r: Option<String>)
        ensures
            opt_string_view(r) == scope_url(
                self@.scope,
                match self@.ns_alias {
                    Some(a) => a,
                    None => Seq::empty(),
                },
            ),
    {
        match &self.ns_alias {
            Some(a) => self.resolve_alias_to_uri(a.as_str()),
            None => {
                let e = String::new();
                assert(e@ =~= Seq::<char>::empty());
                self.resolve_alias_to_uri(e.as_str())
            },
        }
    }

    /// Returns the namespace alias currently in scope for the given URI, if any.
    pub fn get_alias_for_uri(&self, uri: &str) -> (r: Option<String>)
        ensures
            opt_string_view(r) == scope_alias(self@.scope, uri@),
    {
        self.namespace_context.get_alias(uri)
    }

    /// Read-only resolution of a namespace declaration; never declares a missing binding.
    pub fn resolve_alias(&self, ns_declaration: &NamespaceDeclaration) -> (r: String)
        ensures
            r@ == resolve_spec(*ns_declaration, self@.scope).0,
    {
        let (alias, _) = ns_declaration.resolve_in(&self.namespace_context);
        alias
    }

    /// Sets the node ID of this element.
    pub(crate) fn set_id_mut(&mut self, id: NodeId)
        ensures
            final(self)@ == (ElementModel { id: id, ..old(self)@ }),
    {
        self.id = id;
    }

    /// Sets the parent ID of this element.
    pub(crate) fn set_parent_id_mut(&mut self, parent_id: NodeId)
        ensures
            final(self)@ == (ElementModel { parent_id: Some(parent_id), ..old(self)@ }),
    {
        self.parent_id = Some(parent_id);
    }

    /// Clears all content (children, text, comments) from this element.
    pub(crate) fn clear_content_mut(&mut self)
        ensures
            final(self)@ == (ElementModel { contents: None, ..old(self)@ }),
    {
        self.child_contents = None;
    }
}

/// Copies the attributes.
fn copy_attributes(v: &Vec<XmlAttribute>) -> (r: Vec<XmlAttribute>)
    ensures
        attrs_view(r@) == attrs_view(v@),
{
    let mut r: Vec<XmlAttribute> = Vec::new();
    let mut i: usize = 0;
    while i < v.len()
        invariant
            i <= v.len(),
            attrs_view(r@) == attrs_view(v@).take(i as int),
        decreases v.len() - i,
    {
        let ghost r0 = r@;
        r.push(v[i].duplicate());
        assert(attrs_view(r@) =~= attrs_view(r0).push(v@[i as int]@));
        assert(attrs_view(v@).take(i + 1) =~= attrs_view(v@).take(i as int).push(v@[i as int]@));
        i = i + 1;
    }
    assert(attrs_view(v@).take(v.len() as int) =~= attrs_view(v@));
    r
}

/// Copies the contents.
fn copy_contents(v: &Vec<XmlElementContentType>) -> (r: Vec<XmlElementContentType>)
    ensures
        contents_view(r@) == contents_view(v@),
{
    let mut r: Vec<XmlElementContentType> = Vec::new();
    let mut i: usize = 0;
    while i < v.len()
        invariant
            i <= v.len(),
            contents_view(r@) == contents_view(v@).take(i as int),
        decreases v.len() - i,
    {
        let ghost r0 = r@;
        r.push(v[i].duplicate());
        assert(contents_view(r@) =~= contents_view(r0).push(v@[i as int]@));
        assert(contents_view(v@).take(i + 1) =~= contents_view(v@).take(i as int).push(
            v@[i as int]@,
        ));
        i = i + 1;
    }
    assert(contents_view(v@).take(v.len() as int) =~= contents_view(v@));
    r
}

/// Whether an attribute matches a query name (namespaced when the query holds `:`).
fn attribute_name_matches(attribute: &XmlAttribute, name: &str, match_by_ns: bool) -> (r: bool)
    requires
        match_by_ns == name@.contains(':'),
    ensures
        r == attr_matches(attribute@, name@),
{
    if match_by_ns {
        let n = attribute.get_ns_name();
        str_eq(n.as_str(), name)
    } else {
        str_eq(attribute.get_name(), name)
    }
}

/// Whether a child tag matches a query (namespaced when the query holds `:`).
fn child_tag_matches(child_tag: &str, child_tag_ns: &str, tag: &str, match_by_ns: bool) -> (r:
    bool)
    requires
        match_by_ns == tag@.contains(':'),
    ensures
        r == name_matches(child_tag@, child_tag_ns@, tag@),
{
    if match_by_ns {
        str_eq(child_tag_ns, tag)
    } else {
        str_eq(child_tag, tag)
    }
}

/// The index of the first attribute with the given namespaced name.
fn position_of_ns_name(v: &Vec<XmlAttribute>, a: &XmlAttribute) -> (r: Option<usize>)
    ensures
        match r {
            Some(i) => find_first(attrs_view(v@), |x: AttributeModel| same_ns_name(x, a@)) == Some(
                i as int,
            ),
            None => find_first(attrs_view(v@), |x: AttributeModel| same_ns_name(x, a@)) is None,
        },
{
    let ghost p = |x: AttributeModel| same_ns_name(x, a@);
    let ghost av = attrs_view(v@);
    let target = a.get_ns_name();
    let mut i: usize = 0;
    while i < v.len()
        invariant
            i <= v.len(),
            av == attrs_view(v@),
            p == (|x: AttributeModel| same_ns_name(x, a@)),
            target@ == attribute_ns_name(a@),
            forall|j: int| 0 <= j < i ==> !p(av[j]),
        decreases v.len() - i,
    {
        let n = v[i].get_ns_name();
        if str_eq(n.as_str(), target.as_str()) {
            proof {
                assert(first_match(av, p, i as int));
                lemma_first_match(av, p, i as int);
            }
            return Some(i);
        }
        i = i + 1;
    }
    proof {
        lemma_find_first(av, p);
    }
    None
}

impl XmlElement {
    /// Ensures this element owns a namespace scope binding `alias -> uri`; a shared scope
    /// is first copied with no local declarations, so the binding never reaches siblings.
    pub(crate) fn ensure_namespace_scope_mut(&mut self, alias: &str, uri: &str)
        ensures
            final(self)@ == ensure_scope(old(self)@, alias@, uri@),
    {
        if !self.ns_context_override {
            self.ns_context_override = true;
            self.namespace_context.clear_local_declarations_mut();
        }
        self.namespace_context.add_url_alias_mut(alias, uri);
    }

    /// Declares namespaces on this element's scope for later manual use; only bindings
    /// not already in scope are added.
    pub fn add_namespaces_mut(&mut self, ns_declarations: &[NamespaceDeclaration])
        ensures
            final(self)@ == declare_all(old(self)@, ns_declarations@),
    {
        let ghost e0 = self@;
        let mut i: usize = 0;
        while i < ns_declarations.len()
            invariant
                i <= ns_declarations.len(),
                self@ == declare_all(e0, ns_declarations@.take(i as int)),
            decreases ns_declarations.len() - i,
        {
            let d = ns_declarations[i];
            let (alias, needs_declaration) = d.resolve_in(&self.namespace_context);
            if needs_declaration {
                self.ensure_namespace_scope_mut(alias.as_str(), d.uri);
            }
            assert(ns_declarations@.take(i + 1).drop_last() =~= ns_declarations@.take(i as int));
            i = i + 1;
        }
        assert(ns_declarations@.take(ns_declarations.len() as int) =~= ns_declarations@);
    }

    /// Resolves the alias for `ns_declaration` in this element's scope, declaring it if
    /// missing.
    pub fn resolve_alias_mut(&mut self, ns_declaration: &NamespaceDeclaration) -> (r: String)
        ensures
            r@ == resolve_spec(*ns_declaration, old(self)@.scope).0,
            final(self)@ == declare_resolved(old(self)@, *ns_declaration),
    {
        let (alias, needs_declaration) = ns_declaration.resolve_in(&self.namespace_context);
        if needs_declaration {
            self.ensure_namespace_scope_mut(alias.as_str(), ns_declaration.uri);
        }
        alias
    }

    /// Builds the attribute `local_name` in the namespace of `ns_declaration`, declaring
    /// the namespace on this element when it is not yet in scope.
    fn build_ns_attribute(
        &mut self,
        local_name: &str,
        ns_declaration: &NamespaceDeclaration,
        value: &str,
    ) -> (r: XmlAttribute)
        ensures
            final(self)@ == declare_resolved(old(self)@, *ns_declaration),
            r@ == ns_attribute(old(self)@, local_name@, *ns_declaration, value@),
    {
        let alias = self.resolve_alias_mut(ns_declaration);
        let attribute_name = join_qualified(alias.as_str(), local_name);
        XmlAttribute::new(attribute_name, to_string(value))
    }

    /// The namespaced name for `local_name` in the namespace of `ns_declaration`.
    fn build_scoped_ns_name(&self, local_name: &str, ns_declaration: &NamespaceDeclaration) -> (r:
        String)
        ensures
            r@ == scoped_name(self@, local_name@, *ns_declaration),
    {
        ns_declaration.scoped_name(&self.namespace_context, local_name)
    }

    /// Inserts a unique attribute, rejecting duplicates and undeclared aliases.
    fn insert_attribute_mut(&mut self, attribute: XmlAttribute) -> (r: Result<(), XmlError>)
        ensures
            (final(self)@, r) == insert_attribute_spec(old(self)@, attribute@),
    {
        let ghost e0 = self@;
        let had_list = self.attributes.is_some();
        let mut attributes = match self.attributes.take() {
            Some(v) => v,
            None => Vec::new(),
        };
        assert(attrs_view(attributes@) =~= attrs_or_empty(e0));
        if !attribute.is_valid_ns_alias(&self.namespace_context) {
            if had_list {
                self.attributes = Some(attributes);
            }
            return Err(XmlError::UndeclaredAttributeAlias);
        }
        match position_of_ns_name(&attributes, &attribute) {
            Some(_) => {
                if had_list {
                    self.attributes = Some(attributes);
                }
                return Err(XmlError::DuplicateAttribute);
            },
            None => {
                proof {
                    lemma_find_first(attrs_view(attributes@), |x: AttributeModel| same_ns_name(x, attribute@));
                }
            },
        }
        let ghost a0 = attributes@;
        attributes.push(attribute);
        assert(attrs_view(attributes@) =~= attrs_view(a0).push(attribute@));
        self.attributes = Some(attributes);
        Ok(())
    }

    /// Adds or replaces an attribute matched by its namespaced name.
    fn replace_attribute_mut(&mut self, attribute: XmlAttribute) -> (r: Result<(), XmlError>)
        ensures
            (final(self)@, r) == replace_attribute_spec(old(self)@, attribute@),
    {
        let ghost e0 = self@;
        let had_list = self.attributes.is_some();
        let mut attributes = match self.attributes.take() {
            Some(v) => v,
            None => Vec::new(),
        };
        assert(attrs_view(attributes@) =~= attrs_or_empty(e0));
        if !attribute.is_valid_ns_alias(&self.namespace_context) {
            if had_list {
                self.attributes = Some(attributes);
            }
            return Err(XmlError::UndeclaredAttributeAlias);
        }
        let ghost a0 = attributes@;
        let ghost av = attribute@;
        match position_of_ns_name(&attributes, &attribute) {
            Some(index) => {
                proof {
                    lemma_find_first(attrs_view(a0), |x: AttributeModel| same_ns_name(x, av));
                }
                attributes.set(index, attribute);
                assert(attrs_view(attributes@) =~= attrs_view(a0).update(index as int, av));
            },
            None => {
                attributes.push(attribute);
                assert(attrs_view(attributes@) =~= attrs_view(a0).push(av));
            },
        }
        self.attributes = Some(attributes);
        Ok(())
    }

    /// Adds an attribute from a raw `name` and `value`; any prefix in `name` must already be
    /// declared in scope, and the namespaced name must be unique on this element.
    pub fn add_attribute_mut(&mut self, name: &str, value: &str) -> (r: Result<(), XmlError>)
        ensures
            (final(self)@, r) == insert_attribute_spec(
                old(self)@,
                attribute_from_raw(name@, value@),
            ),
    {
        self.insert_attribute_mut(XmlAttribute::new(to_string(name), to_string(value)))
    }

    /// Adds a namespaced attribute whose alias is resolved from `ns_declaration`, declaring
    /// it in scope if missing.
    pub fn add_attribute_ns_mut(
        &mut self,
        local_name: &str,
        ns_declaration: &NamespaceDeclaration,
        value: &str,
    ) -> (r: Result<(), XmlError>)
        ensures
            (final(self)@, r) == insert_attribute_spec(
                declare_resolved(old(self)@, *ns_declaration),
                ns_attribute(old(self)@, local_name@, *ns_declaration, value@),
            ),
    {
        let attribute = self.build_ns_attribute(local_name, ns_declaration, value);
        self.insert_attribute_mut(attribute)
    }

    /// Adds or replaces an attribute from a raw `name` and `value`, matched by namespaced
    /// name; any prefix in `name` must already be declared in scope.
    pub fn add_replace_attribute_mut(&mut self, name: &str, value: &str) -> (r: Result<
        (),
        XmlError,
    >)
        ensures
            (final(self)@, r) == replace_attribute_spec(
                old(self)@,
                attribute_from_raw(name@, value@),
            ),
    {
        self.replace_attribute_mut(XmlAttribute::new(to_string(name), to_string(value)))
    }

    /// Adds or replaces a namespaced attribute whose alias is resolved from
    /// `ns_declaration`, declaring it in scope if missing.
    pub fn add_replace_attribute_ns_mut(
        &mut self,
        local_name: &str,
        ns_declaration: &NamespaceDeclaration,
        value: &str,
    ) -> (r: Result<(), XmlError>)
        ensures
            (final(self)@, r) == replace_attribute_spec(
                declare_resolved(old(self)@, *ns_declaration),
                ns_attribute(old(self)@, local_name@, *ns_declaration, value@),
            ),
    {
        let attribute = self.build_ns_attribute(local_name, ns_declaration, value);
        self.replace_attribute_mut(attribute)
    }

    /// Sets the initial attributes of this element; fails when the element already has
    /// attributes or an alias is not declared in scope.
    pub fn set_attribute_mut(&mut self, attributes: Vec<XmlAttribute>) -> (r: Result<(), XmlError>)
        ensures
            match r {
                Ok(()) => {
                    &&& old(self)@.attributes is None
                    &&& forall|i: int|
                        0 <= i < attrs_view(attributes@).len() ==> alias_in_scope(
                            #[trigger] attrs_view(attributes@)[i],
                            old(self)@.scope,
                        )
                    &&& final(self)@ == (ElementModel {
                        attributes: Some(attrs_view(attributes@)),
                        ..old(self)@
                    })
                },
                Err(e) => {
                    &&& final(self)@ == old(self)@
                    &&& if old(self)@.attributes is Some {
                        e == XmlError::AttributesAlreadySet
                    } else {
                        e == XmlError::UndeclaredAttributeAlias && !(forall|i: int|
                            0 <= i < attrs_view(attributes@).len() ==> alias_in_scope(
                                #[trigger] attrs_view(attributes@)[i],
                                old(self)@.scope,
                            ))
                    }
                },
            },
    {
        if self.attributes.is_some() {
            return Err(XmlError::AttributesAlreadySet);
        }
        if !all_aliases_valid(&attributes, &self.namespace_context) {
            return Err(XmlError::UndeclaredAttributeAlias);
        }
        self.attributes = Some(attributes);
        Ok(())
    }

    /// Removes the attributes matching `name`: a prefixed `name` matches namespaced names,
    /// otherwise every attribute with that local name is removed whatever its prefix.
    pub fn remove_attribute_mut(&mut self, name: &str)
        ensures
            final(self)@ == remove_attribute_spec(old(self)@, name@),
    {
        let match_by_ns = contains_colon(name);
        let ghost q = name@;
        let ghost f = |x: AttributeModel| if attr_matches(x, q) { None } else { Some(x) };
        match self.attributes.take() {
            Some(attributes) => {
                let ghost av = attrs_view(attributes@);
                let mut kept: Vec<XmlAttribute> = Vec::new();
                let mut i: usize = 0;
                while i < attributes.len()
                    invariant
                        i <= attributes.len(),
                        match_by_ns == q.contains(':'),
                        q == name@,
                        av == attrs_view(attributes@),
                        f == (|x: AttributeModel| if attr_matches(x, q) { None } else { Some(x) }),
                        attrs_view(kept@) == av.take(i as int).filter_map(f),
                    decreases attributes.len() - i,
                {
                    assert(av.take(i + 1).drop_last() =~= av.take(i as int));
                    if !attribute_name_matches(&attributes[i], name, match_by_ns) {
                        let ghost k0 = kept@;
                        kept.push(attributes[i].duplicate());
                        assert(attrs_view(kept@) =~= attrs_view(k0).push(av[i as int]));
                    }
                    i = i + 1;
                }
                assert(av.take(attributes.len() as int) =~= av);
                self.attributes = Some(kept);
            },
            None => {},
        }
    }

    /// Removes the attribute `local_name` in the namespace of `ns_declaration`, as resolved
    /// in this element's scope.
    pub fn remove_attribute_ns_mut(&mut self, local_name: &str, ns_declaration: &NamespaceDeclaration)
        ensures
            final(self)@ == remove_attribute_spec(
                old(self)@,
                scoped_name(old(self)@, local_name@, *ns_declaration),
            ),
    {
        let ns_name = self.build_scoped_ns_name(local_name, ns_declaration);
        self.remove_attribute_mut(ns_name.as_str());
    }

    /// Clears all attributes of this element and returns how many there were (as `u32`).
    pub fn clear_attribute_mut(&mut self) -> (r: Result<u32, XmlError>)
        ensures
            r == Ok::<u32, XmlError>(attrs_or_empty(old(self)@).len() as u32),
            final(self)@ == (ElementModel { attributes: None, ..old(self)@ }),
    {
        let removed_count: u32 = match &self.attributes {
            Some(v) => {
                #[verifier::truncate]
                (v.len() as u32)
            },
            None => 0,
        };
        self.attributes = None;
        Ok(removed_count)
    }

    /// Adds content (child, text, or comment) to this element.
    pub(crate) fn add_child_content_mut(&mut self, content_type: XmlElementContentType) -> (r:
        Result<(), XmlError>)
        ensures
            r is Ok,
            final(self)@ == push_content(old(self)@, content_type@),
    {
        let ghost e0 = self@;
        let mut contents = match self.child_contents.take() {
            Some(v) => v,
            None => Vec::new(),
        };
        assert(contents_view(contents@) =~= contents_or_empty(e0));
        let ghost c0 = contents@;
        let ghost cv = content_type@;
        contents.push(content_type);
        assert(contents_view(contents@) =~= contents_view(c0).push(cv));
        self.child_contents = Some(contents);
        Ok(())
    }

    /// Adds a text node to this element's contents.
    pub fn add_text_mut(&mut self, text: &str) -> (r: Result<(), XmlError>)
        ensures
            r is Ok,
            final(self)@ == push_content(old(self)@, ContentModel::Text(text@)),
    {
        self.add_child_content_mut(XmlElementContentType::Text(to_string(text)))
    }

    /// Adds a comment node to this element's contents.
    pub fn add_comments_mut(&mut self, comment: &str) -> (r: Result<(), XmlError>)
        ensures
            r is Ok,
            final(self)@ == push_content(old(self)@, ContentModel::Comment(comment@)),
    {
        self.add_child_content_mut(XmlElementContentType::Comment(to_string(comment)))
    }

    /// Replaces every direct text node of this element with a single text node appended
    /// after the remaining contents.
    pub fn set_text_mut(&mut self, text: &str) -> (r: Result<(), XmlError>)
        ensures
            r is Ok,
            final(self)@ == with_contents(
                old(self)@,
                without_texts(contents_or_empty(old(self)@)).push(ContentModel::Text(text@)),
            ),
    {
        let ghost e0 = self@;
        let ghost f = |c: ContentModel| if c is Text { None } else { Some(c) };
        match self.child_contents.take() {
            Some(contents) => {
                let ghost cv = contents_view(contents@);
                let mut kept: Vec<XmlElementContentType> = Vec::new();
                let mut i: usize = 0;
                while i < contents.len()
                    invariant
                        i <= contents.len(),
                        cv == contents_view(contents@),
                        f == (|c: ContentModel| if c is Text { None } else { Some(c) }),
                        contents_view(kept@) == cv.take(i as int).filter_map(f),
                    decreases contents.len() - i,
                {
                    assert(cv.take(i + 1).drop_last() =~= cv.take(i as int));
                    let is_text = match &contents[i] {
                        XmlElementContentType::Text(_) => true,
                        _ => false,
                    };
                    if !is_text {
                        let ghost k0 = kept@;
                        kept.push(contents[i].duplicate());
                        assert(contents_view(kept@) =~= contents_view(k0).push(cv[i as int]));
                    }
                    i = i + 1;
                }
                assert(cv.take(contents.len() as int) =~= cv);
                self.child_contents = Some(kept);
            },
            None => {
                assert(without_texts(Seq::<ContentModel>::empty()) =~= Seq::<ContentModel>::empty());
            },
        }
        assert(contents_or_empty(self@) == without_texts(contents_or_empty(e0)));
        self.add_child_content_mut(XmlElementContentType::Text(to_string(text)))
    }

    /// A copy of this element.
    pub(crate) fn clone_limited(&self) -> (r: XmlElement)
        ensures
            r@ == self@,
    {
        let child_contents = match &self.child_contents {
            Some(v) => Some(copy_contents(v)),
            None => None,
        };
        let attributes = match &self.attributes {
            Some(v) => Some(copy_attributes(v)),
            None => None,
        };
        let ns_alias = match &self.ns_alias {
            Some(a) => Some(copy_string(a)),
            None => None,
        };
        XmlElement {
            id: self.id,
            tag: copy_string(&self.tag),
            child_contents,
            parent_id: self.parent_id,
            ns_alias,
            attributes,
            ns_context_override: self.ns_context_override,
            namespace_context: self.namespace_context.duplicate(),
        }
    }
}

/// Which child elements a search keeps.
enum ChildQuery<'a> {
    /// Every child element.
    AnyChild,
    /// Matched by namespaced tag when the query holds `:`, else by local tag.
    Query(&'a str),
    /// Matched by local tag.
    LocalTag(&'a str),
    /// Matched by namespaced tag.
    NsTag(&'a str),
}

spec fn query_holds(q: ChildQuery, c: ContentModel) -> bool {
    match q {
        ChildQuery::AnyChild => is_child(c),
        ChildQuery::Query(s) => child_matches(c, s@),
        ChildQuery::LocalTag(s) => child_tag_is(c, s@),
        ChildQuery::NsTag(s) => child_tag_ns_is(c, s@),
    }
}

fn query_matches(q: &ChildQuery, c: &XmlElementContentType) -> (r: bool)
    ensures
        r == query_holds(*q, c@),
{
    match c {
        XmlElementContentType::Element(t) => match q {
            ChildQuery::AnyChild => true,
            ChildQuery::Query(s) => child_tag_matches(t.1.as_str(), t.2.as_str(), s, contains_colon(s)),
            ChildQuery::LocalTag(s) => str_eq(t.1.as_str(), s),
            ChildQuery::NsTag(s) => str_eq(t.2.as_str(), s),
        },
        _ => false,
    }
}

fn element_id_of(c: &XmlElementContentType) -> (r: NodeId)
    ensures
        r == content_id(c@),
{
    match c {
        XmlElementContentType::Element(t) => t.0,
        _ => 0,
    }
}

/// The ids of the children kept by `q`, in order.
fn ids_matching(v: &Vec<XmlElementContentType>, q: &ChildQuery) -> (r: Vec<NodeId>)
    ensures
        r@ == ids_where(contents_view(v@), |c: ContentModel| query_holds(*q, c)),
{
    let ghost cv = contents_view(v@);
    let ghost p = |c: ContentModel| query_holds(*q, c);
    let ghost f = |c: ContentModel| if p(c) { Some(content_id(c)) } else { None };
    let mut r: Vec<NodeId> = Vec::new();
    let mut i: usize = 0;
    while i < v.len()
        invariant
            i <= v.len(),
            cv == contents_view(v@),
            p == (|c: ContentModel| query_holds(*q, c)),
            f == (|c: ContentModel| if p(c) { Some(content_id(c)) } else { None }),
            r@ == cv.take(i as int).filter_map(f),
        decreases v.len() - i,
    {
        assert(cv.take(i + 1).drop_last() =~= cv.take(i as int));
        if query_matches(q, &v[i]) {
            r.push(element_id_of(&v[i]));
        }
        i = i + 1;
    }
    assert(cv.take(v.len() as int) =~= cv);
    r
}

/// The index of the first item kept by `q`.
fn first_matching(v: &Vec<XmlElementContentType>, q: &ChildQuery) -> (r: Option<usize>)
    ensures
        match r {
            Some(i) => find_first(contents_view(v@), |c: ContentModel| query_holds(*q, c)) == Some(i as int),
            None => find_first(contents_view(v@), |c: ContentModel| query_holds(*q, c)) is None,
        },
{
    let ghost cv = contents_view(v@);
    let ghost p = |c: ContentModel| query_holds(*q, c);
    let mut i: usize = 0;
    while i < v.len()
        invariant
            i <= v.len(),
            cv == contents_view(v@),
            p == (|c: ContentModel| query_holds(*q, c)),
            forall|j: int| 0 <= j < i ==> !p(cv[j]),
        decreases v.len() - i,
    {
        if query_matches(q, &v[i]) {
            proof {
                assert(first_match(cv, p, i as int));
                lemma_first_match(cv, p, i as int);
            }
            return Some(i);
        }
        i = i + 1;
    }
    proof {
        lemma_find_first(cv, p);
    }
    None
}

/// The index of the last item kept by `q`.
fn last_matching(v: &Vec<XmlElementContentType>, q: &ChildQuery) -> (r: Option<usize>)
    ensures
        match r {
            Some(i) => find_last(contents_view(v@), |c: ContentModel| query_holds(*q, c)) == Some(i as int),
            None => find_last(contents_view(v@), |c: ContentModel| query_holds(*q, c)) is None,
        },
{
    let ghost cv = contents_view(v@);
    let ghost p = |c: ContentModel| query_holds(*q, c);
    let mut i: usize = v.len();
    while i > 0
        invariant
            i <= v.len(),
            cv == contents_view(v@),
            p == (|c: ContentModel| query_holds(*q, c)),
            forall|j: int| i <= j < cv.len() ==> !p(cv[j]),
        decreases i,
    {
        if query_matches(q, &v[i - 1]) {
            proof {
                assert(last_match(cv, p, i - 1));
                lemma_last_match(cv, p, i - 1);
            }
            return Some(i - 1);
        }
        i = i - 1;
    }
    proof {
        lemma_find_last(cv, p);
    }
    None
}

/// The id of the first child kept by `q`.
fn first_id(v: &Vec<XmlElementContentType>, q: &ChildQuery) -> (r: Option<NodeId>)
    ensures
        r == first_id_where(contents_view(v@), |c: ContentModel| query_holds(*q, c)),
{
    proof {
        lemma_find_first(contents_view(v@), |c: ContentModel| query_holds(*q, c));
    }
    match first_matching(v, q) {
        Some(i) => Some(element_id_of(&v[i])),
        None => None,
    }
}

/// The attribute model an optional reference shows.
pub open spec fn opt_attr_view(r: Option<&XmlAttribute>) -> Option<AttributeModel> {
    match r {
        Some(a) => Some(a@),
        None => None,
    }
}

/// The first attribute of `e` satisfying `p`.
pub open spec fn attribute_where(e: ElementModel, p: spec_fn(AttributeModel) -> bool) -> Option<
    AttributeModel,
> {
    match e.attributes {
        Some(a) => match find_first(a, p) {
            Some(i) => Some(a[i]),
            None => None,
        },
        None => None,
    }
}

/// An attribute with local name `local` whose alias resolves to `uri` in scope `s`.
pub open spec fn attr_in_uri(a: AttributeModel, s: ScopeModel, uri: Seq<char>, local: Seq<char>) -> bool {
    &&& a.name == local
    &&& match a.ns_alias {
        Some(al) => scope_url(s, al) == Some(uri),
        None => false,
    }
}

impl XmlElement {
    /// Retrieves the first attribute matching `name`: by namespaced name when `name` holds
    /// a `:`, else by local name whatever its prefix.
    pub fn get_attribute(&self, name: &str) -> (r: Option<&XmlAttribute>)
        ensures
            opt_attr_view(r) == attribute_where(self@, attr_query(name@)),
    {
        let match_by_ns = contains_colon(name);
        match &self.attributes {
            Some(v) => {
                let ghost av = attrs_view(v@);
                let ghost p = attr_query(name@);
                let mut i: usize = 0;
                while i < v.len()
                    invariant
                        i <= v.len(),
                        av == attrs_view(v@),
                        self@.attributes == Some(av),
                        match_by_ns == name@.contains(':'),
                        p == attr_query(name@),
                        forall|j: int| 0 <= j < i ==> !p(av[j]),
                    decreases v.len() - i,
                {
                    if attribute_name_matches(&v[i], name, match_by_ns) {
                        proof {
                            assert(first_match(av, p, i as int));
                            lemma_first_match(av, p, i as int);
                            assert(av[i as int] == v@[i as int]@);
                        }
                        return Some(&v[i]);
                    }
                    i = i + 1;
                }
                proof {
                    lemma_find_first(av, p);
                }
                None
            },
            None => None,
        }
    }

    /// Retrieves the first attribute with local name `local_name` whose alias resolves to
    /// `uri` in this element's scope, whatever alias the document uses.
    pub fn get_attribute_by_uri(&self, uri: &str, local_name: &str) -> (r: Option<&XmlAttribute>)
        ensures
            opt_attr_view(r) == attribute_where(
                self@,
                |x: AttributeModel| attr_in_uri(x, self@.scope, uri@, local_name@),
            ),
    {
        match &self.attributes {
            Some(v) => {
                let ghost av = attrs_view(v@);
                let ghost p = |x: AttributeModel| attr_in_uri(x, self@.scope, uri@, local_name@);
                let mut i: usize = 0;
                while i < v.len()
                    invariant
                        i <= v.len(),
                        av == attrs_view(v@),
                        self@.attributes == Some(av),
                        p == (|x: AttributeModel| attr_in_uri(x, self@.scope, uri@, local_name@)),
                        forall|j: int| 0 <= j < i ==> !p(av[j]),
                    decreases v.len() - i,
                {
                    let a = &v[i];
                    let hit = if str_eq(a.get_name(), local_name) {
                        match a.get_ns_alias() {
                            Some(alias) => match self.namespace_context.get_url(alias) {
                                Some(resolved) => str_eq(resolved.as_str(), uri),
                                None => false,
                            },
                            None => false,
                        }
                    } else {
                        false
                    };
                    if hit {
                        proof {
                            assert(first_match(av, p, i as int));
                            lemma_first_match(av, p, i as int);
                            assert(av[i as int] == v@[i as int]@);
                        }
                        return Some(a);
                    }
                    i = i + 1;
                }
                proof {
                    lemma_find_first(av, p);
                }
                None
            },
            None => None,
        }
    }

    /// Retrieves the attribute `attr_name` in the namespace of `ns_declaration`, matched by
    /// URI whatever alias the document uses.
    pub fn get_attribute_ns(&self, attr_name: &str, ns_declaration: &NamespaceDeclaration) -> (r:
        Option<&XmlAttribute>)
        ensures
            opt_attr_view(r) == attribute_where(
                self@,
                |x: AttributeModel| attr_in_uri(x, self@.scope, ns_declaration.uri@, attr_name@),
            ),
    {
        self.get_attribute_by_uri(ns_declaration.uri, attr_name)
    }

    /// Whether an attribute matching `name` exists.
    pub fn has_attribute(&self, name: &str) -> (r: bool)
        ensures
            r == attribute_where(self@, attr_query(name@)) is Some,
    {
        self.get_attribute(name).is_some()
    }

    /// Whether the attribute `attr_name` in the namespace of `ns_declaration` exists.
    pub fn has_attribute_ns(&self, attr_name: &str, ns_declaration: &NamespaceDeclaration) -> (r:
        bool)
        ensures
            r == attribute_where(
                self@,
                |x: AttributeModel| attr_in_uri(x, self@.scope, ns_declaration.uri@, attr_name@),
            ) is Some,
    {
        self.get_attribute_ns(attr_name, ns_declaration).is_some()
    }

    /// The value of the attribute matching `name`.
    pub fn get_attribute_value(&self, name: &str) -> (r: Option<&str>)
        ensures
            match r {
                Some(v) => attribute_where(self@, attr_query(name@))
                    matches Some(a) && a.value == v@,
                None => attribute_where(self@, attr_query(name@)) is None,
            },
    {
        match self.get_attribute(name) {
            Some(a) => Some(a.get_value()),
            None => None,
        }
    }

    /// The value of the attribute `attr_name` in the namespace of `ns_declaration`.
    pub fn get_attribute_value_ns(&self, attr_name: &str, ns_declaration: &NamespaceDeclaration) -> (r:
        Option<&str>)
        ensures
            match r {
                Some(v) => attribute_where(
                    self@,
                    |x: AttributeModel| attr_in_uri(x, self@.scope, ns_declaration.uri@, attr_name@),
                ) matches Some(a) && a.value == v@,
                None => attribute_where(
                    self@,
                    |x: AttributeModel| attr_in_uri(x, self@.scope, ns_declaration.uri@, attr_name@),
                ) is None,
            },
    {
        match self.get_attribute_ns(attr_name, ns_declaration) {
            Some(a) => Some(a.get_value()),
            None => None,
        }
    }

    /// Whether some attribute matches `attr_name` and has value `attr_value`.
    pub(crate) fn attribute_value_matches(&self, attr_name: &str, attr_value: &str) -> (r: bool)
        ensures
            r == any_match(
                attrs_or_empty(self@),
                |x: AttributeModel| attr_matches(x, attr_name@) && x.value == attr_value@,
            ),
    {
        let match_by_ns = contains_colon(attr_name);
        match &self.attributes {
            Some(v) => {
                let ghost av = attrs_view(v@);
                let ghost p = |x: AttributeModel| attr_matches(x, attr_name@) && x.value == attr_value@;
                let mut i: usize = 0;
                while i < v.len()
                    invariant
                        i <= v.len(),
                        av == attrs_view(v@),
                        av == attrs_or_empty(self@),
                        match_by_ns == attr_name@.contains(':'),
                        p == (|x: AttributeModel| attr_matches(x, attr_name@) && x.value == attr_value@),
                        forall|j: int| 0 <= j < i ==> !p(av[j]),
                    decreases v.len() - i,
                {
                    if attribute_name_matches(&v[i], attr_name, match_by_ns) && str_eq(
                        v[i].get_value(),
                        attr_value,
                    ) {
                        assert(p(av[i as int]));
                        return true;
                    }
                    i = i + 1;
                }
                false
            },
            None => false,
        }
    }

    /// All attribute local names, or `None` when the element has no attribute list.
    pub fn get_attribute_keys(&self) -> (r: Option<Vec<String>>)
        ensures
            match r {
                Some(v) => self@.attributes matches Some(a) && v@.map_values(|s: String| s@)
                    == a.map_values(|x: AttributeModel| x.name),
                None => self@.attributes is None,
            },
    {
        match &self.attributes {
            Some(v) => {
                let ghost av = attrs_view(v@);
                let mut r: Vec<String> = Vec::new();
                let mut i: usize = 0;
                while i < v.len()
                    invariant
                        i <= v.len(),
                        av == attrs_view(v@),
                        r@.map_values(|s: String| s@) == av.take(i as int).map_values(
                            |x: AttributeModel| x.name,
                        ),
                    decreases v.len() - i,
                {
                    let ghost r0 = r@;
                    r.push(to_string(v[i].get_name()));
                    assert(r@.map_values(|s: String| s@) =~= r0.map_values(|s: String| s@).push(
                        av[i as int].name,
                    ));
                    assert(av.take(i + 1).map_values(|x: AttributeModel| x.name) =~= av.take(
                        i as int,
                    ).map_values(|x: AttributeModel| x.name).push(av[i as int].name));
                    i = i + 1;
                }
                assert(av.take(v.len() as int) =~= av);
                Some(r)
            },
            None => None,
        }
    }

    /// All attribute namespaced names, or `None` when the element has no attribute list.
    pub fn get_attribute_ns_keys(&self) -> (r: Option<Vec<String>>)
        ensures
            match r {
                Some(v) => self@.attributes matches Some(a) && v@.map_values(|s: String| s@)
                    == a.map_values(|x: AttributeModel| attribute_ns_name(x)),
                None => self@.attributes is None,
            },
    {
        match &self.attributes {
            Some(v) => {
                let ghost av = attrs_view(v@);
                let mut r: Vec<String> = Vec::new();
                let mut i: usize = 0;
                while i < v.len()
                    invariant
                        i <= v.len(),
                        av == attrs_view(v@),
                        r@.map_values(|s: String| s@) == av.take(i as int).map_values(
                            |x: AttributeModel| attribute_ns_name(x),
                        ),
                    decreases v.len() - i,
                {
                    let ghost r0 = r@;
                    r.push(v[i].get_ns_name());
                    assert(r@.map_values(|s: String| s@) =~= r0.map_values(|s: String| s@).push(
                        attribute_ns_name(av[i as int]),
                    ));
                    assert(av.take(i + 1).map_values(|x: AttributeModel| attribute_ns_name(x))
                        =~= av.take(i as int).map_values(|x: AttributeModel| attribute_ns_name(x)).push(
                        attribute_ns_name(av[i as int]),
                    ));
                    i = i + 1;
                }
                assert(av.take(v.len() as int) =~= av);
                Some(r)
            },
            None => None,
        }
    }
}

/// `c` inserted after the last child with local tag `q`, or appended.
pub open spec fn insert_after_tag(e: ElementModel, c: ContentModel, q: Seq<char>) -> ElementModel {
    insert_after(e, c, |x: ContentModel| child_tag_is(x, q))
}

/// `c` inserted after the last child with namespaced tag `q`, or appended.
pub open spec fn insert_after_tag_ns(e: ElementModel, c: ContentModel, q: Seq<char>) -> ElementModel {
    insert_after(e, c, |x: ContentModel| child_tag_ns_is(x, q))
}

/// `c` inserted before the first child with local tag `q`, or at the front.
pub open spec fn insert_before_tag(e: ElementModel, c: ContentModel, q: Seq<char>) -> ElementModel {
    insert_before(e, c, |x: ContentModel| child_tag_is(x, q))
}

/// `c` inserted before the first child with namespaced tag `q`, or at the front.
pub open spec fn insert_before_tag_ns(e: ElementModel, c: ContentModel, q: Seq<char>) -> ElementModel {
    insert_before(e, c, |x: ContentModel| child_tag_ns_is(x, q))
}

/// The child element item for a node id and its tags.
pub open spec fn child_item(id: u32, tag: Seq<char>, tag_ns: Seq<char>) -> ContentModel {
    ContentModel::Element(id, tag, tag_ns)
}

impl XmlElement {
    fn take_contents(&mut self) -> (r: Vec<XmlElementContentType>)
        ensures
            contents_view(r@) == contents_or_empty(old(self)@),
            final(self)@ == (ElementModel { contents: None, ..old(self)@ }),
    {
        let ghost e0 = self@;
        let r = match self.child_contents.take() {
            Some(v) => v,
            None => Vec::new(),
        };
        assert(contents_view(r@) =~= contents_or_empty(e0));
        r
    }

    /// Inserts a child item after the last item kept by `q`, or appends it.
    fn insert_child_after_query(&mut self, item: XmlElementContentType, q: &ChildQuery)
        ensures
            final(self)@ == insert_after(old(self)@, item@, |c: ContentModel| query_holds(*q, c)),
    {
        let ghost e0 = self@;
        let ghost iv = item@;
        let mut contents = self.take_contents();
        let ghost c0 = contents@;
        match last_matching(&contents, q) {
            Some(last_id) => {
                proof {
                    lemma_find_last(contents_view(c0), |c: ContentModel| query_holds(*q, c));
                    assert(last_id < contents_view(c0).len());
                    assert(contents_view(c0).len() == c0.len());
                    assert(last_id < contents.len());
                }
                if last_id + 1 >= contents.len() {
                    contents.push(item);
                    assert(contents_view(contents@) =~= contents_view(c0).insert(last_id + 1, iv));
                } else {
                    contents.insert(last_id + 1, item);
                    assert(contents_view(contents@) =~= contents_view(c0).insert(last_id + 1, iv));
                }
            },
            None => {
                contents.push(item);
                assert(contents_view(contents@) =~= contents_view(c0).push(iv));
            },
        }
        self.child_contents = Some(contents);
    }

    /// Inserts a child item before the first item kept by `q`, or at the front.
    fn insert_child_before_query(&mut self, item: XmlElementContentType, q: &ChildQuery)
        ensures
            final(self)@ == insert_before(old(self)@, item@, |c: ContentModel| query_holds(*q, c)),
    {
        let ghost iv = item@;
        let mut contents = self.take_contents();
        let ghost c0 = contents@;
        match first_matching(&contents, q) {
            Some(first_id) => {
                proof {
                    lemma_find_first(contents_view(c0), |c: ContentModel| query_holds(*q, c));
                }
                contents.insert(first_id, item);
                assert(contents_view(contents@) =~= contents_view(c0).insert(first_id as int, iv));
            },
            None => {
                contents.insert(0, item);
                assert(contents_view(contents@) =~= contents_view(c0).insert(0, iv));
            },
        }
        self.child_contents = Some(contents);
    }

    /// Appends a child element item.
    pub(crate) fn add_child_mut(&mut self, child_id: NodeId, tag: &str, tag_ns: &str) -> (r: Result<
        (),
        XmlError,
    >)
        ensures
            r is Ok,
            final(self)@ == push_content(old(self)@, child_item(child_id, tag@, tag_ns@)),
    {
        self.add_child_content_mut(
            XmlElementContentType::Element((child_id, to_string(tag), to_string(tag_ns))),
        )
    }

    /// Inserts a child element item after the last child with local tag `after_tag`, or
    /// appends it.
    pub(crate) fn add_child_after_tag_mut(
        &mut self,
        child_id: NodeId,
        new_tag: &str,
        new_tag_ns: &str,
        after_tag: &str,
    ) -> (r: Result<(), XmlError>)
        ensures
            r is Ok,
            final(self)@ == insert_after_tag(old(self)@, child_item(child_id, new_tag@, new_tag_ns@), after_tag@),
    {
        let q = ChildQuery::LocalTag(after_tag);
        self.insert_child_after_query(
            XmlElementContentType::Element((child_id, to_string(new_tag), to_string(new_tag_ns))),
            &q,
        );
        proof {
            assert((|c: ContentModel| query_holds(q, c)) =~= (|x: ContentModel| child_tag_is(x, after_tag@)));
        }
        Ok(())
    }

    /// Inserts a child element item after the last child with namespaced tag
    /// `after_tag_ns`, or appends it.
    pub(crate) fn add_child_after_tag_ns_mut(
        &mut self,
        child_id: NodeId,
        new_tag: &str,
        new_tag_ns: &str,
        after_tag_ns: &str,
    ) -> (r: Result<(), XmlError>)
        ensures
            r is Ok,
            final(self)@ == insert_after_tag_ns(old(self)@, child_item(child_id, new_tag@, new_tag_ns@), after_tag_ns@),
    {
        let q = ChildQuery::NsTag(after_tag_ns);
        self.insert_child_after_query(
            XmlElementContentType::Element((child_id, to_string(new_tag), to_string(new_tag_ns))),
            &q,
        );
        proof {
            assert((|c: ContentModel| query_holds(q, c)) =~= (|x: ContentModel| child_tag_ns_is(x, after_tag_ns@)));
        }
        Ok(())
    }

    /// Inserts a child element item before the first child with local tag `before_tag`,
    /// or at the front.
    pub(crate) fn add_child_before_tag_mut(
        &mut self,
        child_id: NodeId,
        new_tag: &str,
        new_tag_ns: &str,
        before_tag: &str,
    ) -> (r: Result<(), XmlError>)
        ensures
            r is Ok,
            final(self)@ == insert_before_tag(old(self)@, child_item(child_id, new_tag@, new_tag_ns@), before_tag@),
    {
        let q = ChildQuery::LocalTag(before_tag);
        self.insert_child_before_query(
            XmlElementContentType::Element((child_id, to_string(new_tag), to_string(new_tag_ns))),
            &q,
        );
        proof {
            assert((|c: ContentModel| query_holds(q, c)) =~= (|x: ContentModel| child_tag_is(x, before_tag@)));
        }
        Ok(())
    }

    /// Inserts a child element item before the first child with namespaced tag
    /// `before_tag_ns`, or at the front.
    pub(crate) fn add_child_before_tag_ns_mut(
        &mut self,
        child_id: NodeId,
        new_tag: &str,
        new_tag_ns: &str,
        before_tag_ns: &str,
    ) -> (r: Result<(), XmlError>)
        ensures
            r is Ok,
            final(self)@ == insert_before_tag_ns(old(self)@, child_item(child_id, new_tag@, new_tag_ns@), before_tag_ns@),
    {
        let q = ChildQuery::NsTag(before_tag_ns);
        self.insert_child_before_query(
            XmlElementContentType::Element((child_id, to_string(new_tag), to_string(new_tag_ns))),
            &q,
        );
        proof {
            assert((|c: ContentModel| query_holds(q, c)) =~= (|x: ContentModel| child_tag_ns_is(x, before_tag_ns@)));
        }
        Ok(())
    }

    /// The number of child elements (text and comments excluded), as `u32`; fails when the
    /// element has no content list.
    pub fn get_child_element_count(&self) -> (r: Result<u32, XmlError>)
        ensures
            match self@.contents {
                Some(cs) => r == Ok::<u32, XmlError>(ids_where(cs, any_child()).len() as u32),
                None => r == Err::<u32, XmlError>(XmlError::ContentsMissing),
            },
    {
        match &self.child_contents {
            Some(v) => {
                let q = ChildQuery::AnyChild;
                let ids = ids_matching(v, &q);
                proof {
                    assert((|c: ContentModel| query_holds(q, c)) =~= any_child());
                }
                #[verifier::truncate]
                let count = ids.len() as u32;
                Ok(count)
            },
            None => Err(XmlError::ContentsMissing),
        }
    }

    /// The first child element matching `tag`: by namespaced tag when `tag` holds a `:`,
    /// else by local tag.
    pub fn find_first_child(&self, tag: &str) -> (r: Option<NodeId>)
        ensures
            r == first_id_where(contents_or_empty(self@), child_query(tag@)),
    {
        let q = ChildQuery::Query(tag);
        proof {
            assert((|c: ContentModel| query_holds(q, c)) =~= child_query(tag@));
        }
        match &self.child_contents {
            Some(v) => first_id(v, &q),
            None => {
                proof {
                    lemma_find_first(Seq::<ContentModel>::empty(), child_query(tag@));
                }
                None
            },
        }
    }

    /// The first child element whose namespaced tag is `local_name` in the namespace of
    /// `ns_declaration`, as resolved in this element's scope.
    pub fn find_first_child_ns(&self, local_name: &str, ns_declaration: &NamespaceDeclaration) -> (r:
        Option<NodeId>)
        ensures
            r == first_id_where(
                contents_or_empty(self@),
                |c: ContentModel| child_tag_ns_is(c, scoped_name(self@, local_name@, *ns_declaration)),
            ),
    {
        let tag_ns = self.build_scoped_ns_name(local_name, ns_declaration);
        let q = ChildQuery::NsTag(tag_ns.as_str());
        proof {
            assert((|c: ContentModel| query_holds(q, c)) =~= (|c: ContentModel|
                child_tag_ns_is(c, scoped_name(self@, local_name@, *ns_declaration))));
        }
        match &self.child_contents {
            Some(v) => first_id(v, &q),
            None => {
                proof {
                    lemma_find_first(Seq::<ContentModel>::empty(), |c: ContentModel|
                        child_tag_ns_is(c, scoped_name(self@, local_name@, *ns_declaration)));
                }
                None
            },
        }
    }

    /// All child elements matching `tag`, or `None` when there are none.
    pub fn find_all_child(&self, tag: &str) -> (r: Option<Vec<NodeId>>)
        ensures
            match r {
                Some(v) => nonempty(ids_where(contents_or_empty(self@), child_query(tag@))) == Some(v@),
                None => nonempty(ids_where(contents_or_empty(self@), child_query(tag@))) is None,
            },
    {
        let q = ChildQuery::Query(tag);
        proof {
            assert((|c: ContentModel| query_holds(q, c)) =~= child_query(tag@));
        }
        match &self.child_contents {
            Some(v) => {
                let ids = ids_matching(v, &q);
                if ids.len() == 0 {
                    None
                } else {
                    Some(ids)
                }
            },
            None => None,
        }
    }

    /// All child elements whose namespaced tag is `local_name` in the namespace of
    /// `ns_declaration`, or `None` when there are none.
    pub fn find_all_child_ns(&self, local_name: &str, ns_declaration: &NamespaceDeclaration) -> (r:
        Option<Vec<NodeId>>)
        ensures
            match r {
                Some(v) => nonempty(ids_where(contents_or_empty(self@), |c: ContentModel|
                    child_tag_ns_is(c, scoped_name(self@, local_name@, *ns_declaration)))) == Some(v@),
                None => nonempty(ids_where(contents_or_empty(self@), |c: ContentModel|
                    child_tag_ns_is(c, scoped_name(self@, local_name@, *ns_declaration)))) is None,
            },
    {
        let tag_ns = self.build_scoped_ns_name(local_name, ns_declaration);
        let q = ChildQuery::NsTag(tag_ns.as_str());
        proof {
            assert((|c: ContentModel| query_holds(q, c)) =~= (|c: ContentModel|
                child_tag_ns_is(c, scoped_name(self@, local_name@, *ns_declaration))));
        }
        match &self.child_contents {
            Some(v) => {
                let ids = ids_matching(v, &q);
                if ids.len() == 0 {
                    None
                } else {
                    Some(ids)
                }
            },
            None => None,
        }
    }

    /// The node IDs of all direct child elements, in document order, or `None`.
    pub fn get_child_element_ids(&self) -> (r: Option<Vec<NodeId>>)
        ensures
            match r {
                Some(v) => nonempty(ids_where(contents_or_empty(self@), any_child())) == Some(v@),
                None => nonempty(ids_where(contents_or_empty(self@), any_child())) is None,
            },
    {
        let q = ChildQuery::AnyChild;
        proof {
            assert((|c: ContentModel| query_holds(q, c)) =~= any_child());
        }
        match &self.child_contents {
            Some(v) => {
                let ids = ids_matching(v, &q);
                if ids.len() == 0 {
                    None
                } else {
                    Some(ids)
                }
            },
            None => None,
        }
    }

    /// The node ID of the first direct child element.
    pub fn get_first_child_element(&self) -> (r: Option<NodeId>)
        ensures
            r == first_id_where(contents_or_empty(self@), any_child()),
    {
        let q = ChildQuery::AnyChild;
        proof {
            assert((|c: ContentModel| query_holds(q, c)) =~= any_child());
        }
        match &self.child_contents {
            Some(v) => first_id(v, &q),
            None => {
                proof {
                    lemma_find_first(Seq::<ContentModel>::empty(), any_child());
                }
                None
            },
        }
    }

    /// The node ID of the last direct child element.
    pub fn get_last_child_element(&self) -> (r: Option<NodeId>)
        ensures
            r == last_id_where(contents_or_empty(self@), any_child()),
    {
        let q = ChildQuery::AnyChild;
        proof {
            assert((|c: ContentModel| query_holds(q, c)) =~= any_child());
        }
        match &self.child_contents {
            Some(v) => {
                proof {
                    lemma_find_last(contents_view(v@), any_child());
                }
                match last_matching(v, &q) {
                    Some(i) => Some(element_id_of(&v[i])),
                    None => None,
                }
            },
            None => {
                proof {
                    lemma_find_last(Seq::<ContentModel>::empty(), any_child());
                }
                None
            },
        }
    }

    /// The text of the first direct text node, `None` when there is none (also when the
    /// element has no content list).
    pub fn get_element_text_value(&self) -> (r: Result<Option<String>, XmlError>)
        ensures
            r matches Ok(t) && opt_string_view(t) == first_text(contents_or_empty(self@)),
    {
        match &self.child_contents {
            Some(v) => {
                let ghost cv = contents_view(v@);
                let ghost p = |c: ContentModel| c is Text;
                let mut i: usize = 0;
                while i < v.len()
                    invariant
                        i <= v.len(),
                        cv == contents_view(v@),
                        self@.contents == Some(cv),
                        p == (|c: ContentModel| c is Text),
                        forall|j: int| 0 <= j < i ==> !p(cv[j]),
                    decreases v.len() - i,
                {
                    match &v[i] {
                        XmlElementContentType::Text(value) => {
                            proof {
                                assert(cv[i as int] == v@[i as int]@);
                                assert(first_match(cv, p, i as int));
                                lemma_first_match(cv, p, i as int);
                            }
                            return Ok(Some(copy_string(value)));
                        },
                        _ => {},
                    }
                    i = i + 1;
                }
                proof {
                    lemma_find_first(cv, p);
                }
                Ok(None)
            },
            None => {
                proof {
                    lemma_find_first(Seq::<ContentModel>::empty(), |c: ContentModel| c is Text);
                }
                Ok(None)
            },
        }
    }

    /// The concatenated text of every direct text node.
    pub fn get_text_content(&self) -> (r: String)
        ensures
            r@ == text_concat(contents_or_empty(self@)),
    {
        let mut text = String::new();
        match &self.child_contents {
            Some(v) => {
                let ghost cv = contents_view(v@);
                let mut i: usize = 0;
                while i < v.len()
                    invariant
                        i <= v.len(),
                        cv == contents_view(v@),
                        text@ == text_concat(cv.take(i as int)),
                    decreases v.len() - i,
                {
                    assert(cv.take(i + 1).drop_last() =~= cv.take(i as int));
                    match &v[i] {
                        XmlElementContentType::Text(value) => {
                            text.append(value.as_str());
                        },
                        _ => {
                            assert(text@ =~= text@ + Seq::<char>::empty());
                        },
                    }
                    i = i + 1;
                }
                assert(cv.take(v.len() as int) =~= cv);
            },
            None => {
                assert(text@ =~= Seq::<char>::empty());
            },
        }
        text
    }
}

impl XmlElement {
    /// The first child element whose namespaced tag is exactly `tag_ns`.
    pub(crate) fn find_first_child_by_ns_tag(&self, tag_ns: &str) -> (r: Option<NodeId>)
        ensures
            r == first_id_where(contents_or_empty(self@), |c: ContentModel| child_tag_ns_is(c, tag_ns@)),
    {
        let q = ChildQuery::NsTag(tag_ns);
        proof {
            assert((|c: ContentModel| query_holds(q, c)) =~= (|c: ContentModel| child_tag_ns_is(c, tag_ns@)));
        }
        match &self.child_contents {
            Some(v) => first_id(v, &q),
            None => {
                proof {
                    lemma_find_first(Seq::<ContentModel>::empty(), |c: ContentModel| child_tag_ns_is(c, tag_ns@));
                }
                None
            },
        }
    }

    /// All child elements whose namespaced tag is exactly `tag_ns`, or `None`.
    pub(crate) fn find_all_child_by_ns_tag(&self, tag_ns: &str) -> (r: Option<Vec<NodeId>>)
        ensures
            match r {
                Some(v) => nonempty(ids_where(contents_or_empty(self@), |c: ContentModel| child_tag_ns_is(c, tag_ns@))) == Some(v@),
                None => nonempty(ids_where(contents_or_empty(self@), |c: ContentModel| child_tag_ns_is(c, tag_ns@))) is None,
            },
    {
        let q = ChildQuery::NsTag(tag_ns);
        proof {
            assert((|c: ContentModel| query_holds(q, c)) =~= (|c: ContentModel| child_tag_ns_is(c, tag_ns@)));
        }
        match &self.child_contents {
            Some(v) => {
                let ids = ids_matching(v, &q);
                if ids.len() == 0 {
                    None
                } else {
                    Some(ids)
                }
            },
            None => None,
        }
    }
}

} // verus!
