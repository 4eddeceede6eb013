//! Serialization of a document to XML text.
use vstd::prelude::*;
use crate::error::XmlError;
use crate::text::string_push;
use crate::dom::assoc::{Pairs, pairs_view};
use crate::dom::attribute::{AttributeModel, XmlAttribute, attribute_ns_name};
use crate::dom::namespace::scope_local_declarations;
use crate::dom::element::{
    XmlElement, XmlElementContentType, ElementModel, ContentModel, NodeId, tag_ns, attrs_or_empty,
    contents_view, attrs_view,
};
use crate::dom::document::{XmlDocument, DocumentModel, tree_fuel};
use vstd::utf8::encode_utf8;
use crate::parser::namespace_optimizer::{NamespaceOptimizer, optimized_plan};
use crate::parser::plan::{NamespacePlan, PlanModel, plan_view, opt_plan_view, plan_lookup};

verus! {

// ---------------------------------------------------------------------
// Text escaping, by quick_xml
// ---------------------------------------------------------------------

/// The escape of one character: `<`, `>`, `&`, `'` and `"` become entity references.
pub open spec fn escape_char(c: char) -> Seq<char> {
    if c == '<' {
        seq!['&', 'l', 't', ';']
    } else if c == '>' {
        seq!['&', 'g', 't', ';']
    } else if c == '&' {
        seq!['&', 'a', 'm', 'p', ';']
    } else if c == '\'' {
        seq!['&', 'a', 'p', 'o', 's', ';']
    } else if c == '"' {
        seq!['&', 'q', 'u', 'o', 't', ';']
    } else {
        seq![c]
    }
}

/// The escape of a text: each character escaped in turn.
pub open spec fn escape_spec(s: Seq<char>) -> Seq<char>
    decreases s.len(),
{
    if s.len() == 0 {
        Seq::empty()
    } else {
        escape_spec(s.drop_last()) + escape_char(s.last())
    }
}

/// Calls `quick_xml::escape::escape`, which replaces `<`, `>`, `&`, `'` and `"` by
/// `&lt;`, `&gt;`, `&amp;`, `&apos;` and `&quot;` and keeps every other character.
#[verifier::external_body]
fn escape_text(text: &str) -> (r: String)
    ensures
        r@ == escape_spec(text@),
{
    quick_xml::escape::escape(text).into_owned()
}

// ---------------------------------------------------------------------
// Specification of the output
// ---------------------------------------------------------------------

/// ` xmlns="uri"` or ` xmlns:alias="uri"`, with the URI as stored.
pub open spec fn decl_text(alias: Seq<char>, uri: Seq<char>) -> Seq<char> {
    seq![' ', 'x', 'm', 'l', 'n', 's'] + (if alias.len() > 0 {
        seq![':'] + alias
    } else {
        Seq::empty()
    }) + seq!['=', '"'] + uri + seq!['"']
}

/// The declarations, in order.
pub open spec fn decls_text(ds: Pairs) -> Seq<char>
    decreases ds.len(),
{
    if ds.len() == 0 {
        Seq::empty()
    } else {
        decls_text(ds.drop_last()) + decl_text(ds.last().0, ds.last().1)
    }
}

/// The default-namespace declarations among `ds`.
pub open spec fn default_decls(ds: Pairs) -> Pairs {
    ds.filter_map(|p: (Seq<char>, Seq<char>)| if p.0.len() == 0 { Some(p) } else { None })
}

/// ` name="value"` with the attribute's namespaced name and its value as stored (a value
/// is kept as written when it was read, references included).
pub open spec fn attr_text(a: AttributeModel) -> Seq<char> {
    seq![' '] + attribute_ns_name(a) + seq!['=', '"'] + a.value + seq!['"']
}

/// The attributes, in order.
pub open spec fn attrs_text(attrs: Seq<AttributeModel>) -> Seq<char>
    decreases attrs.len(),
{
    if attrs.len() == 0 {
        Seq::empty()
    } else {
        attrs_text(attrs.drop_last()) + attr_text(attrs.last())
    }
}

/// The declarations written on an element: with a plan, its default-namespace local
/// declarations then the plan's entries for it; without, its local declarations when it
/// owns its scope.
pub open spec fn element_decls(e: ElementModel, id: u32, plan: Option<PlanModel>) -> Seq<char> {
    match plan {
        Some(p) => decls_text(default_decls(scope_local_declarations(e.scope))) + if p.contains_key(id) {
            decls_text(p[id])
        } else {
            Seq::empty()
        },
        None => if e.ns_override {
            decls_text(scope_local_declarations(e.scope))
        } else {
            Seq::empty()
        },
    }
}

/// The inside of an element's start tag: namespaced tag, declarations, attributes.
pub open spec fn open_tag_text(e: ElementModel, id: u32, plan: Option<PlanModel>) -> Seq<char> {
    tag_ns(e) + element_decls(e, id, plan) + attrs_text(attrs_or_empty(e))
}

/// `<!--comment-->`.
pub open spec fn comment_text(c: Seq<char>) -> Seq<char> {
    seq!['<', '!', '-', '-'] + c + seq!['-', '-', '>']
}

/// The text of element `id` and its subtree, within `fuel` levels: `<tag .../>` without a
/// content list; otherwise the start tag, the contents, and an end tag when the contents
/// are not empty.
pub open spec fn node_text(els: Map<u32, ElementModel>, id: u32, plan: Option<PlanModel>, fuel: nat) -> Result<Seq<char>, XmlError>
    decreases fuel, 0nat, 0nat,
{
    if fuel == 0 {
        Err(XmlError::CyclicTree)
    } else if !els.contains_key(id) {
        Err(XmlError::ElementNotFound(id))
    } else {
        let e = els[id];
        match e.contents {
            Some(cs) => match list_text(els, cs, plan, (fuel - 1) as nat) {
                Ok(inner) => Ok(
                    seq!['<'] + open_tag_text(e, id, plan) + seq!['>'] + inner + seq!['<', '/'] + tag_ns(e) + seq!['>'],
                ),
                Err(err) => Err(err),
            },
            None => Ok(seq!['<'] + open_tag_text(e, id, plan) + seq!['/', '>']),
        }
    }
}

/// The text of a content list: child elements recursively, escaped texts, comments.
pub open spec fn list_text(els: Map<u32, ElementModel>, cs: Seq<ContentModel>, plan: Option<PlanModel>, fuel: nat) -> Result<Seq<char>, XmlError>
    decreases fuel, 1nat, cs.len(),
{
    if cs.len() == 0 {
        Ok(Seq::empty())
    } else {
        match list_text(els, cs.drop_last(), plan, fuel) {
            Err(e) => Err(e),
            Ok(prev) => match cs.last() {
                ContentModel::Element(cid, _, _) => match node_text(els, cid, plan, fuel) {
                    Ok(t) => Ok(prev + t),
                    Err(e) => Err(e),
                },
                ContentModel::Text(t) => Ok(prev + escape_spec(t)),
                ContentModel::Comment(c) => Ok(prev + comment_text(c)),
            },
        }
    }
}

/// `<?xml version="v" encoding="e"?>`, with ` standalone="s"` when declared.
pub open spec fn xml_declaration_text(version: Seq<char>, encoding: Seq<char>, standalone: Option<Seq<char>>) -> Seq<char> {
    seq!['<', '?', 'x', 'm', 'l', ' ', 'v', 'e', 'r', 's', 'i', 'o', 'n', '=', '"'] + version
        + seq!['"', ' ', 'e', 'n', 'c', 'o', 'd', 'i', 'n', 'g', '=', '"'] + encoding + seq!['"']
        + match standalone {
        Some(s) => seq![' ', 's', 't', 'a', 'n', 'd', 'a', 'l', 'o', 'n', 'e', '=', '"'] + s + seq!['"'],
        None => Seq::empty(),
    } + seq!['?', '>']
}

/// The declaration of a document, with its version, encoding and standalone flag.
pub open spec fn declaration_text(d: DocumentModel) -> Seq<char> {
    xml_declaration_text(d.version, d.encoding, d.standalone)
}

/// The prolog comments, in order.
pub open spec fn comments_text(cs: Seq<Seq<char>>) -> Seq<char>
    decreases cs.len(),
{
    if cs.len() == 0 {
        Seq::empty()
    } else {
        comments_text(cs.drop_last()) + comment_text(cs.last())
    }
}

/// The whole document text: declaration, prolog comments, then the tree from the root.
pub open spec fn document_text(d: DocumentModel, plan: Option<PlanModel>) -> Result<Seq<char>, XmlError> {
    match node_text(d.elements, d.root_id, plan, tree_fuel(d)) {
        Ok(t) => Ok(declaration_text(d) + comments_text(d.prolog_comments) + t),
        Err(e) => Err(e),
    }
}

// ---------------------------------------------------------------------
// Serializer
// ---------------------------------------------------------------------

/// The text of a document serialized with or without namespace optimization.
pub open spec fn serialized_text(d: DocumentModel, optimize_namespaces: bool) -> Result<Seq<char>, XmlError> {
    if optimize_namespaces {
        match optimized_plan(d) {
            Ok(p) => document_text(d, Some(p)),
            Err(e) => Err(e),
        }
    } else {
        document_text(d, None)
    }
}

/// The bytes of a serialization result: the UTF-8 encoding of its text.
pub open spec fn serialized_bytes(r: Result<Seq<char>, XmlError>) -> Result<Seq<u8>, XmlError> {
    match r {
        Ok(t) => Ok(encode_utf8(t)),
        Err(e) => Err(e),
    }
}

/// The result bytes as a `Result` over byte sequences.
pub open spec fn bytes_result(r: Result<Vec<u8>, XmlError>) -> Result<Seq<u8>, XmlError> {
    match r {
        Ok(b) => Ok(b@),
        Err(e) => Err(e),
    }
}

/// The result text as a `Result` over character sequences.
pub open spec fn text_result(r: Result<String, XmlError>) -> Result<Seq<char>, XmlError> {
    match r {
        Ok(s) => Ok(s@),
        Err(e) => Err(e),
    }
}

/// Options controlling how a document is serialized.
#[derive(Debug)]
pub struct SerializeOptions {
    /// Hoists every prefixed namespace declaration to the lowest common ancestor of its
    /// uses and drops declarations that are never referenced.
    pub optimize_namespaces: bool,
}

impl Clone for SerializeOptions {
    /// A copy of these options.
    fn clone(&self) -> (r: Self)
        ensures
            r.optimize_namespaces == self.optimize_namespaces,
    {
        SerializeOptions { optimize_namespaces: self.optimize_namespaces }
    }
}

impl Default for SerializeOptions {
    /// The default options: no namespace optimization.
    fn default() -> (r: Self)
        ensures
            !r.optimize_namespaces,
    {
        SerializeOptions { optimize_namespaces: false }
    }
}

/// Provides XML serialization of documents.
pub struct XmlSerializer {}

fn push_lit(target: &mut String, lit: &str)
    ensures
        final(target)@ == old(target)@ + lit@,
{
    target.append(lit);
}

/// Appends one `xmlns` declaration.
fn push_namespace_declaration(target: &mut String, alias: &str, uri: &str)
    ensures
        final(target)@ == old(target)@ + decl_text(alias@, uri@),
{
    let ghost t0 = target@;
    push_lit(target, " xmlns");
    proof {
        reveal_strlit(" xmlns");
        assert(" xmlns"@ =~= seq![' ', 'x', 'm', 'l', 'n', 's']);
    }
    if alias.unicode_len() > 0 {
        string_push(target, ':');
        target.append(alias);
    }
    string_push(target, '=');
    string_push(target, '"');
    target.append(uri);
    string_push(target, '"');
    assert(target@ =~= t0 + decl_text(alias@, uri@));
}

/// Appends declarations; only those with an empty alias when `defaults_only`.
fn push_declarations(target: &mut String, ds: &Vec<(String, String)>, defaults_only: bool)
    ensures
        final(target)@ == old(target)@ + decls_text(if defaults_only {
            default_decls(pairs_view(ds@))
        } else {
            pairs_view(ds@)
        }),
{
    let ghost pv = pairs_view(ds@);
    let ghost t0 = target@;
    let ghost f = |p: (Seq<char>, Seq<char>)| if p.0.len() == 0 { Some(p) } else { None };
    let mut i: usize = 0;
    while i < ds.len()
        invariant
            i <= ds.len(),
            pv == pairs_view(ds@),
            f == (|p: (Seq<char>, Seq<char>)| if p.0.len() == 0 { Some(p) } else { None }),
            target@ == t0 + decls_text(if defaults_only {
                pv.take(i as int).filter_map(f)
            } else {
                pv.take(i as int)
            }),
        decreases ds.len() - i,
    {
        let ghost tb = target@;
        assert(pv.take(i + 1).drop_last() =~= pv.take(i as int));
        assert(pv[i as int] == (ds@[i as int].0@, ds@[i as int].1@));
        let (alias, uri) = (&ds[i].0, &ds[i].1);
        if !defaults_only || alias.as_str().unicode_len() == 0 {
            push_namespace_declaration(target, alias.as_str(), uri.as_str());
            proof {
                if defaults_only {
                    assert(pv.take(i + 1).filter_map(f) =~= pv.take(i as int).filter_map(f).push(pv[i as int]));
                    let a = pv.take(i as int).filter_map(f);
                    assert(a.push(pv[i as int]).drop_last() =~= a);
                } else {
                    assert(pv.take(i + 1).drop_last() =~= pv.take(i as int));
                }
                assert(target@ =~= t0 + decls_text(if defaults_only {
                    pv.take(i + 1).filter_map(f)
                } else {
                    pv.take(i + 1)
                }));
            }
        } else {
            assert(pv.take(i + 1).filter_map(f) =~= pv.take(i as int).filter_map(f));
        }
        i = i + 1;
    }
    assert(pv.take(ds.len() as int) =~= pv);
}

/// Appends the attributes.
fn push_attributes(target: &mut String, attributes: &Vec<XmlAttribute>)
    ensures
        final(target)@ == old(target)@ + attrs_text(attrs_view(attributes@)),
{
    let ghost av = attrs_view(attributes@);
    let ghost t0 = target@;
    let mut i: usize = 0;
    while i < attributes.len()
        invariant
            i <= attributes.len(),
            av == attrs_view(attributes@),
            target@ == t0 + attrs_text(av.take(i as int)),
        decreases attributes.len() - i,
    {
        let ghost tb = target@;
        assert(av.take(i + 1).drop_last() =~= av.take(i as int));
        assert(av[i as int] == attributes@[i as int]@);
        let a = &attributes[i];
        string_push(target, ' ');
        let n = a.get_ns_name();
        target.append(n.as_str());
        string_push(target, '=');
        string_push(target, '"');
        target.append(a.get_value());
        string_push(target, '"');
        assert(target@ =~= tb + attr_text(av[i as int]));
        i = i + 1;
    }
    assert(av.take(attributes.len() as int) =~= av);
}

impl XmlSerializer {
    /// Serializes a document to the UTF-8 bytes of its XML text: the declaration, the
    /// prolog comments and the element tree from the root.
    pub fn xml_tree_to_vec(xml_document: &XmlDocument) -> (r: Result<Vec<u8>, XmlError>)
        ensures
            bytes_result(r) == serialized_bytes(serialized_text(xml_document@, false)),
    {
        Self::xml_tree_to_vec_with(xml_document, &SerializeOptions::default())
    }

    /// Serializes a document to the UTF-8 bytes of its XML text, with the given options.
    pub fn xml_tree_to_vec_with(xml_document: &XmlDocument, options: &SerializeOptions) -> (r: Result<Vec<u8>, XmlError>)
        ensures
            bytes_result(r) == serialized_bytes(serialized_text(xml_document@, options.optimize_namespaces)),
    {
        let text = if options.optimize_namespaces {
            let plan = NamespaceOptimizer::build_plan(xml_document)?;
            Self::build_document_text(xml_document, Some(&plan))
        } else {
            Self::build_document_text(xml_document, None)
        };
        match text {
            Ok(s) => Ok(s.as_str().as_bytes_vec()),
            Err(e) => Err(e),
        }
    }

    /// The inside of an element's start tag: namespaced tag, namespace declarations and
    /// attributes.
    fn build_element(element: &XmlElement, element_id: NodeId, namespace_plan: Option<&NamespacePlan>) -> (r: String)
        ensures
            r@ == open_tag_text(element@, element_id, opt_plan_view(namespace_plan)),
    {
        let mut element_part = element.get_tag_ns();
        match namespace_plan {
            Some(plan) => {
                let locals = element.get_local_namespace_declarations();
                push_declarations(&mut element_part, &locals, true);
                match plan_lookup(plan, element_id) {
                    Some(i) => {
                        push_declarations(&mut element_part, &plan[i].1, false);
                        assert(plan_view(plan@).contains_key(element_id));
                    },
                    None => {
                        assert(!plan_view(plan@).contains_key(element_id));
                        assert(element_part@ =~= element_part@ + Seq::<char>::empty());
                    },
                }
            },
            None => {
                if element.has_namespace() {
                    let locals = element.get_local_namespace_declarations();
                    push_declarations(&mut element_part, &locals, false);
                } else {
                    assert(element_part@ =~= element_part@ + Seq::<char>::empty());
                }
            },
        }
        match element.get_attributes() {
            Some(attributes) => {
                push_attributes(&mut element_part, attributes);
            },
            None => {
                assert(attrs_text(attrs_or_empty(element@)) =~= Seq::<char>::empty());
                assert(element_part@ =~= element_part@ + Seq::<char>::empty());
            },
        }
        element_part
    }

    /// The text of an element and its subtree, within `fuel` levels.
    fn build_element_content(xml_document: &XmlDocument, element_id: NodeId, namespace_plan: Option<&NamespacePlan>, fuel: u64) -> (r: Result<String, XmlError>)
        ensures
            text_result(r) == node_text(xml_document@.elements, element_id, opt_plan_view(namespace_plan), fuel as nat),
        decreases fuel,
    {
        if fuel == 0 {
            return Err(XmlError::CyclicTree);
        }
        let element = xml_document.get_element(element_id)?;
        let ghost els = xml_document@.elements;
        let ghost pl = opt_plan_view(namespace_plan);
        let open_tag = Self::build_element(element, element_id, namespace_plan);
        let mut content_part = String::new();
        string_push(&mut content_part, '<');
        content_part.append(open_tag.as_str());
        match element.get_child_contents() {
            Some(contents) => {
                string_push(&mut content_part, '>');
                let ghost head = content_part@;
                let ghost cv = contents_view(contents@);
                let mut i: usize = 0;
                assert(els[element_id].contents == Some(cv));
                assert(list_text(els, cv.take(0), pl, (fuel - 1) as nat) == Ok::<Seq<char>, XmlError>(Seq::empty())) by {
                    assert(cv.take(0).len() == 0);
                }
                assert(content_part@ =~= head + Seq::<char>::empty());
                while i < contents.len()
                    invariant
                        i <= contents.len(),
                        fuel > 0,
                        els == xml_document@.elements,
                        pl == opt_plan_view(namespace_plan),
                        cv == contents_view(contents@),
                        els.contains_key(element_id),
                        els[element_id].contents == Some(cv),
                        list_text(els, cv.take(i as int), pl, (fuel - 1) as nat) matches Ok(t) && content_part@ == head + t,
                    decreases contents.len() - i,
                {
                    let ghost prev = list_text(els, cv.take(i as int), pl, (fuel - 1) as nat)->Ok_0;
                    assert(cv.take(i + 1).drop_last() =~= cv.take(i as int));
                    assert(cv.take(i + 1).last() == cv[i as int]);
                    assert(cv[i as int] == contents@[i as int]@);
                    proof {
                        lemma_list_text_unfold(els, cv.take(i + 1), pl, (fuel - 1) as nat);
                    }
                    match &contents[i] {
                        XmlElementContentType::Element(t) => {
                            let sub = Self::build_element_content(xml_document, t.0, namespace_plan, fuel - 1);
                            match sub {
                                Ok(text) => {
                                    content_part.append(text.as_str());
                                },
                                Err(e) => {
                                    proof {
                                        assert(list_text(els, cv.take(i + 1), pl, (fuel - 1) as nat) == Err::<Seq<char>, XmlError>(e));
                                        lemma_list_text_prefix_err(els, cv, (i + 1) as int, pl, (fuel - 1) as nat);
                                        assert(cv.take(contents.len() as int) =~= cv);
                                        assert(els[element_id].contents == Some(cv));
                                    }
                                    return Err(e);
                                },
                            }
                        },
                        XmlElementContentType::Text(text) => {
                            let escaped = escape_text(text.as_str());
                            content_part.append(escaped.as_str());
                        },
                        XmlElementContentType::Comment(comment) => {
                            push_lit(&mut content_part, "<!--");
                            content_part.append(comment.as_str());
                            push_lit(&mut content_part, "-->");
                            proof {
                                reveal_strlit("<!--");
                                reveal_strlit("-->");
                                assert("<!--"@ =~= seq!['<', '!', '-', '-']);
                                assert("-->"@ =~= seq!['-', '-', '>']);
                                assert(content_part@ =~= head + prev + comment_text(comment@));
                            }
                        },
                    }
                    i = i + 1;
                }
                assert(cv.take(contents.len() as int) =~= cv);
                string_push(&mut content_part, '<');
                string_push(&mut content_part, '/');
                let tn = element.get_tag_ns();
                content_part.append(tn.as_str());
                string_push(&mut content_part, '>');
                proof {
                    let inner = list_text(els, cv, pl, (fuel - 1) as nat)->Ok_0;
                    let e = els[element_id];
                    assert(e.contents == Some(cv));
                    assert(content_part@ =~= seq!['<'] + open_tag_text(e, element_id, pl) + seq!['>'] + inner + seq!['<', '/'] + tag_ns(e) + seq!['>']);
                }
            },
            None => {
                string_push(&mut content_part, '/');
                string_push(&mut content_part, '>');
                assert(content_part@ =~= seq!['<'] + open_tag_text(element@, element_id, pl) + seq!['/', '>']);
            },
        }
        Ok(content_part)
    }

    /// The text of the tree from the root element.
    fn build_xml_tree(xml_document: &XmlDocument, namespace_plan: Option<&NamespacePlan>) -> (r: Result<String, XmlError>)
        ensures
            text_result(r) == node_text(xml_document@.elements, xml_document@.root_id, opt_plan_view(namespace_plan), tree_fuel(xml_document@)),
    {
        let fuel: u64 = xml_document.get_root_id_fuel();
        Self::build_element_content(xml_document, xml_document.get_root_id(), namespace_plan, fuel)
    }

    /// The whole document text with an optional plan.
    fn build_document_text(xml_document: &XmlDocument, namespace_plan: Option<&NamespacePlan>) -> (r: Result<String, XmlError>)
        ensures
            text_result(r) == document_text(xml_document@, opt_plan_view(namespace_plan)),
    {
        let mut xml_content = String::new();
        push_lit(&mut xml_content, "<?xml version=\"");
        xml_content.append(xml_document.get_version());
        push_lit(&mut xml_content, "\" encoding=\"");
        xml_content.append(xml_document.get_encoding());
        string_push(&mut xml_content, '"');
        match xml_document.get_standalone() {
            Some(standalone) => {
                push_lit(&mut xml_content, " standalone=\"");
                xml_content.append(standalone);
                string_push(&mut xml_content, '"');
            },
            None => {},
        }
        string_push(&mut xml_content, '?');
        string_push(&mut xml_content, '>');
        proof {
            reveal_strlit("<?xml version=\"");
            reveal_strlit("\" encoding=\"");
            reveal_strlit(" standalone=\"");
            assert("<?xml version=\""@ =~= seq!['<', '?', 'x', 'm', 'l', ' ', 'v', 'e', 'r', 's', 'i', 'o', 'n', '=', '"']);
            assert("\" encoding=\""@ =~= seq!['"', ' ', 'e', 'n', 'c', 'o', 'd', 'i', 'n', 'g', '=', '"']);
            assert(" standalone=\""@ =~= seq![' ', 's', 't', 'a', 'n', 'd', 'a', 'l', 'o', 'n', 'e', '=', '"']);
            assert(xml_content@ =~= declaration_text(xml_document@));
        }
        let ghost decl = xml_content@;
        let comments = xml_document.get_prolog_comments();
        let ghost cs = xml_document@.prolog_comments;
        let mut k: usize = 0;
        assert(cs.take(0) =~= Seq::<Seq<char>>::empty());
        assert(xml_content@ =~= decl + comments_text(cs.take(0)));
        while k < comments.len()
            invariant
                k <= comments.len(),
                cs == xml_document@.prolog_comments,
                cs == comments@.map_values(|s: String| s@),
                xml_content@ == decl + comments_text(cs.take(k as int)),
            decreases comments.len() - k,
        {
            assert(cs.take(k + 1).drop_last() =~= cs.take(k as int));
            assert(cs[k as int] == comments@[k as int]@);
            push_lit(&mut xml_content, "<!--");
            xml_content.append(comments[k].as_str());
            push_lit(&mut xml_content, "-->");
            proof {
                reveal_strlit("<!--");
                reveal_strlit("-->");
                assert("<!--"@ =~= seq!['<', '!', '-', '-']);
                assert("-->"@ =~= seq!['-', '-', '>']);
                assert(xml_content@ =~= decl + comments_text(cs.take(k + 1)));
            }
            k = k + 1;
        }
        assert(cs.take(k as int) =~= cs);
        let tree = Self::build_xml_tree(xml_document, namespace_plan)?;
        xml_content.append(tree.as_str());
        Ok(xml_content)
    }
}

/// Escaped text holds no `<` and no `>`, so a text node cannot open or close markup.
pub proof fn law_escaped_text_has_no_markup(t: Seq<char>)
    ensures
        forall|i: int| 0 <= i < escape_spec(t).len() ==> #[trigger] escape_spec(t)[i] != '<' && escape_spec(t)[i] != '>',
    decreases t.len(),
{
    if t.len() > 0 {
        law_escaped_text_has_no_markup(t.drop_last());
        let a = escape_spec(t.drop_last());
        let b = escape_char(t.last());
        assert forall|i: int| 0 <= i < escape_spec(t).len() implies #[trigger] escape_spec(t)[i] != '<' && escape_spec(t)[i] != '>' by {
            if i >= a.len() {
                assert(escape_spec(t)[i] == b[i - a.len()]);
            } else {
                assert(escape_spec(t)[i] == a[i]);
            }
        }
    }
}

/// Text without `<`, `>`, `&`, `'` and `"` is written unchanged.
pub proof fn law_plain_text_is_unchanged(t: Seq<char>)
    requires
        forall|i: int| 0 <= i < t.len() ==> #[trigger] t[i] != '<' && t[i] != '>' && t[i] != '&' && t[i] != '\'' && t[i] != '"',
    ensures
        escape_spec(t) == t,
    decreases t.len(),
{
    if t.len() > 0 {
        let r = t.drop_last();
        assert forall|i: int| 0 <= i < r.len() implies #[trigger] r[i] != '<' && r[i] != '>' && r[i] != '&' && r[i] != '\'' && r[i] != '"' by {
            assert(r[i] == t[i]);
        }
        law_plain_text_is_unchanged(r);
        assert(t[t.len() - 1] == t.last());
        assert(r + seq![t.last()] =~= t);
    }
}

/// One step of the text of a list.
proof fn lemma_list_text_unfold(els: Map<u32, ElementModel>, cs: Seq<ContentModel>, plan: Option<PlanModel>, fuel: nat)
    requires
        cs.len() > 0,
    ensures
        list_text(els, cs, plan, fuel) == match list_text(els, cs.drop_last(), plan, fuel) {
            Err(e) => Err(e),
            Ok(prev) => match cs.last() {
                ContentModel::Element(cid, _, _) => match node_text(els, cid, plan, fuel) {
                    Ok(t) => Ok(prev + t),
                    Err(e) => Err(e),
                },
                ContentModel::Text(t) => Ok(prev + escape_spec(t)),
                ContentModel::Comment(c) => Ok(prev + comment_text(c)),
            },
        },
{
}

/// A failing text of a prefix fails the whole list with the same error.
proof fn lemma_list_text_prefix_err(els: Map<u32, ElementModel>, cs: Seq<ContentModel>, n: int, plan: Option<PlanModel>, fuel: nat)
    requires
        0 <= n <= cs.len(),
        list_text(els, cs.take(n), plan, fuel) is Err,
    ensures
        list_text(els, cs, plan, fuel) == list_text(els, cs.take(n), plan, fuel),
    decreases cs.len() - n,
{
    if n < cs.len() {
        assert(cs.take(n + 1).drop_last() =~= cs.take(n));
        lemma_list_text_prefix_err(els, cs, n + 1, plan, fuel);
    } else {
        assert(cs.take(n) =~= cs);
    }
}

} // verus!
