//! The events that describe a document, and the law that replaying them through the
//! deserializer rebuilds a document that the deserializer built.
use vstd::prelude::*;
use crate::error::ErrorModel;
use crate::dom::element::{ElementModel, ContentModel, tag_ns, contents_or_empty, content_id, push_content};
use crate::dom::document::{DocumentModel, with_element, create_root_spec, insert_child_spec, Placement};
use crate::dom::attribute::AttributeModel;
use crate::dom::namespace::empty_scope;
use crate::dom::element::{new_element_spec, child_item};
use crate::parser::start_tag::{declares_each_alias_once, lemma_start_tag_rebuilds, decl_attrs};
use crate::parser::xml_serializer::{
    xml_declaration_text, attrs_text, attr_text, decl_text, decls_text, escape_spec, comment_text, comments_text,
    node_text, list_text, open_tag_text, element_decls, document_text, serialized_text,
};
use crate::dom::assoc::Pairs;
use crate::dom::attribute::{attribute_ns_name, attribute_from_raw, lemma_attribute_name_roundtrip};
use crate::dom::namespace::scope_local_declarations;
use crate::dom::document::{xmlns_name, tree_fuel};
use crate::dom::element::attrs_or_empty;
use crate::parser::start_tag::event_attrs;
use crate::parser::xml_deserializer::{
    EventModel, ParseState, step_spec, apply_events, initial_state, add_content, open_element, events_document,
};

verus! {

// ---------------------------------------------------------------------
// The events of a document
// ---------------------------------------------------------------------

/// The start-tag event of an element.
pub open spec fn start_event(e: ElementModel) -> EventModel {
    EventModel::Start(tag_ns(e), event_attrs(e))
}

/// The self-closing-tag event of an element.
pub open spec fn empty_event(e: ElementModel) -> EventModel {
    EventModel::Empty(tag_ns(e), event_attrs(e))
}

/// The end-tag event of an element.
pub open spec fn end_event(e: ElementModel) -> EventModel {
    EventModel::End(tag_ns(e))
}

/// The events of element `id` and its subtree: a self-closing tag without a content list,
/// else the start tag, the contents and the end tag. Child elements are followed only
/// through node ids above their parent's.
pub open spec fn node_events(els: Map<u32, ElementModel>, id: u32) -> Seq<EventModel>
    decreases u32::MAX - id, 1nat, 0nat,
{
    if !els.contains_key(id) {
        Seq::empty()
    } else {
        let e = els[id];
        match e.contents {
            None => seq![empty_event(e)],
            Some(cs) => seq![start_event(e)] + list_events(els, id, cs) + seq![end_event(e)],
        }
    }
}

/// The events of the contents `cs` of element `parent`.
pub open spec fn list_events(els: Map<u32, ElementModel>, parent: u32, cs: Seq<ContentModel>) -> Seq<EventModel>
    decreases u32::MAX - parent, 0nat, cs.len(),
{
    if cs.len() == 0 {
        Seq::empty()
    } else {
        list_events(els, parent, cs.drop_last()) + match cs.last() {
            ContentModel::Element(cid, _, _) => if parent < cid {
                node_events(els, cid)
            } else {
                Seq::empty()
            },
            ContentModel::Text(t) => seq![EventModel::Text(t)],
            ContentModel::Comment(c) => seq![EventModel::Comment(c)],
        }
    }
}

/// The last content item of element `x` is a child element with a higher node id.
pub open spec fn has_last_child(els: Map<u32, ElementModel>, x: u32) -> bool {
    let cs = contents_or_empty(els[x]);
    cs.len() > 0 && cs.last() is Element && x < content_id(cs.last())
}

/// The last child element of `x`.
pub open spec fn last_child(els: Map<u32, ElementModel>, x: u32) -> u32 {
    content_id(contents_or_empty(els[x]).last())
}

/// Element `a` is reached from `x` by following last children.
pub open spec fn on_path(els: Map<u32, ElementModel>, x: u32, a: u32) -> bool
    decreases u32::MAX - x,
{
    els.contains_key(x) && (x == a || (has_last_child(els, x) && on_path(els, last_child(els, x), a)))
}

/// The events of the path of last children from `x` down to `a`, without `a`'s own: each
/// start tag followed by the contents before the next element on the path.
pub open spec fn path_events(els: Map<u32, ElementModel>, x: u32, a: u32) -> Seq<EventModel>
    decreases u32::MAX - x,
{
    if x == a || !els.contains_key(x) || !has_last_child(els, x) {
        Seq::empty()
    } else {
        let cs = contents_or_empty(els[x]);
        seq![start_event(els[x])] + list_events(els, x, cs.drop_last()) + path_events(els, last_child(els, x), a)
    }
}

/// The events of an open element: its start tag and its contents so far.
pub open spec fn open_events_at(els: Map<u32, ElementModel>, a: u32) -> Seq<EventModel> {
    seq![start_event(els[a])] + list_events(els, a, contents_or_empty(els[a]))
}

// ---------------------------------------------------------------------
// Ancestors
// ---------------------------------------------------------------------

/// `k` is `c` or lies below it along parent links (each to a lower node id).
pub open spec fn is_desc(els: Map<u32, ElementModel>, k: u32, c: u32) -> bool
    decreases k,
{
    els.contains_key(k) && (k == c || match els[k].parent_id {
        Some(p) => p < k && is_desc(els, p, c),
        None => false,
    })
}

/// Parent links and child items agree: each child item names a stored element, with a
/// higher node id, whose parent is the element listing it.
pub open spec fn links_ok(els: Map<u32, ElementModel>) -> bool {
    forall|k: u32, i: int|
        #![trigger els[k], contents_or_empty(els[k])[i]]
        els.contains_key(k) && 0 <= i < contents_or_empty(els[k]).len()
            && contents_or_empty(els[k])[i] is Element ==> {
            let cid = content_id(contents_or_empty(els[k])[i]);
            &&& k < cid
            &&& els.contains_key(cid)
            &&& els[cid].parent_id == Some(k)
        }
}

proof fn lemma_desc_le(els: Map<u32, ElementModel>, k: u32, c: u32)
    requires
        is_desc(els, k, c),
    ensures
        c <= k,
        els.contains_key(c),
    decreases k,
{
    if k != c {
        lemma_desc_le(els, els[k].parent_id->Some_0, c);
    }
}

proof fn lemma_desc_trans(els: Map<u32, ElementModel>, k: u32, g: u32, c: u32)
    requires
        is_desc(els, k, g),
        is_desc(els, g, c),
    ensures
        is_desc(els, k, c),
    decreases k,
{
    if k != g {
        lemma_desc_trans(els, els[k].parent_id->Some_0, g, c);
    }
}

/// The ancestors of a node lie on one chain.
proof fn lemma_desc_linear(els: Map<u32, ElementModel>, a: u32, u: u32, v: u32)
    requires
        is_desc(els, a, u),
        is_desc(els, a, v),
    ensures
        is_desc(els, u, v) || is_desc(els, v, u),
    decreases a,
{
    if a != u && a != v {
        lemma_desc_linear(els, els[a].parent_id->Some_0, u, v);
    }
}

/// A child listed by `c` lies below `c`.
proof fn lemma_child_desc(els: Map<u32, ElementModel>, c: u32, i: int)
    requires
        links_ok(els),
        els.contains_key(c),
        0 <= i < contents_or_empty(els[c]).len(),
        contents_or_empty(els[c])[i] is Element,
    ensures
        is_desc(els, content_id(contents_or_empty(els[c])[i]), c),
        c < content_id(contents_or_empty(els[c])[i]),
{
    let cid = content_id(contents_or_empty(els[c])[i]);
    assert(els.contains_key(cid) && els[cid].parent_id == Some(c) && c < cid);
    assert(is_desc(els, c, c));
}

// ---------------------------------------------------------------------
// Frames: events depend only on the subtree
// ---------------------------------------------------------------------

/// Two element maps agree on the subtree of `c`.
pub open spec fn agree_below(els: Map<u32, ElementModel>, els2: Map<u32, ElementModel>, c: u32) -> bool {
    forall|k: u32| #[trigger] is_desc(els, k, c) ==> els2.contains_key(k) && els2[k] == els[k]
}

proof fn lemma_frame_node(els: Map<u32, ElementModel>, els2: Map<u32, ElementModel>, id: u32)
    requires
        links_ok(els),
        els.contains_key(id),
        agree_below(els, els2, id),
    ensures
        node_events(els2, id) == node_events(els, id),
    decreases u32::MAX - id, 1nat, 0nat,
{
    assert(is_desc(els, id, id));
    let e = els[id];
    match e.contents {
        None => {},
        Some(cs) => {
            assert(cs == contents_or_empty(els[id]).take(cs.len() as int));
            assert forall|i: int| 0 <= i < cs.len() && cs[i] is Element implies agree_below(
                els,
                els2,
                #[trigger] content_id(cs[i]),
            ) by {
                lemma_child_desc(els, id, i);
                let cid = content_id(cs[i]);
                assert forall|k: u32| #[trigger] is_desc(els, k, cid) implies els2.contains_key(k) && els2[k] == els[k] by {
                    lemma_desc_trans(els, k, cid, id);
                }
            }
            lemma_frame_list(els, els2, id, cs);
        },
    }
}

proof fn lemma_frame_list(els: Map<u32, ElementModel>, els2: Map<u32, ElementModel>, p: u32, cs: Seq<ContentModel>)
    requires
        links_ok(els),
        els.contains_key(p),
        cs.len() <= contents_or_empty(els[p]).len(),
        cs == contents_or_empty(els[p]).take(cs.len() as int),
        forall|i: int| 0 <= i < cs.len() && cs[i] is Element ==> agree_below(els, els2, #[trigger] content_id(cs[i])),
    ensures
        list_events(els2, p, cs) == list_events(els, p, cs),
    decreases u32::MAX - p, 0nat, cs.len(),
{
    if cs.len() > 0 {
        let all = contents_or_empty(els[p]);
        let n = cs.len() - 1;
        assert(cs.drop_last() == all.take(n));
        assert forall|i: int| 0 <= i < cs.drop_last().len() && cs.drop_last()[i] is Element implies agree_below(
            els,
            els2,
            #[trigger] content_id(cs.drop_last()[i]),
        ) by {
            assert(cs.drop_last()[i] == cs[i]);
        }
        lemma_frame_list(els, els2, p, cs.drop_last());
        assert(cs.last() == all[n]);
        if cs.last() is Element {
            lemma_child_desc(els, p, n);
            let cid = content_id(cs.last());
            assert(agree_below(els, els2, content_id(cs[n])));
            lemma_frame_node(els, els2, cid);
        }
    }
}

/// Child element ids increase along each content list.
pub open spec fn children_increasing(els: Map<u32, ElementModel>) -> bool {
    forall|k: u32, i: int, j: int|
        #![trigger contents_or_empty(els[k])[i], contents_or_empty(els[k])[j]]
        els.contains_key(k) && 0 <= i < j < contents_or_empty(els[k]).len()
            && contents_or_empty(els[k])[i] is Element && contents_or_empty(els[k])[j] is Element
            ==> content_id(contents_or_empty(els[k])[i]) < content_id(contents_or_empty(els[k])[j])
}

// ---------------------------------------------------------------------
// Paths of last children
// ---------------------------------------------------------------------

proof fn lemma_path_le(els: Map<u32, ElementModel>, x: u32, a: u32)
    requires
        on_path(els, x, a),
    ensures
        x <= a,
        els.contains_key(a),
    decreases u32::MAX - x,
{
    if x != a {
        lemma_path_le(els, last_child(els, x), a);
    }
}

/// The end of a path lies below each of its elements, and below the next one.
proof fn lemma_path_desc(els: Map<u32, ElementModel>, x: u32, a: u32)
    requires
        links_ok(els),
        on_path(els, x, a),
    ensures
        is_desc(els, a, x),
        x != a ==> is_desc(els, a, last_child(els, x)),
    decreases u32::MAX - x,
{
    if x == a {
        assert(is_desc(els, a, a));
    } else {
        let c = last_child(els, x);
        lemma_path_desc(els, c, a);
        let n = contents_or_empty(els[x]).len() - 1;
        lemma_child_desc(els, x, n);
        lemma_desc_trans(els, a, c, x);
    }
}

/// The end of a path lies below no earlier child of an element on the path.
proof fn lemma_path_not_below_sibling(els: Map<u32, ElementModel>, x: u32, a: u32, i: int)
    requires
        links_ok(els),
        children_increasing(els),
        on_path(els, x, a),
        x != a,
        0 <= i < contents_or_empty(els[x]).len() - 1,
        contents_or_empty(els[x])[i] is Element,
    ensures
        !is_desc(els, a, content_id(contents_or_empty(els[x])[i])),
{
    let cs = contents_or_empty(els[x]);
    let n = cs.len() - 1;
    let ci = content_id(cs[i]);
    let ck = content_id(cs[n]);
    assert(ci < ck);
    lemma_path_desc(els, x, a);
    lemma_child_desc(els, x, i);
    lemma_child_desc(els, x, n);
    if is_desc(els, a, ci) {
        lemma_desc_linear(els, a, ci, ck);
        if is_desc(els, ci, ck) {
            lemma_desc_le(els, ci, ck);
        } else {
            assert(ck != ci);
            assert(els[ck].parent_id == Some(x));
            assert(is_desc(els, x, ci));
            lemma_desc_le(els, x, ci);
        }
    }
}

/// Maps that agree on every element but `a`, and both hold `a`: the path to `a` and its
/// events are the same in both.
proof fn lemma_path_frame(els: Map<u32, ElementModel>, els2: Map<u32, ElementModel>, x: u32, a: u32)
    requires
        links_ok(els),
        children_increasing(els),
        on_path(els, x, a),
        els2.contains_key(a),
        forall|k: u32| els.contains_key(k) && k != a ==> #[trigger] els2.contains_key(k) && els2[k] == els[k],
    ensures
        on_path(els2, x, a),
        path_events(els2, x, a) == path_events(els, x, a),
    decreases u32::MAX - x,
{
    if x != a {
        let c = last_child(els, x);
        lemma_path_frame(els, els2, c, a);
        let cs = contents_or_empty(els[x]);
        let pre = cs.drop_last();
        assert(els2.contains_key(x));
        assert(els2[x] == els[x]);
        assert forall|i: int| 0 <= i < pre.len() && pre[i] is Element implies agree_below(
            els,
            els2,
            #[trigger] content_id(pre[i]),
        ) by {
            assert(pre[i] == cs[i]);
            lemma_path_not_below_sibling(els, x, a, i);
            let ci = content_id(pre[i]);
            assert forall|k: u32| #[trigger] is_desc(els, k, ci) implies els2.contains_key(k) && els2[k] == els[k] by {
                if k == a {
                    assert(false);
                }
                assert(els2.contains_key(k));
            }
        }
        assert(pre == cs.take(pre.len() as int));
        lemma_frame_list(els, els2, x, pre);
    }
}

/// A path to `a` followed by a path from `a` to `b` is a path to `b`.
proof fn lemma_path_join(els: Map<u32, ElementModel>, x: u32, a: u32, b: u32)
    requires
        on_path(els, x, a),
        on_path(els, a, b),
    ensures
        on_path(els, x, b),
        path_events(els, x, b) == path_events(els, x, a) + path_events(els, a, b),
    decreases u32::MAX - x,
{
    if x == a {
        assert(path_events(els, x, a) == Seq::<EventModel>::empty());
        assert(path_events(els, x, b) =~= path_events(els, x, a) + path_events(els, a, b));
    } else {
        lemma_path_le(els, x, a);
        lemma_path_le(els, a, b);
        let c = last_child(els, x);
        lemma_path_join(els, c, a, b);
        let cs = contents_or_empty(els[x]);
        assert(path_events(els, x, b) =~= path_events(els, x, a) + path_events(els, a, b));
    }
}

/// On a path from `x` to `a` below `x`, the parent of `a` is on the path and lists `a` last.
proof fn lemma_path_parent(els: Map<u32, ElementModel>, x: u32, a: u32)
    requires
        links_ok(els),
        on_path(els, x, a),
        x != a,
    ensures
        els[a].parent_id is Some,
        on_path(els, x, els[a].parent_id->Some_0),
        has_last_child(els, els[a].parent_id->Some_0),
        last_child(els, els[a].parent_id->Some_0) == a,
        on_path(els, els[a].parent_id->Some_0, a),
    decreases u32::MAX - x,
{
    let c = last_child(els, x);
    let n = contents_or_empty(els[x]).len() - 1;
    lemma_child_desc(els, x, n);
    if c == a {
        assert(on_path(els, x, x));
    } else {
        lemma_path_parent(els, c, a);
        let p = els[a].parent_id->Some_0;
        lemma_path_le(els, c, p);
    }
}


// ---------------------------------------------------------------------
// Replaying events
// ---------------------------------------------------------------------

/// Prolog comments as comment events.
pub open spec fn comment_events(cs: Seq<Seq<char>>) -> Seq<EventModel> {
    cs.map_values(|c: Seq<char>| EventModel::Comment(c))
}

/// The declaration event of a document.
pub open spec fn decl_event(d: DocumentModel) -> EventModel {
    EventModel::Decl(d.version, d.encoding, d.standalone)
}

/// The events that describe a document: its declaration, its prolog comments, then its
/// root element with its subtree.
pub open spec fn document_events(d: DocumentModel) -> Seq<EventModel> {
    seq![decl_event(d)] + comment_events(d.prolog_comments) + node_events(d.elements, d.root_id)
}

/// The events of the tree while the deserializer is inside it: the elements on the path
/// to the open element are still open.
spec fn open_body(s: ParseState) -> Seq<EventModel> {
    let els = s.doc.elements;
    if !s.root_loaded {
        Seq::empty()
    } else if els.contains_key(s.active) {
        path_events(els, 1, s.active) + open_events_at(els, s.active)
    } else {
        node_events(els, 1)
    }
}

/// The events that lead to a state of the deserializer.
spec fn open_events(s: ParseState) -> Seq<EventModel> {
    seq![decl_event(s.doc)] + comment_events(s.doc.prolog_comments) + open_body(s)
}

/// What holds of every state that the deserializer reaches: node ids from 1 up to the
/// counter, the root first and without parent, consistent parent links with increasing
/// child ids, and the open element at the end of the path of last children.
spec fn built(s: ParseState) -> bool {
    let d = s.doc;
    let els = d.elements;
    &&& d.root_id == 1
    &&& forall|k: u32| #[trigger] els.contains_key(k) <==> 1 <= k <= d.running_id
    &&& s.root_loaded <==> d.running_id >= 1
    &&& (!s.root_loaded ==> s.active == 0)
    &&& (els.contains_key(1) ==> els[1].parent_id is None)
    &&& links_ok(els)
    &&& children_increasing(els)
    &&& no_empty_list(els)
    &&& (s.root_loaded && els.contains_key(s.active) ==> on_path(els, 1, s.active))
}

/// No element has an empty content list.
pub open spec fn no_empty_list(els: Map<u32, ElementModel>) -> bool {
    forall|k: u32| #[trigger] els.contains_key(k) ==> (els[k].contents matches Some(cs) ==> cs.len() > 0)
}

/// Replaying the events that lead to a state reaches that state.
spec fn replays(s: ParseState) -> bool {
    apply_events(initial_state(), open_events(s)) == Ok::<ParseState, ErrorModel>(s)
}

/// No declaration event.
spec fn no_decl(evs: Seq<EventModel>) -> bool {
    forall|i: int| 0 <= i < evs.len() ==> !(#[trigger] evs[i] is Decl)
}

proof fn lemma_apply_push(s: ParseState, a: Seq<EventModel>, ev: EventModel)
    ensures
        apply_events(s, a.push(ev)) == match apply_events(s, a) {
            Ok(x) => step_spec(x, ev),
            Err(e) => Err(e),
        },
{
    assert(a.push(ev).drop_last() =~= a);
}

proof fn lemma_apply_concat(s: ParseState, a: Seq<EventModel>, b: Seq<EventModel>)
    ensures
        apply_events(s, a + b) == match apply_events(s, a) {
            Ok(x) => apply_events(x, b),
            Err(e) => Err(e),
        },
    decreases b.len(),
{
    if b.len() == 0 {
        assert(a + b =~= a);
    } else {
        lemma_apply_concat(s, a, b.drop_last());
        assert((a + b).drop_last() =~= a + b.drop_last());
    }
}

proof fn lemma_no_decl_concat(a: Seq<EventModel>, b: Seq<EventModel>)
    requires
        no_decl(a),
        no_decl(b),
    ensures
        no_decl(a + b),
{
    assert forall|i: int| 0 <= i < (a + b).len() implies !(#[trigger] (a + b)[i] is Decl) by {
        if i >= a.len() {
            assert((a + b)[i] == b[i - a.len()]);
        }
    }
}

proof fn lemma_no_decl_node(els: Map<u32, ElementModel>, id: u32)
    ensures
        no_decl(node_events(els, id)),
    decreases u32::MAX - id, 1nat, 0nat,
{
    if els.contains_key(id) {
        let e = els[id];
        match e.contents {
            None => {},
            Some(cs) => {
                lemma_no_decl_list(els, id, cs);
                lemma_no_decl_concat(seq![start_event(e)], list_events(els, id, cs));
                lemma_no_decl_concat(seq![start_event(e)] + list_events(els, id, cs), seq![end_event(e)]);
            },
        }
    }
}

proof fn lemma_no_decl_list(els: Map<u32, ElementModel>, p: u32, cs: Seq<ContentModel>)
    ensures
        no_decl(list_events(els, p, cs)),
    decreases u32::MAX - p, 0nat, cs.len(),
{
    if cs.len() > 0 {
        lemma_no_decl_list(els, p, cs.drop_last());
        let last = match cs.last() {
            ContentModel::Element(cid, _, _) => if p < cid {
                node_events(els, cid)
            } else {
                Seq::empty()
            },
            ContentModel::Text(t) => seq![EventModel::Text(t)],
            ContentModel::Comment(c) => seq![EventModel::Comment(c)],
        };
        match cs.last() {
            ContentModel::Element(cid, _, _) => if p < cid {
                lemma_no_decl_node(els, cid);
            },
            _ => {},
        }
        lemma_no_decl_concat(list_events(els, p, cs.drop_last()), last);
    }
}

proof fn lemma_no_decl_path(els: Map<u32, ElementModel>, x: u32, a: u32)
    ensures
        no_decl(path_events(els, x, a)),
    decreases u32::MAX - x,
{
    if !(x == a || !els.contains_key(x) || !has_last_child(els, x)) {
        let cs = contents_or_empty(els[x]);
        lemma_no_decl_list(els, x, cs.drop_last());
        lemma_no_decl_path(els, last_child(els, x), a);
        lemma_no_decl_concat(seq![start_event(els[x])], list_events(els, x, cs.drop_last()));
        lemma_no_decl_concat(
            seq![start_event(els[x])] + list_events(els, x, cs.drop_last()),
            path_events(els, last_child(els, x), a),
        );
    }
}

/// The events after the declaration hold no declaration.
proof fn lemma_no_decl_rest(s: ParseState)
    ensures
        no_decl(comment_events(s.doc.prolog_comments) + open_body(s)),
{
    let els = s.doc.elements;
    lemma_no_decl_node(els, 1);
    if s.root_loaded && els.contains_key(s.active) {
        lemma_no_decl_path(els, 1, s.active);
        lemma_no_decl_list(els, s.active, contents_or_empty(els[s.active]));
        lemma_no_decl_concat(seq![start_event(els[s.active])], list_events(els, s.active, contents_or_empty(els[s.active])));
        lemma_no_decl_concat(path_events(els, 1, s.active), open_events_at(els, s.active));
    }
    lemma_no_decl_concat(comment_events(s.doc.prolog_comments), open_body(s));
}

/// The state with other declaration values.
spec fn with_decl(s: ParseState, v: Seq<char>, enc: Seq<char>, sa: Option<Seq<char>>) -> ParseState {
    ParseState { doc: DocumentModel { version: v, encoding: enc, standalone: sa, ..s.doc }, ..s }
}

/// Events other than declarations neither read nor change the declaration values.
proof fn lemma_decl_commute(t: ParseState, r: Seq<EventModel>, v: Seq<char>, enc: Seq<char>, sa: Option<Seq<char>>)
    requires
        no_decl(r),
    ensures
        apply_events(with_decl(t, v, enc, sa), r) == match apply_events(t, r) {
            Ok(x) => Ok(with_decl(x, v, enc, sa)),
            Err(e) => Err(e),
        },
    decreases r.len(),
{
    if r.len() > 0 {
        let rest = r.drop_last();
        assert forall|i: int| 0 <= i < rest.len() implies !(#[trigger] rest[i] is Decl) by {
            assert(rest[i] == r[i]);
        }
        lemma_decl_commute(t, rest, v, enc, sa);
        let ev = r.last();
        assert(!(r[r.len() - 1] is Decl));
        match apply_events(t, rest) {
            Ok(x) => {
                let y = with_decl(x, v, enc, sa);
                assert(step_spec(y, ev) == match step_spec(x, ev) {
                    Ok(z) => Ok(with_decl(z, v, enc, sa)),
                    Err(e) => Err(e),
                });
            },
            Err(e) => {},
        }
    }
}


// ---------------------------------------------------------------------
// Each event keeps the state built and replayable
// ---------------------------------------------------------------------

proof fn lemma_step_decl(s: ParseState, v: Seq<char>, enc: Seq<char>, sa: Option<Seq<char>>)
    requires
        built(s),
    ensures
        built(with_decl(s, v, enc, sa)),
        replays(s) ==> replays(with_decl(s, v, enc, sa)),
{
    if !replays(s) {
        return;
    }
    let s2 = with_decl(s, v, enc, sa);
    let r = comment_events(s.doc.prolog_comments) + open_body(s);
    assert(open_body(s2) == open_body(s));
    assert(open_events(s) =~= seq![decl_event(s.doc)] + r);
    assert(open_events(s2) =~= seq![decl_event(s2.doc)] + r);
    lemma_apply_concat(initial_state(), seq![decl_event(s.doc)], r);
    lemma_apply_concat(initial_state(), seq![decl_event(s2.doc)], r);
    lemma_apply_push(initial_state(), Seq::empty(), decl_event(s.doc));
    lemma_apply_push(initial_state(), Seq::empty(), decl_event(s2.doc));
    assert(Seq::<EventModel>::empty().push(decl_event(s.doc)) == seq![decl_event(s.doc)]);
    assert(Seq::<EventModel>::empty().push(decl_event(s2.doc)) == seq![decl_event(s2.doc)]);
    let t = with_decl(initial_state(), s.doc.version, s.doc.encoding, s.doc.standalone);
    assert(apply_events(initial_state(), seq![decl_event(s.doc)]) == Ok::<ParseState, ErrorModel>(t));
    assert(with_decl(t, v, enc, sa) == with_decl(initial_state(), v, enc, sa));
    lemma_no_decl_rest(s);
    lemma_decl_commute(t, r, v, enc, sa);
}

proof fn lemma_step_prolog_comment(s: ParseState, c: Seq<char>)
    requires
        built(s),
        !s.root_loaded,
    ensures
        built(step_spec(s, EventModel::Comment(c))->Ok_0),
        replays(s) ==> replays(step_spec(s, EventModel::Comment(c))->Ok_0),
        step_spec(s, EventModel::Comment(c)) is Ok,
{
    let s2 = step_spec(s, EventModel::Comment(c))->Ok_0;
    assert(open_body(s) == Seq::<EventModel>::empty());
    assert(open_body(s2) == Seq::<EventModel>::empty());
    assert(comment_events(s2.doc.prolog_comments) =~= comment_events(s.doc.prolog_comments).push(EventModel::Comment(c)));
    assert(open_events(s2) =~= open_events(s).push(EventModel::Comment(c)));
    lemma_apply_push(initial_state(), open_events(s), EventModel::Comment(c));
}

/// The children of an element are framed by any change to that element alone.
proof fn lemma_frame_own_children(els: Map<u32, ElementModel>, els2: Map<u32, ElementModel>, a: u32, cs: Seq<ContentModel>)
    requires
        links_ok(els),
        els.contains_key(a),
        cs.len() <= contents_or_empty(els[a]).len(),
        cs == contents_or_empty(els[a]).take(cs.len() as int),
        forall|k: u32| els.contains_key(k) && k != a ==> #[trigger] els2.contains_key(k) && els2[k] == els[k],
    ensures
        list_events(els2, a, cs) == list_events(els, a, cs),
{
    assert forall|i: int| 0 <= i < cs.len() && cs[i] is Element implies agree_below(els, els2, #[trigger] content_id(cs[i])) by {
        assert(cs[i] == contents_or_empty(els[a])[i]);
        lemma_child_desc(els, a, i);
        let cid = content_id(cs[i]);
        assert forall|k: u32| #[trigger] is_desc(els, k, cid) implies els2.contains_key(k) && els2[k] == els[k] by {
            lemma_desc_le(els, k, cid);
            assert(els2.contains_key(k));
        }
    }
    lemma_frame_list(els, els2, a, cs);
}

/// A text or comment added to the open element.
proof fn lemma_step_content(s: ParseState, c: ContentModel, ev: EventModel)
    requires
        built(s),
        s.root_loaded,
        add_content(s, c) is Ok,
        c is Text || c is Comment,
        c is Text ==> ev == EventModel::Text(c->Text_0),
        c is Comment ==> ev == EventModel::Comment(c->Comment_0),
        step_spec(s, ev) == add_content(s, c),
    ensures
        built(add_content(s, c)->Ok_0),
        replays(s) ==> replays(add_content(s, c)->Ok_0),
{
    let s2 = add_content(s, c)->Ok_0;
    let a = s.active;
    let els = s.doc.elements;
    let els2 = s2.doc.elements;
    assert(els2 == els.insert(a, push_content(els[a], c)));
    let cs = contents_or_empty(els[a]);
    assert(contents_or_empty(els2[a]) == cs.push(c));
    // built
    assert(links_ok(els2)) by {
        assert forall|k: u32, i: int|
            els2.contains_key(k) && 0 <= i < contents_or_empty(els2[k]).len()
                && #[trigger] contents_or_empty(els2[k])[i] is Element implies {
            let cid = content_id(contents_or_empty(els2[k])[i]);
            &&& k < cid
            &&& els2.contains_key(cid)
            &&& els2[cid].parent_id == Some(k)
        } by {
            if k == a {
                assert(i < cs.len());
                assert(contents_or_empty(els2[k])[i] == cs[i]);
                lemma_child_desc(els, a, i);
            } else {
                assert(els2[k] == els[k]);
                lemma_child_desc(els, k, i);
            }
        }
    }
    assert(children_increasing(els2)) by {
        assert forall|k: u32, i: int, j: int|
            els2.contains_key(k) && 0 <= i < j < contents_or_empty(els2[k]).len()
                && #[trigger] contents_or_empty(els2[k])[i] is Element
                && #[trigger] contents_or_empty(els2[k])[j] is Element implies content_id(
            contents_or_empty(els2[k])[i],
        ) < content_id(contents_or_empty(els2[k])[j]) by {
            if k == a {
                assert(contents_or_empty(els2[k])[i] == cs[i]);
                assert(contents_or_empty(els2[k])[j] == cs[j]);
            } else {
                assert(els2[k] == els[k]);
            }
        }
    }
    lemma_path_frame(els, els2, 1, a);
    // replays
    assert(cs =~= cs.take(cs.len() as int));
    lemma_frame_own_children(els, els2, a, cs);
    assert(start_event(els2[a]) == start_event(els[a]));
    assert(cs.push(c).drop_last() =~= cs);
    assert(list_events(els2, a, cs.push(c)) =~= list_events(els2, a, cs).push(ev));
    assert(open_events_at(els2, a) =~= open_events_at(els, a).push(ev));
    assert(open_events(s2) =~= open_events(s).push(ev));
    lemma_apply_push(initial_state(), open_events(s), ev);
}


/// The element that opening `t` with `attrs` stores, before its node id and parent are set.
spec fn opened_element(s: ParseState, t: Seq<char>, attrs: Seq<AttributeModel>) -> ElementModel {
    let ctx = if s.root_loaded {
        s.doc.elements[s.active].scope
    } else {
        empty_scope()
    };
    new_element_spec(t, Some(attrs), ctx)->Ok_0
}

/// Opening an element with the start tag written from it does what opening it did.
proof fn lemma_open_again(s: ParseState, t: Seq<char>, attrs: Seq<AttributeModel>)
    requires
        open_element(s, t, attrs) is Ok,
        declares_each_alias_once(attrs),
        !(t.len() > 0 && t[0] == ':'),
    ensures
        open_element(s, tag_ns(opened_element(s, t, attrs)), event_attrs(opened_element(s, t, attrs)))
            == open_element(s, t, attrs),
{
    let ctx = if s.root_loaded {
        s.doc.elements[s.active].scope
    } else {
        empty_scope()
    };
    lemma_start_tag_rebuilds(t, attrs, ctx);
}

/// The links of a tree with a new last child `id` of `a`.
proof fn lemma_child_links(els: Map<u32, ElementModel>, a: u32, id: u32, ec: ElementModel, item: ContentModel)
    requires
        links_ok(els),
        children_increasing(els),
        els.contains_key(a),
        !els.contains_key(id),
        a < id,
        forall|k: u32| #[trigger] els.contains_key(k) ==> k < id,
        ec.contents is None,
        ec.parent_id == Some(a),
        item is Element && content_id(item) == id,
    ensures
        links_ok(els.insert(id, ec).insert(a, push_content(els[a], item))),
        children_increasing(els.insert(id, ec).insert(a, push_content(els[a], item))),
{
    let els2 = els.insert(id, ec).insert(a, push_content(els[a], item));
    let cs = contents_or_empty(els[a]);
    assert(contents_or_empty(els2[a]) == cs.push(item));
    assert forall|i: int| 0 <= i < cs.len() && cs[i] is Element implies content_id(#[trigger] cs[i]) < id by {
        lemma_child_desc(els, a, i);
    }
    assert(links_ok(els2)) by {
        assert forall|k: u32, i: int|
            els2.contains_key(k) && 0 <= i < contents_or_empty(els2[k]).len()
                && #[trigger] contents_or_empty(els2[k])[i] is Element implies {
            let cid = content_id(contents_or_empty(els2[k])[i]);
            &&& k < cid
            &&& els2.contains_key(cid)
            &&& els2[cid].parent_id == Some(k)
        } by {
            if k == a {
                if i < cs.len() {
                    assert(contents_or_empty(els2[k])[i] == cs[i]);
                    lemma_child_desc(els, a, i);
                }
            } else if k == id {
            } else {
                assert(els2[k] == els[k]);
                lemma_child_desc(els, k, i);
            }
        }
    }
    assert(children_increasing(els2)) by {
        assert forall|k: u32, i: int, j: int|
            els2.contains_key(k) && 0 <= i < j < contents_or_empty(els2[k]).len()
                && #[trigger] contents_or_empty(els2[k])[i] is Element
                && #[trigger] contents_or_empty(els2[k])[j] is Element implies content_id(
            contents_or_empty(els2[k])[i],
        ) < content_id(contents_or_empty(els2[k])[j]) by {
            if k == a {
                assert(contents_or_empty(els2[k])[i] == cs[i]);
                if j < cs.len() {
                    assert(contents_or_empty(els2[k])[j] == cs[j]);
                }
            } else if k == id {
            } else {
                assert(els2[k] == els[k]);
            }
        }
    }
}

/// Opening the root.
proof fn lemma_open_root(s: ParseState, t: Seq<char>, attrs: Seq<AttributeModel>, is_start: bool)
    requires
        built(s),
        !s.root_loaded,
        open_element(s, t, attrs) is Ok,
    ensures
        ({
            let (s1, id) = open_element(s, t, attrs)->Ok_0;
            let s2 = if is_start { ParseState { active: id, ..s1 } } else { s1 };
            let e0 = opened_element(s, t, attrs);
            let ev = if is_start { start_event(e0) } else { empty_event(e0) };
            built(s2) && open_events(s2) == open_events(s).push(ev)
        }),
{
    let (s1, id) = open_element(s, t, attrs)->Ok_0;
    let s2 = if is_start { ParseState { active: id, ..s1 } } else { s1 };
    let e0 = opened_element(s, t, attrs);
    let ev = if is_start { start_event(e0) } else { empty_event(e0) };
    let els = s.doc.elements;
    let els2 = s2.doc.elements;
    let ec = ElementModel { id: id, ..e0 };
    assert(id == 1);
    assert(els2 =~= Map::<u32, ElementModel>::empty().insert(1, ec));
    assert(els =~= Map::<u32, ElementModel>::empty());
    assert(links_ok(els2));
    assert(children_increasing(els2));
    assert(start_event(ec) == start_event(e0));
    assert(empty_event(ec) == empty_event(e0));
    if is_start {
        assert(on_path(els2, 1, 1));
        assert(path_events(els2, 1, 1) == Seq::<EventModel>::empty());
        assert(list_events(els2, 1, Seq::empty()) == Seq::<EventModel>::empty());
        assert(open_body(s2) =~= seq![start_event(ec)]);
    } else {
        assert(open_body(s2) =~= seq![empty_event(ec)]);
    }
    assert(open_body(s) == Seq::<EventModel>::empty());
    assert(open_events(s2) =~= open_events(s).push(ev));
}

/// Opening a child of the open element.
proof fn lemma_open_child(s: ParseState, t: Seq<char>, attrs: Seq<AttributeModel>, is_start: bool)
    requires
        built(s),
        s.root_loaded,
        open_element(s, t, attrs) is Ok,
    ensures
        ({
            let (s1, id) = open_element(s, t, attrs)->Ok_0;
            let s2 = if is_start { ParseState { active: id, ..s1 } } else { s1 };
            let e0 = opened_element(s, t, attrs);
            let ev = if is_start { start_event(e0) } else { empty_event(e0) };
            built(s2) && open_events(s2) == open_events(s).push(ev)
        }),
{
    let (s1, id) = open_element(s, t, attrs)->Ok_0;
    let s2 = if is_start { ParseState { active: id, ..s1 } } else { s1 };
    let e0 = opened_element(s, t, attrs);
    let ev = if is_start { start_event(e0) } else { empty_event(e0) };
    let d = s.doc;
    let els = d.elements;
    let n = d.running_id;
    let els2 = s2.doc.elements;
    let a = s.active;
    assert(els.contains_key(a));
    let ec = ElementModel { id: id, parent_id: Some(a), ..e0 };
    let cs = contents_or_empty(els[a]);
    let item = child_item(id, ec.tag, tag_ns(ec));
    assert(id == n + 1);
    assert(els2 =~= els.insert(id, ec).insert(a, push_content(els[a], item)));
    lemma_child_links(els, a, id, ec, item);
    assert(contents_or_empty(els2[a]) == cs.push(item));
    lemma_path_frame(els, els2, 1, a);
    assert(cs =~= cs.take(cs.len() as int));
    lemma_frame_own_children(els, els2, a, cs);
    assert(start_event(els2[a]) == start_event(els[a]));
    assert(cs.push(item).drop_last() =~= cs);
    assert(start_event(ec) == start_event(e0));
    assert(empty_event(ec) == empty_event(e0));
    if is_start {
        assert(has_last_child(els2, a) && last_child(els2, a) == id);
        assert(on_path(els2, id, id));
        assert(on_path(els2, a, id));
        lemma_path_join(els2, 1, a, id);
        assert(path_events(els2, id, id) == Seq::<EventModel>::empty());
        assert(path_events(els2, a, id) =~= seq![start_event(els[a])] + list_events(els, a, cs));
        assert(list_events(els2, id, Seq::empty()) == Seq::<EventModel>::empty());
        assert(open_events_at(els2, id) =~= seq![start_event(ec)]);
        assert(open_body(s2) =~= open_body(s).push(ev));
    } else {
        assert(list_events(els2, a, cs.push(item)) =~= list_events(els2, a, cs) + node_events(els2, id));
        assert(node_events(els2, id) =~= seq![empty_event(ec)]);
        assert(open_events_at(els2, a) =~= open_events_at(els, a).push(ev));
        assert(open_body(s2) =~= open_body(s).push(ev));
    }
    assert(open_events(s2) =~= open_events(s).push(ev));
}

/// A start or self-closing tag opens an element: the root first, then children of the open
/// element; a start tag makes the new element the open one.
proof fn lemma_step_open(s: ParseState, t: Seq<char>, attrs: Seq<AttributeModel>, is_start: bool)
    requires
        built(s),
        open_element(s, t, attrs) is Ok,
    ensures
        ({
            let (s1, id) = open_element(s, t, attrs)->Ok_0;
            let s2 = if is_start { ParseState { active: id, ..s1 } } else { s1 };
            &&& built(s2)
            &&& replays(s) && declares_each_alias_once(attrs) && !(t.len() > 0 && t[0] == ':') ==> replays(s2)
        }),
{
    let e0 = opened_element(s, t, attrs);
    let ev = if is_start { start_event(e0) } else { empty_event(e0) };
    if s.root_loaded {
        lemma_open_child(s, t, attrs, is_start);
    } else {
        lemma_open_root(s, t, attrs, is_start);
    }
    if replays(s) && declares_each_alias_once(attrs) && !(t.len() > 0 && t[0] == ':') {
        lemma_open_again(s, t, attrs);
        lemma_apply_push(initial_state(), open_events(s), ev);
    }
}


/// Replaying up to an open element with no contents, then closing it, is replaying up to
/// its parent with that element self-closing.
proof fn lemma_reopen_as_empty(x: Seq<EventModel>, s: ParseState, e: ElementModel, p: u32)
    requires
        apply_events(initial_state(), x.push(start_event(e))) == Ok::<ParseState, ErrorModel>(s),
        s.doc.elements.contains_key(s.active),
        s.doc.elements[s.active].parent_id == Some(p),
    ensures
        apply_events(initial_state(), x.push(empty_event(e))) == Ok::<ParseState, ErrorModel>(
            ParseState { active: p, ..s },
        ),
{
    lemma_apply_push(initial_state(), x, start_event(e));
    lemma_apply_push(initial_state(), x, empty_event(e));
    let sx = apply_events(initial_state(), x)->Ok_0;
    let t = tag_ns(e);
    let at = event_attrs(e);
    let (s1, id) = open_element(sx, t, at)->Ok_0;
    assert(s == ParseState { active: id, ..s1 });
    if sx.root_loaded {
        let (d2, r) = insert_child_spec(sx.doc, sx.active, t, Some(at), Placement::Append);
        assert(s1.doc == d2);
        assert(id == r->Ok_0);
        assert(d2.elements[id].parent_id == Some(sx.active));
    } else {
        let (d2, r) = create_root_spec(sx.doc, t, Some(at));
        assert(d2.elements[id].parent_id is None);
    }
}

/// An end tag closes the open element; the open element becomes its parent.
proof fn lemma_step_end(s: ParseState, name: Seq<char>)
    requires
        built(s),
        step_spec(s, EventModel::End(name)) is Ok,
    ensures
        built(step_spec(s, EventModel::End(name))->Ok_0),
        replays(s) ==> replays(step_spec(s, EventModel::End(name))->Ok_0),
        step_spec(s, EventModel::End(name))->Ok_0.doc == s.doc,
        s.doc.elements[s.active].parent_id is Some ==> step_spec(s, EventModel::End(name))->Ok_0.active
            == s.doc.elements[s.active].parent_id->Some_0,
        s.doc.elements[s.active].parent_id is Some ==> s.doc.elements[s.active].parent_id->Some_0 < s.active,
{
    let s2 = step_spec(s, EventModel::End(name))->Ok_0;
    let els = s.doc.elements;
    let a = s.active;
    let e = els[a];
    assert(els.contains_key(a));
    assert(s.root_loaded);
    match e.parent_id {
        None => {
            assert(s2 == s);
        },
        Some(p) => {
            assert(a != 1);
            lemma_path_parent(els, 1, a);
            assert(p < a);
            lemma_path_join(els, 1, p, a);
            let csp = contents_or_empty(els[p]);
            assert(path_events(els, a, a) == Seq::<EventModel>::empty());
            assert(path_events(els, p, a) =~= seq![start_event(els[p])] + list_events(els, p, csp.drop_last()));
            assert(list_events(els, p, csp) == list_events(els, p, csp.drop_last()) + node_events(els, a));
            assert(open_body(s2) =~= path_events(els, 1, a) + node_events(els, a));
            let x = seq![decl_event(s.doc)] + comment_events(s.doc.prolog_comments) + path_events(els, 1, a);
            if replays(s) {
                match e.contents {
                    Some(cs) => {
                        assert(node_events(els, a) =~= open_events_at(els, a).push(end_event(e)));
                        assert(open_events(s2) =~= open_events(s).push(end_event(e)));
                        lemma_apply_push(initial_state(), open_events(s), end_event(e));
                    },
                    None => {
                        assert(list_events(els, a, Seq::empty()) == Seq::<EventModel>::empty());
                        assert(open_events(s) =~= x.push(start_event(e)));
                        assert(open_events(s2) =~= x.push(empty_event(e)));
                        lemma_reopen_as_empty(x, s, e, p);
                    },
                }
            }
        },
    }
}

/// The events that the deserializer reads again as they were read: start and self-closing
/// tags whose names do not start with `:` and that declare no alias twice.
pub open spec fn rereadable(ev: EventModel) -> bool {
    match ev {
        EventModel::Start(t, a) => declares_each_alias_once(a) && !(t.len() > 0 && t[0] == ':'),
        EventModel::Empty(t, a) => declares_each_alias_once(a) && !(t.len() > 0 && t[0] == ':'),
        _ => true,
    }
}

proof fn lemma_step(s: ParseState, ev: EventModel)
    requires
        built(s),
        step_spec(s, ev) is Ok,
    ensures
        built(step_spec(s, ev)->Ok_0),
        replays(s) && rereadable(ev) ==> replays(step_spec(s, ev)->Ok_0),
{
    match ev {
        EventModel::Decl(v, enc, sa) => {
            lemma_step_decl(s, v, enc, sa);
            assert(step_spec(s, ev)->Ok_0 == with_decl(s, v, enc, sa));
        },
        EventModel::Start(t, a) => {
            lemma_step_open(s, t, a, true);
        },
        EventModel::Empty(t, a) => {
            lemma_step_open(s, t, a, false);
        },
        EventModel::Text(t) => {
            lemma_step_content(s, ContentModel::Text(t), ev);
        },
        EventModel::Comment(c) => {
            if s.root_loaded {
                lemma_step_content(s, ContentModel::Comment(c), ev);
            } else {
                lemma_step_prolog_comment(s, c);
            }
        },
        EventModel::End(name) => {
            lemma_step_end(s, name);
        },
    }
}

/// Every state that the events reach is built and replayable.
proof fn lemma_reached(evs: Seq<EventModel>)
    requires
        apply_events(initial_state(), evs) is Ok,
    ensures
        built(apply_events(initial_state(), evs)->Ok_0),
        (forall|i: int| 0 <= i < evs.len() ==> rereadable(#[trigger] evs[i])) ==> replays(
            apply_events(initial_state(), evs)->Ok_0,
        ),
    decreases evs.len(),
{
    if evs.len() == 0 {
        let s = initial_state();
        assert(open_body(s) == Seq::<EventModel>::empty());
        assert(comment_events(s.doc.prolog_comments) =~= Seq::<EventModel>::empty());
        assert(open_events(s) =~= Seq::<EventModel>::empty().push(decl_event(s.doc)));
        lemma_apply_push(s, Seq::empty(), decl_event(s.doc));
        assert(links_ok(s.doc.elements));
        assert(children_increasing(s.doc.elements));
    } else {
        let rest = evs.drop_last();
        if forall|i: int| 0 <= i < evs.len() ==> rereadable(#[trigger] evs[i]) {
            assert forall|i: int| 0 <= i < rest.len() implies rereadable(#[trigger] rest[i]) by {
                assert(rest[i] == evs[i]);
            }
            assert(evs.last() == evs[evs.len() - 1]);
        }
        lemma_reached(rest);
        lemma_step(apply_events(initial_state(), rest)->Ok_0, evs.last());
    }
}

/// From a built and replayable state, the events of its document rebuild its document.
proof fn lemma_close(s: ParseState)
    requires
        built(s),
        replays(s),
    ensures
        apply_events(initial_state(), document_events(s.doc)) is Ok,
        apply_events(initial_state(), document_events(s.doc))->Ok_0.doc == s.doc,
    decreases s.active,
{
    let els = s.doc.elements;
    let x = seq![decl_event(s.doc)] + comment_events(s.doc.prolog_comments);
    assert(document_events(s.doc) == x + node_events(els, 1));
    if !s.root_loaded {
        assert(!els.contains_key(1));
        assert(document_events(s.doc) =~= open_events(s));
    } else if !els.contains_key(s.active) {
        assert(document_events(s.doc) =~= open_events(s));
    } else if s.active != 1 {
        let a = s.active;
        let name = tag_ns(els[a]);
        lemma_path_parent(els, 1, a);
        lemma_step_end(s, name);
        let s2 = step_spec(s, EventModel::End(name))->Ok_0;
        lemma_close(s2);
    } else {
        let e = els[1];
        assert(path_events(els, 1, 1) == Seq::<EventModel>::empty());
        match e.contents {
            Some(cs) => {
                assert(document_events(s.doc) =~= open_events(s).push(end_event(e)));
                lemma_apply_push(initial_state(), open_events(s), end_event(e));
            },
            None => {
                assert(list_events(els, 1, Seq::empty()) == Seq::<EventModel>::empty());
                assert(open_events(s) =~= x.push(start_event(e)));
                assert(document_events(s.doc) =~= x.push(empty_event(e)));
                lemma_apply_push(initial_state(), x, start_event(e));
                lemma_apply_push(initial_state(), x, empty_event(e));
            },
        }
    }
}

/// Replaying the events that describe a document the deserializer built (its declaration,
/// its prolog comments, then its tree as start, self-closing and end tags, texts and
/// comments) builds the same document again; for events whose tag names do not start with
/// `:` and that declare no namespace alias twice.
pub proof fn law_replayed_events_rebuild_the_document(evs: Seq<EventModel>)
    requires
        events_document(evs) is Ok,
        forall|i: int| 0 <= i < evs.len() ==> rereadable(#[trigger] evs[i]),
    ensures
        events_document(document_events(events_document(evs)->Ok_0)) == events_document(evs),
{
    lemma_reached(evs);
    let s = apply_events(initial_state(), evs)->Ok_0;
    lemma_close(s);
}


// ---------------------------------------------------------------------
// The text of events
// ---------------------------------------------------------------------

/// The XML text of one event; texts are escaped, everything else is written as it stands.
pub open spec fn event_text(ev: EventModel) -> Seq<char> {
    match ev {
        EventModel::Decl(v, enc, sa) => xml_declaration_text(v, enc, sa),
        EventModel::Start(t, a) => seq!['<'] + t + attrs_text(a) + seq!['>'],
        EventModel::Empty(t, a) => seq!['<'] + t + attrs_text(a) + seq!['/', '>'],
        EventModel::End(t) => seq!['<', '/'] + t + seq!['>'],
        EventModel::Text(t) => escape_spec(t),
        EventModel::Comment(c) => comment_text(c),
    }
}

/// The XML text of events, in order.
pub open spec fn events_text(evs: Seq<EventModel>) -> Seq<char>
    decreases evs.len(),
{
    if evs.len() == 0 {
        Seq::empty()
    } else {
        events_text(evs.drop_last()) + event_text(evs.last())
    }
}

proof fn lemma_events_text_concat(a: Seq<EventModel>, b: Seq<EventModel>)
    ensures
        events_text(a + b) == events_text(a) + events_text(b),
    decreases b.len(),
{
    if b.len() == 0 {
        assert(a + b =~= a);
        assert(events_text(a) + events_text(b) =~= events_text(a));
    } else {
        lemma_events_text_concat(a, b.drop_last());
        assert((a + b).drop_last() =~= a + b.drop_last());
        assert(events_text(a + b) =~= events_text(a) + events_text(b));
    }
}

proof fn lemma_attrs_text_concat(a: Seq<AttributeModel>, b: Seq<AttributeModel>)
    ensures
        attrs_text(a + b) == attrs_text(a) + attrs_text(b),
    decreases b.len(),
{
    if b.len() == 0 {
        assert(a + b =~= a);
        assert(attrs_text(a) + attrs_text(b) =~= attrs_text(a));
    } else {
        lemma_attrs_text_concat(a, b.drop_last());
        assert((a + b).drop_last() =~= a + b.drop_last());
        assert(attrs_text(a + b) =~= attrs_text(a) + attrs_text(b));
    }
}

/// Declarations written as `xmlns` attributes read as the declarations.
proof fn lemma_decl_attrs_text(ds: Pairs)
    ensures
        attrs_text(decl_attrs(ds)) == decls_text(ds),
    decreases ds.len(),
{
    if ds.len() > 0 {
        lemma_decl_attrs_text(ds.drop_last());
        assert(decl_attrs(ds).drop_last() =~= decl_attrs(ds.drop_last()));
        let (al, u) = ds.last();
        let n = xmlns_name(al);
        if al.len() == 0 {
            assert(n == seq!['x', 'm', 'l', 'n', 's']);
        } else {
            assert(n == seq!['x', 'm', 'l', 'n', 's', ':'] + al);
        }
        lemma_attribute_name_roundtrip(n, u);
        assert(decl_attrs(ds).last() == attribute_from_raw(n, u));
        assert(attr_text(attribute_from_raw(n, u)) =~= decl_text(al, u));
    }
}

/// The inside of an element's start tag, without a namespace plan, is its tag and its
/// start-tag attributes.
proof fn lemma_open_tag_text(e: ElementModel, id: u32)
    ensures
        open_tag_text(e, id, None) == tag_ns(e) + attrs_text(event_attrs(e)),
{
    let d = if e.ns_override {
        decl_attrs(scope_local_declarations(e.scope))
    } else {
        Seq::empty()
    };
    lemma_attrs_text_concat(d, attrs_or_empty(e));
    if e.ns_override {
        lemma_decl_attrs_text(scope_local_declarations(e.scope));
    } else {
        assert(attrs_text(d) == Seq::<char>::empty());
        assert(element_decls(e, id, None) == Seq::<char>::empty());
    }
    assert(open_tag_text(e, id, None) =~= tag_ns(e) + attrs_text(event_attrs(e)));
}

/// Without a plan, the serializer writes an element as the text of its events, given fuel
/// for every node id above it.
#[verifier::spinoff_prover]
#[verifier::rlimit(40)]
proof fn lemma_node_text(els: Map<u32, ElementModel>, n: u32, id: u32, f: nat)
    requires
        links_ok(els),
        no_empty_list(els),
        forall|k: u32| #[trigger] els.contains_key(k) ==> k <= n,
        els.contains_key(id),
        f >= 1 + n - id,
    ensures
        node_text(els, id, None, f) == Ok::<Seq<char>, crate::error::XmlError>(events_text(node_events(els, id))),
    decreases u32::MAX - id, 1nat, 0nat,
{
    let e = els[id];
    lemma_open_tag_text(e, id);
    match e.contents {
        None => {
            reveal_with_fuel(events_text, 2);
            assert(node_events(els, id) == seq![empty_event(e)]);
            assert(seq![empty_event(e)].drop_last() =~= Seq::<EventModel>::empty());
            assert(node_text(els, id, None, f)->Ok_0 =~= event_text(empty_event(e)));
        },
        Some(cs) => {
            assert(cs =~= cs.take(cs.len() as int));
            lemma_list_text(els, n, id, cs, (f - 1) as nat);
            let inner = list_events(els, id, cs);
            lemma_events_text_concat(seq![start_event(e)], inner);
            lemma_events_text_concat(seq![start_event(e)] + inner, seq![end_event(e)]);
            reveal_with_fuel(events_text, 2);
            assert(seq![start_event(e)].drop_last() =~= Seq::<EventModel>::empty());
            assert(seq![end_event(e)].drop_last() =~= Seq::<EventModel>::empty());
            assert(node_text(els, id, None, f)->Ok_0 =~= events_text(node_events(els, id)));
        },
    }
}

proof fn lemma_list_text(els: Map<u32, ElementModel>, n: u32, p: u32, cs: Seq<ContentModel>, f: nat)
    requires
        links_ok(els),
        no_empty_list(els),
        forall|k: u32| #[trigger] els.contains_key(k) ==> k <= n,
        els.contains_key(p),
        cs.len() <= contents_or_empty(els[p]).len(),
        cs == contents_or_empty(els[p]).take(cs.len() as int),
        f >= n - p,
    ensures
        list_text(els, cs, None, f) == Ok::<Seq<char>, crate::error::XmlError>(events_text(list_events(els, p, cs))),
    decreases u32::MAX - p, 0nat, cs.len(),
{
    if cs.len() > 0 {
        let all = contents_or_empty(els[p]);
        let m = cs.len() - 1;
        assert(cs.drop_last() == all.take(m));
        lemma_list_text(els, n, p, cs.drop_last(), f);
        assert(cs.last() == all[m]);
        let prev = list_events(els, p, cs.drop_last());
        match cs.last() {
            ContentModel::Element(cid, _, _) => {
                lemma_child_desc(els, p, m);
                lemma_node_text(els, n, cid, f);
                lemma_events_text_concat(prev, node_events(els, cid));
            },
            ContentModel::Text(t) => {
                lemma_events_text_concat(prev, seq![EventModel::Text(t)]);
                reveal_with_fuel(events_text, 2);
                assert(seq![EventModel::Text(t)].drop_last() =~= Seq::<EventModel>::empty());
            },
            ContentModel::Comment(c) => {
                lemma_events_text_concat(prev, seq![EventModel::Comment(c)]);
                reveal_with_fuel(events_text, 2);
                assert(seq![EventModel::Comment(c)].drop_last() =~= Seq::<EventModel>::empty());
            },
        }
    }
}

proof fn lemma_comments_text(cs: Seq<Seq<char>>)
    ensures
        events_text(comment_events(cs)) == comments_text(cs),
    decreases cs.len(),
{
    if cs.len() > 0 {
        lemma_comments_text(cs.drop_last());
        assert(comment_events(cs).drop_last() =~= comment_events(cs.drop_last()));
    }
}

/// The serializer, without namespace optimization, writes a document that the
/// deserializer built as the text of the events that describe it, once it has a root.
pub proof fn law_serialized_text_is_the_text_of_the_events(evs: Seq<EventModel>)
    requires
        events_document(evs) is Ok,
        events_document(evs)->Ok_0.elements.contains_key(events_document(evs)->Ok_0.root_id),
    ensures
        serialized_text(events_document(evs)->Ok_0, false) == Ok::<Seq<char>, crate::error::XmlError>(
            events_text(document_events(events_document(evs)->Ok_0)),
        ),
{
    lemma_reached(evs);
    let s = apply_events(initial_state(), evs)->Ok_0;
    let d = s.doc;
    let els = d.elements;
    lemma_node_text(els, d.running_id, 1, tree_fuel(d));
    let x = seq![decl_event(d)] + comment_events(d.prolog_comments);
    lemma_events_text_concat(seq![decl_event(d)], comment_events(d.prolog_comments));
    lemma_events_text_concat(x, node_events(els, 1));
    lemma_comments_text(d.prolog_comments);
    reveal_with_fuel(events_text, 2);
    assert(seq![decl_event(d)].drop_last() =~= Seq::<EventModel>::empty());
    assert(events_text(document_events(d)) =~= xml_declaration_text(d.version, d.encoding, d.standalone)
        + comments_text(d.prolog_comments) + events_text(node_events(els, 1)));
}

} // verus!
