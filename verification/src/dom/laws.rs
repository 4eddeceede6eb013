//! Laws of the document model: what reads give back after writes.
use vstd::prelude::*;
use crate::error::XmlError;
use crate::seqs::{first_match, last_match, find_first, find_last, lemma_first_match, lemma_last_match, lemma_find_first, lemma_find_last};
use crate::dom::attribute::{AttributeModel, attribute_ns_name};
use crate::dom::element::{
    ElementModel, ContentModel, attrs_or_empty, contents_or_empty, insert_attribute_spec,
    replace_attribute_spec, remove_attribute_spec, kept_attrs, attribute_where, attr_query, attr_matches,
    same_ns_name, with_contents, without_texts, text_concat, last_id_where, any_child,
    content_id, declare_resolved, first_id_where, ids_where, declare_all, attr_in_uri, first_text,
    insert_before, insert_after, insert_before_tag, insert_before_tag_ns, insert_after_tag,
    insert_after_tag_ns, push_content,
};
use crate::dom::namespace::{NamespaceDeclaration, ScopeModel, law_added_binding_reads_back, scope_wf, scope_url, scope_alias, scope_add, scope_clear_local, resolve_spec};
use crate::dom::assoc::{lookup, assoc_remove, lemma_put};
use crate::dom::document::{
    DocumentModel, Placement, insert_child_spec, remove_spec, without_child, clear_node, clear_ids, tree_fuel,
    with_element, first_by_attr, all_by_attr, has_attr_value, clear_content_spec, create_root_spec,
    link_child, children_of, insert_ns_child_spec, ns_child_tag,
};
use crate::validation::law_name_cannot_start_with_punctuation_or_digit;
use crate::text::is_ascii_digit;
use crate::dom::element::{child_item, tag_ns};

verus! {

// ---------------------------------------------------------------------
// Lookups by namespace, the text value, and where children are inserted
// ---------------------------------------------------------------------

/// A lookup of an attribute by namespace URI and local name gives the first attribute with
/// that local name whose alias resolves to that URI in the element's scope; an attribute
/// without an alias is in no namespace and is never found. When there is none, it gives
/// nothing.
pub proof fn law_attribute_by_uri_is_in_that_namespace(e: ElementModel, uri: Seq<char>, local: Seq<char>)
    ensures
        ({
            let attrs = attrs_or_empty(e);
            match attribute_where(e, |x: AttributeModel| attr_in_uri(x, e.scope, uri, local)) {
                Some(a) => {
                    &&& a.name == local
                    &&& a.ns_alias is Some
                    &&& scope_url(e.scope, a.ns_alias->Some_0) == Some(uri)
                    &&& exists|i: int| 0 <= i < attrs.len() && attrs[i] == a && forall|j: int| 0 <= j < i ==> !(
                        (#[trigger] attrs[j]).name == local && attrs[j].ns_alias is Some
                            && scope_url(e.scope, attrs[j].ns_alias->Some_0) == Some(uri))
                },
                None => forall|i: int| 0 <= i < attrs.len() ==> !((#[trigger] attrs[i]).name == local
                    && attrs[i].ns_alias is Some && scope_url(e.scope, attrs[i].ns_alias->Some_0) == Some(uri)),
            }
        }),
{
    let p = |x: AttributeModel| attr_in_uri(x, e.scope, uri, local);
    match e.attributes {
        Some(attrs) => {
            lemma_find_first(attrs, p);
            match find_first(attrs, p) {
                Some(i) => {
                    assert(p(attrs[i]));
                    assert forall|j: int| 0 <= j < i implies !(
                        (#[trigger] attrs[j]).name == local && attrs[j].ns_alias is Some
                            && scope_url(e.scope, attrs[j].ns_alias->Some_0) == Some(uri)) by {
                        assert(!p(attrs[j]));
                    }
                },
                None => {
                    assert forall|i: int| 0 <= i < attrs.len() implies !((#[trigger] attrs[i]).name == local
                        && attrs[i].ns_alias is Some && scope_url(e.scope, attrs[i].ns_alias->Some_0) == Some(uri)) by {
                        assert(!p(attrs[i]));
                    }
                },
            }
        },
        None => {},
    }
}

/// A lookup of an attribute by name gives the first attribute whose namespaced name is the
/// name, when the name holds a `:`, or else whose local name is the name; when there is
/// none, it gives nothing.
pub proof fn law_attribute_by_name_is_first_match(e: ElementModel, q: Seq<char>)
    ensures
        ({
            let attrs = attrs_or_empty(e);
            match attribute_where(e, attr_query(q)) {
                Some(a) => {
                    &&& (if q.contains(':') { attribute_ns_name(a) == q } else { a.name == q })
                    &&& exists|i: int| 0 <= i < attrs.len() && attrs[i] == a && forall|j: int| 0 <= j < i ==> !(
                        if q.contains(':') { attribute_ns_name(#[trigger] attrs[j]) == q } else { attrs[j].name == q })
                },
                None => forall|i: int| 0 <= i < attrs.len() ==> !(
                    if q.contains(':') { attribute_ns_name(#[trigger] attrs[i]) == q } else { attrs[i].name == q }),
            }
        }),
{
    let p = attr_query(q);
    match e.attributes {
        Some(attrs) => {
            lemma_find_first(attrs, p);
            match find_first(attrs, p) {
                Some(i) => {
                    assert(p(attrs[i]));
                    assert forall|j: int| 0 <= j < i implies !(
                        if q.contains(':') { attribute_ns_name(#[trigger] attrs[j]) == q } else { attrs[j].name == q }) by {
                        assert(!p(attrs[j]));
                    }
                },
                None => {
                    assert forall|i: int| 0 <= i < attrs.len() implies !(
                        if q.contains(':') { attribute_ns_name(#[trigger] attrs[i]) == q } else { attrs[i].name == q }) by {
                        assert(!p(attrs[i]));
                    }
                },
            }
        },
        None => {},
    }
}

/// The text content of contents joined from two parts is the text content of the first
/// part followed by that of the second; a text node contributes its text, and any other
/// item nothing.
pub proof fn law_text_content_joins_texts_in_order(a: Seq<ContentModel>, b: Seq<ContentModel>, t: Seq<char>, x: ContentModel)
    ensures
        text_concat(a + b) == text_concat(a) + text_concat(b),
        text_concat(seq![ContentModel::Text(t)]) == t,
        !(x is Text) ==> text_concat(seq![x]) == Seq::<char>::empty(),
        text_concat(Seq::<ContentModel>::empty()) == Seq::<char>::empty(),
    decreases b.len(),
{
    let none = Seq::<ContentModel>::empty();
    assert(text_concat(none) == Seq::<char>::empty());
    assert(seq![ContentModel::Text(t)].drop_last() =~= none);
    assert(seq![ContentModel::Text(t)].last() == ContentModel::Text(t));
    assert(text_concat(seq![ContentModel::Text(t)]) == text_concat(none) + t);
    assert(Seq::<char>::empty() + t =~= t);
    assert(seq![x].drop_last() =~= none);
    assert(seq![x].last() == x);
    if !(x is Text) {
        assert(text_concat(seq![x]) == text_concat(none) + Seq::<char>::empty());
        assert(Seq::<char>::empty() + Seq::<char>::empty() =~= Seq::<char>::empty());
    }
    if b.len() == 0 {
        assert(a + b =~= a);
        assert(text_concat(a) + Seq::<char>::empty() =~= text_concat(a));
    } else {
        law_text_content_joins_texts_in_order(a, b.drop_last(), t, x);
        assert((a + b).drop_last() =~= a + b.drop_last());
        assert((a + b).last() == b.last());
        let tail = match b.last() {
            ContentModel::Text(s) => s,
            _ => Seq::<char>::empty(),
        };
        assert(text_concat(a) + text_concat(b.drop_last()) + tail =~= text_concat(a) + (text_concat(b.drop_last()) + tail));
    }
}

/// The text value of contents is the text of their first text node, and there is none when
/// they hold no text node.
pub proof fn law_text_value_is_the_first_text(cs: Seq<ContentModel>)
    ensures
        match first_text(cs) {
            Some(t) => exists|i: int| 0 <= i < cs.len() && cs[i] == ContentModel::Text(t) && forall|j: int|
                0 <= j < i ==> !((#[trigger] cs[j]) is Text),
            None => forall|i: int| 0 <= i < cs.len() ==> !((#[trigger] cs[i]) is Text),
        },
{
    let p = |c: ContentModel| c is Text;
    lemma_find_first(cs, p);
    match find_first(cs, p) {
        Some(i) => {
            assert(cs[i] is Text);
            assert(cs[i] == ContentModel::Text(cs[i]->Text_0));
            assert forall|j: int| 0 <= j < i implies !((#[trigger] cs[j]) is Text) by {
                assert(!p(cs[j]));
            }
        },
        None => {
            assert forall|i: int| 0 <= i < cs.len() implies !((#[trigger] cs[i]) is Text) by {
                assert(!p(cs[i]));
            }
        },
    }
}

/// Inserting before the first item satisfying `p`: the new item goes in at one index, the
/// others keep their order; no item before it satisfies `p`; the item right after it does,
/// unless none does, and then it goes to the front.
pub proof fn law_insert_before_first_match(e: ElementModel, c: ContentModel, p: spec_fn(ContentModel) -> bool) -> (i: int)
    ensures
        0 <= i <= contents_or_empty(e).len(),
        insert_before(e, c, p) == with_contents(e, contents_or_empty(e).insert(i, c)),
        forall|j: int| 0 <= j < i ==> !p(#[trigger] contents_or_empty(e)[j]),
        (exists|j: int| 0 <= j < contents_or_empty(e).len() && p(#[trigger] contents_or_empty(e)[j])) ==> (i < contents_or_empty(e).len() && p(contents_or_empty(e)[i])),
        (forall|j: int| 0 <= j < contents_or_empty(e).len() ==> !p(#[trigger] contents_or_empty(e)[j])) ==> i == 0,
{
    let cs = contents_or_empty(e);
    lemma_find_first(cs, p);
    match find_first(cs, p) {
        Some(i) => {
            assert(p(cs[i]));
            i
        },
        None => {
            assert(forall|j: int| 0 <= j < cs.len() ==> !p(#[trigger] cs[j]));
            0
        },
    }
}

/// Inserting after the last item satisfying `p`: the new item goes in at one index, the
/// others keep their order; no item after it satisfies `p`; the item right before it does,
/// unless none does, and then it goes to the end.
pub proof fn law_insert_after_last_match(e: ElementModel, c: ContentModel, p: spec_fn(ContentModel) -> bool) -> (i: int)
    ensures
        0 <= i <= contents_or_empty(e).len(),
        insert_after(e, c, p) == with_contents(e, contents_or_empty(e).insert(i, c)),
        forall|j: int| i <= j < contents_or_empty(e).len() ==> !p(#[trigger] contents_or_empty(e)[j]),
        (exists|j: int| 0 <= j < contents_or_empty(e).len() && p(#[trigger] contents_or_empty(e)[j])) ==> (i > 0 && p(contents_or_empty(e)[i - 1])),
        (forall|j: int| 0 <= j < contents_or_empty(e).len() ==> !p(#[trigger] contents_or_empty(e)[j])) ==> i == contents_or_empty(e).len(),
{
    let cs = contents_or_empty(e);
    lemma_find_last(cs, p);
    match find_last(cs, p) {
        Some(i) => {
            assert(p(cs[i]));
            i + 1
        },
        None => {
            assert(cs.push(c) =~= cs.insert(cs.len() as int, c));
            assert(forall|j: int| 0 <= j < cs.len() ==> !p(#[trigger] cs[j]));
            cs.len() as int
        },
    }
}

/// Inserting a child before the first child element with local tag `q`: no child before
/// the new one has that tag; the one right after it does, unless no child has it, and then
/// the new child goes to the front. The other contents keep their order.
pub proof fn law_insert_before_first_tag(e: ElementModel, c: ContentModel, q: Seq<char>) -> (i: int)
    ensures
        0 <= i <= contents_or_empty(e).len(),
        insert_before_tag(e, c, q) == with_contents(e, contents_or_empty(e).insert(i, c)),
        forall|j: int| 0 <= j < i ==> !((#[trigger] contents_or_empty(e)[j]) is Element && contents_or_empty(e)[j]->Element_1 == q),
        (exists|j: int| 0 <= j < contents_or_empty(e).len() && (#[trigger] contents_or_empty(e)[j]) is Element && contents_or_empty(e)[j]->Element_1 == q) ==> (i < contents_or_empty(e).len()
            && contents_or_empty(e)[i] is Element && contents_or_empty(e)[i]->Element_1 == q),
        (forall|j: int| 0 <= j < contents_or_empty(e).len() ==> !((#[trigger] contents_or_empty(e)[j]) is Element && contents_or_empty(e)[j]->Element_1 == q)) ==> i == 0,
{
    let cs = contents_or_empty(e);
    let p = |x: ContentModel| crate::dom::element::child_tag_is(x, q);
    let i = law_insert_before_first_match(e, c, p);
    assert forall|j: int| 0 <= j < cs.len() implies p(#[trigger] cs[j]) == (cs[j] is Element && cs[j]->Element_1 == q) by {}
    i
}

/// Inserting a child before the first child element with namespaced tag `q`: no child
/// before the new one has that namespaced tag; the one right after it does, unless no child
/// has it, and then the new child goes to the front. The other contents keep their order.
pub proof fn law_insert_before_first_tag_ns(e: ElementModel, c: ContentModel, q: Seq<char>) -> (i: int)
    ensures
        0 <= i <= contents_or_empty(e).len(),
        insert_before_tag_ns(e, c, q) == with_contents(e, contents_or_empty(e).insert(i, c)),
        forall|j: int| 0 <= j < i ==> !((#[trigger] contents_or_empty(e)[j]) is Element && contents_or_empty(e)[j]->Element_2 == q),
        (exists|j: int| 0 <= j < contents_or_empty(e).len() && (#[trigger] contents_or_empty(e)[j]) is Element && contents_or_empty(e)[j]->Element_2 == q) ==> (i < contents_or_empty(e).len()
            && contents_or_empty(e)[i] is Element && contents_or_empty(e)[i]->Element_2 == q),
        (forall|j: int| 0 <= j < contents_or_empty(e).len() ==> !((#[trigger] contents_or_empty(e)[j]) is Element && contents_or_empty(e)[j]->Element_2 == q)) ==> i == 0,
{
    let cs = contents_or_empty(e);
    let p = |x: ContentModel| crate::dom::element::child_tag_ns_is(x, q);
    let i = law_insert_before_first_match(e, c, p);
    assert forall|j: int| 0 <= j < cs.len() implies p(#[trigger] cs[j]) == (cs[j] is Element && cs[j]->Element_2 == q) by {}
    i
}

/// Inserting a child after the last child element with local tag `q`: no child after the
/// new one has that tag; the one right before it does, unless no child has it, and then the
/// new child goes to the end. The other contents keep their order.
pub proof fn law_insert_after_last_tag(e: ElementModel, c: ContentModel, q: Seq<char>) -> (i: int)
    ensures
        0 <= i <= contents_or_empty(e).len(),
        insert_after_tag(e, c, q) == with_contents(e, contents_or_empty(e).insert(i, c)),
        forall|j: int| i <= j < contents_or_empty(e).len() ==> !((#[trigger] contents_or_empty(e)[j]) is Element && contents_or_empty(e)[j]->Element_1 == q),
        (exists|j: int| 0 <= j < contents_or_empty(e).len() && (#[trigger] contents_or_empty(e)[j]) is Element && contents_or_empty(e)[j]->Element_1 == q) ==> (i > 0
            && contents_or_empty(e)[i - 1] is Element && contents_or_empty(e)[i - 1]->Element_1 == q),
        (forall|j: int| 0 <= j < contents_or_empty(e).len() ==> !((#[trigger] contents_or_empty(e)[j]) is Element && contents_or_empty(e)[j]->Element_1 == q)) ==> i == contents_or_empty(e).len(),
{
    let cs = contents_or_empty(e);
    let p = |x: ContentModel| crate::dom::element::child_tag_is(x, q);
    let i = law_insert_after_last_match(e, c, p);
    assert forall|j: int| 0 <= j < cs.len() implies p(#[trigger] cs[j]) == (cs[j] is Element && cs[j]->Element_1 == q) by {}
    i
}

/// Inserting a child after the last child element with namespaced tag `q`: no child after
/// the new one has that namespaced tag; the one right before it does, unless no child has
/// it, and then the new child goes to the end. The other contents keep their order.
pub proof fn law_insert_after_last_tag_ns(e: ElementModel, c: ContentModel, q: Seq<char>) -> (i: int)
    ensures
        0 <= i <= contents_or_empty(e).len(),
        insert_after_tag_ns(e, c, q) == with_contents(e, contents_or_empty(e).insert(i, c)),
        forall|j: int| i <= j < contents_or_empty(e).len() ==> !((#[trigger] contents_or_empty(e)[j]) is Element && contents_or_empty(e)[j]->Element_2 == q),
        (exists|j: int| 0 <= j < contents_or_empty(e).len() && (#[trigger] contents_or_empty(e)[j]) is Element && contents_or_empty(e)[j]->Element_2 == q) ==> (i > 0
            && contents_or_empty(e)[i - 1] is Element && contents_or_empty(e)[i - 1]->Element_2 == q),
        (forall|j: int| 0 <= j < contents_or_empty(e).len() ==> !((#[trigger] contents_or_empty(e)[j]) is Element && contents_or_empty(e)[j]->Element_2 == q)) ==> i == contents_or_empty(e).len(),
{
    let cs = contents_or_empty(e);
    let p = |x: ContentModel| crate::dom::element::child_tag_ns_is(x, q);
    let i = law_insert_after_last_match(e, c, p);
    assert forall|j: int| 0 <= j < cs.len() implies p(#[trigger] cs[j]) == (cs[j] is Element && cs[j]->Element_2 == q) by {}
    i
}

/// Appending a child puts it after all the contents, which keep their order.
pub proof fn law_append_goes_last(e: ElementModel, c: ContentModel)
    ensures
        push_content(e, c) == with_contents(e, contents_or_empty(e).insert(contents_or_empty(e).len() as int, c)),
{
    assert(contents_or_empty(e).push(c) =~= contents_or_empty(e).insert(contents_or_empty(e).len() as int, c));
}

/// Every attribute of `e` with the local name of `a` also has its namespaced name: a
/// lookup of `a` by local name cannot stop at another attribute first.
pub open spec fn local_name_unshared(e: ElementModel, a: AttributeModel) -> bool {
    forall|i: int|
        0 <= i < attrs_or_empty(e).len() && (#[trigger] attrs_or_empty(e)[i]).name == a.name
            ==> attribute_ns_name(attrs_or_empty(e)[i]) == attribute_ns_name(a)
}

/// A query by the namespaced name of `a` matches exactly the attributes with that
/// namespaced name, when it holds a `:` or no other attribute shares the local name.
proof fn lemma_query_by_ns_name(e: ElementModel, a: AttributeModel, x: AttributeModel)
    requires
        attribute_ns_name(a).contains(':') || local_name_unshared(e, a),
        x == a || attrs_or_empty(e).contains(x),
    ensures
        attr_query(attribute_ns_name(a))(x) <==> same_ns_name(x, a),
{
    let q = attribute_ns_name(a);
    if !q.contains(':') {
        match a.ns_alias {
            Some(al) => {
                if al.len() > 0 {
                    assert(q[al.len() as int] == ':');
                }
            },
            None => {},
        }
        assert(a.name == q);
        if x != a {
            let i = choose|i: int| 0 <= i < attrs_or_empty(e).len() && attrs_or_empty(e)[i] == x;
            assert(attrs_or_empty(e)[i] == x);
            if x.name == q {
                assert(attribute_ns_name(x) == q);
            }
            if attribute_ns_name(x) == q {
                match x.ns_alias {
                    Some(al) => {
                        if al.len() > 0 {
                            assert(attribute_ns_name(x)[al.len() as int] == ':');
                        }
                    },
                    None => {},
                }
            }
        }
    }
}

/// An attribute that was added is what a lookup by its namespaced name finds (a lookup
/// without a prefix goes by local name, so no other attribute may share that name).
pub proof fn law_added_attribute_is_found(e: ElementModel, a: AttributeModel)
    requires
        insert_attribute_spec(e, a).1 is Ok,
        attribute_ns_name(a).contains(':') || local_name_unshared(e, a),
    ensures
        attribute_where(insert_attribute_spec(e, a).0, attr_query(attribute_ns_name(a))) == Some(a),
{
    let attrs = attrs_or_empty(e);
    let s = attrs.push(a);
    let p = attr_query(attribute_ns_name(a));
    assert forall|j: int| 0 <= j < attrs.len() implies !p(#[trigger] s[j]) by {
        assert(s[j] == attrs[j]);
        assert(attrs.contains(attrs[j]));
        lemma_query_by_ns_name(e, a, attrs[j]);
        assert(!same_ns_name(attrs[j], a));
    }
    lemma_query_by_ns_name(e, a, a);
    assert(s[attrs.len() as int] == a);
    assert(first_match(s, p, attrs.len() as int));
    lemma_first_match(s, p, attrs.len() as int);
}

/// An attribute that was added or replaced is what a lookup by its namespaced name finds
/// (a lookup without a prefix goes by local name, so no attribute with another namespaced
/// name may share that local name).
pub proof fn law_replaced_attribute_is_found(e: ElementModel, a: AttributeModel)
    requires
        replace_attribute_spec(e, a).1 is Ok,
        attribute_ns_name(a).contains(':') || local_name_unshared(e, a),
    ensures
        attribute_where(replace_attribute_spec(e, a).0, attr_query(attribute_ns_name(a))) == Some(a),
{
    let attrs = attrs_or_empty(e);
    let p = attr_query(attribute_ns_name(a));
    let same = |x: AttributeModel| same_ns_name(x, a);
    lemma_find_first(attrs, same);
    match crate::seqs::find_first(attrs, same) {
        Some(i) => {
            let s = attrs.update(i, a);
            assert forall|j: int| 0 <= j < i implies !p(#[trigger] s[j]) by {
                assert(s[j] == attrs[j]);
                assert(attrs.contains(attrs[j]));
                lemma_query_by_ns_name(e, a, attrs[j]);
            }
            lemma_query_by_ns_name(e, a, a);
            assert(first_match(s, p, i));
            lemma_first_match(s, p, i);
        },
        None => {
            let s = attrs.push(a);
            assert forall|j: int| 0 <= j < attrs.len() implies !p(#[trigger] s[j]) by {
                assert(s[j] == attrs[j]);
                assert(attrs.contains(attrs[j]));
                lemma_query_by_ns_name(e, a, attrs[j]);
            }
            lemma_query_by_ns_name(e, a, a);
            assert(s[attrs.len() as int] == a);
            assert(first_match(s, p, attrs.len() as int));
            lemma_first_match(s, p, attrs.len() as int);
        },
    }
}

/// After removing the attributes matching a query, none matches it.
pub proof fn law_removed_attribute_is_absent(e: ElementModel, q: Seq<char>)
    ensures
        attribute_where(remove_attribute_spec(e, q), attr_query(q)) is None,
{
    match e.attributes {
        Some(attrs) => {
            let kept = kept_attrs(attrs, q);
            lemma_kept_attrs_reject(attrs, q);
            lemma_find_first(kept, attr_query(q));
        },
        None => {},
    }
}

/// The attributes kept after removing those matching `q` match `q` no more.
proof fn lemma_kept_attrs_reject(attrs: Seq<AttributeModel>, q: Seq<char>)
    ensures
        forall|j: int| 0 <= j < kept_attrs(attrs, q).len() ==> !attr_matches(#[trigger] kept_attrs(attrs, q)[j], q),
    decreases attrs.len(),
{
    if attrs.len() > 0 {
        let rest = attrs.drop_last();
        lemma_kept_attrs_reject(rest, q);
        let kr = kept_attrs(rest, q);
        let k = kept_attrs(attrs, q);
        assert(k == if attr_matches(attrs.last(), q) {
            kr
        } else {
            kr + seq![attrs.last()]
        });
        assert forall|j: int| 0 <= j < k.len() implies !attr_matches(#[trigger] k[j], q) by {
            if j < kr.len() {
                assert(k[j] == kr[j]);
            }
        }
    }
}

/// The text contents without their texts hold no text.
proof fn lemma_no_text_left(cs: Seq<ContentModel>)
    ensures
        text_concat(without_texts(cs)) == Seq::<char>::empty(),
    decreases cs.len(),
{
    if cs.len() > 0 {
        lemma_no_text_left(cs.drop_last());
        let f = |c: ContentModel| if c is Text { None } else { Some(c) };
        let w = without_texts(cs);
        if !(cs.last() is Text) {
            assert(w.drop_last() == without_texts(cs.drop_last()));
        }
    }
}

/// After the text of an element is set, its text content is exactly that text.
pub proof fn law_set_text_then_text_content(e: ElementModel, t: Seq<char>)
    ensures
        text_concat(
            contents_or_empty(with_contents(e, without_texts(contents_or_empty(e)).push(ContentModel::Text(t)))),
        ) == t,
{
    let w = without_texts(contents_or_empty(e));
    lemma_no_text_left(contents_or_empty(e));
    assert(w.push(ContentModel::Text(t)).drop_last() =~= w);
    assert(Seq::<char>::empty() + t =~= t);
}

/// An appended child is stored with its parent recorded, and it is its parent's last child
/// element.
pub proof fn law_appended_child_is_last(d: DocumentModel, parent: u32, tag: Seq<char>, attrs: Option<Seq<AttributeModel>>)
    requires
        insert_child_spec(d, parent, tag, attrs, Placement::Append).1 is Ok,
        d.running_id < u32::MAX,
        parent != d.running_id + 1,
    ensures
        ({
            let (d2, r) = insert_child_spec(d, parent, tag, attrs, Placement::Append);
            let id = r->Ok_0;
            &&& id == d.running_id + 1
            &&& d2.elements.contains_key(id)
            &&& d2.elements[id].parent_id == Some(parent)
            &&& d2.elements.contains_key(parent)
            &&& last_id_where(contents_or_empty(d2.elements[parent]), any_child()) == Some(id)
        }),
{
    let (d2, r) = insert_child_spec(d, parent, tag, attrs, Placement::Append);
    let id = r->Ok_0;
    assert(id == d.running_id + 1);
    assert(d2.elements.contains_key(id));
    assert(d2.elements[id].parent_id == Some(parent));
    let cs = contents_or_empty(d2.elements[parent]);
    assert(cs.len() > 0);
    assert(cs.last() is Element && content_id(cs.last()) == id);
    assert(any_child()(cs[cs.len() - 1]));
    assert(last_match(cs, any_child(), cs.len() - 1));
    lemma_last_match(cs, any_child(), cs.len() - 1);
}

/// The elements left by a removal are elements that were there, unchanged.
proof fn lemma_clear_node_submap(els: Map<u32, ElementModel>, id: u32, fuel: nat)
    ensures
        forall|k: u32| #[trigger] clear_node(els, id, fuel).0.contains_key(k) ==> els.contains_key(k) && clear_node(
            els,
            id,
            fuel,
        ).0[k] == els[k],
    decreases fuel, 0nat, 0nat,
{
    if fuel > 0 && els.contains_key(id) {
        let kids = ids_where(contents_or_empty(els[id]), any_child());
        assert(clear_node(els, id, fuel) == clear_ids(els, kids, (fuel - 1) as nat));
        lemma_clear_ids_submap(els, kids, (fuel - 1) as nat);
    }
}

proof fn lemma_clear_ids_submap(els: Map<u32, ElementModel>, ids: Seq<u32>, fuel: nat)
    ensures
        forall|k: u32| #[trigger] clear_ids(els, ids, fuel).0.contains_key(k) ==> els.contains_key(k) && clear_ids(
            els,
            ids,
            fuel,
        ).0[k] == els[k],
    decreases fuel, 1nat, ids.len(),
{
    if ids.len() > 0 {
        lemma_clear_ids_submap(els, ids.drop_last(), fuel);
        let (m, r) = clear_ids(els, ids.drop_last(), fuel);
        let res = clear_ids(els, ids, fuel).0;
        if r is Ok {
            lemma_clear_node_submap(m, ids.last(), fuel);
            let (m2, r2) = clear_node(m, ids.last(), fuel);
            assert(res == m2.remove(ids.last()) || res == m2);
            assert forall|k: u32| #[trigger] res.contains_key(k) implies els.contains_key(k) && res[k] == els[k] by {
                assert(m2.contains_key(k));
                assert(m.contains_key(k));
            }
        } else {
            assert(res == m);
        }
    }
}

/// A successful removal of `ids` leaves none of them.
proof fn lemma_clear_ids_removes(els: Map<u32, ElementModel>, ids: Seq<u32>, fuel: nat)
    requires
        clear_ids(els, ids, fuel).1 is Ok,
    ensures
        forall|i: int| 0 <= i < ids.len() ==> !clear_ids(els, ids, fuel).0.contains_key(#[trigger] ids[i]),
    decreases ids.len(),
{
    if ids.len() > 0 {
        let rest = ids.drop_last();
        let (m, r) = clear_ids(els, rest, fuel);
        lemma_clear_ids_removes(els, rest, fuel);
        lemma_clear_node_submap(m, ids.last(), fuel);
        let m2 = clear_node(m, ids.last(), fuel).0;
        assert forall|i: int| 0 <= i < ids.len() implies !clear_ids(els, ids, fuel).0.contains_key(#[trigger] ids[i]) by {
            if i < ids.len() - 1 {
                assert(ids[i] == rest[i]);
                assert(!m.contains_key(rest[i]));
                assert(!m2.contains_key(rest[i]));
            }
        }
    }
}

/// The child ids of contents without the child items of `x` are the others.
proof fn lemma_without_child_ids(cs: Seq<ContentModel>, x: u32)
    ensures
        forall|j: int|
            0 <= j < ids_where(cs, any_child()).len() && ids_where(cs, any_child())[j] != x ==> ids_where(
                without_child(cs, x),
                any_child(),
            ).contains(#[trigger] ids_where(cs, any_child())[j]),
    decreases cs.len(),
{
    if cs.len() > 0 {
        let rest = cs.drop_last();
        lemma_without_child_ids(rest, x);
        let a = ids_where(rest, any_child());
        let b = ids_where(without_child(rest, x), any_child());
        let c = cs.last();
        let w = without_child(cs, x);
        assert(w == if c is Element && content_id(c) == x {
            without_child(rest, x)
        } else {
            without_child(rest, x) + seq![c]
        });
        assert(w.drop_last() == without_child(rest, x) || w == without_child(rest, x));
        let bw = ids_where(w, any_child());
        if !(c is Element && content_id(c) == x) {
            assert(w.drop_last() =~= without_child(rest, x));
            assert(w.last() == c);
        }
        assert forall|j: int|
            0 <= j < ids_where(cs, any_child()).len() && ids_where(cs, any_child())[j] != x implies bw.contains(
            #[trigger] ids_where(cs, any_child())[j],
        ) by {
            let v = ids_where(cs, any_child())[j];
            if j < a.len() {
                assert(v == a[j]);
                assert(b.contains(v));
                let q = choose|q: int| 0 <= q < b.len() && b[q] == v;
                if !(c is Element && content_id(c) == x) {
                    assert(bw[q] == b[q]);
                }
            } else {
                assert(v == content_id(c));
                assert(bw[bw.len() - 1] == v);
            }
        }
    }
}

/// A removed element is no longer stored, nor are its child elements, and its parent lists
/// it no more.
pub proof fn law_removed_element_is_gone(d: DocumentModel, id: u32)
    requires
        remove_spec(d, id).1 is Ok,
    ensures
        ({
            let d2 = remove_spec(d, id).0;
            &&& !d2.elements.contains_key(id)
            &&& forall|c: int|
                0 <= c < ids_where(contents_or_empty(d.elements[id]), any_child()).len() ==> !d2.elements.contains_key(
                    #[trigger] ids_where(contents_or_empty(d.elements[id]), any_child())[c],
                )
            &&& forall|p: u32| #![trigger d2.elements[p]]
                d.elements[id].parent_id == Some(p) && d2.elements.contains_key(p)
                    ==> forall|k: int| 0 <= k < contents_or_empty(d2.elements[p]).len()
                    ==> !(#[trigger] contents_or_empty(d2.elements[p])[k] is Element && content_id(
                    contents_or_empty(d2.elements[p])[k],
                ) == id)
        }),
{
    let d2 = remove_spec(d, id).0;
    let d1 = match d.elements[id].parent_id {
        Some(p) => if d.elements.contains_key(p) {
            match d.elements[p].contents {
                Some(cs) => with_element(d, p, ElementModel { contents: Some(without_child(cs, id)), ..d.elements[p] }),
                None => d,
            }
        } else {
            d
        },
        None => d,
    };
    let fuel = tree_fuel(d);
    let (m, r) = clear_node(d1.elements, id, fuel);
    assert(d2.elements == m.remove(id));
    lemma_clear_node_submap(d1.elements, id, fuel);
    let kids1 = ids_where(contents_or_empty(d1.elements[id]), any_child());
    lemma_clear_ids_removes(d1.elements, kids1, (fuel - 1) as nat);
    let kids = ids_where(contents_or_empty(d.elements[id]), any_child());
    assert forall|c: int| 0 <= c < kids.len() implies !d2.elements.contains_key(#[trigger] kids[c]) by {
        if kids[c] != id {
            if d1.elements[id] == d.elements[id] {
                assert(kids1[c] == kids[c]);
            } else {
                let p = d.elements[id].parent_id->Some_0;
                assert(p == id);
                let cs = d.elements[id].contents->Some_0;
                assert(contents_or_empty(d1.elements[id]) == without_child(cs, id));
                lemma_without_child_ids(cs, id);
                assert(kids1.contains(kids[c]));
                let q = choose|q: int| 0 <= q < kids1.len() && kids1[q] == kids[c];
                assert(!m.contains_key(kids1[q]));
            }
        }
    }
    match d.elements[id].parent_id {
        Some(p) => {
            if d.elements.contains_key(p) && p != id {
                match d.elements[p].contents {
                    Some(cs) => {
                        lemma_without_child(cs, id);
                    },
                    None => {},
                }
            }
        },
        None => {},
    }
}

/// Clearing the content of an element leaves it stored with no content list, and its
/// child elements are no longer stored.
pub proof fn law_cleared_element_has_no_children(d: DocumentModel, id: u32)
    requires
        clear_content_spec(d, id).1 is Ok,
    ensures
        ({
            let d2 = clear_content_spec(d, id).0;
            &&& d2.elements.contains_key(id)
            &&& d2.elements[id].contents is None
            &&& forall|c: int|
                0 <= c < ids_where(contents_or_empty(d.elements[id]), any_child()).len() ==> !d2.elements.contains_key(
                    #[trigger] ids_where(contents_or_empty(d.elements[id]), any_child())[c],
                )
        }),
{
    let fuel = tree_fuel(d);
    let (m, r) = clear_node(d.elements, id, fuel);
    let kids = ids_where(contents_or_empty(d.elements[id]), any_child());
    assert(clear_node(d.elements, id, fuel) == clear_ids(d.elements, kids, (fuel - 1) as nat));
    lemma_clear_ids_removes(d.elements, kids, (fuel - 1) as nat);
    let d2 = clear_content_spec(d, id).0;
    assert forall|c: int| 0 <= c < kids.len() implies !d2.elements.contains_key(#[trigger] kids[c]) by {
        if kids[c] == id {
            assert(!m.contains_key(kids[c]));
        }
    }
}

/// The contents without the child items of node `id` hold none.
proof fn lemma_without_child(cs: Seq<ContentModel>, id: u32)
    ensures
        forall|k: int| 0 <= k < without_child(cs, id).len() ==> !(#[trigger] without_child(cs, id)[k] is Element
            && content_id(without_child(cs, id)[k]) == id),
    decreases cs.len(),
{
    if cs.len() > 0 {
        lemma_without_child(cs.drop_last(), id);
    }
}

/// Changing one element of a document, as the mutable access to an element allows,
/// leaves every other element as it was, its namespace scope included: a namespace
/// declared on an element never reaches its siblings.
pub proof fn law_element_change_stays_local(d: DocumentModel, id: u32, e: ElementModel, k: u32)
    requires
        k != id,
    ensures
        with_element(d, id, e).elements.contains_key(k) == d.elements.contains_key(k),
        d.elements.contains_key(k) ==> with_element(d, id, e).elements[k] == d.elements[k],
        d.elements.contains_key(k) ==> with_element(d, id, e).elements[k].scope == d.elements[k].scope,
{
}

/// Resolving a declaration gives an alias that the element then binds to the declaration's
/// URI.
pub proof fn law_resolved_alias_is_bound(e: ElementModel, d: NamespaceDeclaration)
    requires
        scope_wf(e.scope),
    ensures
        scope_url(declare_resolved(e, d).scope, resolve_spec(d, e.scope).0) == Some(d.uri@),
{
    let (a, needs) = resolve_spec(d, e.scope);
    if needs {
        let base = if e.ns_override {
            e.scope
        } else {
            scope_clear_local(e.scope)
        };
        lemma_put(base.alias_url, a, d.uri@);
    } else {
        match d.alias_override {
            Some(o) => {},
            None => {
                assert(lookup(e.scope.url_alias, d.uri@) is Some);
            },
        }
    }
}

/// Declaring namespaces whose URIs are already in scope (under the alias each asks for)
/// changes nothing: only missing bindings are added.
pub proof fn law_declared_namespaces_are_reused(e: ElementModel, ds: Seq<NamespaceDeclaration>)
    requires
        forall|i: int| 0 <= i < ds.len() ==> !(#[trigger] resolve_spec(ds[i], e.scope)).1,
    ensures
        declare_all(e, ds) == e,
    decreases ds.len(),
{
    if ds.len() > 0 {
        let rest = ds.drop_last();
        assert forall|i: int| 0 <= i < rest.len() implies !(#[trigger] resolve_spec(rest[i], e.scope)).1 by {
            assert(rest[i] == ds[i]);
        }
        law_declared_namespaces_are_reused(e, rest);
        assert(!resolve_spec(ds[ds.len() - 1], e.scope).1);
    }
}

/// Resolving a declaration a second time gives the same alias and changes nothing more.
pub proof fn law_resolve_is_idempotent(e: ElementModel, d: NamespaceDeclaration)
    requires
        scope_wf(e.scope),
    ensures
        resolve_spec(d, declare_resolved(e, d).scope).0 == resolve_spec(d, e.scope).0,
        declare_resolved(declare_resolved(e, d), d) == declare_resolved(e, d),
{
    let (a, needs) = resolve_spec(d, e.scope);
    if needs {
        let base = if e.ns_override {
            e.scope
        } else {
            scope_clear_local(e.scope)
        };
        let s2 = scope_add(base, a, d.uri@);
        lemma_put(base.alias_url, a, d.uri@);
        let reverse = match lookup(base.alias_url, a) {
            Some(old_url) => if old_url != d.uri@ {
                assoc_remove(base.url_alias, old_url)
            } else {
                base.url_alias
            },
            None => base.url_alias,
        };
        lemma_put(reverse, d.uri@, a);
        assert(scope_url(s2, a) == Some(d.uri@));
        assert(scope_alias(s2, d.uri@) == Some(a));
    }
}

/// The alias a declaration asks for: its override, else its default alias.
pub open spec fn alias_choice(d: NamespaceDeclaration) -> Seq<char> {
    match d.alias_override {
        Some(o) => o@,
        None => d.default_alias@,
    }
}

/// Declarations for different URIs never ask for one alias, nor for an alias that scope
/// `s` binds to another of their URIs.
pub open spec fn declarations_apart(s: ScopeModel, ds: Seq<NamespaceDeclaration>) -> bool {
    forall|i: int, j: int| 0 <= i < ds.len() && 0 <= j < ds.len() && (#[trigger] ds[i]).uri@ != (#[trigger] ds[j]).uri@
        ==> alias_choice(ds[i]) != alias_choice(ds[j]) && scope_url(s, alias_choice(ds[j])) != Some(ds[i].uri@)
}

/// After declarations that keep apart, each of them is in scope, and every alias is bound
/// as before or to the URI of a declaration that asks for it.
proof fn lemma_declare_all_binds(e: ElementModel, ds: Seq<NamespaceDeclaration>)
    requires
        scope_wf(e.scope),
        declarations_apart(e.scope, ds),
    ensures
        scope_wf(declare_all(e, ds).scope),
        forall|i: int| 0 <= i < ds.len() ==> !(#[trigger] resolve_spec(ds[i], declare_all(e, ds).scope)).1,
        forall|a: Seq<char>| #[trigger] scope_url(declare_all(e, ds).scope, a) == scope_url(e.scope, a)
            || exists|m: int| 0 <= m < ds.len() && a == alias_choice(ds[m])
                && scope_url(declare_all(e, ds).scope, a) == Some(ds[m].uri@),
    decreases ds.len(),
{
    if ds.len() > 0 {
        let n = ds.len() - 1;
        let rest = ds.drop_last();
        assert forall|i: int, j: int| 0 <= i < rest.len() && 0 <= j < rest.len() && (#[trigger] rest[i]).uri@ != (#[trigger] rest[j]).uri@
            implies alias_choice(rest[i]) != alias_choice(rest[j]) && scope_url(e.scope, alias_choice(rest[j])) != Some(rest[i].uri@) by {
            assert(rest[i] == ds[i] && rest[j] == ds[j]);
        }
        lemma_declare_all_binds(e, rest);
        let e1 = declare_all(e, rest);
        let s1 = e1.scope;
        let d = ds[n];
        assert(ds.last() == d);
        let u = d.uri@;
        let (a, needs) = resolve_spec(d, s1);
        let e2 = declare_all(e, ds);
        assert(e2 == declare_resolved(e1, d));
        if needs {
            assert(a == alias_choice(d));
            let base = if e1.ns_override { s1 } else { scope_clear_local(s1) };
            assert(base.url_alias == s1.url_alias && base.alias_url == s1.alias_url);
            assert(scope_wf(base)) by {
                assert(base.local.no_duplicates());
            }
            law_added_binding_reads_back(base, a, u);
            let s2 = scope_add(base, a, u);
            assert(e2.scope == s2);
            assert forall|i: int| 0 <= i < ds.len() implies !(#[trigger] resolve_spec(ds[i], s2)).1 by {
                if i < n {
                    let di = ds[i];
                    assert(rest[i] == di);
                    assert(!resolve_spec(rest[i], s1).1);
                    if di.uri@ != u {
                        assert(alias_choice(di) != a);
                        match di.alias_override {
                            Some(o) => {
                                assert(scope_url(s2, o@) == scope_url(s1, o@));
                            },
                            None => {
                                let ui = di.uri@;
                                assert(scope_url(s1, a) != Some(ui)) by {
                                    if scope_url(s1, a) != scope_url(e.scope, a) {
                                        let m = choose|m: int| 0 <= m < rest.len() && a == alias_choice(rest[m])
                                            && scope_url(s1, a) == Some(rest[m].uri@);
                                        assert(rest[m] == ds[m]);
                                        if rest[m].uri@ == ui {
                                            assert(alias_choice(ds[m]) != alias_choice(ds[n]));
                                        }
                                    } else {
                                        assert(scope_url(e.scope, alias_choice(ds[n])) != Some(ds[i].uri@));
                                    }
                                }
                                assert(scope_alias(s2, ui) == scope_alias(s1, ui));
                            },
                        }
                    }
                }
            }
            assert forall|b: Seq<char>| #[trigger] scope_url(s2, b) == scope_url(e.scope, b)
                || exists|m: int| 0 <= m < ds.len() && b == alias_choice(ds[m]) && scope_url(s2, b) == Some(ds[m].uri@) by {
                if b == a {
                    assert(alias_choice(ds[n]) == b);
                } else {
                    assert(scope_url(s2, b) == scope_url(s1, b));
                    if scope_url(s1, b) != scope_url(e.scope, b) {
                        let m = choose|m: int| 0 <= m < rest.len() && b == alias_choice(rest[m])
                            && scope_url(s1, b) == Some(rest[m].uri@);
                        assert(rest[m] == ds[m]);
                    }
                }
            }
        } else {
            assert(e2 == e1);
            assert forall|i: int| 0 <= i < ds.len() implies !(#[trigger] resolve_spec(ds[i], e2.scope)).1 by {
                if i < n {
                    assert(rest[i] == ds[i]);
                }
            }
            assert forall|b: Seq<char>| #[trigger] scope_url(e2.scope, b) == scope_url(e.scope, b)
                || exists|m: int| 0 <= m < ds.len() && b == alias_choice(ds[m]) && scope_url(e2.scope, b) == Some(ds[m].uri@) by {
                if scope_url(s1, b) != scope_url(e.scope, b) {
                    let m = choose|m: int| 0 <= m < rest.len() && b == alias_choice(rest[m])
                        && scope_url(s1, b) == Some(rest[m].uri@);
                    assert(rest[m] == ds[m]);
                }
            }
        }
    }
}

/// After declarations without alias overrides, for distinct URIs, that keep apart, each
/// URI keeps the alias the element already had for it, or else gets its default alias.
pub proof fn law_declared_namespaces_get_their_aliases(e: ElementModel, ds: Seq<NamespaceDeclaration>)
    requires
        scope_wf(e.scope),
        declarations_apart(e.scope, ds),
        forall|i: int| 0 <= i < ds.len() ==> (#[trigger] ds[i]).alias_override is None,
        forall|i: int, j: int| 0 <= i < ds.len() && 0 <= j < ds.len() && i != j ==> (#[trigger] ds[i]).uri@ != (#[trigger] ds[j]).uri@,
    ensures
        forall|i: int| 0 <= i < ds.len() ==> scope_alias(declare_all(e, ds).scope, (#[trigger] ds[i]).uri@) == match scope_alias(e.scope, ds[i].uri@) {
            Some(a) => Some(a),
            None => Some(ds[i].default_alias@),
        },
        forall|v: Seq<char>| (forall|i: int| 0 <= i < ds.len() ==> v != (#[trigger] ds[i]).uri@) && (forall|i: int| 0 <= i < ds.len()
            ==> scope_url(e.scope, alias_choice(#[trigger] ds[i])) != Some(v)) ==> #[trigger] scope_alias(declare_all(e, ds).scope, v)
            == scope_alias(e.scope, v),
    decreases ds.len(),
{
    if ds.len() > 0 {
        let n = ds.len() - 1;
        let rest = ds.drop_last();
        assert forall|i: int, j: int| 0 <= i < rest.len() && 0 <= j < rest.len() && (#[trigger] rest[i]).uri@ != (#[trigger] rest[j]).uri@
            implies alias_choice(rest[i]) != alias_choice(rest[j]) && scope_url(e.scope, alias_choice(rest[j])) != Some(rest[i].uri@) by {
            assert(rest[i] == ds[i] && rest[j] == ds[j]);
        }
        assert forall|i: int| 0 <= i < rest.len() implies (#[trigger] rest[i]).alias_override is None by {
            assert(rest[i] == ds[i]);
        }
        assert forall|i: int, j: int| 0 <= i < rest.len() && 0 <= j < rest.len() && i != j implies (#[trigger] rest[i]).uri@ != (#[trigger] rest[j]).uri@ by {
            assert(rest[i] == ds[i] && rest[j] == ds[j]);
        }
        law_declared_namespaces_get_their_aliases(e, rest);
        lemma_declare_all_binds(e, rest);
        let e1 = declare_all(e, rest);
        let s1 = e1.scope;
        let d = ds[n];
        assert(ds.last() == d);
        let u = d.uri@;
        let e2 = declare_all(e, ds);
        assert(e2 == declare_resolved(e1, d));
        // `u` is none of the earlier URIs, and no earlier choice binds it in `e`
        assert(scope_alias(s1, u) == scope_alias(e.scope, u)) by {
            assert forall|i: int| 0 <= i < rest.len() implies u != (#[trigger] rest[i]).uri@ by {
                assert(rest[i] == ds[i]);
            }
            assert forall|i: int| 0 <= i < rest.len() implies scope_url(e.scope, alias_choice(#[trigger] rest[i])) != Some(u) by {
                assert(rest[i] == ds[i]);
                assert(ds[i].uri@ != ds[n].uri@);
            }
        }
        let (a, needs) = resolve_spec(d, s1);
        if needs {
            let base = if e1.ns_override { s1 } else { scope_clear_local(s1) };
            assert(base.url_alias == s1.url_alias && base.alias_url == s1.alias_url);
            assert(scope_wf(base)) by {
                assert(base.local.no_duplicates());
            }
            law_added_binding_reads_back(base, a, u);
            let s2 = scope_add(base, a, u);
            assert(e2.scope == s2);
            assert(a == d.default_alias@);
            // the default alias is bound in `s1` to none of the URIs that must keep theirs
            assert forall|v: Seq<char>| v != u && scope_url(e.scope, a) != Some(v) && (forall|m: int| 0 <= m < rest.len() ==>
                #[trigger] rest[m].uri@ != v || alias_choice(rest[m]) != a) implies scope_alias(s2, v) == scope_alias(s1, v) by {
                if scope_url(s1, a) == Some(v) {
                    if scope_url(s1, a) != scope_url(e.scope, a) {
                        let m = choose|m: int| 0 <= m < rest.len() && a == alias_choice(rest[m]) && scope_url(s1, a) == Some(rest[m].uri@);
                        assert(rest[m].uri@ != v || alias_choice(rest[m]) != a);
                    }
                }
            }
            assert forall|i: int| 0 <= i < ds.len() implies scope_alias(s2, (#[trigger] ds[i]).uri@) == match scope_alias(e.scope, ds[i].uri@) {
                Some(x) => Some(x),
                None => Some(ds[i].default_alias@),
            } by {
                if i < n {
                    assert(rest[i] == ds[i]);
                    assert(ds[i].uri@ != u);
                    assert(alias_choice(ds[i]) != alias_choice(ds[n]));
                    assert(scope_url(e.scope, alias_choice(ds[n])) != Some(ds[i].uri@));
                    assert forall|m: int| 0 <= m < rest.len() implies #[trigger] rest[m].uri@ != ds[i].uri@ || alias_choice(rest[m]) != a by {
                        assert(rest[m] == ds[m]);
                        if rest[m].uri@ == ds[i].uri@ {
                            assert(m == i);
                        }
                    }
                }
            }
            assert forall|v: Seq<char>| (forall|i: int| 0 <= i < ds.len() ==> v != (#[trigger] ds[i]).uri@) && (forall|i: int| 0 <= i < ds.len()
                ==> scope_url(e.scope, alias_choice(#[trigger] ds[i])) != Some(v)) implies #[trigger] scope_alias(s2, v) == scope_alias(e.scope, v) by {
                assert(v != ds[n].uri@);
                assert(scope_url(e.scope, alias_choice(ds[n])) != Some(v));
                assert forall|i: int| 0 <= i < rest.len() implies v != (#[trigger] rest[i]).uri@ by {
                    assert(rest[i] == ds[i]);
                }
                assert forall|i: int| 0 <= i < rest.len() implies scope_url(e.scope, alias_choice(#[trigger] rest[i])) != Some(v) by {
                    assert(rest[i] == ds[i]);
                }
                assert forall|m: int| 0 <= m < rest.len() implies #[trigger] rest[m].uri@ != v || alias_choice(rest[m]) != a by {
                    assert(rest[m] == ds[m]);
                }
            }
        } else {
            assert(e2 == e1);
            assert forall|i: int| 0 <= i < ds.len() implies scope_alias(e2.scope, (#[trigger] ds[i]).uri@) == match scope_alias(e.scope, ds[i].uri@) {
                Some(x) => Some(x),
                None => Some(ds[i].default_alias@),
            } by {
                if i < n {
                    assert(rest[i] == ds[i]);
                }
            }
            assert forall|v: Seq<char>| (forall|i: int| 0 <= i < ds.len() ==> v != (#[trigger] ds[i]).uri@) && (forall|i: int| 0 <= i < ds.len()
                ==> scope_url(e.scope, alias_choice(#[trigger] ds[i])) != Some(v)) implies #[trigger] scope_alias(e2.scope, v) == scope_alias(e.scope, v) by {
                assert forall|i: int| 0 <= i < rest.len() implies v != (#[trigger] rest[i]).uri@ by {
                    assert(rest[i] == ds[i]);
                }
                assert forall|i: int| 0 <= i < rest.len() implies scope_url(e.scope, alias_choice(#[trigger] rest[i])) != Some(v) by {
                    assert(rest[i] == ds[i]);
                }
            }
        }
    }
}

/// Declaring the same namespaces a second time changes nothing, when declarations for
/// different URIs never ask for one alias, nor for an alias the element binds to another
/// of their URIs.
pub proof fn law_declaring_twice_changes_nothing(e: ElementModel, ds: Seq<NamespaceDeclaration>)
    requires
        scope_wf(e.scope),
        declarations_apart(e.scope, ds),
    ensures
        declare_all(declare_all(e, ds), ds) == declare_all(e, ds),
{
    lemma_declare_all_binds(e, ds);
    law_declared_namespaces_are_reused(declare_all(e, ds), ds);
}

/// The first child item satisfying `p` gives the first id of all of them, and the last the
/// last: `find_first_child` and `get_first_child_element` agree with the head of
/// `find_all_child` and `get_child_element_ids`, and `get_last_child_element` with the end.
pub proof fn law_first_and_last_of_all_children(cs: Seq<ContentModel>, p: spec_fn(ContentModel) -> bool)
    ensures
        first_id_where(cs, p) == (if ids_where(cs, p).len() > 0 {
            Some(ids_where(cs, p)[0])
        } else {
            None
        }),
        last_id_where(cs, p) == (if ids_where(cs, p).len() > 0 {
            Some(ids_where(cs, p).last())
        } else {
            None
        }),
    decreases cs.len(),
{
    lemma_find_first(cs, p);
    lemma_find_last(cs, p);
    if cs.len() > 0 {
        let rest = cs.drop_last();
        law_first_and_last_of_all_children(rest, p);
        lemma_find_first(rest, p);
        lemma_find_last(rest, p);
        let ir = ids_where(rest, p);
        let ic = ids_where(cs, p);
        assert(ic == if p(cs.last()) {
            ir + seq![content_id(cs.last())]
        } else {
            ir
        });
        match find_first(rest, p) {
            Some(i) => {
                assert(first_match(rest, p, i));
                assert(rest[i] == cs[i]);
                assert forall|j: int| 0 <= j < i implies !p(#[trigger] cs[j]) by {
                    assert(rest[j] == cs[j]);
                }
                assert(first_match(cs, p, i));
                lemma_first_match(cs, p, i);
                assert(ir.len() > 0);
                assert(ic[0] == ir[0]);
            },
            None => {
                if p(cs.last()) {
                    assert forall|j: int| 0 <= j < cs.len() - 1 implies !p(#[trigger] cs[j]) by {
                        assert(rest[j] == cs[j]);
                    }
                    assert(first_match(cs, p, cs.len() - 1));
                    lemma_first_match(cs, p, cs.len() - 1);
                } else {
                    assert forall|j: int| 0 <= j < cs.len() implies !p(#[trigger] cs[j]) by {
                        if j < cs.len() - 1 {
                            assert(rest[j] == cs[j]);
                        }
                    }
                }
            },
        }
        if p(cs.last()) {
            assert(last_match(cs, p, cs.len() - 1));
            lemma_last_match(cs, p, cs.len() - 1);
        } else {
            match find_last(rest, p) {
                Some(i) => {
                    assert(last_match(rest, p, i));
                    assert(rest[i] == cs[i]);
                    assert forall|j: int| i < j < cs.len() implies !p(#[trigger] cs[j]) by {
                        if j < cs.len() - 1 {
                            assert(rest[j] == cs[j]);
                        }
                    }
                    assert(last_match(cs, p, i));
                    lemma_last_match(cs, p, i);
                },
                None => {},
            }
        }
    }
}


/// The search for all children with an attribute value, read from the front.
proof fn lemma_all_by_attr_front(els: Map<u32, ElementModel>, cs: Seq<ContentModel>, name: Seq<char>, value: Seq<char>)
    requires
        cs.len() > 0,
    ensures
        all_by_attr(els, cs, name, value) == match cs[0] {
            ContentModel::Element(cid, _, _) => if !els.contains_key(cid) {
                Err(XmlError::ElementNotFound(cid))
            } else {
                match all_by_attr(els, cs.drop_first(), name, value) {
                    Err(e) => Err(e),
                    Ok(r) => Ok(if has_attr_value(els[cid], name, value) {
                        seq![cid] + r
                    } else {
                        r
                    }),
                }
            },
            _ => all_by_attr(els, cs.drop_first(), name, value),
        },
    decreases cs.len(),
{
    if cs.len() == 1 {
        assert(cs.drop_last() =~= Seq::<ContentModel>::empty());
        assert(cs.drop_first() =~= Seq::<ContentModel>::empty());
        assert(cs.last() == cs[0]);
        match cs[0] {
            ContentModel::Element(cid, _, _) => {
                assert(seq![cid] + Seq::<u32>::empty() =~= Seq::<u32>::empty().push(cid));
            },
            _ => {},
        }
    } else {
        let init = cs.drop_last();
        lemma_all_by_attr_front(els, init, name, value);
        assert(init[0] == cs[0]);
        assert(init.drop_first() =~= cs.drop_first().drop_last());
        assert(cs.drop_first().last() == cs.last());
        match cs[0] {
            ContentModel::Element(cid, _, _) => {
                if els.contains_key(cid) {
                    match all_by_attr(els, cs.drop_first(), name, value) {
                        Ok(r) => {
                            match cs.last() {
                                ContentModel::Element(lid, _, _) => {
                                    let r0 = all_by_attr(els, init.drop_first(), name, value)->Ok_0;
                                    if has_attr_value(els[lid], name, value) {
                                        assert(seq![cid] + r0.push(lid) =~= (seq![cid] + r0).push(lid));
                                    }
                                },
                                _ => {},
                            }
                        },
                        Err(e) => {},
                    }
                }
            },
            _ => {},
        }
    }
}

/// The first child found by an attribute value is the first of all the children found.
pub proof fn law_first_by_attribute_is_first_of_all(
    els: Map<u32, ElementModel>,
    cs: Seq<ContentModel>,
    name: Seq<char>,
    value: Seq<char>,
)
    requires
        all_by_attr(els, cs, name, value) is Ok,
    ensures
        first_by_attr(els, cs, name, value) == Ok::<Option<u32>, XmlError>(
            if all_by_attr(els, cs, name, value)->Ok_0.len() > 0 {
                Some(all_by_attr(els, cs, name, value)->Ok_0[0])
            } else {
                None
            },
        ),
    decreases cs.len(),
{
    if cs.len() > 0 {
        lemma_all_by_attr_front(els, cs, name, value);
        law_first_by_attribute_is_first_of_all(els, cs.drop_first(), name, value);
    }
}


// ---------------------------------------------------------------------
// Node ids
// ---------------------------------------------------------------------

/// Every stored element has a node id from 1 up to the last one handed out.
pub open spec fn ids_within_counter(d: DocumentModel) -> bool {
    forall|k: u32| #[trigger] d.elements.contains_key(k) ==> 1 <= k <= d.running_id
}

/// A new document holds no element.
pub proof fn law_new_document_ids(d: DocumentModel)
    requires
        d.running_id == 0,
        d.elements == Map::<u32, ElementModel>::empty(),
    ensures
        ids_within_counter(d),
{
}

/// A created child gets a node id that named no element before; its parent gets the new
/// child item where the placement puts it, with its other contents kept; every other
/// element stays as it was, and the ids stay within the counter.
pub proof fn law_new_child_id_is_fresh(
    d: DocumentModel,
    parent: u32,
    tag: Seq<char>,
    attrs: Option<Seq<AttributeModel>>,
    placement: Placement,
)
    requires
        ids_within_counter(d),
        d.running_id < u32::MAX,
        insert_child_spec(d, parent, tag, attrs, placement).1 is Ok,
    ensures
        ({
            let (d2, r) = insert_child_spec(d, parent, tag, attrs, placement);
            let id = r->Ok_0;
            &&& !d.elements.contains_key(id)
            &&& id != parent
            &&& ids_within_counter(d2)
            &&& d2.elements[id].parent_id == Some(parent)
            &&& d2.elements[id].contents is None
            &&& d2.elements[parent] == link_child(
                d.elements[parent],
                child_item(id, d2.elements[id].tag, tag_ns(d2.elements[id])),
                placement,
            )
            &&& forall|k: u32| k != id && k != parent ==> (#[trigger] d2.elements.contains_key(k)
                == d.elements.contains_key(k)) && (d.elements.contains_key(k) ==> d2.elements[k] == d.elements[k])
        }),
{
    let id = (d.running_id + 1) as u32;
    assert(id == d.running_id + 1);
    assert(d.elements.contains_key(parent));
    assert(parent <= d.running_id);
    assert(!d.elements.contains_key(id));
}

/// A created root gets a node id that named no element before and becomes the root; every
/// other element stays as it was, and the ids stay within the counter.
pub proof fn law_new_root_id_is_fresh(d: DocumentModel, tag: Seq<char>, attrs: Option<Seq<AttributeModel>>)
    requires
        ids_within_counter(d),
        d.running_id < u32::MAX,
        create_root_spec(d, tag, attrs).1 is Ok,
    ensures
        ({
            let (d2, r) = create_root_spec(d, tag, attrs);
            let id = r->Ok_0;
            &&& !d.elements.contains_key(id)
            &&& d2.root_id == id
            &&& d2.elements.contains_key(id)
            &&& ids_within_counter(d2)
            &&& forall|k: u32| k != id ==> (#[trigger] d2.elements.contains_key(k) == d.elements.contains_key(k))
                && (d.elements.contains_key(k) ==> d2.elements[k] == d.elements[k])
        }),
{
    let id = (d.running_id + 1) as u32;
    assert(id == d.running_id + 1);
    assert(!d.elements.contains_key(id));
}

/// Removing an element or clearing its content keeps the ids within the counter.
pub proof fn law_removal_keeps_ids_within_counter(d: DocumentModel, id: u32)
    requires
        ids_within_counter(d),
    ensures
        ids_within_counter(remove_spec(d, id).0),
        ids_within_counter(clear_content_spec(d, id).0),
{
    let fuel = tree_fuel(d);
    lemma_clear_node_submap(d.elements, id, fuel);
    if d.elements.contains_key(id) {
        let d1 = match d.elements[id].parent_id {
            Some(p) => if d.elements.contains_key(p) {
                match d.elements[p].contents {
                    Some(cs) => with_element(d, p, ElementModel { contents: Some(without_child(cs, id)), ..d.elements[p] }),
                    None => d,
                }
            } else {
                d
            },
            None => d,
        };
        assert(ids_within_counter(d1));
        lemma_clear_node_submap(d1.elements, id, fuel);
    }
}


// ---------------------------------------------------------------------
// Documents that are trees
// ---------------------------------------------------------------------

/// The child element items of stored element `p` each name a stored element whose parent
/// is `p`, and no two of them name the same element.
pub open spec fn children_linked(els: Map<u32, ElementModel>, p: u32) -> bool {
    let cs = contents_or_empty(els[p]);
    &&& forall|i: int| 0 <= i < cs.len() && (#[trigger] cs[i]) is Element ==>
            els.contains_key(content_id(cs[i])) && els[content_id(cs[i])].parent_id == Some(p)
    &&& forall|i: int, j: int| 0 <= i < j < cs.len() && (#[trigger] cs[i]) is Element && (#[trigger] cs[j]) is Element
            ==> content_id(cs[i]) != content_id(cs[j])
}

/// The content list of stored element `p` holds a child item for `k`.
pub open spec fn lists_child(els: Map<u32, ElementModel>, p: u32, k: u32) -> bool {
    exists|i: int| 0 <= i < contents_or_empty(els[p]).len()
        && (#[trigger] contents_or_empty(els[p])[i]) is Element && content_id(contents_or_empty(els[p])[i]) == k
}

/// The document is a tree, as the creating operations build it: ids stay within the
/// counter and each element records the id it is stored under; a parent is stored, was
/// created before its child (it has a smaller id) and lists it among its contents; and the
/// content lists name each child once, with the parent it records.
pub open spec fn tree_wf(d: DocumentModel) -> bool {
    &&& ids_within_counter(d)
    &&& forall|k: u32| #[trigger] d.elements.contains_key(k) ==> d.elements[k].id == k
    &&& forall|k: u32| #[trigger] d.elements.contains_key(k) && d.elements[k].parent_id is Some ==> {
            let p = d.elements[k].parent_id->Some_0;
            d.elements.contains_key(p) && p < k && lists_child(d.elements, p, k)
        }
    &&& forall|p: u32| #[trigger] d.elements.contains_key(p) ==> children_linked(d.elements, p)
}

/// `k` is `a` or lies below it: the parent links from `k` lead to `a`.
pub open spec fn reaches(els: Map<u32, ElementModel>, k: u32, a: u32) -> bool
    decreases k,
{
    if k == a {
        true
    } else if els.contains_key(k) && els[k].parent_id is Some && els[k].parent_id->Some_0 < k {
        reaches(els, els[k].parent_id->Some_0, a)
    } else {
        false
    }
}

/// Nothing lies below an element but elements with larger ids.
proof fn lemma_reaches_larger(els: Map<u32, ElementModel>, k: u32, a: u32)
    requires
        reaches(els, k, a),
    ensures
        k >= a,
    decreases k,
{
    if k != a {
        lemma_reaches_larger(els, els[k].parent_id->Some_0, a);
    }
}

/// Two elements that both lie above `k` lie one above the other.
proof fn lemma_reaches_chain(els: Map<u32, ElementModel>, k: u32, a: u32, b: u32)
    requires
        reaches(els, k, a),
        reaches(els, k, b),
    ensures
        reaches(els, a, b) || reaches(els, b, a),
    decreases k,
{
    if k != a && k != b {
        lemma_reaches_chain(els, els[k].parent_id->Some_0, a, b);
    }
}

/// What lies below a child lies below its parent.
proof fn lemma_reaches_parent(els: Map<u32, ElementModel>, k: u32, c: u32, x: u32)
    requires
        reaches(els, k, c),
        els.contains_key(c),
        els[c].parent_id == Some(x),
        x < c,
    ensures
        reaches(els, k, x),
    decreases k,
{
    assert(reaches(els, x, x));
    if k != c && k != x {
        lemma_reaches_parent(els, els[k].parent_id->Some_0, c, x);
    }
}

/// The child ids listed by a tree element are distinct stored children of it.
proof fn lemma_child_ids(els: Map<u32, ElementModel>, cs: Seq<ContentModel>, p: u32)
    requires
        forall|i: int| 0 <= i < cs.len() && (#[trigger] cs[i]) is Element ==>
            els.contains_key(content_id(cs[i])) && els[content_id(cs[i])].parent_id == Some(p),
        forall|i: int, j: int| 0 <= i < j < cs.len() && (#[trigger] cs[i]) is Element && (#[trigger] cs[j]) is Element
            ==> content_id(cs[i]) != content_id(cs[j]),
    ensures
        ids_where(cs, any_child()).no_duplicates(),
        forall|j: int| 0 <= j < ids_where(cs, any_child()).len() ==>
            els.contains_key(#[trigger] ids_where(cs, any_child())[j])
            && els[ids_where(cs, any_child())[j]].parent_id == Some(p),
    decreases cs.len(),
{
    if cs.len() > 0 {
        let rest = cs.drop_last();
        assert forall|i: int| 0 <= i < rest.len() && (#[trigger] rest[i]) is Element implies
            els.contains_key(content_id(rest[i])) && els[content_id(rest[i])].parent_id == Some(p) by {
            assert(rest[i] == cs[i]);
        }
        assert forall|i: int, j: int| 0 <= i < j < rest.len() && (#[trigger] rest[i]) is Element && (#[trigger] rest[j]) is Element
            implies content_id(rest[i]) != content_id(rest[j]) by {
            assert(rest[i] == cs[i] && rest[j] == cs[j]);
        }
        lemma_child_ids(els, rest, p);
        let f = |c: ContentModel| if any_child()(c) { Some(content_id(c)) } else { None };
        let r = ids_where(rest, any_child());
        assert(r == rest.filter_map(f));
        let last = cs.last();
        assert(last == cs[cs.len() - 1]);
        if last is Element {
            let x = content_id(last);
            assert(ids_where(cs, any_child()) == r + seq![x]);
            if r.contains(x) {
                rest.lemma_filter_map_contains(f, x);
                let t = choose|t: ContentModel| #[trigger] rest.contains(t) && f(t) == Some(x);
                let i = choose|i: int| 0 <= i < rest.len() && rest[i] == t;
                assert(cs[i] == t);
                assert(false);
            }
            let all = r + seq![x];
            assert forall|a: int, b: int| 0 <= a < all.len() && 0 <= b < all.len() && a != b implies all[a] != all[b] by {
                if a < r.len() && b < r.len() {
                    assert(all[a] == r[a] && all[b] == r[b]);
                } else if a < r.len() {
                    assert(all[a] == r[a] && r.contains(r[a]));
                } else if b < r.len() {
                    assert(all[b] == r[b] && r.contains(r[b]));
                }
            }
            assert forall|j: int| 0 <= j < all.len() implies els.contains_key(#[trigger] all[j]) && els[all[j]].parent_id == Some(p) by {
                if j < r.len() {
                    assert(all[j] == r[j]);
                }
            }
        } else {
            assert(ids_where(cs, any_child()) == r);
        }
    }
}

/// An element strictly below `id` lies below a child of `id`.
proof fn lemma_below_child(els: Map<u32, ElementModel>, k: u32, id: u32) -> (c: u32)
    requires
        reaches(els, k, id),
        k != id,
    ensures
        els.contains_key(c),
        els[c].parent_id == Some(id),
        id < c,
        reaches(els, k, c),
    decreases k,
{
    let q = els[k].parent_id->Some_0;
    assert(reaches(els, k, k));
    if q == id {
        k
    } else {
        let c = lemma_below_child(els, q, id);
        c
    }
}

/// A child item's id is among the child ids of the contents.
proof fn lemma_item_in_ids(cs: Seq<ContentModel>, i: int)
    requires
        0 <= i < cs.len(),
        cs[i] is Element,
    ensures
        ids_where(cs, any_child()).contains(content_id(cs[i])),
    decreases cs.len(),
{
    let rest = cs.drop_last();
    let r = ids_where(rest, any_child());
    let last = cs.last();
    assert(last == cs[cs.len() - 1]);
    if i == cs.len() - 1 {
        assert(ids_where(cs, any_child()) == r + seq![content_id(last)]);
        assert((r + seq![content_id(last)])[r.len() as int] == content_id(last));
    } else {
        assert(rest[i] == cs[i]);
        lemma_item_in_ids(rest, i);
        let j = choose|j: int| 0 <= j < r.len() && r[j] == content_id(cs[i]);
        if last is Element {
            assert(ids_where(cs, any_child()) == r + seq![content_id(last)]);
            assert((r + seq![content_id(last)])[j] == r[j]);
        } else {
            assert(ids_where(cs, any_child()) == r);
        }
    }
}

/// On a tree, removing the descendants of a stored element `id` from a map that holds its
/// subtree as the document has it succeeds; it keeps `id` and everything outside the
/// subtree, as it was.
proof fn lemma_clear_node_on_tree(d: DocumentModel, m: Map<u32, ElementModel>, id: u32, fuel: nat)
    requires
        tree_wf(d),
        d.elements.contains_key(id),
        fuel >= d.running_id - id + 1,
        forall|k: u32| #[trigger] reaches(d.elements, k, id) ==> m.contains_key(k) && m[k] == d.elements[k],
    ensures
        clear_node(m, id, fuel).1 is Ok,
        forall|k: u32| #[trigger] clear_node(m, id, fuel).0.contains_key(k) ==> m.contains_key(k)
            && clear_node(m, id, fuel).0[k] == m[k],
        forall|k: u32| m.contains_key(k) && !(#[trigger] clear_node(m, id, fuel).0.contains_key(k)) ==>
            reaches(d.elements, k, id) && k != id,
        forall|k: u32| #[trigger] reaches(d.elements, k, id) && k != id ==> !clear_node(m, id, fuel).0.contains_key(k),
    decreases fuel, 0nat, 0nat,
{
    let els = d.elements;
    assert(reaches(els, id, id));
    assert(m[id] == els[id]);
    assert(children_linked(els, id));
    let cs = contents_or_empty(els[id]);
    lemma_child_ids(els, cs, id);
    let ids = ids_where(cs, any_child());
    assert forall|j: int, k: u32| 0 <= j < ids.len() && #[trigger] reaches(els, k, ids[j]) implies
        m.contains_key(k) && m[k] == els[k] by {
        assert(els.contains_key(ids[j]));
        lemma_reaches_parent(els, k, ids[j], id);
    }
    lemma_clear_ids_on_tree(d, m, ids, id, (fuel - 1) as nat);
    let m2 = clear_ids(m, ids, (fuel - 1) as nat).0;
    assert forall|k: u32| m.contains_key(k) && !(#[trigger] m2.contains_key(k)) implies
        reaches(els, k, id) && k != id by {
        let j = choose|j: int| 0 <= j < ids.len() && reaches(els, k, ids[j]);
        assert(els.contains_key(ids[j]));
        lemma_reaches_parent(els, k, ids[j], id);
        lemma_reaches_larger(els, k, ids[j]);
    }
    assert forall|k: u32| #[trigger] reaches(els, k, id) && k != id implies !m2.contains_key(k) by {
        let c = lemma_below_child(els, k, id);
        assert(lists_child(els, id, c));
        let i = choose|i: int| 0 <= i < cs.len() && (#[trigger] cs[i]) is Element && content_id(cs[i]) == c;
        lemma_item_in_ids(cs, i);
        let j = choose|j: int| 0 <= j < ids.len() && ids[j] == c;
        assert(reaches(els, k, ids[j]));
    }
}

/// On a tree, removing the subtrees of distinct children `ids` of `x` succeeds, and takes
/// away nothing outside those subtrees.
proof fn lemma_clear_ids_on_tree(d: DocumentModel, m: Map<u32, ElementModel>, ids: Seq<u32>, x: u32, fuel: nat)
    requires
        tree_wf(d),
        ids.no_duplicates(),
        forall|j: int| 0 <= j < ids.len() ==> d.elements.contains_key(#[trigger] ids[j])
            && d.elements[ids[j]].parent_id == Some(x),
        fuel + x >= d.running_id,
        forall|j: int, k: u32| 0 <= j < ids.len() && #[trigger] reaches(d.elements, k, ids[j]) ==>
            m.contains_key(k) && m[k] == d.elements[k],
    ensures
        clear_ids(m, ids, fuel).1 is Ok,
        forall|k: u32| #[trigger] clear_ids(m, ids, fuel).0.contains_key(k) ==> m.contains_key(k)
            && clear_ids(m, ids, fuel).0[k] == m[k],
        forall|k: u32| m.contains_key(k) && !(#[trigger] clear_ids(m, ids, fuel).0.contains_key(k)) ==>
            exists|j: int| 0 <= j < ids.len() && reaches(d.elements, k, ids[j]),
        forall|j: int, k: u32| 0 <= j < ids.len() && #[trigger] reaches(d.elements, k, ids[j]) ==>
            !clear_ids(m, ids, fuel).0.contains_key(k),
    decreases fuel, 1nat, ids.len(),
{
    let els = d.elements;
    if ids.len() > 0 {
        let rest = ids.drop_last();
        let last = ids.last();
        assert(last == ids[ids.len() - 1]);
        assert forall|j: int| 0 <= j < rest.len() implies els.contains_key(#[trigger] rest[j])
            && els[rest[j]].parent_id == Some(x) by {
            assert(rest[j] == ids[j]);
        }
        assert forall|j: int, k: u32| 0 <= j < rest.len() && #[trigger] reaches(els, k, rest[j]) implies
            m.contains_key(k) && m[k] == els[k] by {
            assert(rest[j] == ids[j]);
        }
        assert(rest.no_duplicates()) by {
            assert forall|a: int, b: int| 0 <= a < rest.len() && 0 <= b < rest.len() && a != b implies rest[a] != rest[b] by {
                assert(rest[a] == ids[a] && rest[b] == ids[b]);
            }
        }
        lemma_clear_ids_on_tree(d, m, rest, x, fuel);
        let m1 = clear_ids(m, rest, fuel).0;
        assert(els.contains_key(last) && els[last].parent_id == Some(x));
        assert(x < last);
        assert forall|k: u32| #[trigger] reaches(els, k, last) implies m1.contains_key(k) && m1[k] == els[k] by {
            assert(reaches(els, k, ids[ids.len() - 1]));
            if !m1.contains_key(k) {
                let j = choose|j: int| 0 <= j < rest.len() && reaches(els, k, rest[j]);
                let a = rest[j];
                assert(a == ids[j]);
                assert(els.contains_key(a) && els[a].parent_id == Some(x));
                assert(a != last);
                lemma_reaches_chain(els, k, a, last);
                if reaches(els, a, last) {
                    lemma_reaches_larger(els, x, last);
                } else {
                    lemma_reaches_larger(els, x, a);
                }
            }
        }
        lemma_clear_node_on_tree(d, m1, last, fuel);
        let m2 = clear_node(m1, last, fuel).0;
        let m3 = m2.remove(last);
        assert(clear_ids(m, ids, fuel).0 == m3);
        assert forall|k: u32| m.contains_key(k) && !(#[trigger] m3.contains_key(k)) implies
            exists|j: int| 0 <= j < ids.len() && reaches(els, k, ids[j]) by {
            if !m1.contains_key(k) {
                let j = choose|j: int| 0 <= j < rest.len() && reaches(els, k, rest[j]);
                assert(rest[j] == ids[j]);
            } else {
                assert(reaches(els, k, ids[ids.len() - 1]));
            }
        }
        assert forall|j: int, k: u32| 0 <= j < ids.len() && #[trigger] reaches(els, k, ids[j]) implies
            !m3.contains_key(k) by {
            if j < ids.len() - 1 {
                assert(rest[j] == ids[j]);
                assert(reaches(els, k, rest[j]));
                assert(!m1.contains_key(k));
            } else if k != last && m1.contains_key(k) {
                assert(reaches(els, k, last));
                assert(!m2.contains_key(k));
            }
        }
    }
}

/// No two child items of `cs` name the same element.
pub open spec fn distinct_children(cs: Seq<ContentModel>) -> bool {
    forall|i: int, j: int| 0 <= i < j < cs.len() && (#[trigger] cs[i]) is Element && (#[trigger] cs[j]) is Element
        ==> content_id(cs[i]) != content_id(cs[j])
}

/// The contents without the child items for `x` keep the other items, and nothing else.
proof fn lemma_without_child_items(cs: Seq<ContentModel>, x: u32)
    ensures
        forall|i: int| 0 <= i < without_child(cs, x).len() ==> cs.contains(#[trigger] without_child(cs, x)[i])
            && !(without_child(cs, x)[i] is Element && content_id(without_child(cs, x)[i]) == x),
        forall|j: int| 0 <= j < cs.len() && !(cs[j] is Element && content_id(cs[j]) == x) ==>
            without_child(cs, x).contains(#[trigger] cs[j]),
        distinct_children(cs) ==> distinct_children(without_child(cs, x)),
    decreases cs.len(),
{
    if cs.len() > 0 {
        let rest = cs.drop_last();
        let last = cs.last();
        assert(last == cs[cs.len() - 1]);
        lemma_without_child_items(rest, x);
        let wr = without_child(rest, x);
        let w = without_child(cs, x);
        let dropped = last is Element && content_id(last) == x;
        if dropped {
            assert(w == wr);
        } else {
            assert(w == wr + seq![last]);
        }
        assert forall|i: int| 0 <= i < w.len() implies cs.contains(#[trigger] w[i])
            && !(w[i] is Element && content_id(w[i]) == x) by {
            if i < wr.len() {
                assert(w[i] == wr[i]);
                let j = choose|j: int| 0 <= j < rest.len() && rest[j] == wr[i];
                assert(cs[j] == rest[j]);
            } else {
                assert(w[i] == last);
            }
        }
        assert forall|j: int| 0 <= j < cs.len() && !(cs[j] is Element && content_id(cs[j]) == x) implies
            w.contains(#[trigger] cs[j]) by {
            if j < cs.len() - 1 {
                assert(rest[j] == cs[j]);
                let i = choose|i: int| 0 <= i < wr.len() && wr[i] == rest[j];
                assert(w[i] == wr[i]);
            } else {
                assert(w[wr.len() as int] == last);
            }
        }
        if distinct_children(cs) {
            assert forall|a: int, b: int| 0 <= a < b < rest.len() && (#[trigger] rest[a]) is Element && (#[trigger] rest[b]) is Element
                implies content_id(rest[a]) != content_id(rest[b]) by {
                assert(rest[a] == cs[a] && rest[b] == cs[b]);
            }
            assert forall|a: int, b: int| 0 <= a < b < w.len() && (#[trigger] w[a]) is Element && (#[trigger] w[b]) is Element
                implies content_id(w[a]) != content_id(w[b]) by {
                assert(w[a] == wr[a]);
                if b < wr.len() {
                    assert(w[b] == wr[b]);
                } else {
                    assert(w[b] == last);
                    let ja = choose|ja: int| 0 <= ja < rest.len() && rest[ja] == wr[a];
                    assert(cs[ja] == rest[ja]);
                }
            }
        }
    }
}

/// Clearing the content of an element keeps the document a tree.
pub proof fn law_clear_keeps_tree(d: DocumentModel, id: u32)
    requires
        tree_wf(d),
    ensures
        tree_wf(clear_content_spec(d, id).0),
{
    let els = d.elements;
    if els.contains_key(id) {
        lemma_clear_node_on_tree(d, els, id, tree_fuel(d));
        let m = clear_node(els, id, tree_fuel(d)).0;
        assert(reaches(els, id, id));
        assert(m.contains_key(id));
        let e2 = ElementModel { contents: None, ..m[id] };
        let els2 = m.insert(id, e2);
        assert(clear_content_spec(d, id).0.elements == els2);
        assert forall|k: u32| #[trigger] els2.contains_key(k) && els2[k].parent_id is Some implies {
            let p = els2[k].parent_id->Some_0;
            els2.contains_key(p) && p < k && lists_child(els2, p, k)
        } by {
            let p = els[k].parent_id->Some_0;
            assert(els.contains_key(p) && p < k && lists_child(els, p, k));
            if !els2.contains_key(p) {
                assert(reaches(els, p, id) && p != id);
                assert(k != id) by {
                    lemma_reaches_larger(els, p, id);
                }
                assert(reaches(els, k, id));
            }
            if p == id {
                assert(reaches(els, k, k));
                assert(reaches(els, k, id));
                assert(!m.contains_key(k));
            } else {
                assert(els2[p] == els[p]);
            }
        }
        assert forall|p: u32| #[trigger] els2.contains_key(p) implies children_linked(els2, p) by {
            if p != id {
                assert(children_linked(els, p));
                assert(els2[p] == els[p]);
                let cs = contents_or_empty(els[p]);
                assert forall|i: int| 0 <= i < cs.len() && (#[trigger] cs[i]) is Element implies
                    els2.contains_key(content_id(cs[i])) && els2[content_id(cs[i])].parent_id == Some(p) by {
                    let c = content_id(cs[i]);
                    assert(els.contains_key(c) && els[c].parent_id == Some(p));
                    if !els2.contains_key(c) {
                        assert(reaches(els, c, id) && c != id);
                        assert(reaches(els, p, id));
                        assert(!m.contains_key(p));
                    }
                }
            }
        }
    }
}

/// Removing an element keeps the document a tree.
pub proof fn law_remove_keeps_tree(d: DocumentModel, id: u32)
    requires
        tree_wf(d),
    ensures
        tree_wf(remove_spec(d, id).0),
{
    let els = d.elements;
    if els.contains_key(id) {
        let d1 = match els[id].parent_id {
            Some(p) => if els.contains_key(p) {
                match els[p].contents {
                    Some(cs) => with_element(d, p, ElementModel { contents: Some(without_child(cs, id)), ..els[p] }),
                    None => d,
                }
            } else {
                d
            },
            None => d,
        };
        let els1 = d1.elements;
        assert forall|k: u32| #[trigger] reaches(els, k, id) implies els1.contains_key(k) && els1[k] == els[k] by {
            lemma_reaches_larger(els, k, id);
            if els[id].parent_id is Some {
                assert(els[id].parent_id->Some_0 < id);
            }
        }
        lemma_clear_node_on_tree(d, els1, id, tree_fuel(d));
        let m = clear_node(els1, id, tree_fuel(d)).0;
        let els3 = m.remove(id);
        assert(remove_spec(d, id).0.elements == els3);
        // what is gone: exactly the subtree of `id`
        assert forall|k: u32| #[trigger] els3.contains_key(k) implies els.contains_key(k) && !reaches(els, k, id)
            && els3[k] == els1[k] by {
            assert(els1.contains_key(k));
            if reaches(els, k, id) {
                if k != id {
                    assert(!m.contains_key(k));
                }
            }
        }
        assert forall|k: u32| els.contains_key(k) && !reaches(els, k, id) implies #[trigger] els3.contains_key(k) by {
            assert(els1.contains_key(k));
        }
        let has_parent = els[id].parent_id is Some;
        let p0 = els[id].parent_id->Some_0;
        assert forall|q: u32| #[trigger] els3.contains_key(q) && !(has_parent && q == p0) implies els3[q] == els[q] by {
        }
        assert(has_parent ==> els[p0].contents is Some) by {
            if has_parent {
                assert(lists_child(els, p0, id));
            }
        }
        assert(has_parent ==> els1[p0] == ElementModel {
            contents: Some(without_child(contents_or_empty(els[p0]), id)),
            ..els[p0]
        });
        assert forall|k: u32| #[trigger] els3.contains_key(k) && els3[k].parent_id is Some implies {
            let p = els3[k].parent_id->Some_0;
            els3.contains_key(p) && p < k && lists_child(els3, p, k)
        } by {
            assert(els3[k].parent_id == els[k].parent_id);
            let p = els[k].parent_id->Some_0;
            assert(els.contains_key(p) && p < k && lists_child(els, p, k));
            if reaches(els, p, id) {
                assert(reaches(els, k, id));
            }
            assert(els3.contains_key(p));
            if has_parent && p == p0 {
                let cs = contents_or_empty(els[p]);
                let i = choose|i: int| 0 <= i < cs.len() && (#[trigger] cs[i]) is Element && content_id(cs[i]) == k;
                lemma_without_child_items(cs, id);
                assert(k != id) by {
                    assert(reaches(els, id, id));
                }
                let w = without_child(cs, id);
                assert(w.contains(cs[i]));
                let j = choose|j: int| 0 <= j < w.len() && w[j] == cs[i];
                assert(contents_or_empty(els3[p]) == w);
                assert(contents_or_empty(els3[p])[j] == cs[i]);
            } else {
                assert(els3[p] == els[p]);
                let cs = contents_or_empty(els[p]);
                let i = choose|i: int| 0 <= i < cs.len() && (#[trigger] cs[i]) is Element && content_id(cs[i]) == k;
                assert(contents_or_empty(els3[p])[i] == cs[i]);
            }
        }
        assert forall|q: u32| #[trigger] els3.contains_key(q) implies children_linked(els3, q) by {
            assert(children_linked(els, q));
            let cs = contents_or_empty(els[q]);
            let ncs = contents_or_empty(els3[q]);
            if has_parent && q == p0 {
                lemma_without_child_items(cs, id);
                assert(ncs == without_child(cs, id));
                assert(distinct_children(cs));
                assert forall|i: int| 0 <= i < ncs.len() && (#[trigger] ncs[i]) is Element implies
                    els3.contains_key(content_id(ncs[i])) && els3[content_id(ncs[i])].parent_id == Some(q) by {
                    let j = choose|j: int| 0 <= j < cs.len() && cs[j] == ncs[i];
                    let c = content_id(cs[j]);
                    assert(els.contains_key(c) && els[c].parent_id == Some(q));
                    assert(els[id].parent_id->Some_0 < id);
                    if reaches(els, c, id) {
                        assert(c != id);
                        assert(reaches(els, q, id));
                        lemma_reaches_larger(els, q, id);
                    }
                    assert(els3.contains_key(c));
                    assert(els3[c] == els1[c]);
                    if c != p0 {
                        assert(els1[c] == els[c]);
                    }
                }
                assert(distinct_children(ncs));
            } else {
                assert(ncs == cs);
                assert forall|i: int| 0 <= i < cs.len() && (#[trigger] cs[i]) is Element implies
                    els3.contains_key(content_id(cs[i])) && els3[content_id(cs[i])].parent_id == Some(q) by {
                    let c = content_id(cs[i]);
                    assert(els.contains_key(c) && els[c].parent_id == Some(q));
                    if reaches(els, c, id) {
                        if c == id {
                            assert(q == p0);
                        } else {
                            assert(reaches(els, q, id));
                        }
                    }
                    assert(els3.contains_key(c));
                    assert(els3[c] == els1[c]);
                    if !(has_parent && c == p0) {
                        assert(els1[c] == els[c]);
                    }
                }
            }
        }
    }
}

/// On a tree, clearing the content of a stored element succeeds.
pub proof fn law_clear_succeeds_on_trees(d: DocumentModel, id: u32)
    requires
        tree_wf(d),
        d.elements.contains_key(id),
    ensures
        clear_content_spec(d, id).1 is Ok,
{
    lemma_clear_node_on_tree(d, d.elements, id, tree_fuel(d));
    let m = clear_node(d.elements, id, tree_fuel(d)).0;
    assert(m.contains_key(id));
}

/// On a tree, removing a stored element succeeds.
pub proof fn law_remove_succeeds_on_trees(d: DocumentModel, id: u32)
    requires
        tree_wf(d),
        d.elements.contains_key(id),
    ensures
        remove_spec(d, id).1 is Ok,
{
    let els = d.elements;
    let d1 = match els[id].parent_id {
        Some(p) => if els.contains_key(p) {
            match els[p].contents {
                Some(cs) => with_element(d, p, ElementModel { contents: Some(without_child(cs, id)), ..els[p] }),
                None => d,
            }
        } else {
            d
        },
        None => d,
    };
    assert forall|k: u32| #[trigger] reaches(els, k, id) implies d1.elements.contains_key(k) && d1.elements[k] == els[k] by {
        lemma_reaches_larger(els, k, id);
        if els[id].parent_id is Some {
            assert(els[id].parent_id->Some_0 < id);
        }
    }
    lemma_clear_node_on_tree(d, d1.elements, id, tree_fuel(d));
}

/// On a tree, the search for all children of a stored element with an attribute value
/// succeeds: it fails exactly when the parent is not stored.
pub proof fn law_all_by_attribute_succeeds_on_trees(d: DocumentModel, parent: u32, name: Seq<char>, value: Seq<char>)
    requires
        tree_wf(d),
        d.elements.contains_key(parent),
    ensures
        all_by_attr(d.elements, children_of(d, parent), name, value) is Ok,
{
    assert(children_linked(d.elements, parent));
    law_all_by_attribute_succeeds(d.elements, children_of(d, parent), name, value);
}


/// A new document is a tree.
pub proof fn law_new_document_is_tree(d: DocumentModel)
    requires
        d.running_id == 0,
        d.elements == Map::<u32, ElementModel>::empty(),
    ensures
        tree_wf(d),
{
}

/// Creating a root keeps the document a tree.
pub proof fn law_root_creation_keeps_tree(d: DocumentModel, tag: Seq<char>, attrs: Option<Seq<AttributeModel>>)
    requires
        tree_wf(d),
        d.running_id < u32::MAX,
    ensures
        tree_wf(create_root_spec(d, tag, attrs).0),
{
    let (d2, r) = create_root_spec(d, tag, attrs);
    if r is Ok {
        law_new_root_id_is_fresh(d, tag, attrs);
        let id = r->Ok_0;
        let els = d.elements;
        let els2 = d2.elements;
        assert(els2[id].parent_id is None && els2[id].contents is None);
        assert forall|p: u32| #[trigger] els2.contains_key(p) implies children_linked(els2, p) by {
            if p != id {
                assert(children_linked(els, p));
                let cs = contents_or_empty(els[p]);
                assert forall|i: int| 0 <= i < cs.len() && (#[trigger] cs[i]) is Element implies
                    els2.contains_key(content_id(cs[i])) && els2[content_id(cs[i])].parent_id == Some(p) by {
                    assert(els.contains_key(content_id(cs[i])));
                }
            }
        }
    }
}

/// Linking a child item places it at one index of the contents, keeping the others.
proof fn lemma_link_inserts(e: ElementModel, item: ContentModel, placement: Placement) -> (i: int)
    ensures
        0 <= i <= contents_or_empty(e).len(),
        link_child(e, item, placement) == with_contents(e, contents_or_empty(e).insert(i, item)),
{
    let cs = contents_or_empty(e);
    match placement {
        Placement::Append => {
            assert(cs.push(item) =~= cs.insert(cs.len() as int, item));
            cs.len() as int
        },
        Placement::AfterTag(q) => {
            let p = |x: ContentModel| crate::dom::element::child_tag_is(x, q);
            lemma_find_last(cs, p);
            match find_last(cs, p) {
                Some(i) => i + 1,
                None => {
                    assert(cs.push(item) =~= cs.insert(cs.len() as int, item));
                    cs.len() as int
                },
            }
        },
        Placement::AfterTagNs(q) => {
            let p = |x: ContentModel| crate::dom::element::child_tag_ns_is(x, q);
            lemma_find_last(cs, p);
            match find_last(cs, p) {
                Some(i) => i + 1,
                None => {
                    assert(cs.push(item) =~= cs.insert(cs.len() as int, item));
                    cs.len() as int
                },
            }
        },
        Placement::BeforeTag(q) => {
            let p = |x: ContentModel| crate::dom::element::child_tag_is(x, q);
            lemma_find_first(cs, p);
            match find_first(cs, p) {
                Some(i) => i,
                None => 0,
            }
        },
        Placement::BeforeTagNs(q) => {
            let p = |x: ContentModel| crate::dom::element::child_tag_ns_is(x, q);
            lemma_find_first(cs, p);
            match find_first(cs, p) {
                Some(i) => i,
                None => 0,
            }
        },
    }
}

/// Creating a child element, wherever it is placed, keeps the document a tree.
pub proof fn law_child_creation_keeps_tree(
    d: DocumentModel,
    parent: u32,
    tag: Seq<char>,
    attrs: Option<Seq<AttributeModel>>,
    placement: Placement,
)
    requires
        tree_wf(d),
        d.running_id < u32::MAX,
    ensures
        tree_wf(insert_child_spec(d, parent, tag, attrs, placement).0),
{
    let (d2, r) = insert_child_spec(d, parent, tag, attrs, placement);
    if r is Ok {
        law_new_child_id_is_fresh(d, parent, tag, attrs, placement);
        let id = r->Ok_0;
        let els = d.elements;
        let els2 = d2.elements;
        let item = child_item(id, els2[id].tag, tag_ns(els2[id]));
        let pos = lemma_link_inserts(els[parent], item, placement);
        let cs = contents_or_empty(els[parent]);
        let ncs = cs.insert(pos, item);
        cs.insert_ensures(pos, item);
        assert(els2[parent] == with_contents(els[parent], ncs));
        assert(contents_or_empty(els2[parent]) == ncs);
        assert(parent < id);
        assert forall|k: u32| #[trigger] els2.contains_key(k) && els2[k].parent_id is Some implies {
            let p = els2[k].parent_id->Some_0;
            els2.contains_key(p) && p < k && lists_child(els2, p, k)
        } by {
            if k == id {
                assert(ncs[pos] == item);
            } else {
                assert(els.contains_key(k));
                let q = els[k].parent_id->Some_0;
                assert(lists_child(els, q, k));
                let i = choose|i: int| 0 <= i < contents_or_empty(els[q]).len()
                    && (#[trigger] contents_or_empty(els[q])[i]) is Element && content_id(contents_or_empty(els[q])[i]) == k;
                if q == parent {
                    if i < pos {
                        assert(ncs[i] == cs[i]);
                    } else {
                        assert(ncs[i + 1] == cs[i]);
                    }
                } else {
                    assert(contents_or_empty(els2[q]) == contents_or_empty(els[q]));
                }
            }
        }
        assert(children_linked(els, parent));
        assert forall|p: u32| #[trigger] els2.contains_key(p) implies children_linked(els2, p) by {
            if p == parent {
                assert forall|i: int| 0 <= i < ncs.len() && (#[trigger] ncs[i]) is Element implies
                    els2.contains_key(content_id(ncs[i])) && els2[content_id(ncs[i])].parent_id == Some(p) by {
                    if i < pos {
                        assert(ncs[i] == cs[i]);
                        assert(els.contains_key(content_id(cs[i])));
                    } else if i > pos {
                        assert(ncs[i] == cs[i - 1]);
                        assert(els.contains_key(content_id(cs[i - 1])));
                    }
                }
                assert forall|a: int, b: int| 0 <= a < b < ncs.len() && (#[trigger] ncs[a]) is Element && (#[trigger] ncs[b]) is Element
                    implies content_id(ncs[a]) != content_id(ncs[b]) by {
                    let oa = if a < pos { a } else { a - 1 };
                    let ob = if b < pos { b } else { b - 1 };
                    if a != pos && b != pos {
                        assert(ncs[a] == cs[oa] && ncs[b] == cs[ob]);
                    } else if a == pos {
                        assert(ncs[b] == cs[ob]);
                        assert(els.contains_key(content_id(cs[ob])));
                    } else {
                        assert(ncs[a] == cs[oa]);
                        assert(els.contains_key(content_id(cs[oa])));
                    }
                }
            } else if p != id {
                assert(children_linked(els, p));
                let ps = contents_or_empty(els[p]);
                assert forall|i: int| 0 <= i < ps.len() && (#[trigger] ps[i]) is Element implies
                    els2.contains_key(content_id(ps[i])) && els2[content_id(ps[i])].parent_id == Some(p) by {
                    assert(els.contains_key(content_id(ps[i])));
                }
            }
        }
    }
}


/// Creating a namespaced child element, wherever it is placed, keeps the document a tree.
pub proof fn law_ns_child_creation_keeps_tree(
    d: DocumentModel,
    parent: u32,
    local: Seq<char>,
    decl: NamespaceDeclaration,
    attrs: Option<Seq<AttributeModel>>,
    placement: Placement,
)
    requires
        tree_wf(d),
        d.running_id < u32::MAX,
    ensures
        tree_wf(insert_ns_child_spec(d, parent, local, decl, attrs, placement).0),
{
    if d.elements.contains_key(parent) {
        let (tag, a) = ns_child_tag(d.elements[parent].scope, decl, local, attrs);
        law_child_creation_keeps_tree(d, parent, tag, a, placement);
    }
}

// ---------------------------------------------------------------------
// Names
// ---------------------------------------------------------------------

/// A tag whose first character is `:`, `-`, `.` or a digit is refused, for a root and for
/// a child of a stored element, and the document stays as it was.
pub proof fn law_tag_with_bad_first_character_is_refused(
    d: DocumentModel,
    parent: u32,
    tag: Seq<char>,
    attrs: Option<Seq<AttributeModel>>,
    placement: Placement,
)
    requires
        tag.len() > 0,
        tag[0] == ':' || tag[0] == '-' || tag[0] == '.' || is_ascii_digit(tag[0]),
    ensures
        create_root_spec(d, tag, attrs) == (d, Err::<u32, XmlError>(XmlError::InvalidTagName)),
        d.elements.contains_key(parent) ==> insert_child_spec(d, parent, tag, attrs, placement)
            == (d, Err::<u32, XmlError>(XmlError::InvalidTagName)),
{
    law_name_cannot_start_with_punctuation_or_digit(tag);
}


/// A child created before the first child with local tag `q` goes into its parent's
/// contents at index `i`, the other contents keeping their order: no child before it has
/// that tag, the one right after it does, and when none has it, it goes to the front.
pub proof fn law_child_created_before_first_tag(
    d: DocumentModel,
    parent: u32,
    tag: Seq<char>,
    attrs: Option<Seq<AttributeModel>>,
    q: Seq<char>,
) -> (i: int)
    requires
        ids_within_counter(d),
        d.running_id < u32::MAX,
        insert_child_spec(d, parent, tag, attrs, Placement::BeforeTag(q)).1 is Ok,
    ensures
        ({
            let (d2, r) = insert_child_spec(d, parent, tag, attrs, Placement::BeforeTag(q));
            let id = r->Ok_0;
            let cs = contents_or_empty(d.elements[parent]);
            &&& 0 <= i <= cs.len()
            &&& contents_or_empty(d2.elements[parent]) == cs.insert(i, child_item(id, d2.elements[id].tag, tag_ns(d2.elements[id])))
        }),
        forall|j: int| 0 <= j < i ==> !((#[trigger] contents_or_empty(d.elements[parent])[j]) is Element && contents_or_empty(d.elements[parent])[j]->Element_1 == q),
        (exists|j: int| 0 <= j < contents_or_empty(d.elements[parent]).len() && (#[trigger] contents_or_empty(d.elements[parent])[j]) is Element && contents_or_empty(d.elements[parent])[j]->Element_1 == q) ==> (
            i < contents_or_empty(d.elements[parent]).len() && contents_or_empty(d.elements[parent])[i] is Element
                && contents_or_empty(d.elements[parent])[i]->Element_1 == q),
        (forall|j: int| 0 <= j < contents_or_empty(d.elements[parent]).len() ==> !((#[trigger] contents_or_empty(d.elements[parent])[j]) is Element && contents_or_empty(d.elements[parent])[j]->Element_1 == q)) ==> i == 0,
{
    law_new_child_id_is_fresh(d, parent, tag, attrs, Placement::BeforeTag(q));
    let (d2, r) = insert_child_spec(d, parent, tag, attrs, Placement::BeforeTag(q));
    let id = r->Ok_0;
    let item = child_item(id, d2.elements[id].tag, tag_ns(d2.elements[id]));
    law_insert_before_first_tag(d.elements[parent], item, q)
}

/// A child created before the first child with namespaced tag `q` goes into its parent's
/// contents at index `i`, the other contents keeping their order: no child before it has
/// that tag, the one right after it does, and when none has it, it goes to the front.
pub proof fn law_child_created_before_first_tag_ns(
    d: DocumentModel,
    parent: u32,
    tag: Seq<char>,
    attrs: Option<Seq<AttributeModel>>,
    q: Seq<char>,
) -> (i: int)
    requires
        ids_within_counter(d),
        d.running_id < u32::MAX,
        insert_child_spec(d, parent, tag, attrs, Placement::BeforeTagNs(q)).1 is Ok,
    ensures
        ({
            let (d2, r) = insert_child_spec(d, parent, tag, attrs, Placement::BeforeTagNs(q));
            let id = r->Ok_0;
            let cs = contents_or_empty(d.elements[parent]);
            &&& 0 <= i <= cs.len()
            &&& contents_or_empty(d2.elements[parent]) == cs.insert(i, child_item(id, d2.elements[id].tag, tag_ns(d2.elements[id])))
        }),
        forall|j: int| 0 <= j < i ==> !((#[trigger] contents_or_empty(d.elements[parent])[j]) is Element && contents_or_empty(d.elements[parent])[j]->Element_2 == q),
        (exists|j: int| 0 <= j < contents_or_empty(d.elements[parent]).len() && (#[trigger] contents_or_empty(d.elements[parent])[j]) is Element && contents_or_empty(d.elements[parent])[j]->Element_2 == q) ==> (
            i < contents_or_empty(d.elements[parent]).len() && contents_or_empty(d.elements[parent])[i] is Element
                && contents_or_empty(d.elements[parent])[i]->Element_2 == q),
        (forall|j: int| 0 <= j < contents_or_empty(d.elements[parent]).len() ==> !((#[trigger] contents_or_empty(d.elements[parent])[j]) is Element && contents_or_empty(d.elements[parent])[j]->Element_2 == q)) ==> i == 0,
{
    law_new_child_id_is_fresh(d, parent, tag, attrs, Placement::BeforeTagNs(q));
    let (d2, r) = insert_child_spec(d, parent, tag, attrs, Placement::BeforeTagNs(q));
    let id = r->Ok_0;
    let item = child_item(id, d2.elements[id].tag, tag_ns(d2.elements[id]));
    law_insert_before_first_tag_ns(d.elements[parent], item, q)
}

/// The search for all children with an attribute value succeeds when every child item
/// names a stored element.
pub proof fn law_all_by_attribute_succeeds(
    els: Map<u32, ElementModel>,
    cs: Seq<ContentModel>,
    name: Seq<char>,
    value: Seq<char>,
)
    requires
        forall|i: int| 0 <= i < cs.len() && (#[trigger] cs[i]) is Element ==> els.contains_key(content_id(cs[i])),
    ensures
        all_by_attr(els, cs, name, value) is Ok,
    decreases cs.len(),
{
    if cs.len() > 0 {
        let rest = cs.drop_last();
        assert forall|i: int| 0 <= i < rest.len() && (#[trigger] rest[i]) is Element implies els.contains_key(content_id(rest[i])) by {
            assert(rest[i] == cs[i]);
        }
        law_all_by_attribute_succeeds(els, rest, name, value);
        assert(cs.last() == cs[cs.len() - 1]);
    }
}

} // verus!
