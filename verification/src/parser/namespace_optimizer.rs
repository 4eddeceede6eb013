//! Placement of prefixed namespace declarations.
//!
//! Every used `alias -> uri` binding is declared once, at the lowest common ancestor of the
//! elements that use it, unless that ancestor already binds the alias to another URI, or a
//! binding of the same alias to another URI could be declared on the way from that ancestor
//! down to a user (or this one on the way down to a user of the other); then it is declared
//! at each user. Bindings nobody uses are dropped. The default namespace is left to the
//! elements' own declarations.
use vstd::prelude::*;
use std::collections::HashMap;
use crate::error::XmlError;
use crate::text::{unicode_whitespace, char_is_whitespace, string_push, to_string, copy_string, str_eq};
use crate::dom::assoc::{Pairs, pairs_view, lookup, assoc_put, vec_lookup, vec_put};
use crate::dom::attribute::{AttributeModel, XmlAttribute};
use crate::dom::namespace::{scope_url, opt_string_view};
use crate::dom::element::{
    XmlElement, XmlElementContentType, ElementModel, ContentModel, NodeId, contents_or_empty,
    attrs_or_empty, contents_view, attrs_view,
};
use crate::dom::document::{XmlDocument, DocumentModel};
use crate::parser::plan::{
    NamespacePlan, PlanModel, plan_entries, entries_map, plan_view, unique_ids, plan_lookup,
    lemma_plan_update, lemma_plan_push,
};

verus! {

broadcast use vstd::std_specs::hash::group_hash_axioms;

/// The namespace whose attributes (`Ignorable`, `ProcessContent`, ...) list further aliases
/// in their values.
pub const MARKUP_COMPATIBILITY_URI: &'static str = "http://schemas.openxmlformats.org/markup-compatibility/2006";

/// The most elements a traversal visits before it reports a cycle.
pub const VISIT_LIMIT: u64 = 0xFFFF_FFFF;

/// Computes an optimized placement for prefixed namespace declarations.
pub(crate) struct NamespaceOptimizer;

/// One visit of the traversal: the node, its parent and its depth.
pub type Visit = (NodeId, Option<NodeId>, u32);

// ---------------------------------------------------------------------
// Traversal
// ---------------------------------------------------------------------

/// The child element ids among contents, in order.
pub open spec fn child_ids(cs: Seq<ContentModel>) -> Seq<u32>
    decreases cs.len(),
{
    if cs.len() == 0 {
        Seq::empty()
    } else {
        child_ids(cs.drop_last()) + match cs.last() {
            ContentModel::Element(id, _, _) => seq![id],
            _ => Seq::empty(),
        }
    }
}

/// The stack entries for the children of `parent`, which sits at `depth`.
pub open spec fn child_visits(ids: Seq<u32>, parent: u32, depth: u32) -> Seq<Visit> {
    ids.map_values(|c: u32| (c, Some(parent), (depth + 1) as u32))
}

/// `p` in front of a successful result.
pub open spec fn prepend<T>(p: Seq<T>, r: Result<Seq<T>, XmlError>) -> Result<Seq<T>, XmlError> {
    match r {
        Ok(s) => Ok(p + s),
        Err(e) => Err(e),
    }
}

/// The visits of a depth-first traversal from `stack`: the last entry is taken, visited and
/// replaced by its child elements in content order; at most `fuel` visits.
pub open spec fn traverse(els: Map<u32, ElementModel>, stack: Seq<Visit>, fuel: nat) -> Result<Seq<Visit>, XmlError>
    decreases fuel,
{
    if stack.len() == 0 {
        Ok(Seq::empty())
    } else if fuel == 0 {
        Err(XmlError::CyclicTree)
    } else {
        let v = stack.last();
        if !els.contains_key(v.0) {
            Err(XmlError::ElementNotFound(v.0))
        } else {
            prepend(
                seq![v],
                traverse(
                    els,
                    stack.drop_last() + child_visits(child_ids(contents_or_empty(els[v.0])), v.0, v.2),
                    (fuel - 1) as nat,
                ),
            )
        }
    }
}

/// The visits of the whole document, from its root.
pub open spec fn document_visits(d: DocumentModel) -> Result<Seq<Visit>, XmlError> {
    traverse(d.elements, seq![(d.root_id, None, 0u32)], VISIT_LIMIT as nat)
}

/// The parent recorded for each visited node (its last visit counts).
pub open spec fn parent_map(vs: Seq<Visit>) -> Map<u32, Option<u32>>
    decreases vs.len(),
{
    if vs.len() == 0 {
        Map::empty()
    } else {
        parent_map(vs.drop_last()).insert(vs.last().0, vs.last().1)
    }
}

/// The depth recorded for each visited node (its last visit counts).
pub open spec fn depth_map(vs: Seq<Visit>) -> Map<u32, u32>
    decreases vs.len(),
{
    if vs.len() == 0 {
        Map::empty()
    } else {
        depth_map(vs.drop_last()).insert(vs.last().0, vs.last().2)
    }
}

proof fn lemma_prepend_prepend<T>(p: Seq<T>, q: Seq<T>, r: Result<Seq<T>, XmlError>)
    ensures
        prepend(p, prepend(q, r)) == prepend(p + q, r),
{
    match r {
        Ok(s) => {
            assert(p + (q + s) =~= (p + q) + s);
        },
        Err(_) => {},
    }
}

proof fn lemma_child_ids_step(cs: Seq<ContentModel>, j: int)
    requires
        0 <= j < cs.len(),
    ensures
        child_ids(cs.take(j + 1)) == child_ids(cs.take(j)) + match cs[j] {
            ContentModel::Element(id, _, _) => seq![id],
            _ => Seq::<u32>::empty(),
        },
{
    assert(cs.take(j + 1).drop_last() =~= cs.take(j));
}

/// The traversal of the document with the parent and depth of each visited node.
fn collect_visits(document: &XmlDocument) -> (r: Result<(Vec<Visit>, HashMap<NodeId, Option<NodeId>>, HashMap<NodeId, u32>), XmlError>)
    ensures
        match r {
            Ok((vs, parents, depths)) => {
                &&& document_visits(document@) == Ok::<Seq<Visit>, XmlError>(vs@)
                &&& parents@ == parent_map(vs@)
                &&& depths@ == depth_map(vs@)
                &&& vs@.len() <= VISIT_LIMIT
                &&& forall|k: int| 0 <= k < vs@.len() ==> document@.elements.contains_key(#[trigger] vs@[k].0)
            },
            Err(e) => document_visits(document@) == Err::<Seq<Visit>, XmlError>(e),
        },
{
    let ghost els = document@.elements;
    let ghost start = seq![(document@.root_id, None::<u32>, 0u32)];
    let mut stack: Vec<Visit> = Vec::new();
    stack.push((document.get_root_id(), None, 0));
    assert(stack@ =~= start);
    let mut visits: Vec<Visit> = Vec::new();
    let mut parents: HashMap<NodeId, Option<NodeId>> = HashMap::new();
    let mut depths: HashMap<NodeId, u32> = HashMap::new();
    assert(prepend(visits@, traverse(els, stack@, VISIT_LIMIT as nat)) == traverse(els, start, VISIT_LIMIT as nat)) by {
        assert(visits@ =~= Seq::<Visit>::empty());
        match traverse(els, stack@, VISIT_LIMIT as nat) {
            Ok(s) => {
                assert(visits@ + s =~= s);
            },
            Err(_) => {},
        }
    }
    while stack.len() > 0
        invariant
            els == document@.elements,
            visits@.len() <= VISIT_LIMIT,
            prepend(visits@, traverse(els, stack@, (VISIT_LIMIT - visits@.len()) as nat)) == traverse(
                els,
                start,
                VISIT_LIMIT as nat,
            ),
            forall|k: int| 0 <= k < stack@.len() ==> #[trigger] stack@[k].2 <= visits@.len(),
            forall|k: int| 0 <= k < visits@.len() ==> els.contains_key(#[trigger] visits@[k].0),
            parents@ == parent_map(visits@),
            depths@ == depth_map(visits@),
            start == seq![(document@.root_id, None::<u32>, 0u32)],
        decreases VISIT_LIMIT - visits@.len(),
    {
        let ghost old_stack = stack@;
        let ghost old_visits = visits@;
        let ghost fuel = (VISIT_LIMIT - visits@.len()) as nat;
        if visits.len() as u64 >= VISIT_LIMIT {
            return Err(XmlError::CyclicTree);
        }
        let v = stack.pop().unwrap();
        assert(v == old_stack.last());
        assert(stack@ == old_stack.drop_last());
        let element = match document.get_element(v.0) {
            Ok(e) => e,
            Err(e) => {
                return Err(e);
            },
        };
        parents.insert(v.0, v.1);
        depths.insert(v.0, v.2);
        visits.push(v);
        assert(visits@.drop_last() == old_visits);
        assert(v.2 <= old_visits.len());
        let ghost base = stack@;
        let ghost cv = contents_or_empty(els[v.0]);
        match element.get_child_contents() {
            Some(contents) => {
                assert(cv == contents_view(contents@));
                let mut j: usize = 0;
                assert(cv.take(0) =~= Seq::<ContentModel>::empty());
                assert(stack@ =~= base + child_visits(child_ids(cv.take(0)), v.0, v.2));
                while j < contents.len()
                    invariant
                        j <= contents.len(),
                        cv == contents_view(contents@),
                        v.2 <= old_visits.len(),
                        old_visits.len() < VISIT_LIMIT,
                        stack@ == base + child_visits(child_ids(cv.take(j as int)), v.0, v.2),
                    decreases contents.len() - j,
                {
                    proof {
                        lemma_child_ids_step(cv, j as int);
                    }
                    assert(cv[j as int] == contents@[j as int]@);
                    match &contents[j] {
                        XmlElementContentType::Element(t) => {
                            stack.push((t.0, Some(v.0), v.2 + 1));
                            assert(stack@ =~= base + child_visits(child_ids(cv.take(j + 1)), v.0, v.2));
                        },
                        _ => {
                            assert(child_ids(cv.take(j + 1)) =~= child_ids(cv.take(j as int)));
                        },
                    }
                    j = j + 1;
                }
                assert(cv.take(contents.len() as int) =~= cv);
            },
            None => {
                assert(cv == Seq::<ContentModel>::empty());
                assert(child_ids(cv) =~= Seq::<u32>::empty());
                assert(stack@ =~= base + child_visits(child_ids(cv), v.0, v.2));
            },
        }
        proof {
            assert(stack@ == old_stack.drop_last() + child_visits(child_ids(cv), v.0, v.2));
            assert(traverse(els, old_stack, fuel) == prepend(seq![v], traverse(els, stack@, (fuel - 1) as nat)));
            lemma_prepend_prepend(old_visits, seq![v], traverse(els, stack@, (fuel - 1) as nat));
            assert(old_visits + seq![v] =~= visits@);
            assert(forall|k: int| 0 <= k < stack@.len() ==> #[trigger] stack@[k].2 <= visits@.len()) by {
                assert forall|k: int| 0 <= k < stack@.len() implies #[trigger] stack@[k].2 <= visits@.len() by {
                    if k < base.len() {
                        assert(stack@[k] == old_stack[k]);
                    } else {
                        assert(stack@[k] == child_visits(child_ids(cv), v.0, v.2)[k - base.len()]);
                    }
                }
            }
            assert(parents@ =~= parent_map(visits@));
            assert(depths@ =~= depth_map(visits@));
        }
    }
    proof {
        assert(traverse(els, stack@, (VISIT_LIMIT - visits@.len()) as nat) == Ok::<Seq<Visit>, XmlError>(Seq::empty()));
        assert(visits@ + Seq::<Visit>::empty() =~= visits@);
    }
    Ok((visits, parents, depths))
}

// ---------------------------------------------------------------------
// Uses of prefixed namespaces
// ---------------------------------------------------------------------

/// An `(alias, uri)` binding.
pub type Binding = (Seq<char>, Seq<char>);

/// A use of a binding by a node.
pub type Use = (Binding, u32);

/// The tokens of `s` between whitespace, with `cur` already read of the first one.
pub open spec fn ws_tokens(s: Seq<char>, cur: Seq<char>) -> Seq<Seq<char>>
    decreases s.len(),
{
    if s.len() == 0 {
        if cur.len() > 0 {
            seq![cur]
        } else {
            Seq::empty()
        }
    } else if unicode_whitespace(s[0]) {
        (if cur.len() > 0 {
            seq![cur]
        } else {
            Seq::empty()
        }) + ws_tokens(s.drop_first(), Seq::empty())
    } else {
        ws_tokens(s.drop_first(), cur.push(s[0]))
    }
}

/// The non-empty pieces of `s` separated by whitespace, in order.
pub open spec fn split_ws(s: Seq<char>) -> Seq<Seq<char>> {
    ws_tokens(s, Seq::empty())
}

/// The binding of `alias` in the element's scope, when it has one.
pub open spec fn resolved_use(e: ElementModel, alias: Seq<char>) -> Seq<Binding> {
    match scope_url(e.scope, alias) {
        Some(u) => seq![(alias, u)],
        None => Seq::empty(),
    }
}

/// The use by the element's tag of a non-empty alias.
pub open spec fn tag_uses(e: ElementModel) -> Seq<Binding> {
    match e.ns_alias {
        Some(a) => if a.len() > 0 {
            resolved_use(e, a)
        } else {
            Seq::empty()
        },
        None => Seq::empty(),
    }
}

/// The uses of the tokens that resolve in the element's scope.
pub open spec fn token_uses(e: ElementModel, toks: Seq<Seq<char>>) -> Seq<Binding>
    decreases toks.len(),
{
    if toks.len() == 0 {
        Seq::empty()
    } else {
        token_uses(e, toks.drop_last()) + resolved_use(e, toks.last())
    }
}

/// The uses by one attribute: its non-empty alias and, when that alias names the
/// markup-compatibility namespace, each token of its value.
pub open spec fn attr_uses(e: ElementModel, a: AttributeModel) -> Seq<Binding> {
    match a.ns_alias {
        Some(al) => if al.len() > 0 {
            resolved_use(e, al) + if scope_url(e.scope, al) == Some(MARKUP_COMPATIBILITY_URI@) {
                token_uses(e, split_ws(a.value))
            } else {
                Seq::empty()
            }
        } else {
            Seq::empty()
        },
        None => Seq::empty(),
    }
}

/// The uses by the attributes, in order.
pub open spec fn attrs_uses(e: ElementModel, attrs: Seq<AttributeModel>) -> Seq<Binding>
    decreases attrs.len(),
{
    if attrs.len() == 0 {
        Seq::empty()
    } else {
        attrs_uses(e, attrs.drop_last()) + attr_uses(e, attrs.last())
    }
}

/// The uses by one element: its tag, then its attributes.
pub open spec fn element_uses(e: ElementModel) -> Seq<Binding> {
    tag_uses(e) + attrs_uses(e, attrs_or_empty(e))
}

/// Bindings used by node `n`.
pub open spec fn tagged(bs: Seq<Binding>, n: u32) -> Seq<Use> {
    bs.map_values(|b: Binding| (b, n))
}

/// The uses by the visited nodes, in visit order.
pub open spec fn visit_uses(els: Map<u32, ElementModel>, vs: Seq<Visit>) -> Seq<Use>
    decreases vs.len(),
{
    if vs.len() == 0 {
        Seq::empty()
    } else {
        visit_uses(els, vs.drop_last()) + tagged(element_uses(els[vs.last().0]), vs.last().0)
    }
}

/// The model of the collected uses.
pub open spec fn uses_view(v: Seq<(String, String, NodeId)>) -> Seq<Use> {
    v.map_values(|t: (String, String, NodeId)| ((t.0@, t.1@), t.2))
}

/// The whitespace-separated tokens of `s`.
fn split_whitespace(s: &str) -> (r: Vec<String>)
    ensures
        r@.map_values(|t: String| t@) == split_ws(s@),
{
    let mut tokens: Vec<String> = Vec::new();
    let mut cur = String::new();
    let n = s.unicode_len();
    let mut i: usize = 0;
    assert(s@.skip(0) =~= s@);
    while i < n
        invariant
            n == s@.len(),
            i <= n,
            tokens@.map_values(|t: String| t@) + ws_tokens(s@.skip(i as int), cur@) == split_ws(s@),
        decreases n - i,
    {
        let c = s.get_char(i);
        let ghost rest = s@.skip(i as int);
        assert(rest[0] == c);
        assert(rest.drop_first() =~= s@.skip(i + 1));
        let ghost old_cur = cur@;
        if char_is_whitespace(c) {
            assert(ws_tokens(rest, old_cur) == (if old_cur.len() > 0 {
                seq![old_cur]
            } else {
                Seq::empty()
            }) + ws_tokens(s@.skip(i + 1), Seq::empty()));
            if cur.unicode_len() > 0 {
                let ghost before = tokens@.map_values(|t: String| t@);
                let done = cur;
                cur = String::new();
                tokens.push(done);
                assert(tokens@.map_values(|t: String| t@) =~= before + seq![done@]);
            } else {
                assert(cur@ =~= Seq::<char>::empty());
            }
            assert(tokens@.map_values(|t: String| t@) + ws_tokens(s@.skip(i + 1), cur@) =~= split_ws(s@));
        } else {
            string_push(&mut cur, c);
        }
        i = i + 1;
    }
    assert(s@.skip(n as int) =~= Seq::<char>::empty());
    if cur.unicode_len() > 0 {
        let ghost before = tokens@.map_values(|t: String| t@);
        let ghost last = cur@;
        tokens.push(cur);
        assert(tokens@.map_values(|t: String| t@) =~= before + seq![last]);
    }
    assert(tokens@.map_values(|t: String| t@) =~= split_ws(s@));
    tokens
}


proof fn lemma_tagged_add(a: Seq<Binding>, b: Seq<Binding>, n: u32)
    ensures
        tagged(a + b, n) == tagged(a, n) + tagged(b, n),
{
    assert(tagged(a + b, n) =~= tagged(a, n) + tagged(b, n));
}

/// Appends the use of `alias` by node `id` when the alias resolves; gives its URI.
fn push_resolved(e: &XmlElement, alias: &str, id: NodeId, uses: &mut Vec<(String, String, NodeId)>) -> (r: Option<String>)
    ensures
        opt_string_view(r) == scope_url(e@.scope, alias@),
        uses_view(final(uses)@) == uses_view(old(uses)@) + tagged(resolved_use(e@, alias@), id),
{
    let ghost u0 = uses_view(uses@);
    let r = e.resolve_alias_to_uri(alias);
    match &r {
        Some(u) => {
            uses.push((to_string(alias), copy_string(u), id));
            assert(uses_view(uses@) =~= u0 + tagged(resolved_use(e@, alias@), id));
        },
        None => {
            assert(uses_view(uses@) =~= u0 + tagged(resolved_use(e@, alias@), id));
        },
    }
    r
}

/// Appends the uses by one attribute of `e`.
fn push_attribute_uses(e: &XmlElement, a: &XmlAttribute, id: NodeId, uses: &mut Vec<(String, String, NodeId)>)
    ensures
        uses_view(final(uses)@) == uses_view(old(uses)@) + tagged(attr_uses(e@, a@), id),
{
    let ghost u0 = uses_view(uses@);
    match a.get_ns_alias() {
        Some(al) => {
            if al.unicode_len() > 0 {
                let r = push_resolved(e, al, id, uses);
                let ghost u1 = uses_view(uses@);
                let ghost first = resolved_use(e@, al@);
                let is_mc = match &r {
                    Some(u) => str_eq(u.as_str(), MARKUP_COMPATIBILITY_URI),
                    None => false,
                };
                if is_mc {
                    let toks = split_whitespace(a.get_value());
                    let ghost tv = toks@.map_values(|t: String| t@);
                    let mut k: usize = 0;
                    assert(tv.take(0) =~= Seq::<Seq<char>>::empty());
                    assert(uses_view(uses@) =~= u1 + tagged(token_uses(e@, tv.take(0)), id));
                    while k < toks.len()
                        invariant
                            k <= toks.len(),
                            tv == toks@.map_values(|t: String| t@),
                            uses_view(uses@) == u1 + tagged(token_uses(e@, tv.take(k as int)), id),
                        decreases toks.len() - k,
                    {
                        let ghost before = uses_view(uses@);
                        push_resolved(e, toks[k].as_str(), id, uses);
                        proof {
                            assert(tv.take(k + 1).drop_last() =~= tv.take(k as int));
                            assert(tv[k as int] == toks@[k as int]@);
                            lemma_tagged_add(token_uses(e@, tv.take(k as int)), resolved_use(e@, tv[k as int]), id);
                            assert(uses_view(uses@) =~= u1 + tagged(token_uses(e@, tv.take(k + 1)), id));
                        }
                        k = k + 1;
                    }
                    proof {
                        assert(tv.take(toks@.len() as int) =~= tv);
                        lemma_tagged_add(first, token_uses(e@, split_ws(a@.value)), id);
                        assert(uses_view(uses@) =~= u0 + tagged(attr_uses(e@, a@), id));
                    }
                } else {
                    proof {
                        lemma_tagged_add(first, Seq::empty(), id);
                        assert(first + Seq::<Binding>::empty() =~= first);
                        assert(uses_view(uses@) =~= u0 + tagged(attr_uses(e@, a@), id));
                    }
                }
            } else {
                assert(uses_view(uses@) =~= u0 + tagged(attr_uses(e@, a@), id));
            }
        },
        None => {
            assert(uses_view(uses@) =~= u0 + tagged(attr_uses(e@, a@), id));
        },
    }
}

/// Appends the uses by one element: its tag, then its attributes.
fn push_element_uses(e: &XmlElement, id: NodeId, uses: &mut Vec<(String, String, NodeId)>)
    ensures
        uses_view(final(uses)@) == uses_view(old(uses)@) + tagged(element_uses(e@), id),
{
    let ghost u0 = uses_view(uses@);
    match e.get_tag_alias() {
        Some(a) => {
            if a.unicode_len() > 0 {
                push_resolved(e, a, id, uses);
            } else {
                assert(uses_view(uses@) =~= u0 + tagged(tag_uses(e@), id));
            }
        },
        None => {
            assert(uses_view(uses@) =~= u0 + tagged(tag_uses(e@), id));
        },
    }
    let ghost u1 = uses_view(uses@);
    match e.get_attributes() {
        Some(attrs) => {
            let ghost av = attrs_view(attrs@);
            let mut i: usize = 0;
            assert(av.take(0) =~= Seq::<AttributeModel>::empty());
            assert(uses_view(uses@) =~= u1 + tagged(attrs_uses(e@, av.take(0)), id));
            while i < attrs.len()
                invariant
                    i <= attrs.len(),
                    av == attrs_view(attrs@),
                    uses_view(uses@) == u1 + tagged(attrs_uses(e@, av.take(i as int)), id),
                decreases attrs.len() - i,
            {
                push_attribute_uses(e, &attrs[i], id, uses);
                proof {
                    assert(av.take(i + 1).drop_last() =~= av.take(i as int));
                    assert(av[i as int] == attrs@[i as int]@);
                    lemma_tagged_add(attrs_uses(e@, av.take(i as int)), attr_uses(e@, av[i as int]), id);
                    assert(uses_view(uses@) =~= u1 + tagged(attrs_uses(e@, av.take(i + 1)), id));
                }
                i = i + 1;
            }
            proof {
                assert(av.take(attrs@.len() as int) =~= av);
                assert(attrs_or_empty(e@) == av);
            }
        },
        None => {
            assert(attrs_uses(e@, attrs_or_empty(e@)) =~= Seq::<Binding>::empty());
            assert(uses_view(uses@) =~= u1 + tagged(attrs_uses(e@, attrs_or_empty(e@)), id));
        },
    }
    proof {
        lemma_tagged_add(tag_uses(e@), attrs_uses(e@, attrs_or_empty(e@)), id);
        assert(uses_view(uses@) =~= u0 + tagged(element_uses(e@), id));
    }
}

/// The uses by the visited nodes, in visit order.
fn collect_uses(document: &XmlDocument, visits: &Vec<Visit>) -> (r: Vec<(String, String, NodeId)>)
    requires
        forall|k: int| 0 <= k < visits@.len() ==> document@.elements.contains_key(#[trigger] visits@[k].0),
    ensures
        uses_view(r@) == visit_uses(document@.elements, visits@),
{
    let ghost els = document@.elements;
    let mut uses: Vec<(String, String, NodeId)> = Vec::new();
    let mut i: usize = 0;
    assert(visits@.take(0) =~= Seq::<Visit>::empty());
    assert(uses_view(uses@) =~= visit_uses(els, visits@.take(0)));
    while i < visits.len()
        invariant
            i <= visits.len(),
            els == document@.elements,
            forall|k: int| 0 <= k < visits@.len() ==> els.contains_key(#[trigger] visits@[k].0),
            uses_view(uses@) == visit_uses(els, visits@.take(i as int)),
        decreases visits.len() - i,
    {
        let id = visits[i].0;
        assert(els.contains_key(visits@[i as int].0));
        match document.get_element(id) {
            Ok(e) => {
                push_element_uses(e, id, &mut uses);
            },
            Err(_) => {
                return uses;
            },
        }
        assert(visits@.take(i + 1).drop_last() =~= visits@.take(i as int));
        i = i + 1;
    }
    assert(visits@.take(visits@.len() as int) =~= visits@);
    uses
}

// ---------------------------------------------------------------------
// Order of the bindings
// ---------------------------------------------------------------------

/// Lexicographic order of character sequences, by code point (the order of their UTF-8
/// bytes).
pub open spec fn seq_lt(a: Seq<char>, b: Seq<char>) -> bool
    decreases a.len(),
{
    if a.len() == 0 {
        b.len() > 0
    } else if b.len() == 0 {
        false
    } else if a[0] != b[0] {
        a[0] < b[0]
    } else {
        seq_lt(a.drop_first(), b.drop_first())
    }
}

/// Bindings ordered by alias, then by URI.
pub open spec fn binding_lt(x: Binding, y: Binding) -> bool {
    seq_lt(x.0, y.0) || (x.0 == y.0 && seq_lt(x.1, y.1))
}

/// `k` inserted into the ordered bindings `ks` before the first one not below it, unless
/// it is there already.
pub open spec fn insert_key(ks: Seq<Binding>, k: Binding) -> Seq<Binding>
    decreases ks.len(),
{
    if ks.len() == 0 {
        seq![k]
    } else if ks[0] == k {
        ks
    } else if binding_lt(ks[0], k) {
        seq![ks[0]] + insert_key(ks.drop_first(), k)
    } else {
        seq![k] + ks
    }
}

/// The bindings used, each once, in order.
pub open spec fn key_order(uses: Seq<Use>) -> Seq<Binding>
    decreases uses.len(),
{
    if uses.len() == 0 {
        Seq::empty()
    } else {
        insert_key(key_order(uses.drop_last()), uses.last().0)
    }
}

/// Whether `a` comes before `b`.
fn str_lt(a: &str, b: &str) -> (r: bool)
    ensures
        r == seq_lt(a@, b@),
{
    let na = a.unicode_len();
    let nb = b.unicode_len();
    let mut i: usize = 0;
    assert(a@.skip(0) =~= a@);
    assert(b@.skip(0) =~= b@);
    while i < na && i < nb
        invariant
            na == a@.len(),
            nb == b@.len(),
            i <= na,
            i <= nb,
            seq_lt(a@, b@) == seq_lt(a@.skip(i as int), b@.skip(i as int)),
        decreases na - i,
    {
        let ca = a.get_char(i);
        let cb = b.get_char(i);
        assert(a@.skip(i as int)[0] == ca);
        assert(b@.skip(i as int)[0] == cb);
        if ca != cb {
            return ca < cb;
        }
        assert(a@.skip(i as int).drop_first() =~= a@.skip(i + 1));
        assert(b@.skip(i as int).drop_first() =~= b@.skip(i + 1));
        i = i + 1;
    }
    i == na && i < nb
}

/// Whether binding `x` comes before `(alias, uri)`.
fn binding_before(x: &(String, String), alias: &str, uri: &str) -> (r: bool)
    ensures
        r == binding_lt((x.0@, x.1@), (alias@, uri@)),
{
    if str_lt(x.0.as_str(), alias) {
        true
    } else if str_eq(x.0.as_str(), alias) {
        str_lt(x.1.as_str(), uri)
    } else {
        false
    }
}

/// Inserts `(alias, uri)` into the ordered bindings.
fn insert_binding(keys: &mut Vec<(String, String)>, alias: &str, uri: &str)
    ensures
        pairs_view(final(keys)@) == insert_key(pairs_view(old(keys)@), (alias@, uri@)),
{
    let ghost kv = pairs_view(keys@);
    let ghost k = (alias@, uri@);
    let mut j: usize = 0;
    assert(kv.skip(0) =~= kv);
    assert(kv.take(0) + kv.skip(0) =~= kv);
    while j < keys.len()
        invariant
            j <= keys.len(),
            kv == pairs_view(keys@),
            kv == pairs_view(old(keys)@),
            k == (alias@, uri@),
            insert_key(kv, k) == kv.take(j as int) + insert_key(kv.skip(j as int), k),
        decreases keys.len() - j,
    {
        let ghost rest = kv.skip(j as int);
        assert(rest[0] == kv[j as int]);
        assert(kv[j as int] == (keys@[j as int].0@, keys@[j as int].1@));
        if str_eq(keys[j].0.as_str(), alias) && str_eq(keys[j].1.as_str(), uri) {
            assert(kv.take(j as int) + rest =~= kv);
            return;
        }
        if !binding_before(&keys[j], alias, uri) {
            keys.insert(j, (to_string(alias), to_string(uri)));
            assert(pairs_view(keys@) =~= kv.take(j as int) + (seq![k] + rest));
            return;
        }
        assert(rest.drop_first() =~= kv.skip(j + 1));
        assert(kv.take(j as int) + seq![kv[j as int]] =~= kv.take(j + 1));
        j = j + 1;
    }
    assert(kv.skip(j as int) =~= Seq::<Binding>::empty());
    assert(kv.take(j as int) =~= kv);
    keys.push((to_string(alias), to_string(uri)));
    assert(pairs_view(keys@) =~= kv + seq![k]);
}

/// The bindings used, each once, in order.
fn collect_keys(uses: &Vec<(String, String, NodeId)>) -> (r: Vec<(String, String)>)
    ensures
        pairs_view(r@) == key_order(uses_view(uses@)),
{
    let ghost uv = uses_view(uses@);
    let mut keys: Vec<(String, String)> = Vec::new();
    let mut i: usize = 0;
    assert(uv.take(0) =~= Seq::<Use>::empty());
    assert(pairs_view(keys@) =~= key_order(uv.take(0)));
    while i < uses.len()
        invariant
            i <= uses.len(),
            uv == uses_view(uses@),
            pairs_view(keys@) == key_order(uv.take(i as int)),
        decreases uses.len() - i,
    {
        insert_binding(&mut keys, uses[i].0.as_str(), uses[i].1.as_str());
        assert(uv.take(i + 1).drop_last() =~= uv.take(i as int));
        assert(uv[i as int] == ((uses@[i as int].0@, uses@[i as int].1@), uses@[i as int].2));
        i = i + 1;
    }
    assert(uv.take(uses@.len() as int) =~= uv);
    keys
}

// ---------------------------------------------------------------------
// Lowest common ancestors
// ---------------------------------------------------------------------

/// The nodes that use binding `k`, in order, once per use.
pub open spec fn sites_of(uses: Seq<Use>, k: Binding) -> Seq<u32>
    decreases uses.len(),
{
    if uses.len() == 0 {
        Seq::empty()
    } else {
        sites_of(uses.drop_last(), k) + if uses.last().0 == k {
            seq![uses.last().1]
        } else {
            Seq::empty()
        }
    }
}

/// The parent recorded for `n`.
pub open spec fn parent_step(parents: Map<u32, Option<u32>>, n: u32) -> Option<u32> {
    if parents.contains_key(n) {
        parents[n]
    } else {
        None
    }
}

/// The ancestor `k` levels above `n`.
pub open spec fn climb(parents: Map<u32, Option<u32>>, n: u32, k: nat) -> Option<u32>
    decreases k,
{
    if k == 0 {
        Some(n)
    } else {
        match parent_step(parents, n) {
            Some(p) => climb(parents, p, (k - 1) as nat),
            None => None,
        }
    }
}

/// Where `h` and `l` meet when both climb one level at a time, within `fuel` levels.
pub open spec fn meet(parents: Map<u32, Option<u32>>, h: u32, l: u32, fuel: nat) -> Option<u32>
    decreases fuel,
{
    if h == l {
        Some(h)
    } else if fuel == 0 {
        None
    } else {
        match parent_step(parents, h) {
            Some(a) => match parent_step(parents, l) {
                Some(b) => meet(parents, a, b, (fuel - 1) as nat),
                None => None,
            },
            None => None,
        }
    }
}

/// The lowest common ancestor of `a` and `b`: the deeper climbs to the depth of the other,
/// then both climb until they meet.
pub open spec fn lca_pair(parents: Map<u32, Option<u32>>, depths: Map<u32, u32>, a: u32, b: u32, fuel: nat) -> Option<u32> {
    if !depths.contains_key(a) || !depths.contains_key(b) {
        None
    } else {
        let da = depths[a];
        let db = depths[b];
        let h = if da > db {
            climb(parents, a, (da - db) as nat)
        } else {
            Some(a)
        };
        let l = if db > da {
            climb(parents, b, (db - da) as nat)
        } else {
            Some(b)
        };
        match h {
            Some(x) => match l {
                Some(y) => meet(parents, x, y, fuel),
                None => None,
            },
            None => None,
        }
    }
}

/// The lowest common ancestor of the nodes, taken pairwise from the first.
pub open spec fn lca_all(parents: Map<u32, Option<u32>>, depths: Map<u32, u32>, ns: Seq<u32>, fuel: nat) -> Option<u32>
    decreases ns.len(),
{
    if ns.len() == 0 {
        None
    } else if ns.len() == 1 {
        Some(ns[0])
    } else {
        match lca_all(parents, depths, ns.drop_last(), fuel) {
            Some(c) => lca_pair(parents, depths, c, ns.last(), fuel),
            None => None,
        }
    }
}

/// The nodes that use `(alias, uri)`.
fn collect_sites(uses: &Vec<(String, String, NodeId)>, alias: &str, uri: &str) -> (r: Vec<NodeId>)
    ensures
        r@ == sites_of(uses_view(uses@), (alias@, uri@)),
{
    let ghost uv = uses_view(uses@);
    let mut sites: Vec<NodeId> = Vec::new();
    let mut i: usize = 0;
    assert(uv.take(0) =~= Seq::<Use>::empty());
    while i < uses.len()
        invariant
            i <= uses.len(),
            uv == uses_view(uses@),
            sites@ == sites_of(uv.take(i as int), (alias@, uri@)),
        decreases uses.len() - i,
    {
        assert(uv.take(i + 1).drop_last() =~= uv.take(i as int));
        assert(uv[i as int] == ((uses@[i as int].0@, uses@[i as int].1@), uses@[i as int].2));
        if str_eq(uses[i].0.as_str(), alias) && str_eq(uses[i].1.as_str(), uri) {
            sites.push(uses[i].2);
            assert(sites@ =~= sites_of(uv.take(i + 1), (alias@, uri@)));
        } else {
            assert(sites@ =~= sites_of(uv.take(i + 1), (alias@, uri@)));
        }
        i = i + 1;
    }
    assert(uv.take(uses@.len() as int) =~= uv);
    sites
}

/// The parent recorded for `n`.
fn parent_of(parents: &HashMap<NodeId, Option<NodeId>>, n: NodeId) -> (r: Option<NodeId>)
    ensures
        r == parent_step(parents@, n),
{
    match parents.get(&n) {
        Some(p) => *p,
        None => None,
    }
}

/// The lowest common ancestor of two nodes.
fn pairwise_lowest_common_ancestor(
    parents: &HashMap<NodeId, Option<NodeId>>,
    depths: &HashMap<NodeId, u32>,
    first: NodeId,
    second: NodeId,
    fuel: u64,
) -> (r: Option<NodeId>)
    ensures
        r == lca_pair(parents@, depths@, first, second, fuel as nat),
{
    let mut higher = first;
    let mut lower = second;
    let mut higher_depth: u32 = match depths.get(&higher) {
        Some(d) => *d,
        None => {
            return None;
        },
    };
    let mut lower_depth: u32 = match depths.get(&lower) {
        Some(d) => *d,
        None => {
            return None;
        },
    };
    let ghost da = higher_depth;
    let ghost db = lower_depth;
    let ghost p = parents@;
    let ghost dm = depths@;
    let ghost target = lca_pair(p, dm, first, second, fuel as nat);
    assert(dm.contains_key(first) && dm[first] == da);
    assert(dm.contains_key(second) && dm[second] == db);
    while higher_depth > lower_depth
        invariant
            p == parents@,
            dm == depths@,
            lower_depth == db,
            lower == second,
            dm.contains_key(first) && dm[first] == da,
            dm.contains_key(second) && dm[second] == db,
            target == lca_pair(p, dm, first, second, fuel as nat),
            da > db ==> db <= higher_depth <= da && climb(p, first, (da - db) as nat) == climb(
                p,
                higher,
                (higher_depth - db) as nat,
            ),
            da <= db ==> higher_depth == da && higher == first,
        decreases higher_depth,
    {
        match parent_of(parents, higher) {
            Some(up) => {
                higher = up;
            },
            None => {
                assert(climb(p, first, (da - db) as nat) is None);
                return None;
            },
        }
        higher_depth = higher_depth - 1;
    }
    let ghost h = higher;
    let ghost hd = higher_depth;
    assert(da > db ==> climb(p, first, (da - db) as nat) == Some(h));
    while lower_depth > higher_depth
        invariant
            p == parents@,
            dm == depths@,
            higher_depth == hd,
            higher == h,
            dm.contains_key(first) && dm[first] == da,
            dm.contains_key(second) && dm[second] == db,
            target == lca_pair(p, dm, first, second, fuel as nat),
            da > db ==> climb(p, first, (da - db) as nat) == Some(h),
            da <= db ==> hd == da && h == first,
            da > db ==> hd == db,
            db > hd ==> hd <= lower_depth <= db && climb(p, second, (db - hd) as nat) == climb(
                p,
                lower,
                (lower_depth - hd) as nat,
            ),
            db <= hd ==> lower_depth == db && lower == second,
        decreases lower_depth,
    {
        match parent_of(parents, lower) {
            Some(up) => {
                lower = up;
            },
            None => {
                assert(climb(p, second, (db - hd) as nat) is None);
                return None;
            },
        }
        lower_depth = lower_depth - 1;
    }
    assert(db > da ==> climb(p, second, (db - da) as nat) == Some(lower));
    assert(target == meet(p, higher, lower, fuel as nat));
    let mut left: u64 = fuel;
    while higher != lower
        invariant
            p == parents@,
            dm == depths@,
            target == lca_pair(p, dm, first, second, fuel as nat),
            target == meet(p, higher, lower, left as nat),
        decreases left,
    {
        if left == 0 {
            return None;
        }
        let a = match parent_of(parents, higher) {
            Some(up) => up,
            None => {
                return None;
            },
        };
        let b = match parent_of(parents, lower) {
            Some(up) => up,
            None => {
                return None;
            },
        };
        higher = a;
        lower = b;
        left = left - 1;
    }
    Some(higher)
}

/// The lowest common ancestor of the nodes.
fn lowest_common_ancestor(
    parents: &HashMap<NodeId, Option<NodeId>>,
    depths: &HashMap<NodeId, u32>,
    nodes: &Vec<NodeId>,
    fuel: u64,
) -> (r: Option<NodeId>)
    ensures
        r == lca_all(parents@, depths@, nodes@, fuel as nat),
{
    if nodes.len() == 0 {
        return None;
    }
    let mut common = nodes[0];
    let mut i: usize = 1;
    assert(nodes@.take(1) =~= seq![nodes@[0]]);
    while i < nodes.len()
        invariant
            1 <= i <= nodes.len(),
            lca_all(parents@, depths@, nodes@.take(i as int), fuel as nat) == Some(common),
        decreases nodes.len() - i,
    {
        assert(nodes@.take(i + 1).drop_last() =~= nodes@.take(i as int));
        match pairwise_lowest_common_ancestor(parents, depths, common, nodes[i], fuel) {
            Some(c) => {
                common = c;
            },
            None => {
                proof {
                    lemma_lca_none_prefix(parents@, depths@, nodes@, (i + 1) as int, fuel as nat);
                }
                return None;
            },
        }
        i = i + 1;
    }
    assert(nodes@.take(nodes@.len() as int) =~= nodes@);
    Some(common)
}

/// Once a prefix of at least one node has no common ancestor, neither has the whole.
proof fn lemma_lca_none_prefix(parents: Map<u32, Option<u32>>, depths: Map<u32, u32>, ns: Seq<u32>, n: int, fuel: nat)
    requires
        1 <= n <= ns.len(),
        lca_all(parents, depths, ns.take(n), fuel) is None,
    ensures
        lca_all(parents, depths, ns, fuel) is None,
    decreases ns.len() - n,
{
    if n < ns.len() {
        assert(ns.take(n + 1).drop_last() =~= ns.take(n));
        lemma_lca_none_prefix(parents, depths, ns, n + 1, fuel);
    } else {
        assert(ns.take(n) =~= ns);
    }
}

// ---------------------------------------------------------------------
// Placement
// ---------------------------------------------------------------------

/// The declarations planned so far for node `n`.
pub open spec fn node_decls(m: PlanModel, n: u32) -> Pairs {
    if m.contains_key(n) {
        m[n]
    } else {
        Seq::empty()
    }
}

/// The plan with `alias` bound to `uri` at node `n`.
pub open spec fn declare(m: PlanModel, n: u32, alias: Seq<char>, uri: Seq<char>) -> PlanModel {
    m.insert(n, assoc_put(node_decls(m, n), alias, uri))
}

/// The plan with `alias` bound to `uri` at each of the nodes, in turn.
pub open spec fn declare_all(m: PlanModel, ns: Seq<u32>, alias: Seq<char>, uri: Seq<char>) -> PlanModel
    decreases ns.len(),
{
    if ns.len() == 0 {
        m
    } else {
        declare(declare_all(m, ns.drop_last(), alias, uri), ns.last(), alias, uri)
    }
}

/// Node `n` binds `alias` to nothing yet, or to `uri` already.
pub open spec fn alias_free(m: PlanModel, n: u32, alias: Seq<char>, uri: Seq<char>) -> bool {
    match lookup(node_decls(m, n), alias) {
        Some(u) => u == uri,
        None => true,
    }
}

/// The nodes from `n` up to `a`, one level at a time, within `fuel` levels.
pub open spec fn way_up(parents: Map<u32, Option<u32>>, n: u32, a: u32, fuel: nat) -> Option<Seq<u32>>
    decreases fuel,
{
    if n == a {
        Some(seq![n])
    } else if fuel == 0 {
        None
    } else {
        match parent_step(parents, n) {
            Some(p) => match way_up(parents, p, a, (fuel - 1) as nat) {
                Some(w) => Some(seq![n] + w),
                None => None,
            },
            None => None,
        }
    }
}

/// The nodes on the ways from each of `ns` up to `a`, in order.
pub open spec fn ways_up(parents: Map<u32, Option<u32>>, ns: Seq<u32>, a: u32, fuel: nat) -> Option<Seq<u32>>
    decreases ns.len(),
{
    if ns.len() == 0 {
        Some(Seq::empty())
    } else {
        match ways_up(parents, ns.drop_last(), a, fuel) {
            Some(r) => match way_up(parents, ns.last(), a, fuel) {
                Some(w) => Some(r + w),
                None => None,
            },
            None => None,
        }
    }
}

/// The region of binding `k`: the nodes on the ways from its sites up to their lowest
/// common ancestor (`None` when there is no such ancestor within `fuel` levels).
pub open spec fn region(uses: Seq<Use>, parents: Map<u32, Option<u32>>, depths: Map<u32, u32>, fuel: nat, k: Binding) -> Option<Seq<u32>> {
    match lca_all(parents, depths, sites_of(uses, k), fuel) {
        Some(a) => ways_up(parents, sites_of(uses, k), a, fuel),
        None => None,
    }
}

/// Node `n` is a site of binding `k` or their lowest common ancestor: a node where `k` may
/// be declared.
pub open spec fn may_declare(uses: Seq<Use>, parents: Map<u32, Option<u32>>, depths: Map<u32, u32>, fuel: nat, k: Binding, n: u32) -> bool {
    sites_of(uses, k).contains(n) || lca_all(parents, depths, sites_of(uses, k), fuel) == Some(n)
}

/// A node where `k2` may be declared lies in the region of `k`.
pub open spec fn region_meets(uses: Seq<Use>, parents: Map<u32, Option<u32>>, depths: Map<u32, u32>, fuel: nat, k: Binding, k2: Binding) -> bool {
    match region(uses, parents, depths, fuel, k) {
        Some(r) => exists|n: u32| r.contains(n) && #[trigger] may_declare(uses, parents, depths, fuel, k2, n),
        None => false,
    }
}

/// Binding `k` cannot go to the lowest common ancestor of its sites: there is none, or
/// another binding among `keys` gives its alias another URI and one of the two may be
/// declared in the region of the other, where it would hide or be hidden by it.
pub open spec fn conflicted(keys: Seq<Binding>, uses: Seq<Use>, parents: Map<u32, Option<u32>>, depths: Map<u32, u32>, fuel: nat, k: Binding) -> bool {
    ||| region(uses, parents, depths, fuel, k) is None
    ||| exists|j: int| 0 <= j < keys.len() && (#[trigger] keys[j]).0 == k.0 && keys[j].1 != k.1 && (
        region_meets(uses, parents, depths, fuel, k, keys[j]) || region_meets(uses, parents, depths, fuel, keys[j], k))
}

/// The plan after placing binding `k`, used at `sites`: unless it is `conflicted`, at their
/// lowest common ancestor when there is one and the alias is free there; otherwise at each
/// site, so that no use sees another URI's declaration first.
pub open spec fn place_binding(
    m: PlanModel,
    k: Binding,
    sites: Seq<u32>,
    parents: Map<u32, Option<u32>>,
    depths: Map<u32, u32>,
    fuel: nat,
    conflict: bool,
) -> PlanModel {
    if conflict {
        declare_all(m, sites, k.0, k.1)
    } else {
    match lca_all(parents, depths, sites, fuel) {
        Some(a) => if alias_free(m, a, k.0, k.1) {
            declare(m, a, k.0, k.1)
        } else {
            declare_all(m, sites, k.0, k.1)
        },
        None => declare_all(m, sites, k.0, k.1),
    }
    }
}

/// The plan after placing the bindings `keys` in order; `all` are all the bindings used.
pub open spec fn place_all(
    keys: Seq<Binding>,
    all: Seq<Binding>,
    uses: Seq<Use>,
    parents: Map<u32, Option<u32>>,
    depths: Map<u32, u32>,
    fuel: nat,
) -> PlanModel
    decreases keys.len(),
{
    if keys.len() == 0 {
        Map::empty()
    } else {
        let k = keys.last();
        place_binding(
            place_all(keys.drop_last(), all, uses, parents, depths, fuel),
            k,
            sites_of(uses, k),
            parents,
            depths,
            fuel,
            conflicted(all, uses, parents, depths, fuel, k),
        )
    }
}

/// The optimized plan of a document: its bindings placed in order over its traversal.
pub open spec fn optimized_plan(d: DocumentModel) -> Result<PlanModel, XmlError> {
    match document_visits(d) {
        Ok(vs) => {
            let uses = visit_uses(d.elements, vs);
            Ok(place_all(key_order(uses), key_order(uses), uses, parent_map(vs), depth_map(vs), vs.len()))
        },
        Err(e) => Err(e),
    }
}

/// Binds `alias` to `uri` at node `n`.
fn declare_in(plan: &mut NamespacePlan, n: NodeId, alias: &str, uri: &str)
    requires
        unique_ids(plan_entries(old(plan)@)),
    ensures
        unique_ids(plan_entries(final(plan)@)),
        plan_view(final(plan)@) == declare(plan_view(old(plan)@), n, alias@, uri@),
{
    let ghost before = plan_entries(plan@);
    match plan_lookup(plan, n) {
        Some(i) => {
            let (id, mut ds) = plan.remove(i);
            let ghost old_ds = pairs_view(ds@);
            vec_put(&mut ds, alias, uri);
            let ghost new_ds = pairs_view(ds@);
            plan.insert(i, (id, ds));
            proof {
                assert(plan_entries(plan@) =~= before.update(i as int, (before[i as int].0, new_ds)));
                lemma_plan_update(before, i as int, new_ds);
                assert(node_decls(entries_map(before), n) == old_ds);
            }
        },
        None => {
            let mut ds: Vec<(String, String)> = Vec::new();
            vec_put(&mut ds, alias, uri);
            let ghost new_ds = pairs_view(ds@);
            plan.push((n, ds));
            proof {
                assert(plan_entries(plan@) =~= before.push((n, new_ds)));
                assert forall|k: int| 0 <= k < before.len() implies before[k].0 != n by {
                    assert(before[k].0 == old(plan)@[k].0);
                }
                lemma_plan_push(before, n, new_ds);
                assert(node_decls(entries_map(before), n) =~= Seq::<(Seq<char>, Seq<char>)>::empty());
                assert(pairs_view(Seq::<(String, String)>::empty()) =~= Seq::<(Seq<char>, Seq<char>)>::empty());
            }
        },
    }
}

/// Whether node `n` binds `alias` to nothing yet, or to `uri` already.
fn alias_is_free(plan: &NamespacePlan, n: NodeId, alias: &str, uri: &str) -> (r: bool)
    requires
        unique_ids(plan_entries(plan@)),
    ensures
        r == alias_free(plan_view(plan@), n, alias@, uri@),
{
    match plan_lookup(plan, n) {
        Some(i) => {
            assert(node_decls(plan_view(plan@), n) == pairs_view(plan@[i as int].1@));
            match vec_lookup(&plan[i].1, alias) {
                Some(j) => str_eq(plan[i].1[j].1.as_str(), uri),
                None => true,
            }
        },
        None => {
            assert(node_decls(plan_view(plan@), n) =~= Seq::<(Seq<char>, Seq<char>)>::empty());
            assert(!crate::dom::assoc::has_key(Seq::<(Seq<char>, Seq<char>)>::empty(), alias@));
            true
        },
    }
}

/// Binds `alias` to `uri` at each of the nodes, in turn.
fn declare_at_each(plan: &mut NamespacePlan, nodes: &Vec<NodeId>, alias: &str, uri: &str)
    requires
        unique_ids(plan_entries(old(plan)@)),
    ensures
        unique_ids(plan_entries(final(plan)@)),
        plan_view(final(plan)@) == declare_all(plan_view(old(plan)@), nodes@, alias@, uri@),
{
    let ghost m0 = plan_view(plan@);
    let mut i: usize = 0;
    assert(nodes@.take(0) =~= Seq::<u32>::empty());
    while i < nodes.len()
        invariant
            i <= nodes.len(),
            unique_ids(plan_entries(plan@)),
            m0 == plan_view(old(plan)@),
            plan_view(plan@) == declare_all(m0, nodes@.take(i as int), alias@, uri@),
        decreases nodes.len() - i,
    {
        declare_in(plan, nodes[i], alias, uri);
        assert(nodes@.take(i + 1).drop_last() =~= nodes@.take(i as int));
        i = i + 1;
    }
    assert(nodes@.take(nodes@.len() as int) =~= nodes@);
}

/// The ways so far, followed by the rest of a way when there is one.
pub open spec fn extend_way(acc: Seq<u32>, rest: Option<Seq<u32>>) -> Option<Seq<u32>> {
    match rest {
        Some(w) => Some(acc + w),
        None => None,
    }
}

/// The nodes from `n` up to `a`, within `fuel` levels.
fn way_up_nodes(parents: &HashMap<NodeId, Option<NodeId>>, n: NodeId, a: NodeId, fuel: u64) -> (r: Option<Vec<NodeId>>)
    ensures
        match r {
            Some(v) => way_up(parents@, n, a, fuel as nat) == Some(v@),
            None => way_up(parents@, n, a, fuel as nat) is None,
        },
{
    let mut acc: Vec<NodeId> = Vec::new();
    let mut cur = n;
    let mut left = fuel;
    assert(Seq::<u32>::empty() + seq![n] =~= seq![n]);
    loop
        invariant
            way_up(parents@, n, a, fuel as nat) == extend_way(acc@, way_up(parents@, cur, a, left as nat)),
        decreases left,
    {
        let ghost before = acc@;
        acc.push(cur);
        if cur == a {
            assert(acc@ =~= before + seq![cur]);
            return Some(acc);
        }
        if left == 0 {
            return None;
        }
        match parent_of(parents, cur) {
            Some(p) => {
                proof {
                    match way_up(parents@, p, a, (left - 1) as nat) {
                        Some(w) => {
                            assert(before + (seq![cur] + w) =~= acc@ + w);
                        },
                        None => {},
                    }
                }
                cur = p;
                left = left - 1;
            },
            None => {
                return None;
            },
        }
    }
}

/// A way that is missing for one node leaves the ways of all of them missing.
proof fn lemma_ways_up_missing(parents: Map<u32, Option<u32>>, ns: Seq<u32>, a: u32, fuel: nat, i: int)
    requires
        0 <= i <= ns.len(),
        ways_up(parents, ns.take(i), a, fuel) is None,
    ensures
        ways_up(parents, ns, a, fuel) is None,
    decreases ns.len(),
{
    if i < ns.len() {
        assert(ns.drop_last().take(i) =~= ns.take(i));
        lemma_ways_up_missing(parents, ns.drop_last(), a, fuel, i);
    } else {
        assert(ns.take(i) =~= ns);
    }
}

/// The nodes on the ways from each of `ns` up to `a`.
fn ways_up_nodes(parents: &HashMap<NodeId, Option<NodeId>>, ns: &Vec<NodeId>, a: NodeId, fuel: u64) -> (r: Option<Vec<NodeId>>)
    ensures
        match r {
            Some(v) => ways_up(parents@, ns@, a, fuel as nat) == Some(v@),
            None => ways_up(parents@, ns@, a, fuel as nat) is None,
        },
{
    let mut all: Vec<NodeId> = Vec::new();
    let mut i: usize = 0;
    assert(ns@.take(0) =~= Seq::<u32>::empty());
    while i < ns.len()
        invariant
            i <= ns.len(),
            ways_up(parents@, ns@.take(i as int), a, fuel as nat) == Some(all@),
        decreases ns.len() - i,
    {
        assert(ns@.take(i + 1).drop_last() =~= ns@.take(i as int));
        assert(ns@.take(i + 1).last() == ns@[i as int]);
        match way_up_nodes(parents, ns[i], a, fuel) {
            Some(w) => {
                let mut w2 = w;
                all.append(&mut w2);
            },
            None => {
                proof {
                    lemma_ways_up_missing(parents@, ns@, a, fuel as nat, i + 1);
                }
                return None;
            },
        }
        i = i + 1;
    }
    assert(ns@.take(ns@.len() as int) =~= ns@);
    Some(all)
}

/// The sites of `(alias, uri)`, their lowest common ancestor, and the region of the binding.
fn region_of(
    uses: &Vec<(String, String, NodeId)>,
    parents: &HashMap<NodeId, Option<NodeId>>,
    depths: &HashMap<NodeId, u32>,
    fuel: u64,
    alias: &str,
    uri: &str,
) -> (r: (Vec<NodeId>, Option<NodeId>, Option<Vec<NodeId>>))
    ensures
        r.0@ == sites_of(uses_view(uses@), (alias@, uri@)),
        r.1 == lca_all(parents@, depths@, r.0@, fuel as nat),
        match r.2 {
            Some(v) => region(uses_view(uses@), parents@, depths@, fuel as nat, (alias@, uri@)) == Some(v@),
            None => region(uses_view(uses@), parents@, depths@, fuel as nat, (alias@, uri@)) is None,
        },
{
    let sites = collect_sites(uses, alias, uri);
    let anchor = lowest_common_ancestor(parents, depths, &sites, fuel);
    let ways = match anchor {
        Some(a) => ways_up_nodes(parents, &sites, a, fuel),
        None => None,
    };
    (sites, anchor, ways)
}

/// Some node of `region` is one of `sites` or is `anchor`.
fn meets(region: &Vec<NodeId>, sites: &Vec<NodeId>, anchor: Option<NodeId>) -> (r: bool)
    ensures
        r == exists|n: u32| region@.contains(n) && (sites@.contains(n) || anchor == Some(n)),
{
    let mut i: usize = 0;
    while i < region.len()
        invariant
            i <= region.len(),
            forall|q: int| 0 <= q < i ==> !(sites@.contains(#[trigger] region@[q]) || anchor == Some(region@[q])),
        decreases region.len() - i,
    {
        let n = region[i];
        let mut hit = anchor == Some(n);
        let mut j: usize = 0;
        while j < sites.len() && !hit
            invariant
                j <= sites.len(),
                hit == (anchor == Some(n) || exists|t: int| 0 <= t < j && sites@[t] == n),
            decreases sites.len() - j,
        {
            if sites[j] == n {
                hit = true;
            }
            j = j + 1;
        }
        if hit {
            assert(region@.contains(n));
            return true;
        }
        assert(!sites@.contains(n));
        i = i + 1;
    }
    assert forall|n: u32| !(region@.contains(n) && (sites@.contains(n) || anchor == Some(n))) by {
        if region@.contains(n) {
            let q = choose|q: int| 0 <= q < region@.len() && region@[q] == n;
            assert(!(sites@.contains(region@[q]) || anchor == Some(region@[q])));
        }
    }
    false
}

/// Whether binding `(alias, uri)` cannot go to the lowest common ancestor of its sites.
fn is_conflicted(
    keys: &Vec<(String, String)>,
    uses: &Vec<(String, String, NodeId)>,
    parents: &HashMap<NodeId, Option<NodeId>>,
    depths: &HashMap<NodeId, u32>,
    fuel: u64,
    alias: &str,
    uri: &str,
) -> (r: bool)
    ensures
        r == conflicted(pairs_view(keys@), uses_view(uses@), parents@, depths@, fuel as nat, (alias@, uri@)),
{
    let ghost kv = pairs_view(keys@);
    let ghost uv = uses_view(uses@);
    let ghost k = (alias@, uri@);
    let (sites, anchor, reg) = region_of(uses, parents, depths, fuel, alias, uri);
    match reg {
        None => true,
        Some(rv) => {
            let mut j: usize = 0;
            while j < keys.len()
                invariant
                    j <= keys.len(),
                    kv == pairs_view(keys@),
                    uv == uses_view(uses@),
                    k == (alias@, uri@),
                    sites@ == sites_of(uv, k),
                    anchor == lca_all(parents@, depths@, sites@, fuel as nat),
                    region(uv, parents@, depths@, fuel as nat, k) == Some(rv@),
                    forall|q: int| 0 <= q < j ==> !((#[trigger] kv[q]).0 == k.0 && kv[q].1 != k.1 && (
                        region_meets(uv, parents@, depths@, fuel as nat, k, kv[q])
                            || region_meets(uv, parents@, depths@, fuel as nat, kv[q], k))),
                decreases keys.len() - j,
            {
                let ka = keys[j].0.as_str();
                let ku = keys[j].1.as_str();
                assert(kv[j as int] == (ka@, ku@));
                if str_eq(ka, alias) && !str_eq(ku, uri) {
                    let (sites2, anchor2, reg2) = region_of(uses, parents, depths, fuel, ka, ku);
                    let there = meets(&rv, &sites2, anchor2);
                    proof {
                        if there {
                            let n = choose|n: u32| rv@.contains(n) && (sites2@.contains(n) || anchor2 == Some(n));
                            assert(may_declare(uv, parents@, depths@, fuel as nat, kv[j as int], n));
                        }
                        assert(there == region_meets(uv, parents@, depths@, fuel as nat, k, kv[j as int]));
                    }
                    if there {
                        return true;
                    }
                    match reg2 {
                        Some(r2) => {
                            let back = meets(&r2, &sites, anchor);
                            proof {
                                if back {
                                    let n = choose|n: u32| r2@.contains(n) && (sites@.contains(n) || anchor == Some(n));
                                    assert(may_declare(uv, parents@, depths@, fuel as nat, k, n));
                                }
                                assert(back == region_meets(uv, parents@, depths@, fuel as nat, kv[j as int], k));
                            }
                            if back {
                                return true;
                            }
                        },
                        None => {},
                    }
                }
                j = j + 1;
            }
            false
        },
    }
}

/// Places the bindings in order.
fn place_bindings(
    keys: &Vec<(String, String)>,
    uses: &Vec<(String, String, NodeId)>,
    parents: &HashMap<NodeId, Option<NodeId>>,
    depths: &HashMap<NodeId, u32>,
    fuel: u64,
) -> (r: NamespacePlan)
    ensures
        unique_ids(plan_entries(r@)),
        plan_view(r@) == place_all(pairs_view(keys@), pairs_view(keys@), uses_view(uses@), parents@, depths@, fuel as nat),
{
    let ghost kv = pairs_view(keys@);
    let mut plan: NamespacePlan = Vec::new();
    let mut i: usize = 0;
    assert(kv.take(0) =~= Seq::<Binding>::empty());
    assert(plan_view(plan@) =~= place_all(kv.take(0), kv, uses_view(uses@), parents@, depths@, fuel as nat));
    while i < keys.len()
        invariant
            i <= keys.len(),
            kv == pairs_view(keys@),
            unique_ids(plan_entries(plan@)),
            plan_view(plan@) == place_all(kv.take(i as int), kv, uses_view(uses@), parents@, depths@, fuel as nat),
        decreases keys.len() - i,
    {
        let alias = keys[i].0.as_str();
        let uri = keys[i].1.as_str();
        assert(kv[i as int] == (alias@, uri@));
        assert(kv.take(i + 1).drop_last() =~= kv.take(i as int));
        let sites = collect_sites(uses, alias, uri);
        if is_conflicted(keys, uses, parents, depths, fuel, alias, uri) {
            declare_at_each(&mut plan, &sites, alias, uri);
        } else {
        match lowest_common_ancestor(parents, depths, &sites, fuel) {
            Some(anchor) => {
                if alias_is_free(&plan, anchor, alias, uri) {
                    declare_in(&mut plan, anchor, alias, uri);
                } else {
                    declare_at_each(&mut plan, &sites, alias, uri);
                }
            },
            None => {
                declare_at_each(&mut plan, &sites, alias, uri);
            },
        }
        }
        i = i + 1;
    }
    assert(kv.take(keys@.len() as int) =~= kv);
    plan
}

impl NamespaceOptimizer {
    /// Builds the plan of the prefixed namespace declarations each node emits.
    pub(crate) fn build_plan(document: &XmlDocument) -> (r: Result<NamespacePlan, XmlError>)
        ensures
            match r {
                Ok(p) => optimized_plan(document@) == Ok::<PlanModel, XmlError>(plan_view(p@)),
                Err(e) => optimized_plan(document@) == Err::<PlanModel, XmlError>(e),
            },
    {
        let (visits, parents, depths) = collect_visits(document)?;
        let uses = collect_uses(document, &visits);
        let keys = collect_keys(&uses);
        let fuel: u64 = visits.len() as u64;
        Ok(place_bindings(&keys, &uses, &parents, &depths, fuel))
    }
}

} // verus!
