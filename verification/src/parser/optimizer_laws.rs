//! Laws of the optimized namespace plan: it declares only used bindings, never the default
//! namespace, each node's declarations in alias order, and every use resolves to its own URI.
use vstd::prelude::*;
use crate::text::unicode_whitespace;
use crate::dom::assoc::{Pairs, lookup, assoc_put, lemma_put};
use crate::dom::attribute::AttributeModel;
use crate::dom::namespace::scope_url;
use crate::dom::element::{ElementModel, attrs_or_empty};
use crate::dom::document::DocumentModel;
use crate::parser::plan::PlanModel;
use crate::parser::namespace_optimizer::{
    MARKUP_COMPATIBILITY_URI, Visit, Binding, Use, ws_tokens, split_ws, resolved_use, tag_uses,
    token_uses, attr_uses, attrs_uses, element_uses, tagged, visit_uses, seq_lt, binding_lt,
    insert_key, key_order, sites_of, parent_step, climb, meet, lca_pair, lca_all, node_decls,
    declare, declare_all, alias_free, place_binding, place_all, optimized_plan, conflicted, document_visits,
    parent_map, depth_map, way_up, ways_up, region, region_meets, may_declare,
};

verus! {

// ---------------------------------------------------------------------
// Laws of the plan
// ---------------------------------------------------------------------

/// Every binding the plan declares is one of `ks`.
pub open spec fn declares_only(m: PlanModel, ks: Seq<Binding>) -> bool {
    forall|n: u32, alias: Seq<char>|
        m.contains_key(n) && (#[trigger] lookup(m[n], alias)) is Some ==> ks.contains(
            (alias, lookup(m[n], alias)->Some_0),
        )
}

proof fn lemma_declare_only(m: PlanModel, n: u32, alias: Seq<char>, uri: Seq<char>, ks: Seq<Binding>)
    requires
        declares_only(m, ks),
        ks.contains((alias, uri)),
    ensures
        declares_only(declare(m, n, alias, uri), ks),
{
    let m2 = declare(m, n, alias, uri);
    lemma_put(node_decls(m, n), alias, uri);
    assert forall|x: u32, a: Seq<char>| m2.contains_key(x) && (#[trigger] lookup(m2[x], a)) is Some implies ks.contains(
        (a, lookup(m2[x], a)->Some_0),
    ) by {
        if x == n {
            if a != alias {
                assert(lookup(m2[x], a) == lookup(node_decls(m, n), a));
                assert(m.contains_key(n));
            }
        }
    }
}

proof fn lemma_declare_all_only(m: PlanModel, ns: Seq<u32>, alias: Seq<char>, uri: Seq<char>, ks: Seq<Binding>)
    requires
        declares_only(m, ks),
        ks.contains((alias, uri)),
    ensures
        declares_only(declare_all(m, ns, alias, uri), ks),
    decreases ns.len(),
{
    if ns.len() > 0 {
        lemma_declare_all_only(m, ns.drop_last(), alias, uri, ks);
        lemma_declare_only(declare_all(m, ns.drop_last(), alias, uri), ns.last(), alias, uri, ks);
    }
}

proof fn lemma_place_all_only(
    keys: Seq<Binding>,
    all: Seq<Binding>,
    uses: Seq<Use>,
    parents: Map<u32, Option<u32>>,
    depths: Map<u32, u32>,
    fuel: nat,
)
    ensures
        declares_only(place_all(keys, all, uses, parents, depths, fuel), keys),
    decreases keys.len(),
{
    if keys.len() > 0 {
        let rest = keys.drop_last();
        let k = keys.last();
        lemma_place_all_only(rest, all, uses, parents, depths, fuel);
        let m = place_all(rest, all, uses, parents, depths, fuel);
        assert(declares_only(m, keys)) by {
            assert forall|n: u32, a: Seq<char>| m.contains_key(n) && (#[trigger] lookup(m[n], a)) is Some implies keys.contains(
                (a, lookup(m[n], a)->Some_0),
            ) by {
                let j = choose|j: int| 0 <= j < rest.len() && rest[j] == (a, lookup(m[n], a)->Some_0);
                assert(keys[j] == rest[j]);
            }
        }
        assert(keys[keys.len() - 1] == k);
        assert(keys.contains((k.0, k.1)));
        lemma_declare_only(m, lca_anchor(parents, depths, sites_of(uses, k), fuel), k.0, k.1, keys);
        lemma_declare_all_only(m, sites_of(uses, k), k.0, k.1, keys);
    }
}

/// The anchor a binding would be declared at (meaningful when there is one).
spec fn lca_anchor(parents: Map<u32, Option<u32>>, depths: Map<u32, u32>, sites: Seq<u32>, fuel: nat) -> u32 {
    match lca_all(parents, depths, sites, fuel) {
        Some(a) => a,
        None => 0,
    }
}

proof fn lemma_insert_key_elems(ks: Seq<Binding>, k: Binding)
    ensures
        forall|x: Binding| #[trigger] insert_key(ks, k).contains(x) ==> ks.contains(x) || x == k,
    decreases ks.len(),
{
    if ks.len() > 0 && ks[0] != k && binding_lt(ks[0], k) {
        let rest = ks.drop_first();
        lemma_insert_key_elems(rest, k);
        assert forall|x: Binding| #[trigger] insert_key(ks, k).contains(x) implies ks.contains(x) || x == k by {
            let r = insert_key(ks, k);
            let i = choose|i: int| 0 <= i < r.len() && r[i] == x;
            if i == 0 {
                assert(ks[0] == x);
            } else {
                assert(insert_key(rest, k)[i - 1] == x);
                assert(insert_key(rest, k).contains(x));
                if rest.contains(x) {
                    let j = choose|j: int| 0 <= j < rest.len() && rest[j] == x;
                    assert(ks[j + 1] == x);
                }
            }
        }
    } else if ks.len() > 0 && ks[0] != k {
        assert forall|x: Binding| #[trigger] insert_key(ks, k).contains(x) implies ks.contains(x) || x == k by {
            let r = insert_key(ks, k);
            let i = choose|i: int| 0 <= i < r.len() && r[i] == x;
            if i > 0 {
                assert(ks[i - 1] == x);
            }
        }
    }
}

proof fn lemma_key_order_elems(uses: Seq<Use>)
    ensures
        forall|x: Binding| #[trigger] key_order(uses).contains(x) ==> exists|i: int| 0 <= i < uses.len() && uses[i].0 == x,
    decreases uses.len(),
{
    if uses.len() > 0 {
        let rest = uses.drop_last();
        lemma_key_order_elems(rest);
        lemma_insert_key_elems(key_order(rest), uses.last().0);
        assert forall|x: Binding| #[trigger] key_order(uses).contains(x) implies exists|i: int| 0 <= i < uses.len() && uses[i].0 == x by {
            if key_order(rest).contains(x) {
                let i = choose|i: int| 0 <= i < rest.len() && rest[i].0 == x;
                assert(uses[i] == rest[i]);
            } else {
                assert(uses[uses.len() - 1].0 == x);
            }
        }
    }
}

proof fn lemma_ws_tokens_nonempty(s: Seq<char>, cur: Seq<char>)
    ensures
        forall|i: int| 0 <= i < ws_tokens(s, cur).len() ==> (#[trigger] ws_tokens(s, cur)[i]).len() > 0,
    decreases s.len(),
{
    if s.len() > 0 {
        if unicode_whitespace(s[0]) {
            lemma_ws_tokens_nonempty(s.drop_first(), Seq::empty());
            let head: Seq<Seq<char>> = if cur.len() > 0 {
                seq![cur]
            } else {
                Seq::empty()
            };
            let tail = ws_tokens(s.drop_first(), Seq::empty());
            assert(ws_tokens(s, cur) == head + tail);
            assert forall|i: int| 0 <= i < ws_tokens(s, cur).len() implies (#[trigger] ws_tokens(s, cur)[i]).len() > 0 by {
                if i >= head.len() {
                    assert(ws_tokens(s, cur)[i] == tail[i - head.len()]);
                } else {
                    assert(ws_tokens(s, cur)[i] == cur);
                }
            }
        } else {
            lemma_ws_tokens_nonempty(s.drop_first(), cur.push(s[0]));
            assert(ws_tokens(s, cur) == ws_tokens(s.drop_first(), cur.push(s[0])));
        }
    } else if cur.len() > 0 {
        assert(ws_tokens(s, cur) == seq![cur]);
        assert(ws_tokens(s, cur)[0] == cur);
    }
}

proof fn lemma_resolved_use_alias(e: ElementModel, alias: Seq<char>)
    ensures
        forall|i: int| 0 <= i < resolved_use(e, alias).len() ==> (#[trigger] resolved_use(e, alias)[i]).0 == alias,
{
}

proof fn lemma_token_uses_nonempty(e: ElementModel, toks: Seq<Seq<char>>)
    requires
        forall|i: int| 0 <= i < toks.len() ==> (#[trigger] toks[i]).len() > 0,
    ensures
        forall|i: int| 0 <= i < token_uses(e, toks).len() ==> (#[trigger] token_uses(e, toks)[i]).0.len() > 0,
    decreases toks.len(),
{
    if toks.len() > 0 {
        let rest = toks.drop_last();
        assert forall|i: int| 0 <= i < rest.len() implies (#[trigger] rest[i]).len() > 0 by {
            assert(rest[i] == toks[i]);
        }
        lemma_token_uses_nonempty(e, rest);
        lemma_resolved_use_alias(e, toks.last());
        let a = token_uses(e, rest);
        assert forall|i: int| 0 <= i < token_uses(e, toks).len() implies (#[trigger] token_uses(e, toks)[i]).0.len() > 0 by {
            if i >= a.len() {
                assert(token_uses(e, toks)[i] == resolved_use(e, toks.last())[i - a.len()]);
                assert(toks[toks.len() - 1] == toks.last());
            }
        }
    }
}

proof fn lemma_attr_uses_nonempty(e: ElementModel, attr: AttributeModel)
    ensures
        forall|i: int| 0 <= i < attr_uses(e, attr).len() ==> (#[trigger] attr_uses(e, attr)[i]).0.len() > 0,
{
    match attr.ns_alias {
        Some(al) => {
            if al.len() > 0 {
                lemma_resolved_use_alias(e, al);
                lemma_ws_tokens_nonempty(attr.value, Seq::empty());
                lemma_token_uses_nonempty(e, split_ws(attr.value));
                let a = resolved_use(e, al);
                let b = if scope_url(e.scope, al) == Some(MARKUP_COMPATIBILITY_URI@) {
                    token_uses(e, split_ws(attr.value))
                } else {
                    Seq::empty()
                };
                assert forall|i: int| 0 <= i < attr_uses(e, attr).len() implies (#[trigger] attr_uses(e, attr)[i]).0.len() > 0 by {
                    if i < a.len() {
                        assert(attr_uses(e, attr)[i] == a[i]);
                    } else {
                        assert(attr_uses(e, attr)[i] == b[i - a.len()]);
                    }
                }
            }
        },
        None => {},
    }
}

proof fn lemma_attrs_uses_nonempty(e: ElementModel, attrs: Seq<AttributeModel>)
    ensures
        forall|i: int| 0 <= i < attrs_uses(e, attrs).len() ==> (#[trigger] attrs_uses(e, attrs)[i]).0.len() > 0,
    decreases attrs.len(),
{
    if attrs.len() > 0 {
        lemma_attrs_uses_nonempty(e, attrs.drop_last());
        lemma_attr_uses_nonempty(e, attrs.last());
        let a = attrs_uses(e, attrs.drop_last());
        assert forall|i: int| 0 <= i < attrs_uses(e, attrs).len() implies (#[trigger] attrs_uses(e, attrs)[i]).0.len() > 0 by {
            if i >= a.len() {
                assert(attrs_uses(e, attrs)[i] == attr_uses(e, attrs.last())[i - a.len()]);
            } else {
                assert(attrs_uses(e, attrs)[i] == a[i]);
            }
        }
    }
}

proof fn lemma_visit_uses_nonempty(els: Map<u32, ElementModel>, vs: Seq<Visit>)
    ensures
        forall|i: int| 0 <= i < visit_uses(els, vs).len() ==> (#[trigger] visit_uses(els, vs)[i]).0.0.len() > 0,
    decreases vs.len(),
{
    if vs.len() > 0 {
        lemma_visit_uses_nonempty(els, vs.drop_last());
        let e = els[vs.last().0];
        lemma_attrs_uses_nonempty(e, attrs_or_empty(e));
        let t = tag_uses(e);
        let a = attrs_uses(e, attrs_or_empty(e));
        let prev = visit_uses(els, vs.drop_last());
        assert forall|i: int| 0 <= i < visit_uses(els, vs).len() implies (#[trigger] visit_uses(els, vs)[i]).0.0.len() > 0 by {
            if i >= prev.len() {
                let k = i - prev.len();
                assert(visit_uses(els, vs)[i] == tagged(element_uses(e), vs.last().0)[k]);
                assert(tagged(element_uses(e), vs.last().0)[k].0 == element_uses(e)[k]);
                if k >= t.len() {
                    assert(element_uses(e)[k] == a[k - t.len()]);
                }
            } else {
                assert(visit_uses(els, vs)[i] == prev[i]);
            }
        }
    }
}

/// The optimized plan declares only bindings that some element uses, and never the default
/// namespace (the empty alias).
pub proof fn law_plan_declares_only_used_bindings(d: DocumentModel, n: u32, alias: Seq<char>)
    requires
        optimized_plan(d) is Ok,
        optimized_plan(d)->Ok_0.contains_key(n),
        lookup(optimized_plan(d)->Ok_0[n], alias) is Some,
    ensures
        alias.len() > 0,
        exists|i: int|
            0 <= i < visit_uses(d.elements, document_visits(d)->Ok_0).len() && (#[trigger] visit_uses(
                d.elements,
                document_visits(d)->Ok_0,
            )[i]).0 == (alias, lookup(optimized_plan(d)->Ok_0[n], alias)->Some_0),
{
    let vs = document_visits(d)->Ok_0;
    let uses = visit_uses(d.elements, vs);
    let keys = key_order(uses);
    let m = optimized_plan(d)->Ok_0;
    lemma_place_all_only(keys, keys, uses, parent_map(vs), depth_map(vs), vs.len());
    let b = (alias, lookup(m[n], alias)->Some_0);
    assert(keys.contains(b));
    lemma_key_order_elems(uses);
    let i = choose|i: int| 0 <= i < uses.len() && uses[i].0 == b;
    lemma_visit_uses_nonempty(d.elements, vs);
    assert(uses[i].0.0.len() > 0);
}

// ---------------------------------------------------------------------
// Order of the declarations
// ---------------------------------------------------------------------

proof fn lemma_seq_lt_irreflexive(a: Seq<char>)
    ensures
        !seq_lt(a, a),
    decreases a.len(),
{
    if a.len() > 0 {
        lemma_seq_lt_irreflexive(a.drop_first());
    }
}

proof fn lemma_seq_lt_transitive(a: Seq<char>, b: Seq<char>, c: Seq<char>)
    requires
        seq_lt(a, b),
        seq_lt(b, c),
    ensures
        seq_lt(a, c),
    decreases a.len(),
{
    if a.len() > 0 && a[0] == b[0] && b[0] == c[0] {
        lemma_seq_lt_transitive(a.drop_first(), b.drop_first(), c.drop_first());
    }
}

proof fn lemma_seq_lt_total(a: Seq<char>, b: Seq<char>)
    requires
        a != b,
    ensures
        seq_lt(a, b) || seq_lt(b, a),
    decreases a.len(),
{
    if a.len() == 0 {
        if b.len() == 0 {
            assert(a =~= b);
        }
    } else if b.len() > 0 && a[0] == b[0] {
        if a.drop_first() == b.drop_first() {
            assert(a =~= seq![a[0]] + a.drop_first());
            assert(b =~= seq![b[0]] + b.drop_first());
        }
        lemma_seq_lt_total(a.drop_first(), b.drop_first());
    }
}

proof fn lemma_binding_lt_transitive(x: Binding, y: Binding, z: Binding)
    requires
        binding_lt(x, y),
        binding_lt(y, z),
    ensures
        binding_lt(x, z),
{
    if seq_lt(x.0, y.0) && seq_lt(y.0, z.0) {
        lemma_seq_lt_transitive(x.0, y.0, z.0);
    } else if !seq_lt(x.0, y.0) && !seq_lt(y.0, z.0) {
        lemma_seq_lt_transitive(x.1, y.1, z.1);
    }
}

proof fn lemma_binding_lt_total(x: Binding, y: Binding)
    requires
        x != y,
    ensures
        binding_lt(x, y) || binding_lt(y, x),
{
    if x.0 != y.0 {
        lemma_seq_lt_total(x.0, y.0);
    } else {
        lemma_seq_lt_total(x.1, y.1);
    }
}

/// The bindings increase strictly.
pub open spec fn bindings_sorted(ks: Seq<Binding>) -> bool {
    forall|i: int, j: int| 0 <= i < j < ks.len() ==> binding_lt(#[trigger] ks[i], #[trigger] ks[j])
}

proof fn lemma_insert_key_sorted(ks: Seq<Binding>, k: Binding)
    requires
        bindings_sorted(ks),
    ensures
        bindings_sorted(insert_key(ks, k)),
    decreases ks.len(),
{
    if ks.len() > 0 && ks[0] != k {
        let rest = ks.drop_first();
        if binding_lt(ks[0], k) {
            assert(bindings_sorted(rest)) by {
                assert forall|i: int, j: int| 0 <= i < j < rest.len() implies binding_lt(#[trigger] rest[i], #[trigger] rest[j]) by {
                    assert(rest[i] == ks[i + 1] && rest[j] == ks[j + 1]);
                }
            }
            lemma_insert_key_sorted(rest, k);
            lemma_insert_key_elems(rest, k);
            let r = insert_key(ks, k);
            let t = insert_key(rest, k);
            assert forall|i: int, j: int| 0 <= i < j < r.len() implies binding_lt(#[trigger] r[i], #[trigger] r[j]) by {
                if i == 0 {
                    assert(r[j] == t[j - 1]);
                    assert(t.contains(t[j - 1]));
                    if rest.contains(t[j - 1]) {
                        let m = choose|m: int| 0 <= m < rest.len() && rest[m] == t[j - 1];
                        assert(ks[m + 1] == rest[m]);
                    }
                } else {
                    assert(r[i] == t[i - 1] && r[j] == t[j - 1]);
                }
            }
        } else {
            lemma_binding_lt_total(ks[0], k);
            let r = insert_key(ks, k);
            assert forall|i: int, j: int| 0 <= i < j < r.len() implies binding_lt(#[trigger] r[i], #[trigger] r[j]) by {
                if i == 0 {
                    assert(r[j] == ks[j - 1]);
                    if j > 1 {
                        lemma_binding_lt_transitive(k, ks[0], ks[j - 1]);
                    }
                } else {
                    assert(r[i] == ks[i - 1] && r[j] == ks[j - 1]);
                }
            }
        }
    }
}

proof fn lemma_key_order_sorted(uses: Seq<Use>)
    ensures
        bindings_sorted(key_order(uses)),
    decreases uses.len(),
{
    if uses.len() > 0 {
        lemma_key_order_sorted(uses.drop_last());
        lemma_insert_key_sorted(key_order(uses.drop_last()), uses.last().0);
    }
}

/// The aliases of a declaration list increase strictly.
pub open spec fn aliases_sorted(l: Pairs) -> bool {
    forall|i: int, j: int| 0 <= i < j < l.len() ==> seq_lt(#[trigger] l[i].0, #[trigger] l[j].0)
}

/// No alias of a declaration list comes after `a`.
pub open spec fn aliases_upto(l: Pairs, a: Seq<char>) -> bool {
    forall|i: int| 0 <= i < l.len() ==> (#[trigger] l[i]).0 == a || seq_lt(l[i].0, a)
}

/// Every node's declarations are ordered by alias, and none comes after `a`.
pub open spec fn plan_sorted_upto(m: PlanModel, a: Seq<char>) -> bool {
    forall|n: u32| #[trigger] m.contains_key(n) ==> aliases_sorted(m[n]) && aliases_upto(m[n], a)
}

proof fn lemma_put_sorted(l: Pairs, k: Seq<char>, v: Seq<char>)
    requires
        aliases_sorted(l),
        aliases_upto(l, k),
    ensures
        aliases_sorted(assoc_put(l, k, v)),
        aliases_upto(assoc_put(l, k, v), k),
{
    let r = assoc_put(l, k, v);
    if crate::dom::assoc::has_key(l, k) {
        crate::dom::assoc::lemma_key_index(l, k);
        let x = crate::dom::assoc::key_index(l, k);
        assert forall|i: int| 0 <= i < r.len() implies (#[trigger] r[i]).0 == l[i].0 by {
            if i == x {
                assert(r[i] == (k, v));
            }
        }
        assert forall|i: int, j: int| 0 <= i < j < r.len() implies seq_lt(#[trigger] r[i].0, #[trigger] r[j].0) by {
            assert(r[i].0 == l[i].0 && r[j].0 == l[j].0);
        }
        assert forall|i: int| 0 <= i < r.len() implies (#[trigger] r[i]).0 == k || seq_lt(r[i].0, k) by {
            assert(r[i].0 == l[i].0);
        }
    } else {
        assert forall|i: int, j: int| 0 <= i < j < r.len() implies seq_lt(#[trigger] r[i].0, #[trigger] r[j].0) by {
            assert(r[i] == l[i]);
            if j == l.len() {
                assert(r[j] == (k, v));
                assert(l[i].0 != k);
            } else {
                assert(r[j] == l[j]);
            }
        }
        assert forall|i: int| 0 <= i < r.len() implies (#[trigger] r[i]).0 == k || seq_lt(r[i].0, k) by {
            if i < l.len() {
                assert(r[i] == l[i]);
            }
        }
    }
}

proof fn lemma_upto_raise(m: PlanModel, a: Seq<char>, b: Seq<char>)
    requires
        plan_sorted_upto(m, a),
        a == b || seq_lt(a, b),
    ensures
        plan_sorted_upto(m, b),
{
    assert forall|n: u32| #[trigger] m.contains_key(n) implies aliases_sorted(m[n]) && aliases_upto(m[n], b) by {
        assert forall|i: int| 0 <= i < m[n].len() implies (#[trigger] m[n][i]).0 == b || seq_lt(m[n][i].0, b) by {
            if m[n][i].0 != a && a != b {
                lemma_seq_lt_transitive(m[n][i].0, a, b);
            }
        }
    }
}

proof fn lemma_declare_sorted(m: PlanModel, n: u32, alias: Seq<char>, uri: Seq<char>)
    requires
        plan_sorted_upto(m, alias),
    ensures
        plan_sorted_upto(declare(m, n, alias, uri), alias),
{
    lemma_put_sorted(node_decls(m, n), alias, uri);
}

proof fn lemma_declare_all_sorted(m: PlanModel, ns: Seq<u32>, alias: Seq<char>, uri: Seq<char>)
    requires
        plan_sorted_upto(m, alias),
    ensures
        plan_sorted_upto(declare_all(m, ns, alias, uri), alias),
    decreases ns.len(),
{
    if ns.len() > 0 {
        lemma_declare_all_sorted(m, ns.drop_last(), alias, uri);
        lemma_declare_sorted(declare_all(m, ns.drop_last(), alias, uri), ns.last(), alias, uri);
    }
}

proof fn lemma_place_all_sorted(
    keys: Seq<Binding>,
    all: Seq<Binding>,
    uses: Seq<Use>,
    parents: Map<u32, Option<u32>>,
    depths: Map<u32, u32>,
    fuel: nat,
)
    requires
        bindings_sorted(keys),
        keys.len() > 0,
    ensures
        plan_sorted_upto(place_all(keys, all, uses, parents, depths, fuel), keys.last().0),
    decreases keys.len(),
{
    let rest = keys.drop_last();
    let k = keys.last();
    let m = place_all(rest, all, uses, parents, depths, fuel);
    if rest.len() > 0 {
        assert(bindings_sorted(rest)) by {
            assert forall|i: int, j: int| 0 <= i < j < rest.len() implies binding_lt(#[trigger] rest[i], #[trigger] rest[j]) by {
                assert(rest[i] == keys[i] && rest[j] == keys[j]);
            }
        }
        lemma_place_all_sorted(rest, all, uses, parents, depths, fuel);
        assert(binding_lt(keys[rest.len() - 1], keys[keys.len() - 1]));
        assert(rest.last() == keys[rest.len() - 1]);
        lemma_upto_raise(m, rest.last().0, k.0);
    } else {
        assert(m == Map::<u32, Pairs>::empty());
        assert(plan_sorted_upto(m, k.0));
    }
    lemma_declare_sorted(m, lca_anchor(parents, depths, sites_of(uses, k), fuel), k.0, k.1);
    lemma_declare_all_sorted(m, sites_of(uses, k), k.0, k.1);
}

/// The declarations the optimized plan gives a node are ordered by alias, each alias once.
pub proof fn law_plan_declarations_are_ordered(d: DocumentModel, n: u32)
    requires
        optimized_plan(d) is Ok,
        optimized_plan(d)->Ok_0.contains_key(n),
    ensures
        aliases_sorted(optimized_plan(d)->Ok_0[n]),
{
    let vs = document_visits(d)->Ok_0;
    let uses = visit_uses(d.elements, vs);
    let keys = key_order(uses);
    lemma_key_order_sorted(uses);
    if keys.len() > 0 {
        lemma_place_all_sorted(keys, keys, uses, parent_map(vs), depth_map(vs), vs.len());
    }
}

// ---------------------------------------------------------------------
// Declarations of the plan
// ---------------------------------------------------------------------

/// Node `y` binds `alias` to `uri` in the plan.
pub open spec fn binds(m: PlanModel, y: u32, alias: Seq<char>, uri: Seq<char>) -> bool {
    m.contains_key(y) && lookup(m[y], alias) == Some(uri)
}

proof fn lemma_declare_binds(m: PlanModel, n: u32, alias: Seq<char>, uri: Seq<char>, y: u32, a: Seq<char>, u: Seq<char>)
    ensures
        binds(declare(m, n, alias, uri), n, alias, uri),
        binds(m, y, a, u) && a != alias ==> binds(declare(m, n, alias, uri), y, a, u),
{
    lemma_put(node_decls(m, n), alias, uri);
}

proof fn lemma_declare_all_binds(m: PlanModel, ns: Seq<u32>, alias: Seq<char>, uri: Seq<char>, y: u32, a: Seq<char>, u: Seq<char>)
    ensures
        forall|i: int| 0 <= i < ns.len() ==> binds(declare_all(m, ns, alias, uri), #[trigger] ns[i], alias, uri),
        binds(m, y, a, u) && a != alias ==> binds(declare_all(m, ns, alias, uri), y, a, u),
    decreases ns.len(),
{
    if ns.len() > 0 {
        let rest = ns.drop_last();
        lemma_declare_all_binds(m, rest, alias, uri, y, a, u);
        let m1 = declare_all(m, rest, alias, uri);
        lemma_declare_binds(m1, ns.last(), alias, uri, y, a, u);
        assert forall|i: int| 0 <= i < ns.len() implies binds(declare_all(m, ns, alias, uri), #[trigger] ns[i], alias, uri) by {
            if i < ns.len() - 1 {
                assert(ns[i] == rest[i]);
                assert(binds(m1, rest[i], alias, uri));
                lemma_declare_binds(m1, ns.last(), alias, uri, rest[i], alias, uri);
                if rest[i] != ns.last() {
                    lemma_put(node_decls(m1, ns.last()), alias, uri);
                }
            }
        }
    }
}

proof fn lemma_sites_of_contains(uses: Seq<Use>, i: int)
    requires
        0 <= i < uses.len(),
    ensures
        sites_of(uses, uses[i].0).contains(uses[i].1),
    decreases uses.len(),
{
    let k = uses[i].0;
    if i < uses.len() - 1 {
        lemma_sites_of_contains(uses.drop_last(), i);
        let r = sites_of(uses.drop_last(), k);
        let j = choose|j: int| 0 <= j < r.len() && r[j] == uses[i].1;
        assert(sites_of(uses, k)[j] == r[j]);
    } else {
        let r = sites_of(uses.drop_last(), k);
        assert(sites_of(uses, k)[r.len() as int] == uses[i].1);
    }
}

proof fn lemma_insert_key_keeps(ks: Seq<Binding>, k: Binding)
    ensures
        insert_key(ks, k).contains(k),
        forall|x: Binding| ks.contains(x) ==> #[trigger] insert_key(ks, k).contains(x),
    decreases ks.len(),
{
    let r = insert_key(ks, k);
    if ks.len() == 0 {
        assert(r[0] == k);
    } else if ks[0] == k {
    } else if binding_lt(ks[0], k) {
        let rest = ks.drop_first();
        lemma_insert_key_keeps(rest, k);
        let t = insert_key(rest, k);
        assert(r == seq![ks[0]] + t);
        let j = choose|j: int| 0 <= j < t.len() && t[j] == k;
        assert(r[j + 1] == k);
        assert forall|x: Binding| ks.contains(x) implies #[trigger] insert_key(ks, k).contains(x) by {
            let i = choose|i: int| 0 <= i < ks.len() && ks[i] == x;
            if i == 0 {
                assert(r[0] == x);
            } else {
                assert(rest[i - 1] == x);
                assert(rest.contains(x));
                assert(t.contains(x));
                let q = choose|q: int| 0 <= q < t.len() && t[q] == x;
                assert(r[q + 1] == x);
            }
        }
    } else {
        assert(r == seq![k] + ks);
        assert(r[0] == k);
        assert forall|x: Binding| ks.contains(x) implies #[trigger] insert_key(ks, k).contains(x) by {
            let i = choose|i: int| 0 <= i < ks.len() && ks[i] == x;
            assert(r[i + 1] == x);
        }
    }
}

proof fn lemma_key_order_has(uses: Seq<Use>, i: int)
    requires
        0 <= i < uses.len(),
    ensures
        key_order(uses).contains(uses[i].0),
    decreases uses.len(),
{
    let rest = uses.drop_last();
    lemma_insert_key_keeps(key_order(rest), uses.last().0);
    if i < uses.len() - 1 {
        lemma_key_order_has(rest, i);
        assert(rest[i] == uses[i]);
    }
}

// ---------------------------------------------------------------------
// Every use resolves to its own URI
// ---------------------------------------------------------------------

/// Node `y` declares `alias` in the plan.
pub open spec fn has_alias(m: PlanModel, y: u32, alias: Seq<char>) -> bool {
    m.contains_key(y) && lookup(m[y], alias) is Some
}

/// The node `j` steps up from `n` declares `alias` in the plan.
pub open spec fn declares_at(m: PlanModel, parents: Map<u32, Option<u32>>, n: u32, j: nat, alias: Seq<char>) -> bool {
    climb(parents, n, j) matches Some(z) && has_alias(m, z, alias)
}

/// The node `k` steps up from `n` binds `alias` to `uri`, and no nearer one declares it.
pub open spec fn nearest_binds(m: PlanModel, parents: Map<u32, Option<u32>>, n: u32, k: nat, alias: Seq<char>, uri: Seq<char>) -> bool {
    &&& climb(parents, n, k) matches Some(y) && binds(m, y, alias, uri)
    &&& forall|j: nat| j < k ==> !#[trigger] declares_at(m, parents, n, j, alias)
}

/// The nearest node, from `n` up its recorded ancestors, that the plan gives a declaration
/// of `alias` binds it to `uri`.
pub open spec fn resolves_to(m: PlanModel, parents: Map<u32, Option<u32>>, n: u32, alias: Seq<char>, uri: Seq<char>) -> bool {
    exists|k: nat| #[trigger] nearest_binds(m, parents, n, k, alias, uri)
}

/// The bindings an element uses are bound in its scope.
pub open spec fn uses_bound(e: ElementModel, bs: Seq<Binding>) -> bool {
    forall|i: int| 0 <= i < bs.len() ==> scope_url(e.scope, (#[trigger] bs[i]).0) == Some(bs[i].1)
}

proof fn lemma_bound_concat(e: ElementModel, a: Seq<Binding>, b: Seq<Binding>)
    requires
        uses_bound(e, a),
        uses_bound(e, b),
    ensures
        uses_bound(e, a + b),
{
    assert forall|i: int| 0 <= i < (a + b).len() implies scope_url(e.scope, (#[trigger] (a + b)[i]).0) == Some((a + b)[i].1) by {
        if i >= a.len() {
            assert((a + b)[i] == b[i - a.len()]);
        }
    }
}

proof fn lemma_token_uses_bound(e: ElementModel, toks: Seq<Seq<char>>)
    ensures
        uses_bound(e, token_uses(e, toks)),
    decreases toks.len(),
{
    if toks.len() > 0 {
        lemma_token_uses_bound(e, toks.drop_last());
        lemma_bound_concat(e, token_uses(e, toks.drop_last()), resolved_use(e, toks.last()));
    }
}

proof fn lemma_attrs_uses_bound(e: ElementModel, attrs: Seq<AttributeModel>)
    ensures
        uses_bound(e, attrs_uses(e, attrs)),
    decreases attrs.len(),
{
    if attrs.len() > 0 {
        lemma_attrs_uses_bound(e, attrs.drop_last());
        let a = attrs.last();
        match a.ns_alias {
            Some(al) => if al.len() > 0 {
                lemma_token_uses_bound(e, split_ws(a.value));
                let t = if scope_url(e.scope, al) == Some(MARKUP_COMPATIBILITY_URI@) {
                    token_uses(e, split_ws(a.value))
                } else {
                    Seq::empty()
                };
                lemma_bound_concat(e, resolved_use(e, al), t);
            },
            None => {},
        }
        lemma_bound_concat(e, attrs_uses(e, attrs.drop_last()), attr_uses(e, a));
    }
}

/// Every use of a visited node is bound to its URI in that node's scope.
proof fn lemma_visit_uses_bound(els: Map<u32, ElementModel>, vs: Seq<Visit>)
    ensures
        forall|i: int| 0 <= i < visit_uses(els, vs).len() ==> scope_url(
            els[(#[trigger] visit_uses(els, vs)[i]).1].scope,
            visit_uses(els, vs)[i].0.0,
        ) == Some(visit_uses(els, vs)[i].0.1),
    decreases vs.len(),
{
    if vs.len() > 0 {
        lemma_visit_uses_bound(els, vs.drop_last());
        let e = els[vs.last().0];
        lemma_attrs_uses_bound(e, attrs_or_empty(e));
        lemma_bound_concat(e, tag_uses(e), attrs_uses(e, attrs_or_empty(e)));
        let prev = visit_uses(els, vs.drop_last());
        let t = tagged(element_uses(e), vs.last().0);
        assert forall|i: int| 0 <= i < visit_uses(els, vs).len() implies scope_url(
            els[(#[trigger] visit_uses(els, vs)[i]).1].scope,
            visit_uses(els, vs)[i].0.0,
        ) == Some(visit_uses(els, vs)[i].0.1) by {
            if i >= prev.len() {
                assert(visit_uses(els, vs)[i] == t[i - prev.len()]);
                assert(element_uses(e)[i - prev.len()] == t[i - prev.len()].0);
            } else {
                assert(visit_uses(els, vs)[i] == prev[i]);
            }
        }
    }
}

/// A node among the sites of a binding uses that binding.
proof fn lemma_sites_of_has(uses: Seq<Use>, k: Binding, n: u32)
    requires
        sites_of(uses, k).contains(n),
    ensures
        exists|i: int| 0 <= i < uses.len() && #[trigger] uses[i] == (k, n),
    decreases uses.len(),
{
    let rest = uses.drop_last();
    let r = sites_of(rest, k);
    let j = choose|j: int| 0 <= j < sites_of(uses, k).len() && sites_of(uses, k)[j] == n;
    if j < r.len() {
        assert(r[j] == n);
        lemma_sites_of_has(rest, k, n);
        let i = choose|i: int| 0 <= i < rest.len() && #[trigger] rest[i] == (k, n);
        assert(uses[i] == rest[i]);
    } else {
        assert(uses[uses.len() - 1] == (k, n));
    }
}

/// A binding of the plan after declaring one: the declared one, or one from before.
proof fn lemma_declare_origin(m: PlanModel, n: u32, alias: Seq<char>, uri: Seq<char>, z: u32, a: Seq<char>, v: Seq<char>)
    requires
        binds(declare(m, n, alias, uri), z, a, v),
    ensures
        (z == n && a == alias && v == uri) || binds(m, z, a, v),
{
    lemma_put(node_decls(m, n), alias, uri);
}

/// A binding of the plan after declaring at several nodes: at one of them, or from before.
proof fn lemma_declare_all_origin(m: PlanModel, ns: Seq<u32>, alias: Seq<char>, uri: Seq<char>, z: u32, a: Seq<char>, v: Seq<char>)
    requires
        binds(declare_all(m, ns, alias, uri), z, a, v),
    ensures
        (ns.contains(z) && a == alias && v == uri) || binds(m, z, a, v),
    decreases ns.len(),
{
    if ns.len() > 0 {
        let rest = ns.drop_last();
        lemma_declare_origin(declare_all(m, rest, alias, uri), ns.last(), alias, uri, z, a, v);
        assert(ns[ns.len() - 1] == ns.last());
        if binds(declare_all(m, rest, alias, uri), z, a, v) {
            lemma_declare_all_origin(m, rest, alias, uri, z, a, v);
            if rest.contains(z) {
                let i = choose|i: int| 0 <= i < rest.len() && rest[i] == z;
                assert(ns[i] == z);
            }
        }
    }
}

/// Every binding of the placed plan comes from a binding among `keys`, declared at one of
/// its sites, or at the lowest common ancestor of its sites when it is not conflicted.
proof fn lemma_place_all_origin(
    keys: Seq<Binding>,
    all: Seq<Binding>,
    uses: Seq<Use>,
    parents: Map<u32, Option<u32>>,
    depths: Map<u32, u32>,
    fuel: nat,
    z: u32,
    a: Seq<char>,
    v: Seq<char>,
)
    requires
        binds(place_all(keys, all, uses, parents, depths, fuel), z, a, v),
    ensures
        exists|q: int| 0 <= q < keys.len() && #[trigger] keys[q] == (a, v) && (sites_of(uses, keys[q]).contains(z) || (
            !conflicted(all, uses, parents, depths, fuel, keys[q]) && lca_all(parents, depths, sites_of(uses, keys[q]), fuel)
                == Some(z))),
    decreases keys.len(),
{
    if keys.len() > 0 {
        let rest = keys.drop_last();
        let k = keys.last();
        let q0 = keys.len() - 1;
        assert(keys[q0] == k);
        let m = place_all(rest, all, uses, parents, depths, fuel);
        let sites = sites_of(uses, k);
        let c = conflicted(all, uses, parents, depths, fuel, k);
        let from_before = binds(m, z, a, v);
        if c {
            lemma_declare_all_origin(m, sites, k.0, k.1, z, a, v);
        } else {
            match lca_all(parents, depths, sites, fuel) {
                Some(x) => {
                    if alias_free(m, x, k.0, k.1) {
                        lemma_declare_origin(m, x, k.0, k.1, z, a, v);
                    } else {
                        lemma_declare_all_origin(m, sites, k.0, k.1, z, a, v);
                    }
                },
                None => {
                    lemma_declare_all_origin(m, sites, k.0, k.1, z, a, v);
                },
            }
        }
        if from_before {
            lemma_place_all_origin(rest, all, uses, parents, depths, fuel, z, a, v);
            let q = choose|q: int| 0 <= q < rest.len() && #[trigger] rest[q] == (a, v) && (sites_of(uses, rest[q]).contains(z) || (
                !conflicted(all, uses, parents, depths, fuel, rest[q]) && lca_all(parents, depths, sites_of(uses, rest[q]), fuel)
                    == Some(z)));
            assert(keys[q] == rest[q]);
        } else {
            assert(keys[q0] == (a, v));
        }
    }
}

/// A declaration of an alias at a node stays while more declarations are made.
proof fn lemma_declare_all_has(m: PlanModel, ns: Seq<u32>, alias: Seq<char>, uri: Seq<char>, z: u32, a: Seq<char>)
    requires
        has_alias(m, z, a),
    ensures
        has_alias(declare_all(m, ns, alias, uri), z, a),
    decreases ns.len(),
{
    if ns.len() > 0 {
        lemma_declare_all_has(m, ns.drop_last(), alias, uri, z, a);
        lemma_put(node_decls(declare_all(m, ns.drop_last(), alias, uri), ns.last()), alias, uri);
    }
}

proof fn lemma_place_binding_has(
    m: PlanModel,
    k: Binding,
    sites: Seq<u32>,
    parents: Map<u32, Option<u32>>,
    depths: Map<u32, u32>,
    fuel: nat,
    conflict: bool,
    z: u32,
    a: Seq<char>,
)
    requires
        has_alias(m, z, a),
    ensures
        has_alias(place_binding(m, k, sites, parents, depths, fuel, conflict), z, a),
{
    lemma_declare_all_has(m, sites, k.0, k.1, z, a);
    lemma_put(node_decls(m, lca_anchor(parents, depths, sites, fuel)), k.0, k.1);
}

/// Binding `k` is not conflicted and its alias is declared at the lowest common ancestor of
/// its sites.
spec fn anchored(m: PlanModel, all: Seq<Binding>, uses: Seq<Use>, parents: Map<u32, Option<u32>>, depths: Map<u32, u32>, fuel: nat, k: Binding) -> bool {
    &&& !conflicted(all, uses, parents, depths, fuel, k)
    &&& lca_all(parents, depths, sites_of(uses, k), fuel) is Some
    &&& has_alias(m, lca_all(parents, depths, sites_of(uses, k), fuel)->Some_0, k.0)
}

/// A placed binding leaves its alias declared at each of its sites, or, when it is not
/// conflicted, at the lowest common ancestor of its sites.
proof fn lemma_place_all_placed(
    keys: Seq<Binding>,
    all: Seq<Binding>,
    uses: Seq<Use>,
    parents: Map<u32, Option<u32>>,
    depths: Map<u32, u32>,
    fuel: nat,
    k: Binding,
)
    requires
        keys.contains(k),
    ensures
        ({
            let m = place_all(keys, all, uses, parents, depths, fuel);
            ||| forall|i: int| 0 <= i < sites_of(uses, k).len() ==> has_alias(m, #[trigger] sites_of(uses, k)[i], k.0)
            ||| anchored(m, all, uses, parents, depths, fuel, k)
        }),
    decreases keys.len(),
{
    let rest = keys.drop_last();
    let last = keys.last();
    assert(keys[keys.len() - 1] == last);
    let m = place_all(rest, all, uses, parents, depths, fuel);
    let m2 = place_all(keys, all, uses, parents, depths, fuel);
    let sites = sites_of(uses, last);
    let c = conflicted(all, uses, parents, depths, fuel, last);
    if last == k {
        lemma_declare_all_binds(m, sites, k.0, k.1, 0, k.0, k.1);
        match lca_all(parents, depths, sites, fuel) {
            Some(x) => {
                lemma_declare_binds(m, x, k.0, k.1, x, k.0, k.1);
            },
            None => {},
        }
    } else {
        let j = choose|j: int| 0 <= j < keys.len() && keys[j] == k;
        assert(j < keys.len() - 1);
        assert(rest[j] == k);
        lemma_place_all_placed(rest, all, uses, parents, depths, fuel, k);
        let ks = sites_of(uses, k);
        if forall|i: int| 0 <= i < ks.len() ==> has_alias(m, #[trigger] ks[i], k.0) {
            assert forall|i: int| 0 <= i < ks.len() implies has_alias(m2, #[trigger] ks[i], k.0) by {
                lemma_place_binding_has(m, last, sites, parents, depths, fuel, c, ks[i], k.0);
            }
        } else {
            let x = lca_all(parents, depths, ks, fuel)->Some_0;
            lemma_place_binding_has(m, last, sites, parents, depths, fuel, c, x, k.0);
        }
    }
}

/// A way up from `n` to `a` climbs one level per node, from `n` to `a`.
proof fn lemma_way_up(parents: Map<u32, Option<u32>>, n: u32, a: u32, fuel: nat)
    requires
        way_up(parents, n, a, fuel) is Some,
    ensures
        way_up(parents, n, a, fuel)->Some_0.len() >= 1,
        way_up(parents, n, a, fuel)->Some_0.last() == a,
        forall|j: int| 0 <= j < way_up(parents, n, a, fuel)->Some_0.len() ==>
            climb(parents, n, j as nat) == Some(#[trigger] way_up(parents, n, a, fuel)->Some_0[j]),
    decreases fuel,
{
    let w = way_up(parents, n, a, fuel)->Some_0;
    if n == a {
        assert(climb(parents, n, 0) == Some(n));
    } else {
        let p = parent_step(parents, n)->Some_0;
        lemma_way_up(parents, p, a, (fuel - 1) as nat);
        let w1 = way_up(parents, p, a, (fuel - 1) as nat)->Some_0;
        assert(w == seq![n] + w1);
        assert forall|j: int| 0 <= j < w.len() implies climb(parents, n, j as nat) == Some(#[trigger] w[j]) by {
            if j > 0 {
                assert(w[j] == w1[j - 1]);
                assert(climb(parents, p, (j - 1) as nat) == Some(w1[j - 1]));
            }
        }
    }
}

/// The ways up from nodes hold the way up from each of them.
proof fn lemma_ways_up_has(parents: Map<u32, Option<u32>>, ns: Seq<u32>, a: u32, fuel: nat, i: int)
    requires
        ways_up(parents, ns, a, fuel) is Some,
        0 <= i < ns.len(),
    ensures
        way_up(parents, ns[i], a, fuel) is Some,
        forall|t: int| 0 <= t < way_up(parents, ns[i], a, fuel)->Some_0.len() ==>
            ways_up(parents, ns, a, fuel)->Some_0.contains(#[trigger] way_up(parents, ns[i], a, fuel)->Some_0[t]),
    decreases ns.len(),
{
    let rest = ns.drop_last();
    let r = ways_up(parents, rest, a, fuel)->Some_0;
    let w = way_up(parents, ns.last(), a, fuel)->Some_0;
    let all = ways_up(parents, ns, a, fuel)->Some_0;
    assert(all == r + w);
    if i < ns.len() - 1 {
        assert(rest[i] == ns[i]);
        lemma_ways_up_has(parents, rest, a, fuel, i);
        let wi = way_up(parents, ns[i], a, fuel)->Some_0;
        assert forall|t: int| 0 <= t < wi.len() implies all.contains(#[trigger] wi[t]) by {
            let q = choose|q: int| 0 <= q < r.len() && r[q] == wi[t];
            assert(all[q] == r[q]);
        }
    } else {
        assert(ns[i] == ns.last());
        assert forall|t: int| 0 <= t < w.len() implies all.contains(#[trigger] w[t]) by {
            assert(all[r.len() + t] == w[t]);
        }
    }
}

/// The lowest common ancestor of sites lies in their region.
proof fn lemma_anchor_in_region(uses: Seq<Use>, parents: Map<u32, Option<u32>>, depths: Map<u32, u32>, fuel: nat, k: Binding, x: u32)
    requires
        region(uses, parents, depths, fuel, k) is Some,
        lca_all(parents, depths, sites_of(uses, k), fuel) == Some(x),
    ensures
        region(uses, parents, depths, fuel, k)->Some_0.contains(x),
{
    let sites = sites_of(uses, k);
    assert(sites.len() > 0);
    lemma_ways_up_has(parents, sites, x, fuel, 0);
    lemma_way_up(parents, sites[0], x, fuel);
    let w = way_up(parents, sites[0], x, fuel)->Some_0;
    assert(w[w.len() - 1] == x);
}

/// The first node on the way up from `n` that declares `alias`, below a node that does.
proof fn lemma_first_declaring(m: PlanModel, parents: Map<u32, Option<u32>>, n: u32, alias: Seq<char>, k: nat)
    requires
        declares_at(m, parents, n, k, alias),
    ensures
        exists|k0: nat|
            k0 <= k && #[trigger] declares_at(m, parents, n, k0, alias) && forall|j: nat|
                j < k0 ==> !#[trigger] declares_at(m, parents, n, j, alias),
    decreases k,
{
    if exists|j: nat| j < k && #[trigger] declares_at(m, parents, n, j, alias) {
        let j = choose|j: nat| j < k && #[trigger] declares_at(m, parents, n, j, alias);
        lemma_first_declaring(m, parents, n, alias, j);
    }
}

/// Every element's use of an alias resolves, in the optimized plan, to the URI the alias
/// names in that element's scope: the nearest declaration of the alias on the element or
/// its recorded ancestors gives that URI.
pub proof fn law_plan_resolves_every_use(d: DocumentModel, i: int)
    requires
        optimized_plan(d) is Ok,
        0 <= i < visit_uses(d.elements, document_visits(d)->Ok_0).len(),
    ensures
        resolves_to(
            optimized_plan(d)->Ok_0,
            parent_map(document_visits(d)->Ok_0),
            visit_uses(d.elements, document_visits(d)->Ok_0)[i].1,
            visit_uses(d.elements, document_visits(d)->Ok_0)[i].0.0,
            visit_uses(d.elements, document_visits(d)->Ok_0)[i].0.1,
        ),
{
    let vs = document_visits(d)->Ok_0;
    let uses = visit_uses(d.elements, vs);
    let keys = key_order(uses);
    let parents = parent_map(vs);
    let depths = depth_map(vs);
    let fuel = vs.len();
    let m = place_all(keys, keys, uses, parents, depths, fuel);
    let k = uses[i].0;
    let n = uses[i].1;
    lemma_key_order_has(uses, i);
    lemma_sites_of_contains(uses, i);
    lemma_key_order_elems(uses);
    lemma_visit_uses_bound(d.elements, vs);
    // one node names one URI for an alias
    assert forall|p: int, q: int|
        0 <= p < uses.len() && 0 <= q < uses.len() && (#[trigger] uses[p]).1 == (#[trigger] uses[q]).1
            && uses[p].0.0 == uses[q].0.0 implies uses[p].0.1 == uses[q].0.1 by {
        assert(scope_url(d.elements[uses[p].1].scope, uses[p].0.0) == Some(uses[p].0.1));
        assert(scope_url(d.elements[uses[q].1].scope, uses[q].0.0) == Some(uses[q].0.1));
    }
    let jk = choose|j: int| 0 <= j < keys.len() && keys[j] == k;
    let sites = sites_of(uses, k);
    let si = choose|si: int| 0 <= si < sites.len() && sites[si] == n;
    // a binding of `k.0` to another URI at a node in the region of `k`, or at a site of `k`
    // that is the anchor of the other binding, makes one of the two conflicted
    lemma_place_all_placed(keys, keys, uses, parents, depths, fuel, k);
    let first: nat = if has_alias(m, n, k.0) {
        0
    } else {
        assert(!conflicted(keys, uses, parents, depths, fuel, k));
        let x = lca_all(parents, depths, sites, fuel)->Some_0;
        assert(has_alias(m, x, k.0));
        let r = region(uses, parents, depths, fuel, k)->Some_0;
        lemma_ways_up_has(parents, sites, x, fuel, si);
        lemma_way_up(parents, n, x, fuel);
        let w = way_up(parents, n, x, fuel)->Some_0;
        let c = (w.len() - 1) as nat;
        assert(w[c as int] == x);
        assert(climb(parents, n, c) == Some(w[c as int]));
        assert(declares_at(m, parents, n, c, k.0));
        lemma_first_declaring(m, parents, n, k.0, c);
        let k0 = choose|k0: nat|
            k0 <= c && #[trigger] declares_at(m, parents, n, k0, k.0) && forall|j: nat|
                j < k0 ==> !#[trigger] declares_at(m, parents, n, j, k.0);
        let z = w[k0 as int];
        assert(climb(parents, n, k0) == Some(w[k0 as int]));
        assert(r.contains(z));
        let v = lookup(m[z], k.0)->Some_0;
        lemma_place_all_origin(keys, keys, uses, parents, depths, fuel, z, k.0, v);
        let q = choose|q: int| 0 <= q < keys.len() && #[trigger] keys[q] == (k.0, v) && (sites_of(uses, keys[q]).contains(z) || (
            !conflicted(keys, uses, parents, depths, fuel, keys[q]) && lca_all(parents, depths, sites_of(uses, keys[q]), fuel)
                == Some(z)));
        if v != k.1 {
            assert(may_declare(uses, parents, depths, fuel, keys[q], z));
            assert(region_meets(uses, parents, depths, fuel, k, keys[q]));
            assert(conflicted(keys, uses, parents, depths, fuel, k));
        }
        k0
    };
    let z = climb(parents, n, first)->Some_0;
    if first == 0 {
        assert(climb(parents, n, 0) == Some(n));
        let v = lookup(m[n], k.0)->Some_0;
        lemma_place_all_origin(keys, keys, uses, parents, depths, fuel, n, k.0, v);
        let q = choose|q: int| 0 <= q < keys.len() && #[trigger] keys[q] == (k.0, v) && (sites_of(uses, keys[q]).contains(n) || (
            !conflicted(keys, uses, parents, depths, fuel, keys[q]) && lca_all(parents, depths, sites_of(uses, keys[q]), fuel)
                == Some(n)));
        if v != k.1 {
            let k2 = keys[q];
            if sites_of(uses, k2).contains(n) {
                lemma_sites_of_has(uses, k2, n);
                lemma_sites_of_has(uses, k, n);
                let i1 = choose|i1: int| 0 <= i1 < uses.len() && #[trigger] uses[i1] == (k2, n);
                let i2 = choose|i2: int| 0 <= i2 < uses.len() && #[trigger] uses[i2] == (k, n);
                assert(uses[i1].1 == uses[i2].1);
            } else {
                lemma_anchor_in_region(uses, parents, depths, fuel, k2, n);
                assert(may_declare(uses, parents, depths, fuel, k, n));
                assert(region_meets(uses, parents, depths, fuel, k2, k));
                assert(keys[jk].0 == k2.0 && keys[jk].1 != k2.1);
                assert(conflicted(keys, uses, parents, depths, fuel, k2));
            }
        }
        assert(nearest_binds(m, parents, n, 0, k.0, k.1));
    } else {
        assert(nearest_binds(m, parents, n, first, k.0, k.1));
    }
}

} // verus!
