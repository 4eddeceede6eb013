//! An element's start tag, written from the element, builds the element again.
use vstd::prelude::*;
use crate::text::{first_colon, colon_at, lemma_first_colon, local_of, prefix_of};
use crate::validation::{valid_xml_name, colon_count, name_char};
use crate::dom::assoc::{Pairs, lookup, lemma_put};
use crate::dom::attribute::{AttributeModel, attribute_from_raw, attribute_ns_name, lemma_attribute_name_roundtrip};
use crate::dom::namespace::{ScopeModel, scope_add, scope_clear_local, scope_local_declarations, xmlns_alias};
use crate::dom::element::{
    ElementModel, tag_ns, attrs_or_empty, is_xmlns, add_namespaces, xmlns_attrs, plain_attrs,
    new_scope, new_element_spec,
};
use crate::dom::document::xmlns_name;

verus! {

/// The (alias, URI) pairs that `xmlns` attributes declare, in order.
pub open spec fn ns_pairs(ns: Seq<AttributeModel>) -> Pairs {
    ns.map_values(|x: AttributeModel| (xmlns_alias(attribute_ns_name(x)), x.value))
}

/// No alias is declared twice by the `xmlns` attributes among `attrs`.
pub open spec fn declares_each_alias_once(attrs: Seq<AttributeModel>) -> bool {
    let ps = ns_pairs(xmlns_attrs(attrs));
    forall|i: int, j: int| 0 <= i < j < ps.len() ==> ps[i].0 != ps[j].0
}

/// Namespace declarations as `xmlns` attributes.
pub open spec fn decl_attrs(ds: Pairs) -> Seq<AttributeModel> {
    ds.map_values(|p: (Seq<char>, Seq<char>)| attribute_from_raw(xmlns_name(p.0), p.1))
}

/// The attributes of an element's start tag: its local declarations as `xmlns`
/// attributes when it owns its scope, then its own attributes.
pub open spec fn event_attrs(e: ElementModel) -> Seq<AttributeModel> {
    (if e.ns_override {
        decl_attrs(scope_local_declarations(e.scope))
    } else {
        Seq::empty()
    }) + attrs_or_empty(e)
}

// ---------------------------------------------------------------------
// Sequences
// ---------------------------------------------------------------------

proof fn lemma_filter_map_add<A, B>(a: Seq<A>, b: Seq<A>, f: spec_fn(A) -> Option<B>)
    ensures
        (a + b).filter_map(f) == a.filter_map(f) + b.filter_map(f),
    decreases b.len(),
{
    if b.len() == 0 {
        assert(a + b =~= a);
        assert(a.filter_map(f) + b.filter_map(f) =~= a.filter_map(f));
    } else {
        lemma_filter_map_add(a, b.drop_last(), f);
        assert((a + b).drop_last() =~= a + b.drop_last());
        assert((a + b).last() == b.last());
        match f(b.last()) {
            Some(y) => {
                assert((a + b).filter_map(f) =~= a.filter_map(f) + b.filter_map(f));
            },
            None => {
                assert((a + b).filter_map(f) =~= a.filter_map(f) + b.filter_map(f));
            },
        }
    }
}

/// A list whose every element maps to `Some` maps to the list of those values.
proof fn lemma_filter_map_all<A, B>(l: Seq<A>, f: spec_fn(A) -> Option<B>, r: Seq<B>)
    requires
        l.len() == r.len(),
        forall|i: int| 0 <= i < l.len() ==> f(#[trigger] l[i]) == Some(r[i]),
    ensures
        l.filter_map(f) == r,
    decreases l.len(),
{
    if l.len() > 0 {
        let n = l.len() - 1;
        assert forall|i: int| 0 <= i < l.drop_last().len() implies f(#[trigger] l.drop_last()[i]) == Some(
            r.drop_last()[i],
        ) by {
            assert(l.drop_last()[i] == l[i]);
        }
        lemma_filter_map_all(l.drop_last(), f, r.drop_last());
        assert(f(l[n]) == Some(r[n]));
        assert(l.filter_map(f) =~= r);
    }
}

proof fn lemma_filter_map_none<A, B>(l: Seq<A>, f: spec_fn(A) -> Option<B>)
    requires
        forall|i: int| 0 <= i < l.len() ==> f(#[trigger] l[i]) is None,
    ensures
        l.filter_map(f) == Seq::<B>::empty(),
    decreases l.len(),
{
    if l.len() > 0 {
        assert forall|i: int| 0 <= i < l.drop_last().len() implies f(#[trigger] l.drop_last()[i]) is None by {
            assert(l.drop_last()[i] == l[i]);
        }
        lemma_filter_map_none(l.drop_last(), f);
        assert(f(l[l.len() - 1]) is None);
    }
}

/// The kept elements of a filter satisfy `q` when `f` keeps only such elements, unchanged.
proof fn lemma_filter_map_kept<A>(l: Seq<A>, f: spec_fn(A) -> Option<A>, q: spec_fn(A) -> bool, k: int)
    requires
        forall|x: A| #[trigger] f(x) is Some ==> f(x) == Some(x) && q(x),
        0 <= k < l.filter_map(f).len(),
    ensures
        q(l.filter_map(f)[k]),
        l.contains(l.filter_map(f)[k]),
    decreases l.len(),
{
    let rest = l.drop_last();
    let x = l.last();
    if f(x) is Some {
        assert(l.filter_map(f) == rest.filter_map(f) + seq![x]);
        if k < rest.filter_map(f).len() {
            lemma_filter_map_kept(rest, f, q, k);
            let i = choose|i: int| 0 <= i < rest.len() && rest[i] == rest.filter_map(f)[k];
            assert(l[i] == rest[i]);
        } else {
            assert(l[l.len() - 1] == x);
        }
    } else {
        assert(l.filter_map(f) == rest.filter_map(f));
        lemma_filter_map_kept(rest, f, q, k);
        let i = choose|i: int| 0 <= i < rest.len() && rest[i] == rest.filter_map(f)[k];
        assert(l[i] == rest[i]);
    }
}

// ---------------------------------------------------------------------
// Scopes
// ---------------------------------------------------------------------

/// Declaring attributes depends only on the pairs they declare.
proof fn lemma_add_namespaces_pairs(s: ScopeModel, n1: Seq<AttributeModel>, n2: Seq<AttributeModel>)
    requires
        ns_pairs(n1) == ns_pairs(n2),
    ensures
        add_namespaces(s, n1) == add_namespaces(s, n2),
    decreases n1.len(),
{
    assert(n1.len() == ns_pairs(n1).len());
    assert(n2.len() == ns_pairs(n2).len());
    if n1.len() > 0 {
        assert(ns_pairs(n1.drop_last()) =~= ns_pairs(n1).drop_last());
        assert(ns_pairs(n2.drop_last()) =~= ns_pairs(n2).drop_last());
        lemma_add_namespaces_pairs(s, n1.drop_last(), n2.drop_last());
        assert(ns_pairs(n1)[n1.len() - 1] == ns_pairs(n2)[n2.len() - 1]);
    }
}

/// Declaring distinct aliases on a scope without local declarations: the local
/// declarations are those aliases in order, each bound to its URI.
proof fn lemma_add_namespaces_local(ctx: ScopeModel, ns: Seq<AttributeModel>)
    requires
        forall|i: int, j: int| 0 <= i < j < ns_pairs(ns).len() ==> ns_pairs(ns)[i].0 != ns_pairs(ns)[j].0,
    ensures
        add_namespaces(scope_clear_local(ctx), ns).local == ns_pairs(ns).map_values(|p: (Seq<char>, Seq<char>)| p.0),
        forall|i: int| 0 <= i < ns_pairs(ns).len() ==> lookup(add_namespaces(scope_clear_local(ctx), ns).alias_url,
            #[trigger] ns_pairs(ns)[i].0) == Some(ns_pairs(ns)[i].1),
    decreases ns.len(),
{
    let ps = ns_pairs(ns);
    if ns.len() == 0 {
        assert(add_namespaces(scope_clear_local(ctx), ns).local =~= ps.map_values(|p: (Seq<char>, Seq<char>)| p.0));
    } else {
        let rest = ns.drop_last();
        assert(ns_pairs(rest) =~= ps.drop_last());
        lemma_add_namespaces_local(ctx, rest);
        let s0 = add_namespaces(scope_clear_local(ctx), rest);
        let n = ps.len() - 1;
        let al = ps[n].0;
        let u = ps[n].1;
        assert(al == xmlns_alias(attribute_ns_name(ns.last())));
        assert(u == ns.last().value);
        let keys0 = ps.drop_last().map_values(|p: (Seq<char>, Seq<char>)| p.0);
        assert(!s0.local.contains(al)) by {
            if s0.local.contains(al) {
                let i = choose|i: int| 0 <= i < s0.local.len() && s0.local[i] == al;
                assert(keys0[i] == ps[i].0);
            }
        }
        lemma_put(s0.alias_url, al, u);
        let s1 = add_namespaces(scope_clear_local(ctx), ns);
        assert(s1.local =~= ps.map_values(|p: (Seq<char>, Seq<char>)| p.0));
        assert forall|i: int| 0 <= i < ps.len() implies lookup(s1.alias_url, #[trigger] ps[i].0) == Some(ps[i].1) by {
            if i < n {
                assert(ps.drop_last()[i] == ps[i]);
            }
        }
    }
}

/// The local declarations of a scope whose local aliases are those of `ps`, each bound to
/// its URI, are `ps`.
proof fn lemma_local_declarations(s: ScopeModel, ps: Pairs)
    requires
        s.local == ps.map_values(|p: (Seq<char>, Seq<char>)| p.0),
        forall|i: int| 0 <= i < ps.len() ==> lookup(s.alias_url, #[trigger] ps[i].0) == Some(ps[i].1),
    ensures
        scope_local_declarations(s) == ps,
{
    let f = |a: Seq<char>|
        match lookup(s.alias_url, a) {
            Some(u) => Some((a, u)),
            None => None,
        };
    assert forall|i: int| 0 <= i < s.local.len() implies f(#[trigger] s.local[i]) == Some(ps[i]) by {
        assert(s.local[i] == ps[i].0);
        assert(lookup(s.alias_url, ps[i].0) == Some(ps[i].1));
    }
    lemma_filter_map_all(s.local, f, ps);
}

/// The pairs declared by the `xmlns` attributes written for plain aliases are those pairs.
proof fn lemma_decl_pairs(l: Pairs)
    requires
        forall|i: int| 0 <= i < l.len() ==> !(#[trigger] l[i]).0.contains(':'),
    ensures
        ns_pairs(decl_attrs(l)) == l,
        forall|i: int| 0 <= i < l.len() ==> is_xmlns(#[trigger] decl_attrs(l)[i])
            && attribute_ns_name(decl_attrs(l)[i]) == xmlns_name(l[i].0),
{
    assert forall|i: int| 0 <= i < l.len() implies is_xmlns(#[trigger] decl_attrs(l)[i])
        && attribute_ns_name(decl_attrs(l)[i]) == xmlns_name(l[i].0) && ns_pairs(decl_attrs(l))[i] == l[i] by {
        let al = l[i].0;
        lemma_xmlns_name_alias(al);
        lemma_attribute_name_roundtrip(xmlns_name(al), l[i].1);
    }
    assert(ns_pairs(decl_attrs(l)) =~= l);
}

// ---------------------------------------------------------------------
// Colons
// ---------------------------------------------------------------------

proof fn lemma_colon_count_add(a: Seq<char>, b: Seq<char>)
    ensures
        colon_count(a + b) == colon_count(a) + colon_count(b),
    decreases b.len(),
{
    if b.len() == 0 {
        assert(a + b =~= a);
    } else {
        lemma_colon_count_add(a, b.drop_last());
        assert((a + b).drop_last() =~= a + b.drop_last());
    }
}

proof fn lemma_colon_count_zero(s: Seq<char>)
    requires
        !s.contains(':'),
    ensures
        colon_count(s) == 0,
    decreases s.len(),
{
    if s.len() > 0 {
        assert(!s.drop_last().contains(':')) by {
            if s.drop_last().contains(':') {
                let i = choose|i: int| 0 <= i < s.drop_last().len() && s.drop_last()[i] == ':';
                assert(s[i] == ':');
            }
        }
        lemma_colon_count_zero(s.drop_last());
        assert(s.last() != ':') by {
            assert(s[s.len() - 1] == s.last());
        }
    }
}

/// Two colons at different places count at least two.
proof fn lemma_colon_count_two(s: Seq<char>, i: int, j: int)
    requires
        0 <= i < j < s.len(),
        s[i] == ':',
        s[j] == ':',
    ensures
        colon_count(s) >= 2,
    decreases s.len(),
{
    if j < s.len() - 1 {
        assert(s.drop_last()[i] == ':' && s.drop_last()[j] == ':');
        lemma_colon_count_two(s.drop_last(), i, j);
    } else {
        let t = s.drop_last();
        assert(t[i] == ':');
        lemma_colon_count_one(t, i);
    }
}

proof fn lemma_colon_count_one(s: Seq<char>, i: int)
    requires
        0 <= i < s.len(),
        s[i] == ':',
    ensures
        colon_count(s) >= 1,
    decreases s.len(),
{
    if i < s.len() - 1 {
        assert(s.drop_last()[i] == ':');
        lemma_colon_count_one(s.drop_last(), i);
    }
}

/// `xmlns`.
proof fn lemma_xmlns_word()
    ensures
        xmlns_name(Seq::empty()) == seq!['x', 'm', 'l', 'n', 's'],
        !seq!['x', 'm', 'l', 'n', 's'].contains(':'),
{
    let w = seq!['x', 'm', 'l', 'n', 's'];
    assert(!w.contains(':')) by {
        if w.contains(':') {
            let i = choose|i: int| 0 <= i < w.len() && w[i] == ':';
        }
    }
}

/// An alias read from an `xmlns` attribute name holds no `:`.
proof fn lemma_xmlns_alias_plain(n: Seq<char>)
    ensures
        !xmlns_alias(n).contains(':'),
{
    let al = xmlns_alias(n);
    if n.contains(':') {
        let rest = local_of(n);
        if rest.contains(':') {
            lemma_first_colon(rest);
            let p = first_colon(rest);
            assert(!al.contains(':')) by {
                if al.contains(':') {
                    let i = choose|i: int| 0 <= i < al.len() && al[i] == ':';
                    assert(rest[i] == ':');
                }
            }
        }
    } else {
        assert(al == Seq::<char>::empty());
        assert(!al.contains(':')) by {
            if al.contains(':') {
                let i = choose|i: int| 0 <= i < al.len() && al[i] == ':';
            }
        }
    }
}

/// The alias named by the `xmlns` attribute written for alias `al` is `al`.
proof fn lemma_xmlns_name_alias(al: Seq<char>)
    requires
        !al.contains(':'),
    ensures
        xmlns_alias(xmlns_name(al)) == al,
        xmlns_name(al).len() > 0,
        xmlns_name(al)[0] == 'x',
        xmlns_name(al).take(5) == seq!['x', 'm', 'l', 'n', 's'],
{
    lemma_xmlns_word();
    let n = xmlns_name(al);
    if al.len() == 0 {
        assert(n.take(5) =~= n);
        assert(!n.contains(':'));
    } else {
        assert(n == seq!['x', 'm', 'l', 'n', 's', ':'] + al);
        assert(n.take(5) =~= seq!['x', 'm', 'l', 'n', 's']);
        assert(colon_at(n, 5));
        lemma_first_colon(n);
        assert(first_colon(n) == 5);
        assert(local_of(n) =~= al);
    }
}

/// An `xmlns` attribute with a valid name yields an alias whose own `xmlns` name is valid.
proof fn lemma_xmlns_name_valid(n: Seq<char>)
    requires
        valid_xml_name(n),
        n.len() >= 5,
        n.take(5) == seq!['x', 'm', 'l', 'n', 's'],
    ensures
        valid_xml_name(xmlns_name(xmlns_alias(n))),
{
    let w = seq!['x', 'm', 'l', 'n', 's'];
    lemma_xmlns_word();
    assert forall|i: int| 0 <= i < 5 implies n[i] == w[i] by {
        assert(n.take(5)[i] == n[i]);
    }
    let al = xmlns_alias(n);
    lemma_xmlns_alias_plain(n);
    lemma_xmlns_name_alias(al);
    let m = xmlns_name(al);
    if n.contains(':') {
        lemma_first_colon(n);
        let p = first_colon(n);
        assert(p >= 5) by {
            if p < 5 {
                assert(n[p] == w[p]);
            }
        }
        let rest = n.skip(p + 1);
        assert(!rest.contains(':')) by {
            if rest.contains(':') {
                let i = choose|i: int| 0 <= i < rest.len() && rest[i] == ':';
                assert(n[p + 1 + i] == ':');
                let s1 = n.skip(1);
                assert(s1[p - 1] == ':' && s1[p + i] == ':');
                lemma_colon_count_two(s1, p - 1, p + i);
            }
        }
        assert(al == rest);
        if al.len() > 0 {
            assert(m == seq!['x', 'm', 'l', 'n', 's', ':'] + al);
            assert forall|i: int| 1 <= i < m.len() implies #[trigger] name_char(m[i]) by {
                if i < 5 {
                    assert(m[i] == n[i]);
                } else if i == 5 {
                } else {
                    assert(m[i] == n[p + 1 + (i - 6)]);
                }
            }
            assert(m.skip(1) =~= seq!['m', 'l', 'n', 's', ':'] + al);
            lemma_colon_count_add(seq!['m', 'l', 'n', 's', ':'], al);
            lemma_colon_count_zero(al);
            reveal_with_fuel(colon_count, 6);
        } else {
            assert(m == w);
            assert forall|i: int| 1 <= i < m.len() implies #[trigger] name_char(m[i]) by {
                assert(m[i] == n[i]);
            }
            reveal_with_fuel(colon_count, 5);
            assert(m.skip(1) =~= seq!['m', 'l', 'n', 's']);
        }
    } else {
        assert(m == w);
        assert forall|i: int| 1 <= i < m.len() implies #[trigger] name_char(m[i]) by {
            assert(m[i] == n[i]);
        }
        reveal_with_fuel(colon_count, 5);
        assert(m.skip(1) =~= seq!['m', 'l', 'n', 's']);
    }
}

// ---------------------------------------------------------------------
// The start tag of an element
// ---------------------------------------------------------------------

/// Splitting attributes into `xmlns` and plain ones commutes with concatenation.
proof fn lemma_attrs_split(a: Seq<AttributeModel>, b: Seq<AttributeModel>)
    ensures
        xmlns_attrs(a + b) == xmlns_attrs(a) + xmlns_attrs(b),
        plain_attrs(a + b) == plain_attrs(a) + plain_attrs(b),
{
    lemma_filter_map_add(a, b, |x: AttributeModel| if is_xmlns(x) { Some(x) } else { None });
    lemma_filter_map_add(a, b, |x: AttributeModel| if is_xmlns(x) { None } else { Some(x) });
}

/// The element that a raw tag and attributes build, written back as a start tag and read
/// again in the same scope, is the same element; provided the tag does not start with `:`
/// and no alias is declared twice.
pub proof fn lemma_start_tag_rebuilds(t: Seq<char>, attrs: Seq<AttributeModel>, ctx: ScopeModel)
    requires
        new_element_spec(t, Some(attrs), ctx) is Ok,
        declares_each_alias_once(attrs),
        !(t.len() > 0 && t[0] == ':'),
    ensures
        new_element_spec(
            tag_ns(new_element_spec(t, Some(attrs), ctx)->Ok_0),
            Some(event_attrs(new_element_spec(t, Some(attrs), ctx)->Ok_0)),
            ctx,
        ) == new_element_spec(t, Some(attrs), ctx),
{
    let e = new_element_spec(t, Some(attrs), ctx)->Ok_0;
    let fx = |x: AttributeModel| if is_xmlns(x) { Some(x) } else { None };
    let fp = |x: AttributeModel| if is_xmlns(x) { None } else { Some(x) };
    // the tag
    lemma_attribute_name_roundtrip(t, Seq::empty());
    assert(tag_ns(e) == t);
    // the split of the given attributes
    let nss = xmlns_attrs(attrs);
    let plain = plain_attrs(attrs);
    let ps = ns_pairs(nss);
    assert(attrs_or_empty(e) == plain);
    assert forall|k: int| 0 <= k < plain.len() implies !is_xmlns(#[trigger] plain[k]) && attrs.contains(plain[k]) by {
        lemma_filter_map_kept(attrs, fp, |x: AttributeModel| !is_xmlns(x), k);
    }
    assert forall|k: int| 0 <= k < nss.len() implies is_xmlns(#[trigger] nss[k]) && attrs.contains(nss[k]) by {
        lemma_filter_map_kept(attrs, fx, |x: AttributeModel| is_xmlns(x), k);
    }
    lemma_filter_map_all(plain, fp, plain);
    lemma_filter_map_none(plain, fx);
    let d = if e.ns_override {
        decl_attrs(scope_local_declarations(e.scope))
    } else {
        Seq::empty()
    };
    let regen = event_attrs(e);
    assert(regen == d + plain);
    lemma_attrs_split(d, plain);
    assert forall|i: int| 0 <= i < ps.len() implies !(#[trigger] ps[i]).0.contains(':') by {
        lemma_xmlns_alias_plain(attribute_ns_name(nss[i]));
    }
    if e.ns_override {
        lemma_add_namespaces_local(ctx, nss);
        lemma_local_declarations(e.scope, ps);
        assert(d == decl_attrs(ps));
        lemma_decl_pairs(ps);
        assert forall|i: int| 0 <= i < d.len() implies fx(#[trigger] d[i]) == Some(d[i]) by {}
        lemma_filter_map_all(d, fx, d);
        assert forall|i: int| 0 <= i < d.len() implies fp(#[trigger] d[i]) is None by {}
        lemma_filter_map_none(d, fp);
        lemma_add_namespaces_pairs(scope_clear_local(ctx), d, nss);
    } else {
        assert(d.filter_map(fx) =~= Seq::<AttributeModel>::empty());
        assert(d.filter_map(fp) =~= Seq::<AttributeModel>::empty());
    }
    assert(xmlns_attrs(regen) == d);
    assert(plain_attrs(regen) == plain);
    assert(new_scope(Some(regen), ctx) == new_scope(Some(attrs), ctx));
    // every name is valid
    assert forall|i: int| 0 <= i < regen.len() implies valid_xml_name(#[trigger] attribute_ns_name(regen[i])) by {
        if i < d.len() {
            let n = attribute_ns_name(nss[i]);
            let j = choose|j: int| 0 <= j < attrs.len() && attrs[j] == nss[i];
            assert(valid_xml_name(attribute_ns_name(attrs[j])));
            lemma_xmlns_name_valid(n);
            assert(regen[i] == d[i]);
        } else {
            assert(regen[i] == plain[i - d.len()]);
            let j = choose|j: int| 0 <= j < attrs.len() && attrs[j] == plain[i - d.len()];
            assert(valid_xml_name(attribute_ns_name(attrs[j])));
        }
    }
}

} // verus!
