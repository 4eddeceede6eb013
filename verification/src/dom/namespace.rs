//! Namespace scopes (alias <-> URI bindings) and namespace declarations.
use vstd::prelude::*;
use crate::text::{first_colon, local_of, to_string, copy_string, find_colon, join_qualified};
use crate::dom::assoc::{
    Pairs, pairs_view, lookup, assoc_put, assoc_remove, unique_keys, vec_lookup, vec_put,
    vec_remove_key, lemma_put, lemma_remove,
};
use crate::dom::attribute::{XmlAttribute, attribute_ns_name};

verus! {

/// Namespace alias key.
pub type NsAlias = String;

/// Namespace URL.
pub type NsUrl = String;

/// The model of a namespace scope.
pub ghost struct ScopeModel {
    /// URI -> alias.
    pub url_alias: Pairs,
    /// alias -> URI.
    pub alias_url: Pairs,
    /// Aliases declared directly on this scope, in declaration order.
    pub local: Seq<Seq<char>>,
}

/// The alias recorded for a URI is bound to that URI.
pub open spec fn scope_consistent(s: ScopeModel) -> bool {
    forall|u: Seq<char>| #[trigger] lookup(s.url_alias, u) is Some ==> lookup(s.alias_url, lookup(s.url_alias, u)->Some_0)
        == Some(u)
}

/// The well-formedness of a scope model: no key occurs twice in either map, nor an alias
/// twice among the local declarations, and the alias recorded for a URI is bound to it.
pub open spec fn scope_wf(s: ScopeModel) -> bool {
    &&& unique_keys(s.url_alias)
    &&& unique_keys(s.alias_url)
    &&& s.local.no_duplicates()
    &&& scope_consistent(s)
}

/// Binding an alias keeps a scope well formed.
pub proof fn lemma_scope_add_wf(s: ScopeModel, alias: Seq<char>, url: Seq<char>)
    requires
        scope_wf(s),
    ensures
        scope_wf(scope_add(s, alias, url)),
{
    let t = scope_add(s, alias, url);
    let reverse = match lookup(s.alias_url, alias) {
        Some(old_url) => if old_url != url {
            assoc_remove(s.url_alias, old_url)
        } else {
            s.url_alias
        },
        None => s.url_alias,
    };
    match lookup(s.alias_url, alias) {
        Some(old_url) => {
            if old_url != url {
                lemma_remove(s.url_alias, old_url);
            }
        },
        None => {},
    }
    lemma_put(reverse, url, alias);
    lemma_put(s.alias_url, alias, url);
    assert forall|u: Seq<char>| #[trigger] lookup(t.url_alias, u) is Some implies lookup(t.alias_url, lookup(t.url_alias, u)->Some_0)
        == Some(u) by {
        if u != url {
            let a = lookup(t.url_alias, u)->Some_0;
            assert(lookup(reverse, u) == Some(a));
            assert(lookup(s.url_alias, u) == Some(a));
            assert(lookup(s.alias_url, a) == Some(u));
        }
    }
    if !s.local.contains(alias) {
        assert(t.local.no_duplicates()) by {
            assert forall|i: int, j: int| 0 <= i < t.local.len() && 0 <= j < t.local.len() && i != j implies t.local[i] != t.local[j] by {
                if i == s.local.len() as int {
                    assert(t.local[j] == s.local[j]);
                } else if j == s.local.len() as int {
                    assert(t.local[i] == s.local[i]);
                }
            }
        }
    }
}

/// After binding `alias` to `url`, the alias reads back `url` and `url` reads back
/// `alias`; every other alias keeps its URI, every other URI keeps its alias unless
/// `alias` was bound to it; the alias is among the local declarations, once, and the scope
/// stays well formed.
pub proof fn law_added_binding_reads_back(s: ScopeModel, alias: Seq<char>, url: Seq<char>)
    requires
        scope_wf(s),
    ensures
        scope_url(scope_add(s, alias, url), alias) == Some(url),
        scope_alias(scope_add(s, alias, url), url) == Some(alias),
        forall|b: Seq<char>| b != alias ==> #[trigger] scope_url(scope_add(s, alias, url), b) == scope_url(s, b),
        forall|v: Seq<char>| v != url && scope_url(s, alias) != Some(v) ==> #[trigger] scope_alias(
            scope_add(s, alias, url),
            v,
        ) == scope_alias(s, v),
        scope_wf(scope_add(s, alias, url)),
        scope_add(s, alias, url).local.contains(alias),
        scope_add(s, alias, url).local.no_duplicates(),
{
    if !s.local.contains(alias) {
        assert(s.local.push(alias)[s.local.len() as int] == alias);
    }
    match lookup(s.alias_url, alias) {
        Some(old_url) => {
            if old_url != url {
                lemma_remove(s.url_alias, old_url);
            }
        },
        None => {},
    }
    let reverse = match lookup(s.alias_url, alias) {
        Some(old_url) => if old_url != url {
            assoc_remove(s.url_alias, old_url)
        } else {
            s.url_alias
        },
        None => s.url_alias,
    };
    lemma_put(reverse, url, alias);
    lemma_put(s.alias_url, alias, url);
    lemma_scope_add_wf(s, alias, url);
}

/// The empty scope.
pub open spec fn empty_scope() -> ScopeModel {
    ScopeModel { url_alias: Seq::empty(), alias_url: Seq::empty(), local: Seq::empty() }
}

/// The URI bound to `alias` in scope.
pub open spec fn scope_url(s: ScopeModel, alias: Seq<char>) -> Option<Seq<char>> {
    lookup(s.alias_url, alias)
}

/// The alias recorded for `url` in scope.
pub open spec fn scope_alias(s: ScopeModel, url: Seq<char>) -> Option<Seq<char>> {
    lookup(s.url_alias, url)
}

/// Binding `alias -> url`: a rebound alias drops the reverse entry of its old URL, the
/// URL's reverse entry points to `alias`, and the alias joins the local declarations once.
pub open spec fn scope_add(s: ScopeModel, alias: Seq<char>, url: Seq<char>) -> ScopeModel {
    let reverse = match lookup(s.alias_url, alias) {
        Some(old_url) => if old_url != url {
            assoc_remove(s.url_alias, old_url)
        } else {
            s.url_alias
        },
        None => s.url_alias,
    };
    ScopeModel {
        url_alias: assoc_put(reverse, url, alias),
        alias_url: assoc_put(s.alias_url, alias, url),
        local: if s.local.contains(alias) {
            s.local
        } else {
            s.local.push(alias)
        },
    }
}

/// The scope with no local declarations.
pub open spec fn scope_clear_local(s: ScopeModel) -> ScopeModel {
    ScopeModel { local: Seq::empty(), ..s }
}

/// The alias named by an `xmlns` attribute: the text between the first and the second
/// `:` of its namespaced name, or the empty alias when the name has no `:`.
pub open spec fn xmlns_alias(ns_name: Seq<char>) -> Seq<char> {
    if ns_name.contains(':') {
        let rest = local_of(ns_name);
        if rest.contains(':') {
            rest.take(first_colon(rest))
        } else {
            rest
        }
    } else {
        Seq::empty()
    }
}

/// The local declarations with their URIs, for the aliases bound in scope.
pub open spec fn scope_local_declarations(s: ScopeModel) -> Seq<(Seq<char>, Seq<char>)> {
    s.local.filter_map(
        |a: Seq<char>|
            match lookup(s.alias_url, a) {
                Some(u) => Some((a, u)),
                None => None,
            },
    )
}

/// Manages XML namespace mappings between aliases (prefixes) and URLs.
#[derive(Debug)]
pub struct XmlNamespace {
    url_alias: Vec<(NsUrl, NsAlias)>,
    alias_url: Vec<(NsAlias, NsUrl)>,
    locally_declared_aliases: Vec<NsAlias>,
}

impl View for XmlNamespace {
    type V = ScopeModel;

    closed spec fn view(&self) -> ScopeModel {
        ScopeModel {
            url_alias: pairs_view(self.url_alias@),
            alias_url: pairs_view(self.alias_url@),
            local: self.locally_declared_aliases@.map_values(|a: String| a@),
        }
    }
}

fn copy_pairs(v: &Vec<(String, String)>) -> (r: Vec<(String, String)>)
    ensures
        pairs_view(r@) == pairs_view(v@),
{
    let mut r: Vec<(String, String)> = Vec::new();
    let mut i: usize = 0;
    while i < v.len()
        invariant
            i <= v.len(),
            pairs_view(r@) =~= pairs_view(v@.take(i as int)),
        decreases v.len() - i,
    {
        let ghost r0 = r@;
        r.push((copy_string(&v[i].0), copy_string(&v[i].1)));
        assert(v@.take(i + 1) =~= v@.take(i as int).push(v@[i as int]));
        assert(pairs_view(r@) =~= pairs_view(r0).push((v@[i as int].0@, v@[i as int].1@)));
        assert(pairs_view(v@.take(i + 1)) =~= pairs_view(v@.take(i as int)).push(
            (v@[i as int].0@, v@[i as int].1@),
        ));
        i = i + 1;
    }
    assert(v@.take(v.len() as int) =~= v@);
    r
}

fn copy_strings(v: &Vec<String>) -> (r: Vec<String>)
    ensures
        r@.map_values(|a: String| a@) == v@.map_values(|a: String| a@),
{
    let mut r: Vec<String> = Vec::new();
    let mut i: usize = 0;
    while i < v.len()
        invariant
            i <= v.len(),
            r@.map_values(|a: String| a@) =~= v@.take(i as int).map_values(|a: String| a@),
        decreases v.len() - i,
    {
        let ghost r0 = r@;
        r.push(copy_string(&v[i]));
        assert(v@.take(i + 1) =~= v@.take(i as int).push(v@[i as int]));
        assert(r@.map_values(|a: String| a@) =~= r0.map_values(|a: String| a@).push(v@[i as int]@));
        assert(v@.take(i + 1).map_values(|a: String| a@) =~= v@.take(i as int).map_values(
            |a: String| a@,
        ).push(v@[i as int]@));
        i = i + 1;
    }
    assert(v@.take(v.len() as int) =~= v@);
    r
}

fn strings_contain(v: &Vec<String>, x: &str) -> (r: bool)
    ensures
        r == v@.map_values(|a: String| a@).contains(x@),
{
    let ghost m = v@.map_values(|a: String| a@);
    let mut i: usize = 0;
    while i < v.len()
        invariant
            i <= v.len(),
            m == v@.map_values(|a: String| a@),
            forall|j: int| 0 <= j < i ==> m[j] != x@,
        decreases v.len() - i,
    {
        if crate::text::str_eq(v[i].as_str(), x) {
            assert(m[i as int] == x@);
            return true;
        }
        i = i + 1;
    }
    false
}

impl XmlNamespace {
    #[verifier::type_invariant]
    spec fn well_formed(self) -> bool {
        scope_wf(self@)
    }

    /// Creates a new, empty namespace context.
    pub(crate) fn new() -> (r: XmlNamespace)
        ensures
            r@ == empty_scope(),
    {
        let r = XmlNamespace {
            url_alias: Vec::new(),
            alias_url: Vec::new(),
            locally_declared_aliases: Vec::new(),
        };
        assert(r@.local =~= Seq::<Seq<char>>::empty());
        assert(pairs_view(r.url_alias@) =~= Seq::empty());
        assert(pairs_view(r.alias_url@) =~= Seq::empty());
        r
    }

    /// The scope is well formed.
    pub(crate) fn well_formed_scope(&self)
        ensures
            scope_wf(self@),
    {
        proof {
            use_type_invariant(self);
        }
    }

    /// A copy of this scope.
    pub(crate) fn duplicate(&self) -> (r: XmlNamespace)
        ensures
            r@ == self@,
    {
        proof {
            use_type_invariant(self);
        }
        XmlNamespace {
            url_alias: copy_pairs(&self.url_alias),
            alias_url: copy_pairs(&self.alias_url),
            locally_declared_aliases: copy_strings(&self.locally_declared_aliases),
        }
    }

    /// Adds a mapping from alias to URL and vice versa.
    pub(crate) fn add_url_alias_mut(&mut self, alias: &str, url: &str)
        ensures
            final(self)@ == scope_add(old(self)@, alias@, url@),
    {
        proof {
            use_type_invariant(&*self);
        }
        let ghost s = self@;
        let mut url_alias: Vec<(String, String)> = Vec::new();
        let mut alias_url: Vec<(String, String)> = Vec::new();
        let mut local: Vec<String> = Vec::new();
        std::mem::swap(&mut url_alias, &mut self.url_alias);
        std::mem::swap(&mut alias_url, &mut self.alias_url);
        std::mem::swap(&mut local, &mut self.locally_declared_aliases);
        assert(pairs_view(url_alias@) == s.url_alias);
        assert(pairs_view(alias_url@) == s.alias_url);
        match vec_lookup(&alias_url, alias) {
            Some(i) => {
                let old_url = copy_string(&alias_url[i].1);
                if !crate::text::str_eq(old_url.as_str(), url) {
                    proof {
                        lemma_remove(s.url_alias, old_url@);
                    }
                    vec_remove_key(&mut url_alias, old_url.as_str());
                }
            },
            None => {},
        }
        let ghost reverse = pairs_view(url_alias@);
        proof {
            lemma_put(s.alias_url, alias@, url@);
            lemma_put(reverse, url@, alias@);
            lemma_scope_add_wf(s, alias@, url@);
        }
        vec_put(&mut alias_url, alias, url);
        vec_put(&mut url_alias, url, alias);
        let present = strings_contain(&local, alias);
        if !present {
            local.push(to_string(alias));
        }
        proof {
            if !present {
                assert(local@.map_values(|a: String| a@) =~= s.local.push(alias@));
            }
        }
        *self = XmlNamespace { url_alias, alias_url, locally_declared_aliases: local };
        assert(self@ == scope_add(s, alias@, url@));
    }

    /// Clears the record of aliases declared directly on this scope.
    pub(crate) fn clear_local_declarations_mut(&mut self)
        ensures
            final(self)@ == scope_clear_local(old(self)@),
    {
        proof {
            use_type_invariant(&*self);
        }
        let mut url_alias: Vec<(String, String)> = Vec::new();
        let mut alias_url: Vec<(String, String)> = Vec::new();
        std::mem::swap(&mut url_alias, &mut self.url_alias);
        std::mem::swap(&mut alias_url, &mut self.alias_url);
        *self = XmlNamespace { url_alias, alias_url, locally_declared_aliases: Vec::new() };
        assert(self@.local =~= Seq::<Seq<char>>::empty());
    }

    /// Adds a namespace from an `xmlns` attribute: the alias is the second `:`-separated
    /// part of its namespaced name (empty for the default namespace), the URI its value.
    pub(crate) fn add_namespace_mut(&mut self, ns_attribute: &XmlAttribute)
        ensures
            final(self)@ == scope_add(
                old(self)@,
                xmlns_alias(attribute_ns_name(ns_attribute@)),
                ns_attribute@.value,
            ),
    {
        let ns_name = ns_attribute.get_ns_name();
        let alias = xmlns_alias_of(ns_name.as_str());
        self.add_url_alias_mut(alias.as_str(), ns_attribute.get_value());
    }

    /// Whether `ns_alias` is bound in this scope.
    pub(crate) fn is_valid_ns_alias(&self, ns_alias: &str) -> (r: bool)
        ensures
            r == scope_url(self@, ns_alias@).is_some(),
    {
        vec_lookup(&self.alias_url, ns_alias).is_some()
    }

    /// Gets the namespace URL for a given alias.
    pub(crate) fn get_url(&self, alias: &str) -> (r: Option<String>)
        ensures
            opt_string_view(r) == scope_url(self@, alias@),
    {
        match vec_lookup(&self.alias_url, alias) {
            Some(i) => Some(copy_string(&self.alias_url[i].1)),
            None => None,
        }
    }

    /// Gets the namespace alias for a given URL.
    pub(crate) fn get_alias(&self, url: &str) -> (r: Option<String>)
        ensures
            opt_string_view(r) == scope_alias(self@, url@),
    {
        match vec_lookup(&self.url_alias, url) {
            Some(i) => Some(copy_string(&self.url_alias[i].1)),
            None => None,
        }
    }

    /// Returns the aliases declared directly on this scope with their URIs, in
    /// declaration order.
    pub(crate) fn get_local_declarations(&self) -> (r: Vec<(NsAlias, NsUrl)>)
        ensures
            pairs_view(r@) == scope_local_declarations(self@),
    {
        let ghost f = |a: Seq<char>|
            match lookup(self@.alias_url, a) {
                Some(u) => Some((a, u)),
                None => None,
            };
        let mut r: Vec<(String, String)> = Vec::new();
        let mut i: usize = 0;
        while i < self.locally_declared_aliases.len()
            invariant
                i <= self.locally_declared_aliases.len(),
                f == (|a: Seq<char>|
                    match lookup(self@.alias_url, a) {
                        Some(u) => Some((a, u)),
                        None => None,
                    }),
                pairs_view(r@) == self@.local.take(i as int).filter_map(f),
            decreases self.locally_declared_aliases.len() - i,
        {
            let alias = &self.locally_declared_aliases[i];
            assert(self@.local.take(i + 1).drop_last() =~= self@.local.take(i as int));
            match vec_lookup(&self.alias_url, alias.as_str()) {
                Some(k) => {
                    r.push((copy_string(alias), copy_string(&self.alias_url[k].1)));
                    assert(pairs_view(r@) =~= self@.local.take(i + 1).filter_map(f));
                },
                None => {
                    assert(pairs_view(r@) =~= self@.local.take(i + 1).filter_map(f));
                },
            }
            i = i + 1;
        }
        assert(self@.local.take(i as int) =~= self@.local);
        r
    }
}

impl Clone for XmlNamespace {
    /// A copy of this scope.
    fn clone(&self) -> (r: Self)
        ensures
            r@ == self@,
    {
        self.duplicate()
    }
}

/// The model of an optional string.
pub open spec fn opt_string_view(o: Option<String>) -> Option<Seq<char>> {
    match o {
        Some(s) => Some(s@),
        None => None,
    }
}

/// The alias named by an `xmlns` attribute's namespaced name.
pub(crate) fn xmlns_alias_of(ns_name: &str) -> (r: String)
    ensures
        r@ == xmlns_alias(ns_name@),
{
    match find_colon(ns_name) {
        Some(p) => {
            let len = ns_name.unicode_len();
            let rest = ns_name.substring_char(p + 1, len);
            assert(rest@ =~= local_of(ns_name@));
            match find_colon(rest) {
                Some(q) => {
                    let a = rest.substring_char(0, q);
                    assert(a@ =~= rest@.take(q as int));
                    to_string(a)
                },
                None => to_string(rest),
            }
        },
        None => {
            let r = String::new();
            assert(r@ =~= Seq::<char>::empty());
            r
        },
    }
}

/// Declarative namespace binding pairing a URI with its canonical alias.
///
/// Resolution precedence is `alias_override` > alias already in scope for `uri` >
/// `default_alias`.
#[derive(Debug, Clone, Copy, PartialEq, Eq)]
pub struct NamespaceDeclaration {
    /// W3C namespace URI.
    pub uri: &'static str,
    /// Alias used when the URI is not already declared in scope.
    pub default_alias: &'static str,
    /// Forces this alias regardless of any alias already bound to the URI in scope.
    pub alias_override: Option<&'static str>,
}

/// The alias a declaration resolves to in scope `s`, and whether the scope must declare
/// `alias -> uri` because that binding is not already present.
pub open spec fn resolve_spec(d: NamespaceDeclaration, s: ScopeModel) -> (Seq<char>, bool) {
    match d.alias_override {
        Some(o) => (o@, scope_url(s, o@) != Some(d.uri@)),
        None => match scope_alias(s, d.uri@) {
            Some(a) => (a, false),
            None => (d.default_alias@, true),
        },
    }
}

impl NamespaceDeclaration {
    /// Builds a declaration that adopts the alias already bound to `uri` in scope,
    /// falling back to `default_alias`.
    pub fn new(uri: &'static str, default_alias: &'static str) -> (r: Self)
        ensures
            r.uri@ == uri@,
            r.default_alias@ == default_alias@,
            r.alias_override is None,
    {
        NamespaceDeclaration { uri, default_alias, alias_override: None }
    }

    /// Builds a declaration that forces `alias_override` even when a different alias is
    /// already bound to `uri` in scope.
    pub fn with_override(
        uri: &'static str,
        default_alias: &'static str,
        alias_override: &'static str,
    ) -> (r: Self)
        ensures
            r.uri@ == uri@,
            r.default_alias@ == default_alias@,
            r.alias_override matches Some(o) && o@ == alias_override@,
    {
        NamespaceDeclaration { uri, default_alias, alias_override: Some(alias_override) }
    }

    /// Resolves the alias for this declaration against `namespace`.
    pub(crate) fn resolve_in(&self, namespace: &XmlNamespace) -> (r: (String, bool))
        ensures
            (r.0@, r.1) == resolve_spec(*self, namespace@),
    {
        match self.alias_override {
            Some(alias_override) => {
                let already_bound = match namespace.get_url(alias_override) {
                    Some(bound_uri) => crate::text::str_eq(bound_uri.as_str(), self.uri),
                    None => false,
                };
                (to_string(alias_override), !already_bound)
            },
            None => match namespace.get_alias(self.uri) {
                Some(existing_alias) => (existing_alias, false),
                None => (to_string(self.default_alias), true),
            },
        }
    }

    /// The namespaced name `alias:local_name` this declaration gives in `namespace`.
    pub(crate) fn scoped_name(&self, namespace: &XmlNamespace, local_name: &str) -> (r: String)
        ensures
            r@ == crate::text::join_alias(resolve_spec(*self, namespace@).0, local_name@),
    {
        let (alias, _) = self.resolve_in(namespace);
        join_qualified(alias.as_str(), local_name)
    }
}

} // verus!
