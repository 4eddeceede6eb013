//! Association lists of strings: the model of the namespace maps.
use vstd::prelude::*;

verus! {

/// A list of `(key, value)` pairs; the first entry with a key is the one that counts.
pub type Pairs = Seq<(Seq<char>, Seq<char>)>;

/// The model of a vector of string pairs.
pub open spec fn pairs_view(v: Seq<(String, String)>) -> Pairs {
    v.map_values(|p: (String, String)| (p.0@, p.1@))
}

/// `l` holds an entry for `k`.
pub open spec fn has_key(l: Pairs, k: Seq<char>) -> bool {
    exists|i: int| 0 <= i < l.len() && l[i].0 == k
}

/// `i` is the first entry of `l` with key `k`.
pub open spec fn key_at(l: Pairs, k: Seq<char>, i: int) -> bool {
    &&& 0 <= i < l.len()
    &&& l[i].0 == k
    &&& forall|j: int| 0 <= j < i ==> l[j].0 != k
}

/// The index of the first entry for `k`.
pub open spec fn key_index(l: Pairs, k: Seq<char>) -> int {
    choose|i: int| key_at(l, k, i)
}

/// The value bound to `k` by its first entry.
pub open spec fn lookup(l: Pairs, k: Seq<char>) -> Option<Seq<char>> {
    if has_key(l, k) {
        Some(l[key_index(l, k)].1)
    } else {
        None
    }
}

/// Binds `k` to `v`: the first entry for `k` is overwritten, or a new entry is appended.
pub open spec fn assoc_put(l: Pairs, k: Seq<char>, v: Seq<char>) -> Pairs {
    if has_key(l, k) {
        l.update(key_index(l, k), (k, v))
    } else {
        l.push((k, v))
    }
}

/// Removes the first entry for `k`.
pub open spec fn assoc_remove(l: Pairs, k: Seq<char>) -> Pairs {
    if has_key(l, k) {
        l.remove(key_index(l, k))
    } else {
        l
    }
}

/// Keys occur at most once.
pub open spec fn unique_keys(l: Pairs) -> bool {
    forall|i: int, j: int| 0 <= i < l.len() && 0 <= j < l.len() && i != j ==> l[i].0 != l[j].0
}

proof fn least_key_index(l: Pairs, k: Seq<char>, i: int) -> (m: int)
    requires
        0 <= i < l.len(),
        l[i].0 == k,
    ensures
        key_at(l, k, m),
    decreases i,
{
    if exists|j: int| 0 <= j < i && l[j].0 == k {
        let j = choose|j: int| 0 <= j < i && l[j].0 == k;
        least_key_index(l, k, j)
    } else {
        i
    }
}

/// The first entry for a present key exists and is unique.
pub proof fn lemma_key_index(l: Pairs, k: Seq<char>)
    requires
        has_key(l, k),
    ensures
        key_at(l, k, key_index(l, k)),
        forall|i: int| key_at(l, k, i) ==> i == key_index(l, k),
{
    let i = choose|i: int| 0 <= i < l.len() && l[i].0 == k;
    let m = least_key_index(l, k, i);
    let q = key_index(l, k);
    assert(key_at(l, k, q));
    assert forall|p: int| key_at(l, k, p) implies p == q by {
        if p < q {
            assert(l[p].0 == k);
        } else if q < p {
            assert(l[q].0 == k);
        }
    }
}

/// What the first entry at index `i` gives.
pub proof fn lemma_lookup_at(l: Pairs, k: Seq<char>, i: int)
    requires
        key_at(l, k, i),
    ensures
        lookup(l, k) == Some(l[i].1),
{
    lemma_key_index(l, k);
}

/// A read after a write gives what was written; other keys are untouched.
pub proof fn lemma_put(l: Pairs, k: Seq<char>, v: Seq<char>)
    ensures
        lookup(assoc_put(l, k, v), k) == Some(v),
        forall|k2: Seq<char>| k2 != k ==> lookup(assoc_put(l, k, v), k2) == lookup(l, k2),
        unique_keys(l) ==> unique_keys(assoc_put(l, k, v)),
{
    let r = assoc_put(l, k, v);
    if has_key(l, k) {
        lemma_key_index(l, k);
        let i = key_index(l, k);
        assert(key_at(r, k, i));
        lemma_lookup_at(r, k, i);
        assert forall|k2: Seq<char>| k2 != k implies lookup(r, k2) == lookup(l, k2) by {
            if has_key(l, k2) {
                lemma_key_index(l, k2);
                let j = key_index(l, k2);
                assert(key_at(r, k2, j));
                lemma_lookup_at(r, k2, j);
            } else {
                assert(!has_key(r, k2));
            }
        }
    } else {
        let n = l.len() as int;
        assert(key_at(r, k, n));
        lemma_lookup_at(r, k, n);
        assert forall|k2: Seq<char>| k2 != k implies lookup(r, k2) == lookup(l, k2) by {
            if has_key(l, k2) {
                lemma_key_index(l, k2);
                let j = key_index(l, k2);
                assert(key_at(r, k2, j));
                lemma_lookup_at(r, k2, j);
            } else {
                assert(!has_key(r, k2));
            }
        }
    }
}

/// Removing a key of a list without duplicate keys unbinds it and keeps other keys.
pub proof fn lemma_remove(l: Pairs, k: Seq<char>)
    requires
        unique_keys(l),
    ensures
        lookup(assoc_remove(l, k), k) is None,
        forall|k2: Seq<char>| k2 != k ==> lookup(assoc_remove(l, k), k2) == lookup(l, k2),
        unique_keys(assoc_remove(l, k)),
{
    let r = assoc_remove(l, k);
    if has_key(l, k) {
        lemma_key_index(l, k);
        let i = key_index(l, k);
        assert(!has_key(r, k)) by {
            if has_key(r, k) {
                let j = choose|j: int| 0 <= j < r.len() && r[j].0 == k;
                if j < i {
                    assert(r[j] == l[j]);
                } else {
                    assert(r[j] == l[j + 1]);
                }
            }
        }
        assert forall|k2: Seq<char>| k2 != k implies lookup(r, k2) == lookup(l, k2) by {
            if has_key(l, k2) {
                lemma_key_index(l, k2);
                let j = key_index(l, k2);
                if j < i {
                    assert(key_at(r, k2, j));
                    lemma_lookup_at(r, k2, j);
                } else {
                    assert(j != i);
                    assert(key_at(r, k2, j - 1));
                    lemma_lookup_at(r, k2, j - 1);
                }
            } else {
                assert(!has_key(r, k2)) by {
                    if has_key(r, k2) {
                        let j = choose|j: int| 0 <= j < r.len() && r[j].0 == k2;
                        if j < i {
                            assert(r[j] == l[j]);
                        } else {
                            assert(r[j] == l[j + 1]);
                        }
                    }
                }
            }
        }
        assert(unique_keys(r)) by {
            assert forall|a: int, b: int|
                0 <= a < r.len() && 0 <= b < r.len() && a != b implies r[a].0 != r[b].0 by {
                let a2 = if a < i { a } else { a + 1 };
                let b2 = if b < i { b } else { b + 1 };
                assert(r[a] == l[a2]);
                assert(r[b] == l[b2]);
            }
        }
    }
}

/// Looks up `k` in a vector of pairs.
pub fn vec_lookup(v: &Vec<(String, String)>, k: &str) -> (r: Option<usize>)
    ensures
        match r {
            Some(i) => key_at(pairs_view(v@), k@, i as int) && lookup(pairs_view(v@), k@) == Some(
                v@[i as int].1@,
            ),
            None => !has_key(pairs_view(v@), k@) && lookup(pairs_view(v@), k@) is None,
        },
{
    let ghost l = pairs_view(v@);
    let mut i: usize = 0;
    while i < v.len()
        invariant
            l == pairs_view(v@),
            i <= v.len(),
            forall|j: int| 0 <= j < i ==> l[j].0 != k@,
        decreases v.len() - i,
    {
        if crate::text::str_eq(v[i].0.as_str(), k) {
            proof {
                assert(key_at(l, k@, i as int));
                lemma_lookup_at(l, k@, i as int);
            }
            return Some(i);
        }
        i = i + 1;
    }
    None
}

/// Binds `k` to `val` in a vector of pairs.
pub fn vec_put(v: &mut Vec<(String, String)>, k: &str, val: &str)
    ensures
        pairs_view(final(v)@) == assoc_put(pairs_view(old(v)@), k@, val@),
{
    let ghost l = pairs_view(v@);
    match vec_lookup(v, k) {
        Some(i) => {
            proof {
                lemma_key_index(l, k@);
            }
            v.set(i, (crate::text::to_string(k), crate::text::to_string(val)));
            assert(pairs_view(v@) =~= l.update(i as int, (k@, val@)));
        },
        None => {
            v.push((crate::text::to_string(k), crate::text::to_string(val)));
            assert(pairs_view(v@) =~= l.push((k@, val@)));
        },
    }
}

/// Removes the first entry for `k` from a vector of pairs.
pub fn vec_remove_key(v: &mut Vec<(String, String)>, k: &str)
    ensures
        pairs_view(final(v)@) == assoc_remove(pairs_view(old(v)@), k@),
{
    let ghost l = pairs_view(v@);
    match vec_lookup(v, k) {
        Some(i) => {
            proof {
                lemma_key_index(l, k@);
            }
            v.remove(i);
            assert(pairs_view(v@) =~= l.remove(i as int));
        },
        None => {},
    }
}

} // verus!
