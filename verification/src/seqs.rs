//! First and last matches in sequences.
use vstd::prelude::*;

verus! {

/// `i` is the first index of `s` whose element satisfies `p`.
pub open spec fn first_match<T>(s: Seq<T>, p: spec_fn(T) -> bool, i: int) -> bool {
    &&& 0 <= i < s.len()
    &&& p(s[i])
    &&& forall|j: int| 0 <= j < i ==> !p(s[j])
}

/// `i` is the last index of `s` whose element satisfies `p`.
pub open spec fn last_match<T>(s: Seq<T>, p: spec_fn(T) -> bool, i: int) -> bool {
    &&& 0 <= i < s.len()
    &&& p(s[i])
    &&& forall|j: int| i < j < s.len() ==> !p(s[j])
}

/// Some element of `s` satisfies `p`.
pub open spec fn any_match<T>(s: Seq<T>, p: spec_fn(T) -> bool) -> bool {
    exists|i: int| 0 <= i < s.len() && p(s[i])
}

/// The first index whose element satisfies `p`.
pub open spec fn find_first<T>(s: Seq<T>, p: spec_fn(T) -> bool) -> Option<int> {
    if any_match(s, p) {
        Some(choose|i: int| first_match(s, p, i))
    } else {
        None
    }
}

/// The last index whose element satisfies `p`.
pub open spec fn find_last<T>(s: Seq<T>, p: spec_fn(T) -> bool) -> Option<int> {
    if any_match(s, p) {
        Some(choose|i: int| last_match(s, p, i))
    } else {
        None
    }
}

proof fn least<T>(s: Seq<T>, p: spec_fn(T) -> bool, i: int) -> (m: int)
    requires
        0 <= i < s.len(),
        p(s[i]),
    ensures
        first_match(s, p, m),
    decreases i,
{
    if exists|j: int| 0 <= j < i && p(s[j]) {
        let j = choose|j: int| 0 <= j < i && p(s[j]);
        least(s, p, j)
    } else {
        i
    }
}

proof fn greatest<T>(s: Seq<T>, p: spec_fn(T) -> bool, i: int) -> (m: int)
    requires
        0 <= i < s.len(),
        p(s[i]),
    ensures
        last_match(s, p, m),
    decreases s.len() - i,
{
    if exists|j: int| i < j < s.len() && p(s[j]) {
        let j = choose|j: int| i < j < s.len() && p(s[j]);
        greatest(s, p, j)
    } else {
        i
    }
}

/// The first match, once found, is what `find_first` gives.
pub proof fn lemma_first_match<T>(s: Seq<T>, p: spec_fn(T) -> bool, i: int)
    requires
        first_match(s, p, i),
    ensures
        find_first(s, p) == Some(i),
{
    let m = least(s, p, i);
    let q = choose|k: int| first_match(s, p, k);
    assert(first_match(s, p, q));
    if q < i {
        assert(p(s[q]));
    } else if i < q {
        assert(p(s[i]));
    }
}

/// The last match, once found, is what `find_last` gives.
pub proof fn lemma_last_match<T>(s: Seq<T>, p: spec_fn(T) -> bool, i: int)
    requires
        last_match(s, p, i),
    ensures
        find_last(s, p) == Some(i),
{
    let m = greatest(s, p, i);
    let q = choose|k: int| last_match(s, p, k);
    assert(last_match(s, p, q));
    if q < i {
        assert(p(s[i]));
    } else if i < q {
        assert(p(s[q]));
    }
}

/// `find_first` gives a first match whenever there is a match.
pub proof fn lemma_find_first<T>(s: Seq<T>, p: spec_fn(T) -> bool)
    ensures
        match find_first(s, p) {
            Some(i) => first_match(s, p, i),
            None => forall|j: int| 0 <= j < s.len() ==> !p(s[j]),
        },
{
    if any_match(s, p) {
        let i = choose|i: int| 0 <= i < s.len() && p(s[i]);
        let m = least(s, p, i);
        lemma_first_match(s, p, m);
    }
}

/// `find_last` gives a last match whenever there is a match.
pub proof fn lemma_find_last<T>(s: Seq<T>, p: spec_fn(T) -> bool)
    ensures
        match find_last(s, p) {
            Some(i) => last_match(s, p, i),
            None => forall|j: int| 0 <= j < s.len() ==> !p(s[j]),
        },
{
    if any_match(s, p) {
        let i = choose|i: int| 0 <= i < s.len() && p(s[i]);
        let m = greatest(s, p, i);
        lemma_last_match(s, p, m);
    }
}

} // verus!
