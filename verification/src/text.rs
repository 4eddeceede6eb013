//! Character-level helpers on strings, specified over `Seq<char>`.
use vstd::prelude::*;

verus! {

/// True when `p` is the position of the first `:` in `s`.
pub open spec fn colon_at(s: Seq<char>, p: int) -> bool {
    &&& 0 <= p < s.len()
    &&& s[p] == ':'
    &&& forall|j: int| 0 <= j < p ==> s[j] != ':'
}

/// The position of the first `:` in `s` (meaningful when `s` contains one).
pub open spec fn first_colon(s: Seq<char>) -> int {
    choose|p: int| colon_at(s, p)
}

/// The part of `s` before its first `:`, when there is one.
pub open spec fn prefix_of(s: Seq<char>) -> Option<Seq<char>> {
    if s.contains(':') {
        Some(s.take(first_colon(s)))
    } else {
        None
    }
}

/// The part of `s` after its first `:`, or all of `s` when it has none.
pub open spec fn local_of(s: Seq<char>) -> Seq<char> {
    if s.contains(':') {
        s.skip(first_colon(s) + 1)
    } else {
        s
    }
}

/// `alias:local`, or `local` alone when the alias is absent or empty.
pub open spec fn qualify(alias: Option<Seq<char>>, local: Seq<char>) -> Seq<char> {
    match alias {
        Some(a) => if a.len() > 0 {
            a + seq![':'] + local
        } else {
            local
        },
        None => local,
    }
}

/// `alias:local`, or `local` alone when the alias is empty.
pub open spec fn join_alias(alias: Seq<char>, local: Seq<char>) -> Seq<char> {
    qualify(Some(alias), local)
}

/// The first colon of a sequence is unique, and exists when the sequence holds one.
pub proof fn lemma_first_colon(s: Seq<char>)
    requires
        s.contains(':'),
    ensures
        colon_at(s, first_colon(s)),
        forall|p: int| colon_at(s, p) ==> p == first_colon(s),
{
    let i = choose|i: int| 0 <= i < s.len() && s[i] == ':';
    let mut p = i;
    // the least index holding a colon
    let pred = |k: int| 0 <= k < s.len() && s[k] == ':';
    assert(pred(i));
    let m = least_index(s, i);
    assert(colon_at(s, m));
    assert forall|p: int| colon_at(s, p) implies p == first_colon(s) by {
        let q = first_colon(s);
        assert(colon_at(s, q));
        if p < q {
            assert(s[p] == ':');
        } else if q < p {
            assert(s[q] == ':');
        }
    }
}

proof fn least_index(s: Seq<char>, i: int) -> (m: int)
    requires
        0 <= i < s.len(),
        s[i] == ':',
    ensures
        colon_at(s, m),
    decreases i,
{
    if exists|j: int| 0 <= j < i && s[j] == ':' {
        let j = choose|j: int| 0 <= j < i && s[j] == ':';
        least_index(s, j)
    } else {
        i
    }
}

/// `c` is an ASCII letter.
pub open spec fn is_ascii_alpha(c: char) -> bool {
    ('a' <= c && c <= 'z') || ('A' <= c && c <= 'Z')
}

/// `c` is an ASCII digit.
pub open spec fn is_ascii_digit(c: char) -> bool {
    '0' <= c && c <= '9'
}

/// Whether `char::is_alphabetic` holds of `c` (the Unicode `Alphabetic` property).
pub uninterp spec fn unicode_alphabetic(c: char) -> bool;

/// Whether `char::is_whitespace` holds of `c` (the Unicode `White_Space` property).
pub uninterp spec fn unicode_whitespace(c: char) -> bool;

/// Calls `char::is_alphabetic`; the result is the Unicode `Alphabetic` property of `c`,
/// which depends on `c` alone.
#[verifier::external_body]
pub(crate) fn char_is_alphabetic(c: char) -> (r: bool)
    ensures
        r == unicode_alphabetic(c),
{
    c.is_alphabetic()
}

/// Calls `char::is_whitespace`; the result is the Unicode `White_Space` property of `c`,
/// which depends on `c` alone.
#[verifier::external_body]
pub(crate) fn char_is_whitespace(c: char) -> (r: bool)
    ensures
        r == unicode_whitespace(c),
{
    c.is_whitespace()
}

/// Calls `<str as PartialEq>::eq`: two string slices are equal exactly when they hold the
/// same characters.
#[verifier::external_body]
pub(crate) fn str_eq(a: &str, b: &str) -> (r: bool)
    ensures
        r == (a@ == b@),
{
    a == b
}

/// Calls `String::push`: the character is appended at the end.
#[verifier::external_body]
pub(crate) fn string_push(s: &mut String, c: char)
    ensures
        final(s)@ == old(s)@.push(c),
{
    s.push(c)
}

/// An owned copy of a string slice.
pub fn to_string(s: &str) -> (r: String)
    ensures
        r@ == s@,
{
    String::from_str(s)
}

/// A copy of a string.
pub fn copy_string(s: &String) -> (r: String)
    ensures
        r@ == s@,
{
    String::from_str(s.as_str())
}

/// Position of the first `:` in `s`.
pub fn find_colon(s: &str) -> (r: Option<usize>)
    ensures
        match r {
            Some(p) => s@.contains(':') && p == first_colon(s@) && colon_at(s@, p as int),
            None => !s@.contains(':'),
        },
{
    let len = s.unicode_len();
    let mut i: usize = 0;
    while i < len
        invariant
            len == s@.len(),
            i <= len,
            forall|j: int| 0 <= j < i ==> s@[j] != ':',
        decreases len - i,
    {
        if s.get_char(i) == ':' {
            proof {
                assert(colon_at(s@, i as int));
                assert(s@.contains(':'));
                lemma_first_colon(s@);
            }
            return Some(i);
        }
        i = i + 1;
    }
    None
}

/// Whether `s` contains a `:`.
pub fn contains_colon(s: &str) -> (r: bool)
    ensures
        r == s@.contains(':'),
{
    find_colon(s).is_some()
}

/// `alias:local`, or `local` alone when `alias` is empty.
pub fn join_qualified(alias: &str, local: &str) -> (r: String)
    ensures
        r@ == join_alias(alias@, local@),
{
    if alias.unicode_len() == 0 {
        String::from_str(local)
    } else {
        let mut r = String::from_str(alias);
        string_push(&mut r, ':');
        r.append(local);
        r
    }
}

/// Whether `s` starts with `prefix`.
pub fn starts_with(s: &str, prefix: &str) -> (r: bool)
    ensures
        r == (prefix@.len() <= s@.len() && s@.take(prefix@.len() as int) == prefix@),
{
    let n = prefix.unicode_len();
    let m = s.unicode_len();
    if n > m {
        return false;
    }
    let mut i: usize = 0;
    while i < n
        invariant
            n == prefix@.len(),
            m == s@.len(),
            n <= m,
            i <= n,
            forall|j: int| 0 <= j < i ==> s@[j] == prefix@[j],
        decreases n - i,
    {
        if s.get_char(i) != prefix.get_char(i) {
            assert(s@.take(n as int)[i as int] != prefix@[i as int]);
            return false;
        }
        i = i + 1;
    }
    assert(s@.take(n as int) =~= prefix@);
    true
}

} // verus!
