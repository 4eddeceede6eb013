//! The XML name rule used for tags and attribute names.
use vstd::prelude::*;
use crate::text::{is_ascii_alpha, is_ascii_digit, unicode_alphabetic, char_is_alphabetic};

verus! {

/// A character that may start an XML name: an ASCII letter, `_`, or a character beyond
/// ASCII with the Unicode `Alphabetic` property. (Within ASCII that property holds of the
/// letters alone, so an ASCII character is settled by the ASCII test.)
pub open spec fn name_start_char(c: char) -> bool {
    is_ascii_alpha(c) || c == '_' || ('\u{7f}' < c && unicode_alphabetic(c))
}

/// A character that may continue an XML name.
pub open spec fn name_char(c: char) -> bool {
    name_start_char(c) || is_ascii_digit(c) || c == '-' || c == '.' || c == ':'
}

/// Number of `:` characters in `s`.
pub open spec fn colon_count(s: Seq<char>) -> nat
    decreases s.len(),
{
    if s.len() == 0 {
        0
    } else {
        colon_count(s.drop_last()) + if s.last() == ':' { 1nat } else { 0nat }
    }
}

/// A valid XML name: non-empty, starting with a name-start character, made of name
/// characters, with at most one `:` after the first character.
pub open spec fn valid_xml_name(s: Seq<char>) -> bool {
    &&& s.len() > 0
    &&& name_start_char(s[0])
    &&& forall|i: int| 1 <= i < s.len() ==> #[trigger] name_char(s[i])
    &&& colon_count(s.skip(1)) <= 1
}

fn is_name_start_char(c: char) -> (r: bool)
    ensures
        r == name_start_char(c),
{
    (('a' <= c && c <= 'z') || ('A' <= c && c <= 'Z')) || c == '_' || ('\u{7f}' < c && char_is_alphabetic(c))
}

fn is_name_char(c: char) -> (r: bool)
    ensures
        r == name_char(c),
{
    is_name_start_char(c) || ('0' <= c && c <= '9') || c == '-' || c == '.' || c == ':'
}

/// Checks the XML name rule.
pub fn is_valid_xml_name(name: &str) -> (r: bool)
    ensures
        r == valid_xml_name(name@),
{
    let len = name.unicode_len();
    if len == 0 {
        return false;
    }
    let first = name.get_char(0);
    if !is_name_start_char(first) {
        return false;
    }
    let mut colons: usize = 0;
    let mut i: usize = 1;
    while i < len
        invariant
            len == name@.len(),
            1 <= i <= len,
            name_start_char(name@[0]),
            forall|k: int| 1 <= k < i ==> #[trigger] name_char(name@[k]),
            colons == colon_count(name@.subrange(1, i as int)),
            colons <= 1,
        decreases len - i,
    {
        let c = name.get_char(i);
        assert(name@.subrange(1, i + 1).drop_last() =~= name@.subrange(1, i as int));
        if c == ':' {
            colons = colons + 1;
            if colons > 1 {
                proof {
                    lemma_colon_count_prefix(name@.skip(1), (i - 1) as int + 1);
                    assert(name@.skip(1).take(i as int) =~= name@.subrange(1, i + 1));
                }
                return false;
            }
        } else if !is_name_char(c) {
            return false;
        }
        i = i + 1;
    }
    assert(name@.subrange(1, len as int) =~= name@.skip(1));
    true
}

/// A name whose first character is `:`, `-`, `.` or an ASCII digit is no valid XML name:
/// those characters may continue a name but never start one.
pub proof fn law_name_cannot_start_with_punctuation_or_digit(s: Seq<char>)
    requires
        s.len() > 0,
        s[0] == ':' || s[0] == '-' || s[0] == '.' || is_ascii_digit(s[0]),
    ensures
        !valid_xml_name(s),
{
}

/// The colon count of a prefix never exceeds that of the whole sequence.
proof fn lemma_colon_count_prefix(s: Seq<char>, n: int)
    requires
        0 <= n <= s.len(),
    ensures
        colon_count(s.take(n)) <= colon_count(s),
    decreases s.len(),
{
    if n < s.len() {
        assert(s.drop_last().take(n) =~= s.take(n));
        lemma_colon_count_prefix(s.drop_last(), n);
    } else {
        assert(s.take(n) =~= s);
    }
}

} // verus!
