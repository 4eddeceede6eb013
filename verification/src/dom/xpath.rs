//! Parsing of XPath-style query strings.
use vstd::prelude::*;
use crate::text::{starts_with, to_string, copy_string, string_push};

verus! {

/// Where a query path is anchored.
#[derive(Debug)]
pub(crate) enum PathType {
    /// No leading `/`.
    Absolute,
    /// A leading `/`.
    Relative,
    /// A leading `//`.
    Anywhere,
}

/// The parts of `s` between `/` separators (a string without `/` is one part).
pub open spec fn slash_segments(s: Seq<char>) -> Seq<Seq<char>>
    decreases s.len(),
{
    if s.len() == 0 {
        seq![Seq::empty()]
    } else {
        let prev = slash_segments(s.drop_last());
        if s.last() == '/' {
            prev.push(Seq::empty())
        } else {
            prev.update(prev.len() - 1, prev.last().push(s.last()))
        }
    }
}

/// The anchoring of a query.
pub(crate) open spec fn path_type_of(q: Seq<char>) -> PathType {
    if q.len() >= 2 && q[0] == '/' && q[1] == '/' {
        PathType::Anywhere
    } else if q.len() >= 1 && q[0] == '/' {
        PathType::Relative
    } else {
        PathType::Absolute
    }
}

/// A parsed query: the query itself, its anchoring and its `/`-separated parts.
#[derive(Debug)]
pub(crate) struct XPathHandler {
    pub(crate) primary_query: String,
    pub(crate) path_type: PathType,
    pub(crate) path_group: Vec<String>,
}

proof fn lemma_segments_nonempty(s: Seq<char>)
    ensures
        slash_segments(s).len() >= 1,
    decreases s.len(),
{
    if s.len() > 0 {
        lemma_segments_nonempty(s.drop_last());
    }
}

impl XPathHandler {
    /// Parses `query`.
    pub(crate) fn new(query: &str) -> (r: XPathHandler)
        ensures
            r.primary_query@ == query@,
            r.path_type == path_type_of(query@),
            r.path_group@.map_values(|g: String| g@) == slash_segments(query@),
    {
        let anywhere = starts_with(query, "//");
        let relative = starts_with(query, "/");
        proof {
            reveal_strlit("//");
            reveal_strlit("/");
            assert("//"@ =~= seq!['/', '/']);
            assert("/"@ =~= seq!['/']);
            if query@.len() >= 2 {
                assert(query@.take(2)[0] == query@[0]);
                assert(query@.take(2)[1] == query@[1]);
                if query@[0] == '/' && query@[1] == '/' {
                    assert(query@.take(2) =~= seq!['/', '/']);
                }
            }
            if query@.len() >= 1 {
                assert(query@.take(1)[0] == query@[0]);
                if query@[0] == '/' {
                    assert(query@.take(1) =~= seq!['/']);
                }
            }
        }
        let path_type = if anywhere {
            PathType::Anywhere
        } else if relative {
            PathType::Relative
        } else {
            PathType::Absolute
        };
        let len = query.unicode_len();
        let mut groups: Vec<String> = Vec::new();
        let mut current = String::new();
        let mut i: usize = 0;
        assert(query@.take(0) =~= Seq::<char>::empty());
        assert(groups@.map_values(|g: String| g@).push(current@) =~= slash_segments(query@.take(0)));
        while i < len
            invariant
                len == query@.len(),
                i <= len,
                groups@.map_values(|g: String| g@).push(current@) == slash_segments(query@.take(i as int)),
            decreases len - i,
        {
            let c = query.get_char(i);
            let ghost g0 = groups@;
            let ghost c0 = current@;
            assert(query@.take(i + 1).drop_last() =~= query@.take(i as int));
            assert(query@.take(i + 1).last() == c);
            proof {
                lemma_segments_nonempty(query@.take(i as int));
            }
            if c == '/' {
                groups.push(copy_string(&current));
                current = String::new();
                assert(groups@.map_values(|g: String| g@).push(current@) =~= g0.map_values(|g: String| g@).push(c0).push(Seq::empty()));
            } else {
                string_push(&mut current, c);
                assert(groups@.map_values(|g: String| g@).push(current@) =~= g0.map_values(|g: String| g@).push(c0.push(c)));
            }
            i = i + 1;
        }
        groups.push(current);
        assert(query@.take(len as int) =~= query@);
        XPathHandler { primary_query: to_string(query), path_type, path_group: groups }
    }
}

} // verus!
