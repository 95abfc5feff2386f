//! Literal substring search over the bytes of a text.

use vstd::prelude::*;

verus! {

/// True when `needle` stands in `hay` at offset `at`.
pub open spec fn occurs_at(hay: Seq<u8>, needle: Seq<u8>, at: int) -> bool {
    0 <= at && at + needle.len() <= hay.len() && hay.subrange(at, at + needle.len()) == needle
}

/// The lowest offset at or behind `from` at which `needle` stands in `hay`
/// and ends at or before `limit`; `None` when there is no such offset or
/// `limit` lies beyond `hay`.
pub open spec fn first_occurrence(hay: Seq<u8>, needle: Seq<u8>, from: int, limit: int) -> Option<
    int,
>
    decreases limit + 1 - from,
{
    if from < 0 || limit > hay.len() || from + needle.len() > limit {
        None
    } else if occurs_at(hay, needle, from) {
        Some(from)
    } else {
        first_occurrence(hay, needle, from + 1, limit)
    }
}

/// The first occurrence of `needle` found by a search that starts at
/// `from`, runs to the end of `hay`, and then wraps around to search the
/// part before `from`.
pub open spec fn next_occurrence(hay: Seq<u8>, needle: Seq<u8>, from: int) -> Option<int> {
    match first_occurrence(hay, needle, from, hay.len() as int) {
        Some(at) => Some(at),
        None => if from > 0 {
            first_occurrence(hay, needle, 0, from)
        } else {
            None
        },
    }
}

/// What `first_occurrence` finds is an occurrence within the bounds, and
/// the lowest one; when it finds nothing there is none.
pub proof fn lemma_first_occurrence(hay: Seq<u8>, needle: Seq<u8>, from: int, limit: int)
    requires
        0 <= from,
        limit <= hay.len(),
    ensures
        match first_occurrence(hay, needle, from, limit) {
            Some(at) => from <= at && at + needle.len() <= limit && occurs_at(hay, needle, at)
                && forall|k: int| from <= k < at ==> !occurs_at(hay, needle, k),
            None => forall|k: int|
                from <= k && k + needle.len() <= limit ==> !occurs_at(hay, needle, k),
        },
    decreases limit + 1 - from,
{
    if from + needle.len() > limit {
    } else if occurs_at(hay, needle, from) {
    } else {
        lemma_first_occurrence(hay, needle, from + 1, limit);
    }
}

/// True when `needle` stands in `hay` at offset `at`.
pub fn matches_at(hay: &[u8], needle: &[u8], at: usize) -> (b: bool)
    requires
        at + needle@.len() <= hay@.len(),
    ensures
        b == occurs_at(hay@, needle@, at as int),
{
    let m = needle.len();
    let n = hay.len();
    let mut j: usize = 0;
    while j < m
        invariant
            j <= m,
            m == needle@.len(),
            n == hay@.len(),
            at + m <= n,
            forall|k: int| 0 <= k < j ==> hay@[at + k] == needle@[k],
        decreases m - j,
    {
        if hay[at + j] != needle[j] {
            proof {
                assert(hay@.subrange(at as int, at + m)[j as int] == hay@[at + j]);
            }
            return false;
        }
        j += 1;
    }
    proof {
        assert(hay@.subrange(at as int, at + m) =~= needle@);
    }
    true
}

/// Searches `hay` for the first occurrence of `needle` that starts at or
/// behind `from` and ends at or before `limit`.
pub fn find_bytes(hay: &[u8], needle: &[u8], from: usize, limit: usize) -> (found: Option<usize>)
    ensures
        match found {
            Some(at) => first_occurrence(hay@, needle@, from as int, limit as int) == Some(
                at as int,
            ),
            None => first_occurrence(hay@, needle@, from as int, limit as int) is None,
        },
{
    let m = needle.len();
    if limit > hay.len() || m > limit {
        return None;
    }
    let last = limit - m;
    let mut i: usize = from;
    while i <= last
        invariant
            from <= i,
            m == needle@.len(),
            limit <= hay@.len(),
            last == limit - m,
            first_occurrence(hay@, needle@, i as int, limit as int) == first_occurrence(
                hay@,
                needle@,
                from as int,
                limit as int,
            ),
        decreases last + 1 - i,
    {
        if matches_at(hay, needle, i) {
            return Some(i);
        }
        if i == last {
            proof {
                assert(first_occurrence(hay@, needle@, i + 1, limit as int) is None);
            }
            return None;
        }
        i += 1;
    }
    None
}

} // verus!
