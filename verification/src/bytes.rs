//! Searching byte sequences for literal patterns.
//!
//! Everything the decoder and the log do with raw bytes is phrased over the
//! two notions defined here: a pattern occurring at an offset, and the first
//! offset at or after a starting point at which it occurs.

use vstd::prelude::*;

verus! {

/// `pat` occurs in `hay` at offset `at`.
pub open spec fn matches_at(hay: Seq<u8>, pat: Seq<u8>, at: int) -> bool {
    &&& 0 <= at
    &&& at + pat.len() <= hay.len()
    &&& hay.subrange(at, at + pat.len()) == pat
}

/// The least offset `i >= from` at which `pat` occurs in `hay`, if any.
pub open spec fn first_match_from(hay: Seq<u8>, pat: Seq<u8>, from: int) -> Option<int>
    decreases hay.len() + 1 - from,
{
    if from < 0 || from + pat.len() > hay.len() {
        None
    } else if matches_at(hay, pat, from) {
        Some(from)
    } else {
        first_match_from(hay, pat, from + 1)
    }
}

/// `pat` occurs somewhere in `hay`.
pub open spec fn contains_pattern(hay: Seq<u8>, pat: Seq<u8>) -> bool {
    first_match_from(hay, pat, 0) is Some
}

/// What a search for a non-empty needle yields: the first offset of the
/// needle in the haystack. An empty needle is never found.
pub open spec fn search_result(hay: Seq<u8>, needle: Seq<u8>) -> Option<int> {
    if needle.len() == 0 {
        None
    } else {
        first_match_from(hay, needle, 0)
    }
}

/// An executable offset read as a mathematical one.
pub open spec fn offset_of(found: Option<usize>) -> Option<int> {
    match found {
        Some(i) => Some(i as int),
        None => None,
    }
}

/// `first_match_from` returns the least matching offset at or after `from`,
/// and `None` only when there is no such offset.
pub proof fn lemma_first_match_least(hay: Seq<u8>, pat: Seq<u8>, from: int)
    requires
        0 <= from,
    ensures
        match first_match_from(hay, pat, from) {
            Some(i) => {
                &&& from <= i
                &&& matches_at(hay, pat, i)
                &&& forall|j: int| from <= j < i ==> !matches_at(hay, pat, j)
            },
            None => forall|j: int| from <= j ==> !matches_at(hay, pat, j),
        },
    decreases hay.len() + 1 - from,
{
    if from + pat.len() > hay.len() {
    } else if matches_at(hay, pat, from) {
    } else {
        lemma_first_match_least(hay, pat, from + 1);
    }
}

/// An offset that matches, with no match between `from` and it, is the one
/// `first_match_from` returns.
pub proof fn lemma_first_match_is(hay: Seq<u8>, pat: Seq<u8>, from: int, at: int)
    requires
        0 <= from <= at,
        matches_at(hay, pat, at),
        forall|j: int| from <= j < at ==> !matches_at(hay, pat, j),
    ensures
        first_match_from(hay, pat, from) == Some(at),
    decreases at - from,
{
    if from < at {
        lemma_first_match_is(hay, pat, from + 1, at);
    }
}

/// Without a match at or after `from`, `first_match_from` returns `None`.
pub proof fn lemma_first_match_none(hay: Seq<u8>, pat: Seq<u8>, from: int)
    requires
        0 <= from,
        forall|j: int| from <= j ==> !matches_at(hay, pat, j),
    ensures
        first_match_from(hay, pat, from) is None,
{
    lemma_first_match_least(hay, pat, from);
}

/// Whether `pat` occurs in `hay` at offset `at`.
pub fn occurs_at(hay: &[u8], pat: &[u8], at: usize) -> (found: bool)
    ensures
        found == matches_at(hay@, pat@, at as int),
{
    if pat.len() > hay.len() || at > hay.len() - pat.len() {
        return false;
    }
    let mut k: usize = 0;
    while k < pat.len()
        invariant
            k <= pat.len(),
            at + pat.len() <= hay.len(),
            forall|j: int| 0 <= j < k ==> hay@[at + j] == pat@[j],
        decreases pat.len() - k,
    {
        if hay[at + k] != pat[k] {
            assert(hay@.subrange(at as int, at + pat.len())[k as int] == hay@[at + k]);
            return false;
        }
        k += 1;
    }
    assert(hay@.subrange(at as int, at + pat.len()) =~= pat@);
    true
}

/// The first offset at or after `from` at which `pat` occurs in `hay`.
pub fn find_from(hay: &[u8], pat: &[u8], from: usize) -> (found: Option<usize>)
    ensures
        offset_of(found) == first_match_from(hay@, pat@, from as int),
{
    if pat.len() > hay.len() || from > hay.len() - pat.len() {
        return None;
    }
    let last: usize = hay.len() - pat.len();
    let mut i: usize = from;
    loop
        invariant
            from <= i <= last,
            last == hay.len() - pat.len(),
            pat.len() <= hay.len(),
            first_match_from(hay@, pat@, from as int) == first_match_from(hay@, pat@, i as int),
        decreases last - i,
    {
        if occurs_at(hay, pat, i) {
            return Some(i);
        }
        if i == last {
            assert(first_match_from(hay@, pat@, i + 1) is None);
            return None;
        }
        i += 1;
    }
}

/// The first offset of `needle` in `haystack`. An empty needle, or one
/// longer than the haystack, is not found.
pub fn search_in_bytes(haystack: &[u8], needle: &[u8]) -> (found: Option<usize>)
    ensures
        offset_of(found) == search_result(haystack@, needle@),
{
    if needle.len() == 0 {
        return None;
    }
    find_from(haystack, needle, 0)
}

/// A pattern occurs in a piece of a whole where it occurs in the whole,
/// as far as the piece reaches.
pub proof fn lemma_match_in_piece(whole: Seq<u8>, from: int, to: int, pat: Seq<u8>, at: int)
    requires
        0 <= from <= to <= whole.len(),
        0 <= at,
        at + pat.len() <= to - from,
    ensures
        matches_at(whole.subrange(from, to), pat, at) == matches_at(whole, pat, from + at),
{
    assert(whole.subrange(from, to).subrange(at, at + pat.len()) =~= whole.subrange(
        from + at,
        from + at + pat.len(),
    ));
}

/// Where a pattern occurs, its bytes stand.
pub proof fn lemma_match_bytes(hay: Seq<u8>, pat: Seq<u8>, at: int, k: int)
    requires
        matches_at(hay, pat, at),
        0 <= k < pat.len(),
    ensures
        hay[at + k] == pat[k],
{
    assert(hay.subrange(at, at + pat.len())[k] == hay[at + k]);
}

/// Where two patterns occur one behind the other, each occurs.
pub proof fn lemma_match_split(hay: Seq<u8>, first: Seq<u8>, second: Seq<u8>, at: int)
    requires
        matches_at(hay, first + second, at),
    ensures
        matches_at(hay, first, at),
        matches_at(hay, second, at + first.len()),
{
    let whole = hay.subrange(at, at + (first + second).len());
    assert(hay.subrange(at, at + first.len()) =~= whole.subrange(0, first.len() as int));
    assert(whole.subrange(0, first.len() as int) =~= first);
    assert(hay.subrange(at + first.len(), at + first.len() + second.len()) =~= whole.subrange(
        first.len() as int,
        whole.len() as int,
    ));
    assert(whole.subrange(first.len() as int, whole.len() as int) =~= second);
}

} // verus!
