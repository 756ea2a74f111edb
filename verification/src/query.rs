//! Reading the `since` parameter of a poll request.

use vstd::prelude::*;
use crate::text::{
    find_char, from_chars, lemma_position_of_bounds, position_of, range_starts_with, starts_with,
    to_chars,
};

verus! {

/// The threshold used where a query names none: the epoch.
pub open spec fn epoch_text() -> Seq<char> {
    "1970-01-01T00:00:00Z"@
}

/// `since=`, which opens the parameter.
pub open spec fn since_key() -> Seq<char> {
    seq!['s', 'i', 'n', 'c', 'e', '=']
}

/// The raw value of the first parameter named `since` among those that
/// `&` separates in `query`.
pub open spec fn since_value(query: Seq<char>) -> Option<Seq<char>>
    decreases query.len(),
    via since_value_decreases
{
    let end = position_of(query, '&');
    let parameter = query.take(end);
    if starts_with(parameter, since_key()) {
        Some(parameter.skip(since_key().len() as int))
    } else if end >= query.len() {
        None
    } else {
        since_value(query.skip(end + 1))
    }
}

#[via_fn]
proof fn since_value_decreases(query: Seq<char>) {
    lemma_position_of_bounds(query, '&');
}

/// `text` with every occurrence of `pattern` replaced by `with`, the
/// occurrences taken from left to right without overlap.
pub open spec fn replaced(text: Seq<char>, pattern: Seq<char>, with: Seq<char>) -> Seq<char>
    decreases text.len(),
{
    if pattern.len() == 0 || text.len() < pattern.len() {
        text
    } else if text.take(pattern.len() as int) == pattern {
        with + replaced(text.skip(pattern.len() as int), pattern, with)
    } else {
        seq![text[0]] + replaced(text.skip(1), pattern, with)
    }
}

/// A raw parameter value with its escaped spaces and colons restored:
/// first every `%20` becomes a space, then every `%3A` a colon.
pub open spec fn unescaped(value: Seq<char>) -> Seq<char> {
    replaced(replaced(value, seq!['%', '2', '0'], seq![' ']), seq!['%', '3', 'A'], seq![':'])
}

/// The threshold that a query asks for: the value of its `since`
/// parameter, unescaped, or the epoch where it has none.
pub open spec fn since_parameter(query: Seq<char>) -> Seq<char> {
    match since_value(query) {
        Some(value) => unescaped(value),
        None => epoch_text(),
    }
}

/// `text` with every occurrence of `pattern` replaced by `with`.
fn replace_all(text: &[char], pattern: &[char], with: &[char]) -> (out: Vec<char>)
    requires
        pattern.len() > 0,
    ensures
        out@ == replaced(text@, pattern@, with@),
{
    let mut out: Vec<char> = Vec::new();
    let mut at: usize = 0;
    assert(text@.subrange(0, text@.len() as int) =~= text@);
    while at < text.len()
        invariant
            at <= text.len(),
            pattern.len() > 0,
            replaced(text@, pattern@, with@) == out@ + replaced(
                text@.subrange(at as int, text@.len() as int),
                pattern@,
                with@,
            ),
        decreases text.len() - at,
    {
        let ghost rest = text@.subrange(at as int, text@.len() as int);
        let ghost before = out@;
        if range_starts_with(text, at, text.len(), pattern) {
            out.extend_from_slice(with);
            assert(rest.skip(pattern@.len() as int) =~= text@.subrange(
                at + pattern@.len(),
                text@.len() as int,
            ));
            assert(before + (with@ + replaced(rest.skip(pattern@.len() as int), pattern@, with@))
                =~= out@ + replaced(rest.skip(pattern@.len() as int), pattern@, with@));
            at += pattern.len();
        } else {
            out.push(text[at]);
            assert(rest.skip(1) =~= text@.subrange(at + 1, text@.len() as int));
            proof {
                if rest.len() < pattern@.len() {
                    lemma_replaced_short(rest, pattern@, with@);
                }
                assert(before + (seq![rest[0]] + replaced(rest.skip(1), pattern@, with@))
                    =~= out@ + replaced(rest.skip(1), pattern@, with@));
            }
            at += 1;
        }
    }
    out
}

/// A text shorter than the pattern holds no occurrence of it, whether read
/// as a whole or from its second character on.
proof fn lemma_replaced_short(text: Seq<char>, pattern: Seq<char>, with: Seq<char>)
    requires
        0 < text.len() < pattern.len(),
    ensures
        replaced(text, pattern, with) == seq![text[0]] + replaced(text.skip(1), pattern, with),
{
    assert(seq![text[0]] + text.skip(1) =~= text);
}

/// The threshold that the query string of a poll request asks for.
///
/// The parameters are what `&` separates; the first one named `since`
/// counts. In its value `%20` stands for a space and `%3A` for a colon.
/// A query without the parameter asks for everything since the epoch.
pub fn parse_since_parameter(query: &str) -> (since: String)
    ensures
        since@ == since_parameter(query@),
{
    let chars = to_chars(query);
    let key: [char; 6] = ['s', 'i', 'n', 'c', 'e', '='];
    assert(key@ =~= since_key());
    let len = chars.len();
    let mut from: usize = 0;
    assert(chars@.subrange(0, len as int) =~= chars@);
    loop
        invariant
            from <= len == chars.len(),
            key@ == since_key(),
            chars@ == query@,
            since_value(query@) == since_value(chars@.subrange(from as int, len as int)),
        decreases len - from,
    {
        let ghost rest = chars@.subrange(from as int, len as int);
        let end = find_char(chars.as_slice(), '&', from, len);
        assert(rest.take(end - from) =~= chars@.subrange(from as int, end as int));
        if range_starts_with(chars.as_slice(), from, end, key.as_slice()) {
            assert(rest.take(end - from).skip(6) =~= chars@.subrange(from + 6, end as int));
            let space: [char; 1] = [' '];
            let colon: [char; 1] = [':'];
            let escaped_space: [char; 3] = ['%', '2', '0'];
            let escaped_colon: [char; 3] = ['%', '3', 'A'];
            assert(space@ =~= seq![' ']);
            assert(colon@ =~= seq![':']);
            assert(escaped_space@ =~= seq!['%', '2', '0']);
            assert(escaped_colon@ =~= seq!['%', '3', 'A']);
            let value = vstd::slice::slice_subrange(chars.as_slice(), from + 6, end);
            let spaced = replace_all(value, escaped_space.as_slice(), space.as_slice());
            let restored = replace_all(
                spaced.as_slice(),
                escaped_colon.as_slice(),
                colon.as_slice(),
            );
            assert(restored@.subrange(0, restored@.len() as int) =~= restored@);
            return from_chars(restored.as_slice(), 0, restored.len());
        }
        if end >= len {
            return "1970-01-01T00:00:00Z".to_owned();
        }
        assert(rest.skip(end - from + 1) =~= chars@.subrange(end + 1, len as int));
        from = end + 1;
    }
}

} // verus!
