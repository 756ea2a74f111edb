//! Text as sequences of characters: conversion from and to bytes, equality,
//! white space and trimming.

use vstd::prelude::*;
use vstd::utf8::{decode_utf8, encode_utf8, valid_utf8};

verus! {

/// The text that a lossy UTF-8 decoder reads from `bytes`: well-formed
/// sequences decode to their characters, and every ill-formed one becomes
/// U+FFFD.
pub uninterp spec fn utf8_lossy(bytes: Seq<u8>) -> Seq<char>;

/// The lowercase form of `text` under the Unicode case mappings.
pub uninterp spec fn unicode_lowercase(text: Seq<char>) -> Seq<char>;

/// Unicode `White_Space`: the characters that trimming removes.
pub open spec fn is_whitespace(c: char) -> bool {
    let code = c as u32;
    ||| 0x09 <= code <= 0x0D
    ||| code == 0x20
    ||| code == 0x85
    ||| code == 0xA0
    ||| code == 0x1680
    ||| 0x2000 <= code <= 0x200A
    ||| code == 0x2028
    ||| code == 0x2029
    ||| code == 0x202F
    ||| code == 0x205F
    ||| code == 0x3000
}

/// `text` without its leading white space.
pub open spec fn trimmed_start(text: Seq<char>) -> Seq<char>
    decreases text.len(),
{
    if text.len() > 0 && is_whitespace(text[0]) {
        trimmed_start(text.drop_first())
    } else {
        text
    }
}

/// `text` without its trailing white space.
pub open spec fn trimmed_end(text: Seq<char>) -> Seq<char>
    decreases text.len(),
{
    if text.len() > 0 && is_whitespace(text.last()) {
        trimmed_end(text.drop_last())
    } else {
        text
    }
}

/// `text` without its leading and trailing white space.
pub open spec fn trimmed(text: Seq<char>) -> Seq<char> {
    trimmed_end(trimmed_start(text))
}

/// `String::from_utf8_lossy`: the result is the lossy decoding of the
/// bytes, which for well-formed UTF-8 is the text they encode.
#[verifier::external_body]
pub(crate) fn decode_lossy(bytes: &[u8]) -> (text: String)
    ensures
        text@ == utf8_lossy(bytes@),
        valid_utf8(bytes@) ==> text@ == decode_utf8(bytes@),
{
    String::from_utf8_lossy(bytes).into_owned()
}

/// `str::to_lowercase`: the result is the Unicode lowercase form of the
/// text.
#[verifier::external_body]
pub(crate) fn lowercase(text: &str) -> (lower: String)
    ensures
        lower@ == unicode_lowercase(text@),
{
    text.to_lowercase()
}

/// `String::push`: the character is appended to the text.
#[verifier::external_body]
pub(crate) fn push_char(text: &mut String, c: char)
    ensures
        final(text)@ == old(text)@.push(c),
{
    text.push(c)
}

/// The text that `bytes` are read as: the text they encode where they
/// are well-formed UTF-8, and their lossy decoding where they are not.
pub open spec fn text_of(bytes: Seq<u8>) -> Seq<char> {
    if valid_utf8(bytes) {
        decode_utf8(bytes)
    } else {
        utf8_lossy(bytes)
    }
}

/// Reads bytes as text, with U+FFFD in place of what is not UTF-8.
pub(crate) fn lossy_text(bytes: &[u8]) -> (text: String)
    ensures
        text@ == text_of(bytes@),
{
    decode_lossy(bytes)
}

/// Text that is encoded and read back is unchanged.
pub proof fn lemma_text_of_encoded(text: Seq<char>)
    ensures
        text_of(encode_utf8(text)) == text,
{
    broadcast use vstd::utf8::encode_utf8_valid_utf8, vstd::utf8::encode_utf8_decode_utf8;

}

/// The characters of `text`, in order.
pub fn to_chars(text: &str) -> (chars: Vec<char>)
    ensures
        chars@ == text@,
{
    broadcast use vstd::string::group_string_axioms;

    let mut chars: Vec<char> = Vec::new();
    for c in it: text.chars()
        invariant
            it.seq() == text@,
            chars@ == it.seq().take(it.index()),
    {
        chars.push(c);
        assert(it.seq().take(it.index() + 1) =~= it.seq().take(it.index()).push(c));
    }
    assert(text@.take(text@.len() as int) =~= text@);
    chars
}

/// The text made of the characters `chars[from..to]`.
pub fn from_chars(chars: &[char], from: usize, to: usize) -> (text: String)
    requires
        from <= to <= chars.len(),
    ensures
        text@ == chars@.subrange(from as int, to as int),
{
    let mut text = String::new();
    let mut i: usize = from;
    while i < to
        invariant
            from <= i <= to <= chars.len(),
            text@ == chars@.subrange(from as int, i as int),
        decreases to - i,
    {
        push_char(&mut text, chars[i]);
        assert(chars@.subrange(from as int, i + 1) =~= chars@.subrange(from as int, i as int).push(
            chars@[i as int],
        ));
        i += 1;
    }
    text
}

/// Whether two byte strings are equal.
pub fn same_bytes(left: &[u8], right: &[u8]) -> (same: bool)
    ensures
        same == (left@ == right@),
{
    if left.len() != right.len() {
        return false;
    }
    let mut i: usize = 0;
    while i < left.len()
        invariant
            i <= left.len(),
            left.len() == right.len(),
            forall|j: int| 0 <= j < i ==> left@[j] == right@[j],
        decreases left.len() - i,
    {
        if left[i] != right[i] {
            return false;
        }
        i += 1;
    }
    assert(left@ =~= right@);
    true
}

/// Whether two texts are equal.
pub fn same_text(left: &str, right: &str) -> (same: bool)
    ensures
        same == (left@ == right@),
{
    broadcast use vstd::utf8::encode_utf8_decode_utf8;

    let same = same_bytes(left.as_bytes(), right.as_bytes());
    proof {
        if same {
            assert(decode_utf8(encode_utf8(left@)) == decode_utf8(encode_utf8(right@)));
        }
    }
    same
}

/// Whether `c` is white space.
pub fn is_space(c: char) -> (space: bool)
    ensures
        space == is_whitespace(c),
{
    let code = c as u32;
    (0x09 <= code && code <= 0x0D) || code == 0x20 || code == 0x85 || code == 0xA0 || code
        == 0x1680 || (0x2000 <= code && code <= 0x200A) || code == 0x2028 || code == 0x2029
        || code == 0x202F || code == 0x205F || code == 0x3000
}

/// Offset of the first `c` in `text`, or its length where it has none.
pub open spec fn position_of(text: Seq<char>, c: char) -> int
    decreases text.len(),
{
    if text.len() == 0 || text[0] == c {
        0
    } else {
        1 + position_of(text.drop_first(), c)
    }
}

/// `text` starts with `prefix`.
pub open spec fn starts_with(text: Seq<char>, prefix: Seq<char>) -> bool {
    prefix.len() <= text.len() && text.take(prefix.len() as int) == prefix
}

/// `position_of` never exceeds the length of the text.
pub proof fn lemma_position_of_bounds(text: Seq<char>, c: char)
    ensures
        0 <= position_of(text, c) <= text.len(),
    decreases text.len(),
{
    if text.len() == 0 || text[0] == c {
    } else {
        lemma_position_of_bounds(text.drop_first(), c);
    }
}

/// Offset of the first `c` in `chars[from..to]`, counted from the start of
/// `chars`; `to` where the range has none.
pub fn find_char(chars: &[char], c: char, from: usize, to: usize) -> (at: usize)
    requires
        from <= to <= chars.len(),
    ensures
        from <= at <= to,
        at - from == position_of(chars@.subrange(from as int, to as int), c),
{
    let mut at: usize = from;
    while at < to && chars[at] != c
        invariant
            from <= at <= to <= chars.len(),
            position_of(chars@.subrange(from as int, to as int), c) == at - from + position_of(
                chars@.subrange(at as int, to as int),
                c,
            ),
        decreases to - at,
    {
        assert(chars@.subrange(at as int, to as int).drop_first() =~= chars@.subrange(
            at + 1,
            to as int,
        ));
        at += 1;
    }
    at
}

/// Whether `chars[from..to]` starts with `prefix`.
pub fn range_starts_with(chars: &[char], from: usize, to: usize, prefix: &[char]) -> (starts: bool)
    requires
        from <= to <= chars.len(),
    ensures
        starts == starts_with(chars@.subrange(from as int, to as int), prefix@),
{
    if prefix.len() > to - from {
        return false;
    }
    let ghost text = chars@.subrange(from as int, to as int);
    let mut k: usize = 0;
    while k < prefix.len()
        invariant
            k <= prefix.len() <= to - from,
            from <= to <= chars.len(),
            text == chars@.subrange(from as int, to as int),
            forall|j: int| 0 <= j < k ==> chars@[from + j] == prefix@[j],
        decreases prefix.len() - k,
    {
        if chars[from + k] != prefix[k] {
            assert(text.take(prefix.len() as int)[k as int] == chars@[from + k]);
            return false;
        }
        k += 1;
    }
    assert(text.take(prefix.len() as int) =~= prefix@);
    true
}

/// Offset of the first occurrence of `pattern` in `text`, or -1 where it
/// has none.
pub open spec fn first_occurrence(text: Seq<char>, pattern: Seq<char>) -> int
    decreases text.len(),
{
    if starts_with(text, pattern) {
        0
    } else if text.len() == 0 {
        -1
    } else if first_occurrence(text.drop_first(), pattern) < 0 {
        -1
    } else {
        1 + first_occurrence(text.drop_first(), pattern)
    }
}

/// Offset of the first occurrence of `pattern` in `chars[from..to]`,
/// counted from the start of `chars`.
pub fn find_text(chars: &[char], from: usize, to: usize, pattern: &[char]) -> (at: Option<usize>)
    requires
        from <= to <= chars.len(),
    ensures
        match at {
            Some(at) => from <= at && at + pattern.len() <= to && at - from == first_occurrence(
                chars@.subrange(from as int, to as int),
                pattern@,
            ),
            None => first_occurrence(chars@.subrange(from as int, to as int), pattern@) == -1,
        },
{
    let mut at: usize = from;
    loop
        invariant
            from <= at <= to <= chars.len(),
            first_occurrence(chars@.subrange(from as int, to as int), pattern@) == (if
                first_occurrence(chars@.subrange(at as int, to as int), pattern@) < 0 {
                -1
            } else {
                at - from + first_occurrence(chars@.subrange(at as int, to as int), pattern@)
            }),
        decreases to - at,
    {
        if range_starts_with(chars, at, to, pattern) {
            return Some(at);
        }
        if at == to {
            return None;
        }
        assert(chars@.subrange(at as int, to as int).drop_first() =~= chars@.subrange(
            at + 1,
            to as int,
        ));
        at += 1;
    }
}

/// `text` without the repetitions of `c` at its start.
pub open spec fn without_leading(text: Seq<char>, c: char) -> Seq<char>
    decreases text.len(),
{
    if text.len() > 0 && text[0] == c {
        without_leading(text.drop_first(), c)
    } else {
        text
    }
}

/// `text` without the repetitions of `c` at its end.
pub open spec fn without_closing(text: Seq<char>, c: char) -> Seq<char>
    decreases text.len(),
{
    if text.len() > 0 && text.last() == c {
        without_closing(text.drop_last(), c)
    } else {
        text
    }
}

/// `text` without the double quotes at its start and at its end.
pub open spec fn unquoted(text: Seq<char>) -> Seq<char> {
    without_closing(without_leading(text, '"'), '"')
}

/// The start of what is left of `chars[from..to]` when the repetitions of
/// `c` at its start are removed.
pub fn skip_leading(chars: &[char], from: usize, to: usize, c: char) -> (start: usize)
    requires
        from <= to <= chars.len(),
    ensures
        from <= start <= to,
        chars@.subrange(start as int, to as int) == without_leading(
            chars@.subrange(from as int, to as int),
            c,
        ),
{
    let mut lo: usize = from;
    while lo < to && chars[lo] == c
        invariant
            from <= lo <= to <= chars.len(),
            without_leading(chars@.subrange(from as int, to as int), c) == without_leading(
                chars@.subrange(lo as int, to as int),
                c,
            ),
        decreases to - lo,
    {
        assert(chars@.subrange(lo as int, to as int).drop_first() =~= chars@.subrange(
            lo + 1,
            to as int,
        ));
        lo += 1;
    }
    lo
}

/// The end of what is left of `chars[from..to]` when the repetitions of
/// `c` at its end are removed.
pub fn skip_closing(chars: &[char], from: usize, to: usize, c: char) -> (end: usize)
    requires
        from <= to <= chars.len(),
    ensures
        from <= end <= to,
        chars@.subrange(from as int, end as int) == without_closing(
            chars@.subrange(from as int, to as int),
            c,
        ),
{
    let mut hi: usize = to;
    while from < hi && chars[hi - 1] == c
        invariant
            from <= hi <= to <= chars.len(),
            without_closing(chars@.subrange(from as int, to as int), c) == without_closing(
                chars@.subrange(from as int, hi as int),
                c,
            ),
        decreases hi - from,
    {
        assert(chars@.subrange(from as int, hi as int).drop_last() =~= chars@.subrange(
            from as int,
            hi - 1,
        ));
        hi -= 1;
    }
    hi
}

/// The range of `chars[from..to]` that is left when the double quotes at
/// its start and at its end are removed.
pub fn unquote_range(chars: &[char], from: usize, to: usize) -> (kept: (usize, usize))
    requires
        from <= to <= chars.len(),
    ensures
        from <= kept.0 <= kept.1 <= to,
        chars@.subrange(kept.0 as int, kept.1 as int) == unquoted(
            chars@.subrange(from as int, to as int),
        ),
{
    let lo = skip_leading(chars, from, to, '"');
    let hi = skip_closing(chars, lo, to, '"');
    (lo, hi)
}

/// `text` ends with `suffix`.
pub open spec fn ends_with(text: Seq<char>, suffix: Seq<char>) -> bool {
    &&& suffix.len() <= text.len()
    &&& text.subrange(text.len() - suffix.len(), text.len() as int) == suffix
}

/// `text` without any repetition of `marker` at its end.
pub open spec fn without_trailing(text: Seq<char>, marker: Seq<char>) -> Seq<char>
    decreases text.len(),
{
    if marker.len() > 0 && ends_with(text, marker) {
        without_trailing(text.take(text.len() - marker.len()), marker)
    } else {
        text
    }
}

/// The range of `chars[from..to]` that is left when its leading and
/// trailing white space is removed.
pub fn trim_range(chars: &[char], from: usize, to: usize) -> (kept: (usize, usize))
    requires
        from <= to <= chars.len(),
    ensures
        from <= kept.0 <= kept.1 <= to,
        chars@.subrange(kept.0 as int, kept.1 as int) == trimmed(
            chars@.subrange(from as int, to as int),
        ),
{
    let mut lo: usize = from;
    while lo < to && is_space(chars[lo])
        invariant
            from <= lo <= to <= chars.len(),
            trimmed_start(chars@.subrange(from as int, to as int)) == trimmed_start(
                chars@.subrange(lo as int, to as int),
            ),
        decreases to - lo,
    {
        assert(chars@.subrange(lo as int, to as int).drop_first() =~= chars@.subrange(
            lo + 1,
            to as int,
        ));
        lo += 1;
    }
    let mut hi: usize = to;
    while lo < hi && is_space(chars[hi - 1])
        invariant
            from <= lo <= hi <= to <= chars.len(),
            trimmed_start(chars@.subrange(from as int, to as int)) == chars@.subrange(
                lo as int,
                to as int,
            ),
            trimmed(chars@.subrange(from as int, to as int)) == trimmed_end(
                chars@.subrange(lo as int, hi as int),
            ),
        decreases hi - lo,
    {
        assert(chars@.subrange(lo as int, hi as int).drop_last() =~= chars@.subrange(
            lo as int,
            hi - 1,
        ));
        hi -= 1;
    }
    (lo, hi)
}

/// Whether `chars[from..to]` ends with `suffix`.
pub fn range_ends_with(chars: &[char], from: usize, to: usize, suffix: &[char]) -> (ends: bool)
    requires
        from <= to <= chars.len(),
    ensures
        ends == ends_with(chars@.subrange(from as int, to as int), suffix@),
{
    if suffix.len() > to - from {
        return false;
    }
    let base: usize = to - suffix.len();
    let ghost text = chars@.subrange(from as int, to as int);
    let mut k: usize = 0;
    while k < suffix.len()
        invariant
            k <= suffix.len() <= to - from,
            from <= to <= chars.len(),
            base == to - suffix.len(),
            text == chars@.subrange(from as int, to as int),
            forall|j: int| 0 <= j < k ==> chars@[base + j] == suffix@[j],
        decreases suffix.len() - k,
    {
        if chars[base + k] != suffix[k] {
            assert(text.subrange(text.len() - suffix.len(), text.len() as int)[k as int]
                == chars@[base + k]);
            return false;
        }
        k += 1;
    }
    assert(text.subrange(text.len() - suffix.len(), text.len() as int) =~= suffix@);
    true
}

/// The end of what is left of `chars[from..to]` when every repetition of
/// `marker` at its end is removed.
pub fn strip_trailing(chars: &[char], from: usize, to: usize, marker: &[char]) -> (end: usize)
    requires
        from <= to <= chars.len(),
    ensures
        from <= end <= to,
        chars@.subrange(from as int, end as int) == without_trailing(
            chars@.subrange(from as int, to as int),
            marker@,
        ),
{
    let mut end: usize = to;
    if marker.len() == 0 {
        return end;
    }
    while range_ends_with(chars, from, end, marker)
        invariant
            from <= end <= to <= chars.len(),
            marker.len() > 0,
            without_trailing(chars@.subrange(from as int, to as int), marker@)
                == without_trailing(chars@.subrange(from as int, end as int), marker@),
        decreases end - from,
    {
        assert(chars@.subrange(from as int, end as int).take(end - from - marker.len())
            =~= chars@.subrange(from as int, end - marker.len()));
        end -= marker.len();
    }
    end
}

/// A text of white space only is trimmed to nothing.
pub proof fn lemma_trimmed_start_of_space(space: Seq<char>)
    requires
        forall|i: int| 0 <= i < space.len() ==> is_whitespace(space[i]),
    ensures
        trimmed_start(space) == Seq::<char>::empty(),
    decreases space.len(),
{
    if space.len() > 0 {
        lemma_trimmed_start_of_space(space.drop_first());
    }
}

/// White space behind a text is trimmed away.
pub proof fn lemma_trimmed_end_with_space(text: Seq<char>, space: Seq<char>)
    requires
        forall|i: int| 0 <= i < space.len() ==> is_whitespace(space[i]),
    ensures
        trimmed_end(text + space) == trimmed_end(text),
    decreases space.len(),
{
    if space.len() == 0 {
        assert(text + space =~= text);
    } else {
        assert((text + space).drop_last() =~= text + space.drop_last());
        lemma_trimmed_end_with_space(text, space.drop_last());
    }
}

/// Trimming a text with white space behind it gives what trimming the
/// text gives.
pub proof fn lemma_trimmed_with_space(text: Seq<char>, space: Seq<char>)
    requires
        forall|i: int| 0 <= i < space.len() ==> is_whitespace(space[i]),
    ensures
        trimmed(text + space) == trimmed(text),
    decreases text.len(),
{
    if text.len() == 0 {
        assert(text + space =~= space);
        lemma_trimmed_start_of_space(space);
    } else if is_whitespace(text[0]) {
        assert((text + space).drop_first() =~= text.drop_first() + space);
        lemma_trimmed_with_space(text.drop_first(), space);
    } else {
        lemma_trimmed_end_with_space(text, space);
    }
}

/// What is trimmed at its end stays within the text and has no white
/// space at its end.
pub proof fn lemma_trimmed_end_shape(text: Seq<char>)
    ensures
        trimmed_end(text).len() <= text.len(),
        trimmed_end(text) == text.take(trimmed_end(text).len() as int),
        trimmed_end(text).len() > 0 ==> !is_whitespace(trimmed_end(text).last()),
    decreases text.len(),
{
    if text.len() > 0 && is_whitespace(text.last()) {
        lemma_trimmed_end_shape(text.drop_last());
        assert(text.drop_last().take(trimmed_end(text).len() as int) =~= text.take(
            trimmed_end(text).len() as int,
        ));
    } else {
        assert(text.take(text.len() as int) =~= text);
    }
}

/// What is trimmed at its start has no white space at its start.
pub proof fn lemma_trimmed_start_shape(text: Seq<char>)
    ensures
        trimmed_start(text).len() > 0 ==> !is_whitespace(trimmed_start(text)[0]),
    decreases text.len(),
{
    if text.len() > 0 && is_whitespace(text[0]) {
        lemma_trimmed_start_shape(text.drop_first());
    }
}

/// Trimming what is trimmed changes nothing.
pub proof fn lemma_trimmed_twice(text: Seq<char>)
    ensures
        trimmed(trimmed(text)) == trimmed(text),
{
    let started = trimmed_start(text);
    let once = trimmed(text);
    lemma_trimmed_start_shape(text);
    lemma_trimmed_end_shape(started);
    lemma_trimmed_end_shape(once);
    if once.len() > 0 {
        assert(once[0] == started[0]);
        assert(trimmed_start(once) == once);
    }
}

/// The encoding of a text with a line break behind it is read as the
/// text with the line break behind it.
pub proof fn lemma_text_of_line(text: Seq<char>)
    ensures
        text_of(encode_utf8(text) + seq![13u8, 10u8]) == text + seq!['\r', '\n'],
{
    broadcast use
        vstd::utf8::encode_utf8_valid_utf8,
        vstd::utf8::encode_utf8_decode_utf8,
        vstd::utf8::valid_utf8_concat,
    ;

    let line_break = seq!['\r', '\n'];
    let head = encode_utf8(text);
    let tail = seq![13u8, 10u8];
    assert(vstd::utf8::is_ascii_chars(line_break));
    vstd::utf8::is_ascii_chars_encode_utf8(line_break);
    assert(encode_utf8(line_break) =~= tail);
    let bytes = head + tail;
    assert(valid_utf8(bytes));
    let at = head.len() as int;
    assert(bytes[at] == 13u8);
    vstd::utf8::is_char_boundary_iff_not_is_continuation_byte(bytes, at);
    vstd::utf8::decode_utf8_split(bytes, at);
    assert(bytes.subrange(0, at) =~= head);
    assert(bytes.subrange(at, bytes.len() as int) =~= tail);
}

} // verus!
