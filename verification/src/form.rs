//! Well-formed uploads: bodies as a client writes them, and the proof that
//! decoding returns what was written.

use vstd::prelude::*;
use vstd::utf8::encode_utf8;
use crate::bytes::{
    contains_pattern, first_match_from, lemma_first_match_is, lemma_first_match_least,
    lemma_first_match_none, lemma_match_bytes, lemma_match_in_piece, lemma_match_split, matches_at,
};
use crate::multipart::{
    absorb, ascii_space, blank, content_end, content_start, context_match, crlf, crlf_crlf, dashes,
    decoded, delimiter, ends_content, filename_in, filename_key, lemma_content_end_is,
    lemma_first_context_match_is, lf, located, nothing_scanned, scan_parts, sender_key,
    sender_text, separator_of, terminator, window, worth_inspecting, DecodeError, Scan, UploadView,
};
use crate::text::lemma_text_of_encoded;

verus! {

/// A part as it stands between two delimiters: a line break, the headers,
/// a blank line, the content, and a line break.
pub open spec fn part_bytes(headers: Seq<u8>, content: Seq<u8>) -> Seq<u8> {
    crlf() + headers + crlf_crlf() + content + crlf()
}

/// The body of an upload with two parts: each part behind a delimiter,
/// and the closing delimiter with a line break at the end.
pub open spec fn form_body(
    boundary: Seq<u8>,
    first_headers: Seq<u8>,
    first_content: Seq<u8>,
    second_headers: Seq<u8>,
    second_content: Seq<u8>,
) -> Seq<u8> {
    delimiter(boundary) + part_bytes(first_headers, first_content) + delimiter(boundary)
        + part_bytes(second_headers, second_content) + terminator(boundary) + crlf()
}

/// The headers hold no blank line: in a part, the first `\r\n\r\n` is the
/// one that ends them.
pub open spec fn blank_line_ends(headers: Seq<u8>) -> bool {
    first_match_from(crlf() + headers + crlf_crlf(), crlf_crlf(), 0) == Some(
        2 + headers.len() as int,
    )
}

/// A boundary that can delimit parts: not empty, and without a line
/// break in it.
pub open spec fn usable_boundary(boundary: Seq<u8>) -> bool {
    &&& boundary.len() > 0
    &&& forall|k: int| 0 <= k < boundary.len() ==> boundary[k] != 13 && boundary[k] != 10
}

/// Offset of the delimiter behind the first part.
pub open spec fn second_delimiter(
    boundary: Seq<u8>,
    first_headers: Seq<u8>,
    first_content: Seq<u8>,
) -> int {
    (delimiter(boundary).len() + part_bytes(first_headers, first_content).len()) as int
}

/// Offset of the closing delimiter.
pub open spec fn closing_delimiter(
    boundary: Seq<u8>,
    first_headers: Seq<u8>,
    first_content: Seq<u8>,
    second_headers: Seq<u8>,
    second_content: Seq<u8>,
) -> int {
    second_delimiter(boundary, first_headers, first_content) + delimiter(boundary).len()
        + part_bytes(second_headers, second_content).len()
}

/// The delimiter occurs in no part: between the start of a part and the
/// delimiter that ends it, no delimiter begins.
pub open spec fn parts_hold_no_delimiter(
    boundary: Seq<u8>,
    first_headers: Seq<u8>,
    first_content: Seq<u8>,
    second_headers: Seq<u8>,
    second_content: Seq<u8>,
) -> bool {
    let body = form_body(boundary, first_headers, first_content, second_headers, second_content);
    let width = delimiter(boundary).len() as int;
    let second = second_delimiter(boundary, first_headers, first_content);
    let closing = closing_delimiter(
        boundary,
        first_headers,
        first_content,
        second_headers,
        second_content,
    );
    forall|at: int|
        (width <= at < second || second + width <= at < closing) ==> !#[trigger] matches_at(
            body,
            delimiter(boundary),
            at,
        )
}

/// A part holds no delimiter: with the delimiter behind it, the
/// delimiter first occurs behind the part.
pub open spec fn delimited(part: Seq<u8>, boundary: Seq<u8>) -> bool {
    first_match_from(part + delimiter(boundary), delimiter(boundary), 0) == Some(
        part.len() as int,
    )
}

/// An upload as a well-behaved client writes it: under a usable boundary,
/// a file part whose headers give the name of the file and hold no blank
/// line, with a file that is not empty; a sender part whose headers name
/// the field `sender`, mention no file name and hold no blank line; and no
/// delimiter in either part.
pub open spec fn well_formed(
    boundary: Seq<u8>,
    file_headers: Seq<u8>,
    filename: Seq<u8>,
    payload: Seq<u8>,
    sender_headers: Seq<u8>,
    sender: Seq<u8>,
) -> bool {
    &&& usable_boundary(boundary)
    &&& blank_line_ends(file_headers)
    &&& filename_in(crlf() + file_headers) == Some(filename)
    &&& payload.len() > 0
    &&& blank_line_ends(sender_headers)
    &&& !contains_pattern(crlf() + sender_headers, filename_key())
    &&& contains_pattern(crlf() + sender_headers, sender_key())
    &&& delimited(part_bytes(file_headers, payload), boundary)
    &&& delimited(part_bytes(sender_headers, sender), boundary)
}

/// A part in which some pattern occurs that starts with a byte other than
/// white space is not blank.
proof fn lemma_not_blank(part: Seq<u8>, pat: Seq<u8>, at: int)
    requires
        matches_at(part, pat, at),
        pat.len() > 0,
        !ascii_space(pat[0]),
    ensures
        !blank(part),
{
    lemma_match_bytes(part, pat, at, 0);
    assert(!ascii_space(part[at]));
}

/// How a part is read whose headers hold no blank line: the blank line
/// is found behind the headers, and what follows it is the content and a
/// line break.
pub proof fn lemma_part_shape(headers: Seq<u8>, content: Seq<u8>)
    requires
        blank_line_ends(headers),
    ensures
        part_bytes(headers, content).len() == headers.len() + content.len() + 8,
        separator_of(part_bytes(headers, content)) == Some((2 + headers.len() as int, 4int)),
        first_match_from(part_bytes(headers, content), crlf_crlf(), 0) == Some(
            2 + headers.len() as int,
        ),
        part_bytes(headers, content).subrange(0, 2 + headers.len() as int) == crlf() + headers,
        part_bytes(headers, content).subrange(
            6 + headers.len() as int,
            part_bytes(headers, content).len() as int,
        ) == content + crlf(),
        !matches_at(part_bytes(headers, content), dashes(), 0),
{
    let part = part_bytes(headers, content);
    let prefix = crlf() + headers + crlf_crlf();
    let at = 2 + headers.len() as int;
    assert(part.subrange(0, prefix.len() as int) =~= prefix);
    assert(part.subrange(0, at) =~= crlf() + headers);
    assert(part.subrange(at + 4, part.len() as int) =~= content + crlf());
    lemma_first_match_least(prefix, crlf_crlf(), 0);
    lemma_match_in_piece(part, 0, prefix.len() as int, crlf_crlf(), at);
    assert forall|j: int| 0 <= j < at implies !matches_at(part, crlf_crlf(), j) by {
        lemma_match_in_piece(part, 0, prefix.len() as int, crlf_crlf(), j);
    }
    lemma_first_match_is(part, crlf_crlf(), 0, at);
    assert(part[0] == 13u8);
    if matches_at(part, dashes(), 0) {
        lemma_match_bytes(part, dashes(), 0, 0);
    }
}

/// Where the pieces of a form body stand in it.
pub proof fn lemma_form_layout(
    boundary: Seq<u8>,
    file_headers: Seq<u8>,
    payload: Seq<u8>,
    sender_headers: Seq<u8>,
    sender: Seq<u8>,
)
    ensures
        ({
            let body = form_body(boundary, file_headers, payload, sender_headers, sender);
            let delim = delimiter(boundary);
            let width = delim.len() as int;
            let second = second_delimiter(boundary, file_headers, payload);
            let closing = closing_delimiter(
                boundary,
                file_headers,
                payload,
                sender_headers,
                sender,
            );
            &&& width == boundary.len() + 2
            &&& second == width + part_bytes(file_headers, payload).len()
            &&& closing == second + width + part_bytes(sender_headers, sender).len()
            &&& body.len() == closing + width + 4
            &&& matches_at(body, delim, 0)
            &&& body.subrange(width, second) == part_bytes(file_headers, payload)
            &&& matches_at(body, delim, second)
            &&& body.subrange(second + width, closing) == part_bytes(sender_headers, sender)
            &&& matches_at(body, delim, closing)
            &&& matches_at(body, terminator(boundary), closing)
            &&& body.subrange(closing + width, body.len() as int) == dashes() + crlf()
        }),
{
    let body = form_body(boundary, file_headers, payload, sender_headers, sender);
    let delim = delimiter(boundary);
    let width = delim.len() as int;
    let second = second_delimiter(boundary, file_headers, payload);
    let closing = closing_delimiter(boundary, file_headers, payload, sender_headers, sender);
    assert(body.subrange(0, width) =~= delim);
    assert(body.subrange(width, second) =~= part_bytes(file_headers, payload));
    assert(body.subrange(second, second + width) =~= delim);
    assert(body.subrange(second + width, closing) =~= part_bytes(sender_headers, sender));
    assert(body.subrange(closing, closing + width) =~= delim);
    assert(body.subrange(closing, closing + width + 2) =~= terminator(boundary));
    assert(body.subrange(closing + width, body.len() as int) =~= dashes() + crlf());
}

/// Where each of the two parts of a body holds no delimiter, the
/// delimiter occurs in no part of the body.
proof fn lemma_delimited_parts(
    boundary: Seq<u8>,
    first_headers: Seq<u8>,
    first_content: Seq<u8>,
    second_headers: Seq<u8>,
    second_content: Seq<u8>,
)
    requires
        delimited(part_bytes(first_headers, first_content), boundary),
        delimited(part_bytes(second_headers, second_content), boundary),
    ensures
        parts_hold_no_delimiter(
            boundary,
            first_headers,
            first_content,
            second_headers,
            second_content,
        ),
{
    let body = form_body(boundary, first_headers, first_content, second_headers, second_content);
    let delim = delimiter(boundary);
    let width = delim.len() as int;
    let first = part_bytes(first_headers, first_content);
    let last = part_bytes(second_headers, second_content);
    let second = second_delimiter(boundary, first_headers, first_content);
    let closing = closing_delimiter(
        boundary,
        first_headers,
        first_content,
        second_headers,
        second_content,
    );
    lemma_form_layout(boundary, first_headers, first_content, second_headers, second_content);
    lemma_first_match_least(first + delim, delim, 0);
    lemma_first_match_least(last + delim, delim, 0);
    assert(body.subrange(width, second + width) =~= first + delim);
    assert(body.subrange(second + width, closing + width) =~= last + delim);
    assert forall|at: int|
        (width <= at < second || second + width <= at < closing) implies !matches_at(
        body,
        delim,
        at,
    ) by {
        if at < second {
            lemma_match_in_piece(body, width, second + width, delim, at - width);
        } else {
            lemma_match_in_piece(
                body,
                second + width,
                closing + width,
                delim,
                at - second - width,
            );
        }
    }
}

/// The blank line of a part is told apart in the body: before it, no
/// blank line stands behind the same bytes.
pub open spec fn told_apart(body: Seq<u8>, part: Seq<u8>, lo: int) -> bool {
    match first_match_from(part, crlf_crlf(), 0) {
        Some(rel) => forall|j: int|
            0 <= j < lo + rel ==> !#[trigger] context_match(body, part, crlf_crlf(), rel, j),
        None => true,
    }
}

/// A part that stands in a body, and whose blank line is told apart
/// there, has its content located behind that blank line.
proof fn lemma_content_start(body: Seq<u8>, part: Seq<u8>, lo: int, rel: int)
    requires
        0 <= lo,
        lo + part.len() <= body.len(),
        body.subrange(lo, lo + part.len()) == part,
        first_match_from(part, crlf_crlf(), 0) == Some(rel),
        told_apart(body, part, lo),
    ensures
        content_start(body, part) == Some(lo + rel + 4),
{
    let blank_line = lo + rel;
    lemma_first_match_least(part, crlf_crlf(), 0);
    lemma_match_in_piece(body, lo, lo + part.len(), crlf_crlf(), rel);
    assert(body.subrange(blank_line - window(rel), blank_line) =~= part.subrange(
        rel - window(rel),
        rel,
    ));
    assert(context_match(body, part, crlf_crlf(), rel, blank_line));
    lemma_first_context_match_is(body, part, crlf_crlf(), rel, 0, blank_line);
    assert(located(body, part, crlf_crlf()) == Some(blank_line + 4));
}

/// The blank line of the part behind the first delimiter is told apart:
/// no blank line stands in the body before it.
proof fn lemma_first_part_told_apart(body: Seq<u8>, boundary: Seq<u8>, part: Seq<u8>)
    requires
        usable_boundary(boundary),
        delimiter(boundary).len() + part.len() <= body.len(),
        body.subrange(0, delimiter(boundary).len() as int) == delimiter(boundary),
        body.subrange(
            delimiter(boundary).len() as int,
            (delimiter(boundary).len() + part.len()) as int,
        ) == part,
        part.len() > 0,
        part[0] == 13u8,
    ensures
        told_apart(body, part, delimiter(boundary).len() as int),
{
    let delim = delimiter(boundary);
    let width = delim.len() as int;
    let second = width + part.len();
    lemma_first_match_least(part, crlf_crlf(), 0);
    if first_match_from(part, crlf_crlf(), 0) is Some {
        let rel = first_match_from(part, crlf_crlf(), 0)->0;
        assert forall|j: int| 0 <= j < width + rel implies !context_match(
            body,
            part,
            crlf_crlf(),
            rel,
            j,
        ) by {
            if matches_at(body, crlf_crlf(), j) {
                if j >= width {
                    lemma_match_in_piece(body, width, second, crlf_crlf(), j - width);
                } else {
                    lemma_match_bytes(body, crlf_crlf(), j, 1);
                    if j + 1 < width {
                        assert(body.subrange(0, width)[j + 1] == body[j + 1]);
                        assert(delim[j + 1] == if j + 1 < 2 {
                            dashes()[j + 1]
                        } else {
                            boundary[j + 1 - 2]
                        });
                    } else {
                        assert(body.subrange(width, second)[0] == body[width]);
                    }
                }
            }
        }
    }
}

/// Content ends where a line break and a delimiter follow it, if no
/// delimiter begins between its start and that delimiter.
proof fn lemma_content_ends(body: Seq<u8>, boundary: Seq<u8>, start: int, end: int)
    requires
        0 <= start <= end,
        matches_at(body, crlf() + delimiter(boundary), end),
        forall|at: int| start <= at < end + 2 ==> !#[trigger] matches_at(
            body,
            delimiter(boundary),
            at,
        ),
    ensures
        content_end(body, delimiter(boundary), terminator(boundary), start) == end,
{
    let delim = delimiter(boundary);
    let closing = terminator(boundary);
    assert forall|j: int| start <= j < end implies !ends_content(body, delim, closing, j) by {
        if matches_at(body, closing, j) {
            assert(closing =~= delim + dashes());
            lemma_match_split(body, delim, dashes(), j);
            assert(matches_at(body, delim, j));
        }
        if matches_at(body, crlf() + delim, j) {
            lemma_match_split(body, crlf(), delim, j);
            assert(matches_at(body, delim, j + 2));
        }
        if matches_at(body, lf() + delim, j) {
            lemma_match_split(body, lf(), delim, j);
            assert(matches_at(body, delim, j + 1));
        }
    }
    lemma_content_end_is(body, delim, closing, start, end);
}

/// What the file part of a well-formed body adds to what was gathered:
/// the name that its headers give, and its content, byte for byte.
proof fn lemma_absorb_file_part(
    body: Seq<u8>,
    boundary: Seq<u8>,
    before: Scan,
    lo: int,
    headers: Seq<u8>,
    name: Seq<u8>,
    payload: Seq<u8>,
)
    requires
        blank_line_ends(headers),
        filename_in(crlf() + headers) == Some(name),
        0 <= lo,
        lo + part_bytes(headers, payload).len() <= body.len(),
        body.subrange(lo, lo + part_bytes(headers, payload).len()) == part_bytes(headers, payload),
        told_apart(body, part_bytes(headers, payload), lo),
        matches_at(body, delimiter(boundary), lo + part_bytes(headers, payload).len()),
        forall|at: int|
            lo <= at < lo + part_bytes(headers, payload).len() ==> !#[trigger] matches_at(
                body,
                delimiter(boundary),
                at,
            ),
    ensures
        absorb(body, boundary, before, lo, lo + part_bytes(headers, payload).len()) == (Scan {
            content: payload,
            filename: name,
            sender: before.sender,
            inspected: true,
            separated: true,
        }),
{
    let delim = delimiter(boundary);
    let width = delim.len() as int;
    let part = part_bytes(headers, payload);
    let hi = lo + part.len();
    let rel = 2 + headers.len() as int;
    let start = lo + rel + 4;
    let end = start + payload.len();
    let shown = crlf() + headers;
    lemma_part_shape(headers, payload);

    // The part is inspected: it mentions `filename=`.
    lemma_first_match_least(shown, filename_key(), 0);
    let mention = first_match_from(shown, filename_key(), 0)->0;
    lemma_match_in_piece(part, 0, rel, filename_key(), mention);
    lemma_not_blank(part, filename_key(), mention);
    assert(worth_inspecting(part));
    assert(contains_pattern(part.subrange(0, rel), filename_key()));

    // Its content.
    lemma_content_start(body, part, lo, rel);
    assert(end + 2 == hi);
    assert(body.subrange(start, end) =~= part.subrange(rel + 4, rel + 4 + payload.len()));
    assert(part.subrange(rel + 4, rel + 4 + payload.len()) =~= (payload + crlf()).subrange(
        0,
        payload.len() as int,
    ));
    assert(body.subrange(start, end) =~= payload);
    assert(body.subrange(end, end + 2) =~= crlf()) by {
        assert(body.subrange(end, end + 2) =~= part.subrange(
            part.len() - 2,
            part.len() as int,
        ));
    }
    assert(body.subrange(end, end + 2 + width) =~= crlf() + delim) by {
        assert(body.subrange(end, end + 2 + width) =~= body.subrange(end, end + 2)
            + body.subrange(hi, hi + width));
    }
    lemma_content_ends(body, boundary, start, end);
}

/// What the sender part of a well-formed body adds to what was gathered:
/// its body, which is the sender and a line break.
proof fn lemma_absorb_sender_part(
    body: Seq<u8>,
    boundary: Seq<u8>,
    before: Scan,
    lo: int,
    headers: Seq<u8>,
    sender: Seq<u8>,
)
    requires
        blank_line_ends(headers),
        !contains_pattern(crlf() + headers, filename_key()),
        contains_pattern(crlf() + headers, sender_key()),
        0 <= lo,
        lo + part_bytes(headers, sender).len() <= body.len(),
        body.subrange(lo, lo + part_bytes(headers, sender).len()) == part_bytes(headers, sender),
    ensures
        absorb(body, boundary, before, lo, lo + part_bytes(headers, sender).len()) == (Scan {
            sender: Some(sender + crlf()),
            inspected: true,
            separated: true,
            ..before
        }),
{
    let part = part_bytes(headers, sender);
    let rel = 2 + headers.len() as int;
    let shown = crlf() + headers;
    lemma_part_shape(headers, sender);
    lemma_first_match_least(shown, sender_key(), 0);
    let mention = first_match_from(shown, sender_key(), 0)->0;
    lemma_match_in_piece(part, 0, rel, sender_key(), mention);
    lemma_not_blank(part, sender_key(), mention);
    assert(worth_inspecting(part));
}

/// A part that starts with `--` adds nothing.
proof fn lemma_absorb_closing(body: Seq<u8>, boundary: Seq<u8>, before: Scan, lo: int)
    requires
        0 <= lo <= body.len(),
        body.subrange(lo, body.len() as int) == dashes() + crlf(),
    ensures
        absorb(body, boundary, before, lo, body.len() as int) == before,
{
    let part = body.subrange(lo, body.len() as int);
    assert(part.subrange(0, 2) =~= dashes());
}

/// An empty part adds nothing.
proof fn lemma_absorb_empty(body: Seq<u8>, boundary: Seq<u8>, before: Scan, at: int)
    requires
        0 <= at <= body.len(),
    ensures
        absorb(body, boundary, before, at, at) == before,
{
    assert(blank(body.subrange(at, at)));
}

/// Behind the closing delimiter of a form body no delimiter follows.
proof fn lemma_no_delimiter_follows(body: Seq<u8>, boundary: Seq<u8>, from: int)
    requires
        usable_boundary(boundary),
        0 <= from,
        body.len() == from + 4,
        body.subrange(from, body.len() as int) == dashes() + crlf(),
    ensures
        first_match_from(body, delimiter(boundary), from) is None,
{
    let delim = delimiter(boundary);
    assert forall|j: int| from <= j implies !matches_at(body, delim, j) by {
        if matches_at(body, delim, j) {
            let k = from + 2 - j;
            lemma_match_bytes(body, delim, j, k);
            assert(body.subrange(from, body.len() as int)[2] == body[from + 2]);
            assert((dashes() + crlf())[2] == 13u8);
            assert(delim[k] == if k < 2 {
                dashes()[k]
            } else {
                boundary[k - 2]
            });
        }
    }
    lemma_first_match_none(body, delim, from);
}

/// What is gathered from a well-formed body: the file, byte for byte; the
/// name that the headers of its part give; and the body of the sender
/// part.
pub proof fn lemma_well_formed_scan(
    boundary: Seq<u8>,
    file_headers: Seq<u8>,
    filename: Seq<u8>,
    payload: Seq<u8>,
    sender_headers: Seq<u8>,
    sender: Seq<u8>,
)
    requires
        well_formed(boundary, file_headers, filename, payload, sender_headers, sender),
    ensures
        scan_parts(
            form_body(boundary, file_headers, payload, sender_headers, sender),
            boundary,
            nothing_scanned(),
            0,
        ) == (Scan {
            content: payload,
            filename,
            sender: Some(sender + crlf()),
            inspected: true,
            separated: true,
        }),
{
    let body = form_body(boundary, file_headers, payload, sender_headers, sender);
    let delim = delimiter(boundary);
    let width = delim.len() as int;
    let second = second_delimiter(boundary, file_headers, payload);
    let closing = closing_delimiter(boundary, file_headers, payload, sender_headers, sender);
    let start = nothing_scanned();
    let with_file = Scan {
        content: payload,
        filename,
        sender: None,
        inspected: true,
        separated: true,
    };
    let with_sender = Scan { sender: Some(sender + crlf()), ..with_file };
    lemma_form_layout(boundary, file_headers, payload, sender_headers, sender);
    lemma_delimited_parts(boundary, file_headers, payload, sender_headers, sender);

    lemma_absorb_empty(body, boundary, start, 0);
    assert(first_match_from(body, delim, 0) == Some(0int));
    assert(scan_parts(body, boundary, start, 0) == scan_parts(body, boundary, start, width));

    lemma_first_match_is(body, delim, width, second);
    lemma_part_shape(file_headers, payload);
    lemma_first_part_told_apart(body, boundary, part_bytes(file_headers, payload));
    lemma_absorb_file_part(body, boundary, start, width, file_headers, filename, payload);
    assert(scan_parts(body, boundary, start, width) == scan_parts(
        body,
        boundary,
        with_file,
        second + width,
    ));

    lemma_first_match_is(body, delim, second + width, closing);
    lemma_absorb_sender_part(body, boundary, with_file, second + width, sender_headers, sender);
    assert(scan_parts(body, boundary, with_file, second + width) == scan_parts(
        body,
        boundary,
        with_sender,
        closing + width,
    ));

    lemma_no_delimiter_follows(body, boundary, closing + width);
    lemma_absorb_closing(body, boundary, with_sender, closing + width);
    assert(scan_parts(body, boundary, with_sender, closing + width) == with_sender);
}

/// Decoding returns what a well-formed upload holds: the file, byte for
/// byte and whatever its bytes are; its name; and the sender as the body
/// of the sender part gives it.
pub proof fn lemma_well_formed_upload_decodes(
    boundary: Seq<char>,
    file_headers: Seq<u8>,
    filename: Seq<char>,
    payload: Seq<u8>,
    sender_headers: Seq<u8>,
    sender: Seq<u8>,
)
    requires
        filename.len() > 0,
        well_formed(
            encode_utf8(boundary),
            file_headers,
            encode_utf8(filename),
            payload,
            sender_headers,
            sender,
        ),
    ensures
        decoded(
            form_body(encode_utf8(boundary), file_headers, payload, sender_headers, sender),
            boundary,
        ) == Ok::<UploadView, DecodeError>(
            UploadView {
                file_bytes: payload,
                filename,
                sender: sender_text(sender + crlf(), boundary),
            },
        ),
{
    lemma_well_formed_scan(
        encode_utf8(boundary),
        file_headers,
        encode_utf8(filename),
        payload,
        sender_headers,
        sender,
    );
    lemma_text_of_encoded(filename);
}

/// An upload as a well-behaved client writes it when the sender is named
/// before the file: as `well_formed`, with the parts in the other order,
/// and with the blank line of the file part told apart from those that
/// stand before it.
pub open spec fn well_formed_sender_first(
    boundary: Seq<u8>,
    sender_headers: Seq<u8>,
    sender: Seq<u8>,
    file_headers: Seq<u8>,
    filename: Seq<u8>,
    payload: Seq<u8>,
) -> bool {
    &&& usable_boundary(boundary)
    &&& blank_line_ends(sender_headers)
    &&& !contains_pattern(crlf() + sender_headers, filename_key())
    &&& contains_pattern(crlf() + sender_headers, sender_key())
    &&& blank_line_ends(file_headers)
    &&& filename_in(crlf() + file_headers) == Some(filename)
    &&& payload.len() > 0
    &&& delimited(part_bytes(sender_headers, sender), boundary)
    &&& delimited(part_bytes(file_headers, payload), boundary)
    &&& told_apart(
        form_body(boundary, sender_headers, sender, file_headers, payload),
        part_bytes(file_headers, payload),
        second_delimiter(boundary, sender_headers, sender) + delimiter(boundary).len(),
    )
}

/// What is gathered from a well-formed body in which the sender is named
/// before the file: the same as in the other order.
pub proof fn lemma_well_formed_scan_sender_first(
    boundary: Seq<u8>,
    sender_headers: Seq<u8>,
    sender: Seq<u8>,
    file_headers: Seq<u8>,
    filename: Seq<u8>,
    payload: Seq<u8>,
)
    requires
        well_formed_sender_first(
            boundary,
            sender_headers,
            sender,
            file_headers,
            filename,
            payload,
        ),
    ensures
        scan_parts(
            form_body(boundary, sender_headers, sender, file_headers, payload),
            boundary,
            nothing_scanned(),
            0,
        ) == (Scan {
            content: payload,
            filename,
            sender: Some(sender + crlf()),
            inspected: true,
            separated: true,
        }),
{
    let body = form_body(boundary, sender_headers, sender, file_headers, payload);
    let delim = delimiter(boundary);
    let width = delim.len() as int;
    let second = second_delimiter(boundary, sender_headers, sender);
    let closing = closing_delimiter(boundary, sender_headers, sender, file_headers, payload);
    let start = nothing_scanned();
    let with_sender = Scan {
        sender: Some(sender + crlf()),
        inspected: true,
        separated: true,
        ..start
    };
    let with_file = Scan { content: payload, filename, ..with_sender };
    lemma_form_layout(boundary, sender_headers, sender, file_headers, payload);
    lemma_delimited_parts(boundary, sender_headers, sender, file_headers, payload);

    lemma_absorb_empty(body, boundary, start, 0);
    assert(first_match_from(body, delim, 0) == Some(0int));
    assert(scan_parts(body, boundary, start, 0) == scan_parts(body, boundary, start, width));

    lemma_first_match_is(body, delim, width, second);
    lemma_absorb_sender_part(body, boundary, start, width, sender_headers, sender);
    assert(scan_parts(body, boundary, start, width) == scan_parts(
        body,
        boundary,
        with_sender,
        second + width,
    ));

    lemma_first_match_is(body, delim, second + width, closing);
    lemma_absorb_file_part(
        body,
        boundary,
        with_sender,
        second + width,
        file_headers,
        filename,
        payload,
    );
    assert(scan_parts(body, boundary, with_sender, second + width) == scan_parts(
        body,
        boundary,
        with_file,
        closing + width,
    ));

    lemma_no_delimiter_follows(body, boundary, closing + width);
    lemma_absorb_closing(body, boundary, with_file, closing + width);
    assert(scan_parts(body, boundary, with_file, closing + width) == with_file);
}

/// Decoding returns what a well-formed upload holds, also where the
/// sender is named before the file.
pub proof fn lemma_sender_first_upload_decodes(
    boundary: Seq<char>,
    sender_headers: Seq<u8>,
    sender: Seq<u8>,
    file_headers: Seq<u8>,
    filename: Seq<char>,
    payload: Seq<u8>,
)
    requires
        filename.len() > 0,
        well_formed_sender_first(
            encode_utf8(boundary),
            sender_headers,
            sender,
            file_headers,
            encode_utf8(filename),
            payload,
        ),
    ensures
        decoded(
            form_body(encode_utf8(boundary), sender_headers, sender, file_headers, payload),
            boundary,
        ) == Ok::<UploadView, DecodeError>(
            UploadView {
                file_bytes: payload,
                filename,
                sender: sender_text(sender + crlf(), boundary),
            },
        ),
{
    lemma_well_formed_scan_sender_first(
        encode_utf8(boundary),
        sender_headers,
        sender,
        file_headers,
        encode_utf8(filename),
        payload,
    );
    lemma_text_of_encoded(filename);
}

} // verus!
