//! Byte-exact decoding of a `multipart/form-data` upload.
//!
//! The body is cut at every occurrence of the delimiter `--boundary`. Each
//! piece is a part: headers, a blank line, a body. The part whose headers
//! mention `filename=` carries the file; its content is recovered from the
//! untouched buffer, from the byte after the blank line up to the marker
//! that ends the part. The part named `sender` carries the sender.

use vstd::prelude::*;
use vstd::utf8::encode_utf8;
use crate::text::{
    from_chars, lossy_text, strip_trailing, text_of, to_chars, trim_range, trimmed,
    without_trailing,
};
use crate::bytes::{
    contains_pattern, find_from, first_match_from, lemma_first_match_least, matches_at, occurs_at,
    offset_of, search_in_bytes,
};

verus! {

/// Number of bytes before a blank line that identify it in the buffer.
pub const CONTEXT_WINDOW: usize = 20;

/// `\r\n\r\n`, the canonical blank line between headers and body.
pub open spec fn crlf_crlf() -> Seq<u8> {
    seq![13u8, 10u8, 13u8, 10u8]
}

/// `\n\n`, the lenient blank line.
pub open spec fn lf_lf() -> Seq<u8> {
    seq![10u8, 10u8]
}

/// `--`, which opens every delimiter and closes the last one.
pub open spec fn dashes() -> Seq<u8> {
    seq![45u8, 45u8]
}

/// `--boundary`, the delimiter between parts.
pub open spec fn delimiter(boundary: Seq<u8>) -> Seq<u8> {
    dashes() + boundary
}

/// `--boundary--`, the delimiter after the last part.
pub open spec fn terminator(boundary: Seq<u8>) -> Seq<u8> {
    dashes() + boundary + dashes()
}

/// `\r\n`.
pub open spec fn crlf() -> Seq<u8> {
    seq![13u8, 10u8]
}

/// `\n`.
pub open spec fn lf() -> Seq<u8> {
    seq![10u8]
}

/// A part's content ends at `at` if the closing delimiter `closing` stands
/// there, or the delimiter `delim` at the start of the next line (after
/// `\r\n` or `\n`).
pub open spec fn ends_content(data: Seq<u8>, delim: Seq<u8>, closing: Seq<u8>, at: int) -> bool {
    ||| matches_at(data, closing, at)
    ||| matches_at(data, crlf() + delim, at)
    ||| matches_at(data, lf() + delim, at)
}

/// The end of the content that starts at `start`: the first offset at or
/// after `start` where the content ends, or the end of the buffer.
pub open spec fn content_end(data: Seq<u8>, delim: Seq<u8>, closing: Seq<u8>, start: int) -> int
    decreases data.len() - start,
{
    if start >= data.len() {
        data.len() as int
    } else if ends_content(data, delim, closing, start) {
        start
    } else {
        content_end(data, delim, closing, start + 1)
    }
}

/// `content_end` is the least offset at or after `start` at which the
/// content ends, and the end of the buffer when there is none.
pub proof fn lemma_content_end_least(data: Seq<u8>, delim: Seq<u8>, closing: Seq<u8>, start: int)
    requires
        0 <= start <= data.len(),
    ensures
        start <= content_end(data, delim, closing, start) <= data.len(),
        forall|j: int|
            start <= j < content_end(data, delim, closing, start) ==> !ends_content(
                data,
                delim,
                closing,
                j,
            ),
        content_end(data, delim, closing, start) < data.len() ==> ends_content(
            data,
            delim,
            closing,
            content_end(data, delim, closing, start),
        ),
    decreases data.len() - start,
{
    if start >= data.len() {
    } else if ends_content(data, delim, closing, start) {
    } else {
        lemma_content_end_least(data, delim, closing, start + 1);
    }
}

/// An offset where the content ends, with none between `start` and it, is
/// the one `content_end` returns.
pub proof fn lemma_content_end_is(
    data: Seq<u8>,
    delim: Seq<u8>,
    closing: Seq<u8>,
    start: int,
    at: int,
)
    requires
        0 <= start <= at <= data.len(),
        at < data.len() ==> ends_content(data, delim, closing, at),
        forall|j: int| start <= j < at ==> !ends_content(data, delim, closing, j),
    ensures
        content_end(data, delim, closing, start) == at,
    decreases at - start,
{
    if start < at {
        lemma_content_end_is(data, delim, closing, start + 1, at);
    }
}

/// The bytes of `head` followed by those of `tail`.
pub fn join_bytes(head: &[u8], tail: &[u8]) -> (joined: Vec<u8>)
    ensures
        joined@ == head@ + tail@,
{
    let mut joined: Vec<u8> = Vec::new();
    joined.extend_from_slice(head);
    joined.extend_from_slice(tail);
    joined
}

/// The smaller of an offset and an optional one.
fn earlier(limit: usize, found: Option<usize>) -> (least: usize)
    ensures
        least == match found {
            Some(i) => if i < limit { i } else { limit },
            None => limit,
        },
{
    match found {
        Some(i) => if i < limit { i } else { limit },
        None => limit,
    }
}

/// Where the content that starts at `start` ends: at the first closing
/// delimiter `boundary_end`, or delimiter `boundary_start` that opens a
/// line, whichever comes first; at the end of the buffer if none follows.
pub fn find_body_end_in_bytes(
    data: &[u8],
    start: usize,
    boundary_start: &[u8],
    boundary_end: &[u8],
) -> (end: Option<usize>)
    requires
        start <= data.len(),
    ensures
        offset_of(end) == Some(content_end(data@, boundary_start@, boundary_end@, start as int)),
{
    let cr_lf: [u8; 2] = [13, 10];
    let line_feed: [u8; 1] = [10];
    assert(cr_lf@ =~= crlf());
    assert(line_feed@ =~= lf());
    let after_crlf = join_bytes(cr_lf.as_slice(), boundary_start);
    let after_lf = join_bytes(line_feed.as_slice(), boundary_start);
    let closing = find_from(data, boundary_end, start);
    let next_crlf = find_from(data, after_crlf.as_slice(), start);
    let next_lf = find_from(data, after_lf.as_slice(), start);
    let end = earlier(earlier(earlier(data.len(), closing), next_crlf), next_lf);
    proof {
        lemma_first_match_least(data@, boundary_end@, start as int);
        lemma_first_match_least(data@, after_crlf@, start as int);
        lemma_first_match_least(data@, after_lf@, start as int);
        lemma_content_end_is(data@, boundary_start@, boundary_end@, start as int, end as int);
    }
    Some(end)
}

/// How many bytes before an offset `rel` of a part identify it: the context
/// window, or all of them where the part has fewer.
pub open spec fn window(rel: int) -> int {
    if rel < CONTEXT_WINDOW as int {
        rel
    } else {
        CONTEXT_WINDOW as int
    }
}

/// `pat` stands at `at` in `data`, behind the same bytes that stand before
/// offset `rel` in `part`, as far as the window reaches.
pub open spec fn context_match(
    data: Seq<u8>,
    part: Seq<u8>,
    pat: Seq<u8>,
    rel: int,
    at: int,
) -> bool {
    &&& matches_at(data, pat, at)
    &&& window(rel) <= at
    &&& data.subrange(at - window(rel), at) == part.subrange(rel - window(rel), rel)
}

/// The least offset `at >= from` of `data` with `context_match`, if any.
pub open spec fn first_context_match(
    data: Seq<u8>,
    part: Seq<u8>,
    pat: Seq<u8>,
    rel: int,
    from: int,
) -> Option<int>
    decreases data.len() + 1 - from,
{
    if from < 0 || from + pat.len() > data.len() {
        None
    } else if context_match(data, part, pat, rel, from) {
        Some(from)
    } else {
        first_context_match(data, part, pat, rel, from + 1)
    }
}

/// The offset in `data` just behind the blank line `pat` of `part`: the
/// first occurrence of `pat` in `part` is looked up in `data` by its context.
pub open spec fn located(data: Seq<u8>, part: Seq<u8>, pat: Seq<u8>) -> Option<int> {
    match first_match_from(part, pat, 0) {
        None => None,
        Some(rel) => match first_context_match(data, part, pat, rel, 0) {
            Some(at) => Some(at + pat.len()),
            None => None,
        },
    }
}

/// Where the body of `part` starts in `data`: behind its `\r\n\r\n` where
/// that can be located, else behind its `\n\n`.
pub open spec fn content_start(data: Seq<u8>, part: Seq<u8>) -> Option<int> {
    match located(data, part, crlf_crlf()) {
        Some(start) => Some(start),
        None => located(data, part, lf_lf()),
    }
}

/// An offset with `context_match`, with none between `from` and it, is the
/// one `first_context_match` returns.
pub proof fn lemma_first_context_match_is(
    data: Seq<u8>,
    part: Seq<u8>,
    pat: Seq<u8>,
    rel: int,
    from: int,
    at: int,
)
    requires
        0 <= from <= at,
        context_match(data, part, pat, rel, at),
        forall|j: int| from <= j < at ==> !context_match(data, part, pat, rel, j),
    ensures
        first_context_match(data, part, pat, rel, from) == Some(at),
    decreases at - from,
{
    if from < at {
        lemma_first_context_match_is(data, part, pat, rel, from + 1, at);
    }
}

/// Looks up the first `pat` of `part` in `data` by its context and returns
/// the offset behind it.
fn locate(data: &[u8], part: &[u8], pat: &[u8]) -> (start: Option<usize>)
    ensures
        offset_of(start) == located(data@, part@, pat@),
        start matches Some(offset) ==> offset <= data.len(),
{
    let rel = match find_from(part, pat, 0) {
        Some(rel) => rel,
        None => {
            return None;
        },
    };
    proof {
        lemma_first_match_least(part@, pat@, 0);
    }
    let width: usize = if rel < CONTEXT_WINDOW { rel } else { CONTEXT_WINDOW };
    let context = vstd::slice::slice_subrange(part, rel - width, rel);
    if pat.len() > data.len() {
        return None;
    }
    let last: usize = data.len() - pat.len();
    let mut at: usize = 0;
    loop
        invariant
            at <= last,
            last == data.len() - pat.len(),
            pat.len() <= data.len(),
            first_match_from(part@, pat@, 0) == Some(rel as int),
            rel <= part.len(),
            width == window(rel as int),
            context@ == part@.subrange(rel - width, rel as int),
            first_context_match(data@, part@, pat@, rel as int, 0) == first_context_match(
                data@,
                part@,
                pat@,
                rel as int,
                at as int,
            ),
        decreases last - at,
    {
        if occurs_at(data, pat, at) && width <= at && occurs_at(data, context, at - width) {
            return Some(at + pat.len());
        }
        if at == last {
            assert(first_context_match(data@, part@, pat@, rel as int, at + 1) is None);
            return None;
        }
        at += 1;
    }
}

/// Where the body of `part` starts in `data`. The blank line that ends the
/// part's headers (`\r\n\r\n`, else `\n\n`) is looked up in `data`: among its
/// occurrences there, the first one that stands behind the same bytes as in
/// the part, up to the context window, is taken, and the offset behind it
/// returned. `None` if the part has no blank line that `data` holds so.
pub fn find_body_start_in_bytes(data: &[u8], part: &[u8]) -> (start: Option<usize>)
    ensures
        offset_of(start) == content_start(data@, part@),
        start matches Some(offset) ==> offset <= data.len(),
{
    let canonical: [u8; 4] = [13, 10, 13, 10];
    let lenient: [u8; 2] = [10, 10];
    assert(canonical@ =~= crlf_crlf());
    assert(lenient@ =~= lf_lf());
    match locate(data, part, canonical.as_slice()) {
        Some(start) => Some(start),
        None => locate(data, part, lenient.as_slice()),
    }
}

/// `filename=`, which marks the headers of the file part.
pub open spec fn filename_key() -> Seq<u8> {
    seq![102u8, 105u8, 108u8, 101u8, 110u8, 97u8, 109u8, 101u8, 61u8]
}

/// `filename="`, which opens the file's name.
pub open spec fn filename_open() -> Seq<u8> {
    filename_key() + quote()
}

/// `"`, which closes the file's name.
pub open spec fn quote() -> Seq<u8> {
    seq![34u8]
}

/// `name="sender"`, which marks the headers of the sender field.
pub open spec fn sender_key() -> Seq<u8> {
    seq![110u8, 97u8, 109u8, 101u8, 61u8, 34u8, 115u8, 101u8, 110u8, 100u8, 101u8, 114u8, 34u8]
}

/// Tab, line feed, vertical tab, form feed, carriage return or space.
pub open spec fn ascii_space(byte: u8) -> bool {
    9 <= byte <= 13 || byte == 32
}

/// A part that holds nothing but white space.
pub open spec fn blank(part: Seq<u8>) -> bool {
    forall|i: int| 0 <= i < part.len() ==> ascii_space(#[trigger] part[i])
}

/// A part is inspected unless it is blank or starts with `--`, as what
/// follows the closing delimiter does.
pub open spec fn worth_inspecting(part: Seq<u8>) -> bool {
    !blank(part) && !matches_at(part, dashes(), 0)
}

/// The blank line between the headers and the body of a part, as offset
/// and width: the first `\r\n\r\n`, or without one the first `\n\n`.
pub open spec fn separator_of(part: Seq<u8>) -> Option<(int, int)> {
    match first_match_from(part, crlf_crlf(), 0) {
        Some(at) => Some((at, 4)),
        None => match first_match_from(part, lf_lf(), 0) {
            Some(at) => Some((at, 2)),
            None => None,
        },
    }
}

/// The end of the line that holds offset `from`.
pub open spec fn line_end(headers: Seq<u8>, from: int) -> int {
    match first_match_from(headers, lf(), from) {
        Some(end) => end,
        None => headers.len() as int,
    }
}

/// The file name that the headers give: in the first line that mentions
/// `filename=`, from that mention on, what stands between the first
/// `filename="` and the next `"`.
pub open spec fn filename_in(headers: Seq<u8>) -> Option<Seq<u8>> {
    match first_match_from(headers, filename_key(), 0) {
        None => None,
        Some(mention) => {
            let line = headers.subrange(mention, line_end(headers, mention));
            match first_match_from(line, filename_open(), 0) {
                None => None,
                Some(open) => {
                    let rest = line.subrange(open + filename_open().len(), line.len() as int);
                    match first_match_from(rest, quote(), 0) {
                        None => None,
                        Some(close) => Some(rest.subrange(0, close)),
                    }
                },
            }
        },
    }
}

/// What has been gathered from the parts read so far.
pub struct Scan {
    /// Content of the last file part.
    pub content: Seq<u8>,
    /// The last file name that a file part gave.
    pub filename: Seq<u8>,
    /// Body of the last sender part.
    pub sender: Option<Seq<u8>>,
    /// Some part was inspected.
    pub inspected: bool,
    /// Some inspected part had a blank line.
    pub separated: bool,
}

/// Nothing gathered yet.
pub open spec fn nothing_scanned() -> Scan {
    Scan {
        content: Seq::empty(),
        filename: Seq::empty(),
        sender: None,
        inspected: false,
        separated: false,
    }
}

/// What is gathered after the part `data[lo..hi]`.
///
/// A part that is not worth inspecting changes nothing. One without a
/// blank line is only counted. Of a part with `filename=` in its headers,
/// the name replaces the one gathered where the headers give one, and the
/// content where its start can be located in `data`. Of a part with
/// `name="sender"` the body is kept. Any other part is ignored.
pub open spec fn absorb(data: Seq<u8>, boundary: Seq<u8>, before: Scan, lo: int, hi: int) -> Scan {
    let part = data.subrange(lo, hi);
    if !worth_inspecting(part) {
        before
    } else {
        match separator_of(part) {
            None => Scan { inspected: true, ..before },
            Some((at, width)) => {
                let headers = part.subrange(0, at);
                let body = part.subrange(at + width, part.len() as int);
                let seen = Scan { inspected: true, separated: true, ..before };
                if contains_pattern(headers, filename_key()) {
                    Scan {
                        filename: match filename_in(headers) {
                            Some(name) => name,
                            None => before.filename,
                        },
                        content: match content_start(data, part) {
                            Some(start) => data.subrange(
                                start,
                                content_end(
                                    data,
                                    delimiter(boundary),
                                    terminator(boundary),
                                    start,
                                ),
                            ),
                            None => before.content,
                        },
                        ..seen
                    }
                } else if contains_pattern(headers, sender_key()) {
                    Scan { sender: Some(body), ..seen }
                } else {
                    seen
                }
            },
        }
    }
}

/// What is gathered from the parts of `data` that start at or after
/// `cursor`, on top of `before`. The parts are what stands between one
/// delimiter and the next, found from left to right.
pub open spec fn scan_parts(data: Seq<u8>, boundary: Seq<u8>, before: Scan, cursor: int) -> Scan
    decreases data.len() + 1 - cursor,
    via scan_parts_decreases
{
    match first_match_from(data, delimiter(boundary), cursor) {
        None => absorb(data, boundary, before, cursor, data.len() as int),
        Some(next) => scan_parts(
            data,
            boundary,
            absorb(data, boundary, before, cursor, next),
            next + delimiter(boundary).len(),
        ),
    }
}

#[via_fn]
proof fn scan_parts_decreases(data: Seq<u8>, boundary: Seq<u8>, before: Scan, cursor: int) {
    if cursor >= 0 {
        lemma_first_match_least(data, delimiter(boundary), cursor);
    }
}

/// Why an upload could not be decoded.
#[derive(Debug, Clone, Copy, PartialEq, Eq)]
pub enum DecodeError {
    /// No file part was found, or the file it holds is empty.
    NoFileData,
    /// A file was found, but no name for it.
    NoFilename,
    /// Parts were inspected, and none of them had a blank line between
    /// headers and body.
    MalformedHeaders,
}

impl DecodeError {
    /// The description of the error that is shown to the client.
    pub open spec fn text(self) -> Seq<char> {
        match self {
            DecodeError::NoFileData => "No file data found"@,
            DecodeError::NoFilename => "No filename found"@,
            DecodeError::MalformedHeaders => "Malformed part headers"@,
        }
    }

    /// The description of the error that is shown to the client.
    pub fn message(&self) -> (message: String)
        ensures
            message@ == self.text(),
    {
        match self {
            DecodeError::NoFileData => "No file data found".to_owned(),
            DecodeError::NoFilename => "No filename found".to_owned(),
            DecodeError::MalformedHeaders => "Malformed part headers".to_owned(),
        }
    }
}

/// A decoded upload: the file, its name as the client gave it, and who
/// sent it.
#[derive(Debug, Clone, PartialEq, Eq)]
pub struct DecodedUpload {
    pub file_bytes: Vec<u8>,
    pub filename: String,
    pub sender: String,
}

/// A decoded upload as mathematical values.
pub struct UploadView {
    pub file_bytes: Seq<u8>,
    pub filename: Seq<char>,
    pub sender: Seq<char>,
}

impl View for DecodedUpload {
    type V = UploadView;

    open spec fn view(&self) -> UploadView {
        UploadView { file_bytes: self.file_bytes@, filename: self.filename@, sender: self.sender@ }
    }
}

/// The sender used where the upload names none.
pub open spec fn unknown_sender() -> Seq<char> {
    "Unknown"@
}

/// `--boundary--` as text.
pub open spec fn closing_text(boundary: Seq<char>) -> Seq<char> {
    seq!['-', '-'] + boundary + seq!['-', '-']
}

/// The sender that a sender part's body gives: its text, trimmed, without
/// a closing delimiter at its end, and trimmed again.
pub open spec fn sender_text(body: Seq<u8>, boundary: Seq<char>) -> Seq<char> {
    trimmed(without_trailing(trimmed(text_of(body)), closing_text(boundary)))
}

/// What decoding makes of what was gathered from all parts.
///
/// Without file content the upload is refused: as `MalformedHeaders`
/// where parts were inspected and none had a blank line, else as
/// `NoFileData`. With content but an empty name it is refused as
/// `NoFilename`. The sender defaults to `Unknown`.
pub open spec fn concluded(found: Scan, boundary: Seq<char>) -> Result<UploadView, DecodeError> {
    if found.content.len() == 0 {
        if found.inspected && !found.separated {
            Err(DecodeError::MalformedHeaders)
        } else {
            Err(DecodeError::NoFileData)
        }
    } else if text_of(found.filename).len() == 0 {
        Err(DecodeError::NoFilename)
    } else {
        Ok(
            UploadView {
                file_bytes: found.content,
                filename: text_of(found.filename),
                sender: match found.sender {
                    Some(body) => sender_text(body, boundary),
                    None => unknown_sender(),
                },
            },
        )
    }
}

/// The upload that the body `data` holds under `boundary`.
pub open spec fn decoded(data: Seq<u8>, boundary: Seq<char>) -> Result<UploadView, DecodeError> {
    concluded(scan_parts(data, encode_utf8(boundary), nothing_scanned(), 0), boundary)
}

/// Whether the part holds nothing but white space.
fn is_blank(part: &[u8]) -> (all: bool)
    ensures
        all == blank(part@),
{
    let mut i: usize = 0;
    while i < part.len()
        invariant
            i <= part.len(),
            forall|j: int| 0 <= j < i ==> ascii_space(#[trigger] part@[j]),
        decreases part.len() - i,
    {
        let byte = part[i];
        if !((9 <= byte && byte <= 13) || byte == 32) {
            return false;
        }
        i += 1;
    }
    true
}

/// The blank line between the headers and the body of the part.
fn find_separator(part: &[u8]) -> (found: Option<(usize, usize)>)
    ensures
        match found {
            Some((at, width)) => separator_of(part@) == Some((at as int, width as int)) && at
                + width <= part.len(),
            None => separator_of(part@) is None,
        },
{
    let canonical: [u8; 4] = [13, 10, 13, 10];
    let lenient: [u8; 2] = [10, 10];
    assert(canonical@ =~= crlf_crlf());
    assert(lenient@ =~= lf_lf());
    proof {
        lemma_first_match_least(part@, crlf_crlf(), 0);
        lemma_first_match_least(part@, lf_lf(), 0);
    }
    match search_in_bytes(part, canonical.as_slice()) {
        Some(at) => Some((at, 4)),
        None => match search_in_bytes(part, lenient.as_slice()) {
            Some(at) => Some((at, 2)),
            None => None,
        },
    }
}

/// The file name that the headers give.
fn filename_value(headers: &[u8]) -> (name: Option<Vec<u8>>)
    ensures
        match name {
            Some(bytes) => filename_in(headers@) == Some(bytes@),
            None => filename_in(headers@) is None,
        },
{
    let key: [u8; 9] = [102, 105, 108, 101, 110, 97, 109, 101, 61];
    let opening: [u8; 10] = [102, 105, 108, 101, 110, 97, 109, 101, 61, 34];
    let closing: [u8; 1] = [34];
    let line_feed: [u8; 1] = [10];
    assert(key@ =~= filename_key());
    assert(opening@ =~= filename_open());
    assert(closing@ =~= quote());
    assert(line_feed@ =~= lf());
    let mention = match search_in_bytes(headers, key.as_slice()) {
        Some(mention) => mention,
        None => {
            return None;
        },
    };
    proof {
        lemma_first_match_least(headers@, filename_key(), 0);
        lemma_first_match_least(headers@, lf(), mention as int);
    }
    let end = match find_from(headers, line_feed.as_slice(), mention) {
        Some(end) => end,
        None => headers.len(),
    };
    let line = vstd::slice::slice_subrange(headers, mention, end);
    let open = match search_in_bytes(line, opening.as_slice()) {
        Some(open) => open,
        None => {
            return None;
        },
    };
    proof {
        lemma_first_match_least(line@, filename_open(), 0);
    }
    let rest = vstd::slice::slice_subrange(line, open + 10, line.len());
    let close = match search_in_bytes(rest, closing.as_slice()) {
        Some(close) => close,
        None => {
            return None;
        },
    };
    proof {
        lemma_first_match_least(rest@, quote(), 0);
    }
    Some(vstd::slice::slice_to_vec(vstd::slice::slice_subrange(rest, 0, close)))
}

/// What has been gathered so far, as offsets into the buffer.
struct Findings {
    content: (usize, usize),
    filename: Vec<u8>,
    sender: Option<(usize, usize)>,
    inspected: bool,
    separated: bool,
}

impl Findings {
    /// The offsets lie within `data`.
    spec fn fits(&self, data: Seq<u8>) -> bool {
        &&& self.content.0 <= self.content.1 <= data.len()
        &&& self.sender matches Some(range) ==> range.0 <= range.1 <= data.len()
    }

    /// What the offsets stand for in `data`.
    spec fn scan(&self, data: Seq<u8>) -> Scan {
        Scan {
            content: data.subrange(self.content.0 as int, self.content.1 as int),
            filename: self.filename@,
            sender: match self.sender {
                Some(range) => Some(data.subrange(range.0 as int, range.1 as int)),
                None => None,
            },
            inspected: self.inspected,
            separated: self.separated,
        }
    }
}

/// Gathers what the part `data[lo..hi]` holds.
fn absorb_part(
    data: &[u8],
    delim: &[u8],
    closing: &[u8],
    found: Findings,
    lo: usize,
    hi: usize,
    Ghost(boundary): Ghost<Seq<u8>>,
) -> (after: Findings)
    requires
        lo <= hi <= data.len(),
        found.fits(data@),
        delim@ == delimiter(boundary),
        closing@ == terminator(boundary),
    ensures
        after.fits(data@),
        after.scan(data@) == absorb(data@, boundary, found.scan(data@), lo as int, hi as int),
{
    let part = vstd::slice::slice_subrange(data, lo, hi);
    let two_dashes: [u8; 2] = [45, 45];
    assert(two_dashes@ =~= dashes());
    if is_blank(part) || occurs_at(part, two_dashes.as_slice(), 0) {
        return found;
    }
    let (at, width) = match find_separator(part) {
        Some(separator) => separator,
        None => {
            return Findings { inspected: true, ..found };
        },
    };
    let headers = vstd::slice::slice_subrange(part, 0, at);
    let file_key: [u8; 9] = [102, 105, 108, 101, 110, 97, 109, 101, 61];
    let from_key: [u8; 13] = [110, 97, 109, 101, 61, 34, 115, 101, 110, 100, 101, 114, 34];
    assert(file_key@ =~= filename_key());
    assert(from_key@ =~= sender_key());
    if search_in_bytes(headers, file_key.as_slice()).is_some() {
        let filename = match filename_value(headers) {
            Some(name) => name,
            None => found.filename,
        };
        let content = match find_body_start_in_bytes(data, part) {
            Some(start) => match find_body_end_in_bytes(data, start, delim, closing) {
                Some(end) => {
                    proof {
                        lemma_content_end_least(
                            data@,
                            delimiter(boundary),
                            terminator(boundary),
                            start as int,
                        );
                    }
                    (start, end)
                },
                None => found.content,
            },
            None => found.content,
        };
        Findings { content, filename, sender: found.sender, inspected: true, separated: true }
    } else if search_in_bytes(headers, from_key.as_slice()).is_some() {
        assert(data@.subrange(lo + at + width, hi as int) =~= part@.subrange(
            at + width,
            part@.len() as int,
        ));
        Findings {
            content: found.content,
            filename: found.filename,
            sender: Some((lo + at + width, hi)),
            inspected: true,
            separated: true,
        }
    } else {
        Findings { inspected: true, separated: true, ..found }
    }
}

/// The sender that a sender part's body gives.
fn sender_from(body: &[u8], boundary: &str) -> (sender: String)
    ensures
        sender@ == sender_text(body@, boundary@),
{
    let text = lossy_text(body);
    let chars = to_chars(text.as_str());
    let name = to_chars(boundary);
    let mut marker: Vec<char> = Vec::new();
    marker.push('-');
    marker.push('-');
    marker.extend_from_slice(name.as_slice());
    marker.push('-');
    marker.push('-');
    assert(marker@ =~= closing_text(boundary@));
    assert(chars@.subrange(0, chars@.len() as int) =~= chars@);
    let (lo, hi) = trim_range(chars.as_slice(), 0, chars.len());
    let end = strip_trailing(chars.as_slice(), lo, hi, marker.as_slice());
    let (from, to) = trim_range(chars.as_slice(), lo, end);
    from_chars(chars.as_slice(), from, to)
}

/// Makes the decoded upload, or the refusal, of what was gathered.
fn conclude(data: &[u8], found: Findings, boundary: &str) -> (result: Result<
    DecodedUpload,
    DecodeError,
>)
    requires
        found.fits(data@),
    ensures
        match result {
            Ok(upload) => concluded(found.scan(data@), boundary@) == Ok::<UploadView, DecodeError>(
                upload@,
            ),
            Err(error) => concluded(found.scan(data@), boundary@) == Err::<
                UploadView,
                DecodeError,
            >(error),
        },
{
    if found.content.0 == found.content.1 {
        if found.inspected && !found.separated {
            return Err(DecodeError::MalformedHeaders);
        }
        return Err(DecodeError::NoFileData);
    }
    let filename = lossy_text(found.filename.as_slice());
    if filename.as_str().is_empty() {
        return Err(DecodeError::NoFilename);
    }
    let file_bytes = vstd::slice::slice_to_vec(
        vstd::slice::slice_subrange(data, found.content.0, found.content.1),
    );
    let sender = match found.sender {
        Some((from, to)) => sender_from(vstd::slice::slice_subrange(data, from, to), boundary),
        None => "Unknown".to_owned(),
    };
    Ok(DecodedUpload { file_bytes, filename, sender })
}

/// Decodes a `multipart/form-data` body: the file it uploads, the file's
/// name and the sender.
///
/// `data` is cut at each `--boundary`. The file is taken from the part
/// whose headers mention `filename=`, the sender from the part whose
/// headers hold `name="sender"`; other parts are ignored. Where several
/// parts offer the same thing, the last one counts.
pub fn parse_multipart_data(data: &[u8], boundary: &str) -> (result: Result<
    DecodedUpload,
    DecodeError,
>)
    ensures
        match result {
            Ok(upload) => decoded(data@, boundary@) == Ok::<UploadView, DecodeError>(upload@),
            Err(error) => decoded(data@, boundary@) == Err::<UploadView, DecodeError>(error),
        },
{
    let two_dashes: [u8; 2] = [45, 45];
    assert(two_dashes@ =~= dashes());
    let delim = join_bytes(two_dashes.as_slice(), boundary.as_bytes());
    let closing = join_bytes(delim.as_slice(), two_dashes.as_slice());
    let ghost name = encode_utf8(boundary@);
    let mut found = Findings {
        content: (0, 0),
        filename: Vec::new(),
        sender: None,
        inspected: false,
        separated: false,
    };
    assert(data@.subrange(0, 0) =~= Seq::<u8>::empty());
    assert(found.scan(data@) == nothing_scanned());
    let mut cursor: usize = 0;
    loop
        invariant
            cursor <= data.len(),
            found.fits(data@),
            name == encode_utf8(boundary@),
            delim@ == delimiter(name),
            closing@ == terminator(name),
            scan_parts(data@, name, nothing_scanned(), 0) == scan_parts(
                data@,
                name,
                found.scan(data@),
                cursor as int,
            ),
        decreases data.len() - cursor,
    {
        proof {
            lemma_first_match_least(data@, delim@, cursor as int);
        }
        match find_from(data, delim.as_slice(), cursor) {
            None => {
                found =
                absorb_part(
                    data,
                    delim.as_slice(),
                    closing.as_slice(),
                    found,
                    cursor,
                    data.len(),
                    Ghost(name),
                );
                return conclude(data, found, boundary);
            },
            Some(next) => {
                found =
                absorb_part(
                    data,
                    delim.as_slice(),
                    closing.as_slice(),
                    found,
                    cursor,
                    next,
                    Ghost(name),
                );
                cursor = next + delim.len();
            },
        }
    }
}

} // verus!
