//! Plain uploads: bodies with no more headers than are needed, as a
//! form with a file and a sender field is sent, and the proof that decoding
//! returns what was sent.

use vstd::prelude::*;
use vstd::utf8::encode_utf8;
use crate::bytes::{
    contains_pattern, first_match_from, lemma_first_match_is, lemma_first_match_least,
    lemma_first_match_none, lemma_match_bytes, lemma_match_in_piece, matches_at,
};
use crate::form::{
    blank_line_ends, closing_delimiter, delimited, form_body, lemma_form_layout,
    lemma_part_shape, lemma_sender_first_upload_decodes, lemma_well_formed_upload_decodes,
    part_bytes, second_delimiter, told_apart, usable_boundary,
};
use crate::multipart::{
    closing_text, context_match, crlf, crlf_crlf, dashes, decoded, delimiter, filename_in,
    filename_key, filename_open, lf, line_end, quote, sender_key, sender_text, DecodeError,
    UploadView,
};
use crate::text::{
    ends_with, is_whitespace, lemma_text_of_line, lemma_trimmed_twice, lemma_trimmed_with_space,
    trimmed,
};

verus! {

/// `Content-Disposition: form-data; name="file"; filename="`, which
/// opens the headers of a file part.
pub open spec fn file_disposition() -> Seq<u8> {
    seq![
        67u8, 111u8, 110u8, 116u8, 101u8, 110u8, 116u8, 45u8, 68u8, 105u8,
        115u8, 112u8, 111u8, 115u8, 105u8, 116u8, 105u8, 111u8, 110u8, 58u8,
        32u8, 102u8, 111u8, 114u8, 109u8, 45u8, 100u8, 97u8, 116u8, 97u8,
        59u8, 32u8, 110u8, 97u8, 109u8, 101u8, 61u8, 34u8, 102u8, 105u8,
        108u8, 101u8, 34u8, 59u8, 32u8, 102u8, 105u8, 108u8, 101u8, 110u8,
        97u8, 109u8, 101u8, 61u8, 34u8,
    ]
}

/// `Content-Disposition: form-data; name="sender"`, the headers of a
/// sender part.
pub open spec fn sender_disposition() -> Seq<u8> {
    seq![
        67u8, 111u8, 110u8, 116u8, 101u8, 110u8, 116u8, 45u8, 68u8, 105u8,
        115u8, 112u8, 111u8, 115u8, 105u8, 116u8, 105u8, 111u8, 110u8, 58u8,
        32u8, 102u8, 111u8, 114u8, 109u8, 45u8, 100u8, 97u8, 116u8, 97u8,
        59u8, 32u8, 110u8, 97u8, 109u8, 101u8, 61u8, 34u8, 115u8, 101u8,
        110u8, 100u8, 101u8, 114u8, 34u8,
    ]
}

/// The headers of a file part that names its file `name`.
pub open spec fn file_headers_for(name: Seq<u8>) -> Seq<u8> {
    file_disposition() + name + quote()
}

/// The body of an upload of the file `payload` under the name `name`, sent
/// by `sender`, with no more headers than are needed.
pub open spec fn plain_body(
    boundary: Seq<u8>,
    name: Seq<u8>,
    payload: Seq<u8>,
    sender: Seq<u8>,
) -> Seq<u8> {
    form_body(boundary, file_headers_for(name), payload, sender_disposition(), sender)
}

/// A name that can stand between double quotes on one line.
pub open spec fn quotable(name: Seq<u8>) -> bool {
    forall|k: int| 0 <= k < name.len() ==> name[k] != 10 && name[k] != 34
}

/// Headers of two bytes or more without a line feed hold no blank line.
proof fn lemma_single_line_headers(headers: Seq<u8>)
    requires
        headers.len() >= 2,
        forall|k: int| 0 <= k < headers.len() ==> headers[k] != 10,
    ensures
        blank_line_ends(headers),
{
    let shown = crlf() + headers + crlf_crlf();
    let at = 2 + headers.len() as int;
    assert(shown.subrange(at, at + 4) =~= crlf_crlf());
    assert forall|j: int| 0 <= j < at implies !matches_at(shown, crlf_crlf(), j) by {
        if matches_at(shown, crlf_crlf(), j) {
            lemma_match_bytes(shown, crlf_crlf(), j, 1);
            lemma_match_bytes(shown, crlf_crlf(), j, 3);
            if j + 1 >= 2 && j + 1 < at {
                assert(shown[j + 1] == headers[j + 1 - 2]);
            }
            if j + 3 >= 2 && j + 3 < at {
                assert(shown[j + 3] == headers[j + 3 - 2]);
            }
        }
    }
    lemma_first_match_is(shown, crlf_crlf(), 0, at);
}

/// In headers that open as those of a file part do, `filename=` is first
/// mentioned where the name of the file begins.
proof fn lemma_file_disposition_mention(rest: Seq<u8>)
    ensures
        first_match_from(crlf() + file_disposition() + rest, filename_key(), 0) == Some(47int),
        matches_at(crlf() + file_disposition() + rest, filename_open(), 47),
        forall|k: int| 0 <= k < 55 ==> file_disposition()[k] != 10,
{
    let shown = crlf() + file_disposition() + rest;
    let lead = crlf() + file_disposition();
    assert(lead.len() == 57);
    assert(shown.subrange(0, 57) =~= lead);
    assert(lead.subrange(47, 57) =~= filename_open());
    assert(lead.subrange(47, 56) =~= filename_key());
    lemma_match_in_piece(shown, 0, 57, filename_open(), 47);
    lemma_match_in_piece(shown, 0, 57, filename_key(), 47);
    assert forall|j: int| 0 <= j < 47 implies !matches_at(shown, filename_key(), j) by {
        if matches_at(shown, filename_key(), j) {
            lemma_match_bytes(shown, filename_key(), j, 0);
            lemma_match_bytes(shown, filename_key(), j, 1);
            lemma_match_bytes(shown, filename_key(), j, 4);
            assert(shown[j] == lead[j]);
            assert(shown[j + 1] == lead[j + 1]);
            assert(shown[j + 4] == lead[j + 4]);
            assert(lead[j] == 102u8 ==> j == 23 || j == 40);
        }
    }
    lemma_first_match_is(shown, filename_key(), 0, 47);
}

/// The headers of a file part that names its file `name` give that name,
/// and hold no blank line.
pub proof fn lemma_file_headers_give_name(name: Seq<u8>)
    requires
        quotable(name),
    ensures
        blank_line_ends(file_headers_for(name)),
        filename_in(crlf() + file_headers_for(name)) == Some(name),
{
    let headers = file_headers_for(name);
    let tail = name + quote();
    let shown = crlf() + headers;
    lemma_file_disposition_mention(tail);
    assert(shown =~= crlf() + file_disposition() + tail);
    assert forall|k: int| 0 <= k < headers.len() implies headers[k] != 10 by {
        if k < 55 {
            assert(headers[k] == file_disposition()[k]);
        } else if k < 55 + name.len() {
            assert(headers[k] == name[k - 55]);
        }
    }
    lemma_single_line_headers(headers);

    // The line of the mention runs to the end of the headers.
    assert forall|j: int| 47 <= j implies !matches_at(shown, lf(), j) by {
        if matches_at(shown, lf(), j) {
            lemma_match_bytes(shown, lf(), j, 0);
            assert(shown[j] == headers[j - 2]);
        }
    }
    lemma_first_match_none(shown, lf(), 47);
    assert(line_end(shown, 47) == shown.len());
    let line = shown.subrange(47, shown.len() as int);
    assert(line =~= filename_open() + tail);
    assert(line.subrange(0, 10) =~= filename_open());
    assert(first_match_from(line, filename_open(), 0) == Some(0int));

    // The name runs to the closing quote.
    let rest = line.subrange(10, line.len() as int);
    assert(rest =~= tail);
    assert(rest.subrange(name.len() as int, name.len() as int + 1) =~= quote());
    assert forall|j: int| 0 <= j < name.len() implies !matches_at(rest, quote(), j) by {
        if matches_at(rest, quote(), j) {
            lemma_match_bytes(rest, quote(), j, 0);
        }
    }
    lemma_first_match_is(rest, quote(), 0, name.len() as int);
    assert(rest.subrange(0, name.len() as int) =~= name);
}

/// The headers of a sender part name the field `sender`, mention no file
/// name, and hold no blank line.
pub proof fn lemma_sender_headers_name_field()
    ensures
        blank_line_ends(sender_disposition()),
        !contains_pattern(crlf() + sender_disposition(), filename_key()),
        contains_pattern(crlf() + sender_disposition(), sender_key()),
{
    let headers = sender_disposition();
    let shown = crlf() + headers;
    assert(shown.len() == 47);
    lemma_single_line_headers(headers);
    assert forall|j: int| 0 <= j implies !matches_at(shown, filename_key(), j) by {
        if matches_at(shown, filename_key(), j) {
            lemma_match_bytes(shown, filename_key(), j, 0);
            lemma_match_bytes(shown, filename_key(), j, 1);
            assert(shown[j] == 102u8 ==> j == 23);
        }
    }
    lemma_first_match_none(shown, filename_key(), 0);
    assert(shown.subrange(34, 47) =~= sender_key());
    assert(matches_at(shown, sender_key(), 34));
    lemma_first_match_least(shown, sender_key(), 0);
}

/// Decoding returns what a plain upload holds: the file, byte for byte
/// and whatever its bytes are; its name; and the sender as the body of the
/// sender part gives it.
pub proof fn lemma_plain_upload_decodes(
    boundary: Seq<char>,
    filename: Seq<char>,
    payload: Seq<u8>,
    sender: Seq<u8>,
)
    requires
        usable_boundary(encode_utf8(boundary)),
        filename.len() > 0,
        quotable(encode_utf8(filename)),
        payload.len() > 0,
        delimited(
            part_bytes(file_headers_for(encode_utf8(filename)), payload),
            encode_utf8(boundary),
        ),
        delimited(part_bytes(sender_disposition(), sender), encode_utf8(boundary)),
    ensures
        decoded(
            plain_body(encode_utf8(boundary), encode_utf8(filename), payload, sender),
            boundary,
        ) == Ok::<UploadView, DecodeError>(
            UploadView {
                file_bytes: payload,
                filename,
                sender: sender_text(sender + crlf(), boundary),
            },
        ),
{
    lemma_file_headers_give_name(encode_utf8(filename));
    lemma_sender_headers_name_field();
    lemma_well_formed_upload_decodes(
        boundary,
        file_headers_for(encode_utf8(filename)),
        filename,
        payload,
        sender_disposition(),
        sender,
    );
}

/// Decoding returns what was uploaded: for a plain upload of a file
/// under a name, sent by a sender given as text, the file comes back byte
/// for byte, whatever its bytes are, with its name and with the sender
/// trimmed.
pub proof fn lemma_plain_upload_round_trip(
    boundary: Seq<char>,
    filename: Seq<char>,
    payload: Seq<u8>,
    sender: Seq<char>,
)
    requires
        usable_boundary(encode_utf8(boundary)),
        filename.len() > 0,
        quotable(encode_utf8(filename)),
        payload.len() > 0,
        delimited(
            part_bytes(file_headers_for(encode_utf8(filename)), payload),
            encode_utf8(boundary),
        ),
        delimited(
            part_bytes(sender_disposition(), encode_utf8(sender)),
            encode_utf8(boundary),
        ),
        !ends_with(trimmed(sender), closing_text(boundary)),
    ensures
        decoded(
            plain_body(
                encode_utf8(boundary),
                encode_utf8(filename),
                payload,
                encode_utf8(sender),
            ),
            boundary,
        ) == Ok::<UploadView, DecodeError>(
            UploadView { file_bytes: payload, filename, sender: trimmed(sender) },
        ),
{
    lemma_plain_upload_decodes(boundary, filename, payload, encode_utf8(sender));
    let line_break = seq!['\r', '\n'];
    lemma_text_of_line(sender);
    assert(crlf() =~= seq![13u8, 10u8]);
    assert(is_whitespace('\r') && is_whitespace('\n'));
    lemma_trimmed_with_space(sender, line_break);
    lemma_trimmed_twice(sender);
}

/// The body of a plain upload in which the sender is named before the
/// file.
pub open spec fn plain_body_sender_first(
    boundary: Seq<u8>,
    sender: Seq<u8>,
    name: Seq<u8>,
    payload: Seq<u8>,
) -> Seq<u8> {
    form_body(boundary, sender_disposition(), sender, file_headers_for(name), payload)
}

/// A sender that stands on one line.
pub open spec fn single_line(sender: Seq<u8>) -> bool {
    forall|k: int| 0 <= k < sender.len() ==> sender[k] != 10
}

/// Where the line feeds of a sender part stand: behind its first line
/// break, in its blank line, and at its end.
proof fn lemma_sender_part_line_feeds(sender: Seq<u8>, at: int)
    requires
        single_line(sender),
        0 <= at < part_bytes(sender_disposition(), sender).len(),
        part_bytes(sender_disposition(), sender)[at] == 10,
    ensures
        at == 1 || at == 48 || at == 50 || at == 52 + sender.len(),
{
    let part = part_bytes(sender_disposition(), sender);
    let headers = sender_disposition();
    assert(headers.len() == 45);
    if 2 <= at < 47 {
        assert(part[at] == headers[at - 2]);
    } else if 51 <= at < 51 + sender.len() {
        assert(part[at] == sender[at - 51]);
    }
}

/// The bytes in front of the blank line of a plain file part differ from
/// those in front of the blank line of a plain sender part.
proof fn lemma_disposition_contexts_differ(name: Seq<u8>)
    requires
        quotable(name),
    ensures
        (crlf() + file_headers_for(name)).subrange(
            file_headers_for(name).len() - 18,
            file_headers_for(name).len() as int + 2,
        ) != (crlf() + sender_disposition()).subrange(27, 47),
{
    let file = crlf() + file_headers_for(name);
    let sender = crlf() + sender_disposition();
    let end = 2 + file_headers_for(name).len() as int;
    let ours = file.subrange(end - 20, end);
    let theirs = sender.subrange(27, 47);
    assert(end == 58 + name.len());
    if name.len() >= 7 {
        assert(ours[12] == file[end - 8]);
        assert(file[end - 8] == name[name.len() - 7]);
        assert(theirs[12] == sender[39]);
        assert(sender[39] == 34u8);
    } else {
        assert(ours[0] == file[end - 20]);
        assert(file[end - 20] == file_disposition()[end - 22]);
        assert(theirs[0] == sender[27]);
        assert(sender[27] == 45u8);
    }
}

/// Where line feeds stand in a plain body up to the headers of the file
/// part, when the sender is named first: in the sender part, and behind
/// the delimiter that follows it.
proof fn lemma_line_feeds_before_file(
    body: Seq<u8>,
    boundary: Seq<u8>,
    sender: Seq<u8>,
    at: int,
)
    requires
        usable_boundary(boundary),
        single_line(sender),
        ({
            let width = delimiter(boundary).len() as int;
            let second = width + part_bytes(sender_disposition(), sender).len();
            &&& second + width + 3 <= body.len()
            &&& body.subrange(0, width) == delimiter(boundary)
            &&& body.subrange(width, second) == part_bytes(sender_disposition(), sender)
            &&& body.subrange(second, second + width) == delimiter(boundary)
            &&& body[second + width] == 13
            &&& body[second + width + 1] == 10
            &&& body[second + width + 2] != 10
            &&& 0 <= at < second + width + 3
        }),
        body[at] == 10,
    ensures
        ({
            let width = delimiter(boundary).len() as int;
            let second = width + part_bytes(sender_disposition(), sender).len();
            ||| at == width + 1
            ||| at == width + 48
            ||| at == width + 50
            ||| at == width + 52 + sender.len()
            ||| at == second + width + 1
        }),
{
    let delim = delimiter(boundary);
    let width = delim.len() as int;
    let part = part_bytes(sender_disposition(), sender);
    let second = width + part.len();
    if at < width {
        assert(body.subrange(0, width)[at] == body[at]);
        assert(delim[at] == if at < 2 {
            dashes()[at]
        } else {
            boundary[at - 2]
        });
    } else if at < second {
        assert(body.subrange(width, second)[at - width] == body[at]);
        lemma_sender_part_line_feeds(sender, at - width);
    } else if at < second + width {
        assert(body.subrange(second, second + width)[at - second] == body[at]);
        assert(delim[at - second] == if at - second < 2 {
            dashes()[at - second]
        } else {
            boundary[at - second - 2]
        });
    }
}

/// In a plain body in which a sender on one line is named before the
/// file, the blank line of the file part is told apart.
proof fn lemma_plain_sender_first_told_apart(
    boundary: Seq<u8>,
    sender: Seq<u8>,
    name: Seq<u8>,
    payload: Seq<u8>,
)
    requires
        usable_boundary(boundary),
        single_line(sender),
        quotable(name),
    ensures
        told_apart(
            plain_body_sender_first(boundary, sender, name, payload),
            part_bytes(file_headers_for(name), payload),
            second_delimiter(boundary, sender_disposition(), sender) + delimiter(
                boundary,
            ).len(),
        ),
{
    let headers = file_headers_for(name);
    let body = plain_body_sender_first(boundary, sender, name, payload);
    let delim = delimiter(boundary);
    let width = delim.len() as int;
    let first = part_bytes(sender_disposition(), sender);
    let part = part_bytes(headers, payload);
    let second = second_delimiter(boundary, sender_disposition(), sender);
    let closing = closing_delimiter(boundary, sender_disposition(), sender, headers, payload);
    let lo = second + width;
    let rel = 2 + headers.len() as int;
    lemma_form_layout(boundary, sender_disposition(), sender, headers, payload);
    lemma_file_headers_give_name(name);
    lemma_part_shape(headers, payload);
    lemma_first_match_least(part, crlf_crlf(), 0);
    lemma_disposition_contexts_differ(name);
    assert(first.len() == 53 + sender.len());
    assert(body[lo] == 13 && body[lo + 1] == 10 && body[lo + 2] != 10) by {
        assert(body.subrange(lo, closing)[0] == body[lo]);
        assert(body.subrange(lo, closing)[1] == body[lo + 1]);
        assert(body.subrange(lo, closing)[2] == body[lo + 2]);
        assert(part[2] == headers[0]);
        assert(headers[0] == file_disposition()[0]);
    }
    assert(body.subrange(second, second + width) == delim);
    assert forall|j: int| 0 <= j < lo + rel implies !context_match(
        body,
        part,
        crlf_crlf(),
        rel,
        j,
    ) by {
        if matches_at(body, crlf_crlf(), j) {
            if j >= lo {
                lemma_match_in_piece(body, lo, closing, crlf_crlf(), j - lo);
            } else {
                lemma_match_bytes(body, crlf_crlf(), j, 1);
                lemma_match_bytes(body, crlf_crlf(), j, 3);
                lemma_line_feeds_before_file(body, boundary, sender, j + 1);
                lemma_line_feeds_before_file(body, boundary, sender, j + 3);
                let ours = part.subrange(rel - 20, rel);
                let theirs = body.subrange(j - 20, j);
                if j == width + 47 {
                    assert(theirs =~= first.subrange(27, 47));
                    assert(first.subrange(27, 47) =~= (crlf() + sender_disposition()).subrange(
                        27,
                        47,
                    ));
                    assert(ours =~= (crlf() + headers).subrange(rel - 20, rel));
                } else {
                    assert(j == width + 49);
                    assert(theirs[19] == body[j - 1]);
                    assert(body.subrange(width, second)[48] == body[j - 1]);
                    assert(ours[19] == part[rel - 1]);
                    assert(part[rel - 1] == headers[headers.len() - 1]);
                }
            }
        }
    }
}

/// Decoding returns what a plain upload holds, also where a sender on one
/// line is named before the file.
pub proof fn lemma_plain_upload_sender_first_decodes(
    boundary: Seq<char>,
    sender: Seq<u8>,
    filename: Seq<char>,
    payload: Seq<u8>,
)
    requires
        usable_boundary(encode_utf8(boundary)),
        single_line(sender),
        filename.len() > 0,
        quotable(encode_utf8(filename)),
        payload.len() > 0,
        delimited(part_bytes(sender_disposition(), sender), encode_utf8(boundary)),
        delimited(
            part_bytes(file_headers_for(encode_utf8(filename)), payload),
            encode_utf8(boundary),
        ),
    ensures
        decoded(
            plain_body_sender_first(
                encode_utf8(boundary),
                sender,
                encode_utf8(filename),
                payload,
            ),
            boundary,
        ) == Ok::<UploadView, DecodeError>(
            UploadView {
                file_bytes: payload,
                filename,
                sender: sender_text(sender + crlf(), boundary),
            },
        ),
{
    lemma_file_headers_give_name(encode_utf8(filename));
    lemma_sender_headers_name_field();
    lemma_plain_sender_first_told_apart(
        encode_utf8(boundary),
        sender,
        encode_utf8(filename),
        payload,
    );
    lemma_sender_first_upload_decodes(
        boundary,
        sender_disposition(),
        sender,
        file_headers_for(encode_utf8(filename)),
        filename,
        payload,
    );
}

/// Decoding returns what was uploaded, also where the sender is named
/// before the file: the file comes back byte for byte, whatever its bytes
/// are, with its name and with the sender trimmed.
pub proof fn lemma_plain_upload_sender_first_round_trip(
    boundary: Seq<char>,
    sender: Seq<char>,
    filename: Seq<char>,
    payload: Seq<u8>,
)
    requires
        usable_boundary(encode_utf8(boundary)),
        single_line(encode_utf8(sender)),
        filename.len() > 0,
        quotable(encode_utf8(filename)),
        payload.len() > 0,
        delimited(
            part_bytes(sender_disposition(), encode_utf8(sender)),
            encode_utf8(boundary),
        ),
        delimited(
            part_bytes(file_headers_for(encode_utf8(filename)), payload),
            encode_utf8(boundary),
        ),
        !ends_with(trimmed(sender), closing_text(boundary)),
    ensures
        decoded(
            plain_body_sender_first(
                encode_utf8(boundary),
                encode_utf8(sender),
                encode_utf8(filename),
                payload,
            ),
            boundary,
        ) == Ok::<UploadView, DecodeError>(
            UploadView { file_bytes: payload, filename, sender: trimmed(sender) },
        ),
{
    lemma_plain_upload_sender_first_decodes(boundary, encode_utf8(sender), filename, payload);
    let line_break = seq!['\r', '\n'];
    lemma_text_of_line(sender);
    assert(crlf() =~= seq![13u8, 10u8]);
    assert(is_whitespace('\r') && is_whitespace('\n'));
    lemma_trimmed_with_space(sender, line_break);
    lemma_trimmed_twice(sender);
}

} // verus!
