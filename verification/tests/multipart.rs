use message_share::bytes::search_in_bytes;
use message_share::multipart::{
    find_body_end_in_bytes, find_body_start_in_bytes, parse_multipart_data, DecodeError,
    DecodedUpload,
};

fn join(parts: &[&[u8]]) -> Vec<u8> {
    let mut body: Vec<u8> = Vec::new();
    for part in parts {
        body.extend_from_slice(part);
    }
    body
}

fn png_body() -> Vec<u8> {
    join(&[
        b"--XYZ\r\nContent-Disposition: form-data; name=\"file\"; filename=\"a.png\"\r\n\r\n",
        &[0x89, 0x50, 0x4E],
        b"\r\n--XYZ--",
    ])
}

fn upload(file: &[u8], name: &str, sender: &str) -> DecodedUpload {
    DecodedUpload {
        file_bytes: file.to_vec(),
        filename: name.to_string(),
        sender: sender.to_string(),
    }
}

#[test]
fn decodes_three_byte_png() {
    let decoded = parse_multipart_data(&png_body(), "XYZ");
    assert_eq!(decoded, Ok(upload(&[0x89, 0x50, 0x4E], "a.png", "Unknown")));
}

#[test]
fn file_then_sender_round_trip() {
    let payload: Vec<u8> = vec![0, 159, 146, 150, 255, 13, 10, 45, 45, 0xC3, 0x28, 10, 10];
    let body = join(&[
        b"--b7\r\nContent-Disposition: form-data; name=\"file\"; filename=\"raw.bin\"\r\n",
        b"Content-Type: application/octet-stream\r\n\r\n",
        &payload,
        b"\r\n--b7\r\nContent-Disposition: form-data; name=\"sender\"\r\n\r\nAlice\r\n--b7--\r\n",
    ]);
    assert_eq!(parse_multipart_data(&body, "b7"), Ok(upload(&payload, "raw.bin", "Alice")));
}

#[test]
fn sender_then_file_round_trip() {
    let payload: Vec<u8> = (0u8..=255).collect();
    let body = join(&[
        b"--b7\r\nContent-Disposition: form-data; name=\"sender\"\r\n\r\n  Bob \r\n",
        b"--b7\r\nContent-Disposition: form-data; name=\"file\"; filename=\"all.bytes\"\r\n\r\n",
        &payload,
        b"\r\n--b7--\r\n",
    ]);
    assert_eq!(parse_multipart_data(&body, "b7"), Ok(upload(&payload, "all.bytes", "Bob")));
}

#[test]
fn bare_line_feeds_are_accepted() {
    let body = b"--q\nContent-Disposition: form-data; name=\"f\"; filename=\"n.txt\"\n\nhello\n--q--\n";
    assert_eq!(parse_multipart_data(body, "q"), Ok(upload(b"hello", "n.txt", "Unknown")));
}

#[test]
fn content_without_line_break_ends_at_closing_delimiter() {
    let body = b"--q\r\nContent-Disposition: form-data; filename=\"n.txt\"\r\n\r\nhello--q--";
    assert_eq!(parse_multipart_data(body, "q"), Ok(upload(b"hello", "n.txt", "Unknown")));
}

#[test]
fn content_without_any_delimiter_runs_to_the_end() {
    let body = b"--q\r\nContent-Disposition: form-data; filename=\"n.txt\"\r\n\r\nhello";
    assert_eq!(parse_multipart_data(body, "q"), Ok(upload(b"hello", "n.txt", "Unknown")));
}

#[test]
fn other_fields_are_ignored() {
    let body = join(&[
        b"--q\r\nContent-Disposition: form-data; name=\"note\"\r\n\r\nhi\r\n",
        b"--q\r\nContent-Disposition: form-data; name=\"file\"; filename=\"n.txt\"\r\n\r\nabc\r\n",
        b"--q--\r\n",
    ]);
    assert_eq!(parse_multipart_data(&body, "q"), Ok(upload(b"abc", "n.txt", "Unknown")));
}

#[test]
fn empty_body_has_no_file() {
    assert_eq!(parse_multipart_data(b"", "XYZ"), Err(DecodeError::NoFileData));
}

#[test]
fn sender_alone_has_no_file() {
    let body = b"--q\r\nContent-Disposition: form-data; name=\"sender\"\r\n\r\nAlice\r\n--q--\r\n";
    assert_eq!(parse_multipart_data(body, "q"), Err(DecodeError::NoFileData));
}

#[test]
fn empty_file_has_no_data() {
    let body = b"--q\r\nContent-Disposition: form-data; filename=\"n.txt\"\r\n\r\n\r\n--q--\r\n";
    assert_eq!(parse_multipart_data(body, "q"), Err(DecodeError::NoFileData));
}

#[test]
fn unquoted_filename_is_no_filename() {
    let body = b"--q\r\nContent-Disposition: form-data; filename=n.txt\r\n\r\nabc\r\n--q--\r\n";
    assert_eq!(parse_multipart_data(body, "q"), Err(DecodeError::NoFilename));
}

#[test]
fn empty_filename_is_no_filename() {
    let body = b"--q\r\nContent-Disposition: form-data; filename=\"\"\r\n\r\nabc\r\n--q--\r\n";
    assert_eq!(parse_multipart_data(body, "q"), Err(DecodeError::NoFilename));
}

#[test]
fn parts_without_blank_line_are_malformed() {
    let body = b"--q\r\nContent-Disposition: form-data; filename=\"n.txt\"\r\nabc\r\n--q--\r\n";
    assert_eq!(parse_multipart_data(body, "q"), Err(DecodeError::MalformedHeaders));
}

#[test]
fn error_messages() {
    assert_eq!(DecodeError::NoFileData.message(), "No file data found");
    assert_eq!(DecodeError::NoFilename.message(), "No filename found");
    assert_eq!(DecodeError::MalformedHeaders.message(), "Malformed part headers");
}

#[test]
fn invalid_utf8_in_names_is_replaced() {
    let body = join(&[
        b"--q\r\nContent-Disposition: form-data; filename=\"a",
        &[0xFF],
        b".bin\"\r\n\r\nabc\r\n--q\r\nContent-Disposition: form-data; name=\"sender\"\r\n\r\n",
        &[0xC3],
        b"x\r\n--q--\r\n",
    ]);
    assert_eq!(
        parse_multipart_data(&body, "q"),
        Ok(upload(b"abc", "a\u{FFFD}.bin", "\u{FFFD}x"))
    );
}

#[test]
fn sender_is_trimmed_of_unicode_white_space() {
    let body = join(&[
        b"--q\r\nContent-Disposition: form-data; filename=\"n\"\r\n\r\nabc\r\n",
        b"--q\r\nContent-Disposition: form-data; name=\"sender\"\r\n\r\n",
        "\u{3000}\u{a0} Carol D \u{2003}\u{85}\t".as_bytes(),
        b"\r\n--q--\r\n",
    ]);
    assert_eq!(parse_multipart_data(&body, "q"), Ok(upload(b"abc", "n", "Carol D")));
}

#[test]
fn last_file_part_counts() {
    let body = join(&[
        b"--q\r\nContent-Disposition: form-data; name=\"a\"; filename=\"one.txt\"\r\n\r\nfirst\r\n",
        b"--q\r\nContent-Disposition: form-data; name=\"b\"; filename=\"two.txt\"\r\n\r\nsecond\r\n",
        b"--q--\r\n",
    ]);
    assert_eq!(parse_multipart_data(&body, "q"), Ok(upload(b"second", "two.txt", "Unknown")));
}

#[test]
fn search_finds_first_occurrence() {
    assert_eq!(search_in_bytes(b"abcabc", b"bc"), Some(1));
    assert_eq!(search_in_bytes(b"abcabc", b"abcabc"), Some(0));
    assert_eq!(search_in_bytes(b"abcabc", b"cb"), None);
    assert_eq!(search_in_bytes(b"abc", b""), None);
    assert_eq!(search_in_bytes(b"ab", b"abc"), None);
    assert_eq!(search_in_bytes(b"", b"a"), None);
}

#[test]
fn body_end_is_nearest_marker() {
    let data = b"abc\r\n--q\r\nrest\r\n--q--";
    assert_eq!(find_body_end_in_bytes(data, 0, b"--q", b"--q--"), Some(3));
    assert_eq!(find_body_end_in_bytes(data, 4, b"--q", b"--q--"), Some(4));
    assert_eq!(find_body_end_in_bytes(data, 5, b"--q", b"--q--"), Some(14));
    assert_eq!(find_body_end_in_bytes(data, 16, b"--q", b"--q--"), Some(16));
    assert_eq!(find_body_end_in_bytes(data, 17, b"--q", b"--q--"), Some(data.len()));
    assert_eq!(find_body_end_in_bytes(data, data.len(), b"--q", b"--q--"), Some(data.len()));
    assert_eq!(find_body_end_in_bytes(b"xy--q--", 0, b"--q", b"--q--"), Some(2));
    assert_eq!(find_body_end_in_bytes(b"xy--q", 0, b"--q", b"--q--"), Some(5));
}

#[test]
fn body_start_follows_blank_line() {
    let data = b"--q\r\nA: b\r\n\r\nbody";
    assert_eq!(find_body_start_in_bytes(data, &data[3..]), Some(13));
    assert_eq!(find_body_start_in_bytes(data, b"no blank line"), None);
    let lenient = b"--q\nA: b\n\nbody";
    assert_eq!(find_body_start_in_bytes(lenient, &lenient[3..]), Some(10));
}

#[test]
fn body_start_is_told_apart_by_context() {
    let data = b"--q\r\nX: 1\r\n\r\none\r\n--q\r\nY: 2\r\n\r\ntwo\r\n--q--";
    let second = &data[21..36];
    assert_eq!(second, b"\r\nY: 2\r\n\r\ntwo\r\n");
    assert_eq!(find_body_start_in_bytes(data, second), Some(31));
    assert_eq!(find_body_start_in_bytes(data, b"\r\nZ: 3\r\n\r\n"), None);
}

#[test]
fn body_start_takes_first_of_equal_contexts() {
    let data = b"--q\r\nX: 1\r\n\r\none\r\n--q\r\nX: 1\r\n\r\ntwo\r\n--q--";
    let second = &data[21..36];
    assert_eq!(find_body_start_in_bytes(data, second), Some(13));
}

fn contains(hay: &[u8], needle: &[u8]) -> bool {
    hay.windows(needle.len()).any(|window| window == needle)
}

fn generated(seed: u64, len: usize) -> Vec<u8> {
    let mut state = seed;
    let mut bytes = Vec::with_capacity(len);
    for _ in 0..len {
        state = state.wrapping_mul(6364136223846793005).wrapping_add(1442695040888963407);
        let pick = (state >> 33) as u8;
        // Line breaks and dashes are made frequent, as they are what the decoder looks for.
        bytes.push(match pick % 8 {
            0 => b'\r',
            1 => b'\n',
            2 => b'-',
            _ => pick,
        });
    }
    bytes
}

#[test]
fn generated_payloads_round_trip_in_both_orders() {
    let file_headers = b"Content-Disposition: form-data; name=\"file\"; filename=\"blob.bin\"";
    let sender_headers = b"Content-Disposition: form-data; name=\"sender\"";
    let mut decoded = 0;
    for seed in 0..300u64 {
        let payload = generated(seed, 1 + (seed as usize * 7) % 200);
        if contains(&payload, b"--Zq9") {
            continue;
        }
        let file_first = join(&[
            b"--Zq9\r\n",
            file_headers,
            b"\r\n\r\n",
            &payload,
            b"\r\n--Zq9\r\n",
            sender_headers,
            b"\r\n\r\nDana\r\n--Zq9--\r\n",
        ]);
        let sender_first = join(&[
            b"--Zq9\r\n",
            sender_headers,
            b"\r\n\r\nDana\r\n--Zq9\r\n",
            file_headers,
            b"\r\n\r\n",
            &payload,
            b"\r\n--Zq9--\r\n",
        ]);
        let expected = Ok(upload(&payload, "blob.bin", "Dana"));
        assert_eq!(parse_multipart_data(&file_first, "Zq9"), expected);
        assert_eq!(parse_multipart_data(&sender_first, "Zq9"), expected);
        decoded += 1;
    }
    assert!(decoded > 250);
}
