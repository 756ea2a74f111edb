use message_share::store::{frame_record, split_lines};
use std::io::BufRead;

fn lines(data: &[u8]) -> Vec<Vec<u8>> {
    split_lines(data)
}

#[test]
fn log_is_cut_at_line_feeds() {
    assert_eq!(lines(b""), Vec::<Vec<u8>>::new());
    assert_eq!(lines(b"a\nb\n"), vec![b"a".to_vec(), b"b".to_vec()]);
    assert_eq!(lines(b"a\r\nb"), vec![b"a".to_vec(), b"b".to_vec()]);
    assert_eq!(lines(b"\n\n"), vec![b"".to_vec(), b"".to_vec()]);
    assert_eq!(lines(b"a\r"), vec![b"a\r".to_vec()]);
    assert_eq!(lines(b"a\r\r\n"), vec![b"a\r".to_vec()]);
    assert_eq!(lines(b"\r\n\xff\n"), vec![b"".to_vec(), vec![0xff]]);
}

#[test]
fn lines_are_those_of_a_buffered_reader() {
    let samples: [&[u8]; 6] =
        [b"", b"one\ntwo\r\nthree", b"\n", b"x\r\n\r\n\n", b"tail\r", b"a\nb\n"];
    for sample in samples {
        let expected: Vec<Vec<u8>> =
            sample.lines().map(|line| line.unwrap().into_bytes()).collect();
        assert_eq!(lines(sample), expected);
    }
}

#[test]
fn framed_record_is_read_back() {
    let mut log: Vec<u8> = Vec::new();
    log.extend_from_slice(&frame_record("{\"id\":\"1\"}"));
    assert_eq!(log, b"{\"id\":\"1\"}\n");
    log.extend_from_slice(b"garbage\n");
    log.extend_from_slice(&frame_record("{\"id\":\"2\"}"));
    assert_eq!(
        lines(&log),
        vec![b"{\"id\":\"1\"}".to_vec(), b"garbage".to_vec(), b"{\"id\":\"2\"}".to_vec()]
    );
}
