use message_share::clock::{parse_instant, Instant};
use message_share::message::{compose_message, new_message, Message, MessageKind, SendRequest, Submission};
use message_share::store::{get_messages_since, is_newer, MessageLog};

fn text(id: &str, timestamp: &str) -> Message {
    Message {
        id: id.to_string(),
        content: format!("content of {}", id),
        sender: "Alice".to_string(),
        timestamp: timestamp.to_string(),
        kind: MessageKind::Text,
        filename: None,
        file_size: None,
        mime_type: None,
    }
}

fn ids(messages: &[Message]) -> Vec<String> {
    messages.iter().map(|m| m.id.clone()).collect()
}

#[test]
fn rfc3339_is_read() {
    assert_eq!(parse_instant("1970-01-01T00:00:00Z"), Some(Instant { seconds: 0, nanos: 0 }));
    assert_eq!(
        parse_instant("2024-01-02T03:04:05.25+01:00"),
        Some(Instant { seconds: 1704161045, nanos: 250_000_000 })
    );
    assert_eq!(parse_instant("1969-12-31T23:59:59Z"), Some(Instant { seconds: -1, nanos: 0 }));
    assert_eq!(parse_instant("not-a-date"), None);
    assert_eq!(parse_instant(""), None);
    assert_eq!(parse_instant("2024-01-02 03:04:05"), None);
}

#[test]
fn later_is_strict() {
    let a = Instant { seconds: 5, nanos: 10 };
    assert!(Instant { seconds: 6, nanos: 0 }.is_later_than(&a));
    assert!(Instant { seconds: 5, nanos: 11 }.is_later_than(&a));
    assert!(!a.is_later_than(&a));
    assert!(!Instant { seconds: 4, nanos: 999 }.is_later_than(&a));
    assert!(is_newer(None, &a));
    assert!(!is_newer(Some(a), &a));
}

#[test]
fn load_all_skips_corrupt_lines() {
    let log = MessageLog::from_lines(vec![
        Some(text("1", "2024-01-01T00:00:00Z")),
        None,
        Some(text("2", "2024-01-02T00:00:00Z")),
        Some(text("3", "2024-01-03T00:00:00Z")),
    ]);
    assert_eq!(log.len(), 4);
    assert_eq!(ids(&log.load_all()), vec!["1", "2", "3"]);
}

#[test]
fn append_then_load_all_returns_the_message() {
    let mut log = MessageLog::new();
    assert!(log.load_all().is_empty());
    let message = text("7", "2024-05-05T05:05:05Z");
    log.append(message.clone());
    assert_eq!(log.load_all(), vec![message.clone()]);
    let other = text("8", "2024-05-05T05:05:06Z");
    log.append(other.clone());
    assert_eq!(log.load_all(), vec![message, other]);
}

#[test]
fn load_since_is_strict_and_ordered() {
    let mut log = MessageLog::from_lines(vec![
        Some(text("1", "2024-01-01T00:00:00Z")),
        None,
        Some(text("2", "2024-01-02T00:00:00Z")),
        Some(text("bad", "yesterday")),
    ]);
    log.append(text("3", "2024-01-03T00:00:00+02:00"));
    assert_eq!(ids(&log.load_since("2024-01-02T00:00:00Z")), vec!["bad", "3"]);
    assert_eq!(ids(&log.load_since("2024-01-01T23:59:59.999Z")), vec!["2", "bad", "3"]);
    assert_eq!(ids(&log.load_since("2024-01-02T22:00:00Z")), vec!["bad"]);
    assert_eq!(ids(&log.load_since("1970-01-01T00:00:00Z")), vec!["1", "2", "bad", "3"]);
}

#[test]
fn append_then_load_since() {
    let mut log = MessageLog::new();
    let message = text("9", "2024-06-01T12:00:00Z");
    log.append(message.clone());
    assert_eq!(log.load_since("2024-06-01T11:59:59Z"), vec![message]);
    assert!(log.load_since("2024-06-01T12:00:00Z").is_empty());
    assert!(log.load_since("2024-06-01T12:00:01Z").is_empty());
}

#[test]
fn load_since_is_part_of_load_all() {
    let log = MessageLog::from_lines(vec![
        Some(text("1", "2024-01-01T00:00:00Z")),
        Some(text("2", "2024-01-02T00:00:00Z")),
        Some(text("3", "?")),
    ]);
    let all = log.load_all();
    for threshold in ["2023-01-01T00:00:00Z", "2024-01-01T12:00:00Z", "2025-01-01T00:00:00Z", "x"] {
        for message in log.load_since(threshold) {
            assert!(all.contains(&message));
        }
    }
}

#[test]
fn malformed_threshold_returns_everything() {
    let log = MessageLog::from_lines(vec![
        Some(text("1", "2024-01-01T00:00:00Z")),
        Some(text("2", "2024-01-02T00:00:00Z")),
    ]);
    assert_eq!(log.load_since("not-a-date"), log.load_all());
    let reply = log.answer_poll("since=not-a-date");
    assert_eq!(reply.messages, log.load_all());
    assert!(parse_instant(&reply.timestamp).is_some());
}

#[test]
fn poll_reads_the_query() {
    let log = MessageLog::from_lines(vec![
        Some(text("1", "2024-01-01T00:00:00Z")),
        Some(text("2", "2024-01-02T00:00:00Z")),
    ]);
    assert_eq!(ids(&log.answer_poll("since=2024-01-01T00%3A00%3A00Z").messages), vec!["2"]);
    assert_eq!(ids(&log.answer_poll("").messages), vec!["1", "2"]);
    assert_eq!(ids(&log.answer_poll("x=1&since=2024-01-02T00:00:00Z").messages), Vec::<String>::new());
}

#[test]
fn messages_since_filters_a_slice() {
    let messages = vec![text("1", "2024-01-01T00:00:00Z"), text("2", "2024-01-02T00:00:00Z")];
    assert_eq!(ids(&get_messages_since(&messages, "2024-01-01T00:00:00Z")), vec!["2"]);
    assert_eq!(ids(&get_messages_since(&messages, "")), vec!["1", "2"]);
}

#[test]
fn kinds_have_labels() {
    assert_eq!(MessageKind::Text.as_str(), "text");
    assert_eq!(MessageKind::Image.as_str(), "image");
    assert_eq!(MessageKind::File.as_str(), "file");
    assert_eq!(MessageKind::parse("text"), Some(MessageKind::Text));
    assert_eq!(MessageKind::parse("image"), Some(MessageKind::Image));
    assert_eq!(MessageKind::parse("file"), Some(MessageKind::File));
    assert_eq!(MessageKind::parse("Text"), None);
    assert_eq!(MessageKind::parse(""), None);
}

#[test]
fn duplicate_is_equal() {
    let mut message = text("1", "2024-01-01T00:00:00Z");
    message.filename = Some("a.png".to_string());
    message.file_size = Some(3);
    message.mime_type = Some("image/png".to_string());
    assert_eq!(message.duplicate(), message);
}

#[test]
fn submissions_become_messages() {
    let request = SendRequest {
        content: "hello".to_string(),
        sender: "Bob".to_string(),
        kind: MessageKind::Image,
        filename: Some("cat.png".to_string()),
    };
    let message = compose_message(Submission::Accepted(request), "id-1".to_string(), "t".to_string());
    assert_eq!(
        message,
        Message {
            id: "id-1".to_string(),
            content: "hello".to_string(),
            sender: "Bob".to_string(),
            timestamp: "t".to_string(),
            kind: MessageKind::Image,
            filename: Some("cat.png".to_string()),
            file_size: None,
            mime_type: None,
        }
    );
    let failed = compose_message(Submission::Unparseable, "id-2".to_string(), "t".to_string());
    assert_eq!(failed.content, "Failed to parse request");
    assert_eq!(failed.sender, "Unknown");
    assert_eq!(failed.kind, MessageKind::Text);
    assert_eq!(failed.filename, None);
    let unread = compose_message(Submission::Unreadable, "id-3".to_string(), "t".to_string());
    assert_eq!(unread.content, "Body read failed");
    assert_eq!(unread.sender, "Unknown");
}

#[test]
fn new_messages_get_identifier_and_time() {
    let first = new_message(Submission::Unparseable);
    let second = new_message(Submission::Unparseable);
    assert_eq!(first.id.len(), 36);
    assert_ne!(first.id, second.id);
    assert!(parse_instant(&first.timestamp).is_some());
    assert_eq!(first.content, "Failed to parse request");
}
