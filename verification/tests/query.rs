use message_share::query::parse_since_parameter;

#[test]
fn since_is_read_and_unescaped() {
    assert_eq!(parse_since_parameter("since=2024-01-02T03%3A04%3A05Z"), "2024-01-02T03:04:05Z");
    assert_eq!(parse_since_parameter("a=b&since=2024-01-02%2003%3A04"), "2024-01-02 03:04");
    assert_eq!(parse_since_parameter("since=x&since=y"), "x");
    assert_eq!(parse_since_parameter("since=a=b"), "a=b");
    assert_eq!(parse_since_parameter("since="), "");
    assert_eq!(parse_since_parameter("since=%3a%2520"), "%3a%2520");
    assert_eq!(parse_since_parameter("since=%3%203A"), "%3 3A");
    assert_eq!(parse_since_parameter("since=%%203A"), "% 3A");
    assert_eq!(parse_since_parameter("since=%2%3A0"), "%2:0");
}

#[test]
fn missing_since_is_the_epoch() {
    assert_eq!(parse_since_parameter(""), "1970-01-01T00:00:00Z");
    assert_eq!(parse_since_parameter("since"), "1970-01-01T00:00:00Z");
    assert_eq!(parse_since_parameter("Since=x&xsince=y&a=since=z"), "1970-01-01T00:00:00Z");
    assert_eq!(parse_since_parameter("&&"), "1970-01-01T00:00:00Z");
}
