use message_share::text::{from_chars, is_space, same_text, to_chars, trim_range};

fn trim(text: &str) -> String {
    let chars = to_chars(text);
    let (from, to) = trim_range(&chars, 0, chars.len());
    from_chars(&chars, from, to)
}

#[test]
fn trim_removes_white_space() {
    assert_eq!(trim("  a b \t\r\n"), "a b");
    assert_eq!(trim(""), "");
    assert_eq!(trim(" \n "), "");
    assert_eq!(trim("x"), "x");
    assert_eq!(trim("\u{2028}x\u{feff}"), "x\u{feff}");
}

#[test]
fn white_space_is_unicode_white_space() {
    let mut code: u32 = 0;
    while code <= 0x11_0000 {
        if let Some(c) = char::from_u32(code) {
            assert_eq!(is_space(c), c.is_whitespace());
        }
        code += 1;
    }
}

#[test]
fn characters_round_trip() {
    let chars = to_chars("a\u{e9}\u{1f600}z");
    assert_eq!(chars, vec!['a', '\u{e9}', '\u{1f600}', 'z']);
    assert_eq!(from_chars(&chars, 1, 3), "\u{e9}\u{1f600}");
    assert_eq!(from_chars(&chars, 2, 2), "");
    assert!(same_text("abc", "abc"));
    assert!(!same_text("abc", "abd"));
    assert!(!same_text("abc", "ab"));
}
