use solder_sse::cursor::MAX_LEN;
use solder_sse::{Cursor, InvalidCursor};

#[test]
fn accepts_the_unreserved_alphabet_only() {
    for ok in ["1", "48211", "7f3a9c2e-48211", "a.b_c~d-E", "0"] {
        assert_eq!(Cursor::parse(ok).unwrap().as_str(), ok);
    }
    assert_eq!(Cursor::parse(""), Err(InvalidCursor::Empty));
    assert_eq!(Cursor::parse("a b"), Err(InvalidCursor::Character(' ')));
    assert_eq!(Cursor::parse("a&b=c"), Err(InvalidCursor::Character('&')));
    assert_eq!(Cursor::parse("1\n"), Err(InvalidCursor::Character('\n')));
    assert_eq!(Cursor::parse("é"), Err(InvalidCursor::Character('é')));
    let long = "x".repeat(MAX_LEN);
    assert!(Cursor::parse(&long).is_ok());
    assert_eq!(
        Cursor::parse(&format!("{long}x")),
        Err(InvalidCursor::TooLong(MAX_LEN + 1))
    );
}

#[test]
fn clones_share_one_allocation() {
    let c = Cursor::parse("g-7").unwrap();
    let d = c.clone();
    assert_eq!(c.as_str().as_ptr(), d.as_str().as_ptr());
}

#[test]
fn converts_and_compares_as_its_token() {
    let c: Cursor = "g-7".parse().unwrap();
    assert_eq!(c, "g-7");
    assert_eq!(c.to_text(), "g-7");
    assert_eq!(String::from(&c), "g-7");
    assert_eq!(format!("{c:?}"), "Cursor(g-7)");
    assert_eq!(c.to_debug_text(), "Cursor(g-7)");
    assert_eq!(serde_json::to_string(c.as_str()).unwrap(), "\"g-7\"");
    let read: String = serde_json::from_str("\"g-7\"").unwrap();
    assert_eq!(Cursor::try_from(read).unwrap(), c);
    let read: String = serde_json::from_str("\"g 7\"").unwrap();
    assert!(Cursor::try_from(read).is_err());
    assert_eq!(Cursor::try_from(String::from("g-7")).unwrap(), c);
}

#[test]
fn a_long_token_of_wide_characters_is_too_long_before_it_is_foreign() {
    // 65 characters, 130 bytes
    let wide = "é".repeat(65);
    assert_eq!(Cursor::parse(&wide), Err(InvalidCursor::TooLong(130)));
    assert_eq!(Cursor::parse(&"é".repeat(64)), Err(InvalidCursor::Character('é')));
}

#[test]
fn the_reasons_are_told_in_words() {
    let words = |token: &str| Cursor::parse(token).unwrap_err().to_text();
    assert!(words("").contains("empty"));
    assert!(words(&"x".repeat(200)).contains("200"));
    // the character is shown as a debug print shows it
    assert!(words("a\tb").contains("'\\t'"), "{}", words("a\tb"));
    assert!(words("a b").contains("' '"), "{}", words("a b"));
}

#[test]
fn cursors_compare_by_their_tokens() {
    let a = Cursor::parse("g-1").unwrap();
    let b = Cursor::parse("g-2").unwrap();
    assert_ne!(a, b);
    assert_eq!(a, Cursor::parse("g-1").unwrap());
    assert_eq!(a.as_ref(), "g-1");
    assert_eq!(*"g-1", *a.as_str());
}
