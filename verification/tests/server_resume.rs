use http::{HeaderMap, HeaderValue};
use solder_sse::server::resume::{Resume, HEADER};
use solder_sse::Cursor;

fn headers(v: Option<&str>) -> HeaderMap {
    let mut h = HeaderMap::new();
    if let Some(v) = v {
        h.insert(HEADER, HeaderValue::from_str(v).unwrap());
    }
    h
}

fn since(token: &str) -> Resume {
    Resume::Since(Cursor::parse(token).unwrap())
}

#[test]
fn resume_header_then_query_then_none() {
    assert_eq!(Resume::parse(&headers(Some("g-42")), None), since("g-42"));
    assert_eq!(
        Resume::parse(&headers(None), Some("a=1&last_event_id=g-7&b=2")),
        since("g-7")
    );
    assert_eq!(Resume::parse(&headers(None), Some("a=1")), Resume::NoCursor);
    assert_eq!(Resume::parse(&headers(None), None), Resume::NoCursor);
}

#[test]
fn resume_header_wins_over_query() {
    assert_eq!(
        Resume::parse(&headers(Some("9")), Some("last_event_id=1")),
        since("9")
    );
}

#[test]
fn empty_is_none_and_a_non_token_is_invalid() {
    assert_eq!(Resume::parse(&headers(Some("  ")), None), Resume::NoCursor);
    assert_eq!(
        Resume::parse(&headers(Some("  ")), Some("last_event_id=3")),
        since("3")
    );
    assert_eq!(Resume::parse(&headers(Some("a b")), None), Resume::Invalid);
    assert_eq!(
        Resume::parse(&headers(None), Some("last_event_id=%2F")),
        Resume::Invalid
    );
    assert_eq!(
        Resume::parse(&headers(Some(&"x".repeat(129))), None),
        Resume::Invalid
    );
    assert_eq!(since("g-1").cursor().map(Cursor::as_str), Some("g-1"));
    assert_eq!(Resume::Invalid.cursor(), None);
}

#[test]
fn resume_from_parts_reads_uri_query() {
    let req = http::Request::builder()
        .uri("/v1/screens/a/stream?last_event_id=g-11")
        .body(())
        .unwrap();
    let (parts, _) = req.into_parts();
    assert_eq!(Resume::from_parts(&parts), since("g-11"));
    assert_eq!(Resume::from_parts(&parts).clone(), since("g-11"));
}

#[test]
fn a_header_that_is_not_text_is_invalid() {
    let mut h = HeaderMap::new();
    h.insert(HEADER, HeaderValue::from_bytes(b"\xe9").unwrap());
    assert_eq!(Resume::parse(&h, Some("last_event_id=g-5")), Resume::Invalid);
    assert_eq!(Resume::parse(&h, None), Resume::Invalid);
}
