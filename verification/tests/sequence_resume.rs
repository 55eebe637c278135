use http::{HeaderMap, HeaderValue};
use solder_sse::sequence::resume::{Resume, HEADER, QUERY};

fn headers(v: Option<&str>) -> HeaderMap {
    let mut h = HeaderMap::new();
    if let Some(v) = v {
        h.insert(HEADER, HeaderValue::from_str(v).unwrap());
    }
    h
}

#[test]
fn header_then_query_then_none() {
    assert_eq!(Resume::parse(&headers(Some("42")), None), Resume::Since(42));
    assert_eq!(
        Resume::parse(&headers(None), Some("a=1&last_event_id=7&b=2")),
        Resume::Since(7)
    );
    assert_eq!(Resume::parse(&headers(None), Some("a=1")), Resume::NoCursor);
    assert_eq!(Resume::parse(&headers(None), None), Resume::NoCursor);
}

#[test]
fn header_wins_over_query() {
    assert_eq!(
        Resume::parse(&headers(Some("9")), Some("last_event_id=1")),
        Resume::Since(9)
    );
}

#[test]
fn zero_and_empty_are_none_and_garbage_is_malformed() {
    assert_eq!(Resume::parse(&headers(Some("0")), None), Resume::NoCursor);
    assert_eq!(
        Resume::parse(&headers(Some("  ")), Some("last_event_id=3")),
        Resume::Since(3)
    );
    assert_eq!(
        Resume::parse(&headers(Some("abc")), None),
        Resume::Malformed
    );
    assert_eq!(
        Resume::parse(&headers(None), Some("last_event_id=-1")),
        Resume::Malformed
    );
}

#[test]
fn wire_round_trip() {
    for r in [Resume::NoCursor, Resume::Since(5), Resume::Malformed] {
        assert_eq!(Resume::from_since(r.since()), r);
    }
}

#[test]
fn from_parts_reads_uri_query() {
    let req = http::Request::builder()
        .uri("/v1/screens/a/stream?last_event_id=11")
        .body(())
        .unwrap();
    let (parts, _) = req.into_parts();
    assert_eq!(Resume::from_parts(&parts), Resume::Since(11));
}

#[test]
fn the_numbers_of_the_internal_wire() {
    assert_eq!(Resume::NoCursor.since(), 0);
    assert_eq!(Resume::Since(5).since(), 5);
    assert_eq!(Resume::Malformed.since(), u64::MAX);
    for n in [0, 1, 77, u64::MAX - 1, u64::MAX] {
        assert_eq!(Resume::from_since(n).since(), n);
    }
    // the one request that the wire cannot carry
    assert_eq!(Resume::from_since(Resume::Since(u64::MAX).since()), Resume::Malformed);
}

#[test]
fn the_first_pair_with_a_value_counts() {
    let query = |q: &str| Resume::parse(&HeaderMap::new(), Some(q));
    assert_eq!(query("last_event_id=&last_event_id= 8 "), Resume::Since(8));
    assert_eq!(query("last_event_id&xlast_event_id=3"), Resume::NoCursor);
    assert_eq!(query("last_event_id=1=2"), Resume::Malformed);
    assert_eq!(query(""), Resume::NoCursor);
    assert_eq!(QUERY, "last_event_id");
}

#[test]
fn a_header_that_is_not_text_is_malformed() {
    let mut h = HeaderMap::new();
    h.insert(HEADER, HeaderValue::from_bytes(b"7\xFF").unwrap());
    assert_eq!(Resume::parse(&h, Some("last_event_id=2")), Resume::Malformed);
    assert_eq!(Resume::parse(&h, None), Resume::Malformed);
    assert_eq!(Resume::parse(&headers(Some("\t7\t")), None), Resume::Since(7));
}

#[test]
fn the_header_of_a_request_head_is_read() {
    let req = http::Request::builder()
        .uri("/s?last_event_id=1")
        .header("Last-Event-ID", "12")
        .body(())
        .unwrap();
    let (parts, _) = req.into_parts();
    assert_eq!(Resume::from_parts(&parts), Resume::Since(12));
}
