use solder_sse::protocol::{Event, Ping, Resync, ResyncReason};
use solder_sse::time::Duration;
use solder_sse::{Cursor, Parsed, Parser};

#[test]
fn encodes_a_full_frame_in_fixed_field_order() {
    let ev = Event::named("new_message")
        .seq(48211)
        .data("{\"seq\":48211}")
        .retry(Duration::from_millis(750));
    assert_eq!(
        ev.encode(),
        "retry: 750\nid: 48211\nevent: new_message\ndata: {\"seq\":48211}\n\n"
    );
}

#[test]
fn splits_multi_line_data_and_strips_cr() {
    let ev = Event::new().data("a\r\nb\nc");
    assert_eq!(ev.encode(), "data: a\ndata: b\ndata: c\n\n");
}

#[test]
fn ping_and_resync_frames_are_the_profile_constants() {
    assert_eq!(
        Event::ping().encode(),
        "event: ping\ndata: {\"every\":15}\n\n"
    );
    assert_eq!(
        Event::ping_every(30).encode(),
        "event: ping\ndata: {\"every\":30}\n\n"
    );
    assert_eq!(
        Event::ping_with(15, Some(30)).encode(),
        "event: ping\ndata: {\"every\":15,\"max_age\":30}\n\n"
    );
    assert_eq!(Event::ping_with(15, None).encode(), Event::ping().encode());
    assert_eq!(
        Event::resync(ResyncReason::Expired, 47900).encode(),
        "id: \nevent: resync\ndata: {\"earliest_seq\":47900,\"reason\":\"expired\"}\n\n"
    );
    assert!(!Event::ping().has_id());
}

#[test]
fn a_line_break_cannot_forge_a_field() {
    let ev = Event::named("x\nevent: y").id("1\r\nid: 2");
    assert_eq!(ev.encode(), "id: 1  id: 2\nevent: x event: y\n\n");
}

#[test]
fn comment_only_frame() {
    assert_eq!(Event::comment("keep").encode(), ": keep\n\n");
}

#[test]
fn a_bare_cr_ends_a_data_line() {
    let ev = Event::new().data("a\rid: forged");
    assert_eq!(ev.encode(), "data: a\ndata: id: forged\n\n");
}

#[test]
fn resync_frames_carry_the_payload_and_an_empty_id() {
    assert_eq!(
        Event::resync_of(&Resync::unknown()).encode(),
        "id: \nevent: resync\ndata: {\"reason\":\"unknown\",\"earliest\":null}\n\n"
    );
    let earliest = Cursor::parse("7f3a9c2e-47900").unwrap();
    assert_eq!(
        Event::resync_of(&Resync::expired(Some(earliest))).encode(),
        "id: \nevent: resync\ndata: {\"reason\":\"expired\",\"earliest\":\"7f3a9c2e-47900\"}\n\n"
    );
    assert!(Event::resync_of(&Resync::unknown()).has_id());
}

#[test]
fn a_frame_without_a_cursor_has_no_id() {
    let cursor = Cursor::parse("g-3").unwrap();
    assert_eq!(Event::named("a").cursor(Some(cursor)).encode(), "id: g-3\nevent: a\n\n");
    assert_eq!(Event::named("a").cursor(None).encode(), "event: a\n\n");
    assert_eq!(Event::ping_of(&Ping { every: 1, max_age: None }), Event::ping_every(1));
}

#[test]
fn whatever_a_frame_holds_is_read_back_as_one_event() {
    let nasty = "a\n\nid: 9\r\revent: x\n\0:\u{FEFF}é";
    let ev = Event::named(nasty).id(nasty).data("one\ntwo\n").retry(Duration::from_millis(3));
    let mut p = Parser::new();
    let out = p.feed(&ev.encode());
    assert_eq!(out.len(), 2);
    assert_eq!(out[0], Parsed::Retry(Duration::from_millis(3)));
    let folded = "a  id: 9  event: x  :\u{FEFF}é";
    assert!(matches!(&out[1], Parsed::Event(f)
        if f.data == "one\ntwo\n" && f.name.as_deref() == Some(folded) && f.id.as_deref() == Some(folded)));
}

#[test]
fn ordinary_frames_can_be_encoded() {
    assert!(Event::new().is_encodable());
    assert!(Event::named("a").id("b").data(&"x".repeat(1_000_000)).is_encodable());
}
