use solder_sse::time::Duration;
use solder_sse::{Frame, Parsed, Parser};

fn events(p: &mut Parser, s: &str) -> Vec<Parsed> {
    p.feed(s.as_bytes())
}

#[test]
fn dispatches_named_and_default_events_with_joined_data() {
    let mut p = Parser::new();
    let out = events(&mut p, "event: tick\ndata: a\ndata: b\n\ndata: plain\n\n");
    assert_eq!(
        out,
        vec![
            Parsed::Event(Frame {
                name: Some("tick".into()),
                data: "a\nb".into(),
                id: None
            }),
            Parsed::Event(Frame {
                name: None,
                data: "plain".into(),
                id: None
            }),
        ]
    );
}

#[test]
fn id_persists_across_frames_and_an_empty_id_resets_it() {
    let mut p = Parser::new();
    events(&mut p, "id: 7\nevent: a\ndata: x\n\n");
    assert_eq!(p.last_event_id(), Some("7"));
    let out = events(&mut p, "event: b\ndata: y\n\n");
    assert!(matches!(&out[0], Parsed::Event(f) if f.id.as_deref() == Some("7")));
    events(&mut p, "id: \nevent: resync\ndata: {}\n\n");
    assert_eq!(p.last_event_id(), None);
    // an id-only frame still moves the cursor; a NUL is ignored
    events(&mut p, "id: 9\n\n");
    assert_eq!(p.last_event_id(), Some("9"));
    events(&mut p, "id: 1\u{0}0\n\n");
    assert_eq!(p.last_event_id(), Some("9"));
}

#[test]
fn a_seeded_cursor_survives_frames_without_an_id() {
    let mut p = Parser::new().with_last_event_id(Some("60".into()));
    let out = p.feed(b"event: ping\ndata: {}\n\n");
    assert!(matches!(&out[0], Parsed::Event(f) if f.id.as_deref() == Some("60")));
    assert_eq!(p.last_event_id(), Some("60"));
}

#[test]
fn retry_only_frames_and_comments_dispatch_nothing_but_the_hint() {
    let mut p = Parser::new();
    let out = events(&mut p, "retry: 750\n\n: keep\n\nretry: x\n\n");
    assert_eq!(out, vec![Parsed::Retry(Duration::from_millis(750))]);
}

#[test]
fn handles_crlf_and_cr_line_endings_split_across_chunks() {
    let mut p = Parser::new();
    let mut out = p.feed(b"event: a\r");
    out.extend(p.feed(b"\ndata: 1\r\n\r"));
    out.extend(p.feed(b"\n"));
    assert_eq!(
        out,
        vec![Parsed::Event(Frame {
            name: Some("a".into()),
            data: "1".into(),
            id: None
        })]
    );
}

#[test]
fn skips_a_leading_bom_and_strips_one_space_after_the_colon() {
    let mut p = Parser::new();
    let out = p.feed(b"\xEF\xBB\xBFdata:  two spaces\n\n");
    assert!(matches!(&out[0], Parsed::Event(f) if f.data == " two spaces"));
}

#[test]
fn a_byte_order_mark_leads_the_first_line_only() {
    let mut p = Parser::new();
    p.feed(b"data: one\n\n");
    let out = p.feed(b"\xEF\xBB\xBFdata: two\n\ndata: three\n\n");
    // the marked line names no known field
    assert_eq!(
        out,
        vec![Parsed::Event(Frame {
            name: None,
            data: "three".into(),
            id: None
        })]
    );
}

#[test]
fn bytes_that_are_not_utf8_are_replaced() {
    let mut p = Parser::new();
    let out = p.feed(b"data: a\xFFb\n\n");
    assert!(matches!(&out[0], Parsed::Event(f) if f.data == "a\u{FFFD}b"));
}

#[test]
fn chunk_boundaries_do_not_matter() {
    let stream = "retry: 5\r\nid: é-1\nevent: a\ndata: x\r\rdata: y\n\n: c\nid:\ndata\n\n".as_bytes();
    let mut whole = Parser::new();
    let expected = whole.feed(stream);
    for size in 1..stream.len() {
        let mut p = Parser::new();
        let mut out = Vec::new();
        for chunk in stream.chunks(size) {
            out.extend(p.feed(chunk));
        }
        assert_eq!(out, expected, "chunks of {size}");
        assert_eq!(p.last_event_id(), whole.last_event_id());
    }
    assert_eq!(expected.len(), 4);
}

#[test]
fn a_cut_frame_completes_nothing() {
    let frame = b"id: 8\nevent: tick\ndata: 1\n\n";
    for cut in 0..frame.len() {
        let mut p = Parser::new().with_last_event_id(Some("7".into()));
        assert_eq!(p.feed(&frame[..cut]), vec![], "cut at {cut}");
        assert_eq!(p.last_event_id(), Some("7"));
    }
}

#[test]
fn odd_fields_and_hints_are_ignored() {
    let mut p = Parser::new();
    let out = events(
        &mut p,
        "foo: bar\nretry: +5\nretry: 18446744073709551616\nretry:\ndata\nevent\n\n",
    );
    // a bare `data` is one empty line; a bare `event` is the default event
    assert_eq!(
        out,
        vec![Parsed::Event(Frame {
            name: None,
            data: "".into(),
            id: None
        })]
    );
}

#[test]
fn an_empty_event_name_is_the_default_event() {
    let mut p = Parser::new();
    let out = events(&mut p, "event:\ndata: x\n\nevent: a\nevent:\ndata: y\n\n");
    let frame = |data: &str| Parsed::Event(Frame { name: None, data: data.into(), id: None });
    assert_eq!(out, vec![frame("x"), frame("y")]);
}

#[test]
fn an_empty_seed_is_no_cursor_and_a_cursor_can_be_forgotten() {
    let p = Parser::new().with_last_event_id(Some("".into()));
    assert_eq!(p.last_event_id(), None);
    let mut p = Parser::new().with_last_event_id(Some("4".into()));
    p.forget_last_event_id();
    assert_eq!(p.last_event_id(), None);
}
