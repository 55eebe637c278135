use http::{HeaderMap, HeaderValue};
use solder_sse::client::{
    backoff, backoff_from, deadman_for, parse_ping, parse_resync, Backoff, Cause, Deadman, Eager,
    Link, Message, Options, ServerHints, Status, DEFAULT_DEADMAN,
};
use solder_sse::protocol::{Event, Resync};
use solder_sse::time::Duration;
use solder_sse::{Cursor, Frame};

fn secs(n: u64) -> Duration {
    Duration::from_secs(n)
}

fn ms(n: u64) -> Duration {
    Duration::from_millis(n)
}

fn retrying(status: Status) -> (Duration, Cause) {
    match status {
        Status::Retrying { after, cause } => (after, cause),
        other => panic!("{other:?}"),
    }
}

#[test]
fn resync_payload_is_read_without_serde() {
    assert_eq!(
        parse_resync(r#"{"reason":"expired","earliest_seq":47900}"#),
        ("expired".into(), 47900)
    );
    assert_eq!(
        parse_resync(r#"{"reason" : "expired", "earliest_seq" : 47900}"#),
        ("expired".into(), 47900)
    );
    assert_eq!(
        parse_resync(r#"{"earliest_seq":0,"reason":"unknown"}"#),
        ("unknown".into(), 0)
    );
    assert_eq!(parse_resync("garbage"), ("unknown".into(), 0));
}

#[test]
fn ping_payload_is_read_without_serde() {
    let every = |s: &str| parse_ping(s).ping_every;
    assert_eq!(every(r#"{"every":15}"#), Some(Duration::from_secs(15)));
    assert_eq!(every(r#"{"every": 10}"#), Some(Duration::from_secs(10)));
    assert_eq!(every(r#"{"every" : 20}"#), Some(Duration::from_secs(20)));
    assert_eq!(every(r#"{"every":0}"#), None);
    assert_eq!(every(r#"{}"#), None);
    assert_eq!(every("garbage"), None);
    // v1.2: the rotation age rides the same frame, in either order
    assert_eq!(
        parse_ping(r#"{"every":15,"max_age":30}"#),
        ServerHints {
            ping_every: Some(Duration::from_secs(15)),
            max_age: Some(Duration::from_secs(30)),
        }
    );
    assert_eq!(
        parse_ping(r#"{"max_age": 30, "every": 15}"#).max_age,
        Some(Duration::from_secs(30))
    );
    assert_eq!(parse_ping(r#"{"every":15}"#).max_age, None);
    assert_eq!(parse_ping(r#"{"every":15,"max_age":0}"#).max_age, None);
    assert_eq!(
        deadman_for(Duration::from_secs(15)),
        Duration::from_secs(35)
    );
    assert_eq!(
        deadman_for(Duration::from_secs(10)),
        Duration::from_secs(25)
    );
}

#[test]
fn defaults_match_the_profile() {
    let o = Options::default();
    assert!(o.resume);
    assert_eq!(o.deadman, Deadman::Auto);
    assert_eq!(o.backoff.max, Duration::from_secs(30));
}

#[test]
fn the_other_defaults_match_the_profile_too() {
    let o = Options::default();
    assert!(o.headers.is_empty());
    assert_eq!(o.connect_timeout, secs(20));
    assert_eq!(o.backoff.base, secs(1));
    assert_eq!(o.backoff.floor, ms(200));
    let eager = o.eager.unwrap();
    assert_eq!((eager.healthy, eager.jitter), (secs(5), ms(250)));
    assert_eq!(o.default_retry, secs(3));
    assert_eq!(Deadman::default(), Deadman::Auto);
    assert_eq!(DEFAULT_DEADMAN, 35);
}

#[test]
fn an_absurd_interval_is_a_window_that_never_ends() {
    assert_eq!(deadman_for(secs(u64::MAX)), Duration::new(u64::MAX, 999_999_999));
    assert_eq!(deadman_for(secs(u64::MAX / 2)), Duration::new(u64::MAX, 999_999_999));
    assert_eq!(deadman_for(secs(u64::MAX / 2 - 3)), secs(u64::MAX - 2));
}

#[test]
fn the_window_counts_the_fraction_of_a_second() {
    assert_eq!(deadman_for(ms(1_500)), secs(8));
    assert_eq!(deadman_for(ms(1_999)), ms(8_998));
    assert_eq!(deadman_for(Duration::zero()), secs(5));
}

#[test]
fn odd_resync_payloads() {
    let read = |s: &str| Resync::from_json(s);
    assert_eq!(read(r#"{"reason":"unknown","earliest":null}"#), Resync::unknown());
    assert_eq!(
        read(r#"{"reason": "expired", "earliest": "7f3a9c2e-47900"}"#),
        Resync::expired(Cursor::parse("7f3a9c2e-47900").ok())
    );
    // not a token: there is no cursor to name
    assert_eq!(read(r#"{"reason":"expired","earliest":"a b"}"#), Resync::expired(None));
    assert_eq!(read(r#"{"reason":"other"}"#), Resync::unknown());
    assert_eq!(read("garbage"), Resync::unknown());
    assert_eq!(read(""), Resync::unknown());
    assert_eq!(parse_resync(r#"{"reason" "expired"}"#), ("unknown".into(), 0));
    assert_eq!(parse_resync(r#"{"reason":expired}"#), ("unknown".into(), 0));
    assert_eq!(
        parse_resync(r#"{"reason":"expired","earliest_seq":"9"}"#),
        ("expired".into(), 0)
    );
    assert_eq!(parse_resync(r#"{"earliest_seq":9.5}"#), ("unknown".into(), 0));
    assert_eq!(
        parse_resync(r#"{"earliest_seq":18446744073709551616}"#),
        ("unknown".into(), 0)
    );
}

#[test]
fn anything_malformed_is_an_unknown_resync() {
    let whole = r#"{"reason":"expired","earliest_seq":9,"earliest":"g-9"}"#;
    assert_eq!(parse_resync(whole), ("expired".into(), 9));
    assert_eq!(Resync::from_json(whole), Resync::expired(Cursor::parse("g-9").ok()));
    for end in 0..whole.len() {
        assert_eq!(parse_resync(&whole[..end]), ("unknown".into(), 0), "cut at {end}");
        assert_eq!(Resync::from_json(&whole[..end]), Resync::unknown());
    }
    for odd in [
        r#"{"reason":"expired","earliest_seq":9x}"#,
        r#"{"reason":"expired","earliest_seq":09}"#,
        r#"{"reason":"expired","earliest_seq":9}}"#,
        r#"{"reason":"expired","earliest_seq":9} x"#,
        r#"{"reason":"expired","earliest_seq":9,}"#,
        r#"{"reason":"expired" "earliest_seq":9}"#,
        r#"{"reason":"expired","earliest_seq":9,"x":[1,}"#,
        r#"{"reason":"expired","earliest_seq":9,"x":[1 2]}"#,
        r#"{"reason":"expired","earliest_seq":9,"x":"\q"}"#,
        r#"["reason","expired"]"#,
        r#""reason":"expired","earliest_seq":9"#,
    ] {
        assert_eq!(parse_resync(odd), ("unknown".into(), 0), "{odd}");
        assert_eq!(Resync::from_json(odd), Resync::unknown(), "{odd}");
    }
}

#[test]
fn the_keys_of_a_malformed_ping_are_searched_for() {
    let every = |s: &str| parse_ping(s).ping_every;
    for payload in [
        r#""every":15"#,
        r#"{"every":15"#,
        r#"{"every":015}"#,
        r#"{"every":15,}"#,
        r#"{"every":15x}"#,
        r#"[{"every" : 15}]"#,
        r#"{"every":15} {"every":3}"#,
    ] {
        assert_eq!(every(payload), Some(secs(15)), "{payload}");
    }
    assert_eq!(every(r#"{"kind":"every","every":15"#), None);
    assert_eq!(every(r#"{"every" 15"#), None);
    assert_eq!(every(r#"{"every":x"#), None);
    assert_eq!(every("{} x"), None);
    let hints = parse_ping(r#"{"every":15,"max_age":30"#);
    assert_eq!(hints, ServerHints { ping_every: Some(secs(15)), max_age: Some(secs(30)) });
}

#[test]
fn a_reason_is_read_up_to_the_next_quote() {
    assert_eq!(parse_resync(r#"{"reason":"a\"b","earliest_seq":9}"#), ("a\\".into(), 9));
    assert_eq!(parse_resync(r#"{"reason":"","earliest_seq":9}"#), ("".into(), 9));
}

#[test]
fn unknown_fields_are_ignored() {
    let fifteen = ServerHints { ping_every: Some(secs(15)), max_age: None };
    for payload in [
        r#"{"kind":"every","every":15}"#,
        r#"{"every":15,"kind":"max_age"}"#,
        r#"{"text":"\"every\":3,","every":15}"#,
        r#"{"deep":{"every":3,"list":[{"every":4},[],{}]},"every":15}"#,
        r#" { "a" : null , "b" : [ true , false ] , "c" : -1.5e+3 , "every" : 15 } "#,
        r#"{"every":15,"every":3}"#,
        r#"{"xevery":3,"every":15}"#,
        r#"{"u":"\u00e9\\","every":15}"#,
    ] {
        assert_eq!(parse_ping(payload), fifteen, "{payload}");
    }
    assert_eq!(
        parse_resync(r#"{"why":"reason","earliest_seq":7,"x":"earliest_seq","reason":"expired"}"#),
        ("expired".into(), 7)
    );
    let link_hints = |data: &str| {
        let mut link = Link::new(Options::default());
        link.opened();
        link.take(&Event::named("ping").data(data).encode());
        (link.server_hints(), link.silence_limit())
    };
    assert_eq!(link_hints(r#"{"kind":"every","every":15}"#), (fifteen, Some(secs(35))));
}

#[test]
fn a_request_carries_the_headers_and_the_cursor() {
    let mut headers = HeaderMap::new();
    headers.insert("authorization", HeaderValue::from_static("Bearer x"));
    let mut link = Link::new(Options { headers: headers.clone(), ..Options::default() });
    let request = link.request();
    assert_eq!(request.accept, "text/event-stream");
    assert_eq!(*request.headers, headers);
    assert_eq!(request.last_event_id, None);
    link.opened();
    link.take(b"id: g-5\ndata: x\n\n");
    assert_eq!(link.request().last_event_id, Some("g-5"));
    let mut link = Link::new(Options { resume: false, ..Options::default() });
    link.opened();
    link.take(b"id: g-5\ndata: x\n\n");
    assert_eq!(link.request().last_event_id, None);
}

#[test]
fn payloads_read_back_as_they_were_written() {
    for resync in [
        Resync::unknown(),
        Resync::expired(None),
        Resync::expired(Cursor::parse("reason~earliest").ok()),
    ] {
        assert_eq!(Resync::from_json(&resync.to_json()), resync);
    }
    for (every, age) in [(1, None), (15, Some(30)), (u64::MAX, Some(1))] {
        let ping = solder_sse::Ping { every, max_age: age };
        let hints = parse_ping(&ping.to_json());
        assert_eq!(hints.ping_every, Some(secs(every)));
        assert_eq!(hints.max_age, age.map(secs));
    }
}

#[test]
fn frames_become_messages_and_move_the_cursor() {
    let mut link = Link::new(Options::default());
    link.opened();
    assert_eq!(link.last_event_id(), None);
    let out = link.take(b"retry: 40\n\nid: g-1\nevent: tick\ndata: 1\n\nid: g-2\n\n");
    assert_eq!(
        out,
        vec![Message::Event(Frame {
            name: Some("tick".into()),
            data: "1".into(),
            id: Some("g-1".into())
        })]
    );
    // a frame with nothing but an id moves the cursor too
    assert_eq!(link.last_event_id(), Some("g-2"));
    assert_eq!(link.request_cursor(), Some("g-2"));
    // the hint is what a short-lived stream waits
    assert_eq!(retrying(link.ended(secs(1), 0)), (ms(40), Cause::Ended));
}

#[test]
fn resync_is_surfaced_and_the_cursor_is_cleared() {
    let mut link = Link::new(Options::default());
    link.opened();
    link.take(b"id: deadbeef-999999\ndata: x\n\n");
    let out = link.take(&Event::resync_of(&Resync::unknown()).encode());
    assert_eq!(out, vec![Message::Resync(Resync::unknown())]);
    assert_eq!(link.last_event_id(), None, "the rejected cursor is dropped");
}

#[test]
fn a_resync_without_an_empty_id_drops_the_cursor_as_well() {
    let mut link = Link::new(Options::default());
    link.opened();
    let out = link.take(b"id: 5\ndata: x\n\nevent: resync\ndata: {\"reason\":\"expired\"}\n\ndata: y\n\n");
    assert_eq!(out.len(), 3);
    assert_eq!(out[1], Message::Resync(Resync::expired(None)));
    assert!(matches!(&out[2], Message::Event(f) if f.id.is_none()));
    assert_eq!(link.request_cursor(), None);
}

#[test]
fn a_ping_arms_the_dead_man_on_this_connection_only() {
    let mut link = Link::new(Options::default());
    link.opened();
    assert_eq!(link.silence_limit(), None);
    assert_eq!(link.take(b"event: ping\ndata: {}\n\n"), vec![Message::Ping]);
    assert_eq!(link.silence_limit(), Some(secs(35)));
    link.take(&Event::ping_with(10, Some(20)).encode());
    assert_eq!(link.silence_limit(), Some(secs(25)));
    assert_eq!(
        link.server_hints(),
        ServerHints { ping_every: Some(secs(10)), max_age: Some(secs(20)) }
    );
    assert_eq!(retrying(link.fell_silent()), (Duration::zero(), Cause::Deadman));
    link.opened();
    assert_eq!(link.silence_limit(), None, "a ping on an earlier connection proves nothing");
    assert_eq!(link.server_hints().ping_every, Some(secs(10)), "what it announced is kept");
}

#[test]
fn a_fixed_window_ignores_what_the_server_announces() {
    let mut link = Link::new(Options { deadman: Deadman::Fixed(ms(300)), ..Options::default() });
    link.opened();
    link.take(&Event::ping_every(60).encode());
    assert_eq!(link.silence_limit(), Some(ms(300)));
    let mut link = Link::new(Options { deadman: Deadman::Off, ..Options::default() });
    link.opened();
    link.take(&Event::ping_every(60).encode());
    assert_eq!(link.silence_limit(), None);
}

#[test]
fn a_503_waits_at_least_retry_after() {
    let mut link = Link::new(Options::default());
    let mut headers = HeaderMap::new();
    headers.insert("retry-after", HeaderValue::from_static("7"));
    let (after, cause) = retrying(link.refused(503, &headers, 900));
    assert_eq!(cause, Cause::Http(503));
    assert_eq!(after, secs(7), "Retry-After is the floor");
    // the second attempt draws from 0..2000
    let (after, _) = retrying(link.refused(502, &HeaderMap::new(), 1_900));
    assert_eq!(after, ms(1_900));
    headers.insert("retry-after", HeaderValue::from_static("Wed, 21 Oct 2015"));
    let (after, _) = retrying(link.refused(503, &headers, 3_999));
    assert_eq!(after, ms(3_999), "a date is not read");
}

#[test]
fn failures_back_off_and_a_live_stream_starts_over() {
    let mut link = Link::new(Options::default());
    for cap in [1_000, 2_000, 4_000, 8_000, 16_000, 30_000, 30_000] {
        let (after, cause) = retrying(link.failed("refused".into(), cap - 1));
        assert_eq!(after, ms(cap - 1));
        assert_eq!(cause, Cause::Transport("refused".into()));
    }
    link.opened();
    let (after, _) = retrying(link.failed("reset".into(), 999));
    assert_eq!(after, ms(999));
    let (after, _) = retrying(link.failed("reset".into(), 2_000));
    assert_eq!(after, ms(200), "never below the floor");
}

#[test]
fn a_healthy_stream_is_reopened_at_once() {
    let link = Link::new(Options::default());
    let (after, cause) = retrying(link.ended(secs(5), 1_249));
    assert_eq!(after, ms(249));
    assert_eq!(cause, Cause::Ended);
    let (after, _) = retrying(link.ended(Duration::new(4, 999_999_999), 1_249));
    assert_eq!(after, secs(3), "no hint: the default delay");
    let link = Link::new(Options { eager: None, ..Options::default() });
    assert_eq!(retrying(link.ended(secs(500), 7)).0, secs(3));
}

#[test]
fn a_client_may_choose_not_to_resume() {
    let mut link = Link::new(Options { resume: false, ..Options::default() });
    link.opened();
    link.take(b"id: 5\ndata: x\n\n");
    assert_eq!(link.last_event_id(), Some("5"));
    assert_eq!(link.request_cursor(), None);
    assert!(!link.options().resume);
}

#[test]
fn backoff_waits_follow_the_options() {
    let options = Options {
        backoff: Backoff { base: ms(10), max: ms(50), floor: ms(5) },
        eager: Some(Eager { healthy: Duration::zero(), jitter: ms(5) }),
        ..Options::default()
    };
    assert_eq!(backoff_from(&options, 0, 9), ms(9));
    assert_eq!(backoff_from(&options, 3, 49), ms(49));
    assert_eq!(backoff_from(&options, 3, 50), ms(5));
    for attempt in 0..40 {
        let wait = backoff(&options, attempt);
        assert!(ms(5) <= wait && wait <= ms(50));
    }
    let link = Link::new(options);
    for draw in 0..20 {
        assert!(retrying(link.ended(Duration::zero(), draw)).0 < ms(5));
    }
}

#[test]
fn how_the_bytes_are_cut_does_not_matter() {
    let stream = b"retry: 9\n\nevent: ping\ndata: {\"every\":3}\n\nid: 1\ndata: a\n\nid:\nevent: resync\ndata: {}\n\ndata: b\n\n";
    let mut whole = Link::new(Options::default());
    whole.opened();
    let expected = whole.take(stream);
    assert_eq!(expected.len(), 4);
    for size in 1..stream.len() {
        let mut link = Link::new(Options::default());
        link.opened();
        let mut out = Vec::new();
        for chunk in stream.chunks(size) {
            out.extend(link.take(chunk));
        }
        assert_eq!(out, expected, "chunks of {size}");
        assert_eq!(link.silence_limit(), Some(secs(11)));
    }
    assert_eq!(expected.clone(), expected);
    let status = Message::Status(Status::Retrying { after: ms(1), cause: Cause::Http(500) });
    assert_eq!(status.clone(), status);
}
