use bytes::Bytes;
use solder_sse::protocol::{Event, Resync};
use solder_sse::server::response::{
    unavailable, Frames, MaxAge, Polled, SseResponseBuilder, Step, CONTENT_TYPE_VALUE,
};
use solder_sse::server::resume::Resume;
use solder_sse::time::Duration;

fn ms(millis: u64) -> Duration {
    Duration::from_millis(millis)
}

/// The next frame at `now` of a body whose event stream gives `polled`.
fn poll(frames: &mut Frames, polled: Polled<String>, now: Duration) -> Step<String> {
    match frames.begin(&now) {
        Some(step) => step,
        None => frames.step(polled, &now),
    }
}

fn quiet(frames: &mut Frames, now: Duration) -> Step<String> {
    poll(frames, Polled::Pending, now)
}

fn bytes(step: Step<String>) -> Bytes {
    match step {
        Step::Frame(b) => b,
        Step::Failed(e) => panic!("failed: {e}"),
        Step::End => panic!("ended"),
        Step::Wait => panic!("nothing to send"),
    }
}

/// Everything a body sends at once for a finished event stream.
fn all_frames(mut frames: Frames, events: Vec<Event>) -> String {
    let mut out = Vec::new();
    let mut events = events.into_iter();
    loop {
        if let Some(step) = frames.begin::<String>(&ms(0)) {
            match step {
                Step::End => return String::from_utf8(out).unwrap(),
                step => out.extend_from_slice(&bytes(step)),
            }
            continue;
        }
        let polled = events.next().map_or(Polled::Ended, Polled::Event);
        match frames.step::<String>(polled, &ms(0)) {
            Step::End => return String::from_utf8(out).unwrap(),
            step => out.extend_from_slice(&bytes(step)),
        }
    }
}

#[test]
fn retry_then_head_then_events() {
    let (headers, body) = SseResponseBuilder::new()
        .retry(ms(750))
        .no_keep_alive()
        .resync(Some(Resync::unknown()))
        .head(Event::comment("snapshot"))
        .build((), &ms(0))
        .into_parts();
    assert_eq!(headers["content-type"], CONTENT_TYPE_VALUE);
    assert_eq!(headers["cache-control"], "no-cache, no-transform");
    assert_eq!(headers["x-accel-buffering"], "no");
    assert_eq!(headers.len(), 3);
    assert_eq!(
        all_frames(body.frames, vec![Event::named("a").id("1").data("x")]),
        "retry: 750\n\nid: \nevent: resync\ndata: {\"reason\":\"unknown\",\"earliest\":null}\n\n: snapshot\n\nid: 1\nevent: a\ndata: x\n\n"
    );
}

#[test]
fn pings_while_quiet_and_resets_on_traffic() {
    let (_, body) = SseResponseBuilder::new()
        .no_retry()
        .keep_alive(Duration::from_secs(15))
        .build((), &ms(0))
        .into_parts();
    let mut f = body.frames;
    // one ping at connect, then two more over 31s of silence
    let ping = "event: ping\ndata: {\"every\":15}\n\n";
    assert_eq!(bytes(quiet(&mut f, ms(0))), ping);
    assert!(matches!(quiet(&mut f, ms(0)), Step::Wait));
    assert!(matches!(quiet(&mut f, ms(14_999)), Step::Wait));
    assert_eq!(f.wake_at(), Some(Duration::from_secs(15)));
    assert_eq!(bytes(quiet(&mut f, ms(15_000))), ping);
    assert!(matches!(quiet(&mut f, ms(29_999)), Step::Wait));
    assert_eq!(bytes(quiet(&mut f, ms(30_000))), ping);
    // an event resets the timer: nothing for the next 14s
    let ev = poll(&mut f, Polled::Event(Event::named("a").id("1")), ms(31_000));
    assert_eq!(bytes(ev), "id: 1\nevent: a\n\n");
    assert!(matches!(quiet(&mut f, ms(45_000)), Step::Wait));
    assert_eq!(f.wake_at(), Some(ms(46_000)));
    // stream ended → body ends
    assert!(matches!(poll(&mut f, Polled::Ended, ms(45_500)), Step::End));
    assert!(f.is_end_stream());
    assert!(matches!(quiet(&mut f, ms(60_000)), Step::End));
}

#[test]
fn rotation_ends_the_body_at_its_deadline_after_pinging_until_then() {
    let (_, body) = SseResponseBuilder::new()
        .no_retry()
        .keep_alive(ms(400))
        .max_age_jitter(1_000..1_001)
        .build((), &ms(0))
        .into_parts();
    let mut f = body.frames;
    // the connect ping, then one per 400ms of silence: 0, 400, 800
    for due in [0, 400, 800] {
        let frame = bytes(quiet(&mut f, ms(due)));
        assert!(frame.starts_with(b"event: ping"), "{frame:?}");
    }
    assert_eq!(f.wake_at(), Some(ms(1_000)));
    assert!(matches!(quiet(&mut f, ms(999)), Step::Wait));
    assert!(!f.is_end_stream());
    assert!(matches!(quiet(&mut f, ms(1_000)), Step::End), "the body ends on its own");
    assert!(f.is_end_stream());
}

#[test]
fn head_frames_are_delivered_even_past_the_deadline() {
    // A connect snapshot must always reach the client; only live events
    // are left for the next connection (the log replays them).
    let (_, body) = SseResponseBuilder::new()
        .no_retry()
        .no_keep_alive()
        .resync(Some(Resync::unknown()))
        .head(Event::comment("snapshot"))
        .max_age_jitter(0..1)
        .build((), &ms(0))
        .into_parts();
    let mut f = body.frames;
    let mut next = || poll(&mut f, Polled::Event(Event::named("a").id("1")), ms(5));
    let a = bytes(next());
    assert!(a.starts_with(b"id: \nevent: resync"), "{a:?}");
    let b = bytes(next());
    assert_eq!(b, ": snapshot\n\n");
    assert!(matches!(next(), Step::End));
}

#[test]
fn the_ping_announces_the_nominal_max_age_in_whole_seconds() {
    fn first(b: SseResponseBuilder) -> Bytes {
        let (_, body) = b.no_retry().build((), &ms(0)).into_parts();
        let mut f = body.frames;
        bytes(poll(&mut f, Polled::Ended, ms(0)))
    }
    assert_eq!(
        first(SseResponseBuilder::new().max_age(Duration::from_secs(30))),
        "event: ping\ndata: {\"every\":15,\"max_age\":30}\n\n"
    );
    assert_eq!(
        first(SseResponseBuilder::new().max_age_jitter(20_000..40_001)),
        "event: ping\ndata: {\"every\":15,\"max_age\":30}\n\n"
    );
    // under a second there is nothing worth announcing
    assert_eq!(
        first(SseResponseBuilder::new().max_age_jitter(500..600)),
        "event: ping\ndata: {\"every\":15}\n\n"
    );
}

#[test]
fn max_age_draws_from_a_ten_percent_window() {
    let b = SseResponseBuilder::new().max_age(Duration::from_secs(30));
    assert_eq!(
        b.max_age,
        Some(MaxAge {
            millis: 27_000..33_001,
            announced_secs: 30
        })
    );
    let b = SseResponseBuilder::new().max_age_jitter(300..301);
    assert_eq!(b.max_age.unwrap().announced_secs, 0);
    // a configuration's 0 passes through as "never", and unsets
    let b = SseResponseBuilder::new().max_age(Duration::zero());
    assert_eq!(b.max_age, None);
    let b = SseResponseBuilder::new()
        .max_age(Duration::from_secs(30))
        .max_age(Duration::zero());
    assert_eq!(b.max_age, None);
}

#[test]
fn extractor_reads_header_and_query_and_response_is_event_stream() {
    fn handler(request: http::Request<()>) -> (http::HeaderMap, String) {
        let (parts, ()) = request.into_parts();
        let words = match Resume::from_parts(&parts) {
            Resume::Since(c) => c.as_str().to_owned(),
            Resume::NoCursor => "none".to_owned(),
            Resume::Invalid => "invalid".to_owned(),
        };
        let (headers, body) = SseResponseBuilder::new()
            .no_retry()
            .no_keep_alive()
            .build((), &ms(0))
            .into_parts();
        (headers, all_frames(body.frames, vec![Event::named("cursor").data(&words)]))
    }
    let (headers, body) = handler(
        http::Request::builder()
            .uri("/s?last_event_id=g-5")
            .header("last-event-id", "g-9")
            .body(())
            .unwrap(),
    );
    assert_eq!(headers["content-type"], CONTENT_TYPE_VALUE);
    assert_eq!(body, "event: cursor\ndata: g-9\n\n");
    let (_, body) = handler(
        http::Request::builder()
            .uri("/s?last_event_id=g-5")
            .body(())
            .unwrap(),
    );
    assert_eq!(body, "event: cursor\ndata: g-5\n\n");
}

#[test]
fn unavailable_is_503_with_retry_after() {
    let resp = unavailable(Duration::from_secs(2));
    assert_eq!(resp.status, 503);
    assert_eq!(resp.headers["retry-after"], "2");
}

#[test]
fn unavailable_maps_to_503() {
    let res = unavailable(Duration::from_secs(2));
    let mut response = http::Response::new(res.body);
    *response.status_mut() = http::StatusCode::from_u16(res.status).unwrap();
    *response.headers_mut() = res.headers;
    assert_eq!(response.status(), 503);
    assert_eq!(response.headers()["retry-after"], "2");
    assert_eq!(response.body(), "stream unavailable");
    // never less than a second
    assert_eq!(unavailable(ms(20)).headers["retry-after"], "1");
}

#[test]
fn the_defaults_open_with_a_jittered_hint_and_a_ping() {
    for draw in [0, 250, 499, 12_345] {
        let (_, body) = SseResponseBuilder::new().build_with((), draw, 0, &ms(0)).into_parts();
        let hint = 500 + draw % 500;
        assert_eq!(
            all_frames(body.frames, vec![]),
            format!("retry: {hint}\n\nevent: ping\ndata: {{\"every\":15}}\n\n")
        );
    }
    let (_, body) = SseResponseBuilder::new().build((), &ms(0)).into_parts();
    let wire = all_frames(body.frames, vec![]);
    let hint: u64 = wire["retry: ".len()..].split('\n').next().unwrap().parse().unwrap();
    assert!((500..1000).contains(&hint));
}

#[test]
fn a_lifetime_is_drawn_per_connection_within_the_window() {
    let b = SseResponseBuilder::new().no_keep_alive().max_age(Duration::from_secs(30));
    for (draw, age) in [(0, 27_000), (3_000, 30_000), (6_000, 33_000), (6_001, 27_000)] {
        let (_, body) = b.clone().build_with((), 0, draw, &ms(1_000)).into_parts();
        assert_eq!(body.frames.wake_at(), Some(ms(1_000 + age)));
    }
    let (_, body) = b.build((), &ms(0)).into_parts();
    let age = body.frames.wake_at().unwrap().as_millis();
    assert!((27_000..=33_000).contains(&age));
}

#[test]
fn an_error_ends_the_body() {
    let (_, body) = SseResponseBuilder::new()
        .retry_jitter(5..6)
        .no_keep_alive()
        .build("events", &ms(0))
        .into_parts();
    assert_eq!(body.events, "events");
    let mut f = body.frames;
    assert_eq!(bytes(quiet(&mut f, ms(0))), "retry: 5\n\n");
    assert!(matches!(poll(&mut f, Polled::Failed("reset".into()), ms(0)), Step::Failed(e) if e == "reset"));
    assert!(matches!(quiet(&mut f, ms(0)), Step::End));
    // a body without timers waits for the stream alone
    assert_eq!(f.wake_at(), None);
}
