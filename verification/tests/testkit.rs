use solder_sse::client::{Cause, Link, Message, Options, Status};
use solder_sse::error::StreamError;
use solder_sse::protocol::{Event, Resync};
use solder_sse::server::log::{EventLog, Published};
use solder_sse::server::response::{Frames, Polled, Step};
use solder_sse::server::resume::Resume;
use solder_sse::testkit::{event_of_body, frame, parse_cut, Chaos, Cut, Stats, TOPIC};
use solder_sse::time::Duration;
use solder_sse::Cursor;
use std::collections::VecDeque;

type Item = Result<Published<u64>, StreamError>;

fn ms(n: u64) -> Duration {
    Duration::from_millis(n)
}

#[test]
fn cuts_are_read_from_words() {
    assert_eq!(parse_cut("never"), Some(Cut::Never));
    assert_eq!(parse_cut("after:5"), Some(Cut::After(5)));
    assert_eq!(parse_cut("abort:0"), Some(Cut::Abort(0)));
    assert_eq!(parse_cut("rotate:8000"), Some(Cut::Rotate(Duration::from_secs(8))));
    for odd in ["", "never:", "after", "after:", "after:x", "abort:-1", "rotate:1:2", "Never", "take:3"] {
        assert_eq!(parse_cut(odd), None, "{odd}");
    }
}

#[test]
fn ticks_carry_their_cursor_and_errors_are_told_in_words() {
    let cursor = Cursor::parse("g-4").ok();
    assert_eq!(frame(Ok(Published { cursor, event: 17 })).encode(), "id: g-4\nevent: tick\ndata: 17\n\n");
    assert_eq!(frame(Ok(Published { cursor: None, event: 0 })), Event::named("tick").data("0"));
    assert_eq!(
        frame(Err(StreamError::Lagged(3))).encode(),
        "event: error\ndata: consumer lagged by 3 events\n\n"
    );
}

#[test]
fn a_published_body_is_decimal_text() {
    assert_eq!(event_of_body(b"42"), Some(42));
    assert_eq!(event_of_body(" \t7\r\n".as_bytes()), Some(7));
    assert_eq!(event_of_body("\u{2003}8\u{a0}".as_bytes()), Some(8));
    for odd in [&b""[..], b"x", b"-1", b"1 2", b"18446744073709551616", b"1\xFF", b"\xFF"] {
        assert_eq!(event_of_body(odd), None, "{odd:?}");
    }
}

#[test]
fn a_cut_ends_or_resets_after_its_events() {
    let item = || Ok(Published { cursor: None, event: 1 });
    assert!(!Cut::After(2).ends_at(1) && Cut::After(2).ends_at(2));
    assert!(!Cut::Abort(2).ends_at(9) && !Cut::Never.ends_at(9));
    assert!(Cut::Abort(2).pass(1, item()).is_some());
    assert!(Cut::Abort(2).pass(2, item()).is_none());
    assert!(Cut::Never.pass(usize::MAX, item()).is_some());
    assert_eq!(Cut::Rotate(ms(1)).pass(0, item()), Some(Event::named("tick").data("1")));
}

#[test]
fn settings_are_kept_and_connections_are_counted() {
    let mut chaos = Chaos::new(Cut::Never)
        .restart_on_connection(2)
        .with_retry(ms(9))
        .with_keep_alive(ms(20));
    assert_eq!((chaos.retry, chaos.keep_alive), (ms(9), ms(20)));
    let cursor = chaos.publish(5, &ms(0)).cursor.unwrap();
    assert!(!chaos.count_connection(&Resume::NoCursor));
    assert_eq!(chaos.log.last_seq(), 1);
    assert!(chaos.count_connection(&Resume::Since(cursor)));
    assert_eq!(chaos.log.last_seq(), 0, "the log was swapped for a fresh one");
    assert!(!chaos.count_connection(&Resume::Invalid));
    assert_eq!(chaos.stats, Stats { connections: 3, resumed_requests: 1 });
    assert_eq!(Stats::default(), Stats { connections: 0, resumed_requests: 0 });
}

#[test]
fn a_rotating_server_announces_its_age() {
    let mut chaos = Chaos::new(Cut::Rotate(Duration::from_secs(1)));
    let (builder, joined) = chaos.open(Resume::NoCursor, Vec::<Item>::new, &ms(0));
    let (_, body) = builder.build(joined, &ms(0)).into_parts();
    let mut frames = body.frames;
    let mut wire = Vec::new();
    while let Some(Step::Frame(b)) = frames.begin::<()>(&ms(0)) {
        wire.extend_from_slice(&b);
    }
    assert_eq!(
        wire,
        b"retry: 50\n\nevent: ping\ndata: {\"every\":15,\"max_age\":1}\n\n"
    );
    assert!(matches!(frames.step::<()>(Polled::Pending, &ms(199)), Step::Wait));
    assert!(matches!(frames.begin::<()>(&ms(1_000)), Some(Step::End)));
}

/// What one connection sends: everything up to the cut, and whether it ended
/// with a reset.
fn serve(chaos: &mut Chaos, link: &Link, live: Vec<Item>) -> (Vec<u8>, bool) {
    let resume = match link.request_cursor() {
        Some(token) => Resume::Since(Cursor::parse(token).unwrap()),
        None => Resume::NoCursor,
    };
    chaos.count_connection(&resume);
    let (builder, mut joined) = chaos.open(resume, || live, &ms(0));
    let mut items: Vec<Item> = joined.replay.drain(..).map(Ok).collect();
    let later = std::mem::take(&mut joined.live);
    items.extend(later.into_iter().filter(|item| joined.keep(item)));
    let (_, body) = builder.build(joined, &ms(0)).into_parts();
    let mut frames = body.frames;
    let mut wire = Vec::new();
    let mut items = items.into_iter();
    let mut index = 0;
    loop {
        let polled = match frames.begin::<()>(&ms(0)) {
            Some(Step::Frame(b)) => {
                wire.extend_from_slice(&b);
                continue;
            }
            Some(_) => return (wire, false),
            None if chaos.cut.ends_at(index) => Polled::Ended,
            None => match items.next() {
                None => Polled::Pending,
                Some(item) => match chaos.cut.pass(index, item) {
                    Some(event) => Polled::Event(event),
                    None => Polled::Failed(()),
                },
            },
        };
        index += 1;
        match frames.step(polled, &ms(0)) {
            Step::Frame(b) => wire.extend_from_slice(&b),
            Step::Failed(()) => return (wire, true),
            Step::End | Step::Wait => return (wire, false),
        }
    }
}

fn numbers(messages: &[Message]) -> Vec<u64> {
    messages
        .iter()
        .filter_map(|m| match m {
            Message::Event(f) => Some(f.data.parse().unwrap()),
            _ => None,
        })
        .collect()
}

#[test]
fn every_event_exactly_once_across_cuts() {
    let mut chaos = Chaos::new(Cut::After(5));
    let mut link = Link::new(Options::default());
    let mut seen = Vec::new();
    let mut cursors = Vec::new();
    // the first connection carries no cursor: it is live before the producer
    // starts
    let mut live: Vec<Item> = Vec::new();
    for event in 1..=60 {
        let p = chaos.publish(event, &ms(0));
        cursors.push(p.cursor.clone().unwrap());
        live.push(Ok(p));
    }
    let mut connections = 0;
    while seen.len() < 60 {
        link.opened();
        let live = std::mem::take(&mut live);
        let (wire, _) = serve(&mut chaos, &link, live);
        let messages = link.take(&wire);
        assert!(messages.contains(&Message::Ping), "a ping at every connect");
        seen.extend(numbers(&messages));
        assert!(matches!(
            link.ended(Duration::from_secs(9), 0),
            Status::Retrying { cause: Cause::Ended, .. }
        ));
        connections += 1;
        assert!(connections <= 12);
    }
    assert_eq!(seen, (1..=60).collect::<Vec<_>>(), "contiguous, no repeats");
    assert!(
        chaos.stats.resumed_requests >= 10,
        "every reconnect after the first carried a cursor"
    );
    assert_eq!(
        link.last_event_id(),
        Some(cursors.last().unwrap().as_str()),
        "the cursor in force is the last event's, as the server issued it"
    );
}

#[test]
fn an_aborted_connection_is_a_transport_error_and_still_resumes() {
    // The body errors after 5 events: no terminating chunk, the way a
    // load-balancer timeout or a dropped network looks from the client.
    let mut chaos = Chaos::new(Cut::Abort(5));
    let mut link = Link::new(Options::default());
    let mut live: Vec<Item> = (1..=40).map(|event| Ok(chaos.publish(event, &ms(0)))).collect();
    let mut seen = Vec::new();
    let mut causes = Vec::new();
    while seen.len() < 40 {
        link.opened();
        let live = std::mem::take(&mut live);
        let (mut wire, reset) = serve(&mut chaos, &link, live);
        if reset {
            // the reset tears the last frame
            wire.truncate(wire.len() - 3);
        }
        seen.extend(numbers(&link.take(&wire)));
        if reset {
            let Status::Retrying { cause, .. } = link.failed("reset".into(), 0) else {
                panic!("a failed read waits");
            };
            causes.push(cause);
        }
    }
    assert_eq!(seen, (1..=40).collect::<Vec<_>>(), "replay closed every gap");
    assert!(
        !causes.is_empty() && causes.iter().all(|c| matches!(c, Cause::Transport(_))),
        "an abrupt close is a transport error, never a clean end: {causes:?}"
    );
    assert!(chaos.stats.resumed_requests >= 5);
}

/// One connection: the frames of its response and what waits to be sent.
struct Connection {
    frames: Frames,
    queue: VecDeque<Item>,
}

fn connect(chaos: &mut Chaos, link: &mut Link, now: Duration) -> Connection {
    let resume = match link.request_cursor() {
        Some(token) => Resume::Since(Cursor::parse(token).unwrap()),
        None => Resume::NoCursor,
    };
    link.opened();
    let (builder, mut joined) = chaos.open(resume, || (), &now);
    let queue = joined.replay.drain(..).map(Ok).collect();
    let (_, body) = builder.build(joined, &now).into_parts();
    Connection {
        frames: body.frames,
        queue,
    }
}

/// Send what there is to send; true when the response has ended.
fn pump(connection: &mut Connection, cut: Cut, link: &mut Link, seen: &mut Vec<Message>, now: Duration) -> bool {
    loop {
        let step = match connection.frames.begin::<()>(&now) {
            Some(step) => step,
            None => {
                let polled = match connection.queue.pop_front() {
                    Some(item) => Polled::Event(cut.pass(0, item).unwrap()),
                    None => Polled::Pending,
                };
                connection.frames.step(polled, &now)
            }
        };
        match step {
            Step::Frame(b) => seen.extend(link.take(&b)),
            Step::Failed(()) => panic!("a rotation is not an error"),
            Step::End => return true,
            Step::Wait => return false,
        }
    }
}

#[test]
fn a_rotated_stream_ends_cleanly_announces_its_age_and_resumes() {
    // Every response lives 1s; the producer runs ~1.5s, so at least one
    // rotation falls inside the run.
    let mut chaos = Chaos::new(Cut::Rotate(Duration::from_secs(1)));
    let mut link = Link::new(Options::default());
    let mut seen = Vec::new();
    let mut rotations = 0;
    let mut connection = connect(&mut chaos, &mut link, ms(0));
    let cut = chaos.cut;
    for event in 1..=150 {
        let now = ms(10 * event);
        connection.queue.push_back(Ok(chaos.publish(event, &now)));
        // what the old response no longer sends, the new one replays
        while pump(&mut connection, cut, &mut link, &mut seen, now) {
            rotations += 1;
            connection = connect(&mut chaos, &mut link, now);
        }
    }
    assert_eq!(numbers(&seen), (1..=150).collect::<Vec<_>>());
    let resyncs = seen.iter().filter(|m| matches!(m, Message::Resync(_))).count();
    assert_eq!(resyncs, 0, "one lifetime is well inside retention");
    assert_eq!(rotations, 1);
    assert_eq!(
        link.server_hints().max_age,
        Some(Duration::from_secs(1)),
        "the ping announced the nominal age"
    );
}

#[test]
fn a_server_restart_is_one_resync_and_nothing_is_mistaken_for_old() {
    // Connections 1–4 carry events 1..=20 (five each); the 5th request
    // arrives with the 20th cursor at a server whose log is new →
    // `resync (unknown)`, cursor dropped, then the new log's events — under
    // cursors of a new generation, none of them one the client has seen.
    let mut chaos = Chaos::new(Cut::After(5)).restart_on_connection(5);
    let mut link = Link::new(Options::default());
    let mut live: Vec<Item> = (1..=20).map(|event| Ok(chaos.publish(event, &ms(0)))).collect();
    let old: Vec<Cursor> = live.iter().map(|p| p.as_ref().unwrap().cursor.clone().unwrap()).collect();
    let mut before = Vec::new();
    for _ in 0..4 {
        link.opened();
        let live = std::mem::take(&mut live);
        let (wire, _) = serve(&mut chaos, &link, live);
        before.extend(link.take(&wire));
    }
    assert_eq!(numbers(&before), (1..=20).collect::<Vec<_>>());

    link.opened();
    let (wire, _) = serve(&mut chaos, &link, vec![]);
    let mut after = link.take(&wire);
    assert_eq!(link.last_event_id(), None);
    let live: Vec<Item> = (100..=104).map(|event| Ok(chaos.publish(event, &ms(0)))).collect();
    let new: Vec<Cursor> = live.iter().map(|p| p.as_ref().unwrap().cursor.clone().unwrap()).collect();
    link.opened();
    let (wire, _) = serve(&mut chaos, &link, live);
    after.extend(link.take(&wire));
    let resyncs = after.iter().filter(|m| matches!(m, Message::Resync(_))).count();
    assert_eq!(resyncs, 1, "exactly one resync for the restart");
    assert!(after.contains(&Message::Resync(Resync::unknown())));
    assert_eq!(numbers(&after), (100..=104).collect::<Vec<_>>());
    assert!(
        new.iter().all(|c| !old.contains(c)),
        "a new generation shares no cursor with the old: {new:?}"
    );
    assert_eq!(link.last_event_id(), Some(new.last().unwrap().as_str()));
}

#[test]
fn a_restart_forgets_every_cursor() {
    let mut chaos = Chaos::new(Cut::Never);
    let p = chaos.publish(1, &ms(0));
    chaos.restart();
    let answer = chaos.log.since(TOPIC, &p.cursor.unwrap(), 500, &ms(0)).unwrap();
    assert_eq!(answer, solder_sse::server::log::Replay::Unknown);
}
