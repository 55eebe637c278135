use http::{HeaderMap, HeaderValue};
use solder_sse::client::{Cause, Deadman, Message, Options, Status};
use solder_sse::protocol::{Event, Resync};
use solder_sse::session::{Act, Input, Phase, Session, Turn};
use solder_sse::time::Duration;

fn secs(n: u64) -> Duration {
    Duration::from_secs(n)
}

fn ms(n: u64) -> Duration {
    Duration::from_millis(n)
}

fn connected(options: Options) -> Session {
    let (mut session, turn) = Session::start(options);
    assert_eq!(turn.messages, vec![Message::Status(Status::Connecting)]);
    assert_eq!(turn.act, Act::Request);
    let turn = open(&mut session, 0);
    assert_eq!(turn.messages, vec![Message::Status(Status::Live)]);
    assert_eq!(turn.act, Act::Read(None));
    session
}

fn open(session: &mut Session, at: u64) -> Turn {
    let headers = HeaderMap::new();
    session.turn(Input::Head { status: 200, headers: &headers }, 0, &ms(at))
}

fn pause(turn: Turn) -> (Duration, Cause) {
    assert_eq!(turn.messages.len(), 1);
    match &turn.messages[0] {
        Message::Status(Status::Retrying { after, cause }) => {
            assert_eq!(turn.act, Act::Sleep(*after));
            (*after, cause.clone())
        }
        other => panic!("{other:?}"),
    }
}

#[test]
fn a_stream_that_ends_is_reopened_with_its_cursor() {
    let mut session = connected(Options::default());
    assert_eq!(session.phase(), Phase::Reading { opened: ms(0) });
    let turn = session.turn(Input::Chunk(b"id: g-1\ndata: x\n\n"), 0, &ms(10));
    assert_eq!(turn.messages.len(), 1);
    assert_eq!(turn.act, Act::Read(None));
    // live for 5s: at once, within 250ms
    assert_eq!(pause(session.turn(Input::Ended, 600, &ms(5_000))), (ms(100), Cause::Ended));
    assert_eq!(session.phase(), Phase::Waiting);
    let turn = session.turn(Input::Waited, 0, &ms(5_100));
    assert_eq!(turn.messages, vec![Message::Status(Status::Connecting)]);
    assert_eq!(turn.act, Act::Request);
    assert_eq!(session.request_cursor(), Some("g-1"));
    open(&mut session, 5_200);
    assert_eq!(session.memory().last_event_id(), Some("g-1"));
    // live for less: the default delay, as no hint came
    assert_eq!(pause(session.turn(Input::Ended, 600, &ms(10_199))), (secs(3), Cause::Ended));
}

#[test]
fn the_hint_of_the_server_is_what_a_short_stream_waits() {
    let mut session = connected(Options::default());
    let turn = session.turn(Input::Chunk(b"retry: 750\n\n"), 0, &ms(1));
    assert!(turn.messages.is_empty());
    assert_eq!(pause(session.turn(Input::Ended, 0, &ms(2))), (ms(750), Cause::Ended));
}

#[test]
fn a_503_waits_at_least_retry_after_and_a_ping_arms_the_deadman() {
    let (mut session, _) = Session::start(Options::default());
    let mut headers = HeaderMap::new();
    headers.insert("retry-after", HeaderValue::from_static("1"));
    let (after, cause) = pause(session.turn(Input::Head { status: 503, headers: &headers }, 400, &ms(0)));
    assert_eq!(cause, Cause::Http(503));
    assert!(after >= secs(1), "Retry-After is the floor: {after:?}");

    // A quiet stream that pings: the dead-man is armed by the first one.
    let mut session = connected(Options {
        deadman: Deadman::Fixed(ms(300)),
        ..Options::default()
    });
    let turn = session.turn(Input::Chunk(&Event::ping().encode()), 0, &ms(0));
    assert_eq!(turn.messages, vec![Message::Ping]);
    assert_eq!(turn.act, Act::Read(Some(ms(300))));
    let hints = session.memory().server_hints();
    assert_eq!(hints.ping_every, Some(secs(15)));
    assert_eq!(hints.max_age, None);
    assert_eq!(pause(session.turn(Input::Silent, 0, &ms(301))), (Duration::zero(), Cause::Deadman));
}

#[test]
fn failures_back_off_until_a_stream_is_live() {
    let (mut session, _) = Session::start(Options::default());
    let unsent = |session: &mut Session, draw| {
        let paused = pause(session.turn(Input::Unsent("refused".into()), draw, &ms(0)));
        session.turn(Input::Waited, 0, &ms(0));
        paused
    };
    let cause = Cause::Transport("refused".into());
    assert_eq!(unsent(&mut session, 999), (ms(999), cause.clone()));
    assert_eq!(unsent(&mut session, 1_999), (ms(1_999), cause.clone()));
    assert_eq!(unsent(&mut session, 4_000), (ms(200), cause));
    open(&mut session, 0);
    let (after, cause) = pause(session.turn(Input::Broken("reset".into()), 1_000, &ms(1)));
    assert_eq!((after, cause), (ms(200), Cause::Transport("reset".into())));
}

#[test]
fn a_rejected_cursor_is_not_presented_again() {
    let mut session = connected(Options::default());
    session.turn(Input::Chunk(b"id: g-7\ndata: x\n\n"), 0, &ms(0));
    let turn = session.turn(Input::Chunk(&Event::resync_of(&Resync::unknown()).encode()), 0, &ms(0));
    assert_eq!(turn.messages, vec![Message::Resync(Resync::unknown())]);
    pause(session.turn(Input::Ended, 0, &ms(1)));
    session.turn(Input::Waited, 0, &ms(2));
    assert_eq!(session.request_cursor(), None);
}

#[test]
fn the_head_has_its_own_limit_and_the_stream_has_none() {
    let mut session = connected(Options { connect_timeout: ms(300), ..Options::default() });
    assert_eq!(session.head_limit(), ms(300));
    let turn = session.turn(Input::Chunk(b"data: x\n\n"), 0, &secs(60));
    assert_eq!(turn.act, Act::Read(None));
    assert_eq!(Session::start(Options::default()).0.head_limit(), secs(20));
}
