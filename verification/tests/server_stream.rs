use solder_sse::error::{LogError, StreamError};
use solder_sse::protocol::{Resync, ResyncReason};
use solder_sse::server::log::{Cursor, EventLog, MemoryLog, Published, Replay};
use solder_sse::server::resume::Resume;
use solder_sse::server::stream::{follow, resumable, Joined};
use solder_sse::time::Duration;
use tokio::sync::broadcast::error::TryRecvError;

type Item = Result<Published<&'static str>, StreamError>;

fn now() -> Duration {
    Duration::from_secs(1)
}

/// A log with `n` events on topic `a`, and their cursors.
fn log_with(n: usize, capacity: usize) -> (MemoryLog<&'static str>, Vec<Cursor>) {
    let mut log = MemoryLog::new(capacity, Duration::from_secs(60));
    let mut cursors = Vec::new();
    for _ in 0..n {
        cursors.push(log.append("a", "logged", &now()).unwrap());
    }
    (log, cursors)
}

fn live(items: Vec<Option<Cursor>>) -> Vec<Item> {
    items
        .into_iter()
        .map(|cursor| {
            Ok(Published {
                cursor,
                event: "live",
            })
        })
        .collect()
}

/// What goes out: the replay, then the live items that are kept.
fn cursors(stream: Joined<&'static str, Vec<Item>>) -> Vec<Option<Cursor>> {
    let mut out: Vec<Option<Cursor>> = stream.replay.iter().map(|p| p.cursor.clone()).collect();
    for item in &stream.live {
        if stream.keep(item) {
            out.push(item.as_ref().unwrap().cursor.clone());
        }
    }
    out
}

fn some(cs: &[Cursor]) -> Vec<Option<Cursor>> {
    cs.iter().cloned().map(Some).collect()
}

#[test]
fn stream_replay_then_live_without_overlap() {
    let (mut log, c) = log_with(4, 100);
    let fresh = Cursor::parse("live-only").unwrap();
    // The live subscription was created before the read and saw 3, 4
    // and a newer event; the client holds 2.
    let r = resumable(
        &mut log,
        "a",
        Resume::Since(c[1].clone()),
        || {
            live(vec![
                Some(c[2].clone()),
                Some(c[3].clone()),
                Some(fresh.clone()),
            ])
        },
        100,
        &now(),
    );
    assert!(r.resync.is_none());
    assert!(!r.snapshot);
    assert_eq!(
        cursors(r.stream),
        some(&[c[2].clone(), c[3].clone(), fresh])
    );
}

#[test]
fn the_clients_own_event_arriving_late_on_the_bus_is_dropped() {
    // The publisher appends, the client sees the event on its previous
    // connection and reconnects, and only then does the publisher's
    // broadcast reach the new subscription: an exact, empty replay
    // must not let it through a second time.
    let (mut log, c) = log_with(2, 100);
    let r = resumable(
        &mut log,
        "a",
        Resume::Since(c[1].clone()),
        || live(vec![Some(c[1].clone())]),
        100,
        &now(),
    );
    assert!(r.resync.is_none());
    assert_eq!(cursors(r.stream), vec![]);
}

#[test]
fn an_unsequenced_live_event_always_passes() {
    let (mut log, c) = log_with(2, 100);
    let r = resumable(
        &mut log,
        "a",
        Resume::Since(c[0].clone()),
        || live(vec![Some(c[1].clone()), None, Some(c[1].clone())]),
        100,
        &now(),
    );
    assert_eq!(cursors(r.stream), vec![Some(c[1].clone()), None]);
}

#[test]
fn stream_first_connection_gets_snapshot_and_all_live() {
    let (mut log, c) = log_with(2, 100);
    let r = resumable(&mut log, "a", Resume::NoCursor, || live(some(&c)), 100, &now());
    assert!(r.snapshot && r.resync.is_none());
    assert_eq!(cursors(r.stream), some(&c));
}

#[test]
fn expired_unknown_and_invalid_cursors_resync_with_snapshot_and_full_live() {
    // capacity 1: the ring holds only the third event, so the first
    // cursor has lost the second
    let (mut log, c) = log_with(3, 1);
    let after = Cursor::parse("after").unwrap();
    let r = resumable(
        &mut log,
        "a",
        Resume::Since(c[0].clone()),
        || live(vec![Some(after.clone())]),
        100,
        &now(),
    );
    assert_eq!(r.resync, Some(Resync::expired(Some(c[2].clone()))));
    assert!(r.snapshot);
    assert_eq!(cursors(r.stream), vec![Some(after.clone())]);

    let foreign = Cursor::parse("another-log-99").unwrap();
    let r = resumable(&mut log, "a", Resume::Since(foreign), || live(vec![]), 100, &now());
    assert_eq!(r.resync, Some(Resync::unknown()));
    assert_eq!(r.resync.unwrap().reason, ResyncReason::Unknown);
    let r = resumable(
        &mut log,
        "a",
        Resume::Invalid,
        || live(vec![Some(after.clone())]),
        100,
        &now(),
    );
    assert_eq!(r.resync, Some(Resync::unknown()));
    assert!(r.snapshot);
    assert_eq!(cursors(r.stream), vec![Some(after)]);
}

#[test]
fn stream_lagged_is_surfaced_not_swallowed() {
    let (tx, mut rx) = tokio::sync::broadcast::channel::<Published<u8>>(2);
    for n in 1..=4 {
        tx.send(Published {
            cursor: Cursor::parse(&n.to_string()).ok(),
            event: 0,
        })
        .unwrap();
    }
    let mut next = || {
        rx.try_recv().map_err(|e| match e {
            TryRecvError::Lagged(n) => StreamError::Lagged(n),
            other => panic!("{other:?}"),
        })
    };
    let own = Cursor::parse("2").unwrap();
    let r = follow(&own, Ok(Replay::Events(vec![])), vec![next(), next()]);
    let mut s = r.stream.live.iter().filter(|item| r.stream.keep(item));
    assert!(matches!(s.next(), Some(Err(StreamError::Lagged(2)))));
    assert_eq!(*s.next().unwrap().as_ref().unwrap().cursor.as_ref().unwrap(), "3");
}

#[test]
fn a_failing_log_must_not_take_the_live_path_down() {
    let own = Cursor::parse("g-7").unwrap();
    let other = Cursor::parse("g-8").unwrap();
    let r = follow(
        &own,
        Err(LogError::Backend("down".into())),
        live(vec![Some(own.clone()), Some(other.clone())]),
    );
    assert_eq!(r.resync, Some(Resync::unknown()));
    assert!(r.snapshot);
    // the client's own event is still not sent again
    assert_eq!(cursors(r.stream), vec![Some(other)]);
}
