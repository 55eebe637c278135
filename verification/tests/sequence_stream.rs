use solder_sse::error::{LogError, StreamError};
use solder_sse::protocol::ResyncReason;
use solder_sse::sequence::log::{EventLog, MemoryLog, Published, Replay};
use solder_sse::sequence::resume::Resume;
use solder_sse::sequence::stream::{follow, resumable, Joined};
use solder_sse::time::Duration;
use tokio::sync::broadcast::error::TryRecvError;

type Item = Result<Published<&'static str>, StreamError>;

fn live(seqs: &[u64]) -> Vec<Item> {
    seqs.iter()
        .map(|&seq| Ok(Published { seq, event: "live" }))
        .collect()
}

/// What goes out: the replay, then the live items that are kept.
fn seqs(stream: Joined<&'static str, Vec<Item>>) -> Vec<u64> {
    let mut out: Vec<u64> = stream.replay.iter().map(|p| p.seq).collect();
    for item in &stream.live {
        if stream.keep(item) {
            out.push(item.as_ref().unwrap().seq);
        }
    }
    out
}

fn now() -> Duration {
    Duration::from_secs(1)
}

#[test]
fn replay_then_live_without_overlap() {
    let mut log = MemoryLog::new(100, Duration::from_secs(60));
    for e in ["1", "2", "3", "4"] {
        log.append("a", e, &now()).unwrap();
    }
    // live subscription was created before the read and saw 3, 4, 5
    let r = resumable(&mut log, "a", Resume::Since(2), || live(&[3, 4, 5]), 100, &now());
    assert!(r.resync.is_none());
    assert!(!r.snapshot);
    assert_eq!(seqs(r.stream), vec![3, 4, 5]);
}

#[test]
fn an_unsequenced_live_event_passes_the_replay_floor() {
    let mut log = MemoryLog::new(100, Duration::from_secs(60));
    for e in ["1", "2"] {
        log.append("a", e, &now()).unwrap();
    }
    let r = resumable(&mut log, "a", Resume::Since(1), || live(&[2, 0, 3]), 100, &now());
    assert_eq!(seqs(r.stream), vec![2, 0, 3]);
}

#[test]
fn first_connection_gets_snapshot_and_all_live() {
    let mut log = MemoryLog::<&str>::new(100, Duration::from_secs(60));
    let r = resumable(&mut log, "a", Resume::NoCursor, || live(&[1, 2]), 100, &now());
    assert!(r.snapshot && r.resync.is_none());
    assert_eq!(seqs(r.stream), vec![1, 2]);
}

#[test]
fn expired_and_unknown_cursors_resync_with_snapshot_and_full_live() {
    // capacity 1: the ring holds only seq 3, so a cursor of 1 has lost 2
    let mut log = MemoryLog::new(1, Duration::from_secs(60));
    for e in ["1", "2", "3"] {
        log.append("a", e, &now()).unwrap();
    }
    let r = resumable(&mut log, "a", Resume::Since(1), || live(&[4]), 100, &now());
    assert_eq!(r.resync, Some((ResyncReason::Expired, 3)));
    assert!(r.snapshot);
    assert_eq!(seqs(r.stream), vec![4]);

    let r = resumable(&mut log, "a", Resume::Since(99), || live(&[4]), 100, &now());
    assert_eq!(r.resync, Some((ResyncReason::Unknown, 0)));
    let r = resumable(&mut log, "a", Resume::Malformed, || live(&[4]), 100, &now());
    assert_eq!(r.resync, Some((ResyncReason::Unknown, 0)));
    assert_eq!(seqs(r.stream), vec![4]);
}

#[test]
fn lagged_is_surfaced_not_swallowed() {
    let (tx, mut rx) = tokio::sync::broadcast::channel::<Published<u8>>(2);
    for seq in 1..=4 {
        tx.send(Published { seq, event: 0 }).unwrap();
    }
    let mut next = || {
        rx.try_recv().map_err(|e| match e {
            TryRecvError::Lagged(n) => StreamError::Lagged(n),
            other => panic!("{other:?}"),
        })
    };
    let r = follow(2, Ok(Replay::Events(vec![])), vec![next(), next()]);
    let mut s = r.stream.live.iter().filter(|item| r.stream.keep(item));
    assert!(matches!(s.next(), Some(Err(StreamError::Lagged(2)))));
    assert_eq!(s.next().unwrap().as_ref().unwrap().seq, 3);
    assert_eq!(StreamError::Lagged(2).to_text(), "consumer lagged by 2 events");
}

#[test]
fn a_failing_log_serves_a_snapshot_and_the_live_stream() {
    let r = follow(7, Err(LogError::Backend("down".into())), live(&[8, 9]));
    assert_eq!(r.resync, Some((ResyncReason::Unknown, 0)));
    assert!(r.snapshot);
    assert_eq!(seqs(r.stream), vec![8, 9]);
    let e = StreamError::from(LogError::Backend("down".into()));
    assert_eq!(e.to_text(), "event log backend: down");
}

#[test]
fn live_events_at_or_below_the_cursor_are_not_sent_again() {
    let mut log = MemoryLog::new(100, Duration::from_secs(60));
    for e in ["1", "2", "3"] {
        log.append("a", e, &now()).unwrap();
    }
    // an empty replay: the floor is the cursor itself
    let r = resumable(&mut log, "a", Resume::Since(3), || live(&[2, 3, 4]), 100, &now());
    assert_eq!(seqs(r.stream), vec![4]);
}
