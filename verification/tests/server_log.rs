use solder_sse::server::log::{Cursor, EventLog, MemoryLog, Published, Replay};
use solder_sse::time::Duration;
use std::sync::{Arc, Mutex};

fn log() -> MemoryLog<&'static str> {
    MemoryLog::new(4, Duration::from_secs(60))
}

fn at(secs: u64) -> Duration {
    Duration::from_secs(secs)
}

/// The sequences of a replay, for assertions on order and boundaries.
fn seqs<E>(log: &MemoryLog<E>, replay: Replay<E>) -> Vec<u64> {
    let Replay::Events(v) = replay else {
        panic!("expected events, got {}", describe(&replay))
    };
    v.iter()
        .map(|p| log.seq_of(p.cursor.as_ref().unwrap()).unwrap())
        .collect()
}

fn describe<E>(r: &Replay<E>) -> &'static str {
    match r {
        Replay::Events(_) => "events",
        Replay::Expired { .. } => "expired",
        Replay::Unknown => "unknown",
    }
}

#[test]
fn cursors_are_the_generation_and_a_global_sequence_from_one() {
    let mut l = log();
    let a1 = l.append("a", "a1", &at(0)).unwrap();
    let b1 = l.append("b", "b1", &at(0)).unwrap();
    let a2 = l.append("a", "a2", &at(0)).unwrap();
    let g = l.generation();
    assert_eq!(g.len(), 8);
    assert_eq!(a1, format!("{g}-1").as_str());
    assert_eq!(b1, format!("{g}-2").as_str());
    assert_eq!(a2, format!("{g}-3").as_str());
}

#[test]
fn concurrent_appends_keep_every_ring_in_sequence_order() {
    let l = Arc::new(Mutex::new(MemoryLog::new(10_000, Duration::from_secs(60))));
    let runtime = tokio::runtime::Builder::new_multi_thread()
        .worker_threads(4)
        .build()
        .unwrap();
    let tasks: Vec<_> = (0..8)
        .map(|i| {
            let l = l.clone();
            runtime.spawn(async move {
                for _ in 0..200 {
                    l.lock()
                        .unwrap()
                        .append(if i % 2 == 0 { "a" } else { "b" }, i, &at(0))
                        .unwrap();
                }
            })
        })
        .collect();
    runtime.block_on(async {
        for t in tasks {
            t.await.unwrap();
        }
    });
    let mut l = l.lock().unwrap();
    let first = Cursor::parse(&format!("{}-1", l.generation())).unwrap();
    let mut replayed = 0;
    for topic in ["a", "b"] {
        let replay = l.since(topic, &first, 10_000, &at(0)).unwrap();
        let order = seqs(&l, replay);
        assert!(
            order.is_sorted(),
            "a ring out of order would replay out of order"
        );
        replayed += order.len();
    }
    // every event but the cursor's own
    assert_eq!(replayed, 1599);
    assert_eq!(l.last_seq(), 1600);
}

#[test]
fn replays_strictly_after_the_cursor_in_order() {
    let mut l = log();
    let mut cursors = Vec::new();
    for e in ["a1", "a2", "a3"] {
        cursors.push(l.append("a", e, &at(0)).unwrap());
    }
    let Replay::Events(v) = l.since("a", &cursors[0], 100, &at(0)).unwrap() else {
        panic!("expected events")
    };
    assert_eq!(
        v.iter()
            .map(|p| p.cursor.clone().unwrap())
            .collect::<Vec<_>>(),
        cursors[1..]
    );
    assert_eq!(v[0].event, "a2");
    // cursor == last → exact empty replay
    assert_eq!(
        l.since("a", &cursors[2], 100, &at(0)).unwrap(),
        Replay::Events(vec![])
    );
}

#[test]
fn a_quiet_topic_answers_a_foreign_cursor_with_an_empty_replay() {
    let mut l = log();
    let x = l.append("busy", "x", &at(0)).unwrap();
    let y = l.append("busy", "y", &at(0)).unwrap();
    for c in [&x, &y] {
        assert_eq!(
            l.since("quiet", c, 100, &at(0)).unwrap(),
            Replay::Events(vec![])
        );
    }
}

#[test]
fn a_cursor_this_log_never_issued_is_unknown() {
    let mut l = MemoryLog::with_generation(0xdead_beef, 4, Duration::from_secs(60));
    let c1 = l.append("a", "a1", &at(0)).unwrap();
    let generation = l.generation().to_owned();
    assert_eq!(generation, "deadbeef");
    // past the end, zero, another generation, not this log's shape
    for token in [
        format!("{generation}-2"),
        format!("{generation}-0"),
        format!(
            "{}-1",
            MemoryLog::<u8>::with_generation(0xfeed, 1, Duration::zero()).generation()
        ),
        "1".to_owned(),
        format!("{generation}-1x"),
        format!("{generation}-"),
        generation.clone(),
    ] {
        let c = Cursor::parse(&token).unwrap();
        assert_eq!(
            l.since("a", &c, 100, &at(0)).unwrap(),
            Replay::Unknown,
            "{token}"
        );
    }
    // …and a fresh log knows none of the old one's cursors: a restart
    // costs one resync, never a silent gap or a collision.
    let mut fresh = MemoryLog::<&str>::with_generation(0xdead_bee0, 4, Duration::from_secs(60));
    fresh.append("a", "a1", &at(0)).unwrap();
    assert_eq!(fresh.since("a", &c1, 100, &at(0)).unwrap(), Replay::Unknown);
}

#[test]
fn a_token_that_only_looks_issued_is_unknown() {
    let mut l = MemoryLog::with_generation(7, 4, Duration::from_secs(60));
    for e in ["1", "2"] {
        l.append("a", e, &at(0)).unwrap();
    }
    assert_eq!(l.generation(), "00000007");
    for token in ["00000007-01", "00000007-002", "00000007_1", "00000007--1", "00000007-18446744073709551617"] {
        let c = Cursor::parse(token).unwrap();
        assert_eq!(l.seq_of(&c), None, "{token}");
        assert_eq!(l.since("a", &c, 100, &at(0)).unwrap(), Replay::Unknown, "{token}");
    }
    assert_eq!(l.seq_of(&Cursor::parse("00000007-2").unwrap()), Some(2));
    assert_eq!(l.seq_of(&Cursor::parse("00000007-0").unwrap()), Some(0));
    assert_eq!(
        l.seq_of(&Cursor::parse("00000007-18446744073709551615").unwrap()),
        Some(u64::MAX)
    );
}

#[test]
fn capacity_trims_the_oldest_and_a_cursor_below_the_trim_is_expired() {
    let mut l = log(); // capacity 4
    let mut cursors = Vec::new();
    for e in ["1", "2", "3", "4", "5", "6"] {
        cursors.push(l.append("a", e, &at(0)).unwrap());
    }
    // ring holds 3..=6; seq 1 and 2 were dropped
    assert_eq!(
        l.since("a", &cursors[0], 100, &at(0)).unwrap(),
        Replay::Expired {
            earliest: Some(cursors[2].clone())
        }
    );
    // cursor 2: nothing dropped ABOVE it, so the replay is exact
    let r = l.since("a", &cursors[1], 100, &at(0)).unwrap();
    assert_eq!(seqs(&l, r), vec![3, 4, 5, 6]);
}

#[test]
fn a_cursor_from_another_topic_below_this_topics_trim_is_expired() {
    let mut l = log(); // capacity 4
    let b1 = l.append("b", "b1", &at(0)).unwrap(); // seq 1
    let mut a = Vec::new();
    for e in ["1", "2", "3", "4", "5"] {
        a.push(l.append("a", e, &at(0)).unwrap()); // seq 2..=6; ring a holds 3..=6
    }
    // Seq 2 on `a` was dropped, and it came after `b1`: lost.
    assert_eq!(
        l.since("a", &b1, 100, &at(0)).unwrap(),
        Replay::Expired {
            earliest: Some(a[1].clone())
        }
    );
    // On its own topic the same cursor is exact and up to date.
    assert_eq!(
        l.since("b", &b1, 100, &at(0)).unwrap(),
        Replay::Events(vec![])
    );
}

#[test]
fn a_gap_wider_than_the_limit_is_expired() {
    let mut l = MemoryLog::new(100, Duration::from_secs(60));
    let mut cursors = Vec::new();
    for i in 0..10 {
        cursors.push(
            l.append("a", if i % 2 == 0 { "e" } else { "o" }, &at(0))
                .unwrap(),
        );
    }
    assert_eq!(
        l.since("a", &cursors[1], 3, &at(0)).unwrap(),
        Replay::Expired {
            earliest: Some(cursors[2].clone())
        }
    );
    let r = l.since("a", &cursors[6], 3, &at(0)).unwrap();
    assert_eq!(seqs(&l, r), vec![8, 9, 10]);
}

#[test]
fn a_gap_expires_every_cursor_issued_before_it_including_the_last() {
    let mut l = log();
    let mut cursors = Vec::new();
    for e in ["1", "2", "3"] {
        cursors.push(l.append("a", e, &at(0)).unwrap());
    }
    l.mark_gap().unwrap(); // an event after seq 3 may be missing
    assert_eq!(
        l.since("a", &cursors[1], 100, &at(0)).unwrap(),
        Replay::Expired { earliest: None }
    );
    // The cursor AT the gap is expired too: what was lost came after it.
    assert_eq!(
        l.since("a", &cursors[2], 100, &at(0)).unwrap(),
        Replay::Expired { earliest: None }
    );
    // A topic that never saw an event is not exempt.
    assert_eq!(
        l.since("quiet", &cursors[2], 100, &at(0)).unwrap(),
        Replay::Expired { earliest: None }
    );
    let c4 = l.append("a", "4", &at(0)).unwrap();
    assert_eq!(
        l.since("a", &cursors[2], 100, &at(0)).unwrap(),
        Replay::Expired {
            earliest: Some(c4.clone())
        }
    );
    // A cursor issued after the gap replays normally.
    assert_eq!(
        l.since("a", &c4, 100, &at(0)).unwrap(),
        Replay::Events(vec![])
    );
    assert_eq!(
        l.since("quiet", &c4, 100, &at(0)).unwrap(),
        Replay::Events(vec![])
    );
}

#[test]
fn ttl_trims_by_age_on_every_read_and_write() {
    let mut l = MemoryLog::new(100, Duration::from_secs(10));
    let old = l.append("a", "old", &at(0)).unwrap();
    let new = l.append("a", "new", &at(11)).unwrap();
    // `old` was dropped by age, but a client holding its cursor lost
    // nothing: everything after it is still here.
    let r = l.since("a", &old, 100, &at(11)).unwrap();
    assert_eq!(seqs(&l, r), vec![2]);
    // Now `new` ages out too — trimmed by the read itself, no sweeper.
    assert_eq!(
        l.since("a", &old, 100, &at(22)).unwrap(),
        Replay::Expired { earliest: None }
    );
    // The last cursor issued still resumes exactly: nothing came after it.
    assert_eq!(
        l.since("a", &new, 100, &at(22)).unwrap(),
        Replay::Events(vec![])
    );
}

#[test]
fn an_event_lives_exactly_as_long_as_the_ttl() {
    let mut l = MemoryLog::new(100, Duration::from_secs(10));
    let first = l.append("a", "1", &at(0)).unwrap();
    l.append("a", "2", &at(0)).unwrap();
    let r = l.since("a", &first, 100, &at(10)).unwrap();
    assert_eq!(seqs(&l, r), vec![2]);
    assert_eq!(
        l.since("a", &first, 100, &Duration::new(10, 1)).unwrap(),
        Replay::Expired { earliest: None }
    );
}

#[test]
fn the_earliest_cursor_can_be_replayed_from() {
    let mut l = log(); // capacity 4
    let mut cursors = Vec::new();
    for e in ["1", "2", "3", "4", "5", "6"] {
        cursors.push(l.append("a", e, &at(0)).unwrap());
    }
    let Replay::Expired { earliest: Some(earliest) } = l.since("a", &cursors[0], 100, &at(0)).unwrap() else {
        panic!("expected an earliest cursor")
    };
    let r = l.since("a", &earliest, 100, &at(0)).unwrap();
    assert_eq!(seqs(&l, r), vec![4, 5, 6]);
}

#[test]
fn generations_are_drawn_anew() {
    let drawn: Vec<String> = (0..16)
        .map(|_| MemoryLog::<u8>::new(1, Duration::zero()).generation().to_owned())
        .collect();
    assert!(drawn.iter().all(|g| g.len() == 8 && g.bytes().all(|b| b.is_ascii_hexdigit())));
    assert!(drawn.iter().any(|g| *g != drawn[0]));
}

#[test]
fn published_events_are_cloned_with_their_cursors() {
    let p = Published { cursor: Cursor::parse("g-1").ok(), event: "x".to_owned() };
    assert_eq!(p.clone(), p);
    let q: Published<u8> = Published { cursor: None, event: 3 };
    assert_eq!(q.clone(), q);
}
