use solder_sse::error::LogError;
use solder_sse::sequence::log::{EventLog, MemoryLog, Published, Replay};
use solder_sse::time::Duration;

fn log() -> MemoryLog<&'static str> {
    MemoryLog::new(4, Duration::from_secs(60))
}

fn at(secs: u64) -> Duration {
    Duration::from_secs(secs)
}

fn events(seqs: &[(u64, &'static str)]) -> Replay<&'static str> {
    Replay::Events(
        seqs.iter()
            .map(|&(seq, event)| Published { seq, event })
            .collect(),
    )
}

#[test]
fn seq_is_global_and_starts_at_one() {
    let mut l = log();
    assert_eq!(l.append("a", "a1", &at(0)).unwrap(), 1);
    assert_eq!(l.append("b", "b1", &at(0)).unwrap(), 2);
    assert_eq!(l.append("a", "a2", &at(0)).unwrap(), 3);
    assert_eq!(l.last_seq(), 3);
}

#[test]
fn log_replays_strictly_after_the_cursor_in_order() {
    let mut l = log();
    for e in ["a1", "a2", "a3"] {
        l.append("a", e, &at(0)).unwrap();
    }
    let Replay::Events(v) = l.since("a", 1, 100, &at(0)).unwrap() else {
        panic!("expected events")
    };
    assert_eq!(v.iter().map(|p| p.seq).collect::<Vec<_>>(), vec![2, 3]);
    assert_eq!(v[0].event, "a2");
    // cursor == last → exact empty replay
    assert_eq!(l.since("a", 3, 100, &at(0)).unwrap(), Replay::Events(vec![]));
}

#[test]
fn log_a_quiet_topic_answers_a_foreign_cursor_with_an_empty_replay() {
    let mut l = log();
    l.append("busy", "x", &at(0)).unwrap();
    l.append("busy", "y", &at(0)).unwrap();
    assert_eq!(
        l.since("quiet", 2, 100, &at(0)).unwrap(),
        Replay::Events(vec![])
    );
    assert_eq!(
        l.since("quiet", 1, 100, &at(0)).unwrap(),
        Replay::Events(vec![])
    );
}

#[test]
fn a_cursor_past_the_end_is_unknown() {
    let mut l = log();
    l.append("a", "a1", &at(0)).unwrap();
    assert_eq!(l.since("a", 2, 100, &at(0)).unwrap(), Replay::Unknown);
    assert_eq!(l.since("a", u64::MAX, 100, &at(0)).unwrap(), Replay::Unknown);
}

#[test]
fn log_capacity_trims_the_oldest_and_a_cursor_below_the_trim_is_expired() {
    let mut l = log(); // capacity 4
    for e in ["1", "2", "3", "4", "5", "6"] {
        l.append("a", e, &at(0)).unwrap();
    }
    // ring holds 3..=6; seq 1 and 2 were dropped
    assert_eq!(
        l.since("a", 1, 100, &at(0)).unwrap(),
        Replay::Expired { earliest: 3 }
    );
    // cursor 2: nothing dropped ABOVE it, so the replay is exact
    let Replay::Events(v) = l.since("a", 2, 100, &at(0)).unwrap() else {
        panic!()
    };
    assert_eq!(
        v.iter().map(|p| p.seq).collect::<Vec<_>>(),
        vec![3, 4, 5, 6]
    );
}

#[test]
fn log_a_gap_wider_than_the_limit_is_expired() {
    let mut l = MemoryLog::new(100, Duration::from_secs(60));
    for i in 0..10 {
        l.append("a", if i % 2 == 0 { "e" } else { "o" }, &at(0))
            .unwrap();
    }
    assert_eq!(
        l.since("a", 2, 3, &at(0)).unwrap(),
        Replay::Expired { earliest: 3 }
    );
    assert!(matches!(l.since("a", 7, 3, &at(0)).unwrap(), Replay::Events(v) if v.len() == 3));
}

#[test]
fn a_gap_expires_every_earlier_cursor_but_not_later_ones() {
    let mut l = log();
    for e in ["1", "2", "3"] {
        l.append("a", e, &at(0)).unwrap();
    }
    l.mark_gap().unwrap(); // something after seq 3 may be missing
    assert_eq!(
        l.since("a", 2, 100, &at(0)).unwrap(),
        Replay::Expired { earliest: 4 }
    );
    // the cursor AT the gap is fine: nothing before it was lost
    assert_eq!(l.since("a", 3, 100, &at(0)).unwrap(), Replay::Events(vec![]));
    l.append("a", "4", &at(0)).unwrap();
    assert!(matches!(l.since("a", 3, 100, &at(0)).unwrap(), Replay::Events(v) if v.len() == 1));
}

#[test]
fn ttl_trims_by_age() {
    let mut l = MemoryLog::new(100, Duration::from_secs(10));
    l.append("a", "old", &at(0)).unwrap();
    l.append("a", "new", &at(11)).unwrap();
    assert_eq!(
        l.since("a", 0, 100, &at(11)).unwrap(),
        Replay::Expired { earliest: 2 }
    );
    assert_eq!(l.trim(&Duration::from_secs(0), &at(12)).unwrap(), 1);
}

#[test]
fn a_trim_counts_over_all_topics_and_keeps_what_is_young() {
    let mut l = MemoryLog::new(100, Duration::from_secs(60));
    for (topic, e, secs) in [("a", "1", 0), ("b", "2", 0), ("a", "3", 5), ("b", "4", 9)] {
        l.append(topic, e, &at(secs)).unwrap();
    }
    // at 10s: 1 and 2 are 10s old, 3 is 5s old, 4 is 1s old
    assert_eq!(l.trim(&Duration::from_secs(5), &at(10)).unwrap(), 2);
    assert_eq!(l.since("a", 1, 100, &at(10)).unwrap(), events(&[(3, "3")]));
    assert_eq!(l.since("b", 0, 100, &at(10)).unwrap(), Replay::Expired { earliest: 4 });
    assert_eq!(l.trim(&Duration::from_secs(0), &at(10)).unwrap(), 2);
    // an emptied topic names the next sequence after what it dropped
    assert_eq!(l.since("b", 2, 100, &at(10)).unwrap(), Replay::Expired { earliest: 5 });
    assert_eq!(l.since("b", 4, 100, &at(10)).unwrap(), Replay::Events(vec![]));
}

#[test]
fn a_log_keeps_at_least_one_event() {
    let mut l = MemoryLog::new(0, Duration::from_secs(60));
    l.append("a", "1", &at(0)).unwrap();
    assert_eq!(l.since("a", 0, 100, &at(0)).unwrap(), events(&[(1, "1")]));
}

#[test]
fn a_limit_of_zero_serves_only_those_who_miss_nothing() {
    let mut l = log();
    l.append("a", "1", &at(0)).unwrap();
    assert_eq!(l.since("a", 0, 0, &at(0)).unwrap(), Replay::Expired { earliest: 1 });
    assert_eq!(l.since("a", 1, 0, &at(0)).unwrap(), Replay::Events(vec![]));
    assert_eq!(l.since("a", 0, usize::MAX, &at(0)).unwrap(), events(&[(1, "1")]));
}

#[test]
fn a_gap_is_never_taken_back() {
    let mut l = log();
    l.append("a", "1", &at(0)).unwrap();
    l.append("a", "2", &at(0)).unwrap();
    l.mark_gap().unwrap();
    for e in ["3", "4", "5"] {
        l.append("b", e, &at(1)).unwrap();
    }
    l.trim(&Duration::from_secs(9), &at(2)).unwrap();
    for topic in ["a", "b", "quiet"] {
        assert_eq!(
            l.since(topic, 1, 100, &at(2)).unwrap(),
            Replay::Expired { earliest: 3 },
            "{topic}"
        );
    }
}

#[test]
fn storage_failures_are_told_in_words() {
    let e = LogError::Backend("disk full".into());
    assert_eq!(e.to_text(), "event log backend: disk full");
}
