use solder_sse::jitter::{backoff_ms, backoff_ms_from, pick, uniform};

#[test]
fn stays_in_range() {
    for _ in 0..1000 {
        assert!((500..1000).contains(&uniform(500..1000)));
    }
    assert_eq!(uniform(7..8), 7);
    assert_eq!(uniform(7..7), 7);
}

#[test]
fn backoff_is_capped_and_floored() {
    for attempt in 0..40 {
        let d = backoff_ms(attempt, 1_000, 30_000, 200);
        assert!((200..=30_000).contains(&d), "attempt {attempt}: {d}");
    }
    assert!(backoff_ms(0, 1_000, 30_000, 200) <= 1_000);
}

#[test]
fn a_pick_is_the_draw_folded_into_the_range() {
    assert_eq!(pick(500..1000, 0), 500);
    assert_eq!(pick(500..1000, 1_234), 734);
    assert_eq!(pick(500..1000, 499), 999);
    assert_eq!(pick(9..3, 77), 9);
}

#[test]
fn draws_spread_over_the_range() {
    let first = uniform(0..u64::MAX);
    assert!((0..64).any(|_| uniform(0..u64::MAX) != first));
}

#[test]
fn the_cap_doubles_with_every_attempt_up_to_the_maximum() {
    // a draw one below the cap shows the cap
    assert_eq!(backoff_ms_from(0, 1_000, 30_000, 200, 999), 999);
    assert_eq!(backoff_ms_from(1, 1_000, 30_000, 200, 1_999), 1_999);
    assert_eq!(backoff_ms_from(4, 1_000, 30_000, 200, 15_999), 15_999);
    assert_eq!(backoff_ms_from(5, 1_000, 30_000, 200, 29_999), 29_999);
    assert_eq!(backoff_ms_from(31, 1_000, 30_000, 200, 30_000), 200);
}
