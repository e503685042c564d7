use piria::clock::{HlcClock, HlcTimestamp, VectorClock};
use piria::error::PiriaError;
use piria::outside::{now_ms, stamp_of, wall_clock_ms};

#[test]
fn hlc_counts_within_a_millisecond() {
    let mut clock = HlcClock::new();
    assert_eq!(clock.now_at(100), HlcTimestamp::new(100, 0));
    assert_eq!(clock.now_at(100), HlcTimestamp::new(100, 1));
    assert_eq!(clock.now_at(90), HlcTimestamp::new(100, 2));
    assert_eq!(clock.now_at(101), HlcTimestamp::new(101, 0));
}

#[test]
fn hlc_moves_forward() {
    let mut clock = HlcClock::new();
    let mut last = clock.now().unwrap();
    for _ in 0..1000 {
        let next = clock.now().unwrap();
        assert!(last.is_before(&next));
        last = next;
    }
}

#[test]
fn hlc_receipt_follows_both_sides() {
    let mut clock = HlcClock::new();
    let local = clock.now_at(1_000);
    let remote = HlcTimestamp::new(1_200, 7);
    let next = clock.receive_at(&remote, 1_000).unwrap();
    assert_eq!(next, HlcTimestamp::new(1_200, 8));
    assert!(local.is_before(&next));
    let old = HlcTimestamp::new(10, 50);
    let next = clock.receive_at(&old, 1_100).unwrap();
    assert!(HlcTimestamp::new(1_200, 8).is_before(&next));
}

#[test]
fn hlc_refuses_a_remote_clock_that_runs_ahead() {
    let mut clock = HlcClock::new();
    let remote = HlcTimestamp::new(u64::MAX, 0);
    assert!(matches!(clock.receive(&remote), Err(PiriaError::Internal(_))));
    assert_eq!(clock.now_at(5), HlcTimestamp::new(5, 0));
}

#[test]
fn timestamps_are_ordered() {
    let a = HlcTimestamp::new(1, 9);
    let b = HlcTimestamp::new(2, 0);
    assert!(a < b);
    assert!(a.is_before(&b) && !b.is_before(&a) && !a.is_before(&a));
    assert_eq!(a.latest(&b), b);
    assert_eq!(a.earliest(&b), a);
    assert_eq!(HlcTimestamp::zero(), HlcTimestamp::new(0, 0));
    assert!(HlcTimestamp::now().physical_ms >= 1_600_000_000_000);
}

#[test]
fn wall_clock_is_in_milliseconds() {
    let a = wall_clock_ms();
    let b = now_ms();
    assert!(a > 1_600_000_000_000);
    assert!(b >= a && b - a < 60_000);
}

#[test]
fn stamps_are_the_low_bits() {
    assert_eq!(stamp_of(None), 0);
    assert_eq!(stamp_of(Some(12)), 12);
    assert_eq!(stamp_of(Some((1u128 << 64) + 5)), 5);
}

#[test]
fn vector_clock_counts_and_merges() {
    let mut a = VectorClock::new();
    a.tick("x");
    a.tick("x");
    a.tick("y");
    let mut b = VectorClock::default();
    b.tick("y");
    b.tick("y");
    b.tick("z");
    let merged = a.merged_with(&b);
    let reverse = b.merged_with(&a);
    for (node, count) in [("x", 2), ("y", 2), ("z", 1), ("w", 0)] {
        assert_eq!(merged.counter(node), count);
        assert_eq!(reverse.counter(node), count);
        assert_eq!(merged.merged_with(&a).counter(node), count);
    }
    assert_eq!(merged.entries().len(), 3);
}

#[test]
fn vector_clock_from_entries() {
    let list = vec![("a".to_string(), 3), ("b".to_string(), 1), ("a".to_string(), 5)];
    let clock = VectorClock::from_entries(&list);
    assert_eq!(clock.counter("a"), 5);
    assert_eq!(clock.counter("b"), 1);
    assert_eq!(clock.entries().len(), 2);
}
