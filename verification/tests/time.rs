use update_sync::time::{is_newer_than_with_tolerance, Span, Timestamp};

fn after(base: Timestamp, millis: u32) -> Timestamp {
    let nanos = base.nanos + millis % 1000 * 1_000_000;
    Timestamp {
        secs: base.secs + i64::from(millis / 1000) + i64::from(nanos / 1_000_000_000),
        nanos: nanos % 1_000_000_000,
    }
}

fn seconds(secs: u64) -> Span {
    Span { secs, nanos: 0 }
}

#[test]
fn newer_than_with_tolerance_respects_threshold() {
    let base = Timestamp { secs: 100, nanos: 0 };
    let newer = after(base, 1500);

    assert!(is_newer_than_with_tolerance(newer, base, seconds(1)));
    assert!(!is_newer_than_with_tolerance(newer, base, seconds(2)));
    assert!(!is_newer_than_with_tolerance(base, newer, seconds(0)));
}

#[test]
fn the_tolerance_itself_is_not_newer() {
    let base = Timestamp { secs: 100, nanos: 700_000_000 };
    let span = Span { secs: 1, nanos: 500_000_000 };
    assert!(!is_newer_than_with_tolerance(after(base, 1500), base, span));
    assert!(is_newer_than_with_tolerance(after(base, 1501), base, span));
}

#[test]
fn a_time_is_not_newer_than_itself() {
    let base = Timestamp { secs: -5, nanos: 3 };
    assert!(!is_newer_than_with_tolerance(base, base, seconds(0)));
}

#[test]
fn nanoseconds_are_borrowed() {
    let target = Timestamp { secs: 10, nanos: 900_000_000 };
    let source = Timestamp { secs: 11, nanos: 100_000_000 };
    assert!(is_newer_than_with_tolerance(source, target, Span { secs: 0, nanos: 199_999_999 }));
    assert!(!is_newer_than_with_tolerance(source, target, Span { secs: 0, nanos: 200_000_000 }));
}

#[test]
fn a_larger_tolerance_makes_no_time_newer() {
    let base = Timestamp { secs: 0, nanos: 0 };
    let source = after(base, 3000);
    let newer: Vec<bool> =
        (0..6).map(|s| is_newer_than_with_tolerance(source, base, seconds(s))).collect();
    assert_eq!(newer, vec![true, true, true, false, false, false]);
}

#[test]
fn times_far_apart_are_compared() {
    let first = Timestamp { secs: i64::MIN, nanos: 0 };
    let last = Timestamp { secs: i64::MAX, nanos: 999_999_999 };
    assert!(is_newer_than_with_tolerance(last, first, seconds(i64::MAX as u64)));
    assert!(!is_newer_than_with_tolerance(
        last,
        first,
        Span { secs: u64::MAX, nanos: 999_999_999 }
    ));
    assert!(!is_newer_than_with_tolerance(first, last, seconds(0)));
}
