use autoclear_backup::boundary::{RetentionBoundaries, BOUNDARY_COUNT};
use autoclear_backup::timestamp::{
    Timestamp, MAX_SECS, MIN_SECS, NANOS_PER_SEC, SECS_PER_DAY, SECS_PER_WEEK,
};
use chrono::{DateTime, Duration, Utc};

fn at(secs: i64, nanos: u32) -> Timestamp {
    Timestamp { secs, nanos }
}

fn of_chrono(t: DateTime<Utc>) -> Timestamp {
    Timestamp { secs: t.timestamp(), nanos: t.timestamp_subsec_nanos() }
}

#[test]
fn is_before_orders_by_seconds_first() {
    assert!(at(1, 999_999_999).is_before(&at(2, 0)));
    assert!(!at(2, 0).is_before(&at(1, 999_999_999)));
    assert!(at(-5, 0).is_before(&at(-4, 0)));
}

#[test]
fn is_before_orders_by_nanos_within_a_second() {
    assert!(at(7, 1).is_before(&at(7, 2)));
    assert!(!at(7, 2).is_before(&at(7, 1)));
}

#[test]
fn is_before_is_strict() {
    assert!(!at(7, 5).is_before(&at(7, 5)));
}

#[test]
fn is_before_agrees_with_chrono_ordering() {
    let a = DateTime::from_timestamp(1_700_000_000, 250).unwrap();
    let b = DateTime::from_timestamp(1_700_000_000, 251).unwrap();
    let c = DateTime::from_timestamp(1_699_999_999, 999_999_999).unwrap();
    let leap = DateTime::from_timestamp(1_699_999_979, 1_500_000_000).unwrap();
    let next = DateTime::from_timestamp(1_699_999_980, 0).unwrap();
    let last = DateTime::from_timestamp(1_699_999_979, 999_999_999).unwrap();
    assert_eq!(of_chrono(leap).nanos, 1_500_000_000);
    let pairs = [
        (a, b),
        (b, a),
        (c, a),
        (a, c),
        (a, a),
        (c, b),
        (leap, next),
        (next, leap),
        (last, leap),
        (leap, last),
        (leap, leap),
    ];
    for (x, y) in pairs {
        assert_eq!(of_chrono(x).is_before(&of_chrono(y)), x < y);
    }
}

#[test]
fn calendar_constants_are_exact() {
    assert_eq!(NANOS_PER_SEC, 1_000_000_000);
    assert_eq!(SECS_PER_DAY, 86_400);
    assert_eq!(SECS_PER_WEEK, 604_800);
    assert_eq!(BOUNDARY_COUNT, 6);
}

#[test]
fn representable_span_is_that_of_chrono() {
    assert_eq!(MIN_SECS, DateTime::<Utc>::MIN_UTC.timestamp());
    assert_eq!(MAX_SECS, DateTime::<Utc>::MAX_UTC.timestamp());
    assert!(DateTime::from_timestamp(MIN_SECS, 0).is_some());
    assert!(DateTime::from_timestamp(MIN_SECS - 1, 999_999_999).is_none());
    assert!(DateTime::from_timestamp(MAX_SECS, 999_999_999).is_some());
    assert!(DateTime::from_timestamp(MAX_SECS + 1, 0).is_none());
}

#[test]
fn boundaries_lie_at_the_six_offsets() {
    let now = at(1_700_000_000, 123_456_789);
    let b = RetentionBoundaries::from_now(now).unwrap();
    let expected = vec![
        at(1_700_000_000, 123_456_789),
        at(1_700_000_000 - 86_400, 123_456_789),
        at(1_700_000_000 - 604_800, 123_456_789),
        at(1_700_000_000 - 2_419_200, 123_456_789),
        at(1_700_000_000 - 31_449_600, 123_456_789),
        at(1_700_000_000 - 62_899_200, 123_456_789),
    ];
    assert_eq!(b.marks(), &expected);
}

#[test]
fn boundaries_match_chrono_subtraction() {
    let now = DateTime::from_timestamp(1_234_567_890, 987_654_321).unwrap();
    let b = RetentionBoundaries::from_now(of_chrono(now)).unwrap();
    let expected = vec![
        of_chrono(now - Duration::days(0)),
        of_chrono(now - Duration::days(1)),
        of_chrono(now - Duration::weeks(1)),
        of_chrono(now - Duration::weeks(4)),
        of_chrono(now - Duration::weeks(52)),
        of_chrono(now - Duration::weeks(104)),
    ];
    assert_eq!(b.marks(), &expected);
}

#[test]
fn boundaries_can_be_compared() {
    let b = RetentionBoundaries::from_now(at(1_700_000_000, 0)).unwrap();
    assert_eq!(RetentionBoundaries::from_now(at(1_700_000_000, 0)).unwrap(), b);
    assert_ne!(RetentionBoundaries::from_now(at(1_700_000_001, 0)).unwrap(), b);
}

#[test]
fn boundaries_are_strictly_decreasing() {
    let b = RetentionBoundaries::from_now(at(0, 0)).unwrap();
    let marks = b.marks();
    assert_eq!(marks.len(), 6);
    for k in 1..marks.len() {
        assert!(marks[k].is_before(&marks[k - 1]));
    }
}

#[test]
fn boundaries_before_the_epoch() {
    let b = RetentionBoundaries::from_now(at(-1, 5)).unwrap();
    assert_eq!(b.marks()[0], at(-1, 5));
    assert_eq!(b.marks()[1], at(-86_401, 5));
    assert_eq!(b.marks()[5], at(-62_899_201, 5));
}

#[test]
fn boundaries_reach_down_to_the_first_second() {
    let earliest = MIN_SECS + 104 * SECS_PER_WEEK;
    let b = RetentionBoundaries::from_now(at(earliest, 0)).unwrap();
    assert_eq!(b.marks()[5], at(MIN_SECS, 0));
    assert!(RetentionBoundaries::from_now(at(earliest - 1, 999_999_999)).is_none());
}

#[test]
fn boundaries_reach_up_to_the_last_second() {
    let b = RetentionBoundaries::from_now(at(MAX_SECS, 999_999_999)).unwrap();
    assert_eq!(b.marks()[0], at(MAX_SECS, 999_999_999));
    assert_eq!(b.marks()[5], at(MAX_SECS - 62_899_200, 999_999_999));
    assert!(RetentionBoundaries::from_now(at(MAX_SECS + 1, 0)).is_none());
}

#[test]
fn boundaries_refuse_the_ends_of_the_integer_range() {
    assert!(RetentionBoundaries::from_now(at(i64::MIN, 0)).is_none());
    assert!(RetentionBoundaries::from_now(at(i64::MAX, 0)).is_none());
}

#[test]
fn boundaries_refuse_an_overlong_nanosecond_part() {
    assert!(RetentionBoundaries::from_now(at(1_700_000_000, 1_000_000_000)).is_none());
    assert!(RetentionBoundaries::from_now(at(1_700_000_039, 1_500_000_000)).is_none());
    assert!(RetentionBoundaries::from_now(at(59, 1_999_999_999)).is_none());
    assert!(RetentionBoundaries::from_now(at(1_700_000_000, u32::MAX)).is_none());
    assert!(RetentionBoundaries::from_now(at(1_700_000_000, 999_999_999)).is_some());
}

#[test]
fn boundaries_exist_exactly_where_chrono_can_subtract() {
    let reach = 104 * SECS_PER_WEEK;
    let seconds = [
        i64::MIN,
        MIN_SECS - 1,
        MIN_SECS,
        MIN_SECS + 1,
        MIN_SECS + reach - 1,
        MIN_SECS + reach,
        MIN_SECS + reach + 1,
        -62_899_201,
        -1,
        0,
        59,
        1_700_000_000,
        MAX_SECS - 1,
        MAX_SECS,
        MAX_SECS + 1,
        i64::MAX,
    ];
    let nanos = [0, 1, 999_999_999];
    for secs in seconds {
        for n in nanos {
            let by_chrono = DateTime::from_timestamp(secs, n)
                .and_then(|t| t.checked_sub_signed(Duration::weeks(104)));
            let ours = RetentionBoundaries::from_now(at(secs, n));
            assert_eq!(ours.is_some(), by_chrono.is_some());
            if let (Some(b), Some(last)) = (ours, by_chrono) {
                assert_eq!(b.marks()[5], of_chrono(last));
                assert_eq!(b.marks()[0], at(secs, n));
            }
        }
    }
}

#[test]
fn boundaries_keep_the_nanosecond_part() {
    let b = RetentionBoundaries::from_now(at(5, 999_999_999)).unwrap();
    for mark in b.marks() {
        assert_eq!(mark.nanos, 999_999_999);
    }
}
