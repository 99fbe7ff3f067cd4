use policer::time::{is_older_than, MAX_SPAN_SECS};
use policer::{police, Duration, Span, Timestamp};

const DAY: i64 = 86_400;
const HOUR: i64 = 3_600;

/// 2022-10-29T00:00:00Z
const NOW: i64 = 1_667_001_600;

fn at(secs: i64) -> Timestamp {
    Timestamp::new(secs, 0)
}

fn days(n: i64) -> Span {
    Span::from_secs(n * DAY)
}

fn names<'a>(result: &[&'a (Timestamp, String)]) -> Vec<&'a str> {
    result.iter().map(|e| e.1.as_str()).collect()
}

fn ledger(entries: &[(i64, &str)]) -> Vec<(Timestamp, String)> {
    entries.iter().map(|&(t, n)| (at(t), n.to_string())).collect()
}

#[test]
fn empty_policy_keeps_only_the_newest() {
    let list = ledger(&[(NOW - HOUR, "test1"), (NOW - 2 * HOUR, "test2")]);
    let result = police(&at(NOW), &[], &list);
    assert_eq!(names(&result), vec!["test2"]);
}

#[test]
fn equal_timestamps_keep_the_earlier_position() {
    let list = ledger(&[(NOW, "a"), (NOW, "b"), (NOW, "c")]);
    let result = police(&at(NOW), &[], &list);
    assert_eq!(names(&result), vec!["b", "c"]);
}

#[test]
fn equal_timestamps_without_policy_delete_the_second() {
    let list = ledger(&[(NOW, "test1"), (NOW, "test2")]);
    let result = police(&at(NOW), &[], &list);
    assert_eq!(names(&result), vec!["test2"]);
    assert!(std::ptr::eq(result[0], &list[1]));
}

#[test]
fn empty_ledger_gives_empty_result() {
    let list: Vec<(Timestamp, String)> = Vec::new();
    let result = police(&at(NOW), &[days(1), days(7)], &list);
    assert!(result.is_empty());
}

#[test]
fn two_thresholds_keep_bucket_ends() {
    let list = ledger(&[
        (NOW - 11 * HOUR, "test4"),
        (NOW - 12 * HOUR, "test3"),
        (NOW - 9 * DAY, "test1"),
        (NOW - 10 * DAY, "test2"),
    ]);
    let result = police(&at(NOW), &[days(1), days(7)], &list);
    assert_eq!(names(&result), vec!["test4"]);
}

#[test]
fn policy_order_does_not_matter() {
    let list = ledger(&[
        (NOW - 11 * HOUR, "test4"),
        (NOW - 12 * HOUR, "test3"),
        (NOW - 9 * DAY, "test1"),
        (NOW - 10 * DAY, "test2"),
    ]);
    let result = police(&at(NOW), &[days(7), days(1)], &list);
    assert_eq!(names(&result), vec!["test4"]);
}

#[test]
fn floor_spares_the_latest_marks_first() {
    let list = ledger(&[
        (NOW - 12 * HOUR, "a"),
        (NOW - 18 * HOUR, "b"),
        (NOW - 9 * DAY, "c"),
        (NOW - 10 * DAY, "d"),
        (NOW - 11 * DAY, "e"),
    ]);
    let result = police(&at(NOW), &[days(1), days(100)], &list);
    assert_eq!(names(&result), vec!["a", "d"]);
}

#[test]
fn three_buckets_uneven() {
    // Near bucket: n1..n3; the 7-day bucket: m1, m2; far bucket: f1..f4.
    let list = ledger(&[
        (NOW - 20 * DAY, "f1"),
        (NOW - HOUR, "n1"),
        (NOW - 3 * DAY, "m2"),
        (NOW - 2 * HOUR, "n2"),
        (NOW - 30 * DAY, "f3"),
        (NOW - 3 * HOUR, "n3"),
        (NOW - 25 * DAY, "f2"),
        (NOW - 2 * DAY, "m1"),
        (NOW - 40 * DAY, "f4"),
    ]);
    let result = police(&at(NOW), &[days(1), days(7)], &list);
    // n3 and m2 survive as the oldest of their closed buckets, f1 as the
    // newest of the far bucket; the floor allows six deletions out of nine.
    assert_eq!(names(&result), vec!["n1", "n2", "m1", "f2", "f3", "f4"]);
    assert!(list.len() - result.len() >= 3);
}

#[test]
fn results_borrow_the_ledger_entries() {
    let list = ledger(&[(NOW, "x"), (NOW - DAY, "y"), (NOW - 2 * DAY, "z")]);
    let result = police(&at(NOW), &[], &list);
    assert_eq!(result.len(), 2);
    assert!(std::ptr::eq(result[0], &list[1]));
    assert!(std::ptr::eq(result[1], &list[2]));
}

#[test]
fn floor_holds_on_a_long_ledger() {
    let entries: Vec<(i64, String)> = (0..50).map(|i| (NOW - i * 5 * HOUR, format!("e{}", i))).collect();
    let list: Vec<(Timestamp, String)> = entries.iter().map(|(t, n)| (at(*t), n.clone())).collect();
    let policy = [days(1), days(2), days(4), days(8)];
    let result = police(&at(NOW), &policy, &list);
    assert!(list.len() - result.len() >= policy.len() + 1);
    for e in &result {
        assert!(list.iter().any(|l| std::ptr::eq(l, *e)));
    }
    let again = police(&at(NOW), &policy, &list);
    assert_eq!(names(&result), names(&again));
}

#[test]
fn age_comparison_is_strict() {
    let now = Timestamp::new(100, 500);
    assert!(!is_older_than(&now, &Timestamp::new(90, 500), &Span::from_secs(10)));
    assert!(is_older_than(&now, &Timestamp::new(90, 499), &Span::from_secs(10)));
    assert!(is_older_than(&now, &Timestamp::new(200, 0), &Span { secs: -101, nanos: 0 }));
}

#[test]
fn timestamp_total_nanos() {
    assert_eq!(Timestamp::new(-2, 5).total_nanos(), -1_999_999_995);
    assert_eq!(Span { secs: 3, nanos: 7 }.total_nanos(), 3_000_000_007);
}

fn duration(weeks: Option<i64>, days: Option<i64>, hours: Option<i64>, minutes: Option<i64>, seconds: Option<i64>) -> Duration {
    Duration { weeks, days, hours, minutes, seconds }
}

#[test]
fn duration_sums_its_units() {
    let d = duration(Some(1), Some(2), Some(3), Some(4), Some(5));
    assert_eq!(d.to_span(), Some(Span::from_secs(604_800 + 2 * DAY + 3 * HOUR + 4 * 60 + 5)));
    let d = duration(None, Some(4), None, None, None);
    assert_eq!(d.to_span(), Some(Span::from_secs(4 * DAY)));
    let d = duration(None, None, None, None, None);
    assert_eq!(d.to_span(), Some(Span::from_secs(0)));
    let d = duration(None, None, Some(-2), None, None);
    assert_eq!(d.to_span(), Some(Span::from_secs(-7200)));
}

#[test]
fn duration_out_of_range() {
    let d = duration(None, None, None, None, Some(MAX_SPAN_SECS));
    assert_eq!(d.to_span(), Some(Span::from_secs(MAX_SPAN_SECS)));
    let d = duration(None, None, None, None, Some(MAX_SPAN_SECS + 1));
    assert_eq!(d.to_span(), None);
    let d = duration(None, None, None, None, Some(-MAX_SPAN_SECS - 1));
    assert_eq!(d.to_span(), None);
    let d = duration(None, None, None, Some(1), Some(MAX_SPAN_SECS));
    assert_eq!(d.to_span(), None);
    let d = duration(Some(i64::MAX), None, None, None, None);
    assert_eq!(d.to_span(), None);
    let d = duration(None, Some(MAX_SPAN_SECS / DAY + 1), None, None, None);
    assert_eq!(d.to_span(), None);
}
