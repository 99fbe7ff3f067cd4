use chrono::{TimeZone, Utc};
use policer::{date_field, entry_timestamp, Timestamp};

fn text(chars: &[char]) -> String {
    chars.iter().collect()
}

#[test]
fn date_field_takes_last_segment_before_underscore() {
    assert_eq!(text(&date_field("backups/daily/2022-10-29T00:00:00Z_home.tar")), "2022-10-29T00:00:00Z");
    assert_eq!(text(&date_field("2022-10-29T00:00:00Z_x_y")), "2022-10-29T00:00:00Z");
    assert_eq!(text(&date_field("a_b/c_d")), "c");
    assert_eq!(text(&date_field("dir/plain")), "plain");
    assert_eq!(text(&date_field("dir/")), "");
    assert_eq!(text(&date_field("")), "");
    assert_eq!(text(&date_field("dir/_rest")), "");
}

#[test]
fn entry_timestamp_reads_the_date() {
    let t = entry_timestamp("snapshots/2022-10-28T12:00:00Z_db.dump").ok().unwrap();
    let expected = Utc.with_ymd_and_hms(2022, 10, 28, 12, 0, 0).unwrap();
    assert_eq!(t, Timestamp::new(expected.timestamp(), 0));
    assert_eq!(t.secs, 1_666_958_400);
    let t = entry_timestamp("x/1970-01-01T00:00:01.5+00:00_y").ok().unwrap();
    assert_eq!(t, Timestamp::new(1, 500_000_000));
}

#[test]
fn entry_timestamp_rejects_a_bad_date() {
    let e = entry_timestamp("snapshots/yesterday_db.dump").err().unwrap();
    assert_eq!(text(&e.field), "yesterday");
    let e = entry_timestamp("snapshots/").err().unwrap();
    assert_eq!(text(&e.field), "");
}
