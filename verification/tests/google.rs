use avion_messager::google::time_min;
use avion_messager::time::{Moment, MAX_SECS, MIN_SECS};
use chrono::{TimeZone, Utc};

#[test]
fn time_min_est_moins_6h_avec_offset_plus_00_00() {
    let now = Utc.with_ymd_and_hms(2026, 7, 5, 10, 0, 0).unwrap();
    let m = Moment::from_parts(now.timestamp(), now.timestamp_subsec_nanos(), 0).unwrap();
    assert_eq!(time_min(m), "2026-07-05T04:00:00+00:00");
}

#[test]
fn time_min_drops_fraction() {
    let m = Moment::from_parts(1_783_245_600, 500_000_000, 0).unwrap();
    assert_eq!(time_min(m), "2026-07-05T04:00:00+00:00");
}

#[test]
fn moment_range_is_chrono_range() {
    assert_eq!(chrono::DateTime::<Utc>::MIN_UTC.timestamp(), MIN_SECS);
    assert_eq!(chrono::DateTime::<Utc>::MAX_UTC.timestamp(), MAX_SECS);
    assert!(Moment::from_parts(MIN_SECS - 1, 0, 0).is_none());
    let m = Moment::from_parts(MIN_SECS + 21_600, 0, 0).unwrap();
    assert_eq!(time_min(m), "-262143-01-01T00:00:00+00:00");
}
