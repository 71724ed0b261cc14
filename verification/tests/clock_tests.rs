use bay_buddy::clock::{is_stale, is_stale_at, recorded_age_at, recorded_age_secs, recorded_at_overflows};

const NEW_YEAR_2024: u64 = 1_704_067_200;

#[test]
fn age_of_known_timestamp() {
    assert_eq!(recorded_age_at("2024-01-01T00:00:00Z", Some(NEW_YEAR_2024 + 60)), Some(60));
    assert_eq!(recorded_age_at(" 2024-01-01T00:00:00.123+00:00 ", Some(NEW_YEAR_2024)), Some(0));
    assert_eq!(recorded_age_at("2024-03-01T12:30:15ZZ", Some(1_709_296_215)), Some(0));
    assert_eq!(recorded_age_at("1970-01-01T00:00:10", Some(100)), Some(90));
}

#[test]
fn age_of_future_or_bad_timestamp() {
    assert_eq!(recorded_age_at("2024-01-01T00:00:00Z", Some(NEW_YEAR_2024 - 1)), None);
    assert_eq!(recorded_age_at("2024-01-01", Some(NEW_YEAR_2024)), None);
    assert_eq!(recorded_age_at("2024-01T00:00:00", Some(NEW_YEAR_2024)), None);
    assert_eq!(recorded_age_at("2024-01-01T00:00", Some(NEW_YEAR_2024)), None);
    assert_eq!(recorded_age_at("2024-01-01T00:00:00Z", None), None);
}

#[test]
fn before_1970_counts_as_1970() {
    assert_eq!(recorded_age_at("1969-12-31T23:59:59Z", Some(5)), Some(5));
}

#[test]
fn overflow_is_detected() {
    assert!(recorded_at_overflows("2000-03-00T00:00:00Z"));
    assert!(recorded_at_overflows("9223372036854775807-01-01T00:00:00Z"));
    assert!(!recorded_at_overflows("2000-03-01T00:00:00Z"));
    assert!(!recorded_at_overflows("garbage"));
}

#[test]
fn staleness() {
    let now = Some(NEW_YEAR_2024 + 1801);
    assert!(is_stale_at(Some("2024-01-01T00:00:00Z"), now));
    assert!(!is_stale_at(Some("2024-01-01T00:00:01Z"), now));
    assert!(!is_stale_at(Some("not a time"), now));
    assert!(is_stale_at(None, now));
}

#[test]
fn staleness_by_clock() {
    assert!(is_stale(None));
    assert!(is_stale(Some("2000-01-01T00:00:00Z")));
    assert!(!is_stale(Some("2999-01-01T00:00:00Z")));
    assert!(recorded_age_secs("2000-01-01T00:00:00Z").unwrap() > 700_000_000);
}

#[test]
fn stale_stays_stale_and_age_tracks_clock() {
    let t = "2024-01-01T00:00:00Z";
    let mut now = NEW_YEAR_2024 + 1801;
    assert!(is_stale_at(Some(t), Some(now)));
    for step in [1u64, 60, 86_400] {
        let before = recorded_age_at(t, Some(now)).unwrap();
        now += step;
        assert!(is_stale_at(Some(t), Some(now)));
        assert_eq!(recorded_age_at(t, Some(now)).unwrap(), before + step);
    }
}
