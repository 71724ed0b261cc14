use bay_buddy::readings::{clock_fallback, last_updated, readings_path, summarize_space, SensorCard};

fn card(space: Option<&str>, kind: &str) -> SensorCard {
    SensorCard {
        space: space.map(|s| s.to_string()),
        kind: Some(kind.to_string()),
        value_bool: None,
        value_text: None,
        recorded_at: None,
        has_temperature: false,
    }
}

#[test]
fn requested_space_wins() {
    let s = summarize_space(Some("Cabin"), &vec!["Garage".to_string()], &vec![], Some(0)).unwrap();
    assert_eq!(s.space_name, "Cabin");
    assert!(!s.feed_healthy);
}

#[test]
fn first_account_space_then_busiest_then_garage() {
    let cards = vec![card(Some("Shed"), "door"), card(Some("Barn"), "door"), card(Some("Barn"), "leak")];
    let s = summarize_space(None, &vec!["Loft".to_string()], &cards, Some(0)).unwrap();
    assert_eq!(s.space_name, "Loft");
    let s = summarize_space(None, &vec![], &cards, Some(0)).unwrap();
    assert_eq!(s.space_name, "Barn");
    let s = summarize_space(None, &vec![], &vec![card(None, "door")], Some(0)).unwrap();
    assert_eq!(s.space_name, "Garage");
}

#[test]
fn door_water_and_temperatures_in_space() {
    let mut door = card(Some("garage"), "door");
    door.value_text = Some("OPEN".to_string());
    let mut leak = card(Some("GARAGE"), "flood");
    leak.value_text = Some("Wet".to_string());
    let mut temp = card(Some("Garage"), "temperature");
    temp.has_temperature = true;
    let mut other = card(Some("Shed"), "temperature");
    other.has_temperature = true;
    let mut dry = card(Some("Garage"), "leak");
    dry.value_text = Some("dry".to_string());
    let cards = vec![door, other, leak, temp, dry];
    let s = summarize_space(Some("Garage"), &vec![], &cards, Some(0)).unwrap();
    assert!(s.door_open);
    assert!(s.wet_contact);
    assert_eq!(s.temperature_cards, vec![3]);
    assert!(s.feed_healthy);
    assert!(!s.any_fresh);
}

#[test]
fn cards_without_space_count_with_one_space() {
    let mut d = card(None, "door");
    d.value_bool = Some(true);
    let s = summarize_space(None, &vec!["Garage".to_string()], &vec![d], Some(0)).unwrap();
    assert!(s.door_open);
    let mut d = card(None, "door");
    d.value_bool = Some(true);
    let s = summarize_space(None, &vec!["A".to_string(), "B".to_string()], &vec![d], Some(0)).unwrap();
    assert!(!s.door_open);
}

#[test]
fn freshness_uses_clock() {
    let mut c = card(Some("Garage"), "door");
    c.recorded_at = Some("2024-01-01T00:00:00Z".to_string());
    let cards = vec![c];
    let s = summarize_space(Some("Garage"), &vec![], &cards, Some(1_704_067_200 + 100)).unwrap();
    assert!(s.any_fresh && s.feed_healthy);
    let s = summarize_space(Some("Garage"), &vec![], &cards, Some(1_704_067_200 + 4000)).unwrap();
    assert!(!s.any_fresh && !s.feed_healthy);
}

#[test]
fn overflowing_timestamp_in_space() {
    let mut c = card(Some("Garage"), "door");
    c.recorded_at = Some("2000-03-00T00:00:00Z".to_string());
    assert!(summarize_space(Some("Garage"), &vec![], &vec![c], Some(0)).is_none());
}

#[test]
fn readings_path_encodes_space() {
    assert_eq!(readings_path(None), "/api/home/readings?save=0");
    assert_eq!(readings_path(Some("My Shed")), "/api/home/readings?save=0&space=My%20Shed");
}

#[test]
fn last_updated_prefers_camel() {
    assert_eq!(last_updated(Some("a".into()), Some("b".into())), "a");
    assert_eq!(last_updated(None, Some("b".into())), "b");
    assert!(last_updated(None, None).parse::<u64>().unwrap() > 1_600_000_000);
}

#[test]
fn clock_fallback_is_decimal_seconds() {
    assert_eq!(clock_fallback(Some(1700000000)), "1700000000");
    assert_eq!(clock_fallback(Some(0)), "0");
    assert_eq!(clock_fallback(None), "");
}
