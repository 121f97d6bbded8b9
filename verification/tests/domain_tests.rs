use cryptocontent::domain::{Calendar, Content, Event, MarshalError, DTWrapper, WEEK_MS};

fn day_of(e: &Event) -> String {
    e.start.chars().take(10).collect()
}

#[test]
fn test_calendar() {
    let cal = Calendar::new("TestCalendar", "This is a test instance for calendar", true);
    assert!(cal.name == "TestCalendar");
    assert!(cal.desc == "This is a test instance for calendar");
    assert!(cal.sync == true);
}

#[test]
fn test_event() {
    let eve = Event::new("TestEvent", "This is a test instance", "There");
    assert!(eve.name == "TestEvent");
    assert!(eve.desc == "This is a test instance");
    assert!(eve.location == "There");

    let e2 = eve.repeat(WEEK_MS);
    assert!(e2.name == "TestEvent");
    assert!(e2.desc == "This is a test instance");
    assert!(e2.location == "There");

    let s1 = chrono::DateTime::parse_from_rfc3339(&eve.start).unwrap();
    let s2 = chrono::DateTime::parse_from_rfc3339(&e2.start).unwrap();
    assert_eq!(s2 - s1, chrono::Duration::weeks(1));
}

#[test]
fn test_calendar_event() {
    let mut cal = Calendar::new("TestCalendar", "This is a test instance for calendar", true);
    let eve = Event::new("TestEvent", "This is a test instance for event", "There");

    cal.add_event(eve.clone());
    assert!(cal.get_events_by_day(&day_of(&eve)).unwrap()[0].id == eve.id);

    assert!(cal.get_events_by_day(&day_of(&eve)).unwrap()[0].name == "TestEvent");

    cal.delete_event(&eve);
    assert!(cal.get_events_by_day(&day_of(&eve)).unwrap().is_empty());
}

#[test]
fn test_repeat_event() {
    let mut cal = Calendar::new("TestCalendar", "This is a test instance for calendar", true);
    let eve = Event::new("TestEvent", "This is a test instance for event", "There");

    cal.add_event(eve.clone());
    cal.repeat_event_n_times(&eve, 5usize);
    assert_eq!(cal.get_events().len(), 6);
}

#[test]
fn test_serialize() {
    let cal = Calendar::new("TestCalendar", "This is a test instance for calendar", true);
    let eve = Event::new("TestEvent", "This is a test instance for event", "There");

    let enc = match cal.marshal() {
        Ok(o) => o,
        Err(_) => panic!("Marshalling error"),
    };

    let dec: Calendar = match Calendar::unmarshal(&enc) {
        Ok(o) => o,
        Err(_) => panic!("Unmarshalling failed on {}", enc),
    };

    assert_eq!(cal, dec);

    let enc = eve.marshal().unwrap();
    let dec: Event = Event::unmarshal(&enc).unwrap();

    assert_eq!(eve, dec);
}

#[test]
fn test_whole_serialize() {
    let mut cal = Calendar::new("TestCalendar", "This is a test instance for calendar", true);
    let eve = Event::new("TestEvent", "This is a test instance for event", "There");

    cal.add_event(eve.clone());

    let enc = cal.marshal().unwrap();
    let mut dec: Calendar = Calendar::unmarshal(&enc).unwrap();

    assert_eq!(dec.get_events_by_day(&day_of(&eve)).unwrap()[0].name, "TestEvent");

    dec.delete_event(&eve);
    assert!(dec.get_events_by_day(&day_of(&eve)).unwrap().is_empty());
}

#[test]
fn marshal_has_exact_canonical_form() {
    let eve = Event {
        id: "a".to_string(),
        name: "bc".to_string(),
        desc: String::new(),
        location: "x".to_string(),
        start: "2024-01-02T03:04:05+00:00".to_string(),
        end: "2024-01-02T04:04:05+00:00".to_string(),
        sync: true,
    };
    let enc = eve.marshal().unwrap();
    let mut expected = String::new();
    expected.push_str("00000000000000000001a");
    expected.push_str("00000000000000000002bc");
    expected.push_str("00000000000000000000");
    expected.push_str("00000000000000000001x");
    expected.push_str("000000000000000000252024-01-02T03:04:05+00:00");
    expected.push_str("000000000000000000252024-01-02T04:04:05+00:00");
    expected.push_str("1");
    assert_eq!(enc, expected);
    assert_eq!(Event::unmarshal(&enc).unwrap(), eve);
}

#[test]
fn unmarshal_rejects_malformed_text() {
    assert_eq!(Event::unmarshal(""), Err(MarshalError::Failed));
    assert_eq!(Event::unmarshal("not a marshalled event"), Err(MarshalError::Failed));
    let eve = Event::new("E", "d", "l");
    let mut enc = eve.marshal().unwrap();
    enc.push('!');
    assert_eq!(Event::unmarshal(&enc), Err(MarshalError::Failed));
    assert_eq!(Calendar::unmarshal("999"), Err(MarshalError::Failed));
}

#[test]
fn fresh_events_get_distinct_full_length_identifiers() {
    let a = Event::new("A", "d", "l");
    let b = Event::new("B", "d", "l");
    assert_eq!(a.id.chars().count(), 36);
    assert_eq!(b.id.chars().count(), 36);
    assert_ne!(a.id, b.id);
}

#[test]
fn event_timestamps_parse_and_span_an_hour() {
    let eve = Event::new("E", "d", "l");
    let start = eve.get_start().unwrap();
    let end = eve.get_end().unwrap();
    assert_eq!(end - start, 3_600_000);
}

#[test]
fn try_repeat_rejects_unparseable_timestamps() {
    let mut eve = Event::new("E", "d", "l");
    assert!(eve.try_repeat(WEEK_MS).is_some());
    eve.start = "not a timestamp".to_string();
    assert!(eve.try_repeat(WEEK_MS).is_none());
}

#[test]
fn shift_rfc3339_moves_the_instant() {
    let shifted = DTWrapper::shift_rfc3339("2024-01-02T03:04:05+00:00", 1000).unwrap();
    assert_eq!(DTWrapper::parse_rfc3339_millis(&shifted).unwrap(),
        DTWrapper::parse_rfc3339_millis("2024-01-02T03:04:05+00:00").unwrap() + 1000);
    assert!(DTWrapper::shift_rfc3339("garbage", 1000).is_none());
}

#[test]
fn events_on_distinct_days_live_in_distinct_buckets() {
    let mut cal = Calendar::new("C", "d", false);
    let mut e1 = Event::new("One", "d", "l");
    e1.start = "2024-01-02T03:04:05+00:00".to_string();
    let mut e2 = Event::new("Two", "d", "l");
    e2.start = "2024-01-03T03:04:05+00:00".to_string();
    cal.add_event(e1.clone());
    cal.add_event(e2.clone());
    assert_eq!(cal.get_events_by_day("2024-01-02").unwrap().len(), 1);
    assert_eq!(cal.get_events_by_day("2024-01-03").unwrap().len(), 1);
    assert!(cal.get_events_by_day("2024-01-04").is_none());
    assert_eq!(cal.get_events().len(), 2);
    cal.delete_event(&e1);
    assert!(cal.get_events_by_day("2024-01-02").unwrap().is_empty());
    assert_eq!(cal.get_events_by_day("2024-01-03").unwrap().len(), 1);
}
