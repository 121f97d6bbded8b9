use cryptocontent::domain::Event;
use cryptocontent::storage::log::{EntryType, Log, LogEntry};

fn counts(x: &Log) -> (usize, usize, usize, usize) {
    (x.len(), x.count_creates(), x.count_updates(), x.count_removes())
}

#[test]
fn test_log() {
    let mut log = Log::new();
    let mut eve = Event::new("TestEvent", "This is a test", "There");
    let mut sync = Event::new("Synced Event", "This is a test", "There");
    sync.sync = true;

    assert_eq!(counts(&log), (0, 0, 0, 0));
    log.add_entry(eve.clone()).unwrap();
    assert_eq!(counts(&log), (1, 1, 0, 0));

    eve.name = "Changed Name".to_string();
    log.add_entry(eve.clone()).unwrap();
    assert_eq!(counts(&log), (1, 1, 0, 0));

    log.add_entry(sync.clone()).unwrap();
    assert_eq!(counts(&log), (2, 1, 1, 0));

    // A synchronised object accumulates one update per record: no
    // content-equality short-circuit exists, so the second identical add
    // still appends.
    log.add_entry(sync.clone()).unwrap();
    assert_eq!(counts(&log), (3, 1, 2, 0));
}

#[test]
fn create_collapse_keeps_one_entry() {
    let mut log = Log::new();
    let mut eve = Event::new("Draft", "first text", "Here");
    log.add_entry(eve.clone()).unwrap();
    assert_eq!(counts(&log), (1, 1, 0, 0));

    eve.desc = "second text".to_string();
    log.add_entry(eve.clone()).unwrap();
    assert_eq!(counts(&log), (1, 1, 0, 0));

    eve.desc = "third text".to_string();
    log.add_entry(eve.clone()).unwrap();
    assert_eq!(counts(&log), (1, 1, 0, 0));
}

#[test]
fn update_accumulation_appends_every_time() {
    let mut log = Log::new();
    let mut eve = Event::new("Known", "unchanged", "There");
    eve.sync = true;

    log.add_entry(eve.clone()).unwrap();
    assert_eq!(counts(&log), (1, 0, 1, 0));

    log.add_entry(eve.clone()).unwrap();
    assert_eq!(counts(&log), (2, 0, 2, 0));
}

#[test]
fn mixed_scenario_counts() {
    let mut log = Log::new();
    let mut a = Event::new("A", "local draft", "Here");
    let mut b = Event::new("B", "known remotely", "There");
    b.sync = true;

    log.add_entry(a.clone()).unwrap();
    assert_eq!(counts(&log), (1, 1, 0, 0));

    a.name = "A renamed".to_string();
    log.add_entry(a.clone()).unwrap();
    assert_eq!(counts(&log), (1, 1, 0, 0));

    log.add_entry(b.clone()).unwrap();
    assert_eq!(counts(&log), (2, 1, 1, 0));

    // Adding identical synchronised content a second time, with no
    // deduplication, yields a third entry.
    log.add_entry(b.clone()).unwrap();
    assert_eq!(counts(&log), (3, 1, 2, 0));
}

#[test]
fn synchronised_first_record_is_not_a_create() {
    let mut log = Log::new();
    let mut eve = Event::new("Remote", "already shared", "There");
    eve.sync = true;
    log.add_entry(eve).unwrap();
    assert_eq!(counts(&log), (1, 0, 1, 0));
}

#[test]
fn log_entry_new_carries_its_fields() {
    let entry = LogEntry::new(EntryType::Delete, "some-id".to_string(), String::new());
    assert_eq!(entry.entry_type, EntryType::Delete);
    assert_eq!(entry.obj_id, "some-id");
    assert_eq!(entry.data, "");
}
