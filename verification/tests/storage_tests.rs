use cryptocontent::crypto::{CryptoManager, DecryptionError};
use cryptocontent::domain::{Calendar, Event};
use cryptocontent::storage::{load, save, LoadError};

#[test]
fn test_storage() {
    let cal = Calendar::new("TestCalendar", "This is a test instance for calendar", true);
    let mut cm = CryptoManager::new();

    let blob = save(&mut cm, &cal).unwrap();
    let loadedcal: Calendar = load(&cm, &blob).unwrap();

    assert_eq!(cal, loadedcal);
}

#[test]
fn persistence_round_trip_with_events() {
    let mut cal = Calendar::new("Family", "shared plans", true);
    cal.add_event(Event::new("Dinner", "at home", "kitchen"));
    cal.add_event(Event::new("Dentist", "checkup", "clinic"));
    let mut cm = CryptoManager::new();

    let blob = save(&mut cm, &cal).unwrap();
    let loaded: Calendar = load(&cm, &blob).unwrap();
    assert_eq!(cal, loaded);
    assert_eq!(loaded.get_events().len(), 2);

    // A second save of the same value yields a different blob (fresh
    // nonce), which still loads back to the same value.
    let blob2 = save(&mut cm, &cal).unwrap();
    assert_ne!(blob, blob2);
    let loaded2: Calendar = load(&cm, &blob2).unwrap();
    assert_eq!(cal, loaded2);
}

#[test]
fn exported_key_lets_a_second_device_read_the_data() {
    let mut cal = Calendar::new("Shared", "travels with the key", true);
    cal.add_event(Event::new("Flight", "gate 7", "airport"));
    let mut device_one = CryptoManager::new();

    let blob = save(&mut device_one, &cal).unwrap();

    let key = device_one.export_key();
    let device_two = CryptoManager::from_key(key).unwrap();
    let loaded: Calendar = load(&device_two, &blob).unwrap();
    assert_eq!(cal, loaded);

    assert!(CryptoManager::from_key(vec![0u8; 5]).is_none());
}

#[test]
fn load_under_other_key_fails_authentication() {
    let cal = Calendar::new("Private", "secret notes", false);
    let mut k1 = CryptoManager::new();
    let k2 = CryptoManager::new();

    let blob = save(&mut k1, &cal).unwrap();
    let r: Result<Calendar, LoadError> = load(&k2, &blob);
    assert_eq!(r, Err(LoadError::Decryption(DecryptionError::AuthenticationFailed)));
}

#[test]
fn load_of_short_blob_is_malformed() {
    let cm = CryptoManager::new();
    let r: Result<Calendar, LoadError> = load(&cm, &[1u8, 2, 3]);
    assert_eq!(r, Err(LoadError::Decryption(DecryptionError::Malformed)));
}

#[test]
fn load_of_wrong_content_fails_deserialization() {
    let mut cm = CryptoManager::new();
    let blob = cm.encrypt("this is no calendar".as_bytes());
    let r: Result<Calendar, LoadError> = load(&cm, &blob);
    assert_eq!(r, Err(LoadError::Deserialization));
}

#[test]
fn tampered_saved_blob_never_loads() {
    let cal = Calendar::new("C", "d", false);
    let mut cm = CryptoManager::new();
    let blob = save(&mut cm, &cal).unwrap();
    let mut corrupted = blob.clone();
    let last = corrupted.len() - 1;
    corrupted[last] ^= 0x80;
    let r: Result<Calendar, LoadError> = load(&cm, &corrupted);
    assert_eq!(r, Err(LoadError::Decryption(DecryptionError::AuthenticationFailed)));
}
