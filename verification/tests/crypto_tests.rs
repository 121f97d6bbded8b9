use cryptocontent::crypto::{CryptoManager, DecryptionError, NONCE_LEN};
use cryptocontent::domain::{Calendar, Content};

#[test]
fn test_encrypt() {
    let cal = Calendar::new("TestCalendar", "This is a test instance for calendar", true);

    let mut cm = CryptoManager::new();

    let enc = match cal.marshal() {
        Ok(o) => o,
        Err(_) => panic!("Encryption error"),
    };

    let cipher = cm.encrypt(enc.as_bytes());
    let plain = match cm.decrypt(&cipher) {
        Ok(s) => s,
        Err(_) => panic!("Failed to decrypt"),
    };

    assert_eq!(enc.as_bytes().to_vec(), plain);
}

#[test]
fn test_encrypt_new_nonce() {
    let mut cm = CryptoManager::new();

    let cipher = cm.encrypt("hello world!".as_bytes());
    let plain = match cm.decrypt(&cipher) {
        Ok(s) => s,
        Err(_) => panic!("Failed to decrypt"),
    };

    assert_eq!("hello world!".as_bytes().to_vec(), plain);

    cm.new_nonce();
    let cipher = cm.encrypt("hello world! 2".as_bytes());
    let plain = match cm.decrypt(&cipher) {
        Ok(s) => s,
        Err(_) => panic!("Failed to decrypt"),
    };

    assert_eq!("hello world! 2".as_bytes().to_vec(), plain);
}

#[test]
fn nonce_uniqueness_across_encryptions() {
    let mut cm = CryptoManager::new();
    let mut prefixes: Vec<Vec<u8>> = Vec::new();
    for _ in 0..8 {
        let blob = cm.encrypt("same plaintext".as_bytes());
        prefixes.push(blob[..NONCE_LEN].to_vec());
    }
    for i in 0..prefixes.len() {
        for j in (i + 1)..prefixes.len() {
            assert_ne!(prefixes[i], prefixes[j]);
        }
    }
}

#[test]
fn blob_is_nonce_prefixed_and_longer_than_plaintext() {
    let mut cm = CryptoManager::new();
    let msg = "attack at dawn".as_bytes();
    let blob = cm.encrypt(msg);
    assert_eq!(blob.len(), msg.len() + NONCE_LEN + 16);
}

#[test]
fn tamper_detection_on_every_byte() {
    let mut cm = CryptoManager::new();
    let msg = "attack at dawn".as_bytes();
    let blob = cm.encrypt(msg);
    for i in 0..blob.len() {
        let mut corrupted = blob.clone();
        corrupted[i] ^= 1;
        match cm.decrypt(&corrupted) {
            Err(DecryptionError::AuthenticationFailed) => {}
            Err(e) => panic!("wrong error after flipping byte {}: {:?}", i, e),
            Ok(_) => panic!("decryption succeeded on a blob tampered at byte {}", i),
        }
    }
}

#[test]
fn cross_key_decryption_fails_authentication() {
    let mut k1 = CryptoManager::new();
    let k2 = CryptoManager::new();
    let blob = k1.encrypt("private data".as_bytes());
    assert_eq!(k2.decrypt(&blob), Err(DecryptionError::AuthenticationFailed));
    assert_eq!(k1.decrypt(&blob), Ok("private data".as_bytes().to_vec()));
}

#[test]
fn short_blob_is_malformed() {
    CryptoManager::init();
    let cm = CryptoManager::new();
    assert_eq!(cm.decrypt(&[0u8; 10]), Err(DecryptionError::Malformed));
    assert_eq!(cm.decrypt(&[]), Err(DecryptionError::Malformed));
}
