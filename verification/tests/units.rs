use encrypt_files::cipher::get_encrypted_file;
use encrypt_files::events::derived_bucket;
use encrypt_files::events::filter_creation_records;
use encrypt_files::events::record_is_creation;
use encrypt_files::events::EventRecord;
use encrypt_files::material::gen_encryption_config;
use encrypt_files::material::EncryptionMaterial;

use chacha20poly1305::aead::Aead;
use chacha20poly1305::KeyInit;
use chacha20poly1305::XChaCha20Poly1305;
use chacha20poly1305::XNonce;

#[test]
fn generated_material_is_well_formed_and_fresh() {
    let first = gen_encryption_config();
    let second = gen_encryption_config();
    assert_eq!(first.key.len(), 32);
    assert_eq!(first.nonce.len(), 24);
    assert_eq!(second.key.len(), 32);
    assert_eq!(second.nonce.len(), 24);
    assert_ne!(first.key, second.key);
    assert_ne!(first.nonce, second.nonce);
}

#[test]
fn material_rejects_wrong_lengths() {
    assert!(EncryptionMaterial::new(vec![0u8; 31], vec![0u8; 24]).is_err());
    assert!(EncryptionMaterial::new(vec![0u8; 32], vec![0u8; 23]).is_err());
    assert!(EncryptionMaterial::new(vec![0u8; 33], vec![0u8; 24]).is_err());
    let material = EncryptionMaterial::new(vec![7u8; 32], vec![9u8; 24]).unwrap();
    assert_eq!(material.key, vec![7u8; 32]);
    assert_eq!(material.nonce, vec![9u8; 24]);
}

#[test]
fn hex_rendering_matches_expected_digits() {
    let material = EncryptionMaterial::new(
        vec![
            0x00, 0x2a, 0xff, 0x10, 0x0f, 0xa0, 0x01, 0x9c, 0x00, 0x00, 0x00, 0x00, 0x00, 0x00,
            0x00, 0x00, 0x00, 0x00, 0x00, 0x00, 0x00, 0x00, 0x00, 0x00, 0x00, 0x00, 0x00, 0x00,
            0x00, 0x00, 0x00, 0xde,
        ],
        vec![0x01; 24],
    )
    .unwrap();
    assert_eq!(
        material.key_hex(),
        "002aff100fa0019c0000000000000000000000000000000000000000000000de"
    );
    assert_eq!(material.nonce_hex(), "01".repeat(24));
}

#[test]
fn encryption_round_trips_and_authenticates() {
    let material = gen_encryption_config();
    let plaintext = b"attack at dawn".to_vec();
    let ciphertext = get_encrypted_file(&plaintext, &material).unwrap();

    assert_eq!(ciphertext.len(), plaintext.len() + 16);
    assert_ne!(&ciphertext[..plaintext.len()], plaintext.as_slice());

    let cipher = XChaCha20Poly1305::new(chacha20poly1305::Key::from_slice(&material.key));
    let decrypted = cipher
        .decrypt(XNonce::from_slice(&material.nonce), ciphertext.as_slice())
        .unwrap();
    assert_eq!(decrypted, plaintext);

    let mut tampered = ciphertext.clone();
    tampered[0] ^= 0x01;
    assert!(cipher
        .decrypt(XNonce::from_slice(&material.nonce), tampered.as_slice())
        .is_err());
}

#[test]
fn encryption_matches_the_aead_construction_directly() {
    let material = EncryptionMaterial::new(vec![5u8; 32], vec![6u8; 24]).unwrap();
    let plaintext = b"payload".to_vec();
    let ours = get_encrypted_file(&plaintext, &material).unwrap();
    let cipher = XChaCha20Poly1305::new(chacha20poly1305::Key::from_slice(&material.key));
    let reference = cipher
        .encrypt(XNonce::from_slice(&material.nonce), plaintext.as_slice())
        .unwrap();
    assert_eq!(ours, reference);
}

fn record(event_type: &str, bucket: &str, key: &str) -> EventRecord {
    EventRecord {
        event_type: event_type.to_string(),
        bucket: bucket.to_string(),
        key: key.to_string(),
    }
}

#[test]
fn removal_records_are_skipped_entirely() {
    let records = vec![record("ObjectRemoved:Delete", "photos", "a.txt")];
    assert!(!record_is_creation(&records[0]));
    let kept = filter_creation_records(&records);
    assert_eq!(kept.len(), 0);
}

#[test]
fn creation_records_are_kept_and_malformed_ones_skipped() {
    let records = vec![
        record("ObjectCreated:Put", "photos", "a.txt"),
        record("ObjectRemoved:Delete", "photos", "b.txt"),
        record("ObjectCreated:CompleteMultipartUpload", "photos", "c.txt"),
        record("ObjectCreated:Put", "", "d.txt"),
        record("ObjectCreated:Put", "photos", ""),
        record("ObjectCreate", "photos", "e.txt"),
    ];
    let kept = filter_creation_records(&records);
    assert_eq!(kept.len(), 2);
    assert_eq!(kept[0].key, "a.txt");
    assert_eq!(kept[1].key, "c.txt");
}

#[test]
fn derived_bucket_appends_the_fixed_suffix() {
    assert_eq!(derived_bucket("photos"), "photos-encrypted");
    assert_ne!(derived_bucket("photos"), "photos");
}
