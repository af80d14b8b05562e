use encrypt_files::material::EncryptionMaterial;
use encrypt_files::memory::CallRecord;
use encrypt_files::memory::MemoryStorage;
use encrypt_files::outcome::ProcessingOutcome;
use encrypt_files::events::EventRecord;
use encrypt_files::pipeline::run;
use encrypt_files::pipeline::run_bucket;
use encrypt_files::pipeline::run_records;

use chacha20poly1305::aead::Aead;
use chacha20poly1305::KeyInit;
use chacha20poly1305::XChaCha20Poly1305;
use chacha20poly1305::XNonce;

fn fixed_material() -> EncryptionMaterial {
    let key: Vec<u8> = (0u8..32).collect();
    let nonce: Vec<u8> = vec![0xab; 24];
    EncryptionMaterial::new(key, nonce).unwrap()
}

fn reference_ciphertext(material: &EncryptionMaterial, plaintext: &[u8]) -> Vec<u8> {
    let cipher = XChaCha20Poly1305::new(chacha20poly1305::Key::from_slice(&material.key));
    cipher
        .encrypt(XNonce::from_slice(&material.nonce), plaintext)
        .unwrap()
}

#[test]
fn empty_batch_has_no_failures_and_no_calls() {
    let mut storage = MemoryStorage::new();
    let material = fixed_material();
    let keys: Vec<String> = Vec::new();
    let summary = run(&mut storage, "photos", "photos-encrypted", &keys, &material);
    assert!(!summary.has_failures);
    assert_eq!(summary.outcomes.len(), 0);
    assert_eq!(storage.calls().len(), 0);
}

#[test]
fn mixed_batch_encrypts_stores_and_deletes() {
    let mut storage = MemoryStorage::new();
    storage.insert_object("photos", "a.txt", b"hello".to_vec());
    storage.insert_object("photos", "b.txt", b"world".to_vec());
    storage.fail_get_on("photos", "b.txt");
    let material = fixed_material();

    let summary = run_bucket(&mut storage, "photos", "photos-encrypted", &material).unwrap();

    assert!(summary.has_failures);
    assert_eq!(summary.outcomes.len(), 2);
    assert!(matches!(summary.outcomes[0], ProcessingOutcome::Success));
    assert!(matches!(
        summary.outcomes[1],
        ProcessingOutcome::FetchFailed(_)
    ));

    let stored = storage.object("photos-encrypted", "a.txt").unwrap();
    assert_eq!(stored, reference_ciphertext(&material, b"hello"));
    assert!(storage.object("photos", "a.txt").is_none());
    assert_eq!(storage.object("photos", "b.txt").unwrap(), b"world".to_vec());
    assert!(storage.object("photos-encrypted", "b.txt").is_none());
}

#[test]
fn store_failure_leaves_source_and_never_deletes() {
    let mut storage = MemoryStorage::new();
    storage.insert_object("photos", "a.txt", b"hello".to_vec());
    storage.fail_put_on("photos-encrypted", "a.txt");
    let material = fixed_material();
    let keys: Vec<String> = vec!["a.txt".to_string()];

    let summary = run(&mut storage, "photos", "photos-encrypted", &keys, &material);

    assert!(summary.has_failures);
    assert!(matches!(
        summary.outcomes[0],
        ProcessingOutcome::StoreFailed(_)
    ));
    assert_eq!(storage.object("photos", "a.txt").unwrap(), b"hello".to_vec());
    assert!(storage.object("photos-encrypted", "a.txt").is_none());

    let mut gets = 0;
    let mut puts = 0;
    let mut deletes = 0;
    for call in storage.calls() {
        match call {
            CallRecord::Get { .. } => gets += 1,
            CallRecord::Put { .. } => puts += 1,
            CallRecord::Delete { .. } => deletes += 1,
            CallRecord::List { .. } => {}
        }
    }
    assert_eq!(gets, 1);
    assert_eq!(puts, 1);
    assert_eq!(deletes, 0);
}

#[test]
fn fetching_an_absent_object_fails_without_injection() {
    let mut storage = MemoryStorage::new();
    let material = fixed_material();
    let keys: Vec<String> = vec!["missing.txt".to_string()];

    let summary = run(&mut storage, "photos", "photos-encrypted", &keys, &material);

    assert!(summary.has_failures);
    assert!(matches!(
        summary.outcomes[0],
        ProcessingOutcome::FetchFailed(_)
    ));
    assert_eq!(storage.calls().len(), 1);
    assert!(matches!(storage.calls()[0], CallRecord::Get { ok: false, .. }));
}

#[test]
fn delete_failure_keeps_both_copies() {
    let mut storage = MemoryStorage::new();
    storage.insert_object("photos", "a.txt", b"hello".to_vec());
    storage.fail_delete_on("photos", "a.txt");
    let material = fixed_material();
    let keys: Vec<String> = vec!["a.txt".to_string()];

    let summary = run(&mut storage, "photos", "photos-encrypted", &keys, &material);

    assert!(summary.has_failures);
    assert!(matches!(
        summary.outcomes[0],
        ProcessingOutcome::DeleteFailed(_)
    ));
    assert_eq!(storage.object("photos", "a.txt").unwrap(), b"hello".to_vec());
    assert_eq!(
        storage.object("photos-encrypted", "a.txt").unwrap(),
        reference_ciphertext(&material, b"hello")
    );
}

#[test]
fn listing_failure_aborts_before_any_object_call() {
    let mut storage = MemoryStorage::new();
    storage.insert_object("photos", "a.txt", b"hello".to_vec());
    storage.fail_list_on("photos");
    let material = fixed_material();

    let result = run_bucket(&mut storage, "photos", "photos-encrypted", &material);
    assert!(result.is_err());
    assert_eq!(storage.calls().len(), 1);
    assert!(matches!(storage.calls()[0], CallRecord::List { ok: false, .. }));
    assert_eq!(storage.object("photos", "a.txt").unwrap(), b"hello".to_vec());
}

#[test]
fn event_batch_processes_creations_and_skips_removals() {
    let mut storage = MemoryStorage::new();
    storage.insert_object("photos", "a.txt", b"hello".to_vec());
    storage.insert_object("photos", "b.txt", b"world".to_vec());
    let material = fixed_material();
    let records = vec![
        EventRecord {
            event_type: "ObjectCreated:Put".to_string(),
            bucket: "photos".to_string(),
            key: "a.txt".to_string(),
        },
        EventRecord {
            event_type: "ObjectRemoved:Delete".to_string(),
            bucket: "photos".to_string(),
            key: "b.txt".to_string(),
        },
    ];

    let summary = run_records(&mut storage, &records, &material);

    assert!(!summary.has_failures);
    assert_eq!(summary.outcomes.len(), 1);
    assert!(matches!(summary.outcomes[0], ProcessingOutcome::Success));
    assert_eq!(
        storage.object("photos-encrypted", "a.txt").unwrap(),
        reference_ciphertext(&material, b"hello")
    );
    assert!(storage.object("photos", "a.txt").is_none());
    assert_eq!(storage.object("photos", "b.txt").unwrap(), b"world".to_vec());
    for call in storage.calls() {
        let key = match call {
            CallRecord::Get { key, .. } => key,
            CallRecord::Put { key, .. } => key,
            CallRecord::Delete { key, .. } => key,
            CallRecord::List { .. } => continue,
        };
        assert_eq!(key, "a.txt");
    }
}

#[test]
fn event_batch_of_only_removals_makes_no_calls() {
    let mut storage = MemoryStorage::new();
    storage.insert_object("photos", "b.txt", b"world".to_vec());
    let material = fixed_material();
    let records = vec![EventRecord {
        event_type: "ObjectRemoved:Delete".to_string(),
        bucket: "photos".to_string(),
        key: "b.txt".to_string(),
    }];

    let summary = run_records(&mut storage, &records, &material);

    assert!(!summary.has_failures);
    assert_eq!(summary.outcomes.len(), 0);
    assert_eq!(storage.calls().len(), 0);
    assert_eq!(storage.object("photos", "b.txt").unwrap(), b"world".to_vec());
}

#[test]
fn summary_carries_hex_material_for_audit() {
    let mut storage = MemoryStorage::new();
    let material = fixed_material();
    let keys: Vec<String> = Vec::new();
    let summary = run(&mut storage, "photos", "photos-encrypted", &keys, &material);
    assert_eq!(
        summary.key_hex,
        "000102030405060708090a0b0c0d0e0f101112131415161718191a1b1c1d1e1f"
    );
    assert_eq!(summary.nonce_hex, "ab".repeat(24));
    assert_eq!(summary.key_hex, hex::encode(&material.key));
    assert_eq!(summary.nonce_hex, hex::encode(&material.nonce));
}
