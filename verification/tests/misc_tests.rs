use saved_core::crypto::{
    decrypt, derive_chunk_key, derive_event_key, encrypt, generate_nonce, generate_vault_key,
    protect_vault_key_with_passphrase, recover_vault_key_from_passphrase, CryptoError, DeviceCert,
    AccountKey, DeviceKey,
};
use saved_core::daemon::{parse_message_id, ParseIdError};
use saved_core::ids::MessageId;
use saved_core::types::{AttachmentStatus, Config, StorageBackend, StorageConfig};
use saved_core::validation::{
    check_attachment_size, check_directory, check_file, validate_directory_path, validate_file_path,
    format_message_id, validate_device_id, validate_hex_string, validate_message_content,
    validate_message_id, ValidationError,
};

#[test]
fn test_key_generation() {
    let account_key = AccountKey::generate();
    let device_key = DeviceKey::generate();
    let vault_key = generate_vault_key();
    assert_eq!(account_key.public_key_bytes().len(), 32);
    assert_eq!(device_key.public_key_bytes().len(), 32);
    assert_eq!(vault_key.len(), 32);
}

#[test]
fn test_encryption_decryption() {
    let key = generate_vault_key();
    let nonce = generate_nonce();
    let plaintext = b"Hello, SAVED!";
    let ciphertext = encrypt(&key, &nonce, plaintext).unwrap();
    assert_eq!(ciphertext.len(), plaintext.len() + 16);
    let decrypted = decrypt(&key, &nonce, &ciphertext).unwrap();
    assert_eq!(plaintext, &decrypted[..]);
    let mut tampered = ciphertext.clone();
    tampered[0] ^= 1;
    assert_eq!(decrypt(&key, &nonce, &tampered), Err(CryptoError::DecryptionFailed));
}

#[test]
fn test_passphrase_protection() {
    let vault_key = generate_vault_key();
    let passphrase = "test-passphrase-123";
    let protected = protect_vault_key_with_passphrase(&vault_key, passphrase).unwrap();
    let recovered = recover_vault_key_from_passphrase(&protected, passphrase).unwrap();
    assert_eq!(vault_key, recovered);
    assert!(recover_vault_key_from_passphrase(&protected, "wrong").is_err());
    assert_eq!(recover_vault_key_from_passphrase("AAAA", passphrase), Err(CryptoError::InvalidProtectedKeyFormat));
    assert_eq!(recover_vault_key_from_passphrase("not base64!", passphrase), Err(CryptoError::Base64DecodeFailed));
}

#[test]
fn test_device_certificate() {
    let account_key = AccountKey::generate();
    let device_key = DeviceKey::generate();
    let cert = DeviceCert::new(device_key.public_key_bytes(), &account_key, None).unwrap();
    cert.verify(&account_key).unwrap();
    let other = AccountKey::generate();
    assert_eq!(cert.verify(&other), Err(CryptoError::SignatureVerificationFailed));
    let mut short = cert.clone();
    short.signature.pop();
    assert_eq!(short.verify(&account_key), Err(CryptoError::InvalidSignatureLength));
}

#[test]
fn derived_keys_differ_by_label() {
    let vk = [5u8; 32];
    let e = derive_event_key(&vk, &[1, 2, 3]).unwrap();
    let c = derive_chunk_key(&vk, &[1, 2, 3]).unwrap();
    assert_ne!(e, c);
    assert_eq!(e, derive_event_key(&vk, &[1, 2, 3]).unwrap());
}

#[test]
fn hex_validation() {
    assert_eq!(validate_hex_string("abcd", 2), Ok(()));
    assert_eq!(validate_hex_string("abc", 2), Err(ValidationError::HexWrongLength { expected_bytes: 2 }));
    assert_eq!(validate_hex_string("abzz", 2), Err(ValidationError::HexInvalidCharacters));
    assert_eq!(validate_hex_string("ééé", 3), Err(ValidationError::HexInvalidCharacters));
    assert_eq!(validate_message_id(&"ab".repeat(32)), Ok(()));
    assert_eq!(validate_message_id("ab"), Err(ValidationError::HexWrongLength { expected_bytes: 32 }));
}

#[test]
fn device_id_and_content_validation() {
    assert_eq!(validate_device_id(""), Err(ValidationError::DeviceIdEmpty));
    assert_eq!(validate_device_id(&"x".repeat(65)), Err(ValidationError::DeviceIdTooLong));
    assert_eq!(validate_device_id(&"x".repeat(64)), Ok(()));
    assert_eq!(validate_message_content(""), Err(ValidationError::ContentEmpty));
    assert_eq!(validate_message_content(&"x".repeat(1_000_001)), Err(ValidationError::ContentTooLong));
    assert_eq!(validate_message_content("hi"), Ok(()));
}

#[test]
fn message_id_hex_form() {
    let mut id = [0u8; 32];
    id[0] = 0xab;
    id[31] = 0x01;
    let s = format_message_id(&id);
    assert_eq!(s.len(), 64);
    assert!(s.starts_with("ab00"));
    assert!(s.ends_with("0001"));
}

#[test]
fn parse_message_id_forms() {
    let list: Vec<String> = (1..=32).map(|i| i.to_string()).collect();
    let text = format!("[{}]", list.join(", "));
    let id = parse_message_id(&text).unwrap();
    let mut expected = [0u8; 32];
    for i in 0..32 {
        expected[i] = (i + 1) as u8;
    }
    assert_eq!(id, MessageId::from_bytes(expected));
    assert_eq!(parse_message_id("[1, 2, 3]"), Err(ParseIdError::WrongLength));
    let mut bad = list.clone();
    bad[4] = "256".to_string();
    assert_eq!(
        parse_message_id(&bad.join(",")),
        Err(ParseIdError::InvalidByte { position: 4, part: "256".to_string() })
    );
    let plus: Vec<String> = (0..32).map(|_| "+7".to_string()).collect();
    assert_eq!(parse_message_id(&plus.join(",")).unwrap(), MessageId::from_bytes([7u8; 32]));
}

#[test]
fn configuration_defaults() {
    let c = Config::default();
    assert_eq!(c.network_port, 8080);
    assert_eq!(c.chunk_size, 2 * 1024 * 1024);
    assert_eq!(c.storage_path, "./saved-account");
    let s = StorageConfig::memory();
    assert_eq!(s.backend, StorageBackend::Memory);
    let q = StorageConfig::sqlite("/tmp/db".to_string());
    assert_eq!(q.path, Some("/tmp/db".to_string()));
    assert_eq!(AttachmentStatus::from_code(2), AttachmentStatus::Purged);
    assert_eq!(AttachmentStatus::Deleted.to_code(), 1);
    assert_eq!(AttachmentStatus::from_code(7), AttachmentStatus::Active);
}

#[test]
fn account_key_info_records_the_public_key() {
    let key = AccountKey::from_private_bytes(&[7u8; 32]).unwrap();
    let info = key.to_info_at(3, true, 1_700_000_000);
    assert_eq!(info.public_key, key.public_key_bytes());
    assert_eq!(info.created_at, 1_700_000_000);
    assert_eq!(info.expires_at, None);
    assert_eq!(info.version, 3);
    assert!(info.has_private_key);
    let later = key.to_info_with_expiration(4, false, 1_800_000_000);
    assert_eq!(later.expires_at, Some(1_800_000_000));
    assert_eq!(later.version, 4);
    assert!(!later.has_private_key);
    assert!(later.created_at > 1_600_000_000);
}

#[test]
fn account_key_from_public_bytes_verifies_only() {
    let signer = AccountKey::generate();
    let sig = signer.sign(b"data");
    let verifier = AccountKey::from_public_bytes(&signer.public_key_bytes()).unwrap();
    assert!(verifier.verify(b"data", &sig).is_ok());
    assert!(verifier.verify(b"other", &sig).is_err());
}

#[test]
fn device_key_from_keys_keeps_both_halves() {
    let k = DeviceKey::generate();
    let again = DeviceKey::from_keys(k.private_key_bytes(), k.public_key_bytes());
    assert_eq!(again.public_key_bytes(), k.public_key_bytes());
    let sig = again.sign(b"op");
    assert!(k.verify(b"op", &sig).is_ok());
    assert_eq!(DeviceKey::from_bytes(&k.private_key_bytes()).unwrap().public_key_bytes(), k.public_key_bytes());
}

#[test]
fn short_message_ids_keep_both_ends() {
    let mut id = [0xabu8; 32];
    id[0] = 0x01;
    id[31] = 0xfe;
    assert_eq!(saved_core::validation::format_short_message_id(&id), "01ababab...ababfe".replace("ababfe", "abababfe"));
    assert_eq!(saved_core::validation::format_short_message_id(&[0u8; 32]), "00000000...00000000");
}

#[test]
fn recovering_from_malformed_text_names_the_fault() {
    assert_eq!(recover_vault_key_from_passphrase("not base64!", "pw"), Err(CryptoError::Base64DecodeFailed));
    assert_eq!(recover_vault_key_from_passphrase("AAAA", "pw"), Err(CryptoError::InvalidProtectedKeyFormat));
    let protected = protect_vault_key_with_passphrase(&[1u8; 32], "right").unwrap();
    assert_eq!(recover_vault_key_from_passphrase(&protected, "wrong"), Err(CryptoError::DecryptionFailed));
}

#[test]
fn path_errors_name_the_path() {
    assert_eq!(check_directory("/data", false, false), Err(ValidationError::PathDoesNotExist { path: "/data".to_string() }));
    assert_eq!(check_directory("/data", true, false), Err(ValidationError::NotADirectory { path: "/data".to_string() }));
    assert_eq!(check_directory("/data", true, true), Ok(()));
    assert_eq!(check_file("a.txt", false, false), Err(ValidationError::FileDoesNotExist { path: "a.txt".to_string() }));
    assert_eq!(check_file("a.txt", true, false), Err(ValidationError::NotAFile { path: "a.txt".to_string() }));
    assert_eq!(check_attachment_size("big.bin", 104_857_601), Err(ValidationError::FileTooLarge { path: "big.bin".to_string() }));
    assert_eq!(check_attachment_size("big.bin", 104_857_600), Ok(()));
    let missing = "/no/such/saved/dir/xyz";
    assert_eq!(validate_directory_path(missing), Err(ValidationError::PathDoesNotExist { path: missing.to_string() }));
    assert_eq!(validate_file_path(missing), Err(ValidationError::FileDoesNotExist { path: missing.to_string() }));
}
