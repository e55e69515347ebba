use saved_core::account::{AccountError, AccountKeys, QrPayload};
use saved_core::attachments::AttachmentError;
use saved_core::crypto::{recover_vault_key_from_passphrase, CryptoError};
use saved_core::daemon::parse_message_id;
use saved_core::ids::OpId;
use saved_core::peers::{simulate_connection_attempt, NetworkError};
use saved_core::recovery::RecoveryError;
use saved_core::validation::{
    check_attachment_size, check_directory, check_file, validate_device_id, validate_hex_string,
    validate_message_content,
};

#[test]
fn path_error_texts_name_the_path() {
    assert_eq!(check_directory("/no/such", false, false).unwrap_err().message(), "Path does not exist: /no/such");
    assert_eq!(check_directory("/etc/hosts", true, false).unwrap_err().message(), "Path is not a directory: /etc/hosts");
    assert_eq!(check_file("missing.txt", false, false).unwrap_err().message(), "File does not exist: missing.txt");
    assert_eq!(check_file("/tmp", true, false).unwrap_err().message(), "Path is not a file: /tmp");
    assert_eq!(
        check_attachment_size("big.bin", 100 * 1024 * 1024 + 1).unwrap_err().message(),
        "File too large (max 100MB): big.bin"
    );
}

#[test]
fn input_errors_read_as_the_checks_say() {
    assert_eq!(
        validate_hex_string("abc", 32).unwrap_err().message(),
        "Hex string must be 64 characters long (32 bytes)"
    );
    assert_eq!(validate_hex_string("zz", 1).unwrap_err().message(), "Hex string contains invalid characters");
    assert_eq!(validate_device_id("").unwrap_err().message(), "Device ID cannot be empty");
    assert_eq!(validate_device_id(&"a".repeat(65)).unwrap_err().message(), "Device ID too long (max 64 characters)");
    assert_eq!(validate_message_content("").unwrap_err().message(), "Message content cannot be empty");
    assert_eq!(
        validate_message_content(&"a".repeat(1_000_001)).unwrap_err().message(),
        "Message content too long (max 1MB)"
    );
}

#[test]
fn message_id_parse_errors() {
    assert_eq!(parse_message_id("1,2,3").unwrap_err().message(), "Message ID must have exactly 32 bytes");
    let text = format!("256{}", ",0".repeat(31));
    assert_eq!(parse_message_id(&text).unwrap_err().message(), "Invalid byte at position 0: 256");
    let text = format!("{}x", "0,".repeat(31));
    assert_eq!(parse_message_id(&text).unwrap_err().message(), "Invalid byte at position 31: x");
}

#[test]
fn op_id_of_wrong_length_is_a_sync_error() {
    assert_eq!(OpId::from_bytes(&[0u8; 39]).unwrap_err().message(), "Sync error: Invalid OpId length");
    assert_eq!(OpId::from_bytes(&[0u8; 41]).unwrap_err().message(), "Sync error: Invalid OpId length");
}

#[test]
fn open_breaker_and_network_errors() {
    assert_eq!(RecoveryError::CircuitOpen.message(), "Network error: Circuit breaker is open");
    assert_eq!(NetworkError::ConnectionInProgress.message(), "Network error: Connection already in progress");
    assert_eq!(
        simulate_connection_attempt("fail").unwrap_err().message(),
        "Network error: Simulated connection failure"
    );
}

#[test]
fn account_and_crypto_errors() {
    assert_eq!(AccountError::QrExpired.message(), "Network error: QR code has expired");
    assert_eq!(
        AccountError::DeviceNotFound { device_id: "device_ffffffff".to_string() }.message(),
        "Cryptography error: Target device device_ffffffff not found in authorized devices"
    );
    assert_eq!(
        AccountError::InvalidAccountKeyLength { len: 31 }.message(),
        "Storage error: Invalid account key length: 31"
    );
    assert_eq!(
        recover_vault_key_from_passphrase("AAAA", "pw").unwrap_err().message(),
        "Cryptography error: Invalid protected key format"
    );
    assert_eq!(CryptoError::DecryptionFailed.message(), "Cryptography error: Decryption failed: aead::Error");
    assert_eq!(AttachmentError::IdsExhausted.message(), "Storage error: No attachment id is left");
}

#[test]
fn expired_and_short_link_payloads_are_refused() {
    let mut keys = AccountKeys::new();
    let expired = QrPayload { device_id: "abcdefgh12".to_string(), addresses: vec![], onboarding_token: String::new(), expires_at: 10, device_cert: None };
    let e = match keys.accept_link_at(expired, 11) {
        Err(e) => e,
        Ok(_) => panic!("an expired payload was accepted"),
    };
    assert_eq!(e, AccountError::QrExpired);
    assert_eq!(e.message(), "Network error: QR code has expired");
    let short = QrPayload { device_id: "abc".to_string(), addresses: vec![], onboarding_token: String::new(), expires_at: 100, device_cert: None };
    assert!(matches!(keys.accept_link_at(short, 11), Err(AccountError::InvalidDeviceId)));
    assert!(keys.get_authorized_devices().is_empty());
    let expired_short = QrPayload { device_id: "abc".to_string(), addresses: vec![], onboarding_token: String::new(), expires_at: 10, device_cert: None };
    assert!(matches!(keys.accept_link_at(expired_short, 11), Err(AccountError::QrExpired)));
}
