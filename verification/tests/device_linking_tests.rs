use saved_core::crypto::DeviceKey;
use saved_core::device_linking::{DeviceLinkingManager, LinkingError, LinkingRequest, LinkingResponse};

#[test]
fn test_linking_qr_generation() {
    let mut manager = DeviceLinkingManager::new();
    let device_id = "test-device-123".to_string();
    let device_name = "Test Device".to_string();
    let public_key = vec![1, 2, 3, 4, 5];
    let endpoint = "127.0.0.1:8080".to_string();

    let qr_data = manager.generate_linking_qr(device_id.clone(), device_name, public_key, endpoint).unwrap();

    assert_eq!(qr_data.request.device_id, device_id);
    assert_eq!(qr_data.version, "1.0.0");
    assert!(!qr_data.request.nonce.is_empty());
}

#[test]
fn test_pending_requests() {
    let mut manager = DeviceLinkingManager::new();
    let device_id = "test-device-456".to_string();
    let device_name = "Test Device".to_string();
    let public_key = vec![1, 2, 3, 4, 5];
    let endpoint = "127.0.0.1:8080".to_string();

    manager.generate_linking_qr(device_id.clone(), device_name, public_key, endpoint).unwrap();

    let pending = manager.get_pending_requests();
    assert_eq!(pending.len(), 1);
    assert_eq!(pending[0].device_id, device_id);

    let cancelled = manager.cancel_linking_request(&device_id);
    assert!(cancelled);

    let pending = manager.get_pending_requests();
    assert_eq!(pending.len(), 0);
}

fn request(timestamp: i64, nonce_len: usize, key: Vec<u8>) -> LinkingRequest {
    LinkingRequest {
        device_id: "dev".to_string(),
        device_name: "Phone".to_string(),
        public_key: key,
        timestamp,
        nonce: vec![7u8; nonce_len],
    }
}

#[test]
fn request_checks_age_nonce_and_key() {
    let m = DeviceLinkingManager::new();
    let now = 1_000_000_000;
    assert_eq!(m.validate_linking_request_at(&request(now, 32, vec![1]), now), Ok(()));
    // Ten minutes and 59.999 seconds is still ten whole minutes.
    assert_eq!(m.validate_linking_request_at(&request(now - 659_999, 32, vec![1]), now), Ok(()));
    assert_eq!(m.validate_linking_request_at(&request(now - 660_000, 32, vec![1]), now), Err(LinkingError::RequestExpired));
    assert_eq!(m.validate_linking_request_at(&request(now + 5_000_000, 32, vec![1]), now), Ok(()));
    assert_eq!(m.validate_linking_request_at(&request(now, 16, vec![1]), now), Err(LinkingError::InvalidNonceLength));
    assert_eq!(m.validate_linking_request_at(&request(now, 32, vec![]), now), Err(LinkingError::EmptyPublicKey));
    assert_eq!(LinkingError::EmptyPublicKey.message(), "Empty public key");
}

#[test]
fn processing_a_request_answers_with_key_and_token() {
    let mut new_device = DeviceLinkingManager::new();
    let qr = new_device
        .generate_linking_qr_at("dev-1".to_string(), "Laptop".to_string(), vec![0xab; 10], "host:1".to_string(), 100)
        .unwrap();
    assert_eq!(qr.request.timestamp, 100);
    assert_eq!(qr.request.nonce.len(), 32);
    assert_eq!(qr.endpoint, "host:1");

    let existing = DeviceLinkingManager::new();
    let key = DeviceKey::generate();
    let resp = existing.process_linking_request_at(qr, [5u8; 32], &key, 200).unwrap();
    assert_eq!(resp.encrypted_vault_key, b"encrypted_vault_key_for_abababababababab".to_vec());
    assert_eq!(resp.auth_token, b"auth_token_for_dev-1".to_vec());
    assert_eq!(resp.timestamp, 200);

    let got = new_device.accept_linking_response_at("dev-1", resp, &key, 300).unwrap();
    assert_eq!(got, [0u8; 32]);
    assert!(new_device.get_pending_requests().is_empty());
}

#[test]
fn expired_request_is_not_answered() {
    let mut new_device = DeviceLinkingManager::new();
    let qr = new_device
        .generate_linking_qr_at("dev-2".to_string(), "Laptop".to_string(), vec![1; 8], "e".to_string(), 0)
        .unwrap();
    let key = DeviceKey::generate();
    let r = DeviceLinkingManager::new().process_linking_request_at(qr, [5u8; 32], &key, 660_000);
    assert_eq!(r.unwrap_err(), LinkingError::RequestExpired);
}

#[test]
fn accepting_checks_pending_age_and_token() {
    let key = DeviceKey::generate();
    let mut m = DeviceLinkingManager::new();
    let answer = |ts: i64, token: Vec<u8>| LinkingResponse { encrypted_vault_key: vec![1], auth_token: token, timestamp: ts };
    assert_eq!(m.accept_linking_response_at("nobody", answer(0, vec![1]), &key, 0), Err(LinkingError::NoPendingRequest));
    m.generate_linking_qr_at("d".to_string(), "n".to_string(), vec![1], "e".to_string(), 0).unwrap();
    assert_eq!(m.accept_linking_response_at("d", answer(0, vec![1]), &key, 360_000), Err(LinkingError::ResponseExpired));
    assert_eq!(m.accept_linking_response_at("d", answer(0, vec![]), &key, 10), Err(LinkingError::EmptyAuthToken));
    assert_eq!(m.get_pending_requests().len(), 1);
    assert!(m.accept_linking_response_at("d", answer(0, vec![1]), &key, 359_999).is_ok());
    assert!(!m.cancel_linking_request("d"));
}

#[test]
fn a_new_request_replaces_the_pending_one_of_the_same_device() {
    let mut m = DeviceLinkingManager::new();
    m.generate_linking_qr_at("a".to_string(), "first".to_string(), vec![1], "e".to_string(), 1).unwrap();
    m.generate_linking_qr_at("b".to_string(), "other".to_string(), vec![1], "e".to_string(), 2).unwrap();
    m.generate_linking_qr_at("a".to_string(), "second".to_string(), vec![1], "e".to_string(), 3).unwrap();
    let pending = m.get_pending_requests();
    assert_eq!(pending.len(), 2);
    assert_eq!(pending[0].device_name, "second");
    assert_eq!(pending[1].device_id, "b");
}
