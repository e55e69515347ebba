use saved_core::account::{
    device_key_bytes, device_key_from_bytes, encrypt_for_device, encrypt_for_device_with, generate_onboarding_token,
    public_key_from_encrypted_key, AccountError, AccountKeys, QrPayload, CERT_LIFETIME_S, QR_LIFETIME_S,
};
use saved_core::crypto::{AccountKey, CryptoError, DeviceCert, DeviceKey};

fn hex(b: &[u8]) -> String {
    b.iter().map(|x| format!("{:02x}", x)).collect()
}

fn holder() -> (AccountKeys, AccountKey) {
    let mut keys = AccountKeys::new();
    let ak = AccountKey::generate();
    keys.store_account_key_holder(&ak, None).unwrap();
    (keys, ak)
}

/// Records whose stored account key is the raw secret of `ak`.
fn raw_holder(ak: &AccountKey) -> AccountKeys {
    let mut keys = AccountKeys::new();
    keys.store_account_key(&ak.private_key_bytes());
    keys.store_account_key_info(ak.to_info_at(1, true, 1_000));
    keys
}

#[test]
fn test_distributed_account_key_scenario() {
    let (laptop, _) = holder();
    let new_phone = AccountKeys::new();
    assert!(laptop.has_account_private_key());
    assert!(!new_phone.has_account_private_key());
    let laptop_key_info = laptop.get_account_key_info();
    assert!(laptop_key_info.is_some());
    assert!(laptop_key_info.unwrap().has_private_key);
    assert!(new_phone.get_account_key_info().is_none());
    assert!(!new_phone.has_account_private_key());
}

#[test]
fn test_device_linking_flow() {
    let (mut account, _) = holder();
    let device = DeviceKey::generate();
    let qr_payload = account.make_linking_qr(&device, &vec![]).unwrap();
    assert!(!qr_payload.device_id.is_empty());
    assert!(!qr_payload.onboarding_token.is_empty());
    assert!(qr_payload.device_cert.is_some());
    assert!(qr_payload.expires_at > 1_600_000_000);
    let device_info = account.accept_link(qr_payload).unwrap();
    assert!(device_info.device_cert.is_some());
    let authorized_devices = account.list_authorized_devices();
    if device_info.is_authorized {
        assert_eq!(authorized_devices.len(), 1);
        assert_eq!(authorized_devices[0].device_id, device_info.device_id);
        assert!(authorized_devices[0].is_authorized);
        account.revoke_device_authorization(&device_info.device_id);
        assert_eq!(account.list_authorized_devices().len(), 0);
    } else {
        assert_eq!(authorized_devices.len(), 0);
    }
}

#[test]
fn holder_stores_a_protected_key_that_is_not_the_secret() {
    let (account, ak) = holder();
    let stored = account.get_account_key().unwrap();
    assert!(stored.len() > 32);
    let info = account.get_account_key_info().unwrap();
    assert_eq!(info.public_key, ak.public_key_bytes());
    assert_eq!(info.version, 1);
    assert_eq!(info.expires_at, None);
    // The first 32 bytes of the protected text serve as the secret.
    let k = account.decrypted_account_key().unwrap();
    assert_eq!(&k.private_key_bytes()[..], &stored[..32]);
    assert_ne!(k.public_key_bytes(), ak.public_key_bytes());
}

#[test]
fn authorization_needs_the_private_key_and_a_valid_certificate() {
    let ak = AccountKey::generate();
    let device = DeviceKey::generate();
    let cert = DeviceCert::new_at(device.public_key_bytes(), &ak, None, 100).unwrap();

    let mut bare = AccountKeys::new();
    assert_eq!(bare.authorize_device(cert.clone()), Err(AccountError::NoAccountPrivateKey));

    let mut keys = raw_holder(&ak);
    let id = keys.authorize_device(cert.clone()).unwrap();
    assert_eq!(id, format!("device_{}", hex(&device.public_key_bytes()[..4])));
    assert!(keys.is_device_authorized(&id));
    assert!(!keys.is_device_authorized("device_00000000"));

    let other = AccountKey::generate();
    let forged = DeviceCert::new_at(DeviceKey::generate().public_key_bytes(), &other, None, 100).unwrap();
    assert_eq!(keys.authorize_device_with_account_key(forged), Err(AccountError::Crypto(CryptoError::SignatureVerificationFailed)));
    let mut short = cert.clone();
    short.signature.pop();
    assert_eq!(keys.authorize_device(short), Err(AccountError::Crypto(CryptoError::InvalidSignatureLength)));
    assert_eq!(keys.get_authorized_devices().len(), 1);

    let listed = keys.list_authorized_devices();
    assert_eq!(listed.len(), 1);
    assert_eq!(listed[0].device_name, format!("Device {}", &id[..8]));
    assert_eq!(listed[0].last_seen, 100);
    assert!(!listed[0].is_online);

    keys.revoke_device_authorization(&id);
    assert!(!keys.is_device_authorized(&id));
    assert!(keys.get_authorized_devices().is_empty());
}

#[test]
fn storing_a_device_again_replaces_it_and_moves_it_last() {
    let ak = AccountKey::generate();
    let c1 = DeviceCert::new_at([1u8; 32], &ak, None, 1).unwrap();
    let c2 = DeviceCert::new_at([2u8; 32], &ak, None, 2).unwrap();
    let c3 = DeviceCert::new_at([3u8; 32], &ak, None, 3).unwrap();
    let mut keys = AccountKeys::new();
    keys.store_authorized_device("device_a", &c1);
    keys.store_authorized_device("device_b", &c2);
    keys.store_authorized_device("device_a", &c3);
    let all = keys.get_authorized_devices();
    assert_eq!(all.len(), 2);
    assert_eq!(all[0].0, "device_b");
    assert_eq!(all[1].0, "device_a");
    assert_eq!(all[1].1.issued_at, 3);
}

#[test]
fn an_account_key_encrypted_for_a_device_opens_for_it_only() {
    let device = DeviceKey::generate();
    let key: Vec<u8> = (0u8..40).collect();
    let env = encrypt_for_device_with(&key, &device.public_key_bytes(), &[7u8; 32], &[9u8; 24]).unwrap();
    assert_eq!(env.len(), key.len() + 72);
    assert_eq!(&env[..32], &[7u8; 32]);
    assert_eq!(&env[32..56], &[9u8; 24]);
    let pk = public_key_from_encrypted_key(&env, &device.public_key_bytes()).unwrap();
    assert_eq!(&pk[..], &key[..32]);
    let other = DeviceKey::generate();
    assert_eq!(public_key_from_encrypted_key(&env, &other.public_key_bytes()), Err(AccountError::Crypto(CryptoError::DecryptionFailed)));
    assert_eq!(public_key_from_encrypted_key(&env[..63], &device.public_key_bytes()), Err(AccountError::InvalidEncryptedKeyFormat));
    let small = encrypt_for_device(&[1u8; 10], &device.public_key_bytes()).unwrap();
    assert_eq!(public_key_from_encrypted_key(&small, &device.public_key_bytes()), Err(AccountError::DecryptedKeyTooShort));
}

#[test]
fn sharing_the_account_key_with_an_authorized_device() {
    let ak = AccountKey::generate();
    let device = DeviceKey::generate();
    let cert = DeviceCert::new_at(device.public_key_bytes(), &ak, None, 5).unwrap();
    let mut keys = raw_holder(&ak);
    let id = keys.authorize_device(cert).unwrap();

    assert_eq!(keys.share_account_key("device_ffffffff"), Err(AccountError::DeviceNotFound { device_id: "device_ffffffff".to_string() }));
    assert_eq!(keys.get_shared_account_key(), Some(ak.private_key_bytes().to_vec()));
    let env = keys.share_account_key(&id).unwrap();
    let read = public_key_from_encrypted_key(&env, &device.public_key_bytes()).unwrap();
    assert_eq!(read, ak.private_key_bytes());

    let mut bare = AccountKeys::new();
    assert_eq!(bare.share_account_key(&id), Err(AccountError::NoAccountPrivateKey));
    let mut no_key = AccountKeys::new();
    no_key.store_account_key_info(ak.to_info_at(1, true, 0));
    assert_eq!(no_key.share_account_key(&id), Err(AccountError::AccountKeyNotFound));

    // The receiving device records the key from what it opens to.
    let mut phone = AccountKeys::new();
    phone.accept_shared_account_key_at(&env, &device.public_key_bytes(), 77).unwrap();
    assert_eq!(phone.get_account_key(), Some(env.clone()));
    let info = phone.get_account_key_info().unwrap();
    assert_eq!(info.public_key, ak.private_key_bytes());
    assert_eq!(info.created_at, 77);
    assert_eq!(info.expires_at, None);
    assert_eq!(info.version, 1);
    assert!(info.has_private_key);
    assert!(phone.has_account_private_key());
    let mut stranger = AccountKeys::new();
    let err = stranger.accept_shared_account_key_at(&env, &DeviceKey::generate().public_key_bytes(), 77);
    assert_eq!(err, Err(AccountError::Crypto(CryptoError::DecryptionFailed)));
    assert!(stranger.get_account_key_info().is_none());
    assert_eq!(stranger.get_account_key(), Some(env));
}

#[test]
fn accepting_a_shared_key_marks_an_existing_record_as_held() {
    let ak = AccountKey::generate();
    let mut keys = AccountKeys::new();
    keys.store_account_key_info(ak.to_info_at(3, false, 10));
    keys.accept_shared_account_key(&[1u8; 5], &[0u8; 32]).unwrap();
    let info = keys.get_account_key_info().unwrap();
    assert!(info.has_private_key);
    assert_eq!(info.version, 3);
    assert_eq!(info.created_at, 10);
}

#[test]
fn stored_account_key_must_hold_32_bytes() {
    let keys = AccountKeys::new();
    assert!(matches!(keys.decrypted_account_key(), Err(AccountError::AccountKeyNotFound)));
    let mut short = AccountKeys::new();
    short.store_account_key(&[1u8; 31]);
    assert!(matches!(short.decrypted_account_key(), Err(AccountError::InvalidAccountKeyLength { len: 31 })));
    let mut long = AccountKeys::new();
    long.store_account_key(&[4u8; 40]);
    assert_eq!(long.decrypted_account_key().unwrap().private_key_bytes(), [4u8; 32]);
}

#[test]
fn linking_payload_carries_a_certificate_for_a_year() {
    let ak = AccountKey::generate();
    let keys = raw_holder(&ak);
    let device = DeviceKey::generate();
    let addrs = vec!["/ip4/127.0.0.1/tcp/1".to_string()];
    let q = keys.make_linking_qr_at(&device, &addrs, "tok".to_string(), 1_000).unwrap();
    assert_eq!(q.device_id, format!("device-{}", hex(&device.public_key_bytes()[..8])));
    assert_eq!(q.addresses, addrs);
    assert_eq!(q.onboarding_token, "tok");
    assert_eq!(q.expires_at, 1_000 + QR_LIFETIME_S);
    let cert = q.device_cert.clone().unwrap();
    assert_eq!(cert.issued_at, 1_000);
    assert_eq!(cert.expires_at, Some(1_000 + CERT_LIFETIME_S));
    assert!(cert.verify(&ak).is_ok());
    assert!(matches!(AccountKeys::new().make_linking_qr_at(&device, &addrs, "t".to_string(), 0), Err(AccountError::AccountKeyNotFound)));
}

#[test]
fn accepting_a_link_authorizes_a_certified_device() {
    let ak = AccountKey::generate();
    let mut keys = raw_holder(&ak);
    let device = DeviceKey::generate();
    let q = keys.make_linking_qr_at(&device, &vec![], "t".to_string(), 1_000).unwrap();
    let id = q.device_id.clone();
    let expired = QrPayload { device_id: id.clone(), addresses: vec![], onboarding_token: String::new(), expires_at: 10, device_cert: None };
    assert!(matches!(keys.accept_link_at(expired, 11), Err(AccountError::QrExpired)));
    let info = keys.accept_link_at(q, 1_100).unwrap();
    assert!(info.is_authorized);
    assert!(info.is_online);
    assert_eq!(info.last_seen, 1_100);
    assert_eq!(info.device_name, format!("Device {}", &id[..8]));
    assert!(keys.is_device_authorized(&id));

    let mut no_info = AccountKeys::new();
    let q2 = keys.make_linking_qr_at(&device, &vec![], "t".to_string(), 1_000).unwrap();
    let info2 = no_info.accept_link_at(q2, 1_000).unwrap();
    assert!(!info2.is_authorized);
    assert!(no_info.get_authorized_devices().is_empty());
}

#[test]
fn verifying_authorized_devices_revokes_those_that_fail() {
    let ak = AccountKey::generate();
    let other = AccountKey::generate();
    let mut keys = raw_holder(&ak);
    let good = DeviceCert::new_at([1u8; 32], &ak, None, 1).unwrap();
    let bad = DeviceCert::new_at([2u8; 32], &other, None, 1).unwrap();
    keys.store_authorized_device("device_good", &good);
    keys.store_authorized_device("device_bad1", &bad);
    keys.verify_authorized_devices().unwrap();
    let left = keys.get_authorized_devices();
    assert_eq!(left.len(), 1);
    assert_eq!(left[0].0, "device_good");

    let mut no_info = AccountKeys::new();
    no_info.store_authorized_device("device_bad1", &bad);
    no_info.verify_authorized_devices().unwrap();
    assert_eq!(no_info.get_authorized_devices().len(), 1);
}

#[test]
fn device_keys_read_back_from_their_stored_form() {
    let k = DeviceKey::generate();
    let stored = device_key_bytes(&k);
    assert_eq!(stored.len(), 64);
    let back = device_key_from_bytes(&stored).unwrap();
    assert_eq!(back.private_key_bytes(), k.private_key_bytes());
    assert_eq!(back.public_key_bytes(), k.public_key_bytes());
    let old_form = device_key_from_bytes(&k.private_key_bytes()).unwrap();
    assert_eq!(old_form.public_key_bytes(), k.public_key_bytes());
    assert!(matches!(device_key_from_bytes(&[0u8; 10]), Err(AccountError::InvalidDeviceKeyLength)));
    let mut invalid = None;
    for i in 0u8..=255 {
        let mut p = [0u8; 32];
        p[0] = i;
        p[31] = 0x7f;
        if AccountKey::from_public_bytes(&p).is_err() {
            invalid = Some(p);
            break;
        }
    }
    let p = invalid.unwrap();
    let mut bytes = k.private_key_bytes().to_vec();
    bytes.extend_from_slice(&p);
    assert!(matches!(device_key_from_bytes(&bytes), Err(AccountError::Crypto(CryptoError::InvalidPublicKey))));
}

#[test]
fn local_device_reports_itself() {
    let ak = AccountKey::generate();
    let mut keys = AccountKeys::new();
    let info = keys.device_info_at(5);
    assert_eq!(info.device_id, "local-device");
    assert_eq!(info.device_name, "Local Device");
    assert!(info.device_cert.is_none());
    let cert = DeviceCert::new_at([3u8; 32], &ak, None, 1).unwrap();
    keys.store_device_certificate(&cert);
    assert_eq!(keys.device_info().device_cert.unwrap().device_pubkey, [3u8; 32]);
    assert_eq!(keys.get_device_certificate().unwrap().issued_at, 1);
}

#[test]
fn onboarding_tokens_are_64_hex_digits() {
    let t = generate_onboarding_token();
    assert_eq!(t.len(), 64);
    assert!(t.chars().all(|c| c.is_ascii_hexdigit() && !c.is_ascii_uppercase()));
    assert_ne!(t, generate_onboarding_token());
}

#[test]
fn test_account_keys_and_device_info() {
    let mut storage = AccountKeys::new();
    storage.store_account_key(b"encrypted-ak");
    let ak = storage.get_account_key().unwrap();
    assert_eq!(ak, b"encrypted-ak");
    let info = saved_core::crypto::AccountKeyInfo {
        public_key: [1u8; 32],
        created_at: 1_700_000_000,
        expires_at: None,
        version: 1,
        has_private_key: true,
    };
    storage.store_account_key_info(info);
    let fetched = storage.get_account_key_info().unwrap();
    assert_eq!(fetched.public_key, [1u8; 32]);
}

#[test]
fn test_authorized_devices_and_device_cert() {
    let mut storage = AccountKeys::new();
    let account_key = AccountKey::generate();
    let device_key = DeviceKey::generate();
    let cert = DeviceCert::new(device_key.public_key_bytes(), &account_key, None).unwrap();
    storage.store_device_certificate(&cert);
    let fetched = storage.get_device_certificate().unwrap();
    assert_eq!(fetched.device_pubkey, device_key.public_key_bytes());
    storage.store_authorized_device("dev1", &cert);
    assert!(storage.is_device_authorized("dev1"));
    let list = storage.get_authorized_devices();
    assert!(list.iter().any(|(id, _)| id == "dev1"));
    storage.revoke_device_authorization("dev1");
    assert!(!storage.is_device_authorized("dev1"));
}

#[test]
fn vault_key_is_stored_and_replaced() {
    let mut keys = AccountKeys::new();
    assert!(keys.get_vault_key().is_none());
    keys.store_vault_key(b"10");
    keys.store_vault_key(b"11");
    assert_eq!(keys.get_vault_key(), Some(b"11".to_vec()));
    assert!(keys.get_account_key().is_none());
}

#[test]
fn store_and_revoke_changes_leave_the_last_certificate() {
    let ak = AccountKey::generate();
    let c1 = DeviceCert::new_at([1u8; 32], &ak, None, 1).unwrap();
    let c2 = DeviceCert::new_at([2u8; 32], &ak, None, 2).unwrap();
    let c3 = DeviceCert::new_at([3u8; 32], &ak, None, 3).unwrap();
    let mut keys = AccountKeys::new();
    keys.store_authorized_device("device_a", &c1);
    keys.store_authorized_device("device_b", &c2);
    keys.revoke_device_authorization("device_a");
    keys.store_authorized_device("device_b", &c3);
    keys.store_authorized_device("device_a", &c1);
    keys.revoke_device_authorization("device_c");
    let all = keys.get_authorized_devices();
    assert_eq!(all.len(), 2);
    assert_eq!(all[0].0, "device_b");
    assert_eq!(all[0].1.issued_at, 3);
    assert_eq!(all[1].0, "device_a");
    assert_eq!(all[1].1.issued_at, 1);
}
