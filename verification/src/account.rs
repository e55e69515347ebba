//! What a device keeps of its account: the account key (as stored), what is
//! recorded of it, the device's own certificate and the devices it has
//! authorized; and the account-level steps built on them: authorizing and
//! revoking devices, sharing the account key with a device, and linking
//! devices through QR payloads.

use vstd::prelude::*;
use crate::assoc::{assoc_get, assoc_has, assoc_remove_all, lemma_assoc_absent, lemma_assoc_found};
use crate::crypto::{
    blake3_digest, blake3_hash, cert_data, cert_valid, copy_cert, ed25519_check_public, ed25519_key_ok, ed25519_public,
    ed25519_signature,
    xchacha_max_blocks, xchacha_open, xchacha_seal, AccountKey, AccountKeyInfo, CryptoError, DeviceCert, DeviceCertView,
    DeviceKey,
};
use crate::envelope::{bytes_to_arr24, copy_bytes};
use crate::events::{arr32, copy_string, vec_to_arr32};
use crate::ids::slice_subrange;
use crate::peers::{head_of, id_head, id_head_ok, texts_view};
use crate::recovery::str_eq;
use crate::validation::{hex_encode, hex_lower};

verus! {

/// Why an account-level step failed.
#[derive(Clone, Debug, PartialEq, Eq)]
pub enum AccountError {
    /// This device does not hold the account's private key.
    NoAccountPrivateKey,
    /// No account key is stored.
    AccountKeyNotFound,
    /// The stored account key is shorter than 32 bytes; its length.
    InvalidAccountKeyLength { len: usize },
    /// The device is not among the authorized devices; its id.
    DeviceNotFound { device_id: String },
    /// An encrypted account key is shorter than 64 bytes.
    InvalidEncryptedKeyFormat,
    /// A decrypted account key is shorter than 32 bytes.
    DecryptedKeyTooShort,
    /// The QR payload has expired.
    QrExpired,
    /// A device id that cannot be cut after its first eight bytes, where a
    /// device name is made of them.
    InvalidDeviceId,
    /// A stored device key is neither 32 nor 64 bytes long.
    InvalidDeviceKeyLength,
    /// A cryptographic step failed.
    Crypto(CryptoError),
}

/// The text that an error reads as, with the kind of error it comes as
/// (storage, cryptography or network).
pub open spec fn account_error_text(e: AccountError) -> Seq<char> {
    match e {
        AccountError::NoAccountPrivateKey => "Cryptography error: This device does not have the account private key"@,
        AccountError::AccountKeyNotFound => "Storage error: Account key not found"@,
        AccountError::InvalidAccountKeyLength { len } =>
            "Storage error: Invalid account key length: "@ + crate::text::decimal_text(len as nat),
        AccountError::DeviceNotFound { device_id } =>
            "Cryptography error: Target device "@ + device_id@ + " not found in authorized devices"@,
        AccountError::InvalidEncryptedKeyFormat => "Cryptography error: Invalid encrypted key format"@,
        AccountError::DecryptedKeyTooShort => "Cryptography error: Decrypted account key too short"@,
        AccountError::QrExpired => "Network error: QR code has expired"@,
        AccountError::InvalidDeviceId => "Device linking error: Device ID cannot be cut after its first eight bytes"@,
        AccountError::InvalidDeviceKeyLength => "Storage error: Invalid device key length"@,
        AccountError::Crypto(c) => crate::crypto::crypto_error_text(c),
    }
}

impl AccountError {
    /// The text of the error.
    pub fn message(&self) -> (r: String)
        ensures
            r@ == account_error_text(*self),
    {
        match self {
            AccountError::NoAccountPrivateKey => String::from_str("Cryptography error: This device does not have the account private key"),
            AccountError::AccountKeyNotFound => String::from_str("Storage error: Account key not found"),
            AccountError::InvalidAccountKeyLength { len } => String::from_str("Storage error: Invalid account key length: ")
                .concat(crate::text::decimal_string(*len as u128).as_str()),
            AccountError::DeviceNotFound { device_id } => String::from_str("Cryptography error: Target device ")
                .concat(device_id.as_str()).concat(" not found in authorized devices"),
            AccountError::InvalidEncryptedKeyFormat => String::from_str("Cryptography error: Invalid encrypted key format"),
            AccountError::DecryptedKeyTooShort => String::from_str("Cryptography error: Decrypted account key too short"),
            AccountError::QrExpired => String::from_str("Network error: QR code has expired"),
            AccountError::InvalidDeviceId => String::from_str("Device linking error: Device ID cannot be cut after its first eight bytes"),
            AccountError::InvalidDeviceKeyLength => String::from_str("Storage error: Invalid device key length"),
            AccountError::Crypto(c) => c.message(),
        }
    }
}

/// A device of the account. Times are Unix seconds.
pub struct DeviceInfo {
    pub device_id: String,
    pub device_name: String,
    pub last_seen: i64,
    pub is_online: bool,
    /// The device's certificate, when known.
    pub device_cert: Option<DeviceCert>,
    /// Whether the device is authorized for the account.
    pub is_authorized: bool,
}

/// The mathematical form of a [`DeviceInfo`].
pub struct DeviceInfoView {
    pub device_id: Seq<char>,
    pub device_name: Seq<char>,
    pub last_seen: i64,
    pub is_online: bool,
    pub device_cert: Option<DeviceCertView>,
    pub is_authorized: bool,
}

/// The view of an optional certificate.
pub open spec fn cert_opt_view(c: Option<DeviceCert>) -> Option<DeviceCertView> {
    match c {
        Some(c) => Some(c@),
        None => None,
    }
}

impl View for DeviceInfo {
    type V = DeviceInfoView;

    open spec fn view(&self) -> DeviceInfoView {
        DeviceInfoView {
            device_id: self.device_id@,
            device_name: self.device_name@,
            last_seen: self.last_seen,
            is_online: self.is_online,
            device_cert: cert_opt_view(self.device_cert),
            is_authorized: self.is_authorized,
        }
    }
}

/// What a device shows to be linked to the account. Times are Unix seconds.
pub struct QrPayload {
    /// The id of the device that shows it.
    pub device_id: String,
    /// Its last known addresses.
    pub addresses: Vec<String>,
    /// A short-lived token.
    pub onboarding_token: String,
    /// When the payload expires.
    pub expires_at: i64,
    /// The device's certificate.
    pub device_cert: Option<DeviceCert>,
}

/// The mathematical form of a [`QrPayload`].
pub struct QrPayloadView {
    pub device_id: Seq<char>,
    pub addresses: Seq<Seq<char>>,
    pub onboarding_token: Seq<char>,
    pub expires_at: i64,
    pub device_cert: Option<DeviceCertView>,
}

impl View for QrPayload {
    type V = QrPayloadView;

    open spec fn view(&self) -> QrPayloadView {
        QrPayloadView {
            device_id: self.device_id@,
            addresses: texts_view(self.addresses@),
            onboarding_token: self.onboarding_token@,
            expires_at: self.expires_at,
            device_cert: cert_opt_view(self.device_cert),
        }
    }
}

/// The account records of a device: the stored account key, a copy kept
/// when it was shared, what is recorded of the key, the device's own
/// certificate, and the authorized devices with their certificates, in the
/// order they were last stored.
pub struct AccountKeys {
    vault_key: Option<Vec<u8>>,
    account_key: Option<Vec<u8>>,
    shared_account_key: Option<Vec<u8>>,
    key_info: Option<AccountKeyInfo>,
    device_cert: Option<DeviceCert>,
    authorized: Vec<(String, DeviceCert)>,
}

/// The mathematical form of [`AccountKeys`].
pub struct AccountKeysView {
    pub vault_key: Option<Seq<u8>>,
    pub account_key: Option<Seq<u8>>,
    pub shared_account_key: Option<Seq<u8>>,
    pub key_info: Option<AccountKeyInfo>,
    pub device_cert: Option<DeviceCertView>,
    pub authorized: Seq<(Seq<char>, DeviceCertView)>,
}

/// The view of optional bytes.
pub open spec fn bytes_opt_view(b: Option<Vec<u8>>) -> Option<Seq<u8>> {
    match b {
        Some(b) => Some(b@),
        None => None,
    }
}

/// The view of a table of devices.
pub open spec fn devices_view(v: Seq<(String, DeviceCert)>) -> Seq<(Seq<char>, DeviceCertView)> {
    Seq::new(v.len(), |i: int| (v[i].0@, v[i].1@))
}

impl View for AccountKeys {
    type V = AccountKeysView;

    closed spec fn view(&self) -> AccountKeysView {
        AccountKeysView {
            vault_key: bytes_opt_view(self.vault_key),
            account_key: bytes_opt_view(self.account_key),
            shared_account_key: bytes_opt_view(self.shared_account_key),
            key_info: self.key_info,
            device_cert: cert_opt_view(self.device_cert),
            authorized: devices_view(self.authorized@),
        }
    }
}

/// The table after storing a device: any earlier entry of the id goes, and
/// the device comes last.
pub open spec fn stored_device(t: Seq<(Seq<char>, DeviceCertView)>, id: Seq<char>, c: DeviceCertView) -> Seq<(Seq<char>, DeviceCertView)> {
    assoc_remove_all(t, id).push((id, c))
}

/// A change to the table of authorized devices: storing a device's
/// certificate (`store_authorized_device`), or revoking a device
/// (`revoke_device_authorization`).
pub enum DeviceChange {
    Store(Seq<char>, DeviceCertView),
    Revoke(Seq<char>),
}

/// The table after changes, one after another.
pub open spec fn after_changes(t: Seq<(Seq<char>, DeviceCertView)>, cs: Seq<DeviceChange>) -> Seq<(Seq<char>, DeviceCertView)>
    decreases cs.len(),
{
    if cs.len() == 0 {
        t
    } else {
        let prev = after_changes(t, cs.drop_last());
        match cs.last() {
            DeviceChange::Store(id, c) => stored_device(prev, id, c),
            DeviceChange::Revoke(id) => assoc_remove_all(prev, id),
        }
    }
}

/// The certificate that changes leave for a device: that of the last change
/// naming it, none if that change revoked it, and the table's own when no
/// change names it.
pub open spec fn expected_cert(t: Seq<(Seq<char>, DeviceCertView)>, cs: Seq<DeviceChange>, id: Seq<char>) -> Option<DeviceCertView>
    decreases cs.len(),
{
    if cs.len() == 0 {
        assoc_get(t, id)
    } else {
        match cs.last() {
            DeviceChange::Store(i, c) => if i == id { Some(c) } else { expected_cert(t, cs.drop_last(), id) },
            DeviceChange::Revoke(i) => if i == id { None } else { expected_cert(t, cs.drop_last(), id) },
        }
    }
}

/// Whatever devices are stored and revoked, in whatever order, the table
/// gives each device the certificate it was last stored with, and none once
/// it was revoked after that.
pub proof fn lemma_device_changes(t: Seq<(Seq<char>, DeviceCertView)>, cs: Seq<DeviceChange>, id: Seq<char>)
    ensures
        assoc_get(after_changes(t, cs), id) == expected_cert(t, cs, id),
    decreases cs.len(),
{
    if cs.len() > 0 {
        lemma_device_changes(t, cs.drop_last(), id);
        let prev = after_changes(t, cs.drop_last());
        match cs.last() {
            DeviceChange::Store(i, c) => {
                crate::assoc::lemma_assoc_remove_all(prev, i, id);
                crate::assoc::lemma_assoc_remove_all(prev, i, i);
                crate::assoc::lemma_assoc_push_any(assoc_remove_all(prev, i), (i, c), id);
            },
            DeviceChange::Revoke(i) => {
                crate::assoc::lemma_assoc_remove_all(prev, i, id);
            },
        }
    }
}

/// Whether the records hold the account's private key.
pub open spec fn holds_private_key(v: AccountKeysView) -> bool {
    v.key_info matches Some(i) && i.has_private_key
}

/// A copy of optional bytes.
fn copy_bytes_opt(b: &Option<Vec<u8>>) -> (r: Option<Vec<u8>>)
    ensures
        bytes_opt_view(r) == bytes_opt_view(*b),
{
    match b {
        Some(v) => Some(copy_bytes(v)),
        None => None,
    }
}

/// A copy of an optional certificate.
fn copy_cert_opt(c: &Option<DeviceCert>) -> (r: Option<DeviceCert>)
    ensures
        cert_opt_view(r) == cert_opt_view(*c),
{
    match c {
        Some(c) => Some(copy_cert(c)),
        None => None,
    }
}

/// A copy of a list of texts.
fn copy_texts(v: &Vec<String>) -> (r: Vec<String>)
    ensures
        texts_view(r@) == texts_view(v@),
{
    let mut r: Vec<String> = Vec::new();
    let mut i: usize = 0;
    while i < v.len()
        invariant
            i <= v@.len(),
            r@.len() == i,
            forall|j: int| 0 <= j < i ==> #[trigger] r@[j]@ == v@[j]@,
        decreases v@.len() - i,
    {
        r.push(copy_string(&v[i]));
        i = i + 1;
    }
    assert(texts_view(r@) =~= texts_view(v@));
    r
}

/// The table without the entries of an id.
fn without_device(t: &Vec<(String, DeviceCert)>, id: &str) -> (r: Vec<(String, DeviceCert)>)
    ensures
        devices_view(r@) == assoc_remove_all(devices_view(t@), id@),
{
    let ghost tv = devices_view(t@);
    let mut r: Vec<(String, DeviceCert)> = Vec::new();
    let mut i: usize = 0;
    while i < t.len()
        invariant
            i <= t@.len(),
            tv == devices_view(t@),
            devices_view(r@) == assoc_remove_all(tv.take(i as int), id@),
        decreases t@.len() - i,
    {
        proof {
            assert(tv.take(i + 1).drop_last() =~= tv.take(i as int));
            assert(tv.take(i + 1).last() == tv[i as int]);
        }
        if !str_eq(t[i].0.as_str(), id) {
            let ghost before = devices_view(r@);
            r.push((copy_string(&t[i].0), copy_cert(&t[i].1)));
            proof { assert(devices_view(r@) =~= before.push(tv[i as int])); }
        }
        i = i + 1;
    }
    proof { assert(tv.take(t@.len() as int) =~= tv); }
    r
}

/// The id under which a device of a certificate is authorized: "device_"
/// and the hex of the first four bytes of its key.
pub open spec fn certificate_id(c: DeviceCertView) -> Seq<char> {
    "device_"@ + hex_lower(c.device_pubkey@.take(4))
}

/// How authorizing a device with a certificate ends: refused when this
/// device lacks the account's private key, when the recorded account key
/// is not a public key, or when the certificate does not verify under it.
pub open spec fn authorization_outcome(v: AccountKeysView, c: DeviceCertView) -> Result<(), AccountError> {
    if !holds_private_key(v) {
        Err(AccountError::NoAccountPrivateKey)
    } else if !ed25519_key_ok(v.key_info->0.public_key@) {
        Err(AccountError::Crypto(CryptoError::InvalidPublicKey))
    } else if c.signature.len() != 64 {
        Err(AccountError::Crypto(CryptoError::InvalidSignatureLength))
    } else if !cert_valid(v.key_info->0.public_key, c) {
        Err(AccountError::Crypto(CryptoError::SignatureVerificationFailed))
    } else {
        Ok(())
    }
}

/// The bytes of "saved-ecies-v1".
pub open spec fn ecies_label() -> Seq<u8> {
    seq![115u8, 97u8, 118u8, 101u8, 100u8, 45u8, 101u8, 99u8, 105u8, 101u8, 115u8, 45u8, 118u8, 49u8]
}

/// The key shared between an ephemeral key and a device key: the BLAKE3
/// hash of the label and both public keys.
pub open spec fn ecies_secret(ephemeral: [u8; 32], device: [u8; 32]) -> [u8; 32] {
    blake3_digest(ecies_label() + ephemeral@ + device@)
}

/// An account key encrypted for a device: the ephemeral public key, the
/// nonce, and the key sealed under the shared key.
pub open spec fn ecies_envelope(key: Seq<u8>, device: [u8; 32], ephemeral: [u8; 32], nonce: [u8; 24]) -> Seq<u8> {
    ephemeral@ + nonce@ + xchacha_seal(ecies_secret(ephemeral, device)@, nonce@, key)
}

/// What an encrypted account key opens to for a device: the rest after the
/// ephemeral key and the nonce, opened under the shared key.
pub open spec fn ecies_opened(enc: Seq<u8>, device: [u8; 32]) -> Option<Seq<u8>> {
    xchacha_open(ecies_secret(arr32(enc.take(32)), device)@, enc.subrange(32, 56), enc.skip(56))
}

/// How reading the account's public key out of an encrypted account key
/// ends: the first 32 bytes of what it opens to.
pub open spec fn extracted_public_key(enc: Seq<u8>, device: [u8; 32]) -> Result<Seq<u8>, AccountError> {
    if enc.len() < 64 {
        Err(AccountError::InvalidEncryptedKeyFormat)
    } else {
        match ecies_opened(enc, device) {
            None => Err(AccountError::Crypto(CryptoError::DecryptionFailed)),
            Some(p) => if p.len() < 32 { Err(AccountError::DecryptedKeyTooShort) } else { Ok(p.take(32)) },
        }
    }
}

/// The key shared between an ephemeral key and a device key.
fn ecies_shared_secret(ephemeral: &[u8; 32], device: &[u8; 32]) -> (r: [u8; 32])
    ensures
        r == ecies_secret(*ephemeral, *device),
{
    let label: [u8; 14] = [115, 97, 118, 101, 100, 45, 101, 99, 105, 101, 115, 45, 118, 49];
    let l = vstd::slice::slice_to_vec(label.as_slice());
    let e = vstd::slice::slice_to_vec(ephemeral.as_slice());
    let d = vstd::slice::slice_to_vec(device.as_slice());
    let input = crate::envelope::concat_bytes(&crate::envelope::concat_bytes(&l, &e), &d);
    proof { assert(label@ =~= ecies_label()); }
    blake3_hash(input.as_slice())
}

/// Encrypts an account key for a device, with a given ephemeral public key
/// and nonce.
pub fn encrypt_for_device_with(
    account_key: &[u8],
    device_public_key: &[u8; 32],
    ephemeral_public_key: &[u8; 32],
    nonce: &[u8; 24],
) -> (r: Result<Vec<u8>, AccountError>)
    ensures
        account_key@.len() / 64 < xchacha_max_blocks()
            ==> (r matches Ok(v) && v@ == ecies_envelope(account_key@, *device_public_key, *ephemeral_public_key, *nonce)
                && v@.len() == account_key@.len() + 72),
        account_key@.len() / 64 >= xchacha_max_blocks()
            ==> r == Err::<Vec<u8>, AccountError>(AccountError::Crypto(CryptoError::EncryptionFailed)),
{
    let secret = ecies_shared_secret(ephemeral_public_key, device_public_key);
    let sealed = match crate::crypto::encrypt(&secret, nonce, account_key) {
        Ok(c) => c,
        Err(e) => { return Err(AccountError::Crypto(e)); },
    };
    let e = vstd::slice::slice_to_vec(ephemeral_public_key.as_slice());
    let n = vstd::slice::slice_to_vec(nonce.as_slice());
    Ok(crate::envelope::concat_bytes(&crate::envelope::concat_bytes(&e, &n), &sealed))
}

/// Encrypts an account key for a device, with a fresh ephemeral key and a
/// random nonce.
pub fn encrypt_for_device(account_key: &[u8], device_public_key: &[u8; 32]) -> (r: Result<Vec<u8>, AccountError>)
    ensures
        account_key@.len() / 64 < xchacha_max_blocks() ==> (r matches Ok(v) && exists|s: [u8; 32], n: [u8; 24]|
            v@ == #[trigger] ecies_envelope(account_key@, *device_public_key, ed25519_public(s@), n)),
        account_key@.len() / 64 >= xchacha_max_blocks()
            ==> r == Err::<Vec<u8>, AccountError>(AccountError::Crypto(CryptoError::EncryptionFailed)),
{
    let ephemeral = DeviceKey::generate();
    let nonce = crate::crypto::generate_nonce();
    let e = ephemeral.public_key_bytes();
    let r = encrypt_for_device_with(account_key, device_public_key, &e, &nonce);
    proof {
        if account_key@.len() / 64 < xchacha_max_blocks() {
            let s = ephemeral.secret_key();
            assert(r->Ok_0@ == ecies_envelope(account_key@, *device_public_key, ed25519_public(s@), nonce));
        }
    }
    r
}

/// Reads the account's public key out of an account key encrypted for
/// this device: the first 32 bytes of what it opens to. What
/// [`encrypt_for_device_with`] made of a key of 32 bytes or more for this
/// device (72 bytes longer than the key) gives back the key's first 32
/// bytes.
pub fn public_key_from_encrypted_key(encrypted_key: &[u8], device_public_key: &[u8; 32]) -> (r: Result<[u8; 32], AccountError>)
    ensures
        match extracted_public_key(encrypted_key@, *device_public_key) {
            Ok(p) => r matches Ok(a) && a@ == p,
            Err(e) => r == Err::<[u8; 32], AccountError>(e),
        },
        forall|k: Seq<u8>, e: [u8; 32], n: [u8; 24]|
            encrypted_key@ == #[trigger] ecies_envelope(k, *device_public_key, e, n) && encrypted_key@.len() == k.len() + 72
                && k.len() >= 32 && k.len() / 64 < xchacha_max_blocks() ==> (r matches Ok(a) && a@ == k.take(32)),
{
    if encrypted_key.len() < 64 {
        return Err(AccountError::InvalidEncryptedKeyFormat);
    }
    let eph = crate::ids::bytes32_from_slice(slice_subrange(encrypted_key, 0, 32));
    let nonce = bytes_to_arr24(slice_subrange(encrypted_key, 32, 56));
    let body = slice_subrange(encrypted_key, 56, encrypted_key.len());
    proof {
        crate::events::lemma_arr32(eph);
        assert(encrypted_key@.take(32) =~= eph@);
        assert(encrypted_key@.skip(56) =~= body@);
    }
    let secret = ecies_shared_secret(&eph, device_public_key);
    let plain = match crate::crypto::decrypt(&secret, &nonce, body) {
        Ok(p) => p,
        Err(e) => {
            proof {
                assert forall|k: Seq<u8>, e: [u8; 32], n: [u8; 24]|
                    encrypted_key@ == #[trigger] ecies_envelope(k, *device_public_key, e, n) && k.len() >= 32
                        && k.len() / 64 < xchacha_max_blocks() implies false by {
                    lemma_envelope_parts(k, *device_public_key, e, n);
                    assert(eph@ == e@);
                    assert(eph =~= e);
                    assert(nonce@ =~= n@);
                }
            }
            return Err(AccountError::Crypto(e));
        },
    };
    if plain.len() < 32 {
        proof {
            assert forall|k: Seq<u8>, e: [u8; 32], n: [u8; 24]|
                encrypted_key@ == #[trigger] ecies_envelope(k, *device_public_key, e, n) && k.len() >= 32
                    && k.len() / 64 < xchacha_max_blocks() implies false by {
                lemma_envelope_parts(k, *device_public_key, e, n);
                assert(eph@ == e@);
                assert(eph =~= e);
                assert(nonce@ =~= n@);
            }
        }
        return Err(AccountError::DecryptedKeyTooShort);
    }
    let a = crate::ids::bytes32_from_slice(slice_subrange(plain.as_slice(), 0, 32));
    proof {
        assert(a@ =~= plain@.take(32));
        assert forall|k: Seq<u8>, e: [u8; 32], n: [u8; 24]|
            encrypted_key@ == #[trigger] ecies_envelope(k, *device_public_key, e, n) && k.len() >= 32
                && k.len() / 64 < xchacha_max_blocks() implies a@ == k.take(32) by {
            lemma_envelope_parts(k, *device_public_key, e, n);
            assert(eph@ == e@);
            assert(eph =~= e);
            assert(nonce@ =~= n@);
        }
    }
    Ok(a)
}

/// The parts of an encrypted account key.
proof fn lemma_envelope_parts(k: Seq<u8>, device: [u8; 32], e: [u8; 32], n: [u8; 24])
    ensures
        ecies_envelope(k, device, e, n).take(32) == e@,
        ecies_envelope(k, device, e, n).subrange(32, 56) == n@,
        ecies_envelope(k, device, e, n).skip(56) == xchacha_seal(ecies_secret(e, device)@, n@, k),
{
    let v = ecies_envelope(k, device, e, n);
    assert(v.take(32) =~= e@);
    assert(v.subrange(32, 56) =~= n@);
    assert(v.skip(56) =~= xchacha_seal(ecies_secret(e, device)@, n@, k));
}

/// How long a certificate made for a linking payload lasts: 365 days, in
/// seconds.
pub const CERT_LIFETIME_S: i64 = 31_536_000;

/// The earliest time the clock can tell, in Unix seconds.
pub const EARLIEST_TIME_S: i64 = -8_334_601_315_200;

/// The latest time the clock can tell, in Unix seconds.
pub const LATEST_TIME_S: i64 = 8_210_266_876_799;

/// How long a linking payload lasts: ten minutes, in seconds.
pub const QR_LIFETIME_S: i64 = 600;

/// The secret account key the records give: the first 32 bytes of the
/// stored account key.
pub open spec fn account_secret(v: AccountKeysView) -> Result<Seq<u8>, AccountError> {
    match v.account_key {
        None => Err(AccountError::AccountKeyNotFound),
        Some(b) => if b.len() >= 32 { Ok(b.take(32)) } else { Err(AccountError::InvalidAccountKeyLength { len: b.len() as usize }) },
    }
}

/// The id a device gives itself in a linking payload: "device-" and the
/// hex of the first eight bytes of its public key.
pub open spec fn linking_device_id(public: [u8; 32]) -> Seq<char> {
    "device-"@ + hex_lower(public@.take(8))
}

/// The certificate of a device key signed by an account secret key, issued
/// at `now` and lasting a year.
pub open spec fn linking_cert(secret: Seq<u8>, public: [u8; 32], now: i64) -> DeviceCertView {
    DeviceCertView {
        device_pubkey: public,
        issued_at: now,
        expires_at: Some((now + CERT_LIFETIME_S) as i64),
        signature: ed25519_signature(secret, cert_data(public, now, Some((now + CERT_LIFETIME_S) as i64)))@,
    }
}

/// How accepting a linking payload at `now` ends: refused when it has
/// expired or when the recorded account key is not a public key; else
/// whether its certificate verifies under the recorded account key.
pub open spec fn link_outcome(v: AccountKeysView, p: QrPayloadView, now: i64) -> Result<bool, AccountError> {
    if p.expires_at < now {
        Err(AccountError::QrExpired)
    } else {
        match p.device_cert {
            None => Ok(false),
            Some(c) => match v.key_info {
                None => Ok(false),
                Some(i) => if !ed25519_key_ok(i.public_key@) {
                    Err(AccountError::Crypto(CryptoError::InvalidPublicKey))
                } else {
                    Ok(cert_valid(i.public_key, c))
                },
            },
        }
    }
}

/// The device a linking payload describes, seen at `now`.
pub open spec fn linked_device(p: QrPayloadView, now: i64, authorized: bool) -> DeviceInfoView {
    DeviceInfoView {
        device_id: p.device_id,
        device_name: "Device "@ + id_head(p.device_id),
        last_seen: now,
        is_online: true,
        device_cert: p.device_cert,
        is_authorized: authorized,
    }
}

/// An authorized device as listed: last seen when its certificate was
/// issued, not known to be online.
pub open spec fn listed_device(e: (Seq<char>, DeviceCertView)) -> DeviceInfoView {
    DeviceInfoView {
        device_id: e.0,
        device_name: "Device "@ + id_head(e.0),
        last_seen: e.1.issued_at,
        is_online: false,
        device_cert: Some(e.1),
        is_authorized: true,
    }
}

/// The table after revoking, one entry of `entries` after another, each
/// device whose certificate does not verify under an account public key.
pub open spec fn revoked_invalid(t: Seq<(Seq<char>, DeviceCertView)>, entries: Seq<(Seq<char>, DeviceCertView)>, account_public: [u8; 32]) -> Seq<(Seq<char>, DeviceCertView)>
    decreases entries.len(),
{
    if entries.len() == 0 {
        t
    } else {
        let before = revoked_invalid(t, entries.drop_last(), account_public);
        if cert_valid(account_public, entries.last().1) {
            before
        } else {
            assoc_remove_all(before, entries.last().0)
        }
    }
}

/// The stored form of a device key: its secret, then its public key.
pub open spec fn stored_device_key(secret: [u8; 32], public: [u8; 32]) -> Seq<u8> {
    secret@ + public@
}

/// The secret and public key read from a stored device key: 32 bytes are a
/// secret whose public key is derived; 64 are a secret and a public key,
/// which must be a valid one.
pub open spec fn read_device_key(b: Seq<u8>) -> Result<([u8; 32], [u8; 32]), AccountError> {
    if b.len() == 32 {
        Ok((arr32(b), ed25519_public(b)))
    } else if b.len() == 64 {
        if ed25519_key_ok(b.subrange(32, 64)) {
            Ok((arr32(b.take(32)), arr32(b.subrange(32, 64))))
        } else {
            Err(AccountError::Crypto(CryptoError::InvalidPublicKey))
        }
    } else {
        Err(AccountError::InvalidDeviceKeyLength)
    }
}

/// A device key reads back from its stored form, when its public key is a
/// valid one.
pub proof fn lemma_device_key_roundtrip(secret: [u8; 32], public: [u8; 32])
    requires
        ed25519_key_ok(public@),
    ensures
        read_device_key(stored_device_key(secret, public)) == Ok::<([u8; 32], [u8; 32]), AccountError>((secret, public)),
{
    let b = stored_device_key(secret, public);
    assert(b.take(32) =~= secret@);
    assert(b.subrange(32, 64) =~= public@);
    crate::events::lemma_arr32(secret);
    crate::events::lemma_arr32(public);
}

/// The stored form of a device key.
pub fn device_key_bytes(key: &DeviceKey) -> (r: Vec<u8>)
    ensures
        r@ == stored_device_key(key.secret_key(), key.public_key()),
{
    let s = vstd::slice::slice_to_vec(key.private_key_bytes().as_slice());
    let p = vstd::slice::slice_to_vec(key.public_key_bytes().as_slice());
    crate::envelope::concat_bytes(&s, &p)
}

/// Reads a device key from its stored form.
pub fn device_key_from_bytes(bytes: &[u8]) -> (r: Result<DeviceKey, AccountError>)
    ensures
        match read_device_key(bytes@) {
            Ok((s, p)) => r matches Ok(k) && k.secret_key() == s && k.public_key() == p,
            Err(e) => r == Err::<DeviceKey, AccountError>(e),
        },
{
    if bytes.len() == 32 {
        let s = crate::ids::bytes32_from_slice(bytes);
        proof { crate::events::lemma_arr32(s); }
        match DeviceKey::from_bytes(&s) {
            Ok(k) => Ok(k),
            Err(e) => Err(AccountError::Crypto(e)),
        }
    } else if bytes.len() == 64 {
        let s = crate::ids::bytes32_from_slice(slice_subrange(bytes, 0, 32));
        let p = crate::ids::bytes32_from_slice(slice_subrange(bytes, 32, 64));
        proof {
            crate::events::lemma_arr32(s);
            crate::events::lemma_arr32(p);
            assert(s@ =~= bytes@.take(32));
        }
        if !ed25519_check_public(&p) {
            return Err(AccountError::Crypto(CryptoError::InvalidPublicKey));
        }
        Ok(DeviceKey::from_keys(s, p))
    } else {
        Err(AccountError::InvalidDeviceKeyLength)
    }
}

/// The id under which a certificate's device is authorized.
pub fn certificate_device_id(cert: &DeviceCert) -> (r: String)
    ensures
        r@ == certificate_id(cert@),
{
    let head = slice_subrange(cert.device_pubkey.as_slice(), 0, 4);
    let h = hex_encode(head);
    String::from_str("device_").concat(h.as_str())
}

/// A fresh onboarding token: the hex of 32 random bytes.
pub fn generate_onboarding_token() -> (r: String)
    ensures
        exists|b: [u8; 32]| r@ == #[trigger] hex_lower(b@),
{
    let b = crate::ids::random_bytes32();
    hex_encode(b.as_slice())
}

/// The text of a device id's first eight bytes, after "Device ".
fn device_name_of(device_id: &str) -> (r: String)
    requires
        id_head_ok(device_id@),
    ensures
        r@ == "Device "@ + id_head(device_id@),
{
    let head = head_of(device_id);
    String::from_str("Device ").concat(head.as_str())
}

/// The bytes of the passphrase that protects a held account key:
/// "default_passphrase" when none is given.
pub open spec fn holder_passphrase(passphrase: Option<&str>) -> Seq<u8> {
    vstd::utf8::encode_utf8(match passphrase {
        Some(p) => p@,
        None => "default_passphrase"@,
    })
}

impl AccountKeys {
    /// Empty records.
    pub fn new() -> (r: Self)
        ensures
            r@.vault_key is None,
            r@.account_key is None,
            r@.shared_account_key is None,
            r@.key_info is None,
            r@.device_cert is None,
            r@.authorized.len() == 0,
    {
        AccountKeys { vault_key: None, account_key: None, shared_account_key: None, key_info: None, device_cert: None, authorized: Vec::new() }
    }

    /// Stores the vault key (as given: raw or protected), replacing any.
    pub fn store_vault_key(&mut self, key: &[u8])
        ensures
            final(self)@ == (AccountKeysView { vault_key: Some(key@), ..old(self)@ }),
    {
        self.vault_key = Some(vstd::slice::slice_to_vec(key));
    }

    /// The stored vault key.
    pub fn get_vault_key(&self) -> (r: Option<Vec<u8>>)
        ensures
            bytes_opt_view(r) == self@.vault_key,
    {
        copy_bytes_opt(&self.vault_key)
    }

    /// Stores the account key (as given: raw or protected), replacing any.
    pub fn store_account_key(&mut self, key: &[u8])
        ensures
            final(self)@ == (AccountKeysView { account_key: Some(key@), ..old(self)@ }),
    {
        self.account_key = Some(vstd::slice::slice_to_vec(key));
    }

    /// The stored account key.
    pub fn get_account_key(&self) -> (r: Option<Vec<u8>>)
        ensures
            bytes_opt_view(r) == self@.account_key,
    {
        copy_bytes_opt(&self.account_key)
    }

    /// Records what is known of the account key, replacing any record.
    pub fn store_account_key_info(&mut self, info: AccountKeyInfo)
        ensures
            final(self)@ == (AccountKeysView { key_info: Some(info), ..old(self)@ }),
    {
        self.key_info = Some(info);
    }

    /// What is recorded of the account key.
    pub fn get_account_key_info(&self) -> (r: Option<AccountKeyInfo>)
        ensures
            r == self@.key_info,
    {
        self.key_info
    }

    /// Keeps a copy of the account key as shared, replacing any.
    pub fn store_shared_account_key(&mut self, key: &[u8])
        ensures
            final(self)@ == (AccountKeysView { shared_account_key: Some(key@), ..old(self)@ }),
    {
        self.shared_account_key = Some(vstd::slice::slice_to_vec(key));
    }

    /// The copy of the account key kept as shared.
    pub fn get_shared_account_key(&self) -> (r: Option<Vec<u8>>)
        ensures
            bytes_opt_view(r) == self@.shared_account_key,
    {
        copy_bytes_opt(&self.shared_account_key)
    }

    /// Stores this device's own certificate, replacing any.
    pub fn store_device_certificate(&mut self, cert: &DeviceCert)
        ensures
            final(self)@ == (AccountKeysView { device_cert: Some(cert@), ..old(self)@ }),
    {
        self.device_cert = Some(copy_cert(cert));
    }

    /// This device's own certificate.
    pub fn get_device_certificate(&self) -> (r: Option<DeviceCert>)
        ensures
            cert_opt_view(r) == self@.device_cert,
    {
        copy_cert_opt(&self.device_cert)
    }

    /// Stores an authorized device with its certificate: an earlier entry
    /// of the same id is replaced, and the device comes last.
    pub fn store_authorized_device(&mut self, device_id: &str, cert: &DeviceCert)
        ensures
            final(self)@ == (AccountKeysView { authorized: stored_device(old(self)@.authorized, device_id@, cert@), ..old(self)@ }),
    {
        let mut t = without_device(&self.authorized, device_id);
        let ghost before = devices_view(t@);
        t.push((device_id.to_string(), copy_cert(cert)));
        proof { assert(devices_view(t@) =~= before.push((device_id@, cert@))); }
        self.authorized = t;
    }

    /// The authorized devices with their certificates.
    pub fn get_authorized_devices(&self) -> (r: Vec<(String, DeviceCert)>)
        ensures
            devices_view(r@) == self@.authorized,
    {
        let mut r: Vec<(String, DeviceCert)> = Vec::new();
        let mut i: usize = 0;
        while i < self.authorized.len()
            invariant
                i <= self.authorized@.len(),
                devices_view(r@) == devices_view(self.authorized@).take(i as int),
            decreases self.authorized@.len() - i,
        {
            let ghost before = devices_view(r@);
            let id = copy_string(&self.authorized[i].0);
            let c = copy_cert(&self.authorized[i].1);
            r.push((id, c));
            proof {
                assert(devices_view(r@) =~= before.push((id@, c@)));
                assert(devices_view(self.authorized@).take(i + 1) =~= devices_view(self.authorized@).take(i as int).push(devices_view(self.authorized@)[i as int]));
            }
            i = i + 1;
        }
        proof { assert(devices_view(self.authorized@).take(i as int) =~= devices_view(self.authorized@)); }
        r
    }

    /// Removes a device from the authorized devices.
    pub fn revoke_device_authorization(&mut self, device_id: &str)
        ensures
            final(self)@ == (AccountKeysView { authorized: assoc_remove_all(old(self)@.authorized, device_id@), ..old(self)@ }),
    {
        self.authorized = without_device(&self.authorized, device_id);
    }

    /// Whether a device is authorized.
    pub fn is_device_authorized(&self, device_id: &str) -> (r: bool)
        ensures
            r == assoc_has(self@.authorized, device_id@),
    {
        let ghost tv = devices_view(self.authorized@);
        let mut i: usize = 0;
        while i < self.authorized.len()
            invariant
                i <= self.authorized@.len(),
                tv == devices_view(self.authorized@),
                forall|j: int| 0 <= j < i ==> tv[j].0 != device_id@,
            decreases self.authorized@.len() - i,
        {
            if str_eq(self.authorized[i].0.as_str(), device_id) {
                proof { assert(tv[i as int].0 == device_id@); }
                return true;
            }
            i = i + 1;
        }
        false
    }

    /// Whether this device holds the account's private key.
    pub fn has_account_private_key(&self) -> (r: bool)
        ensures
            r == holds_private_key(self@),
    {
        match self.key_info {
            Some(i) => i.has_private_key,
            None => false,
        }
    }

    /// The position of the first entry of a device among the authorized
    /// devices.
    fn find_device(&self, device_id: &str) -> (r: Option<usize>)
        ensures
            r is None ==> assoc_get(self@.authorized, device_id@) is None,
            r matches Some(i) ==> i < self@.authorized.len() && self@.authorized[i as int].0 == device_id@
                && assoc_get(self@.authorized, device_id@) == Some(self@.authorized[i as int].1),
    {
        let ghost tv = devices_view(self.authorized@);
        let mut i: usize = 0;
        while i < self.authorized.len()
            invariant
                i <= self.authorized@.len(),
                tv == devices_view(self.authorized@),
                tv == self@.authorized,
                forall|j: int| 0 <= j < i ==> tv[j].0 != device_id@,
            decreases self.authorized@.len() - i,
        {
            if str_eq(self.authorized[i].0.as_str(), device_id) {
                proof { lemma_assoc_found(tv, i as int, device_id@); }
                return Some(i);
            }
            i = i + 1;
        }
        proof { lemma_assoc_absent(tv, device_id@); }
        None
    }

    /// Authorizes a device by its certificate, which must verify under the
    /// recorded account key; only a device holding the account's private
    /// key may do so. Gives the id under which the device is stored.
    pub fn authorize_device(&mut self, device_cert: DeviceCert) -> (r: Result<String, AccountError>)
        ensures
            match authorization_outcome(old(self)@, device_cert@) {
                Err(e) => r == Err::<String, AccountError>(e) && final(self)@ == old(self)@,
                Ok(_) => r matches Ok(id) && id@ == certificate_id(device_cert@)
                    && final(self)@ == (AccountKeysView { authorized: stored_device(old(self)@.authorized, id@, device_cert@), ..old(self)@ }),
            },
    {
        if !self.has_account_private_key() {
            return Err(AccountError::NoAccountPrivateKey);
        }
        let info = match self.key_info {
            Some(i) => i,
            None => { return Err(AccountError::NoAccountPrivateKey); },
        };
        let account_key = match AccountKey::from_public_bytes(&info.public_key) {
            Ok(k) => k,
            Err(e) => { return Err(AccountError::Crypto(e)); },
        };
        match device_cert.verify(&account_key) {
            Ok(()) => {},
            Err(e) => { return Err(AccountError::Crypto(e)); },
        }
        let id = certificate_device_id(&device_cert);
        self.store_authorized_device(id.as_str(), &device_cert);
        Ok(id)
    }

    /// Authorizes a device by its certificate with the account key this
    /// device holds; the same steps as [`AccountKeys::authorize_device`].
    pub fn authorize_device_with_account_key(&mut self, device_cert: DeviceCert) -> (r: Result<String, AccountError>)
        ensures
            match authorization_outcome(old(self)@, device_cert@) {
                Err(e) => r == Err::<String, AccountError>(e) && final(self)@ == old(self)@,
                Ok(_) => r matches Ok(id) && id@ == certificate_id(device_cert@)
                    && final(self)@ == (AccountKeysView { authorized: stored_device(old(self)@.authorized, id@, device_cert@), ..old(self)@ }),
            },
    {
        self.authorize_device(device_cert)
    }

    /// The account key as a key pair: the first 32 bytes of the stored
    /// account key taken as its secret.
    pub fn decrypted_account_key(&self) -> (r: Result<AccountKey, AccountError>)
        ensures
            match account_secret(self@) {
                Ok(sk) => r matches Ok(k) && k.secret_key()@ == sk && k.matched(),
                Err(e) => r == Err::<AccountKey, AccountError>(e),
            },
    {
        match &self.account_key {
            None => Err(AccountError::AccountKeyNotFound),
            Some(b) => {
                if b.len() < 32 {
                    return Err(AccountError::InvalidAccountKeyLength { len: b.len() });
                }
                let secret = crate::ids::bytes32_from_slice(slice_subrange(b.as_slice(), 0, 32));
                match AccountKey::from_bytes(&secret) {
                    Ok(k) => Ok(k),
                    Err(e) => Err(AccountError::Crypto(e)),
                }
            },
        }
    }

    /// Shares the stored account key with an authorized device, with a
    /// given ephemeral public key and nonce: keeps a copy of it as shared,
    /// then encrypts it for the device's certified key.
    pub fn share_account_key_with(
        &mut self,
        target_device_id: &str,
        ephemeral_public_key: &[u8; 32],
        nonce: &[u8; 24],
    ) -> (r: Result<Vec<u8>, AccountError>)
        ensures
            !holds_private_key(old(self)@) ==> r == Err::<Vec<u8>, AccountError>(AccountError::NoAccountPrivateKey)
                && final(self)@ == old(self)@,
            holds_private_key(old(self)@) && old(self)@.account_key is None
                ==> r == Err::<Vec<u8>, AccountError>(AccountError::AccountKeyNotFound) && final(self)@ == old(self)@,
            holds_private_key(old(self)@) && old(self)@.account_key is Some ==> {
                let k = old(self)@.account_key->0;
                &&& final(self)@ == (AccountKeysView { shared_account_key: Some(k), ..old(self)@ })
                &&& match assoc_get(old(self)@.authorized, target_device_id@) {
                    None => r matches Err(AccountError::DeviceNotFound { device_id }) && device_id@ == target_device_id@,
                    Some(c) => {
                        &&& k.len() / 64 < xchacha_max_blocks()
                            ==> (r matches Ok(v) && v@ == ecies_envelope(k, c.device_pubkey, *ephemeral_public_key, *nonce))
                        &&& k.len() / 64 >= xchacha_max_blocks()
                            ==> r == Err::<Vec<u8>, AccountError>(AccountError::Crypto(CryptoError::EncryptionFailed))
                    },
                }
            },
    {
        if !self.has_account_private_key() {
            return Err(AccountError::NoAccountPrivateKey);
        }
        let key = match &self.account_key {
            Some(k) => copy_bytes(k),
            None => { return Err(AccountError::AccountKeyNotFound); },
        };
        self.store_shared_account_key(key.as_slice());
        match self.find_device(target_device_id) {
            None => Err(AccountError::DeviceNotFound { device_id: target_device_id.to_string() }),
            Some(i) => {
                let device_public_key = self.authorized[i].1.device_pubkey;
                encrypt_for_device_with(key.as_slice(), &device_public_key, ephemeral_public_key, nonce)
            },
        }
    }

    /// Shares the stored account key with an authorized device, encrypted
    /// with a fresh ephemeral key and a random nonce.
    pub fn share_account_key(&mut self, target_device_id: &str) -> (r: Result<Vec<u8>, AccountError>)
        ensures
            !holds_private_key(old(self)@) ==> r == Err::<Vec<u8>, AccountError>(AccountError::NoAccountPrivateKey)
                && final(self)@ == old(self)@,
            holds_private_key(old(self)@) && old(self)@.account_key is None
                ==> r == Err::<Vec<u8>, AccountError>(AccountError::AccountKeyNotFound) && final(self)@ == old(self)@,
            holds_private_key(old(self)@) && old(self)@.account_key is Some ==> {
                let k = old(self)@.account_key->0;
                &&& final(self)@ == (AccountKeysView { shared_account_key: Some(k), ..old(self)@ })
                &&& match assoc_get(old(self)@.authorized, target_device_id@) {
                    None => r matches Err(AccountError::DeviceNotFound { device_id }) && device_id@ == target_device_id@,
                    Some(c) => {
                        &&& k.len() / 64 < xchacha_max_blocks() ==> (r matches Ok(v) && exists|e: [u8; 32], n: [u8; 24]|
                            v@ == #[trigger] ecies_envelope(k, c.device_pubkey, e, n))
                        &&& k.len() / 64 >= xchacha_max_blocks()
                            ==> r == Err::<Vec<u8>, AccountError>(AccountError::Crypto(CryptoError::EncryptionFailed))
                    },
                }
            },
    {
        let ephemeral = DeviceKey::generate();
        let nonce = crate::crypto::generate_nonce();
        let e = ephemeral.public_key_bytes();
        let r = self.share_account_key_with(target_device_id, &e, &nonce);
        proof {
            if r is Ok {
                assert(r->Ok_0@ == ecies_envelope(old(self)@.account_key->0, assoc_get(old(self)@.authorized, target_device_id@)->0.device_pubkey, e, nonce));
            }
        }
        r
    }

    /// Accepts an account key shared with this device at `now` (Unix
    /// seconds): stores it, and records that this device holds the private
    /// key; with no record yet, the record is made from the public key read
    /// out of the shared key, as version 1 without expiry.
    pub fn accept_shared_account_key_at(&mut self, encrypted_account_key: &[u8], device_public_key: &[u8; 32], now: i64) -> (r: Result<(), AccountError>)
        ensures
            final(self)@.account_key == Some(encrypted_account_key@),
            final(self)@.shared_account_key == old(self)@.shared_account_key,
            final(self)@.device_cert == old(self)@.device_cert,
            final(self)@.authorized == old(self)@.authorized,
            match old(self)@.key_info {
                Some(i) => r is Ok && final(self)@.key_info == Some(AccountKeyInfo { has_private_key: true, ..i }),
                None => match extracted_public_key(encrypted_account_key@, *device_public_key) {
                    Err(e) => r == Err::<(), AccountError>(e) && final(self)@.key_info is None,
                    Ok(p) => r is Ok && final(self)@.key_info == Some(AccountKeyInfo {
                        public_key: arr32(p), created_at: now, expires_at: None, version: 1, has_private_key: true,
                    }),
                },
            },
    {
        self.store_account_key(encrypted_account_key);
        match self.key_info {
            Some(i) => {
                self.store_account_key_info(AccountKeyInfo { has_private_key: true, ..i });
                Ok(())
            },
            None => {
                let public_key = match public_key_from_encrypted_key(encrypted_account_key, device_public_key) {
                    Ok(p) => p,
                    Err(e) => { return Err(e); },
                };
                proof { crate::events::lemma_arr32(public_key); }
                self.store_account_key_info(AccountKeyInfo {
                    public_key, created_at: now, expires_at: None, version: 1, has_private_key: true,
                });
                Ok(())
            },
        }
    }

    /// Accepts an account key shared with this device now; see
    /// [`AccountKeys::accept_shared_account_key_at`].
    pub fn accept_shared_account_key(&mut self, encrypted_account_key: &[u8], device_public_key: &[u8; 32]) -> (r: Result<(), AccountError>)
        ensures
            final(self)@.account_key == Some(encrypted_account_key@),
            final(self)@.shared_account_key == old(self)@.shared_account_key,
            final(self)@.device_cert == old(self)@.device_cert,
            final(self)@.authorized == old(self)@.authorized,
            match old(self)@.key_info {
                Some(i) => r is Ok && final(self)@.key_info == Some(AccountKeyInfo { has_private_key: true, ..i }),
                None => match extracted_public_key(encrypted_account_key@, *device_public_key) {
                    Err(e) => r == Err::<(), AccountError>(e) && final(self)@.key_info is None,
                    Ok(p) => r is Ok && (final(self)@.key_info matches Some(i) && i.public_key == arr32(p)
                        && i.expires_at is None && i.version == 1 && i.has_private_key),
                },
            },
    {
        let now = crate::clock::utc_now_ms() / 1000;
        self.accept_shared_account_key_at(encrypted_account_key, device_public_key, now)
    }

    /// Makes the payload that links this device, at `now` (Unix seconds):
    /// its id from its public key, its addresses, a token, an expiry ten
    /// minutes on, and its certificate signed by the account key, valid for
    /// a year.
    pub fn make_linking_qr_at(&self, device_key: &DeviceKey, addresses: &Vec<String>, onboarding_token: String, now: i64) -> (r: Result<QrPayload, AccountError>)
        requires
            now <= i64::MAX - CERT_LIFETIME_S,
        ensures
            match account_secret(self@) {
                Err(e) => r == Err::<QrPayload, AccountError>(e),
                Ok(sk) => r matches Ok(q) && q@ == (QrPayloadView {
                    device_id: linking_device_id(device_key.public_key()),
                    addresses: texts_view(addresses@),
                    onboarding_token: onboarding_token@,
                    expires_at: (now + QR_LIFETIME_S) as i64,
                    device_cert: Some(linking_cert(sk, device_key.public_key(), now)),
                }),
            },
    {
        let public = device_key.public_key_bytes();
        let h = hex_encode(slice_subrange(public.as_slice(), 0, 8));
        let device_id = String::from_str("device-").concat(h.as_str());
        let account_key = match self.decrypted_account_key() {
            Ok(k) => k,
            Err(e) => { return Err(e); },
        };
        let cert = match DeviceCert::new_at(public, &account_key, Some(now + CERT_LIFETIME_S), now) {
            Ok(c) => c,
            Err(e) => { return Err(AccountError::Crypto(e)); },
        };
        Ok(QrPayload {
            device_id,
            addresses: copy_texts(addresses),
            onboarding_token,
            expires_at: now + QR_LIFETIME_S,
            device_cert: Some(cert),
        })
    }

    /// Makes the payload that links this device now, with a fresh token;
    /// see [`AccountKeys::make_linking_qr_at`]. A clock reading too late
    /// for a year to be added counts as the latest time that allows it.
    pub fn make_linking_qr(&self, device_key: &DeviceKey, addresses: &Vec<String>) -> (r: Result<QrPayload, AccountError>)
        ensures
            match account_secret(self@) {
                Err(e) => r == Err::<QrPayload, AccountError>(e),
                Ok(sk) => r matches Ok(q) && exists|now: i64, b: [u8; 32]| now <= i64::MAX - CERT_LIFETIME_S && #[trigger] q@ == (QrPayloadView {
                    device_id: linking_device_id(device_key.public_key()),
                    addresses: texts_view(addresses@),
                    onboarding_token: hex_lower(b@),
                    expires_at: (now + QR_LIFETIME_S) as i64,
                    device_cert: Some(linking_cert(sk, device_key.public_key(), now)),
                }),
            },
    {
        let token = generate_onboarding_token();
        let read = crate::clock::utc_now_ms() / 1000;
        let now = if read > i64::MAX - CERT_LIFETIME_S { i64::MAX - CERT_LIFETIME_S } else { read };
        self.make_linking_qr_at(device_key, addresses, token, now)
    }

    /// Accepts a linking payload at `now` (Unix seconds): refused once
    /// expired; its device is authorized, and stored under the payload's
    /// id, when its certificate verifies under the recorded account key.
    pub fn accept_link_at(&mut self, payload: QrPayload, now: i64) -> (r: Result<DeviceInfo, AccountError>)
        ensures
            match link_outcome(old(self)@, payload@, now) {
                Err(e) => r == Err::<DeviceInfo, AccountError>(e) && final(self)@ == old(self)@,
                Ok(_) if !id_head_ok(payload.device_id@) =>
                    r == Err::<DeviceInfo, AccountError>(AccountError::InvalidDeviceId) && final(self)@ == old(self)@,
                Ok(authorized) => {
                    &&& r matches Ok(d) && d@ == linked_device(payload@, now, authorized)
                    &&& authorized ==> final(self)@ == (AccountKeysView {
                        authorized: stored_device(old(self)@.authorized, payload.device_id@, payload@.device_cert->0),
                        ..old(self)@
                    })
                    &&& !authorized ==> final(self)@ == old(self)@
                },
            },
    {
        if payload.expires_at < now {
            return Err(AccountError::QrExpired);
        }
        let mut is_authorized = false;
        match &payload.device_cert {
            Some(c) => {
                match self.key_info {
                    Some(i) => {
                        let account_key = match AccountKey::from_public_bytes(&i.public_key) {
                            Ok(k) => k,
                            Err(e) => { return Err(AccountError::Crypto(e)); },
                        };
                        is_authorized = c.verify(&account_key).is_ok();
                    },
                    None => {},
                }
            },
            None => {},
        }
        if !crate::peers::id_head_checked(payload.device_id.as_str()) {
            return Err(AccountError::InvalidDeviceId);
        }
        if is_authorized {
            match &payload.device_cert {
                Some(c) => { self.store_authorized_device(payload.device_id.as_str(), c); },
                None => {},
            }
        }
        let device_name = device_name_of(payload.device_id.as_str());
        Ok(DeviceInfo {
            device_id: payload.device_id,
            device_name,
            last_seen: now,
            is_online: true,
            device_cert: payload.device_cert,
            is_authorized,
        })
    }

    /// Accepts a linking payload now; see [`AccountKeys::accept_link_at`].
    pub fn accept_link(&mut self, payload: QrPayload) -> (r: Result<DeviceInfo, AccountError>)
        ensures
            exists|now: i64| EARLIEST_TIME_S <= now <= LATEST_TIME_S
                && match #[trigger] link_outcome(old(self)@, payload@, now) {
                    Err(e) => r == Err::<DeviceInfo, AccountError>(e) && final(self)@ == old(self)@,
                    Ok(_) if !id_head_ok(payload.device_id@) =>
                        r == Err::<DeviceInfo, AccountError>(AccountError::InvalidDeviceId) && final(self)@ == old(self)@,
                    Ok(authorized) => {
                        &&& r matches Ok(d) && d@ == linked_device(payload@, now, authorized)
                        &&& authorized ==> final(self)@ == (AccountKeysView {
                            authorized: stored_device(old(self)@.authorized, payload.device_id@, payload@.device_cert->0),
                            ..old(self)@
                        })
                        &&& !authorized ==> final(self)@ == old(self)@
                    },
                },
    {
        let now = crate::clock::utc_now_ms() / 1000;
        let ghost pv = payload@;
        let r = self.accept_link_at(payload, now);
        proof { assert(link_outcome(old(self)@, pv, now) == link_outcome(old(self)@, pv, now)); }
        r
    }

    /// The authorized devices as listed: each last seen when its
    /// certificate was issued.
    pub fn list_authorized_devices(&self) -> (r: Vec<DeviceInfo>)
        requires
            forall|i: int| 0 <= i < self@.authorized.len() ==> id_head_ok(#[trigger] self@.authorized[i].0),
        ensures
            r@.len() == self@.authorized.len(),
            forall|i: int| 0 <= i < r@.len() ==> #[trigger] r@[i]@ == listed_device(self@.authorized[i]),
    {
        let ghost tv = self@.authorized;
        let mut r: Vec<DeviceInfo> = Vec::new();
        let mut i: usize = 0;
        while i < self.authorized.len()
            invariant
                i <= self.authorized@.len(),
                tv == self@.authorized,
                tv == devices_view(self.authorized@),
                forall|j: int| 0 <= j < tv.len() ==> id_head_ok(#[trigger] tv[j].0),
                r@.len() == i,
                forall|j: int| 0 <= j < i ==> #[trigger] r@[j]@ == listed_device(tv[j]),
            decreases self.authorized@.len() - i,
        {
            let (id, c) = (&self.authorized[i].0, &self.authorized[i].1);
            proof { assert(tv[i as int].0 == id@); }
            let info = DeviceInfo {
                device_id: copy_string(id),
                device_name: device_name_of(id.as_str()),
                last_seen: c.issued_at,
                is_online: false,
                device_cert: Some(copy_cert(c)),
                is_authorized: true,
            };
            r.push(info);
            i = i + 1;
        }
        r
    }

    /// This device as it reports itself at `now` (Unix seconds).
    pub fn device_info_at(&self, now: i64) -> (r: DeviceInfo)
        ensures
            r@ == (DeviceInfoView {
                device_id: "local-device"@,
                device_name: "Local Device"@,
                last_seen: now,
                is_online: true,
                device_cert: self@.device_cert,
                is_authorized: true,
            }),
    {
        DeviceInfo {
            device_id: String::from_str("local-device"),
            device_name: String::from_str("Local Device"),
            last_seen: now,
            is_online: true,
            device_cert: copy_cert_opt(&self.device_cert),
            is_authorized: true,
        }
    }

    /// This device as it reports itself now.
    pub fn device_info(&self) -> (r: DeviceInfo)
        ensures
            r@.device_id == "local-device"@,
            r@.device_name == "Local Device"@,
            r@.is_online,
            r@.device_cert == self@.device_cert,
            r@.is_authorized,
    {
        self.device_info_at(crate::clock::utc_now_ms() / 1000)
    }

    /// Checks the certificate of every authorized device under the recorded
    /// account key, revoking each that does not verify. Nothing is checked
    /// without a record; a recorded key that is not a public key is refused
    /// at the first device.
    pub fn verify_authorized_devices(&mut self) -> (r: Result<(), AccountError>)
        ensures
            match old(self)@.key_info {
                None => r is Ok && final(self)@ == old(self)@,
                Some(i) => if old(self)@.authorized.len() > 0 && !ed25519_key_ok(i.public_key@) {
                    r == Err::<(), AccountError>(AccountError::Crypto(CryptoError::InvalidPublicKey)) && final(self)@ == old(self)@
                } else {
                    r is Ok && final(self)@ == (AccountKeysView {
                        authorized: revoked_invalid(old(self)@.authorized, old(self)@.authorized, i.public_key),
                        ..old(self)@
                    })
                },
            },
    {
        let entries = self.get_authorized_devices();
        let ghost ev = devices_view(entries@);
        let ghost start = self@;
        let info = match self.key_info {
            Some(i) => i,
            None => { return Ok(()); },
        };
        let mut k: usize = 0;
        while k < entries.len()
            invariant
                k <= entries@.len(),
                ev == devices_view(entries@),
                ev == start.authorized,
                start == old(self)@,
                start.key_info == Some(info),
                k > 0 ==> ed25519_key_ok(info.public_key@),
                self@ == (AccountKeysView { authorized: revoked_invalid(start.authorized, ev.take(k as int), info.public_key), ..start }),
            decreases entries@.len() - k,
        {
            proof {
                assert(ev.take(k + 1).drop_last() =~= ev.take(k as int));
                assert(ev.take(k + 1).last() == ev[k as int]);
            }
            let account_key = match AccountKey::from_public_bytes(&info.public_key) {
                Ok(a) => a,
                Err(e) => {
                    proof {
                        assert(k == 0);
                        assert(ev.take(0) =~= Seq::<(Seq<char>, DeviceCertView)>::empty());
                        assert(revoked_invalid(start.authorized, ev.take(0), info.public_key) == start.authorized);
                        assert(self@ =~= start) by {
                            assert(self@.authorized == start.authorized);
                        }
                    }
                    return Err(AccountError::Crypto(e));
                },
            };
            if entries[k].1.verify(&account_key).is_err() {
                self.revoke_device_authorization(entries[k].0.as_str());
            }
            k = k + 1;
        }
        proof { assert(ev.take(entries@.len() as int) =~= ev); }
        Ok(())
    }

    /// Makes this device the holder of an account key: stores the key's
    /// secret protected with the passphrase ("default_passphrase" when none
    /// is given), and records the key as version 1, held, made now.
    pub fn store_account_key_holder(&mut self, account_key: &AccountKey, passphrase: Option<&str>) -> (r: Result<(), AccountError>)
        ensures
            holder_passphrase(passphrase).len() > 0xffff_ffff
                ==> r == Err::<(), AccountError>(AccountError::Crypto(CryptoError::PassphraseTooLong)) && final(self)@ == old(self)@,
            holder_passphrase(passphrase).len() <= 0xffff_ffff ==> {
                &&& r is Ok
                &&& final(self)@.account_key is Some
                &&& exists|t: Seq<char>, salt: [u8; 24], nonce: [u8; 24]| final(self)@.account_key->0 == vstd::utf8::encode_utf8(t)
                    && #[trigger] crate::crypto::protects(t, account_key.secret_key(), holder_passphrase(passphrase), salt, nonce)
                &&& final(self)@.key_info matches Some(i) && i.public_key == account_key.public_key()
                    && i.expires_at is None && i.version == 1 && i.has_private_key
                &&& final(self)@.shared_account_key == old(self)@.shared_account_key
                &&& final(self)@.device_cert == old(self)@.device_cert
                &&& final(self)@.authorized == old(self)@.authorized
            },
    {
        let pass: &str = match passphrase {
            Some(p) => p,
            None => "default_passphrase",
        };
        let text = match crate::crypto::protect_vault_key_with_passphrase(&account_key.private_key_bytes(), pass) {
            Ok(t) => t,
            Err(e) => { return Err(AccountError::Crypto(e)); },
        };
        let ghost pw = vstd::utf8::encode_utf8(pass@);
        proof { assert(pw == holder_passphrase(passphrase)); }
        self.store_account_key(text.as_str().as_bytes());
        self.store_account_key_info(account_key.to_info(1, true));
        proof {
            let (salt, nonce) = choose|salt: [u8; 24], nonce: [u8; 24]|
                crate::crypto::protects(text@, account_key.secret_key(), pw, salt, nonce)
                && #[trigger] xchacha_seal(crate::crypto::argon2id_key(pw, salt@)@, nonce@, account_key.secret_key()@).len() == 48;
            assert(self@.account_key == Some(vstd::utf8::encode_utf8(text@)));
            assert(crate::crypto::protects(text@, account_key.secret_key(), pw, salt, nonce));
        }
        Ok(())
    }
}

} // verus!
