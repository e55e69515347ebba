//! Cryptography: BLAKE3 hashing, HKDF key derivation, XChaCha20-Poly1305
//! encryption, Ed25519 keys and device certificates, and the protection of
//! the vault key by a passphrase (Argon2id, then base64).
//!
//! Each primitive is a call into its crate; what the crate computes is
//! named, and the library's functions are stated over those names. The
//! facts that the library relies on (a decryption gives back what was
//! encrypted, a signature verifies under its key, a base64 text decodes to
//! what was encoded) are stated with the calls that use them.

use vstd::prelude::*;
use crate::clock::utc_now_ms;
use argon2::PasswordHasher;
use base64::Engine;
use chacha20poly1305::aead::{Aead, KeyInit};
use ed25519_dalek::{Signer, Verifier};

verus! {

/// The BLAKE3 digest of a byte string.
pub uninterp spec fn blake3_digest(data: Seq<u8>) -> [u8; 32];

/// BLAKE3 hash of `data` (`blake3::hash`). The result is the digest of the
/// bytes given, and depends on nothing else.
#[verifier::external_body]
pub fn blake3_hash(data: &[u8]) -> (r: [u8; 32])
    ensures
        r == blake3_digest(data@),
{
    *blake3::hash(data).as_bytes()
}

/// The 32-byte output of HKDF-SHA256 with no salt, for a key and an info
/// string.
pub uninterp spec fn hkdf_sha256_32(ikm: Seq<u8>, info: Seq<u8>) -> [u8; 32];

/// HKDF-SHA256 expansion to 32 bytes (`Hkdf::<Sha256>::new(None, ikm)`
/// then `expand`). The expansion fails only for outputs longer than 255
/// hash lengths, so for 32 bytes it gives the named output.
#[verifier::external_body]
fn hkdf_expand32(ikm: &[u8; 32], info: &[u8]) -> (r: [u8; 32])
    ensures
        r == hkdf_sha256_32(ikm@, info@),
{
    let hk = hkdf::Hkdf::<sha2::Sha256>::new(None, ikm);
    let mut key = [0u8; 32];
    match hk.expand(info, &mut key) {
        Ok(()) => key,
        Err(_) => key,
    }
}

/// The XChaCha20-Poly1305 encryption of a plaintext (no associated data):
/// the encrypted bytes, then the 16-byte tag.
pub uninterp spec fn xchacha_seal(key: Seq<u8>, nonce: Seq<u8>, plaintext: Seq<u8>) -> Seq<u8>;

/// The XChaCha20-Poly1305 decryption of a ciphertext, when it
/// authenticates.
pub uninterp spec fn xchacha_open(key: Seq<u8>, nonce: Seq<u8>, ciphertext: Seq<u8>) -> Option<Seq<u8>>;

/// The largest message XChaCha20-Poly1305 takes, in 64-byte blocks.
pub open spec fn xchacha_max_blocks() -> int {
    0xffff_ffff
}

/// XChaCha20-Poly1305 encryption (`XChaCha20Poly1305::encrypt`). It fails
/// only for messages of `u32::MAX` blocks of 64 bytes or more; otherwise the
/// ciphertext is 16 bytes longer than the plaintext.
#[verifier::external_body]
fn xchacha_encrypt(key: &[u8; 32], nonce: &[u8; 24], plaintext: &[u8]) -> (r: Option<Vec<u8>>)
    ensures
        plaintext@.len() / 64 < xchacha_max_blocks() ==> r is Some
            && r->0@ == xchacha_seal(key@, nonce@, plaintext@) && r->0@.len() == plaintext@.len() + 16,
        plaintext@.len() / 64 >= xchacha_max_blocks() ==> r is None,
{
    let cipher = chacha20poly1305::XChaCha20Poly1305::new(chacha20poly1305::Key::from_slice(key));
    cipher.encrypt(chacha20poly1305::XNonce::from_slice(nonce), plaintext).ok()
}

/// XChaCha20-Poly1305 decryption (`XChaCha20Poly1305::decrypt`): the
/// plaintext when the ciphertext authenticates. Decrypting what was
/// encrypted with the same key and nonce gives back the plaintext.
#[verifier::external_body]
fn xchacha_decrypt(key: &[u8; 32], nonce: &[u8; 24], ciphertext: &[u8]) -> (r: Option<Vec<u8>>)
    ensures
        r is Some <==> xchacha_open(key@, nonce@, ciphertext@) is Some,
        r is Some ==> xchacha_open(key@, nonce@, ciphertext@) == Some(r->0@),
        forall|pt: Seq<u8>| pt.len() / 64 < xchacha_max_blocks() && ciphertext@ == #[trigger] xchacha_seal(key@, nonce@, pt)
            ==> r is Some && r->0@ == pt,
{
    let cipher = chacha20poly1305::XChaCha20Poly1305::new(chacha20poly1305::Key::from_slice(key));
    cipher.decrypt(chacha20poly1305::XNonce::from_slice(nonce), ciphertext).ok()
}

/// The 32-byte Argon2id hash (default parameters) of a passphrase with a
/// salt.
pub uninterp spec fn argon2id_key(passphrase: Seq<u8>, salt: Seq<u8>) -> [u8; 32];

/// Argon2id with the default parameters (`Argon2::default().hash_password`
/// with the salt base64-encoded by `SaltString::encode_b64`). It fails only
/// for passphrases longer than `u32::MAX` bytes; the output is 32 bytes.
#[verifier::external_body]
fn argon2id_derive(passphrase: &[u8], salt: &[u8; 24]) -> (r: Option<[u8; 32]>)
    ensures
        passphrase@.len() <= 0xffff_ffff ==> r == Some(argon2id_key(passphrase@, salt@)),
        passphrase@.len() > 0xffff_ffff ==> r is None,
{
    let salt_string = argon2::password_hash::SaltString::encode_b64(salt).ok()?;
    let hash = argon2::Argon2::default().hash_password(passphrase, &salt_string).ok()?;
    hash.hash?.as_bytes().try_into().ok()
}

/// The standard base64 text (with padding) of bytes.
pub uninterp spec fn base64_text(data: Seq<u8>) -> Seq<char>;

/// The bytes that a standard base64 text encodes.
pub uninterp spec fn base64_bytes(text: Seq<char>) -> Option<Seq<u8>>;

/// Standard base64 encoding (`general_purpose::STANDARD.encode`).
#[verifier::external_body]
fn base64_encode(data: &[u8]) -> (r: String)
    ensures
        r@ == base64_text(data@),
{
    base64::engine::general_purpose::STANDARD.encode(data)
}

/// Standard base64 decoding (`general_purpose::STANDARD.decode`). A text
/// that encoding produced decodes to the bytes encoded.
#[verifier::external_body]
fn base64_decode(text: &str) -> (r: Option<Vec<u8>>)
    ensures
        r is Some <==> base64_bytes(text@) is Some,
        r is Some ==> base64_bytes(text@) == Some(r->0@),
        forall|d: Seq<u8>| text@ == #[trigger] base64_text(d) ==> r is Some && r->0@ == d,
{
    base64::engine::general_purpose::STANDARD.decode(text).ok()
}

/// The Ed25519 public key of a secret key.
pub uninterp spec fn ed25519_public(secret: Seq<u8>) -> [u8; 32];

/// The Ed25519 signature of a message by a secret key.
pub uninterp spec fn ed25519_signature(secret: Seq<u8>, msg: Seq<u8>) -> [u8; 64];

/// Whether a signature of a message is valid under a public key.
pub uninterp spec fn ed25519_valid(public: Seq<u8>, msg: Seq<u8>, sig: Seq<u8>) -> bool;

/// Whether 32 bytes are a valid Ed25519 public key.
pub uninterp spec fn ed25519_key_ok(public: Seq<u8>) -> bool;

/// The public key of a secret key (`SigningKey::from_bytes(..).verifying_key()`).
#[verifier::external_body]
fn ed25519_public_of(secret: &[u8; 32]) -> (r: [u8; 32])
    ensures
        r == ed25519_public(secret@),
{
    ed25519_dalek::SigningKey::from_bytes(secret).verifying_key().to_bytes()
}

/// Signs a message (`SigningKey::sign`; Ed25519 signatures are
/// deterministic).
#[verifier::external_body]
fn ed25519_sign(secret: &[u8; 32], msg: &[u8]) -> (r: [u8; 64])
    ensures
        r == ed25519_signature(secret@, msg@),
{
    ed25519_dalek::SigningKey::from_bytes(secret).sign(msg).to_bytes()
}

/// Checks a signature (`VerifyingKey::from_bytes` then `verify`). A
/// signature made by a secret key verifies under that key's public key.
#[verifier::external_body]
pub(crate) fn ed25519_verify(public: &[u8; 32], msg: &[u8], sig: &[u8; 64]) -> (r: bool)
    ensures
        r == ed25519_valid(public@, msg@, sig@),
        forall|secret: Seq<u8>| *public == ed25519_public(secret) && *sig == #[trigger] ed25519_signature(secret, msg@) ==> r,
{
    match ed25519_dalek::VerifyingKey::from_bytes(public) {
        Ok(vk) => vk.verify(msg, &ed25519_dalek::Signature::from_bytes(sig)).is_ok(),
        Err(_) => false,
    }
}

/// Whether 32 bytes are a valid public key (`VerifyingKey::from_bytes`).
#[verifier::external_body]
pub(crate) fn ed25519_check_public(public: &[u8; 32]) -> (r: bool)
    ensures
        r == ed25519_key_ok(public@),
{
    ed25519_dalek::VerifyingKey::from_bytes(public).is_ok()
}

/// 32 random bytes from the operating system (`OsRng.fill_bytes`).
/// Nothing is stated of them: they are chance.
#[verifier::external_body]
fn os_random32() -> [u8; 32] {
    let mut b = [0u8; 32];
    rand::RngCore::fill_bytes(&mut rand::rngs::OsRng, &mut b);
    b
}

/// 24 random bytes from the operating system (`OsRng.fill_bytes`).
/// Nothing is stated of them: they are chance.
#[verifier::external_body]
fn os_random24() -> [u8; 24] {
    let mut b = [0u8; 24];
    rand::RngCore::fill_bytes(&mut rand::rngs::OsRng, &mut b);
    b
}

/// Why a cryptographic operation failed.
#[derive(Clone, Copy, Debug, PartialEq, Eq, Structural)]
pub enum CryptoError {
    /// The message is too long to encrypt.
    EncryptionFailed,
    /// The ciphertext does not authenticate.
    DecryptionFailed,
    /// A signature is not 64 bytes long.
    InvalidSignatureLength,
    /// A signature does not verify.
    SignatureVerificationFailed,
    /// Bytes that are not a public key.
    InvalidPublicKey,
    /// The passphrase is too long to hash.
    PassphraseTooLong,
    /// The protected key is not base64.
    Base64DecodeFailed,
    /// The protected key is too short.
    InvalidProtectedKeyFormat,
    /// The decrypted vault key is not 32 bytes long.
    InvalidDecryptedKeyLength,
}

/// The text that an error reads as: the cryptography error of the message
/// that names the failed step. A failure of the cipher is described by its
/// own text, `aead::Error`; the base64 decoder's, the password hasher's and
/// the signature library's descriptions of a failure, which depend on the
/// input, are not held and not part of the text.
pub open spec fn crypto_error_text(e: CryptoError) -> Seq<char> {
    "Cryptography error: "@ + match e {
        CryptoError::EncryptionFailed => "Encryption failed: aead::Error"@,
        CryptoError::DecryptionFailed => "Decryption failed: aead::Error"@,
        CryptoError::InvalidSignatureLength => "Invalid signature length"@,
        CryptoError::SignatureVerificationFailed => "Signature verification failed"@,
        CryptoError::InvalidPublicKey => "Invalid public key"@,
        CryptoError::PassphraseTooLong => "Argon2 hashing failed"@,
        CryptoError::Base64DecodeFailed => "Base64 decode failed"@,
        CryptoError::InvalidProtectedKeyFormat => "Invalid protected key format"@,
        CryptoError::InvalidDecryptedKeyLength => "Invalid decrypted key length"@,
    }
}

impl CryptoError {
    /// The text of the error.
    pub fn message(&self) -> (r: String)
        ensures
            r@ == crypto_error_text(*self),
    {
        let detail = match self {
            CryptoError::EncryptionFailed => "Encryption failed: aead::Error",
            CryptoError::DecryptionFailed => "Decryption failed: aead::Error",
            CryptoError::InvalidSignatureLength => "Invalid signature length",
            CryptoError::SignatureVerificationFailed => "Signature verification failed",
            CryptoError::InvalidPublicKey => "Invalid public key",
            CryptoError::PassphraseTooLong => "Argon2 hashing failed",
            CryptoError::Base64DecodeFailed => "Base64 decode failed",
            CryptoError::InvalidProtectedKeyFormat => "Invalid protected key format",
            CryptoError::InvalidDecryptedKeyLength => "Invalid decrypted key length",
        };
        String::from_str("Cryptography error: ").concat(detail)
    }
}

/// A random vault key.
pub fn generate_vault_key() -> [u8; 32] {
    os_random32()
}

/// A random nonce.
pub fn generate_nonce() -> [u8; 24] {
    os_random24()
}

/// The bytes of "event".
pub open spec fn event_label() -> Seq<u8> {
    seq![101u8, 118u8, 101u8, 110u8, 116u8]
}

/// The bytes of "chunk".
pub open spec fn chunk_label() -> Seq<u8> {
    seq![99u8, 104u8, 117u8, 110u8, 107u8]
}

/// A label followed by bytes.
fn labelled(label: &[u8], tail: &[u8]) -> (r: Vec<u8>)
    ensures
        r@ == label@ + tail@,
{
    let mut r: Vec<u8> = Vec::new();
    let mut i: usize = 0;
    while i < label.len()
        invariant
            i <= label@.len(),
            r@ == label@.take(i as int),
        decreases label@.len() - i,
    {
        r.push(label[i]);
        i = i + 1;
        proof { assert(r@ =~= label@.take(i as int)); }
    }
    let mut j: usize = 0;
    while j < tail.len()
        invariant
            j <= tail@.len(),
            r@ == label@ + tail@.take(j as int),
        decreases tail@.len() - j,
    {
        r.push(tail[j]);
        j = j + 1;
        proof { assert(r@ =~= label@ + tail@.take(j as int)); }
    }
    proof {
        assert(label@.take(label@.len() as int) =~= label@);
        assert(tail@.take(tail@.len() as int) =~= tail@);
    }
    r
}

/// The key that encrypts the body of an operation: HKDF of the vault key
/// with "event" and the operation id.
pub fn derive_event_key(vault_key: &[u8; 32], op_id: &[u8]) -> (r: Result<[u8; 32], CryptoError>)
    ensures
        r == Ok::<[u8; 32], CryptoError>(hkdf_sha256_32(vault_key@, event_label() + op_id@)),
{
    let label: [u8; 5] = [101, 118, 101, 110, 116];
    let info = labelled(label.as_slice(), op_id);
    proof { assert(label@ =~= event_label()); }
    Ok(hkdf_expand32(vault_key, info.as_slice()))
}

/// The key that encrypts a chunk (convergent encryption): HKDF of the
/// vault key with "chunk" and the hash of the plaintext.
pub fn derive_chunk_key(vault_key: &[u8; 32], plaintext_hash: &[u8]) -> (r: Result<[u8; 32], CryptoError>)
    ensures
        r == Ok::<[u8; 32], CryptoError>(hkdf_sha256_32(vault_key@, chunk_label() + plaintext_hash@)),
{
    let label: [u8; 5] = [99, 104, 117, 110, 107];
    let info = labelled(label.as_slice(), plaintext_hash);
    proof { assert(label@ =~= chunk_label()); }
    Ok(hkdf_expand32(vault_key, info.as_slice()))
}

/// Encrypts with XChaCha20-Poly1305.
pub fn encrypt(key: &[u8; 32], nonce: &[u8; 24], plaintext: &[u8]) -> (r: Result<Vec<u8>, CryptoError>)
    ensures
        plaintext@.len() / 64 < xchacha_max_blocks() ==> (r matches Ok(c)
            && c@ == xchacha_seal(key@, nonce@, plaintext@) && c@.len() == plaintext@.len() + 16),
        plaintext@.len() / 64 >= xchacha_max_blocks() ==> r == Err::<Vec<u8>, CryptoError>(CryptoError::EncryptionFailed),
{
    match xchacha_encrypt(key, nonce, plaintext) {
        Some(c) => Ok(c),
        None => Err(CryptoError::EncryptionFailed),
    }
}

/// Decrypts with XChaCha20-Poly1305; what [`encrypt`] produced with the
/// same key and nonce decrypts to the plaintext.
pub fn decrypt(key: &[u8; 32], nonce: &[u8; 24], ciphertext: &[u8]) -> (r: Result<Vec<u8>, CryptoError>)
    ensures
        match xchacha_open(key@, nonce@, ciphertext@) {
            Some(p) => r matches Ok(v) && v@ == p,
            None => r == Err::<Vec<u8>, CryptoError>(CryptoError::DecryptionFailed),
        },
        forall|pt: Seq<u8>| pt.len() / 64 < xchacha_max_blocks() && ciphertext@ == #[trigger] xchacha_seal(key@, nonce@, pt)
            ==> (r matches Ok(v) && v@ == pt),
{
    match xchacha_decrypt(key, nonce, ciphertext) {
        Some(p) => Ok(p),
        None => Err(CryptoError::DecryptionFailed),
    }
}

/// The bytes of a protected vault key: the salt, the nonce, and the
/// encrypted key.
pub open spec fn protected_bytes(salt: Seq<u8>, nonce: Seq<u8>, sealed: Seq<u8>) -> Seq<u8> {
    salt + nonce + sealed
}

/// Whether `text` protects `key` under `passphrase`, with some salt and
/// nonce: it is the base64 of the salt, the nonce and the key encrypted
/// under the Argon2id hash of the passphrase with the salt.
pub open spec fn protects(text: Seq<char>, key: [u8; 32], passphrase: Seq<u8>, salt: [u8; 24], nonce: [u8; 24]) -> bool {
    text == base64_text(protected_bytes(salt@, nonce@, xchacha_seal(argon2id_key(passphrase, salt@)@, nonce@, key@)))
}

/// Copies 24 bytes out of a slice.
fn bytes24(s: &[u8]) -> (r: [u8; 24])
    requires
        s@.len() == 24,
    ensures
        r@ == s@,
{
    let mut r = [0u8; 24];
    let mut i: usize = 0;
    while i < 24
        invariant
            i <= 24,
            s@.len() == 24,
            r@.len() == 24,
            forall|j: int| 0 <= j < i ==> r@[j] == s@[j],
        decreases 24 - i,
    {
        r[i] = s[i];
        i = i + 1;
    }
    assert(r@ =~= s@);
    r
}

/// Protects a vault key with a passphrase: a random salt and nonce, the
/// key encrypted under the Argon2id hash of the passphrase, all in base64.
pub fn protect_vault_key_with_passphrase(vault_key: &[u8; 32], passphrase: &str) -> (r: Result<String, CryptoError>)
    ensures
        vstd::utf8::encode_utf8(passphrase@).len() <= 0xffff_ffff ==> (r matches Ok(text)
            && exists|salt: [u8; 24], nonce: [u8; 24]| protects(text@, *vault_key, vstd::utf8::encode_utf8(passphrase@), salt, nonce)
                && #[trigger] xchacha_seal(argon2id_key(vstd::utf8::encode_utf8(passphrase@), salt@)@, nonce@, vault_key@).len() == 48),
        vstd::utf8::encode_utf8(passphrase@).len() > 0xffff_ffff ==> r == Err::<String, CryptoError>(CryptoError::PassphraseTooLong),
{
    let salt = generate_nonce();
    let pass = passphrase.as_bytes();
    let key = match argon2id_derive(pass, &salt) {
        Some(k) => k,
        None => { return Err(CryptoError::PassphraseTooLong); },
    };
    let nonce = generate_nonce();
    let sealed = match encrypt(&key, &nonce, vault_key.as_slice()) {
        Ok(c) => c,
        Err(e) => { return Err(e); },
    };
    let mut data = labelled(salt.as_slice(), nonce.as_slice());
    let mut i: usize = 0;
    let ghost start = data@;
    while i < sealed.len()
        invariant
            i <= sealed@.len(),
            data@ == start + sealed@.take(i as int),
        decreases sealed@.len() - i,
    {
        data.push(sealed[i]);
        i = i + 1;
        proof { assert(data@ =~= start + sealed@.take(i as int)); }
    }
    proof { assert(sealed@.take(sealed@.len() as int) =~= sealed@); }
    let text = base64_encode(data.as_slice());
    proof {
        assert(data@ =~= protected_bytes(salt@, nonce@, sealed@));
    }
    Ok(text)
}

/// What recovering a key from its protected text and a passphrase gives:
/// the text must be base64 of at least 80 bytes (salt, nonce, sealed key),
/// the passphrase short enough to hash, the sealed key must open under the
/// key derived from the passphrase and salt, and hold 32 bytes.
pub open spec fn recovered_key(protected: Seq<char>, passphrase: Seq<u8>) -> Result<Seq<u8>, CryptoError> {
    match base64_bytes(protected) {
        None => Err(CryptoError::Base64DecodeFailed),
        Some(d) => if d.len() < 80 {
            Err(CryptoError::InvalidProtectedKeyFormat)
        } else if passphrase.len() > 0xffff_ffff {
            Err(CryptoError::PassphraseTooLong)
        } else {
            match xchacha_open(argon2id_key(passphrase, d.subrange(0, 24))@, d.subrange(24, 48), d.subrange(48, d.len() as int)) {
                None => Err(CryptoError::DecryptionFailed),
                Some(p) => if p.len() != 32 { Err(CryptoError::InvalidDecryptedKeyLength) } else { Ok(p) },
            }
        },
    }
}

/// Recovers a vault key from its protected form and the passphrase. Text
/// that protects a key under the passphrase gives back that key.
pub fn recover_vault_key_from_passphrase(protected: &str, passphrase: &str) -> (r: Result<[u8; 32], CryptoError>)
    ensures
        match recovered_key(protected@, vstd::utf8::encode_utf8(passphrase@)) {
            Err(e) => r == Err::<[u8; 32], CryptoError>(e),
            Ok(k) => r matches Ok(key) && key@ == k,
        },
        forall|key: [u8; 32], salt: [u8; 24], nonce: [u8; 24]|
            #[trigger] protects(protected@, key, vstd::utf8::encode_utf8(passphrase@), salt, nonce)
                && vstd::utf8::encode_utf8(passphrase@).len() <= 0xffff_ffff
                && xchacha_seal(argon2id_key(vstd::utf8::encode_utf8(passphrase@), salt@)@, nonce@, key@).len() == 48
                ==> r == Ok::<[u8; 32], CryptoError>(key),
{
    let data = match base64_decode(protected) {
        Some(d) => d,
        None => { return Err(CryptoError::Base64DecodeFailed); },
    };
    if data.len() < 80 {
        return Err(CryptoError::InvalidProtectedKeyFormat);
    }
    let salt = bytes24(crate::ids::slice_subrange(data.as_slice(), 0, 24));
    let nonce = bytes24(crate::ids::slice_subrange(data.as_slice(), 24, 48));
    let sealed = crate::ids::slice_subrange(data.as_slice(), 48, data.len());
    let key = match argon2id_derive(passphrase.as_bytes(), &salt) {
        Some(k) => k,
        None => { return Err(CryptoError::PassphraseTooLong); },
    };
    let plain = match decrypt(&key, &nonce, sealed) {
        Ok(p) => p,
        Err(e) => {
            proof {
                assert forall|k: [u8; 32], s: [u8; 24], n: [u8; 24]|
                    #[trigger] protects(protected@, k, vstd::utf8::encode_utf8(passphrase@), s, n)
                        && vstd::utf8::encode_utf8(passphrase@).len() <= 0xffff_ffff
                        && xchacha_seal(argon2id_key(vstd::utf8::encode_utf8(passphrase@), s@)@, n@, k@).len() == 48
                    implies false by {
                    let sealed_k = xchacha_seal(argon2id_key(vstd::utf8::encode_utf8(passphrase@), s@)@, n@, k@);
                    assert(data@ == protected_bytes(s@, n@, sealed_k));
                    assert(salt == s) by { assert(salt =~= s); }
                    assert(nonce == n) by { assert(nonce =~= n); }
                    assert(sealed@ =~= sealed_k);
                    assert(k@.len() / 64 < xchacha_max_blocks());
                }
            }
            return Err(e);
        },
    };
    proof {
        assert forall|k: [u8; 32], s: [u8; 24], n: [u8; 24]|
            #[trigger] protects(protected@, k, vstd::utf8::encode_utf8(passphrase@), s, n)
                && vstd::utf8::encode_utf8(passphrase@).len() <= 0xffff_ffff
                && xchacha_seal(argon2id_key(vstd::utf8::encode_utf8(passphrase@), s@)@, n@, k@).len() == 48
            implies plain@ == k@ by {
            let sealed_k = xchacha_seal(argon2id_key(vstd::utf8::encode_utf8(passphrase@), s@)@, n@, k@);
            let b = protected_bytes(s@, n@, sealed_k);
            assert(data@ == b);
            assert(salt@ =~= s@);
            assert(nonce@ =~= n@);
            assert(salt == s) by { assert(salt =~= s); }
            assert(nonce == n) by { assert(nonce =~= n); }
            assert(sealed@ =~= sealed_k);
            assert(k@.len() / 64 < xchacha_max_blocks());
        }
    }
    if plain.len() != 32 {
        return Err(CryptoError::InvalidDecryptedKeyLength);
    }
    let mut out = [0u8; 32];
    let mut i: usize = 0;
    while i < 32
        invariant
            i <= 32,
            plain@.len() == 32,
            out@.len() == 32,
            forall|j: int| 0 <= j < i ==> out@[j] == plain@[j],
        decreases 32 - i,
    {
        out[i] = plain[i];
        i = i + 1;
    }
    proof {
        assert(out@ =~= plain@);
        assert forall|k: [u8; 32], s: [u8; 24], n: [u8; 24]|
            #[trigger] protects(protected@, k, vstd::utf8::encode_utf8(passphrase@), s, n)
                && vstd::utf8::encode_utf8(passphrase@).len() <= 0xffff_ffff
                && xchacha_seal(argon2id_key(vstd::utf8::encode_utf8(passphrase@), s@)@, n@, k@).len() == 48
            implies out == k by {
            assert(out =~= k);
        }
    }
    Ok(out)
}

/// The account's Ed25519 key, shared between the account's devices. A key
/// made from a public key alone holds a random secret that does not match
/// it, and serves only to verify.
#[derive(Clone, Copy, Debug)]
pub struct AccountKey {
    secret: [u8; 32],
    public: [u8; 32],
}

impl AccountKey {
    /// The secret key.
    pub closed spec fn secret_key(&self) -> [u8; 32] {
        self.secret
    }

    /// The public key.
    pub closed spec fn public_key(&self) -> [u8; 32] {
        self.public
    }

    /// Whether the public key is that of the secret key.
    pub open spec fn matched(&self) -> bool {
        self.public_key() == ed25519_public(self.secret_key()@)
    }

    /// A key pair with a random secret.
    pub fn generate() -> (k: Self)
        ensures
            k.matched(),
    {
        let secret = os_random32();
        AccountKey { secret, public: ed25519_public_of(&secret) }
    }

    /// The key pair of a secret key.
    pub fn from_bytes(bytes: &[u8; 32]) -> (r: Result<Self, CryptoError>)
        ensures
            r matches Ok(k) && k.secret_key() == *bytes && k.matched(),
    {
        Ok(AccountKey { secret: *bytes, public: ed25519_public_of(bytes) })
    }

    /// The key pair of a secret key, as kept by a device that holds it.
    pub fn from_private_bytes(bytes: &[u8; 32]) -> (r: Result<Self, CryptoError>)
        ensures
            r matches Ok(k) && k.secret_key() == *bytes && k.matched(),
    {
        Self::from_bytes(bytes)
    }

    /// What is recorded of the key: its public key, when the record was
    /// made (`now`, Unix seconds), no expiry, a version and whether the
    /// secret is held.
    pub fn to_info_at(&self, version: u64, has_private_key: bool, now: i64) -> (r: AccountKeyInfo)
        ensures
            r == (AccountKeyInfo { public_key: self.public_key(), created_at: now, expires_at: None, version, has_private_key }),
    {
        AccountKeyInfo { public_key: self.public, created_at: now, expires_at: None, version, has_private_key }
    }

    /// What is recorded of the key, made now.
    pub fn to_info(&self, version: u64, has_private_key: bool) -> (r: AccountKeyInfo)
        ensures
            r.public_key == self.public_key(),
            r.expires_at is None,
            r.version == version,
            r.has_private_key == has_private_key,
    {
        self.to_info_at(version, has_private_key, utc_now_ms() / 1000)
    }

    /// What is recorded of the key, with an expiry time (Unix seconds).
    pub fn to_info_with_expiration_at(&self, version: u64, has_private_key: bool, expires_at: i64, now: i64) -> (r: AccountKeyInfo)
        ensures
            r == (AccountKeyInfo { public_key: self.public_key(), created_at: now, expires_at: Some(expires_at), version, has_private_key }),
    {
        AccountKeyInfo { public_key: self.public, created_at: now, expires_at: Some(expires_at), version, has_private_key }
    }

    /// What is recorded of the key, with an expiry time, made now.
    pub fn to_info_with_expiration(&self, version: u64, has_private_key: bool, expires_at: i64) -> (r: AccountKeyInfo)
        ensures
            r.public_key == self.public_key(),
            r.expires_at == Some(expires_at),
            r.version == version,
            r.has_private_key == has_private_key,
    {
        self.to_info_with_expiration_at(version, has_private_key, expires_at, utc_now_ms() / 1000)
    }

    /// A key pair that can only verify: the public key given, with a random
    /// secret; refused when the bytes are not a public key.
    pub fn from_public_bytes(bytes: &[u8; 32]) -> (r: Result<Self, CryptoError>)
        ensures
            ed25519_key_ok(bytes@) ==> (r matches Ok(k) && k.public_key() == *bytes),
            !ed25519_key_ok(bytes@) ==> r == Err::<Self, CryptoError>(CryptoError::InvalidPublicKey),
    {
        if !ed25519_check_public(bytes) {
            return Err(CryptoError::InvalidPublicKey);
        }
        Ok(AccountKey { secret: os_random32(), public: *bytes })
    }

    /// The public key.
    pub fn public_key_bytes(&self) -> (r: [u8; 32])
        ensures
            r == self.public_key(),
    {
        self.public
    }

    /// The secret key.
    pub fn private_key_bytes(&self) -> (r: [u8; 32])
        ensures
            r == self.secret_key(),
    {
        self.secret
    }

    /// Signs data.
    pub fn sign(&self, data: &[u8]) -> (sig: [u8; 64])
        ensures
            sig == ed25519_signature(self.secret_key()@, data@),
    {
        ed25519_sign(&self.secret, data)
    }

    /// Checks a signature of data under the public key; a signature made by
    /// a matched pair verifies.
    pub fn verify(&self, data: &[u8], sig: &[u8; 64]) -> (r: Result<(), CryptoError>)
        ensures
            r is Ok <==> ed25519_valid(self.public_key()@, data@, sig@),
            r is Err ==> r == Err::<(), CryptoError>(CryptoError::SignatureVerificationFailed),
            self.matched() && *sig == ed25519_signature(self.secret_key()@, data@) ==> r is Ok,
    {
        if ed25519_verify(&self.public, data, sig) {
            Ok(())
        } else {
            Err(CryptoError::SignatureVerificationFailed)
        }
    }
}

/// What is recorded of an account key. Times are Unix seconds.
#[derive(Clone, Copy, Debug)]
pub struct AccountKeyInfo {
    /// The account's public key.
    pub public_key: [u8; 32],
    /// When the record was made.
    pub created_at: i64,
    /// When the key expires, if ever.
    pub expires_at: Option<i64>,
    /// Version, for key rotation.
    pub version: u64,
    /// Whether this device holds the secret key.
    pub has_private_key: bool,
}

/// A device's own Ed25519 key, which signs the operations it makes.
#[derive(Clone, Copy, Debug)]
pub struct DeviceKey {
    secret: [u8; 32],
    public: [u8; 32],
}

impl DeviceKey {
    /// The secret key.
    pub closed spec fn secret_key(&self) -> [u8; 32] {
        self.secret
    }

    /// The public key.
    pub closed spec fn public_key(&self) -> [u8; 32] {
        self.public
    }

    /// Whether the public key is that of the secret key.
    pub open spec fn matched(&self) -> bool {
        self.public_key() == ed25519_public(self.secret_key()@)
    }

    /// A key pair with a random secret.
    pub fn generate() -> (k: Self)
        ensures
            k.matched(),
    {
        let secret = os_random32();
        DeviceKey { secret, public: ed25519_public_of(&secret) }
    }

    /// The key pair of a secret key.
    pub fn from_bytes(bytes: &[u8; 32]) -> (r: Result<Self, CryptoError>)
        ensures
            r matches Ok(k) && k.secret_key() == *bytes && k.matched(),
    {
        Ok(DeviceKey { secret: *bytes, public: ed25519_public_of(bytes) })
    }

    /// The key pair of a secret and a public key, as given.
    pub fn from_keys(secret: [u8; 32], public: [u8; 32]) -> (k: Self)
        ensures
            k.secret_key() == secret,
            k.public_key() == public,
    {
        DeviceKey { secret, public }
    }

    /// The public key.
    pub fn public_key_bytes(&self) -> (r: [u8; 32])
        ensures
            r == self.public_key(),
    {
        self.public
    }

    /// The secret key.
    pub fn private_key_bytes(&self) -> (r: [u8; 32])
        ensures
            r == self.secret_key(),
    {
        self.secret
    }

    /// Signs data.
    pub fn sign(&self, data: &[u8]) -> (sig: [u8; 64])
        ensures
            sig == ed25519_signature(self.secret_key()@, data@),
    {
        ed25519_sign(&self.secret, data)
    }

    /// Checks a signature of data under the public key; a signature made by
    /// a matched pair verifies.
    pub fn verify(&self, data: &[u8], sig: &[u8; 64]) -> (r: Result<(), CryptoError>)
        ensures
            r is Ok <==> ed25519_valid(self.public_key()@, data@, sig@),
            r is Err ==> r == Err::<(), CryptoError>(CryptoError::SignatureVerificationFailed),
            self.matched() && *sig == ed25519_signature(self.secret_key()@, data@) ==> r is Ok,
    {
        if ed25519_verify(&self.public, data, sig) {
            Ok(())
        } else {
            Err(CryptoError::SignatureVerificationFailed)
        }
    }
}

/// A certificate of a device, signed by the account key. Times are Unix
/// seconds.
#[derive(Clone, Debug)]
pub struct DeviceCert {
    pub device_pubkey: [u8; 32],
    pub issued_at: i64,
    pub expires_at: Option<i64>,
    pub signature: Vec<u8>,
}

/// The mathematical form of a [`DeviceCert`].
pub struct DeviceCertView {
    pub device_pubkey: [u8; 32],
    pub issued_at: i64,
    pub expires_at: Option<i64>,
    pub signature: Seq<u8>,
}

impl View for DeviceCert {
    type V = DeviceCertView;

    open spec fn view(&self) -> DeviceCertView {
        DeviceCertView {
            device_pubkey: self.device_pubkey,
            issued_at: self.issued_at,
            expires_at: self.expires_at,
            signature: self.signature@,
        }
    }
}

/// A copy of a certificate.
pub(crate) fn copy_cert(c: &DeviceCert) -> (r: DeviceCert)
    ensures
        r@ == c@,
{
    DeviceCert {
        device_pubkey: c.device_pubkey,
        issued_at: c.issued_at,
        expires_at: c.expires_at,
        signature: vstd::slice::slice_to_vec(c.signature.as_slice()),
    }
}

/// Whether a certificate's signature is valid under an account public key.
pub open spec fn cert_valid(account_public: [u8; 32], c: DeviceCertView) -> bool {
    c.signature.len() == 64 && ed25519_valid(account_public@, cert_data(c.device_pubkey, c.issued_at, c.expires_at), c.signature)
}

/// The bytes that a certificate signs: the device key, the issue time and,
/// when there is one, the expiry time, in little-endian order.
pub open spec fn cert_data(device_pubkey: [u8; 32], issued_at: i64, expires_at: Option<i64>) -> Seq<u8> {
    device_pubkey@ + vstd::bytes::spec_u64_to_le_bytes(issued_at as u64) + match expires_at {
        Some(e) => vstd::bytes::spec_u64_to_le_bytes(e as u64),
        None => Seq::empty(),
    }
}

/// The bytes a certificate signs.
fn cert_bytes(device_pubkey: &[u8; 32], issued_at: i64, expires_at: Option<i64>) -> (r: Vec<u8>)
    ensures
        r@ == cert_data(*device_pubkey, issued_at, expires_at),
{
    let issued = vstd::bytes::u64_to_le_bytes(issued_at as u64);
    let mut data = labelled(device_pubkey.as_slice(), issued.as_slice());
    match expires_at {
        Some(e) => {
            let exp = vstd::bytes::u64_to_le_bytes(e as u64);
            data = labelled(data.as_slice(), exp.as_slice());
        },
        None => {
            assert(data@ + Seq::<u8>::empty() =~= data@);
        },
    }
    data
}

impl DeviceCert {
    /// A certificate of a device issued at `issued_at`, signed by the
    /// account key.
    pub fn new_at(device_pubkey: [u8; 32], account_key: &AccountKey, expires_at: Option<i64>, issued_at: i64) -> (r: Result<DeviceCert, CryptoError>)
        ensures
            r matches Ok(c) && c.device_pubkey == device_pubkey && c.issued_at == issued_at && c.expires_at == expires_at
                && c.signature@ == ed25519_signature(account_key.secret_key()@, cert_data(device_pubkey, issued_at, expires_at))@,
    {
        let data = cert_bytes(&device_pubkey, issued_at, expires_at);
        let sig = account_key.sign(data.as_slice());
        Ok(DeviceCert { device_pubkey, issued_at, expires_at, signature: vstd::slice::slice_to_vec(sig.as_slice()) })
    }

    /// A certificate of a device issued now.
    pub fn new(device_pubkey: [u8; 32], account_key: &AccountKey, expires_at: Option<i64>) -> (r: Result<DeviceCert, CryptoError>)
        ensures
            r matches Ok(c) && c.device_pubkey == device_pubkey && c.expires_at == expires_at
                && c.signature@ == ed25519_signature(account_key.secret_key()@, cert_data(device_pubkey, c.issued_at, expires_at))@,
    {
        let now = utc_now_ms() / 1000;
        Self::new_at(device_pubkey, account_key, expires_at, now)
    }

    /// Checks the certificate's signature under the account key. A
    /// certificate made with a matched key pair verifies under it.
    pub fn verify(&self, account_key: &AccountKey) -> (r: Result<(), CryptoError>)
        ensures
            self.signature@.len() != 64 ==> r == Err::<(), CryptoError>(CryptoError::InvalidSignatureLength),
            self.signature@.len() == 64 ==> (r is Ok <==> ed25519_valid(account_key.public_key()@,
                cert_data(self.device_pubkey, self.issued_at, self.expires_at), self.signature@)),
            self.signature@.len() == 64 && r is Err ==> r == Err::<(), CryptoError>(CryptoError::SignatureVerificationFailed),
            account_key.matched() && self.signature@ == ed25519_signature(account_key.secret_key()@,
                cert_data(self.device_pubkey, self.issued_at, self.expires_at))@ ==> r is Ok,
    {
        let data = cert_bytes(&self.device_pubkey, self.issued_at, self.expires_at);
        if self.signature.len() != 64 {
            return Err(CryptoError::InvalidSignatureLength);
        }
        let mut sig = [0u8; 64];
        let mut i: usize = 0;
        while i < 64
            invariant
                i <= 64,
                self.signature@.len() == 64,
                sig@.len() == 64,
                forall|j: int| 0 <= j < i ==> sig@[j] == self.signature@[j],
            decreases 64 - i,
        {
            sig[i] = self.signature[i];
            i = i + 1;
        }
        proof {
            assert(sig@ =~= self.signature@);
            if account_key.matched() && self.signature@ == ed25519_signature(account_key.secret_key()@,
                cert_data(self.device_pubkey, self.issued_at, self.expires_at))@ {
                assert(sig =~= ed25519_signature(account_key.secret_key()@, cert_data(self.device_pubkey, self.issued_at, self.expires_at)));
            }
        }
        account_key.verify(data.as_slice(), &sig)
    }
}

} // verus!
