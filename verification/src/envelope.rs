//! Operations as sent between devices: the canonical bytes of the
//! operation encrypted under a key derived from the vault key and the
//! operation id, behind a header signed by the sending device.

use vstd::prelude::*;
use crate::codec::bytes_list_view;
use crate::crypto::{
    derive_event_key, ed25519_signature, ed25519_valid, encrypt, decrypt, event_label,
    generate_nonce, hkdf_sha256_32, xchacha_max_blocks, xchacha_seal, CryptoError, DeviceKey,
};
use crate::events::{
    all32, arrs32, cids_to_vecs, cids_view, lemma_arrs32, lemma_operation_round_trip,
    operation_bytes, vecs_to_arrs32, Op, OpView, Operation,
};
use crate::ids::{lemma_op_id_round_trip, op_id_bytes, OpId};
use crate::protobuf::{op_header_encoding, OpEnvelope, OpEnvelopeView, OpHeader, OpHeaderView};

verus! {

/// Why an envelope was refused.
#[derive(Clone, Copy, Debug, PartialEq, Eq, Structural)]
pub enum EnvelopeError {
    /// The envelope has no header.
    MissingHeader,
    /// The signature is not 64 bytes long.
    InvalidSignatureLength,
    /// The signature does not verify under the device key.
    SignatureVerificationFailed,
    /// The nonce is not 24 bytes long.
    InvalidNonce,
    /// The operation id is not 40 bytes long.
    InvalidOpId,
    /// The ciphertext does not decrypt.
    DecryptionFailed,
    /// The decrypted bytes are not an operation.
    InvalidOperation,
    /// A parent hash is not 32 bytes long.
    InvalidParentHash,
    /// The operation is too long to encrypt.
    EncryptionFailed,
}

/// The header of an operation before it is signed.
pub open spec fn unsigned_header(op: OpView, signer: [u8; 32], nonce: [u8; 24]) -> OpHeaderView {
    OpHeaderView {
        op_id: op_id_bytes(op.id),
        lamport: op.lamport,
        parents: cids_view(op.parents),
        signer: signer@,
        sig: Seq::empty(),
        timestamp: op.timestamp,
        nonce: nonce@,
    }
}

/// The encrypted body of an operation.
pub open spec fn op_ciphertext(op: OpView, vault_key: [u8; 32], nonce: [u8; 24]) -> Seq<u8> {
    xchacha_seal(hkdf_sha256_32(vault_key@, event_label() + op_id_bytes(op.id))@, nonce@, operation_bytes(op.operation))
}

/// The bytes that the sending device signs: the unsigned header, then the
/// ciphertext.
pub open spec fn signed_bytes(header: OpHeaderView, ciphertext: Seq<u8>) -> Seq<u8> {
    op_header_encoding(OpHeaderView { sig: Seq::empty(), ..header }) + ciphertext
}

/// The envelope of an operation, encrypted with a nonce and signed by a
/// device.
pub open spec fn sealed_envelope(op: OpView, vault_key: [u8; 32], secret: [u8; 32], signer: [u8; 32], nonce: [u8; 24]) -> OpEnvelopeView {
    let ct = op_ciphertext(op, vault_key, nonce);
    let h = unsigned_header(op, signer, nonce);
    OpEnvelopeView {
        header: Some(OpHeaderView { sig: ed25519_signature(secret@, signed_bytes(h, ct))@, ..h }),
        ciphertext: ct,
    }
}

/// Whether an operation can be sent and read back: its bytes are short
/// enough to encrypt.
pub open spec fn sendable(op: OpView) -> bool {
    operation_bytes(op.operation).len() / 64 < xchacha_max_blocks()
}

/// A copy of bytes.
pub(crate) fn copy_bytes(v: &Vec<u8>) -> (r: Vec<u8>)
    ensures
        r@ == v@,
{
    vstd::slice::slice_to_vec(v.as_slice())
}

/// A copy of a list of byte strings.
fn copy_bytes_list(v: &Vec<Vec<u8>>) -> (r: Vec<Vec<u8>>)
    ensures
        bytes_list_view(r@) == bytes_list_view(v@),
{
    let mut r: Vec<Vec<u8>> = Vec::new();
    let mut i: usize = 0;
    while i < v.len()
        invariant
            i <= v@.len(),
            r@.len() == i,
            forall|j: int| 0 <= j < i ==> #[trigger] r@[j]@ == v@[j]@,
        decreases v@.len() - i,
    {
        r.push(copy_bytes(&v[i]));
        i = i + 1;
    }
    assert(bytes_list_view(r@) =~= bytes_list_view(v@));
    r
}

/// Copies bytes of a known length into an array.
pub(crate) fn bytes_to_arr24(s: &[u8]) -> (r: [u8; 24])
    requires
        s@.len() == 24,
    ensures
        r@ == s@,
{
    let mut r = [0u8; 24];
    let mut i: usize = 0;
    while i < 24
        invariant
            i <= 24,
            s@.len() == 24,
            r@.len() == 24,
            forall|j: int| 0 <= j < i ==> r@[j] == s@[j],
        decreases 24 - i,
    {
        r[i] = s[i];
        i = i + 1;
    }
    assert(r@ =~= s@);
    r
}

/// Copies 64 bytes into an array.
pub(crate) fn bytes_to_arr64(s: &[u8]) -> (r: [u8; 64])
    requires
        s@.len() == 64,
    ensures
        r@ == s@,
{
    let mut r = [0u8; 64];
    let mut i: usize = 0;
    while i < 64
        invariant
            i <= 64,
            s@.len() == 64,
            r@.len() == 64,
            forall|j: int| 0 <= j < i ==> r@[j] == s@[j],
        decreases 64 - i,
    {
        r[i] = s[i];
        i = i + 1;
    }
    assert(r@ =~= s@);
    r
}

proof fn lemma_arrays_from_view<A>(a: [A; 24], b: [A; 24])
    requires
        a@ == b@,
    ensures
        a == b,
{
    assert forall|j: int| 0 <= j < 24 implies a[j] == b[j] by {
        assert(a[j] == a@[j]);
        assert(b[j] == b@[j]);
    }
    assert(a =~= b);
}

proof fn lemma_arrays64_from_view(a: [u8; 64], b: [u8; 64])
    requires
        a@ == b@,
    ensures
        a == b,
{
    assert forall|j: int| 0 <= j < 64 implies a[j] == b[j] by {
        assert(a[j] == a@[j]);
        assert(b[j] == b@[j]);
    }
    assert(a =~= b);
}

/// The bytes of two vectors, one after the other.
pub(crate) fn concat_bytes(a: &Vec<u8>, b: &Vec<u8>) -> (r: Vec<u8>)
    ensures
        r@ == a@ + b@,
{
    let mut r = copy_bytes(a);
    let mut i: usize = 0;
    while i < b.len()
        invariant
            i <= b@.len(),
            r@ == a@ + b@.take(i as int),
        decreases b@.len() - i,
    {
        r.push(b[i]);
        i = i + 1;
        proof { assert(r@ =~= a@ + b@.take(i as int)); }
    }
    proof { assert(b@.take(b@.len() as int) =~= b@); }
    r
}

impl Op {
    /// Encrypts the operation with a given nonce and signs its header with
    /// the device key.
    pub fn encrypt_with_nonce(&self, vault_key: &[u8; 32], device_key: &DeviceKey, nonce: [u8; 24]) -> (r: Result<OpEnvelope, EnvelopeError>)
        ensures
            operation_bytes(self@.operation).len() / 64 < xchacha_max_blocks() ==> (r matches Ok(e)
                && e@ == sealed_envelope(self@, *vault_key, device_key.secret_key(), device_key.public_key(), nonce)),
            operation_bytes(self@.operation).len() / 64 >= xchacha_max_blocks() ==> r == Err::<OpEnvelope, EnvelopeError>(EnvelopeError::EncryptionFailed),
    {
        let body = self.operation.to_bytes();
        let op_id_bytes = self.id.to_bytes();
        let key = match derive_event_key(vault_key, op_id_bytes.as_slice()) {
            Ok(k) => k,
            Err(_) => { return Err(EnvelopeError::EncryptionFailed); },
        };
        let ciphertext = match encrypt(&key, &nonce, body.as_slice()) {
            Ok(c) => c,
            Err(_) => { return Err(EnvelopeError::EncryptionFailed); },
        };
        let header = OpHeader {
            op_id: op_id_bytes,
            lamport: self.lamport,
            parents: cids_to_vecs(&self.parents),
            signer: vstd::slice::slice_to_vec(device_key.public_key_bytes().as_slice()),
            sig: Vec::new(),
            timestamp: self.timestamp,
            nonce: vstd::slice::slice_to_vec(nonce.as_slice()),
        };
        let encoded = header.encode_to_vec();
        let to_sign = concat_bytes(&encoded, &ciphertext);
        let sig = device_key.sign(to_sign.as_slice());
        let mut signed_header = header;
        signed_header.sig = vstd::slice::slice_to_vec(sig.as_slice());
        let e = OpEnvelope { header: Some(signed_header), ciphertext };
        proof {
            let h = unsigned_header(self@, device_key.public_key(), nonce);
            assert(OpHeaderView { sig: Seq::empty(), ..h } == h);
            assert(e@ == sealed_envelope(self@, *vault_key, device_key.secret_key(), device_key.public_key(), nonce));
        }
        Ok(e)
    }

    /// Encrypts the operation with a random nonce and signs its header.
    pub fn encrypt(&self, vault_key: &[u8; 32], device_key: &DeviceKey) -> (r: Result<OpEnvelope, EnvelopeError>)
        ensures
            operation_bytes(self@.operation).len() / 64 < xchacha_max_blocks() ==> (r matches Ok(e)
                && exists|nonce: [u8; 24]| e@ == #[trigger] sealed_envelope(self@, *vault_key, device_key.secret_key(), device_key.public_key(), nonce)),
            operation_bytes(self@.operation).len() / 64 >= xchacha_max_blocks() ==> r == Err::<OpEnvelope, EnvelopeError>(EnvelopeError::EncryptionFailed),
    {
        let nonce = generate_nonce();
        self.encrypt_with_nonce(vault_key, device_key, nonce)
    }

    /// Checks the signature of an envelope under the device key, decrypts
    /// its body and rebuilds the operation. An envelope that the device's
    /// matched key pair sealed gives back the operation.
    pub fn decrypt_and_verify(envelope: &OpEnvelope, vault_key: &[u8; 32], device_key: &DeviceKey) -> (r: Result<Op, EnvelopeError>)
        ensures
            envelope@.header is None ==> r == Err::<Op, EnvelopeError>(EnvelopeError::MissingHeader),
            r is Ok ==> (envelope@.header matches Some(h) && h.sig.len() == 64
                && ed25519_valid(device_key.public_key()@, signed_bytes(h, envelope@.ciphertext), h.sig)),
            forall|op: OpView, nonce: [u8; 24]|
                envelope@ == #[trigger] sealed_envelope(op, *vault_key, device_key.secret_key(), device_key.public_key(), nonce)
                    && device_key.matched() && sendable(op)
                ==> (r matches Ok(o) && o@ == op),
    {
        let header = match &envelope.header {
            Some(h) => h,
            None => { return Err(EnvelopeError::MissingHeader); },
        };
        match check_signature(header, &envelope.ciphertext, device_key) {
            Ok(()) => {},
            Err(e) => { return Err(e); },
        }
        let r = open_payload(header, &envelope.ciphertext, vault_key);
        proof {
            assert forall|op: OpView, nonce: [u8; 24]|
                envelope@ == #[trigger] sealed_envelope(op, *vault_key, device_key.secret_key(), device_key.public_key(), nonce)
                    && device_key.matched() && sendable(op)
                implies (r matches Ok(o) && o@ == op) by {
                assert(header_carries(header@, op, nonce));
                assert(envelope.ciphertext@ == op_ciphertext(op, *vault_key, nonce));
            }
        }
        r
    }
}

/// Whether a header carries an operation's metadata and a nonce.
pub open spec fn header_carries(h: OpHeaderView, op: OpView, nonce: [u8; 24]) -> bool {
    &&& h.op_id == op_id_bytes(op.id)
    &&& h.lamport == op.lamport
    &&& h.parents == cids_view(op.parents)
    &&& h.timestamp == op.timestamp
    &&& h.nonce == nonce@
}

/// Checks the signature of a header and ciphertext under a device key.
fn check_signature(header: &OpHeader, ciphertext: &Vec<u8>, device_key: &DeviceKey) -> (r: Result<(), EnvelopeError>)
    ensures
        r is Ok ==> header@.sig.len() == 64 && ed25519_valid(device_key.public_key()@, signed_bytes(header@, ciphertext@), header@.sig),
        device_key.matched() && header@.sig == ed25519_signature(device_key.secret_key()@, signed_bytes(header@, ciphertext@))@ ==> r is Ok,
{
    if header.sig.len() != 64 {
        return Err(EnvelopeError::InvalidSignatureLength);
    }
    let unsigned = OpHeader {
        op_id: copy_bytes(&header.op_id),
        lamport: header.lamport,
        parents: copy_bytes_list(&header.parents),
        signer: copy_bytes(&header.signer),
        sig: Vec::new(),
        timestamp: header.timestamp,
        nonce: copy_bytes(&header.nonce),
    };
    let encoded = unsigned.encode_to_vec();
    let to_verify = concat_bytes(&encoded, ciphertext);
    let sig = bytes_to_arr64(header.sig.as_slice());
    proof {
        assert(unsigned@ == OpHeaderView { sig: Seq::empty(), ..header@ });
        assert(to_verify@ == signed_bytes(header@, ciphertext@));
        if header@.sig == ed25519_signature(device_key.secret_key()@, to_verify@)@ {
            lemma_arrays64_from_view(sig, ed25519_signature(device_key.secret_key()@, to_verify@));
        }
    }
    match device_key.verify(to_verify.as_slice(), &sig) {
        Ok(()) => Ok(()),
        Err(_) => Err(EnvelopeError::SignatureVerificationFailed),
    }
}

/// Decrypts the body of an envelope and rebuilds the operation from its
/// header.
#[verifier::rlimit(40)]
fn open_payload(header: &OpHeader, ciphertext: &Vec<u8>, vault_key: &[u8; 32]) -> (r: Result<Op, EnvelopeError>)
    ensures
        forall|op: OpView, nonce: [u8; 24]|
            header_carries(header@, op, nonce) && ciphertext@ == #[trigger] op_ciphertext(op, *vault_key, nonce) && sendable(op)
            ==> (r matches Ok(o) && o@ == op),
{
    if header.nonce.len() != 24 {
        return Err(EnvelopeError::InvalidNonce);
    }
    let nonce = bytes_to_arr24(header.nonce.as_slice());
    let id = match OpId::from_bytes(header.op_id.as_slice()) {
        Ok(id) => id,
        Err(_) => {
            proof {
                assert forall|op: OpView, n: [u8; 24]|
                    header_carries(header@, op, n) && ciphertext@ == #[trigger] op_ciphertext(op, *vault_key, n)
                    implies false by {
                    lemma_op_id_round_trip(op.id);
                    assert(op_id_bytes(op.id).len() == 40);
                }
            }
            return Err(EnvelopeError::InvalidOpId);
        },
    };
    let key = match derive_event_key(vault_key, header.op_id.as_slice()) {
        Ok(k) => k,
        Err(_) => { return Err(EnvelopeError::DecryptionFailed); },
    };
    proof {
        assert forall|op: OpView, n: [u8; 24]|
            header_carries(header@, op, n) && ciphertext@ == #[trigger] op_ciphertext(op, *vault_key, n)
            implies nonce == n && id == op.id && ciphertext@ == xchacha_seal(key@, nonce@, operation_bytes(op.operation)) by {
            lemma_arrays_from_view(nonce, n);
            lemma_op_id_round_trip(op.id);
        }
    }
    let plain = match decrypt(&key, &nonce, ciphertext.as_slice()) {
        Ok(p) => p,
        Err(_) => { return Err(EnvelopeError::DecryptionFailed); },
    };
    proof {
        assert forall|op: OpView, n: [u8; 24]|
            header_carries(header@, op, n) && ciphertext@ == #[trigger] op_ciphertext(op, *vault_key, n) && sendable(op)
            implies plain@ == operation_bytes(op.operation) && crate::events::operation_from_bytes(plain@) == Some(op.operation) by {
            lemma_operation_round_trip(op.operation);
        }
    }
    let operation = match Operation::from_bytes(plain.as_slice()) {
        Some(o) => o,
        None => { return Err(EnvelopeError::InvalidOperation); },
    };
    let parents = match vecs_to_arrs32(&header.parents) {
        Some(p) => p,
        None => {
            proof {
                assert forall|op: OpView, n: [u8; 24]|
                    header_carries(header@, op, n) && ciphertext@ == #[trigger] op_ciphertext(op, *vault_key, n)
                    implies false by {
                    lemma_arrs32(op.parents);
                }
            }
            return Err(EnvelopeError::InvalidParentHash);
        },
    };
    let op = Op { id, lamport: header.lamport, parents, operation, timestamp: header.timestamp };
    proof {
        assert forall|o: OpView, n: [u8; 24]|
            header_carries(header@, o, n) && ciphertext@ == #[trigger] op_ciphertext(o, *vault_key, n) && sendable(o)
            implies op@ == o by {
            lemma_arrs32(o.parents);
        }
    }
    Ok(op)
}

} // verus!
