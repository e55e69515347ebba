//! Operations as the network layer sends them: the canonical bytes of the
//! operation encrypted under a key derived from the operation id and the
//! sender's public key, behind a header signed by the sender; and the
//! checks made on one received.
//!
//! What is received is not the inverse of what is sent: the signature is
//! checked over the header with its signature in place (the sender signs
//! it with an empty one), and the body is read from the ciphertext past its
//! first 24 bytes without decrypting it.

use vstd::prelude::*;
use crate::clock::{utc_seconds_representable, utc_seconds_valid};
use crate::codec::bytes_list_view;
use crate::crypto::{
    blake3_digest, blake3_hash, ed25519_check_public, ed25519_key_ok, ed25519_signature, ed25519_valid, ed25519_verify,
    encrypt, generate_nonce, xchacha_max_blocks, xchacha_seal, DeviceKey,
};
use crate::envelope::{concat_bytes, signed_bytes, unsigned_header};
use crate::events::{arr32, cids_to_vecs, operation_bytes, operation_from_bytes, Op, OpView, Operation, OperationView};
use crate::ids::{op_id_bytes, slice_subrange, OpId};
use crate::protobuf::{op_header_encoding, OpEnvelope, OpEnvelopeView, OpHeader, OpHeaderView};

verus! {

/// Why a received operation was refused.
#[derive(Clone, Copy, Debug, PartialEq, Eq, Structural)]
pub enum TransmissionError {
    /// The envelope has no header.
    MissingHeader,
    /// The signature is not 64 bytes long.
    InvalidSignatureLength,
    /// The signer's key is not a public key.
    InvalidSignerKey,
    /// The signature does not verify under the signer's key.
    SignatureVerificationFailed,
    /// The ciphertext is shorter than 24 bytes.
    InvalidCiphertextLength,
    /// The body is not an operation.
    InvalidOperation,
    /// The operation id is not 40 bytes long.
    InvalidOpId,
    /// The time is not one that can be represented.
    InvalidTimestamp,
    /// The operation is too long to encrypt.
    EncryptionFailed,
}

/// The key an operation is sent under: the BLAKE3 hash of its id and the
/// sender's public key.
pub open spec fn transmission_key(id: OpId, signer: [u8; 32]) -> [u8; 32] {
    blake3_digest(op_id_bytes(id) + signer@)
}

/// The envelope in which an operation is sent, encrypted with a nonce and
/// signed by the sender.
pub open spec fn transmission_envelope(op: OpView, secret: [u8; 32], signer: [u8; 32], nonce: [u8; 24]) -> OpEnvelopeView {
    let ct = xchacha_seal(transmission_key(op.id, signer)@, nonce@, operation_bytes(op.operation));
    let h = unsigned_header(op, signer, nonce);
    OpEnvelopeView {
        header: Some(OpHeaderView { sig: ed25519_signature(secret@, signed_bytes(h, ct))@, ..h }),
        ciphertext: ct,
    }
}

/// Whether the checks on a received envelope pass up to reading its
/// parents: a signed, verified header, a body that reads as an operation,
/// and an id of 40 bytes.
pub open spec fn reaches_parents(e: OpEnvelopeView) -> bool {
    e.header matches Some(h) && {
        &&& h.sig.len() == 64
        &&& ed25519_key_ok(h.signer.take(32))
        &&& ed25519_valid(h.signer.take(32), op_header_encoding(h) + e.ciphertext, h.sig)
        &&& e.ciphertext.len() >= 24
        &&& operation_from_bytes(e.ciphertext.skip(24)) is Some
        &&& h.op_id.len() == 40
    }
}

/// How the checks on a received envelope end: the first that fails, or the
/// body read past the first 24 bytes of the ciphertext.
pub open spec fn received_outcome(e: OpEnvelopeView) -> Result<OperationView, TransmissionError> {
    match e.header {
        None => Err(TransmissionError::MissingHeader),
        Some(h) => if h.sig.len() != 64 {
            Err(TransmissionError::InvalidSignatureLength)
        } else if !ed25519_key_ok(h.signer.take(32)) {
            Err(TransmissionError::InvalidSignerKey)
        } else if !ed25519_valid(h.signer.take(32), op_header_encoding(h) + e.ciphertext, h.sig) {
            Err(TransmissionError::SignatureVerificationFailed)
        } else if e.ciphertext.len() < 24 {
            Err(TransmissionError::InvalidCiphertextLength)
        } else {
            match operation_from_bytes(e.ciphertext.skip(24)) {
                None => Err(TransmissionError::InvalidOperation),
                Some(o) => if h.op_id.len() != 40 {
                    Err(TransmissionError::InvalidOpId)
                } else if !utc_seconds_representable(h.timestamp) {
                    Err(TransmissionError::InvalidTimestamp)
                } else {
                    Ok(o)
                },
            }
        },
    }
}

/// The parents named by a header: the first 32 bytes of each.
pub open spec fn header_parents(h: OpHeaderView) -> Seq<[u8; 32]> {
    Seq::new(h.parents.len(), |i: int| arr32(h.parents[i].take(32)))
}

/// Encrypts an operation for sending with a given nonce and signs its
/// header with the device key.
pub fn encrypt_operation_for_transmission_with(op: &Op, device_key: &DeviceKey, nonce: [u8; 24]) -> (r: Result<OpEnvelope, TransmissionError>)
    ensures
        operation_bytes(op@.operation).len() / 64 < xchacha_max_blocks() ==> (r matches Ok(e)
            && e@ == transmission_envelope(op@, device_key.secret_key(), device_key.public_key(), nonce)),
        operation_bytes(op@.operation).len() / 64 >= xchacha_max_blocks()
            ==> r == Err::<OpEnvelope, TransmissionError>(TransmissionError::EncryptionFailed),
{
    let op_id_bytes = op.id.to_bytes();
    let signer = device_key.public_key_bytes();
    let material = concat_bytes(&op_id_bytes, &vstd::slice::slice_to_vec(signer.as_slice()));
    let key = blake3_hash(material.as_slice());
    let body = op.operation.to_bytes();
    let ciphertext = match encrypt(&key, &nonce, body.as_slice()) {
        Ok(c) => c,
        Err(_) => { return Err(TransmissionError::EncryptionFailed); },
    };
    let header = OpHeader {
        op_id: op_id_bytes,
        lamport: op.lamport,
        parents: cids_to_vecs(&op.parents),
        signer: vstd::slice::slice_to_vec(signer.as_slice()),
        sig: Vec::new(),
        timestamp: op.timestamp,
        nonce: vstd::slice::slice_to_vec(nonce.as_slice()),
    };
    let encoded = header.encode_to_vec();
    let to_sign = concat_bytes(&encoded, &ciphertext);
    let sig = device_key.sign(to_sign.as_slice());
    let mut signed_header = header;
    signed_header.sig = vstd::slice::slice_to_vec(sig.as_slice());
    let e = OpEnvelope { header: Some(signed_header), ciphertext };
    proof {
        let h = unsigned_header(op@, device_key.public_key(), nonce);
        assert(OpHeaderView { sig: Seq::empty(), ..h } == h);
        assert(e@ == transmission_envelope(op@, device_key.secret_key(), device_key.public_key(), nonce));
    }
    Ok(e)
}

/// Encrypts an operation for sending with a random nonce and signs its
/// header with the device key.
pub fn encrypt_operation_for_transmission(op: &Op, device_key: &DeviceKey) -> (r: Result<OpEnvelope, TransmissionError>)
    ensures
        operation_bytes(op@.operation).len() / 64 < xchacha_max_blocks() ==> (r matches Ok(e)
            && exists|nonce: [u8; 24]| e@ == #[trigger] transmission_envelope(op@, device_key.secret_key(), device_key.public_key(), nonce)),
        operation_bytes(op@.operation).len() / 64 >= xchacha_max_blocks()
            ==> r == Err::<OpEnvelope, TransmissionError>(TransmissionError::EncryptionFailed),
{
    let nonce = generate_nonce();
    encrypt_operation_for_transmission_with(op, device_key, nonce)
}

/// Checks a received envelope and rebuilds its operation: the header must
/// be there with a 64-byte signature that verifies, under the first 32
/// bytes of the signer field, over the encoded header and the ciphertext;
/// the body is read past the first 24 bytes of the ciphertext; the id must
/// be 40 bytes and the time representable. Each parent is the first 32
/// bytes of its field.
pub fn decrypt_and_verify_operation(envelope: &OpEnvelope) -> (r: Result<Op, TransmissionError>)
    requires
        envelope@.header is Some && envelope@.header->0.sig.len() == 64 ==> envelope@.header->0.signer.len() >= 32,
        reaches_parents(envelope@) ==> forall|i: int| 0 <= i < envelope@.header->0.parents.len()
            ==> (#[trigger] envelope@.header->0.parents[i]).len() >= 32,
    ensures
        match received_outcome(envelope@) {
            Err(e) => r == Err::<Op, TransmissionError>(e),
            Ok(b) => r matches Ok(o) && {
                let h = envelope@.header->0;
                &&& op_id_bytes(o@.id) == h.op_id
                &&& o@.lamport == h.lamport
                &&& o@.parents == header_parents(h)
                &&& o@.operation == b
                &&& o@.timestamp == h.timestamp
            },
        },
{
    let header = match &envelope.header {
        Some(h) => h,
        None => { return Err(TransmissionError::MissingHeader); },
    };
    let encoded = header.encode_to_vec();
    let to_verify = concat_bytes(&encoded, &envelope.ciphertext);
    if header.sig.len() != 64 {
        return Err(TransmissionError::InvalidSignatureLength);
    }
    let sig = crate::envelope::bytes_to_arr64(header.sig.as_slice());
    let signer = crate::ids::bytes32_from_slice(slice_subrange(header.signer.as_slice(), 0, 32));
    proof { assert(signer@ =~= header@.signer.take(32)); }
    if !ed25519_check_public(&signer) {
        return Err(TransmissionError::InvalidSignerKey);
    }
    if !ed25519_verify(&signer, to_verify.as_slice(), &sig) {
        return Err(TransmissionError::SignatureVerificationFailed);
    }
    if envelope.ciphertext.len() < 24 {
        return Err(TransmissionError::InvalidCiphertextLength);
    }
    let body = slice_subrange(envelope.ciphertext.as_slice(), 24, envelope.ciphertext.len());
    proof { assert(body@ =~= envelope@.ciphertext.skip(24)); }
    let operation = match Operation::from_bytes(body) {
        Some(o) => o,
        None => { return Err(TransmissionError::InvalidOperation); },
    };
    let id = match OpId::from_bytes(header.op_id.as_slice()) {
        Ok(id) => id,
        Err(_) => { return Err(TransmissionError::InvalidOpId); },
    };
    let mut parents: Vec<[u8; 32]> = Vec::new();
    let mut i: usize = 0;
    while i < header.parents.len()
        invariant
            i <= header@.parents.len(),
            forall|j: int| 0 <= j < header@.parents.len() ==> (#[trigger] header@.parents[j]).len() >= 32,
            parents@ == header_parents(header@).take(i as int),
        decreases header@.parents.len() - i,
    {
        proof { assert(header.parents@[i as int]@ == header@.parents[i as int]); }
        let p = crate::ids::bytes32_from_slice(slice_subrange(header.parents[i].as_slice(), 0, 32));
        proof {
            crate::events::lemma_arr32(p);
            assert(p@ =~= header@.parents[i as int].take(32));
        }
        parents.push(p);
        i = i + 1;
        proof { assert(parents@ =~= header_parents(header@).take(i as int)); }
    }
    proof { assert(header_parents(header@).take(i as int) =~= header_parents(header@)); }
    if !utc_seconds_valid(header.timestamp) {
        return Err(TransmissionError::InvalidTimestamp);
    }
    Ok(Op::new(id, header.lamport, parents, operation, header.timestamp))
}

} // verus!
