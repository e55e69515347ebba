//! Identifiers: message ids and operation ids.

use vstd::prelude::*;
use vstd::bytes::*;

verus! {

/// Copies a 32-byte slice into an array.
pub fn bytes32_from_slice(s: &[u8]) -> (out: [u8; 32])
    requires
        s@.len() == 32,
    ensures
        out@ == s@,
{
    let mut out = [0u8; 32];
    let mut i: usize = 0;
    while i < 32
        invariant
            i <= 32,
            s@.len() == 32,
            out@.len() == 32,
            forall|j: int| 0 <= j < i ==> out@[j] == s@[j],
        decreases 32 - i,
    {
        out[i] = s[i];
        i = i + 1;
    }
    assert(out@ =~= s@);
    out
}

/// Unique identifier of a message: 32 raw bytes.
#[derive(Clone, Copy, Debug, PartialEq, Eq, Hash)]
pub struct MessageId(pub [u8; 32]);

/// 32 random bytes (`rand::thread_rng().fill`). Nothing is stated of
/// them: they are chance.
#[verifier::external_body]
pub(crate) fn random_bytes32() -> [u8; 32] {
    let mut bytes = [0u8; 32];
    rand::Rng::fill(&mut rand::thread_rng(), &mut bytes);
    bytes
}

impl MessageId {
    /// A new random message id.
    pub fn new() -> (id: MessageId) {
        MessageId(random_bytes32())
    }

    /// Creates a message id from its bytes.
    pub fn from_bytes(bytes: [u8; 32]) -> (id: MessageId)
        ensures
            id.0 == bytes,
    {
        MessageId(bytes)
    }

    /// The bytes of the id.
    pub fn as_bytes(&self) -> (b: &[u8; 32])
        ensures
            *b == self.0,
    {
        &self.0
    }
}

/// Identifier of an operation: the public key of the device that made it
/// and that device's counter.
#[derive(Clone, Copy, Debug, PartialEq, Eq, Hash)]
pub struct OpId {
    pub device_pubkey: [u8; 32],
    pub counter: u64,
}

/// The 40-byte form of an operation id: the key, then the counter in
/// little-endian order.
pub open spec fn op_id_bytes(id: OpId) -> Seq<u8> {
    id.device_pubkey@ + spec_u64_to_le_bytes(id.counter)
}

/// Why bytes do not form an operation id.
#[derive(Clone, Copy, Debug, PartialEq, Eq, Structural)]
pub enum OpIdError {
    /// The input is not exactly 40 bytes long.
    InvalidLength,
}

/// The text that an error reads as.
pub open spec fn op_id_error_text(e: OpIdError) -> Seq<char> {
    match e {
        OpIdError::InvalidLength => "Sync error: Invalid OpId length"@,
    }
}

impl OpIdError {
    /// The text of the error.
    pub fn message(&self) -> (r: String)
        ensures
            r@ == op_id_error_text(*self),
    {
        match self {
            OpIdError::InvalidLength => String::from_str("Sync error: Invalid OpId length"),
        }
    }
}

impl OpId {
    /// Creates an operation id.
    pub fn new(device_pubkey: [u8; 32], counter: u64) -> (id: OpId)
        ensures
            id.device_pubkey == device_pubkey,
            id.counter == counter,
    {
        OpId { device_pubkey, counter }
    }

    /// Serialises the id to 40 bytes.
    pub fn to_bytes(&self) -> (bytes: Vec<u8>)
        ensures
            bytes@ == op_id_bytes(*self),
            bytes@.len() == 40,
    {
        proof {
            lemma_auto_spec_u64_to_from_le_bytes();
        }
        let mut bytes: Vec<u8> = Vec::with_capacity(40);
        let mut i: usize = 0;
        while i < 32
            invariant
                i <= 32,
                bytes@ =~= self.device_pubkey@.subrange(0, i as int),
            decreases 32 - i,
        {
            bytes.push(self.device_pubkey[i]);
            i = i + 1;
        }
        let mut counter_bytes = u64_to_le_bytes(self.counter);
        bytes.append(&mut counter_bytes);
        assert(bytes@ =~= op_id_bytes(*self));
        bytes
    }

    /// Parses an id from exactly 40 bytes.
    pub fn from_bytes(bytes: &[u8]) -> (res: Result<OpId, OpIdError>)
        ensures
            bytes@.len() != 40 ==> res == Err::<OpId, OpIdError>(OpIdError::InvalidLength),
            bytes@.len() == 40 ==> (res matches Ok(id) && op_id_bytes(id) == bytes@),
    {
        if bytes.len() != 40 {
            return Err(OpIdError::InvalidLength);
        }
        proof {
            lemma_auto_spec_u64_to_from_le_bytes();
        }
        let device_pubkey = bytes32_from_slice(slice_subrange(bytes, 0, 32));
        let counter = u64_from_le_bytes(slice_subrange(bytes, 32, 40));
        let id = OpId { device_pubkey, counter };
        assert(bytes@.subrange(32, 40).len() == 8);
        assert(op_id_bytes(id) =~= bytes@);
        Ok(id)
    }
}

/// A sub-slice, by index range.
pub fn slice_subrange(s: &[u8], start: usize, end: usize) -> (out: &[u8])
    requires
        start <= end <= s@.len(),
    ensures
        out@ == s@.subrange(start as int, end as int),
{
    let (left, _) = s.split_at(end);
    let (_, mid) = left.split_at(start);
    assert(mid@ =~= s@.subrange(start as int, end as int));
    mid
}

/// Encoding an id and decoding the bytes gives back the same id.
pub proof fn lemma_op_id_round_trip(id: OpId)
    ensures
        forall|b: Seq<u8>| b == op_id_bytes(id) ==> b.len() == 40,
        forall|other: OpId| op_id_bytes(other) == op_id_bytes(id) ==> other == id,
{
    lemma_auto_spec_u64_to_from_le_bytes();
    assert forall|other: OpId| op_id_bytes(other) == op_id_bytes(id) implies other == id by {
        assert(other.device_pubkey@ =~= op_id_bytes(other).subrange(0, 32));
        assert(id.device_pubkey@ =~= op_id_bytes(id).subrange(0, 32));
        assert(spec_u64_to_le_bytes(other.counter) =~= op_id_bytes(other).subrange(32, 40));
        assert(spec_u64_to_le_bytes(id.counter) =~= op_id_bytes(id).subrange(32, 40));
        assert(other.device_pubkey@ == id.device_pubkey@);
        assert(other.device_pubkey == id.device_pubkey);
    }
}

} // verus!
