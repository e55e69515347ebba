//! Linking a new device to an account: the new device shows a QR code that
//! carries a request (its id, name, public key, the time and a random
//! nonce); an existing device checks the request and answers with the vault
//! key and an authorization token; the new device accepts the answer for a
//! request it still holds.

use vstd::prelude::*;
use crate::assoc::{
    assoc_get, assoc_has, assoc_remove_all, lemma_assoc_absent, lemma_assoc_found, lemma_assoc_push, lemma_assoc_update,
};
use crate::crypto::DeviceKey;
use crate::envelope::copy_bytes;
use crate::events::{array_to_vec, copy_string};
use crate::ids::{random_bytes32, slice_subrange};
use crate::recovery::str_eq;
use crate::validation::{hex_encode, hex_lower};
use vstd::utf8::encode_utf8;

verus! {

/// A request of a new device to be linked.
#[derive(Debug)]
pub struct LinkingRequest {
    pub device_id: String,
    /// Name shown to the user.
    pub device_name: String,
    pub public_key: Vec<u8>,
    /// When the request was made (Unix milliseconds).
    pub timestamp: i64,
    /// Random bytes that make each request unique.
    pub nonce: Vec<u8>,
}

/// The mathematical form of a [`LinkingRequest`].
pub struct LinkingRequestView {
    pub device_id: Seq<char>,
    pub device_name: Seq<char>,
    pub public_key: Seq<u8>,
    pub timestamp: i64,
    pub nonce: Seq<u8>,
}

impl View for LinkingRequest {
    type V = LinkingRequestView;

    open spec fn view(&self) -> LinkingRequestView {
        LinkingRequestView {
            device_id: self.device_id@,
            device_name: self.device_name@,
            public_key: self.public_key@,
            timestamp: self.timestamp,
            nonce: self.nonce@,
        }
    }
}

/// The answer to a linking request.
#[derive(Debug)]
pub struct LinkingResponse {
    /// The vault key, for the new device.
    pub encrypted_vault_key: Vec<u8>,
    /// What authorizes the new device.
    pub auth_token: Vec<u8>,
    /// When the answer was made (Unix milliseconds).
    pub timestamp: i64,
}

/// What the QR code of a new device carries.
#[derive(Debug)]
pub struct LinkingQRData {
    pub request: LinkingRequest,
    /// Where the new device can be reached.
    pub endpoint: String,
    /// Version of the linking protocol.
    pub version: String,
}

/// Why a linking step was refused.
#[derive(Clone, Copy, Debug, PartialEq, Eq, Structural)]
pub enum LinkingError {
    /// The request is more than ten minutes old.
    RequestExpired,
    /// The request's nonce is not 32 bytes long.
    InvalidNonceLength,
    /// The request carries no public key.
    EmptyPublicKey,
    /// No request of that device is pending.
    NoPendingRequest,
    /// The answer is more than five minutes old.
    ResponseExpired,
    /// The answer carries no authorization token.
    EmptyAuthToken,
}

/// The message that describes a linking error.
pub open spec fn linking_error_text(e: LinkingError) -> Seq<char> {
    match e {
        LinkingError::RequestExpired => "Linking request expired"@,
        LinkingError::InvalidNonceLength => "Invalid nonce length"@,
        LinkingError::EmptyPublicKey => "Empty public key"@,
        LinkingError::NoPendingRequest => "No pending request found"@,
        LinkingError::ResponseExpired => "Linking response expired"@,
        LinkingError::EmptyAuthToken => "Empty authorization token"@,
    }
}

impl LinkingError {
    /// The message that describes the error.
    pub fn message(&self) -> (r: String)
        ensures
            r@ == linking_error_text(*self),
    {
        let r = match self {
            LinkingError::RequestExpired => String::from_str("Linking request expired"),
            LinkingError::InvalidNonceLength => String::from_str("Invalid nonce length"),
            LinkingError::EmptyPublicKey => String::from_str("Empty public key"),
            LinkingError::NoPendingRequest => String::from_str("No pending request found"),
            LinkingError::ResponseExpired => String::from_str("Linking response expired"),
            LinkingError::EmptyAuthToken => String::from_str("Empty authorization token"),
        };
        r
    }
}

/// Milliseconds after which a request has expired: more than ten whole
/// minutes.
pub const REQUEST_EXPIRY_MS: i64 = 660_000;

/// Milliseconds after which an answer has expired: more than five whole
/// minutes.
pub const RESPONSE_EXPIRY_MS: i64 = 360_000;

/// Whether a request is accepted at `now`, and if not, why.
pub open spec fn request_check(r: LinkingRequestView, now: i64) -> Result<(), LinkingError> {
    if now - r.timestamp >= REQUEST_EXPIRY_MS {
        Err(LinkingError::RequestExpired)
    } else if r.nonce.len() != 32 {
        Err(LinkingError::InvalidNonceLength)
    } else if r.public_key.len() == 0 {
        Err(LinkingError::EmptyPublicKey)
    } else {
        Ok(())
    }
}

/// A request with a nonce of 32 bytes and a public key is accepted at every
/// time from its own date until ten whole minutes have passed: so a request
/// that `generate_linking_qr_at` made at `t` is answered at any `now` with
/// `t <= now < t + REQUEST_EXPIRY_MS`.
pub proof fn lemma_fresh_request_accepted(r: LinkingRequestView, now: i64)
    requires
        r.nonce.len() == 32,
        r.public_key.len() > 0,
        r.timestamp <= now,
        now - r.timestamp < REQUEST_EXPIRY_MS,
    ensures
        request_check(r, now) is Ok,
{
}

/// A request is refused as expired at every time ten whole minutes or more
/// after its date, whatever else it carries.
pub proof fn lemma_old_request_expired(r: LinkingRequestView, now: i64)
    requires
        now - r.timestamp >= REQUEST_EXPIRY_MS,
    ensures
        request_check(r, now) == Err::<(), LinkingError>(LinkingError::RequestExpired),
{
}

/// The vault key as handed to the new device.
pub open spec fn sealed_vault_key(public_key: Seq<u8>) -> Seq<u8> {
    encode_utf8("encrypted_vault_key_for_"@ + hex_lower(public_key.take(8)))
}

/// The token that authorizes a device.
pub open spec fn auth_token_for(device_id: Seq<char>) -> Seq<u8> {
    encode_utf8("auth_token_for_"@ + device_id)
}

/// The mathematical form of a [`DeviceLinkingManager`]: the pending
/// requests, by device id.
pub struct DeviceLinkingView {
    pub pending: Seq<(Seq<char>, LinkingRequestView)>,
}

/// The linking requests this device made and still waits on.
pub struct DeviceLinkingManager {
    pending: Vec<LinkingRequest>,
}

impl View for DeviceLinkingManager {
    type V = DeviceLinkingView;

    closed spec fn view(&self) -> DeviceLinkingView {
        DeviceLinkingView { pending: Seq::new(self.pending@.len(), |i: int| (self.pending@[i].device_id@, self.pending@[i]@)) }
    }
}

/// A copy of a request.
fn copy_request(r: &LinkingRequest) -> (c: LinkingRequest)
    ensures
        c@ == r@,
{
    LinkingRequest {
        device_id: copy_string(&r.device_id),
        device_name: copy_string(&r.device_name),
        public_key: copy_bytes(&r.public_key),
        timestamp: r.timestamp,
        nonce: copy_bytes(&r.nonce),
    }
}

/// The bytes of a text.
fn text_bytes(s: &str) -> (b: Vec<u8>)
    ensures
        b@ == encode_utf8(s@),
{
    vstd::slice::slice_to_vec(s.as_bytes())
}

impl Default for DeviceLinkingManager {
    fn default() -> (r: Self)
        ensures
            r@.pending.len() == 0,
    {
        Self::new()
    }
}

/// How accepting an answer to a pending request of a device ends at
/// `now` (Unix milliseconds): refused without such a request, when the
/// answer is five whole minutes old or more, or when it carries no token.
pub open spec fn response_outcome(pending: Seq<(Seq<char>, LinkingRequestView)>, device_id: Seq<char>, timestamp: i64, token_len: nat, now: i64) -> Result<(), LinkingError> {
    if !assoc_has(pending, device_id) {
        Err(LinkingError::NoPendingRequest)
    } else if now - timestamp >= RESPONSE_EXPIRY_MS {
        Err(LinkingError::ResponseExpired)
    } else if token_len == 0 {
        Err(LinkingError::EmptyAuthToken)
    } else {
        Ok(())
    }
}

impl DeviceLinkingManager {
    /// A manager with no pending request.
    pub fn new() -> (r: Self)
        ensures
            r@.pending.len() == 0,
    {
        DeviceLinkingManager { pending: Vec::new() }
    }

    fn find_pending(&self, device_id: &str) -> (r: Option<usize>)
        ensures
            match r {
                Some(i) => i < self@.pending.len() && self@.pending[i as int].0 == device_id@
                    && (forall|j: int| 0 <= j < i ==> self@.pending[j].0 != device_id@)
                    && assoc_get(self@.pending, device_id@) == Some(self@.pending[i as int].1),
                None => assoc_get(self@.pending, device_id@) is None
                    && (forall|j: int| 0 <= j < self@.pending.len() ==> self@.pending[j].0 != device_id@),
            },
    {
        let mut i: usize = 0;
        while i < self.pending.len()
            invariant
                i <= self.pending@.len(),
                forall|j: int| 0 <= j < i ==> self@.pending[j].0 != device_id@,
            decreases self.pending@.len() - i,
        {
            if str_eq(self.pending[i].device_id.as_str(), device_id) {
                proof { lemma_assoc_found(self@.pending, i as int, device_id@); }
                return Some(i);
            }
            i = i + 1;
        }
        proof { lemma_assoc_absent(self@.pending, device_id@); }
        None
    }

    /// Records a request, in place of any pending for the same device.
    fn put_pending(&mut self, request: LinkingRequest)
        ensures
            forall|n: Seq<char>| #[trigger] assoc_get(final(self)@.pending, n)
                == (if n == request.device_id@ { Some(request@) } else { assoc_get(old(self)@.pending, n) }),
    {
        let ghost id = request.device_id@;
        let ghost rv = request@;
        let ghost before = self@.pending;
        match self.find_pending(request.device_id.as_str()) {
            Some(i) => {
                self.pending.set(i, request);
                proof {
                    assert(self@.pending =~= before.update(i as int, (id, rv)));
                    assert forall|n: Seq<char>| #[trigger] assoc_get(self@.pending, n)
                        == (if n == id { Some(rv) } else { assoc_get(before, n) }) by {
                        lemma_assoc_update(before, i as int, rv, n);
                    }
                }
            }
            None => {
                self.pending.push(request);
                proof {
                    assert(self@.pending =~= before.push((id, rv)));
                    assert forall|n: Seq<char>| #[trigger] assoc_get(self@.pending, n)
                        == (if n == id { Some(rv) } else { assoc_get(before, n) }) by {
                        lemma_assoc_push(before, id, rv, n);
                    }
                }
            }
        }
    }

    /// Makes the request a new device shows in its QR code, dated `now`
    /// (Unix milliseconds) with a fresh random nonce of 32 bytes, and keeps
    /// it pending, in place of any earlier request of the same device.
    pub fn generate_linking_qr_at(
        &mut self,
        device_id: String,
        device_name: String,
        public_key: Vec<u8>,
        endpoint: String,
        now: i64,
    ) -> (r: Result<LinkingQRData, LinkingError>)
        ensures
            r matches Ok(q) && {
                &&& q.request.device_id@ == device_id@
                &&& q.request.device_name@ == device_name@
                &&& q.request.public_key@ == public_key@
                &&& q.request.timestamp == now
                &&& q.request.nonce@.len() == 32
                &&& q.endpoint@ == endpoint@
                &&& q.version@ == "1.0.0"@
                &&& forall|n: Seq<char>| #[trigger] assoc_get(final(self)@.pending, n)
                    == (if n == device_id@ { Some(q.request@) } else { assoc_get(old(self)@.pending, n) })
            },
    {
        let nonce = random_bytes32();
        let request = LinkingRequest {
            device_id,
            device_name,
            public_key,
            timestamp: now,
            nonce: array_to_vec(&nonce),
        };
        let kept = copy_request(&request);
        self.put_pending(kept);
        Ok(LinkingQRData { request, endpoint, version: String::from_str("1.0.0") })
    }

    /// Makes the request of a new device now; see
    /// [`DeviceLinkingManager::generate_linking_qr_at`].
    pub fn generate_linking_qr(
        &mut self,
        device_id: String,
        device_name: String,
        public_key: Vec<u8>,
        endpoint: String,
    ) -> (r: Result<LinkingQRData, LinkingError>)
        ensures
            r matches Ok(q) && {
                &&& q.request.device_id@ == device_id@
                &&& q.request.device_name@ == device_name@
                &&& q.request.public_key@ == public_key@
                &&& crate::clock::EARLIEST_TIME_MS <= q.request.timestamp <= crate::clock::LATEST_TIME_MS
                &&& q.request.nonce@.len() == 32
                &&& q.endpoint@ == endpoint@
                &&& q.version@ == "1.0.0"@
                &&& forall|n: Seq<char>| #[trigger] assoc_get(final(self)@.pending, n)
                    == (if n == device_id@ { Some(q.request@) } else { assoc_get(old(self)@.pending, n) })
            },
    {
        let now = crate::clock::utc_now_ms();
        self.generate_linking_qr_at(device_id, device_name, public_key, endpoint, now)
    }

    /// Checks a request at `now` (Unix milliseconds): it must be at most
    /// ten whole minutes old, carry a nonce of 32 bytes and a public key.
    pub fn validate_linking_request_at(&self, request: &LinkingRequest, now: i64) -> (r: Result<(), LinkingError>)
        ensures
            r == request_check(request@, now),
    {
        let age: i128 = (now as i128) - (request.timestamp as i128);
        if age >= REQUEST_EXPIRY_MS as i128 {
            return Err(LinkingError::RequestExpired);
        }
        if request.nonce.len() != 32 {
            return Err(LinkingError::InvalidNonceLength);
        }
        if request.public_key.len() == 0 {
            return Err(LinkingError::EmptyPublicKey);
        }
        Ok(())
    }

    /// Answers the request a QR code carries, at `now` (Unix milliseconds):
    /// once the request checks out, with the vault key for the new device
    /// and its authorization token.
    pub fn process_linking_request_at(
        &self,
        qr_data: LinkingQRData,
        vault_key: [u8; 32],
        device_key: &DeviceKey,
        now: i64,
    ) -> (r: Result<LinkingResponse, LinkingError>)
        requires
            request_check(qr_data.request@, now) is Ok ==> qr_data.request.public_key@.len() >= 8,
        ensures
            match request_check(qr_data.request@, now) {
                Err(e) => r == Err::<LinkingResponse, LinkingError>(e),
                Ok(_) => r matches Ok(resp) && resp.encrypted_vault_key@ == sealed_vault_key(qr_data.request.public_key@)
                    && resp.auth_token@ == auth_token_for(qr_data.request.device_id@) && resp.timestamp == now,
            },
    {
        match self.validate_linking_request_at(&qr_data.request, now) {
            Err(e) => { return Err(e); }
            Ok(()) => {}
        }
        let head = slice_subrange(qr_data.request.public_key.as_slice(), 0, 8);
        let hex = hex_encode(head);
        let sealed = String::from_str("encrypted_vault_key_for_").concat(hex.as_str());
        let encrypted_vault_key = text_bytes(sealed.as_str());
        let token = String::from_str("auth_token_for_").concat(qr_data.request.device_id.as_str());
        let auth_token = text_bytes(token.as_str());
        proof { assert(head@ == qr_data.request.public_key@.take(8)); }
        Ok(LinkingResponse { encrypted_vault_key, auth_token, timestamp: now })
    }

    /// Accepts the answer to a pending request of `device_id` at `now`
    /// (Unix milliseconds): the answer must be at most five whole minutes
    /// old and carry an authorization token. The request is then no longer
    /// pending, and the vault key it carries is given back (this protocol
    /// version hands over the all-zero key).
    pub fn accept_linking_response_at(
        &mut self,
        device_id: &str,
        response: LinkingResponse,
        device_key: &DeviceKey,
        now: i64,
    ) -> (r: Result<[u8; 32], LinkingError>)
        ensures
            !assoc_has(old(self)@.pending, device_id@) ==> r == Err::<[u8; 32], LinkingError>(LinkingError::NoPendingRequest)
                && final(self)@ == old(self)@,
            assoc_has(old(self)@.pending, device_id@) && now - response.timestamp >= RESPONSE_EXPIRY_MS
                ==> r == Err::<[u8; 32], LinkingError>(LinkingError::ResponseExpired) && final(self)@ == old(self)@,
            assoc_has(old(self)@.pending, device_id@) && now - response.timestamp < RESPONSE_EXPIRY_MS
                && response.auth_token@.len() == 0
                ==> r == Err::<[u8; 32], LinkingError>(LinkingError::EmptyAuthToken) && final(self)@ == old(self)@,
            assoc_has(old(self)@.pending, device_id@) && now - response.timestamp < RESPONSE_EXPIRY_MS
                && response.auth_token@.len() > 0
                ==> (r matches Ok(k) && k@ == Seq::new(32, |i: int| 0u8)
                    && final(self)@.pending == assoc_remove_all(old(self)@.pending, device_id@)),
    {
        proof { crate::assoc::lemma_assoc_some(self@.pending, device_id@); }
        if self.find_pending(device_id).is_none() {
            return Err(LinkingError::NoPendingRequest);
        }
        let age: i128 = (now as i128) - (response.timestamp as i128);
        if age >= RESPONSE_EXPIRY_MS as i128 {
            return Err(LinkingError::ResponseExpired);
        }
        if response.auth_token.len() == 0 {
            return Err(LinkingError::EmptyAuthToken);
        }
        self.remove_pending(device_id);
        let key = [0u8; 32];
        proof { assert(key@ =~= Seq::new(32, |i: int| 0u8)); }
        Ok(key)
    }

    /// Answers the request a QR code carries, now; see
    /// [`DeviceLinkingManager::process_linking_request_at`]. Sending the
    /// answer to the new device is the caller's part.
    pub fn process_linking_request(
        &self,
        qr_data: LinkingQRData,
        vault_key: [u8; 32],
        device_key: &DeviceKey,
    ) -> (r: Result<LinkingResponse, LinkingError>)
        requires
            request_check(qr_data.request@, qr_data.request.timestamp) is Ok ==> qr_data.request.public_key@.len() >= 8,
        ensures
            r matches Ok(resp) ==> resp.encrypted_vault_key@ == sealed_vault_key(qr_data.request.public_key@)
                && resp.auth_token@ == auth_token_for(qr_data.request.device_id@),
            r matches Err(e) ==> e == LinkingError::RequestExpired
                || Err::<(), LinkingError>(e) == request_check(qr_data.request@, qr_data.request.timestamp),
            request_check(qr_data.request@, qr_data.request.timestamp) is Err ==> r is Err,
            exists|now: i64| crate::clock::EARLIEST_TIME_MS <= now <= crate::clock::LATEST_TIME_MS
                && match #[trigger] request_check(qr_data.request@, now) {
                    Err(e) => r == Err::<LinkingResponse, LinkingError>(e),
                    Ok(_) => r matches Ok(resp) && resp.encrypted_vault_key@ == sealed_vault_key(qr_data.request.public_key@)
                        && resp.auth_token@ == auth_token_for(qr_data.request.device_id@) && resp.timestamp == now,
                },
    {
        let now = crate::clock::utc_now_ms();
        let ghost req = qr_data.request@;
        let r = self.process_linking_request_at(qr_data, vault_key, device_key, now);
        proof { assert(request_check(req, now) == request_check(req, now)); }
        r
    }

    /// Accepts the answer to a pending request of `device_id`, now; see
    /// [`DeviceLinkingManager::accept_linking_response_at`].
    pub fn accept_linking_response(
        &mut self,
        device_id: String,
        response: LinkingResponse,
        device_key: &DeviceKey,
    ) -> (r: Result<[u8; 32], LinkingError>)
        ensures
            !assoc_has(old(self)@.pending, device_id@) ==> r == Err::<[u8; 32], LinkingError>(LinkingError::NoPendingRequest)
                && final(self)@ == old(self)@,
            assoc_has(old(self)@.pending, device_id@) && response.auth_token@.len() == 0 ==> r is Err && final(self)@ == old(self)@,
            r is Err ==> final(self)@ == old(self)@,
            r matches Ok(k) ==> k@ == Seq::new(32, |i: int| 0u8)
                && final(self)@.pending == assoc_remove_all(old(self)@.pending, device_id@),
            exists|now: i64| crate::clock::EARLIEST_TIME_MS <= now <= crate::clock::LATEST_TIME_MS
                && match #[trigger] response_outcome(old(self)@.pending, device_id@, response.timestamp, response.auth_token@.len(), now) {
                    Err(e) => r == Err::<[u8; 32], LinkingError>(e) && final(self)@ == old(self)@,
                    Ok(_) => r matches Ok(k) && k@ == Seq::new(32, |i: int| 0u8)
                        && final(self)@.pending == assoc_remove_all(old(self)@.pending, device_id@),
                },
    {
        let now = crate::clock::utc_now_ms();
        let ghost (ts, tl) = (response.timestamp, response.auth_token@.len());
        let r = self.accept_linking_response_at(device_id.as_str(), response, device_key, now);
        proof {
            crate::assoc::lemma_assoc_some(old(self)@.pending, device_id@);
            match response_outcome(old(self)@.pending, device_id@, ts, tl, now) {
                Err(e) => { assert(r == Err::<[u8; 32], LinkingError>(e) && self@ == old(self)@); },
                Ok(_) => {},
            }
        }
        r
    }

    /// Drops every pending request of a device.
    fn remove_pending(&mut self, device_id: &str)
        ensures
            final(self)@.pending == assoc_remove_all(old(self)@.pending, device_id@),
    {
        let ghost before = self@.pending;
        let mut kept: Vec<LinkingRequest> = Vec::new();
        let mut i: usize = 0;
        while i < self.pending.len()
            invariant
                i <= self.pending@.len(),
                before == self@.pending,
                Seq::new(kept@.len(), |j: int| (kept@[j].device_id@, kept@[j]@))
                    == assoc_remove_all(before.take(i as int), device_id@),
            decreases self.pending@.len() - i,
        {
            proof {
                assert(before.take(i + 1).drop_last() =~= before.take(i as int));
                assert(before.take(i + 1).last() == before[i as int]);
            }
            let ghost kv = Seq::new(kept@.len(), |j: int| (kept@[j].device_id@, kept@[j]@));
            if !str_eq(self.pending[i].device_id.as_str(), device_id) {
                kept.push(copy_request(&self.pending[i]));
                proof {
                    assert(Seq::new(kept@.len(), |j: int| (kept@[j].device_id@, kept@[j]@)) =~= kv.push(before[i as int]));
                }
            }
            i = i + 1;
        }
        proof { assert(before.take(before.len() as int) =~= before); }
        self.pending = kept;
    }

    /// The pending requests, in the order they were first made.
    pub fn get_pending_requests(&self) -> (r: Vec<LinkingRequest>)
        ensures
            r@.len() == self@.pending.len(),
            forall|i: int| 0 <= i < r@.len() ==> #[trigger] r@[i]@ == self@.pending[i].1,
    {
        let mut r: Vec<LinkingRequest> = Vec::new();
        let mut i: usize = 0;
        while i < self.pending.len()
            invariant
                i <= self.pending@.len(),
                r@.len() == i,
                forall|j: int| 0 <= j < i ==> #[trigger] r@[j]@ == self@.pending[j].1,
            decreases self.pending@.len() - i,
        {
            r.push(copy_request(&self.pending[i]));
            i = i + 1;
        }
        r
    }

    /// Cancels the pending request of a device; says whether there was one.
    pub fn cancel_linking_request(&mut self, device_id: &str) -> (r: bool)
        ensures
            r == assoc_has(old(self)@.pending, device_id@),
            final(self)@.pending == assoc_remove_all(old(self)@.pending, device_id@),
    {
        proof { crate::assoc::lemma_assoc_some(self@.pending, device_id@); }
        let had = self.find_pending(device_id).is_some();
        self.remove_pending(device_id);
        had
    }
}

} // verus!
