//! The daemon's answer to a control request, over the account it serves.
//!
//! `process_request_at` decides the answer and changes the account. What
//! needs the file system, or JSON for a type of the library, it hands back
//! as a [`FileAction`] for the host to perform; two of them continue in
//! [`send_message_with_files_at`] and [`accept_device_link_at`].

use vstd::prelude::*;
use vstd::string::StrSliceExecFns;
use vstd::string::StringExecFns;
use crate::account::{
    account_secret, linking_cert, linking_device_id, listed_device, revoked_invalid, AccountError,
    AccountKeys, AccountKeysView, DeviceInfoView, QrPayload, QrPayloadView, CERT_LIFETIME_S,
    QR_LIFETIME_S,
};
use crate::crypto::ed25519_key_ok;
use crate::daemon::{
    decimal_value, digits_u8, first_bad_part, id_parts, is_decimal_digit, is_id_punctuation, is_white_space,
    parse_u8_spec, split_commas, strip_back, strip_front, trim_by,
};
use crate::peers::{connect_outcome, copy_texts, PeerTableView};
use crate::sync::{logged_locally, SyncView};
use crate::assoc::{assoc_get, assoc_remove_all, lemma_assoc_absent, lemma_assoc_found};
use crate::attachments::{
    attachment_views, chunks_of, oldest_first, row_with_id, rows_selected, rows_where_id,
    chunks_without, Attachment, AttachmentStore, AttachmentView, RowFilter,
};
use crate::chunks::{open_stored, ChunkSyncManager, ChunkSyncView};
use crate::crypto::{CryptoError, DeviceKey};
use crate::events::{copy_string, OperationView};
use crate::daemon::{
    parse_message_id, AttachmentInfo, DaemonRequest, DaemonResponse,
    DeviceInfo, DiscoveredPeerInfo, MessageInfo, PeerInfo,
};
use crate::discovery::{scan_applied, NetworkControls};
use crate::ids::MessageId;
use crate::peers::{
    id_head_ok, peer_ids_where, texts_view, NetworkError, PeerInfoView, PeerTable,
};
use crate::recovery::{str_eq, ErrorRecoveryManager};
use crate::sync::{undeleted, Message, MessageView, SyncManager};
use crate::types::{AttachmentStatus, ConnectionState, PeerHealth};
use crate::text::{decimal_text, digit_char, push_digit};

verus! {

// ---------------------------------------------------------------------
// Texts
// ---------------------------------------------------------------------

/// The text that `chrono` writes for a time in Unix seconds with the format
/// `%Y-%m-%d %H:%M:%S UTC` (empty when `chrono` cannot represent it).
pub uninterp spec fn utc_seconds_text(secs: i64) -> Seq<char>;

/// The text that `chrono` writes for a time in Unix milliseconds with the
/// format `%Y-%m-%d %H:%M:%S UTC` (empty when `chrono` cannot represent it).
pub uninterp spec fn utc_millis_text(ms: i64) -> Seq<char>;

/// The text that the standard library's `Debug` writes for a string: the
/// string between double quotes, with its special characters escaped.
pub uninterp spec fn quoted_text(s: Seq<char>) -> Seq<char>;

/// A time in Unix seconds as `chrono::DateTime::from_timestamp` and its
/// `format` write it; a function of the seconds alone.
#[verifier::external_body]
fn format_utc_seconds(secs: i64) -> (r: String)
    ensures
        r@ == utc_seconds_text(secs),
{
    match chrono::DateTime::from_timestamp(secs, 0) {
        Some(t) => t.format("%Y-%m-%d %H:%M:%S UTC").to_string(),
        None => String::new(),
    }
}

/// A time in Unix milliseconds as `chrono::DateTime::from_timestamp_millis`
/// and its `format` write it; a function of the milliseconds alone.
#[verifier::external_body]
fn format_utc_millis(ms: i64) -> (r: String)
    ensures
        r@ == utc_millis_text(ms),
{
    match chrono::DateTime::from_timestamp_millis(ms) {
        Some(t) => t.format("%Y-%m-%d %H:%M:%S UTC").to_string(),
        None => String::new(),
    }
}

/// A string as the standard library's `Debug` writes it (`format!("{:?}")`);
/// a function of the string alone.
#[verifier::external_body]
fn quote_text(s: &str) -> (r: String)
    ensures
        r@ == quoted_text(s@),
{
    format!("{:?}", s)
}

/// Bytes written in decimal, separated by `", "`.
pub open spec fn byte_list_text(b: Seq<u8>) -> Seq<char>
    decreases b.len(),
{
    if b.len() == 0 {
        Seq::empty()
    } else if b.len() == 1 {
        decimal_text(b[0] as nat)
    } else {
        byte_list_text(b.drop_last()) + ", "@ + decimal_text(b.last() as nat)
    }
}

/// A message id as its derived `Debug` writes it: `MessageId([1, 2, ...])`.
pub open spec fn message_id_text(id: [u8; 32]) -> Seq<char> {
    "MessageId(["@ + byte_list_text(id@) + "])"@
}

fn push_decimal(out: &mut String, b: u8)
    ensures
        final(out)@ == old(out)@ + decimal_text(b as nat),
{
    let ghost o = out@;
    if b >= 100 {
        push_digit(out, b / 100);
    }
    if b >= 10 {
        push_digit(out, (b / 10) % 10);
    }
    push_digit(out, b % 10);
    proof {
        reveal_with_fuel(decimal_text, 3);
        let n = b as nat;
        if b >= 100 {
            assert(decimal_text(n / 100) =~= seq![digit_char((b / 100) as int)]);
            assert(decimal_text(n / 10) =~= decimal_text((n / 10) / 10) + seq![digit_char(((n / 10) % 10) as int)]);
            assert((n / 10) / 10 == n / 100);
            assert(out@ =~= o + decimal_text(n));
        } else if b >= 10 {
            assert(out@ =~= o + decimal_text(n));
        } else {
            assert(out@ =~= o + decimal_text(n));
        }
    }
}

/// The `Debug` text of a message id.
pub fn message_id_debug(id: &MessageId) -> (r: String)
    ensures
        r@ == message_id_text(id.0),
{
    let mut out = String::from_str("MessageId([");
    let mut i: usize = 0;
    while i < 32
        invariant
            i <= 32,
            out@ == "MessageId(["@ + byte_list_text(id.0@.take(i as int)),
        decreases 32 - i,
    {
        let ghost before = out@;
        if i > 0 {
            out.append(", ");
        }
        push_decimal(&mut out, id.0[i]);
        proof {
            let t = id.0@.take(i as int + 1);
            assert(t.drop_last() =~= id.0@.take(i as int));
            assert(t.last() == id.0@[i as int]);
            if i == 0 {
                assert(t.len() == 1);
                assert(byte_list_text(id.0@.take(0)) =~= Seq::<char>::empty());
                assert(out@ =~= "MessageId(["@ + byte_list_text(t));
            } else {
                assert(out@ =~= "MessageId(["@ + byte_list_text(t));
            }
        }
        i = i + 1;
    }
    proof { assert(id.0@.take(32) =~= id.0@); }
    out.append("])");
    out
}

/// The name of a connection state, as its `Debug` writes it.
pub open spec fn connection_state_name(s: ConnectionState) -> Seq<char> {
    match s {
        ConnectionState::Disconnected => "Disconnected"@,
        ConnectionState::Connecting => "Connecting"@,
        ConnectionState::Connected => "Connected"@,
        ConnectionState::Failed => "Failed"@,
    }
}

fn connection_state_text(s: ConnectionState) -> (r: String)
    ensures
        r@ == connection_state_name(s),
{
    match s {
        ConnectionState::Disconnected => String::from_str("Disconnected"),
        ConnectionState::Connecting => String::from_str("Connecting"),
        ConnectionState::Connected => String::from_str("Connected"),
        ConnectionState::Failed => String::from_str("Failed"),
    }
}

/// The name of a peer's health, as its `Debug` writes it.
pub open spec fn health_name(h: PeerHealth) -> Seq<char> {
    match h {
        PeerHealth::Healthy => "Healthy"@,
        PeerHealth::Degraded => "Degraded"@,
        PeerHealth::Unhealthy => "Unhealthy"@,
        PeerHealth::Unknown => "Unknown"@,
    }
}

fn health_text(h: PeerHealth) -> (r: String)
    ensures
        r@ == health_name(h),
{
    match h {
        PeerHealth::Healthy => String::from_str("Healthy"),
        PeerHealth::Degraded => String::from_str("Degraded"),
        PeerHealth::Unhealthy => String::from_str("Unhealthy"),
        PeerHealth::Unknown => String::from_str("Unknown"),
    }
}

/// The name of an attachment status, as its `Debug` writes it.
pub open spec fn status_name(s: AttachmentStatus) -> Seq<char> {
    match s {
        AttachmentStatus::Active => "Active"@,
        AttachmentStatus::Deleted => "Deleted"@,
        AttachmentStatus::Purged => "Purged"@,
    }
}

fn status_text(s: AttachmentStatus) -> (r: String)
    ensures
        r@ == status_name(s),
{
    match s {
        AttachmentStatus::Active => String::from_str("Active"),
        AttachmentStatus::Deleted => String::from_str("Deleted"),
        AttachmentStatus::Purged => String::from_str("Purged"),
    }
}

/// A prefix followed by a detail.
fn prefixed(prefix: &str, detail: String) -> (r: String)
    ensures
        r@ == prefix@ + detail@,
{
    String::from_str(prefix).concat(detail.as_str())
}

// ---------------------------------------------------------------------
// The account and what the host does for it
// ---------------------------------------------------------------------

/// What the daemon serves: this device's key, its replica, its peers, its
/// chunks and attachments, its account keys and its network switches.
pub struct DaemonAccount {
    pub device_key: DeviceKey,
    pub sync: SyncManager,
    pub peers: PeerTable,
    pub chunks: ChunkSyncManager,
    pub recovery: ErrorRecoveryManager,
    pub attachments: AttachmentStore,
    pub keys: AccountKeys,
    pub controls: NetworkControls,
}

impl DaemonAccount {
    /// Whether the account is well formed: its replica is, and its peer
    /// table holds each peer once.
    pub open spec fn wf(&self) -> bool {
        &&& self.sync.wf()
        &&& crate::peers::ids_distinct(self.peers@)
    }

    /// A new account for a device, with the given keys and vault key: an
    /// empty replica, no peer, no chunk, no attachment, the network
    /// switches at their defaults.
    pub fn new(device_key: DeviceKey, keys: AccountKeys, vault_key: [u8; 32]) -> (r: Self)
        ensures
            r.wf(),
            r.sync@.log.ops.len() == 0,
            r.sync@.messages.len() == 0,
            r.sync@.vault_key == vault_key,
            r.sync@.device_pubkey == device_key.public_key(),
            r.keys@ == keys@,
    {
        let pubkey = device_key.public_key_bytes();
        DaemonAccount {
            device_key,
            sync: SyncManager::new(pubkey, vault_key),
            peers: PeerTable::new(String::from_str("SAVED"), String::from_str("_saved._tcp")),
            chunks: ChunkSyncManager::new(vault_key),
            recovery: ErrorRecoveryManager::new(),
            attachments: AttachmentStore::new(),
            keys,
            controls: NetworkControls::new(),
        }
    }
}

/// Work that the host does for a request before it answers: the file
/// system, and JSON for the library's types.
pub enum FileAction {
    /// Store each file as chunks, then finish with
    /// [`send_message_with_files_at`].
    StoreFiles { content: String, paths: Vec<String> },
    /// Put this payload, written as JSON, in the `DeviceLink` answer.
    EncodeQr(QrPayload),
    /// Read this text as a JSON QR payload and finish with
    /// [`accept_device_link_at`]; text that does not parse is answered with
    /// an error.
    DecodeQr(String),
    /// Write these bytes to the file; once written, the attachment is marked
    /// accessed and the answer stands.
    WriteAttachment { attachment_id: i64, output_path: String, data: Vec<u8> },
    /// Write the messages and devices, as JSON, to the file.
    WriteExport {
        output_path: String,
        messages: Vec<Message>,
        devices: Vec<crate::account::DeviceInfo>,
        exported_at: i64,
    },
    /// Read the file as JSON and answer with the number of its messages.
    ReadImport { input_path: String },
}

/// A file stored as chunks for a message.
pub struct StoredFile {
    pub filename: String,
    pub size: u64,
    pub file_hash: [u8; 32],
    pub chunk_ids: Vec<[u8; 32]>,
}

// ---------------------------------------------------------------------
// What an answer shows
// ---------------------------------------------------------------------

/// The view of an optional text.
pub open spec fn opt_text(o: Option<String>) -> Option<Seq<char>> {
    match o {
        Some(s) => Some(s@),
        None => None,
    }
}

/// Whether every authorized device can be listed: listing names each by
/// the first eight bytes of its id, which must end a character.
pub open spec fn devices_listable(k: AccountKeysView) -> bool {
    forall|i: int| 0 <= i < k.authorized.len() ==> id_head_ok(#[trigger] k.authorized[i].0)
}

/// Whether a device's entry shows a listed device.
pub open spec fn device_shows(d: DeviceInfo, l: DeviceInfoView) -> bool {
    &&& d.device_id@ == l.device_id
    &&& d.device_name@ == l.device_name
    &&& d.is_authorized == l.is_authorized
    &&& d.last_seen@ == utc_seconds_text(l.last_seen)
    &&& d.is_online == l.is_online
}

/// Whether entries show the authorized devices, in order.
pub open spec fn devices_shown(v: Seq<DeviceInfo>, k: AccountKeysView) -> bool {
    &&& v.len() == k.authorized.len()
    &&& forall|i: int| 0 <= i < v.len() ==> device_shows(#[trigger] v[i], listed_device(k.authorized[i]))
}

/// The messages that a replica shows: those not deleted, in order.
pub open spec fn shown_messages(s: SyncView) -> Seq<MessageView> {
    undeleted(s.messages.map_values(|e: ([u8; 32], MessageView)| e.1))
}

/// Whether an entry shows a message.
pub open spec fn message_shows(i: MessageInfo, m: MessageView) -> bool {
    &&& i.id@ == message_id_text(m.id)
    &&& i.content@ == m.content
    &&& i.created_at@ == utc_millis_text(m.created_at)
    &&& i.edited_at is None
    &&& i.is_deleted == m.is_deleted
}

/// Whether entries show the messages of a replica, in order.
pub open spec fn messages_shown(v: Seq<MessageInfo>, s: SyncView) -> bool {
    &&& v.len() == shown_messages(s).len()
    &&& forall|k: int| 0 <= k < v.len() ==> message_shows(#[trigger] v[k], shown_messages(s)[k])
}

/// The ids of the connected peers, in table order.
pub open spec fn connected_ids(p: PeerTableView) -> Seq<Seq<char>> {
    peer_ids_where(p.peers, |q: PeerInfoView| q.connection_state == ConnectionState::Connected)
}

/// Whether an entry shows a connected peer at time `now`.
pub open spec fn peer_shows(i: PeerInfo, id: Seq<char>, p: PeerTableView, now: i64) -> bool {
    &&& i.device_id@ == id
    &&& i.device_name@ == id
    &&& opt_text(i.connection_state) == (match assoc_get(p.peers, id) {
        Some(q) => Some(connection_state_name(q.connection_state)),
        None => None,
    })
    &&& opt_text(i.health) == (match assoc_get(p.peers, id) {
        Some(q) => Some(health_name(q.health)),
        None => None,
    })
    &&& i.last_seen@ == utc_millis_text(now)
}

/// Whether an entry shows a discovered peer.
pub open spec fn discovered_shows(i: DiscoveredPeerInfo, d: crate::peers::DiscoveryInfoView) -> bool {
    &&& i.device_id@ == d.device_id
    &&& i.service_type@ == quoted_text(d.service_type)
    &&& texts_view(i.addresses@) == d.addresses
}

/// Whether an entry shows an attachment.
pub open spec fn attachment_shows(i: AttachmentInfo, a: AttachmentView) -> bool {
    &&& i.id == a.id
    &&& i.message_id@ == message_id_text(a.message_id)
    &&& i.filename@ == a.filename
    &&& i.size == a.size
    &&& opt_text(i.mime_type) == a.mime_type
    &&& i.status@ == status_name(a.status)
    &&& i.created_at@ == utc_seconds_text(a.created_at)
    &&& opt_text(i.last_accessed) == (match a.last_accessed {
        Some(t) => Some(utc_seconds_text(t)),
        None => None,
    })
}

/// The attachments that the store lists: all of them, oldest first.
pub open spec fn listed_attachments(s: crate::attachments::AttachmentStoreView) -> Seq<AttachmentView> {
    oldest_first(rows_selected(s.rows, RowFilter::All))
}

/// Whether an answer is an error with exactly this text.
pub open spec fn is_error(r: DaemonResponse, text: Seq<char>) -> bool {
    r matches DaemonResponse::Error(t) && t@ == text
}

/// Whether a text is a message id, as `parse_message_id` reads it.
pub open spec fn id_text_ok(s: Seq<char>) -> bool {
    id_parts(s).len() == 32 && first_bad_part(id_parts(s), 0) is None
}

/// Whether `id` is the message id that a text gives.
pub open spec fn id_of_text(s: Seq<char>, id: [u8; 32]) -> bool {
    forall|k: int| 0 <= k < 32 ==> Some(#[trigger] id[k]) == parse_u8_spec(trim_by(id_parts(s)[k], |c: char| is_white_space(c)))
}

/// The keys after the authorized devices are checked against the account
/// key, or why the check failed.
pub open spec fn keys_verified(k: AccountKeysView) -> Result<AccountKeysView, AccountError> {
    match k.key_info {
        None => Ok(k),
        Some(i) => if k.authorized.len() > 0 && !ed25519_key_ok(i.public_key@) {
            Err(AccountError::Crypto(CryptoError::InvalidPublicKey))
        } else {
            Ok(AccountKeysView { authorized: revoked_invalid(k.authorized, k.authorized, i.public_key), ..k })
        },
    }
}

/// Whether a request can be answered without a panic: a listing of the
/// devices, and a connection, name a device by the first eight bytes of its
/// id, which must end a character.
pub open spec fn request_ok(a: DaemonAccount, request: DaemonRequest) -> bool {
    match request {
        DaemonRequest::Status => devices_listable(a.keys@),
        DaemonRequest::DeviceList => devices_listable(a.keys@),
        DaemonRequest::DeviceInfo { .. } => devices_listable(a.keys@),
        DaemonRequest::AccountExport { .. } => devices_listable(a.keys@),
        DaemonRequest::PeerConnect { device_id, .. } => id_head_ok(device_id@),
        _ => true,
    }
}

// ---------------------------------------------------------------------
// Listings
// ---------------------------------------------------------------------

fn optional_text(o: &Option<String>) -> (r: Option<String>)
    ensures
        opt_text(r) == opt_text(*o),
{
    match o {
        Some(t) => Some(copy_string(t)),
        None => None,
    }
}

fn list_devices(keys: &AccountKeys) -> (v: Vec<DeviceInfo>)
    requires
        devices_listable(keys@),
    ensures
        devices_shown(v@, keys@),
{
    let ds = keys.list_authorized_devices();
    let mut v: Vec<DeviceInfo> = Vec::new();
    let mut i: usize = 0;
    while i < ds.len()
        invariant
            i <= ds@.len(),
            ds@.len() == keys@.authorized.len(),
            forall|j: int| 0 <= j < ds@.len() ==> #[trigger] ds@[j]@ == listed_device(keys@.authorized[j]),
            v@.len() == i,
            forall|j: int| 0 <= j < i ==> device_shows(#[trigger] v@[j], listed_device(keys@.authorized[j])),
        decreases ds@.len() - i,
    {
        let d = &ds[i];
        let info = DeviceInfo {
            device_id: copy_string(&d.device_id),
            device_name: copy_string(&d.device_name),
            is_authorized: d.is_authorized,
            last_seen: format_utc_seconds(d.last_seen),
            is_online: d.is_online,
        };
        proof { assert(ds@[i as int]@ == listed_device(keys@.authorized[i as int])); }
        v.push(info);
        i = i + 1;
    }
    v
}

fn list_messages(sync: &SyncManager) -> (v: Vec<MessageInfo>)
    ensures
        messages_shown(v@, sync@),
{
    let ms = sync.get_all_messages();
    let ghost shown = shown_messages(sync@);
    proof { assert(Seq::new(ms@.len(), |i: int| ms@[i]@) == shown); }
    let mut v: Vec<MessageInfo> = Vec::new();
    let mut i: usize = 0;
    while i < ms.len()
        invariant
            i <= ms@.len(),
            shown == shown_messages(sync@),
            ms@.len() == shown.len(),
            forall|j: int| 0 <= j < ms@.len() ==> #[trigger] ms@[j]@ == shown[j],
            v@.len() == i,
            forall|j: int| 0 <= j < i ==> message_shows(#[trigger] v@[j], shown[j]),
        decreases ms@.len() - i,
    {
        let m = &ms[i];
        let info = MessageInfo {
            id: message_id_debug(&m.id),
            content: copy_string(&m.content),
            created_at: format_utc_millis(m.created_at),
            edited_at: None,
            is_deleted: m.is_deleted,
        };
        proof { assert(ms@[i as int]@ == shown[i as int]); }
        v.push(info);
        i = i + 1;
    }
    v
}

fn list_connected(peers: &PeerTable, now: i64) -> (v: Vec<PeerInfo>)
    ensures
        v@.len() == connected_ids(peers@).len(),
        forall|k: int| 0 <= k < v@.len() ==> peer_shows(#[trigger] v@[k], connected_ids(peers@)[k], peers@, now),
{
    let ids = peers.get_connected_peers();
    let mut v: Vec<PeerInfo> = Vec::new();
    let mut i: usize = 0;
    while i < ids.len()
        invariant
            i <= ids@.len(),
            texts_view(ids@) == connected_ids(peers@),
            v@.len() == i,
            forall|k: int| 0 <= k < i ==> peer_shows(#[trigger] v@[k], connected_ids(peers@)[k], peers@, now),
        decreases ids@.len() - i,
    {
        let id = &ids[i];
        let state = match peers.get_peer_connection_state(id.as_str()) {
            Some(s) => Some(connection_state_text(s)),
            None => None,
        };
        let health = match peers.get_peer_health(id.as_str()) {
            Some(h) => Some(health_text(h)),
            None => None,
        };
        let info = PeerInfo {
            device_id: copy_string(id),
            device_name: copy_string(id),
            connection_state: state,
            health,
            last_seen: format_utc_millis(now),
        };
        proof { assert(texts_view(ids@)[i as int] == ids@[i as int]@); }
        v.push(info);
        i = i + 1;
    }
    v
}

fn list_discovered(peers: &PeerTable) -> (v: Vec<DiscoveredPeerInfo>)
    ensures
        v@.len() == peers@.discovered.len(),
        forall|k: int| 0 <= k < v@.len() ==> discovered_shows(#[trigger] v@[k], peers@.discovered[k].1),
{
    let ds = peers.get_discovered_peers();
    proof {
        let a = Seq::new(ds@.len(), |i: int| ds@[i]@);
        let b = Seq::new(peers@.discovered.len(), |i: int| peers@.discovered[i].1);
        assert(a == b);
        assert(a.len() == b.len());
        assert forall|j: int| 0 <= j < ds@.len() implies #[trigger] ds@[j]@ == peers@.discovered[j].1 by {
            assert(a[j] == b[j]);
        }
    }
    let mut v: Vec<DiscoveredPeerInfo> = Vec::new();
    let mut i: usize = 0;
    while i < ds.len()
        invariant
            i <= ds@.len(),
            ds@.len() == peers@.discovered.len(),
            forall|j: int| 0 <= j < ds@.len() ==> #[trigger] ds@[j]@ == peers@.discovered[j].1,
            v@.len() == i,
            forall|k: int| 0 <= k < i ==> discovered_shows(#[trigger] v@[k], peers@.discovered[k].1),
        decreases ds@.len() - i,
    {
        let d = &ds[i];
        let info = DiscoveredPeerInfo {
            device_id: copy_string(&d.device_id),
            service_type: quote_text(d.service_type.as_str()),
            addresses: copy_texts(&d.addresses),
        };
        proof {
            assert(Seq::new(ds@.len(), |j: int| ds@[j]@)[i as int] == ds@[i as int]@);
            assert(ds@[i as int]@ == peers@.discovered[i as int].1);
        }
        v.push(info);
        i = i + 1;
    }
    v
}

fn list_attachments(store: &AttachmentStore) -> (v: Vec<AttachmentInfo>)
    ensures
        v@.len() == listed_attachments(store@).len(),
        forall|k: int| 0 <= k < v@.len() ==> attachment_shows(#[trigger] v@[k], listed_attachments(store@)[k]),
{
    let all = store.get_all_attachments();
    let ghost listed = listed_attachments(store@);
    proof { assert(attachment_views(all@) == listed); }
    let mut v: Vec<AttachmentInfo> = Vec::new();
    let mut i: usize = 0;
    while i < all.len()
        invariant
            i <= all@.len(),
            listed == listed_attachments(store@),
            attachment_views(all@) == listed,
            v@.len() == i,
            forall|k: int| 0 <= k < i ==> attachment_shows(#[trigger] v@[k], listed[k]),
        decreases all@.len() - i,
    {
        let a = &all[i];
        let last = match a.last_accessed {
            Some(t) => Some(format_utc_seconds(t)),
            None => None,
        };
        let info = AttachmentInfo {
            id: a.id,
            message_id: message_id_debug(&a.message_id),
            filename: copy_string(&a.filename),
            size: a.size,
            mime_type: optional_text(&a.mime_type),
            status: status_text(a.status),
            created_at: format_utc_seconds(a.created_at),
            last_accessed: last,
        };
        proof {
            assert(attachment_views(all@)[i as int] == all@[i as int]@);
        }
        v.push(info);
        i = i + 1;
    }
    proof { assert(v@.len() == listed.len()); }
    v
}

// ---------------------------------------------------------------------
// Answers
// ---------------------------------------------------------------------

/// Whether a message was created in a replica with this id, content and
/// chunks at time `now`: the creation is logged as an operation of the
/// replica, the message is shown and not deleted, every other message is
/// unchanged.
pub open spec fn message_created(before: SyncView, after: SyncView, id: [u8; 32], content: Seq<char>, cids: Seq<[u8; 32]>, now: i64) -> bool {
    &&& exists|h: [u8; 32]| #[trigger] logged_locally(before, after, OperationView::CreateMessage {
        msg_id: id, feed_id: "default"@, body: content, attachments: cids, created_at: now,
    }, now, h)
    &&& assoc_get(after.messages, id) == Some(MessageView { id, content, created_at: now, is_deleted: false, is_purged: false })
    &&& forall|n: [u8; 32]| n != id ==> assoc_get(after.messages, n) == assoc_get(before.messages, n)
}

/// The chunk ids of stored files, one file after another.
pub open spec fn all_chunk_ids(files: Seq<StoredFile>) -> Seq<[u8; 32]>
    decreases files.len(),
{
    if files.len() == 0 {
        Seq::empty()
    } else {
        all_chunk_ids(files.drop_last()) + files.last().chunk_ids@
    }
}

/// Sends a message whose files have been stored as chunks, at time `now`
/// (Unix milliseconds): the message is created under a new random id with
/// every chunk id, and an attachment is recorded for each file. Answers
/// with the message's id, or with an error once the attachment ids run out.
pub fn send_message_with_files_at(account: &mut DaemonAccount, content: String, files: Vec<StoredFile>, now: i64) -> (r: DaemonResponse)
    requires
        old(account).wf(),
    ensures
        final(account).wf(),
        exists|id: [u8; 32]| {
            &&& #[trigger] message_created(old(account).sync@, final(account).sync@, id, content@, all_chunk_ids(files@), now)
            &&& r matches DaemonResponse::MessageSent { message_id } ==> message_id@ == message_id_text(id)
        },
        r is MessageSent || is_error(r, "Failed to send message: Storage error: No attachment id is left"@),
        old(account).attachments@.last_id + files@.len() <= i64::MAX ==> r is MessageSent,
        final(account).attachments@.rows.len() <= old(account).attachments@.rows.len() + files@.len(),
        files@.len() == 0 ==> final(account).attachments == old(account).attachments,
        final(account).peers == old(account).peers,
        final(account).keys == old(account).keys,
        final(account).controls == old(account).controls,
        final(account).chunks == old(account).chunks,
        final(account).recovery == old(account).recovery,
        final(account).device_key == old(account).device_key,
{
    let mut cids: Vec<[u8; 32]> = Vec::new();
    let mut i: usize = 0;
    while i < files.len()
        invariant
            i <= files@.len(),
            cids@ == all_chunk_ids(files@.take(i as int)),
        decreases files@.len() - i,
    {
        let ghost c0 = cids@;
        let ids = &files[i].chunk_ids;
        let mut j: usize = 0;
        while j < ids.len()
            invariant
                j <= ids@.len(),
                cids@ == c0 + ids@.take(j as int),
            decreases ids@.len() - j,
        {
            cids.push(ids[j]);
            j = j + 1;
            proof { assert(cids@ =~= c0 + ids@.take(j as int)); }
        }
        proof {
            assert(ids@.take(ids@.len() as int) =~= ids@);
            assert(files@.take(i as int + 1).drop_last() =~= files@.take(i as int));
        }
        i = i + 1;
    }
    proof { assert(files@.take(files@.len() as int) =~= files@); }
    let ghost body = content@;
    let id = MessageId::new();
    account.sync.create_message_at(id, content, cids, now);
    let now_s = now / 1000;
    let ghost sync1 = account.sync;
    let ghost last0 = account.attachments@.last_id;
    let ghost rows0 = account.attachments@.rows.len();
    let mut k: usize = 0;
    let mut failed = false;
    while k < files.len() && !failed
        invariant
            k <= files@.len(),
            account.sync == sync1,
            sync1.wf(),
            message_created(old(account).sync@, sync1@, id.0, body, all_chunk_ids(files@), now),
            account.attachments@.last_id == last0 + k,
            account.attachments@.rows.len() == rows0 + k,
            last0 == old(account).attachments@.last_id,
            rows0 == old(account).attachments@.rows.len(),
            failed ==> last0 + files@.len() > i64::MAX,
            account.peers == old(account).peers,
            account.keys == old(account).keys,
            account.controls == old(account).controls,
            account.chunks == old(account).chunks,
            account.recovery == old(account).recovery,
            account.device_key == old(account).device_key,
            files@.len() == 0 ==> account.attachments == old(account).attachments,
        decreases files@.len() - k + (if failed { 0int } else { 1int }),
    {
        let f = &files[k];
        match account.attachments.store_attachment_at(&id, f.filename.as_str(), f.size, &f.file_hash, None, &f.chunk_ids, now_s) {
            Ok(_) => {
                k = k + 1;
            },
            Err(_) => {
                failed = true;
            },
        }
    }
    let r = if failed {
        DaemonResponse::Error(String::from_str("Failed to send message: Storage error: No attachment id is left"))
    } else {
        DaemonResponse::MessageSent { message_id: message_id_debug(&id) }
    };
    proof { assert(message_created(old(account).sync@, account.sync@, id.0, body, all_chunk_ids(files@), now)); }
    r
}

/// Links the device whose QR payload was read, at time `now_s` (Unix
/// seconds): answers with the device, or with why the link failed.
pub fn accept_device_link_at(account: &mut DaemonAccount, payload: QrPayload, now_s: i64) -> (r: DaemonResponse)
    ensures
        match crate::account::link_outcome(old(account).keys@, payload@, now_s) {
            Err(e) => is_error(r, "Failed to accept device link: "@ + crate::account::account_error_text(e))
                && final(account).keys@ == old(account).keys@,
            Ok(_) if !id_head_ok(payload.device_id@) =>
                is_error(r, "Failed to accept device link: "@ + crate::account::account_error_text(AccountError::InvalidDeviceId))
                && final(account).keys@ == old(account).keys@,
            Ok(authorized) => {
                &&& r matches DaemonResponse::DeviceAccepted { device_id, device_name }
                    && device_id@ == crate::account::linked_device(payload@, now_s, authorized).device_id
                    && device_name@ == crate::account::linked_device(payload@, now_s, authorized).device_name
                &&& authorized ==> final(account).keys@ == (AccountKeysView {
                    authorized: crate::account::stored_device(old(account).keys@.authorized, payload.device_id@, payload@.device_cert->0),
                    ..old(account).keys@
                })
                &&& !authorized ==> final(account).keys@ == old(account).keys@
            },
        },
        final(account).sync == old(account).sync,
        final(account).peers == old(account).peers,
        final(account).attachments == old(account).attachments,
        final(account).controls == old(account).controls,
{
    match account.keys.accept_link_at(payload, now_s) {
        Ok(d) => DaemonResponse::DeviceAccepted { device_id: d.device_id, device_name: d.device_name },
        Err(e) => DaemonResponse::Error(prefixed("Failed to accept device link: ", e.message())),
    }
}

/// What reading an attachment's chunks in order gives: their plaintexts
/// one after another, or the first failure.
pub enum Gathered {
    Data(Seq<u8>),
    /// A chunk is not stored here.
    Missing,
    /// A chunk does not open under the key of its id.
    Unreadable,
}

/// Reads chunks in order, stopping at the first that fails.
pub open spec fn gathered(c: ChunkSyncView, ids: Seq<[u8; 32]>) -> Gathered
    decreases ids.len(),
{
    if ids.len() == 0 {
        Gathered::Data(Seq::empty())
    } else {
        match gathered(c, ids.drop_last()) {
            Gathered::Data(d) => match assoc_get(c.chunks, ids.last()) {
                None => Gathered::Missing,
                Some(s) => match open_stored(c.vault_key, ids.last(), s) {
                    Some(p) => Gathered::Data(d + p),
                    None => Gathered::Unreadable,
                },
            },
            other => other,
        }
    }
}

fn copy_device(d: &DeviceInfo) -> (r: DeviceInfo)
    ensures
        r.device_id@ == d.device_id@,
        r.device_name@ == d.device_name@,
        r.is_authorized == d.is_authorized,
        r.last_seen@ == d.last_seen@,
        r.is_online == d.is_online,
{
    DeviceInfo {
        device_id: copy_string(&d.device_id),
        device_name: copy_string(&d.device_name),
        is_authorized: d.is_authorized,
        last_seen: copy_string(&d.last_seen),
        is_online: d.is_online,
    }
}

fn find_device(keys: &AccountKeys, device_id: &str) -> (r: Option<DeviceInfo>)
    requires
        devices_listable(keys@),
    ensures
        match assoc_get(keys@.authorized, device_id@) {
            Some(c) => r matches Some(d) && device_shows(d, listed_device((device_id@, c))),
            None => r is None,
        },
{
    let v = list_devices(keys);
    let mut i: usize = 0;
    while i < v.len()
        invariant
            i <= v@.len(),
            devices_shown(v@, keys@),
            forall|j: int| 0 <= j < i ==> keys@.authorized[j].0 != device_id@,
        decreases v@.len() - i,
    {
        proof { assert(device_shows(v@[i as int], listed_device(keys@.authorized[i as int]))); }
        if str_eq(v[i].device_id.as_str(), device_id) {
            proof {
                lemma_assoc_found(keys@.authorized, i as int, device_id@);
            }
            return Some(copy_device(&v[i]));
        }
        i = i + 1;
    }
    proof { lemma_assoc_absent(keys@.authorized, device_id@); }
    None
}

fn read_attachment(account: &DaemonAccount, attachment_id: i64) -> (r: Result<Vec<u8>, DaemonResponse>)
    ensures
        match gathered(account.chunks@, chunks_of(account.attachments@.chunks, attachment_id)) {
            Gathered::Data(d) => r matches Ok(v) && v@ == d,
            Gathered::Missing => r matches Err(e) && is_error(e, "Chunk not found"@),
            Gathered::Unreadable => r matches Err(e) && is_error(e, "Failed to get chunk: Cryptography error: Decryption failed: aead::Error"@),
        },
{
    let ids = account.attachments.get_attachment_chunks(attachment_id);
    let mut data: Vec<u8> = Vec::new();
    let mut i: usize = 0;
    while i < ids.len()
        invariant
            i <= ids@.len(),
            ids@ == chunks_of(account.attachments@.chunks, attachment_id),
            gathered(account.chunks@, ids@.take(i as int)) == Gathered::Data(data@),
        decreases ids@.len() - i,
    {
        proof { assert(ids@.take(i as int + 1).drop_last() =~= ids@.take(i as int)); }
        match account.chunks.get_chunk(&ids[i]) {
            Ok(Some(p)) => {
                let ghost d0 = data@;
                let mut j: usize = 0;
                while j < p.len()
                    invariant
                        j <= p@.len(),
                        data@ == d0 + p@.take(j as int),
                    decreases p@.len() - j,
                {
                    data.push(p[j]);
                    j = j + 1;
                    proof { assert(data@ =~= d0 + p@.take(j as int)); }
                }
                proof { assert(p@.take(p@.len() as int) =~= p@); }
            },
            Ok(None) => {
                proof {
                    assert(gathered(account.chunks@, ids@.take(i as int + 1)) == Gathered::Missing);
                    lemma_gathered_stops(account.chunks@, ids@, i as int + 1);
                    assert(ids@.take(ids@.len() as int) =~= ids@);
                }
                return Err(DaemonResponse::Error(String::from_str("Chunk not found")));
            },
            Err(_) => {
                proof {
                    assert(gathered(account.chunks@, ids@.take(i as int + 1)) == Gathered::Unreadable);
                    lemma_gathered_stops(account.chunks@, ids@, i as int + 1);
                    assert(ids@.take(ids@.len() as int) =~= ids@);
                }
                return Err(DaemonResponse::Error(String::from_str("Failed to get chunk: Cryptography error: Decryption failed: aead::Error")));
            },
        }
        i = i + 1;
    }
    proof { assert(ids@.take(ids@.len() as int) =~= ids@); }
    Ok(data)
}

/// Once reading stops at a failure, reading more chunks gives the same.
proof fn lemma_gathered_stops(c: ChunkSyncView, ids: Seq<[u8; 32]>, k: int)
    requires
        0 <= k <= ids.len(),
        !(gathered(c, ids.take(k)) is Data),
    ensures
        forall|m: int| k <= m <= ids.len() ==> #[trigger] gathered(c, ids.take(m)) == gathered(c, ids.take(k)),
    decreases ids.len() - k,
{
    if k < ids.len() {
        assert(ids.take(k + 1).drop_last() =~= ids.take(k));
        lemma_gathered_stops(c, ids, k + 1);
    }
}

/// Whether a device was revoked: its authorization removed and its peer
/// entry dropped, everything else kept.
pub open spec fn device_revoked(a0: DaemonAccount, a1: DaemonAccount, device_id: Seq<char>) -> bool {
    &&& a1.keys@ == (AccountKeysView { authorized: assoc_remove_all(a0.keys@.authorized, device_id), ..a0.keys@ })
    &&& a1.peers@ == (PeerTableView { peers: assoc_remove_all(a0.peers@.peers, device_id), ..a0.peers@ })
    &&& a1.sync == a0.sync
    &&& a1.attachments == a0.attachments
    &&& a1.controls == a0.controls
}

/// Whether only the replica changed.
pub open spec fn only_sync_changed(a0: DaemonAccount, a1: DaemonAccount) -> bool {
    &&& a1.peers == a0.peers
    &&& a1.keys == a0.keys
    &&& a1.attachments == a0.attachments
    &&& a1.controls == a0.controls
}

/// What a request about a message by its id text does: with a text that is
/// not an id, nothing, and the answer is an error; else `changed` holds of
/// the id it gives.
pub open spec fn by_message_id(
    a0: DaemonAccount,
    a1: DaemonAccount,
    text: Seq<char>,
    r: DaemonResponse,
    changed: spec_fn([u8; 32]) -> bool,
) -> bool {
    if id_text_ok(text) {
        &&& exists|id: [u8; 32]| #[trigger] id_of_text(text, id) && changed(id)
        &&& only_sync_changed(a0, a1)
    } else {
        a1 == a0 && is_error(r, "Invalid message ID format"@)
    }
}

fn revoke_device(account: &mut DaemonAccount, device_id: &str)
    ensures
        device_revoked(*old(account), *final(account), device_id@),
        crate::peers::ids_distinct(old(account).peers@) ==> crate::peers::ids_distinct(final(account).peers@),
        final(account).chunks == old(account).chunks,
        final(account).recovery == old(account).recovery,
        final(account).device_key == old(account).device_key,
{
    account.keys.revoke_device_authorization(device_id);
    account.peers.force_disconnect_peer(device_id);
}

/// Answers a control request at time `now` (Unix milliseconds), changing
/// the account as the request asks. Work on files, and JSON for the
/// library's types, comes back as a [`FileAction`] for the host.
pub fn process_request_at(account: &mut DaemonAccount, request: DaemonRequest, now: i64) -> (r: (DaemonResponse, Option<FileAction>))
    requires
        old(account).wf(),
        request_ok(*old(account), request),
    ensures
        final(account).wf(),
        final(account).chunks == old(account).chunks,
        final(account).recovery == old(account).recovery,
        final(account).device_key == old(account).device_key,
        request is Status ==> {
            &&& *final(account) == *old(account)
            &&& r.1 is None
            &&& r.0 matches DaemonResponse::Status {
                device_id, device_name, authorized, last_seen, connected_peers, discovered_peers, total_messages, total_devices,
            } && device_id@ == "local-device"@ && device_name@ == "Local Device"@ && authorized
                && last_seen@ == utc_millis_text(now)
                && connected_peers == connected_ids(old(account).peers@).len()
                && discovered_peers == old(account).peers@.discovered.len()
                && total_messages == shown_messages(old(account).sync@).len()
                && total_devices == old(account).keys@.authorized.len()
        },
        request is DeviceList ==> {
            &&& *final(account) == *old(account)
            &&& r.1 is None
            &&& r.0 matches DaemonResponse::DeviceList(v) && devices_shown(v@, old(account).keys@)
        },
        request matches DaemonRequest::DeviceInfo { device_id } ==> {
            &&& *final(account) == *old(account)
            &&& r.1 is None
            &&& r.0 matches DaemonResponse::DeviceInfo(o) && match assoc_get(old(account).keys@.authorized, device_id@) {
                Some(c) => o matches Some(d) && device_shows(d, listed_device((device_id@, c))),
                None => o is None,
            }
        },
        request is DeviceLink ==> {
            &&& *final(account) == *old(account)
            &&& match account_secret(old(account).keys@) {
                Err(e) => r.1 is None && is_error(r.0, "Failed to create linking QR: "@ + crate::account::account_error_text(e)),
                Ok(sk) => {
                    &&& r.0 matches DaemonResponse::DeviceLink { qr_payload } && qr_payload@.len() == 0
                    &&& r.1 matches Some(FileAction::EncodeQr(q)) && exists|t: i64, b: [u8; 32]| t <= i64::MAX - CERT_LIFETIME_S && #[trigger] q@ == (QrPayloadView {
                        device_id: linking_device_id(old(account).device_key.public_key()),
                        addresses: Seq::empty(),
                        onboarding_token: crate::validation::hex_lower(b@),
                        expires_at: (t + QR_LIFETIME_S) as i64,
                        device_cert: Some(linking_cert(sk, old(account).device_key.public_key(), t)),
                    })
                },
            }
        },
        request matches DaemonRequest::DeviceAccept { qr_payload } ==> {
            &&& *final(account) == *old(account)
            &&& r.1 matches Some(FileAction::DecodeQr(t)) && t@ == qr_payload@
        },
        request matches DaemonRequest::DeviceRevoke { device_id } ==>
            device_revoked(*old(account), *final(account), device_id@) && r.0 is Success && r.1 is None,
        request matches DaemonRequest::PeerDisconnect { device_id } ==>
            device_revoked(*old(account), *final(account), device_id@) && r.0 is Success && r.1 is None,
        request is PeerList ==> {
            &&& *final(account) == *old(account)
            &&& r.1 is None
            &&& r.0 matches DaemonResponse::PeerList { connected, discovered }
                && connected@.len() == connected_ids(old(account).peers@).len()
                && (forall|k: int| 0 <= k < connected@.len() ==> peer_shows(#[trigger] connected@[k], connected_ids(old(account).peers@)[k], old(account).peers@, now))
                && discovered@.len() == old(account).peers@.discovered.len()
                && (forall|k: int| 0 <= k < discovered@.len() ==> discovered_shows(#[trigger] discovered@[k], old(account).peers@.discovered[k].1))
        },
        request matches DaemonRequest::PeerConnect { device_id, addresses } ==> {
            &&& r.1 is None
            &&& exists|res: Result<(), NetworkError>| #[trigger] connect_outcome(old(account).peers@, device_id@, texts_view(addresses@), now, res, final(account).peers@)
                && match res {
                    Ok(()) => r.0 is Success,
                    Err(e) => is_error(r.0, "Failed to connect to peer: "@ + crate::peers::network_error_text(e)),
                }
            &&& final(account).sync == old(account).sync
            &&& final(account).keys == old(account).keys
            &&& final(account).attachments == old(account).attachments
            &&& final(account).controls == old(account).controls
        },
        (request is PeerScan || request is NetworkScan) ==> {
            &&& r.1 is None
            &&& r.0 matches DaemonResponse::NetworkScanned { discovered_count } && discovered_count <= 8
                && scan_applied(old(account).peers@, final(account).peers@, discovered_count as nat)
            &&& final(account).sync == old(account).sync
            &&& final(account).keys == old(account).keys
            &&& final(account).attachments == old(account).attachments
            &&& final(account).controls == old(account).controls
        },
        request is MessageList ==> {
            &&& *final(account) == *old(account)
            &&& r.1 is None
            &&& r.0 matches DaemonResponse::MessageList(v) && messages_shown(v@, old(account).sync@)
        },
        request matches DaemonRequest::MessageSend { content, attachments } ==> if attachments@.len() == 0 {
            &&& r.1 is None
            &&& only_sync_changed(*old(account), *final(account))
            &&& exists|id: [u8; 32]| #[trigger] message_created(old(account).sync@, final(account).sync@, id, content@, Seq::empty(), now)
                && (r.0 matches DaemonResponse::MessageSent { message_id } && message_id@ == message_id_text(id))
        } else {
            &&& *final(account) == *old(account)
            &&& r.1 matches Some(FileAction::StoreFiles { content: c, paths }) && c@ == content@ && texts_view(paths@) == texts_view(attachments@)
        },
        request matches DaemonRequest::MessageEdit { message_id, new_content } ==> r.1 is None
            && by_message_id(*old(account), *final(account), message_id@, r.0, |id: [u8; 32]| {
                &&& assoc_get(final(account).sync@.messages, id) == (match assoc_get(old(account).sync@.messages, id) {
                    Some(m) => Some(MessageView { content: new_content@, ..m }),
                    None => None,
                })
                &&& forall|n: [u8; 32]| n != id ==> assoc_get(final(account).sync@.messages, n) == assoc_get(old(account).sync@.messages, n)
                &&& r.0 matches DaemonResponse::MessageEdited { message_id: m } && m@ == message_id@
                &&& exists|h: [u8; 32]| #[trigger] logged_locally(old(account).sync@, final(account).sync@,
                    OperationView::EditMessage { msg_id: id, body: new_content@, edited_at: now }, now, h)
            }),
        request matches DaemonRequest::MessageDelete { message_id } ==> r.1 is None
            && by_message_id(*old(account), *final(account), message_id@, r.0, |id: [u8; 32]| {
                &&& assoc_get(final(account).sync@.messages, id) == (match assoc_get(old(account).sync@.messages, id) {
                    Some(m) => Some(MessageView { is_deleted: true, ..m }),
                    None => None,
                })
                &&& forall|n: [u8; 32]| n != id ==> assoc_get(final(account).sync@.messages, n) == assoc_get(old(account).sync@.messages, n)
                &&& r.0 is Success
                &&& exists|h: [u8; 32]| #[trigger] logged_locally(old(account).sync@, final(account).sync@,
                    OperationView::DeleteMessage { msg_id: id, reason: None, deleted_at: now }, now, h)
            }),
        request matches DaemonRequest::MessagePurge { message_id } ==> r.1 is None
            && by_message_id(*old(account), *final(account), message_id@, r.0, |id: [u8; 32]| {
                &&& assoc_get(final(account).sync@.messages, id) is None
                &&& forall|n: [u8; 32]| n != id ==> assoc_get(final(account).sync@.messages, n) == assoc_get(old(account).sync@.messages, n)
                &&& r.0 is Success
                &&& exists|h: [u8; 32]| #[trigger] logged_locally(old(account).sync@, final(account).sync@,
                    OperationView::Purge { msg_id: id, timestamp: now }, now, h)
            }),
        request is AttachmentList ==> {
            &&& *final(account) == *old(account)
            &&& r.1 is None
            &&& r.0 matches DaemonResponse::AttachmentList(v)
                && v@.len() == listed_attachments(old(account).attachments@).len()
                && forall|k: int| 0 <= k < v@.len() ==> attachment_shows(#[trigger] v@[k], listed_attachments(old(account).attachments@)[k])
        },
        request matches DaemonRequest::AttachmentDownload { attachment_id, output_path } ==> {
            &&& *final(account) == *old(account)
            &&& match row_with_id(old(account).attachments@.rows, attachment_id) {
                None => r.1 is None && is_error(r.0, "Attachment not found"@),
                Some(_) => match gathered(old(account).chunks@, chunks_of(old(account).attachments@.chunks, attachment_id)) {
                    Gathered::Missing => r.1 is None && is_error(r.0, "Chunk not found"@),
                    Gathered::Unreadable => r.1 is None && is_error(r.0, "Failed to get chunk: Cryptography error: Decryption failed: aead::Error"@),
                    Gathered::Data(d) => {
                        &&& r.0 matches DaemonResponse::AttachmentDownloaded { attachment_id: i, output_path: p }
                            && i == attachment_id && p@ == output_path@
                        &&& r.1 matches Some(FileAction::WriteAttachment { attachment_id: j, output_path: q, data })
                            && j == attachment_id && q@ == output_path@ && data@ == d
                    },
                },
            }
        },
        request matches DaemonRequest::AttachmentDelete { attachment_id } ==> {
            &&& r.0 is Success && r.1 is None
            &&& final(account).attachments@ == (crate::attachments::AttachmentStoreView {
                rows: rows_where_id(old(account).attachments@.rows, attachment_id,
                    |a: AttachmentView| AttachmentView { status: AttachmentStatus::Deleted, ..a }),
                ..old(account).attachments@
            })
            &&& final(account).sync == old(account).sync
            &&& final(account).peers == old(account).peers
            &&& final(account).keys == old(account).keys
            &&& final(account).controls == old(account).controls
        },
        request matches DaemonRequest::AttachmentPurge { attachment_id } ==> {
            &&& r.0 is Success && r.1 is None
            &&& final(account).attachments@ == (crate::attachments::AttachmentStoreView {
                rows: rows_where_id(old(account).attachments@.rows, attachment_id,
                    |a: AttachmentView| AttachmentView { status: AttachmentStatus::Purged, ..a }),
                chunks: chunks_without(old(account).attachments@.chunks, attachment_id),
                ..old(account).attachments@
            })
            &&& final(account).sync == old(account).sync
            &&& final(account).peers == old(account).peers
            &&& final(account).keys == old(account).keys
            &&& final(account).controls == old(account).controls
        },
        request is NetworkStatus ==> {
            &&& *final(account) == *old(account)
            &&& r.1 is None
            &&& r.0 matches DaemonResponse::NetworkStatus { connected_peers, discovered_peers, active }
                && connected_peers == connected_ids(old(account).peers@).len()
                && discovered_peers == old(account).peers@.discovered.len()
                && active == (connected_peers > 0 || discovered_peers > 0)
        },
        request is NetworkAddresses ==> {
            &&& *final(account) == *old(account)
            &&& r.1 is None
            &&& r.0 matches DaemonResponse::NetworkAddresses(v) && v@.len() == 1
                && v@[0]@ == "Network addresses not available via public API"@
        },
        request is NetworkStart ==> {
            &&& r.1 is None
            &&& match keys_verified(old(account).keys@) {
                Err(e) => final(account).keys@ == old(account).keys@ && final(account).controls == old(account).controls
                    && is_error(r.0, "Failed to start network: "@ + crate::account::account_error_text(e)),
                Ok(k) => final(account).keys@ == k && r.0 is Success
                    && final(account).controls == (NetworkControls { discovery_enabled: true, peer_management_enabled: true, ..old(account).controls }),
            }
            &&& final(account).sync == old(account).sync
            &&& final(account).peers == old(account).peers
            &&& final(account).attachments == old(account).attachments
        },
        request is NetworkStop ==> *final(account) == *old(account) && r.0 is Success && r.1 is None,
        request matches DaemonRequest::AccountExport { output_path } ==> {
            &&& *final(account) == *old(account)
            &&& r.0 matches DaemonResponse::AccountExported { output_path: p } && p@ == output_path@
            &&& r.1 matches Some(FileAction::WriteExport { output_path: q, messages, devices, exported_at })
                && q@ == output_path@ && exported_at == now
                && Seq::new(messages@.len(), |i: int| messages@[i]@) == shown_messages(old(account).sync@)
                && devices@.len() == old(account).keys@.authorized.len()
                && forall|i: int| 0 <= i < devices@.len() ==> #[trigger] devices@[i]@ == listed_device(old(account).keys@.authorized[i])
        },
        request matches DaemonRequest::AccountImport { input_path } ==> {
            &&& *final(account) == *old(account)
            &&& r.1 matches Some(FileAction::ReadImport { input_path: q }) && q@ == input_path@
        },
{
    match request {
        DaemonRequest::Status => {
            let d = account.keys.device_info_at(now);
            let connected = account.peers.get_connected_peers();
            let discovered = account.peers.get_discovered_peers();
            let messages = account.sync.get_all_messages();
            let devices = account.keys.list_authorized_devices();
            proof {
                assert(texts_view(connected@).len() == connected@.len());
                assert(Seq::new(discovered@.len(), |i: int| discovered@[i]@).len() == discovered@.len());
                assert(Seq::new(messages@.len(), |i: int| messages@[i]@).len() == messages@.len());
            }
            let r = DaemonResponse::Status {
                device_id: d.device_id,
                device_name: d.device_name,
                authorized: d.is_authorized,
                last_seen: format_utc_millis(d.last_seen),
                connected_peers: connected.len(),
                discovered_peers: discovered.len(),
                total_messages: messages.len(),
                total_devices: devices.len(),
            };
            (r, None)
        },
        DaemonRequest::DeviceList => (DaemonResponse::DeviceList(list_devices(&account.keys)), None),
        DaemonRequest::DeviceInfo { device_id } => (DaemonResponse::DeviceInfo(find_device(&account.keys, device_id.as_str())), None),
        DaemonRequest::DeviceLink => {
            let no_addresses: Vec<String> = Vec::new();
            proof { assert(texts_view(no_addresses@) =~= Seq::<Seq<char>>::empty()); }
            match account.keys.make_linking_qr(&account.device_key, &no_addresses) {
                Ok(q) => (DaemonResponse::DeviceLink { qr_payload: String::new() }, Some(FileAction::EncodeQr(q))),
                Err(e) => (DaemonResponse::Error(prefixed("Failed to create linking QR: ", e.message())), None),
            }
        },
        DaemonRequest::DeviceAccept { qr_payload } => (DaemonResponse::Success, Some(FileAction::DecodeQr(qr_payload))),
        DaemonRequest::DeviceRevoke { device_id } => {
            revoke_device(account, device_id.as_str());
            (DaemonResponse::Success, None)
        },
        DaemonRequest::PeerDisconnect { device_id } => {
            revoke_device(account, device_id.as_str());
            (DaemonResponse::Success, None)
        },
        DaemonRequest::PeerList => {
            let connected = list_connected(&account.peers, now);
            let discovered = list_discovered(&account.peers);
            (DaemonResponse::PeerList { connected, discovered }, None)
        },
        DaemonRequest::PeerConnect { device_id, addresses } => {
            match account.peers.connect_to_peer_at(device_id, addresses, now) {
                Ok(()) => (DaemonResponse::Success, None),
                Err(e) => (DaemonResponse::Error(prefixed("Failed to connect to peer: ", e.message())), None),
            }
        },
        DaemonRequest::PeerScan => {
            let found = account.peers.scan_local_network();
            (DaemonResponse::NetworkScanned { discovered_count: found.len() }, None)
        },
        DaemonRequest::NetworkScan => {
            let found = account.peers.scan_local_network();
            (DaemonResponse::NetworkScanned { discovered_count: found.len() }, None)
        },
        DaemonRequest::MessageList => (DaemonResponse::MessageList(list_messages(&account.sync)), None),
        DaemonRequest::MessageSend { content, attachments } => {
            if attachments.len() == 0 {
                let r = send_message_with_files_at(account, content, Vec::new(), now);
                (r, None)
            } else {
                (DaemonResponse::Success, Some(FileAction::StoreFiles { content, paths: attachments }))
            }
        },
        DaemonRequest::MessageEdit { message_id, new_content } => {
            match parse_message_id(message_id.as_str()) {
                Ok(id) => {
                    account.sync.edit_message_at(id, new_content, now);
                    proof { assert(id_of_text(message_id@, id.0)); }
                    (DaemonResponse::MessageEdited { message_id }, None)
                },
                Err(_) => (DaemonResponse::Error(String::from_str("Invalid message ID format")), None),
            }
        },
        DaemonRequest::MessageDelete { message_id } => {
            match parse_message_id(message_id.as_str()) {
                Ok(id) => {
                    account.sync.delete_message_at(id, now);
                    proof { assert(id_of_text(message_id@, id.0)); }
                    (DaemonResponse::Success, None)
                },
                Err(_) => (DaemonResponse::Error(String::from_str("Invalid message ID format")), None),
            }
        },
        DaemonRequest::MessagePurge { message_id } => {
            match parse_message_id(message_id.as_str()) {
                Ok(id) => {
                    account.sync.purge_message_at(id, now);
                    proof { assert(id_of_text(message_id@, id.0)); }
                    (DaemonResponse::Success, None)
                },
                Err(_) => (DaemonResponse::Error(String::from_str("Invalid message ID format")), None),
            }
        },
        DaemonRequest::AttachmentList => (DaemonResponse::AttachmentList(list_attachments(&account.attachments)), None),
        DaemonRequest::AttachmentDownload { attachment_id, output_path } => {
            match account.attachments.get_attachment_by_id(attachment_id) {
                None => (DaemonResponse::Error(String::from_str("Attachment not found")), None),
                Some(_) => match read_attachment(account, attachment_id) {
                    Ok(data) => {
                        let path = copy_string(&output_path);
                        (DaemonResponse::AttachmentDownloaded { attachment_id, output_path },
                            Some(FileAction::WriteAttachment { attachment_id, output_path: path, data }))
                    },
                    Err(e) => (e, None),
                },
            }
        },
        DaemonRequest::AttachmentDelete { attachment_id } => {
            account.attachments.delete_attachment(attachment_id);
            (DaemonResponse::Success, None)
        },
        DaemonRequest::AttachmentPurge { attachment_id } => {
            account.attachments.purge_attachment(attachment_id);
            (DaemonResponse::Success, None)
        },
        DaemonRequest::NetworkStatus => {
            let connected = account.peers.get_connected_peers();
            let discovered = account.peers.get_discovered_peers();
            proof {
                assert(texts_view(connected@).len() == connected@.len());
                assert(Seq::new(discovered@.len(), |i: int| discovered@[i]@).len() == discovered@.len());
            }
            let c = connected.len();
            let d = discovered.len();
            (DaemonResponse::NetworkStatus { connected_peers: c, discovered_peers: d, active: c > 0 || d > 0 }, None)
        },
        DaemonRequest::NetworkAddresses => {
            let mut v: Vec<String> = Vec::new();
            v.push(String::from_str("Network addresses not available via public API"));
            (DaemonResponse::NetworkAddresses(v), None)
        },
        DaemonRequest::NetworkStart => {
            match account.keys.verify_authorized_devices() {
                Ok(()) => {
                    account.controls.start_discovery();
                    account.controls.start_peer_management();
                    (DaemonResponse::Success, None)
                },
                Err(e) => (DaemonResponse::Error(prefixed("Failed to start network: ", e.message())), None),
            }
        },
        DaemonRequest::NetworkStop => (DaemonResponse::Success, None),
        DaemonRequest::AccountExport { output_path } => {
            let messages = account.sync.get_all_messages();
            let devices = account.keys.list_authorized_devices();
            let path = copy_string(&output_path);
            (DaemonResponse::AccountExported { output_path },
                Some(FileAction::WriteExport { output_path: path, messages, devices, exported_at: now }))
        },
        DaemonRequest::AccountImport { input_path } => (DaemonResponse::Success, Some(FileAction::ReadImport { input_path })),
    }
}

} // verus!
verus! {

// ---------------------------------------------------------------------
// Reading an id back
// ---------------------------------------------------------------------

/// Bytes as the standard library's `Debug` writes an array of them:
/// `[1, 2, ...]`.
pub open spec fn bytes_debug_text(b: Seq<u8>) -> Seq<char> {
    "["@ + byte_list_text(b) + "]"@
}

proof fn lemma_digit_value(d: int)
    requires
        0 <= d < 10,
    ensures
        digit_char(d) as int == 48 + d,
        is_decimal_digit(digit_char(d)),
        !is_white_space(digit_char(d)),
        !is_id_punctuation(digit_char(d)),
        digit_char(d) != ',',
{
}

proof fn lemma_decimal_digits(n: nat)
    ensures
        decimal_text(n).len() > 0,
        forall|i: int| 0 <= i < decimal_text(n).len() ==> is_decimal_digit(#[trigger] decimal_text(n)[i]),
        decimal_value(decimal_text(n)) == n,
    decreases n,
{
    lemma_digit_value((n % 10) as int);
    if n < 10 {
        let t = decimal_text(n);
        assert(t.drop_last() =~= Seq::<char>::empty());
        assert(t.last() == digit_char(n as int));
        assert(n % 10 == n);
        assert(decimal_value(t) == decimal_value(t.drop_last()) * 10 + (t.last() as int - 48));
    } else {
        lemma_decimal_digits(n / 10);
        let t = decimal_text(n);
        assert(t.drop_last() =~= decimal_text(n / 10));
        assert(t.last() == digit_char((n % 10) as int));
        assert(decimal_value(t) == decimal_value(t.drop_last()) * 10 + (t.last() as int - 48));
        assert((n / 10) * 10 + n % 10 == n) by (nonlinear_arith);
        assert forall|i: int| 0 <= i < t.len() implies is_decimal_digit(#[trigger] t[i]) by {
            if i < t.len() - 1 {
                assert(t[i] == decimal_text(n / 10)[i]);
            }
        }
    }
}

proof fn lemma_decimal_reads(b: u8)
    ensures
        parse_u8_spec(decimal_text(b as nat)) == Some(b),
        trim_by(decimal_text(b as nat), |c: char| is_white_space(c)) == decimal_text(b as nat),
        trim_by(" "@ + decimal_text(b as nat), |c: char| is_white_space(c)) == decimal_text(b as nat),
        forall|i: int| 0 <= i < decimal_text(b as nat).len() ==> #[trigger] decimal_text(b as nat)[i] != ',',
        !is_id_punctuation(decimal_text(b as nat)[0]),
        !is_id_punctuation(decimal_text(b as nat).last()),
{
    let d = decimal_text(b as nat);
    reveal_strlit(" ");
    lemma_decimal_digits(b as nat);
    assert(is_decimal_digit(d[0]));
    assert(is_decimal_digit(d.last()));
    assert forall|i: int| 0 <= i < d.len() implies #[trigger] d[i] != ',' by {
        assert(is_decimal_digit(d[i]));
    }
    assert(digits_u8(d) == Some(b));
    let ws = |c: char| is_white_space(c);
    assert(strip_front(d, ws) == d);
    assert(strip_back(d, ws) == d);
    let sd = " "@ + d;
    assert(sd.drop_first() =~= d);
    assert(strip_front(sd, ws) == strip_front(d, ws));
}

proof fn lemma_split_commas_nonempty(x: Seq<char>)
    ensures
        split_commas(x).len() >= 1,
    decreases x.len(),
{
    if x.len() > 0 {
        lemma_split_commas_nonempty(x.drop_last());
    }
}

/// Appending text without commas extends the last piece.
proof fn lemma_split_append(x: Seq<char>, y: Seq<char>)
    requires
        forall|i: int| 0 <= i < y.len() ==> #[trigger] y[i] != ',',
    ensures
        split_commas(x + y) == split_commas(x).update(split_commas(x).len() - 1, split_commas(x).last() + y),
    decreases y.len(),
{
    lemma_split_commas_nonempty(x);
    if y.len() == 0 {
        assert(x + y =~= x);
        assert(split_commas(x).last() + y =~= split_commas(x).last());
        assert(split_commas(x).update(split_commas(x).len() - 1, split_commas(x).last()) =~= split_commas(x));
    } else {
        let y0 = y.drop_last();
        assert forall|i: int| 0 <= i < y0.len() implies #[trigger] y0[i] != ',' by {
            assert(y0[i] == y[i]);
        }
        lemma_split_append(x, y0);
        assert((x + y).drop_last() =~= x + y0);
        assert((x + y).last() == y.last());
        assert(y.last() != ',');
        let r = split_commas(x);
        let r1 = split_commas(x + y0);
        assert(r1.len() == r.len());
        assert(r1.last() == r.last() + y0);
        assert(x + y != Seq::<char>::empty());
        assert(split_commas(x + y) == r1.update(r1.len() - 1, r1.last().push((x + y).last())));
        assert(r1.last().push(y.last()) =~= r.last() + y);
        assert(split_commas(x + y) =~= r.update(r.len() - 1, r.last() + y));
    }
}

/// A comma, a space and a comma-free text after a text add one piece.
proof fn lemma_split_step(a: Seq<char>, d: Seq<char>)
    requires
        forall|i: int| 0 <= i < d.len() ==> #[trigger] d[i] != ',',
    ensures
        split_commas(a + ", "@ + d) == split_commas(a).push(" "@ + d),
{
    reveal_strlit(", ");
    reveal_strlit(" ");
    let y = " "@ + d;
    lemma_comma_free_after_space(y, d);
    let ac = a.push(',');
    assert(ac.drop_last() =~= a);
    assert(split_commas(ac) == split_commas(a).push(Seq::<char>::empty()));
    lemma_split_append(ac, y);
    assert(a + ", "@ + d =~= ac + y);
    assert(Seq::<char>::empty() + y =~= y);
    assert(split_commas(a).push(Seq::<char>::empty()).update(split_commas(a).len() as int, Seq::<char>::empty() + y)
        =~= split_commas(a).push(y));
}

/// The text of a byte list cut at commas: each byte's digits, after the
/// first with the space that follows a comma.
#[verifier::rlimit(30)]
proof fn lemma_split_byte_list(b: Seq<u8>)
    requires
        b.len() >= 1,
    ensures
        split_commas(byte_list_text(b)).len() == b.len(),
        forall|k: int| 0 <= k < b.len() ==> #[trigger] split_commas(byte_list_text(b))[k]
            == (if k == 0 { decimal_text(b[0] as nat) } else { " "@ + decimal_text(b[k] as nat) }),
        byte_list_text(b).len() > 0,
        !is_id_punctuation(byte_list_text(b)[0]),
        !is_id_punctuation(byte_list_text(b).last()),
    decreases b.len(),
{
    lemma_decimal_reads(b.last());
    if b.len() == 1 {
        let d = decimal_text(b[0] as nat);
        lemma_split_append(Seq::empty(), d);
        assert(Seq::<char>::empty() + d =~= d);
        assert(split_commas(Seq::<char>::empty()) =~= seq![Seq::<char>::empty()]);
        assert(split_commas(d) =~= seq![d]);
    } else {
        let b0 = b.drop_last();
        lemma_split_byte_list(b0);
        let a = byte_list_text(b0);
        let d = decimal_text(b.last() as nat);
        lemma_split_step(a, d);
        assert(byte_list_text(b) == a + ", "@ + d);
        let r = split_commas(a);
        assert forall|k: int| 0 <= k < b.len() implies #[trigger] split_commas(byte_list_text(b))[k]
            == (if k == 0 { decimal_text(b[0] as nat) } else { " "@ + decimal_text(b[k] as nat) }) by {
            if k < b.len() - 1 {
                assert(b0[k] == b[k]);
                assert(r[k] == split_commas(byte_list_text(b0))[k]);
            }
        }
        assert((a + ", "@ + d)[0] == a[0]);
        assert((a + ", "@ + d).last() == d.last());
    }
}

/// The text `" "` and a comma-free text make a comma-free text.
proof fn lemma_comma_free_after_space(y: Seq<char>, d: Seq<char>)
    requires
        y == " "@ + d,
        forall|i: int| 0 <= i < d.len() ==> #[trigger] d[i] != ',',
    ensures
        forall|i: int| 0 <= i < y.len() ==> #[trigger] y[i] != ',',
{
    reveal_strlit(" ");
    assert forall|i: int| 0 <= i < y.len() implies #[trigger] y[i] != ',' by {
        if i > 0 {
            assert(y[i] == d[i - 1]);
        }
    }
}

proof fn lemma_no_bad_part(parts: Seq<Seq<char>>, from: int)
    requires
        0 <= from,
        forall|k: int| 0 <= k < parts.len() ==> parse_u8_spec(trim_by(#[trigger] parts[k], |c: char| is_white_space(c))) is Some,
    ensures
        first_bad_part(parts, from) is None,
    decreases parts.len() - from,
{
    if from < parts.len() {
        lemma_no_bad_part(parts, from + 1);
    }
}

/// The pieces of a byte list's text read as those bytes.
proof fn lemma_byte_list_parts_read(id: [u8; 32], t: Seq<char>)
    requires
        trim_by(t, |c: char| is_id_punctuation(c)) == byte_list_text(id@),
    ensures
        id_text_ok(t),
        id_of_text(t, id),
{
    let b = id@;
    lemma_split_byte_list(b);
    let parts = id_parts(t);
    assert(parts == split_commas(byte_list_text(b)));
    assert forall|k: int| 0 <= k < parts.len() implies parse_u8_spec(trim_by(#[trigger] parts[k], |c: char| is_white_space(c))) == Some(id[k]) by {
        lemma_decimal_reads(b[k]);
        assert(b[k] == id[k]);
    }
    lemma_no_bad_part(parts, 0);
    assert forall|k: int| 0 <= k < 32 implies Some(#[trigger] id[k]) == parse_u8_spec(trim_by(id_parts(t)[k], |c: char| is_white_space(c))) by {
        assert(parse_u8_spec(trim_by(parts[k], |c: char| is_white_space(c))) == Some(id[k]));
    }
}

/// An id written as its bytes' `Debug` text, `[1, 2, ...]`, or as the bare
/// list `1, 2, ...`, reads back as that id: `parse_message_id` gives it.
pub proof fn lemma_id_text_reads_back(id: [u8; 32])
    ensures
        id_text_ok(bytes_debug_text(id@)),
        id_of_text(bytes_debug_text(id@), id),
        id_text_ok(byte_list_text(id@)),
        id_of_text(byte_list_text(id@), id),
{
    let b = id@;
    let l = byte_list_text(b);
    let t = bytes_debug_text(b);
    lemma_split_byte_list(b);
    reveal_strlit("[");
    reveal_strlit("]");
    let p = |c: char| is_id_punctuation(c);
    assert(t.drop_first() =~= l + "]"@);
    assert(strip_front(t, p) == strip_front(l + "]"@, p));
    assert((l + "]"@)[0] == l[0]);
    assert(strip_front(l + "]"@, p) == l + "]"@);
    assert((l + "]"@).drop_last() =~= l);
    assert(strip_back(l + "]"@, p) == strip_back(l, p));
    assert(strip_back(l, p) == l);
    assert(trim_by(t, p) == l);
    lemma_byte_list_parts_read(id, t);
    assert(strip_front(l, p) == l);
    assert(trim_by(l, p) == l);
    lemma_byte_list_parts_read(id, l);
}

} // verus!
