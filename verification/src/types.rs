//! Configuration and plain data types: storage settings and statistics,
//! attachment status, account configuration, peer settings, and the
//! messages exchanged between peers.

use vstd::prelude::*;
use crate::protobuf::{
    AnnounceAttachmentMetadata, AnnounceHeads, FetchChunksReq, FetchChunksResp, FetchOpsReq,
    FetchOpsResp, HaveChunksReq, HaveChunksResp, RequestAttachmentMetadataReq,
    RequestAttachmentMetadataResp,
};

verus! {

/// Storage backends.
#[derive(Clone, Copy, Debug, PartialEq, Eq, Structural)]
pub enum StorageBackend {
    Sqlite,
    Memory,
}

/// Storage configuration.
#[derive(Clone, Debug)]
pub struct StorageConfig {
    pub backend: StorageBackend,
    /// Where the database lives (SQLite only).
    pub path: Option<String>,
}

impl Default for StorageConfig {
    fn default() -> (c: Self)
        ensures
            c.backend == StorageBackend::Sqlite,
            c.path is None,
    {
        StorageConfig { backend: StorageBackend::Sqlite, path: None }
    }
}

impl StorageConfig {
    /// SQLite storage at a path.
    pub fn sqlite(path: String) -> (c: Self)
        ensures
            c.backend == StorageBackend::Sqlite,
            c.path matches Some(p) && p@ == path@,
    {
        StorageConfig { backend: StorageBackend::Sqlite, path: Some(path) }
    }

    /// Storage in memory.
    pub fn memory() -> (c: Self)
        ensures
            c.backend == StorageBackend::Memory,
            c.path is None,
    {
        StorageConfig { backend: StorageBackend::Memory, path: None }
    }
}

/// Storage statistics.
#[derive(Clone, Copy, Debug, PartialEq, Eq, Structural)]
pub struct StorageStats {
    pub operation_count: usize,
    pub message_count: usize,
    pub chunk_count: usize,
    pub total_size: u64,
}

/// Attachment statistics.
#[derive(Clone, Copy, Debug, PartialEq, Eq, Structural)]
pub struct AttachmentStats {
    pub total_attachments: usize,
    pub active_attachments: usize,
    pub deleted_attachments: usize,
    pub purged_attachments: usize,
    pub total_size: u64,
    /// Attachments with distinct file hashes.
    pub unique_files: usize,
}

/// Garbage collection statistics.
#[derive(Clone, Copy, Debug, PartialEq, Eq, Structural)]
pub struct GarbageCollectionStats {
    pub chunks_removed: usize,
    pub attachments_removed: usize,
    pub space_freed: u64,
}

/// Life cycle of an attachment.
#[derive(Clone, Copy, Debug, PartialEq, Eq, Structural)]
pub enum AttachmentStatus {
    /// In use.
    Active,
    /// Deleted; can still be shown as such.
    Deleted,
    /// Removed; its chunks may be collected.
    Purged,
}

/// The number that stores a status.
pub open spec fn status_code(s: AttachmentStatus) -> i64 {
    match s {
        AttachmentStatus::Active => 0,
        AttachmentStatus::Deleted => 1,
        AttachmentStatus::Purged => 2,
    }
}

impl AttachmentStatus {
    /// The number that stores the status: 0, 1 or 2.
    pub fn to_code(&self) -> (c: i64)
        ensures
            c == status_code(*self),
    {
        match self {
            AttachmentStatus::Active => 0,
            AttachmentStatus::Deleted => 1,
            AttachmentStatus::Purged => 2,
        }
    }

    /// The status a number stores; an unknown number reads as active.
    pub fn from_code(c: i64) -> (s: AttachmentStatus)
        ensures
            (0 <= c <= 2) ==> status_code(s) == c,
            !(0 <= c <= 2) ==> s == AttachmentStatus::Active,
    {
        if c == 1 {
            AttachmentStatus::Deleted
        } else if c == 2 {
            AttachmentStatus::Purged
        } else {
            AttachmentStatus::Active
        }
    }
}

/// Reading back the number of a status gives the status.
pub proof fn lemma_status_code_round_trip(s: AttachmentStatus)
    ensures
        0 <= status_code(s) <= 2,
        forall|t: AttachmentStatus| status_code(t) == status_code(s) ==> t == s,
{
}

/// Size of an attachment chunk: 2 MiB.
pub const CHUNK_SIZE: usize = 2_097_152;

/// Configuration of an account.
#[derive(Clone, Debug)]
pub struct Config {
    /// Directory of the account's storage.
    pub storage_path: String,
    /// Port for peer connections.
    pub network_port: u16,
    /// Whether to discover peers on the local network.
    pub enable_mdns: bool,
    /// Whether to connect through public relays.
    pub allow_public_relays: bool,
    /// Addresses of the first peers to contact.
    pub bootstrap_multiaddrs: Vec<String>,
    /// Whether to use the Kademlia DHT.
    pub use_kademlia: bool,
    /// Size of attachment chunks.
    pub chunk_size: usize,
    /// Largest number of chunk streams per peer.
    pub max_parallel_chunks: usize,
    /// Storage backend.
    pub storage_backend: StorageBackend,
}

impl Default for Config {
    fn default() -> (c: Self)
        ensures
            c.network_port == 8080,
            c.enable_mdns,
            !c.allow_public_relays,
            c.bootstrap_multiaddrs@.len() == 0,
            !c.use_kademlia,
            c.chunk_size == CHUNK_SIZE,
            c.max_parallel_chunks == 4,
            c.storage_backend == StorageBackend::Sqlite,
    {
        Config {
            storage_path: String::from_str("./saved-account"),
            network_port: 8080,
            enable_mdns: true,
            allow_public_relays: false,
            bootstrap_multiaddrs: Vec::new(),
            use_kademlia: false,
            chunk_size: CHUNK_SIZE,
            max_parallel_chunks: 4,
            storage_backend: StorageBackend::Sqlite,
        }
    }
}

/// An encrypted chunk, as sent to peers.
#[derive(Clone, Debug)]
pub struct ChunkData {
    pub chunk_id: [u8; 32],
    pub encrypted_data: Vec<u8>,
    pub nonce: Vec<u8>,
}

/// The mathematical form of a [`ChunkData`].
pub struct ChunkDataView {
    pub chunk_id: [u8; 32],
    pub encrypted_data: Seq<u8>,
    pub nonce: Seq<u8>,
}

impl View for ChunkData {
    type V = ChunkDataView;

    open spec fn view(&self) -> ChunkDataView {
        ChunkDataView { chunk_id: self.chunk_id, encrypted_data: self.encrypted_data@, nonce: self.nonce@ }
    }
}

/// Connection state of a peer.
#[derive(Clone, Copy, Debug, PartialEq, Eq, Structural)]
pub enum ConnectionState {
    Disconnected,
    Connecting,
    Connected,
    Failed,
}

/// How a peer was found.
#[derive(Clone, Copy, Debug, PartialEq, Eq, Structural)]
pub enum DiscoveryMethod {
    Mdns,
    Manual,
    PeerAnnouncement,
    Relay,
}

/// Health of a peer.
#[derive(Clone, Copy, Debug, PartialEq, Eq, Structural)]
pub enum PeerHealth {
    Healthy,
    Degraded,
    Unhealthy,
    Unknown,
}

/// Group of a peer.
#[derive(Clone, Debug, PartialEq, Eq)]
pub enum PeerGroup {
    Local,
    Internet,
    Relay,
    Trusted,
    Blocked,
    Custom(String),
}

/// Settings of a peer. Durations are in seconds.
#[derive(Clone, Debug)]
pub struct PeerConfig {
    /// Connection attempts before the peer counts as failed.
    pub max_connection_attempts: u32,
    pub connection_timeout_secs: u64,
    pub health_check_interval_secs: u64,
    /// Idle time before disconnection.
    pub max_idle_time_secs: u64,
    pub group: PeerGroup,
    pub auto_reconnect: bool,
    /// Higher is more important.
    pub priority: u8,
}

impl PeerConfig {
    /// The settings of a newly seen peer: 5 attempts, 30 s timeout, health
    /// checked every 60 s, 5 minutes idle, local group, reconnecting,
    /// medium priority.
    pub fn create_default_peer_config() -> (c: Self)
        ensures
            c.max_connection_attempts == 5,
            c.connection_timeout_secs == 30,
            c.health_check_interval_secs == 60,
            c.max_idle_time_secs == 300,
            c.group == PeerGroup::Local,
            c.auto_reconnect,
            c.priority == 5,
    {
        PeerConfig {
            max_connection_attempts: 5,
            connection_timeout_secs: 30,
            health_check_interval_secs: 60,
            max_idle_time_secs: 300,
            group: PeerGroup::Local,
            auto_reconnect: true,
            priority: 5,
        }
    }
}

/// A message between peers, by type.
#[derive(Debug)]
pub enum SavedMessageType {
    AnnounceHeads(AnnounceHeads),
    FetchOpsReq(FetchOpsReq),
    FetchOpsResp(FetchOpsResp),
    HaveChunksReq(HaveChunksReq),
    HaveChunksResp(HaveChunksResp),
    FetchChunksReq(FetchChunksReq),
    FetchChunksResp(FetchChunksResp),
    RequestAttachmentMetadataReq(RequestAttachmentMetadataReq),
    RequestAttachmentMetadataResp(RequestAttachmentMetadataResp),
    AnnounceAttachmentMetadata(AnnounceAttachmentMetadata),
}

} // verus!
