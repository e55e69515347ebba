//! Attachment chunks: files cut into fixed-size pieces, each named by the
//! BLAKE3 hash of its plaintext and stored encrypted under a key derived
//! from the vault key and that hash (convergent encryption), with a random
//! nonce kept in front of the ciphertext.

use vstd::prelude::*;
use crate::assoc::{assoc_get, assoc_has, lemma_assoc_absent, lemma_assoc_found, lemma_assoc_push, lemma_assoc_some, lemma_assoc_update};
use crate::crypto::{
    blake3_digest, blake3_hash, chunk_label, decrypt, derive_chunk_key, encrypt, generate_nonce,
    hkdf_sha256_32, xchacha_max_blocks, xchacha_open, xchacha_seal, CryptoError,
};
use crate::events::{copy_string, hash_eq};
pub use crate::clock::EARLIEST_TIME_MS;
use crate::clock::{utc_now_ms, LATEST_TIME_MS};
use crate::ids::slice_subrange;
use crate::envelope::{bytes_to_arr24, concat_bytes, copy_bytes};
use crate::events::contains_hash;
use crate::recovery::str_eq;
use crate::types::{ChunkData, ChunkDataView, CHUNK_SIZE};

verus! {

/// The pieces of `data` of `size` bytes each, the last one shorter.
pub open spec fn chunk_pieces(data: Seq<u8>, size: nat) -> Seq<Seq<u8>>
    decreases data.len(),
{
    if data.len() == 0 || size == 0 {
        Seq::empty()
    } else if data.len() <= size {
        seq![data]
    } else {
        seq![data.take(size as int)] + chunk_pieces(data.skip(size as int), size)
    }
}

/// The pieces of a list, joined.
pub open spec fn join_pieces(ps: Seq<Seq<u8>>) -> Seq<u8>
    decreases ps.len(),
{
    if ps.len() == 0 { Seq::empty() } else { ps[0] + join_pieces(ps.drop_first()) }
}

/// Joining the pieces gives the data back; every piece but the last is
/// full, and none is empty.
pub proof fn lemma_chunk_pieces(data: Seq<u8>, size: nat)
    requires
        size > 0,
    ensures
        join_pieces(chunk_pieces(data, size)) == data,
        forall|i: int| 0 <= i < chunk_pieces(data, size).len() ==> 0 < (#[trigger] chunk_pieces(data, size)[i]).len() <= size,
        forall|i: int| 0 <= i < chunk_pieces(data, size).len() - 1 ==> (#[trigger] chunk_pieces(data, size)[i]).len() == size,
    decreases data.len(),
{
    let ps = chunk_pieces(data, size);
    if data.len() == 0 {
        assert(ps.len() == 0);
        assert(data =~= Seq::<u8>::empty());
    } else if data.len() <= size {
        assert(ps.drop_first() =~= Seq::<Seq<u8>>::empty());
        assert(join_pieces(ps.drop_first()) == Seq::<u8>::empty());
        assert(ps[0] == data);
        assert(data + Seq::<u8>::empty() =~= data);
    } else {
        let rest = chunk_pieces(data.skip(size as int), size);
        lemma_chunk_pieces(data.skip(size as int), size);
        assert(ps.drop_first() =~= rest);
        assert(data.take(size as int) + data.skip(size as int) =~= data);
        assert(ps[0] == data.take(size as int));
        assert(join_pieces(ps) == ps[0] + join_pieces(ps.drop_first()));
        assert forall|i: int| 0 <= i < ps.len() implies 0 < (#[trigger] ps[i]).len() <= size by {
            if i > 0 { assert(ps[i] == rest[i - 1]); }
        }
        assert forall|i: int| 0 <= i < ps.len() - 1 implies (#[trigger] ps[i]).len() == size by {
            if i > 0 { assert(ps[i] == rest[i - 1]); }
        }
    }
}

/// Cuts data into pieces of `chunk_size` bytes, the last one shorter.
pub fn split_into_chunks(data: &[u8], chunk_size: usize) -> (r: Vec<Vec<u8>>)
    requires
        chunk_size > 0,
    ensures
        crate::codec::bytes_list_view(r@) == chunk_pieces(data@, chunk_size as nat),
{
    let mut r: Vec<Vec<u8>> = Vec::new();
    let mut offset: usize = 0;
    proof { assert(data@.skip(0) =~= data@); }
    while offset < data.len()
        invariant
            offset <= data@.len(),
            chunk_size > 0,
            crate::codec::bytes_list_view(r@) + chunk_pieces(data@.skip(offset as int), chunk_size as nat) == chunk_pieces(data@, chunk_size as nat),
        decreases data@.len() - offset,
    {
        let end = if data.len() - offset <= chunk_size { data.len() } else { offset + chunk_size };
        let piece = vstd::slice::slice_to_vec(slice_subrange(data, offset, end));
        let ghost rest = data@.skip(offset as int);
        let ghost before = crate::codec::bytes_list_view(r@);
        r.push(piece);
        proof {
            assert(crate::codec::bytes_list_view(r@) =~= before.push(piece@));
            if rest.len() <= chunk_size {
                assert(piece@ =~= rest);
                assert(data@.skip(end as int) =~= Seq::<u8>::empty());
                assert(chunk_pieces(rest, chunk_size as nat) == seq![rest]);
                assert(before.push(piece@) + chunk_pieces(data@.skip(end as int), chunk_size as nat) =~= before + seq![rest]);
            } else {
                assert(piece@ =~= rest.take(chunk_size as int));
                assert(rest.skip(chunk_size as int) =~= data@.skip(end as int));
                assert(before.push(piece@) + chunk_pieces(data@.skip(end as int), chunk_size as nat)
                    =~= before + (seq![rest.take(chunk_size as int)] + chunk_pieces(rest.skip(chunk_size as int), chunk_size as nat)));
            }
        }
        offset = end;
    }
    proof {
        assert(data@.skip(offset as int) =~= Seq::<u8>::empty());
        assert(crate::codec::bytes_list_view(r@) + Seq::<Seq<u8>>::empty() =~= crate::codec::bytes_list_view(r@));
    }
    r
}

/// The key a chunk is encrypted under: derived from the vault key and the
/// chunk's id.
pub open spec fn chunk_key(vault_key: [u8; 32], id: [u8; 32]) -> [u8; 32] {
    hkdf_sha256_32(vault_key@, chunk_label() + id@)
}

/// What a chunk is stored as: the nonce, then the plaintext encrypted
/// under the key of its hash.
pub open spec fn stored_chunk(vault_key: [u8; 32], data: Seq<u8>, nonce: [u8; 24]) -> Seq<u8> {
    nonce@ + xchacha_seal(chunk_key(vault_key, blake3_digest(data))@, nonce@, data)
}

/// What a stored chunk opens to: the rest decrypted under the nonce in
/// front, or nothing when it is too short or does not authenticate.
pub open spec fn open_stored(vault_key: [u8; 32], id: [u8; 32], stored: Seq<u8>) -> Option<Seq<u8>> {
    if stored.len() < 24 {
        None
    } else {
        xchacha_open(chunk_key(vault_key, id)@, stored.take(24), stored.skip(24))
    }
}

/// The metadata of a chunk just stored here.
pub open spec fn fresh_metadata(id: [u8; 32], size: nat, now: i64) -> ChunkMetadataView {
    ChunkMetadataView {
        chunk_id: id,
        size: size as u64,
        created_at: now,
        is_available: true,
        available_peers: Seq::empty(),
    }
}

/// What is known of a chunk.
#[derive(Debug)]
pub struct ChunkMetadata {
    pub chunk_id: [u8; 32],
    /// Size of the chunk.
    pub size: u64,
    /// When it was first stored (Unix milliseconds).
    pub created_at: i64,
    /// Whether it is stored here.
    pub is_available: bool,
    /// Peers known to have it.
    pub available_peers: Vec<String>,
}

/// The mathematical form of a [`ChunkMetadata`].
pub struct ChunkMetadataView {
    pub chunk_id: [u8; 32],
    pub size: u64,
    pub created_at: i64,
    pub is_available: bool,
    pub available_peers: Seq<Seq<char>>,
}

impl View for ChunkMetadata {
    type V = ChunkMetadataView;

    open spec fn view(&self) -> ChunkMetadataView {
        ChunkMetadataView {
            chunk_id: self.chunk_id,
            size: self.size,
            created_at: self.created_at,
            is_available: self.is_available,
            available_peers: Seq::new(self.available_peers@.len(), |i: int| self.available_peers@[i]@),
        }
    }
}

/// The ids among `ids` of chunks that `chunks` does not hold, in order.
pub open spec fn missing_chunk_ids(chunks: Seq<([u8; 32], Seq<u8>)>, ids: Seq<[u8; 32]>) -> Seq<[u8; 32]>
    decreases ids.len(),
{
    if ids.len() == 0 {
        Seq::empty()
    } else {
        let r = missing_chunk_ids(chunks, ids.drop_last());
        if assoc_get(chunks, ids.last()) is Some { r } else { r.push(ids.last()) }
    }
}

/// The metadata kept by a cleanup at `now` of entries older than
/// `max_age_days`: those created after the cut-off, or all of them when the
/// cut-off would fall before [`EARLIEST_TIME_MS`].
pub open spec fn cleanup_outcome(ms: Seq<([u8; 32], ChunkMetadataView)>, max_age_days: u64, now: i64) -> Seq<([u8; 32], ChunkMetadataView)> {
    if now - max_age_days * MS_PER_DAY < EARLIEST_TIME_MS {
        ms
    } else {
        metadata_newer_than(ms, now - max_age_days * MS_PER_DAY)
    }
}

/// The metadata entries created after `cutoff`, in order.
pub open spec fn metadata_newer_than(ms: Seq<([u8; 32], ChunkMetadataView)>, cutoff: int) -> Seq<([u8; 32], ChunkMetadataView)>
    decreases ms.len(),
{
    if ms.len() == 0 {
        Seq::empty()
    } else {
        let r = metadata_newer_than(ms.drop_last(), cutoff);
        if ms.last().1.created_at > cutoff { r.push(ms.last()) } else { r }
    }
}

/// The name this node gives itself in its answers to peers.
pub open spec fn local_peer() -> Seq<char> {
    seq!['l', 'o', 'c', 'a', 'l']
}

/// Whether peer `p` was seen to hold chunk `c`.
pub open spec fn peer_has(peers: Seq<(Seq<char>, Set<[u8; 32]>)>, p: Seq<char>, c: [u8; 32]) -> bool {
    match assoc_get(peers, p) {
        Some(s) => s.contains(c),
        None => false,
    }
}

/// The peers seen to hold chunk `c`, in the order they were first heard of.
pub open spec fn chunk_holders(peers: Seq<(Seq<char>, Set<[u8; 32]>)>, c: [u8; 32]) -> Seq<Seq<char>>
    decreases peers.len(),
{
    if peers.len() == 0 {
        Seq::empty()
    } else {
        let r = chunk_holders(peers.drop_last(), c);
        if peers.last().1.contains(c) { r.push(peers.last().0) } else { r }
    }
}

/// A stored chunk as handed to a peer: its nonce (what stands in front,
/// up to 24 bytes) and the ciphertext after it.
pub open spec fn split_stored(id: [u8; 32], s: Seq<u8>) -> ChunkDataView {
    let k = if s.len() < 24 { s.len() as int } else { 24 };
    ChunkDataView { chunk_id: id, encrypted_data: s.skip(k), nonce: s.take(k) }
}

/// The chunks among `ids` that are stored, as handed to a peer, in order.
pub open spec fn fetched_chunks(chunks: Seq<([u8; 32], Seq<u8>)>, ids: Seq<[u8; 32]>) -> Seq<ChunkDataView>
    decreases ids.len(),
{
    if ids.len() == 0 {
        Seq::empty()
    } else {
        let r = fetched_chunks(chunks, ids.drop_last());
        match assoc_get(chunks, ids.last()) {
            Some(s) => r.push(split_stored(ids.last(), s)),
            None => r,
        }
    }
}

/// What is stored under `k` once the chunks a peer sent are stored, each in
/// place of what was held.
pub open spec fn stored_after(chunks: Seq<([u8; 32], Seq<u8>)>, cs: Seq<ChunkDataView>, k: [u8; 32]) -> Option<Seq<u8>>
    decreases cs.len(),
{
    if cs.len() == 0 {
        assoc_get(chunks, k)
    } else if cs.last().chunk_id == k {
        Some(cs.last().nonce + cs.last().encrypted_data)
    } else {
        stored_after(chunks, cs.drop_last(), k)
    }
}

/// The metadata of a chunk received from `peer`, given what was held.
pub open spec fn received_metadata(prev: Option<ChunkMetadataView>, c: ChunkDataView, peer: Seq<char>, now: i64) -> ChunkMetadataView {
    match prev {
        Some(m) => ChunkMetadataView {
            is_available: true,
            available_peers: if m.available_peers.contains(peer) { m.available_peers } else { m.available_peers.push(peer) },
            ..m
        },
        None => ChunkMetadataView {
            chunk_id: c.chunk_id,
            size: c.encrypted_data.len() as u64,
            created_at: now,
            is_available: true,
            available_peers: seq![peer],
        },
    }
}

/// The metadata held for `k` once the chunks `peer` sent are recorded.
pub open spec fn metadata_after(
    ms: Seq<([u8; 32], ChunkMetadataView)>,
    cs: Seq<ChunkDataView>,
    peer: Seq<char>,
    now: i64,
    k: [u8; 32],
) -> Option<ChunkMetadataView>
    decreases cs.len(),
{
    if cs.len() == 0 {
        assoc_get(ms, k)
    } else if cs.last().chunk_id == k {
        Some(received_metadata(metadata_after(ms, cs.drop_last(), peer, now, k), cs.last(), peer, now))
    } else {
        metadata_after(ms, cs.drop_last(), peer, now, k)
    }
}

/// The views of a list of chunks.
pub open spec fn chunk_data_views(v: Seq<ChunkData>) -> Seq<ChunkDataView> {
    Seq::new(v.len(), |i: int| v[i]@)
}

/// Whether `after` holds, for every chunk, the metadata that recording the
/// chunks `peer` sent at `now` leaves from `before`.
pub open spec fn metadata_received(
    after: Seq<([u8; 32], ChunkMetadataView)>,
    before: Seq<([u8; 32], ChunkMetadataView)>,
    cs: Seq<ChunkDataView>,
    peer: Seq<char>,
    now: i64,
) -> bool {
    forall|k: [u8; 32]| #[trigger] assoc_get(after, k) == metadata_after(before, cs, peer, now, k)
}

/// A question to peers: which of these chunks do you hold?
pub struct ChunkSyncRequest {
    pub chunk_ids: Vec<[u8; 32]>,
    pub peer_id: String,
    /// Unix milliseconds.
    pub timestamp: i64,
}

/// The answer: one flag per chunk asked for.
pub struct ChunkSyncResponse {
    pub availability: Vec<bool>,
    pub peer_id: String,
    /// Unix milliseconds.
    pub timestamp: i64,
}

/// A request for chunks.
pub struct ChunkFetchRequest {
    pub chunk_ids: Vec<[u8; 32]>,
    pub peer_id: String,
    /// Unix milliseconds.
    pub timestamp: i64,
}

/// The chunks sent in answer.
pub struct ChunkFetchResponse {
    pub chunks: Vec<ChunkData>,
    pub peer_id: String,
    /// Unix milliseconds.
    pub timestamp: i64,
}

/// Milliseconds in a day.
pub const MS_PER_DAY: i64 = 86_400_000;

/// The mathematical form of a [`ChunkSyncManager`].
pub struct ChunkSyncView {
    pub vault_key: [u8; 32],
    /// The stored chunks by id.
    pub chunks: Seq<([u8; 32], Seq<u8>)>,
    /// The metadata of chunks, by id.
    pub metadata: Seq<([u8; 32], ChunkMetadataView)>,
    /// The chunks each peer was seen to hold, by peer id.
    pub peers: Seq<(Seq<char>, Set<[u8; 32]>)>,
}

/// The chunks of an account and what is known of them.
pub struct ChunkSyncManager {
    vault_key: [u8; 32],
    chunks: Vec<([u8; 32], Vec<u8>)>,
    metadata: Vec<ChunkMetadata>,
    peers: Vec<(String, Vec<[u8; 32]>)>,
}

impl View for ChunkSyncManager {
    type V = ChunkSyncView;

    closed spec fn view(&self) -> ChunkSyncView {
        ChunkSyncView {
            vault_key: self.vault_key,
            chunks: Seq::new(self.chunks@.len(), |i: int| (self.chunks@[i].0, self.chunks@[i].1@)),
            metadata: Seq::new(self.metadata@.len(), |i: int| (self.metadata@[i].chunk_id, self.metadata@[i]@)),
            peers: Seq::new(self.peers@.len(), |i: int| (self.peers@[i].0@, self.peers@[i].1@.to_set())),
        }
    }
}

/// Whether a list of names holds a name.
fn contains_name(v: &Vec<String>, s: &String) -> (r: bool)
    ensures
        r == Seq::new(v@.len(), |i: int| v@[i]@).contains(s@),
{
    let ghost names = Seq::new(v@.len(), |i: int| v@[i]@);
    let mut i: usize = 0;
    while i < v.len()
        invariant
            i <= v@.len(),
            names == Seq::new(v@.len(), |i: int| v@[i]@),
            forall|j: int| 0 <= j < i ==> names[j] != s@,
        decreases v@.len() - i,
    {
        if str_eq(v[i].as_str(), s.as_str()) {
            assert(names[i as int] == s@);
            return true;
        }
        i = i + 1;
    }
    false
}

/// A copy of a list of ids.
fn copy_ids(v: &Vec<[u8; 32]>) -> (r: Vec<[u8; 32]>)
    ensures
        r@ == v@,
{
    let mut r: Vec<[u8; 32]> = Vec::new();
    let mut i: usize = 0;
    while i < v.len()
        invariant
            i <= v@.len(),
            r@ == v@.take(i as int),
        decreases v@.len() - i,
    {
        r.push(v[i]);
        proof { assert(r@ =~= v@.take(i + 1)); }
        i = i + 1;
    }
    proof { assert(v@.take(v@.len() as int) =~= v@); }
    r
}

/// A copy of a metadata record.
fn copy_metadata(m: &ChunkMetadata) -> (r: ChunkMetadata)
    ensures
        r@ == m@,
        r.chunk_id == m.chunk_id,
{
    let mut peers: Vec<String> = Vec::new();
    let mut i: usize = 0;
    while i < m.available_peers.len()
        invariant
            i <= m.available_peers@.len(),
            peers@.len() == i,
            forall|j: int| 0 <= j < i ==> #[trigger] peers@[j]@ == m.available_peers@[j]@,
        decreases m.available_peers@.len() - i,
    {
        peers.push(copy_string(&m.available_peers[i]));
        i = i + 1;
    }
    let r = ChunkMetadata {
        chunk_id: m.chunk_id,
        size: m.size,
        created_at: m.created_at,
        is_available: m.is_available,
        available_peers: peers,
    };
    assert(r@.available_peers =~= m@.available_peers);
    r
}

impl ChunkSyncManager {
    /// A manager with no chunk.
    pub fn new(vault_key: [u8; 32]) -> (r: Self)
        ensures
            r@.vault_key == vault_key,
            r@.chunks.len() == 0,
            r@.metadata.len() == 0,
            r@.peers.len() == 0,
    {
        let r = ChunkSyncManager { vault_key, chunks: Vec::new(), metadata: Vec::new(), peers: Vec::new() };
        assert(r@.chunks =~= Seq::<([u8; 32], Seq<u8>)>::empty());
        assert(r@.metadata =~= Seq::<([u8; 32], ChunkMetadataView)>::empty());
        assert(r@.peers =~= Seq::<(Seq<char>, Set<[u8; 32]>)>::empty());
        r
    }

    fn find_chunk(&self, id: &[u8; 32]) -> (r: Option<usize>)
        ensures
            match r {
                Some(i) => i < self@.chunks.len() && self@.chunks[i as int].0 == *id
                    && (forall|j: int| 0 <= j < i ==> self@.chunks[j].0 != *id)
                    && assoc_get(self@.chunks, *id) == Some(self@.chunks[i as int].1),
                None => assoc_get(self@.chunks, *id) is None && !assoc_has(self@.chunks, *id)
                    && (forall|j: int| 0 <= j < self@.chunks.len() ==> self@.chunks[j].0 != *id),
            },
    {
        let mut i: usize = 0;
        while i < self.chunks.len()
            invariant
                i <= self.chunks@.len(),
                forall|j: int| 0 <= j < i ==> self@.chunks[j].0 != *id,
            decreases self.chunks@.len() - i,
        {
            if hash_eq(&self.chunks[i].0, id) {
                proof { lemma_assoc_found(self@.chunks, i as int, *id); }
                return Some(i);
            }
            i = i + 1;
        }
        proof {
            lemma_assoc_absent(self@.chunks, *id);
            lemma_assoc_some(self@.chunks, *id);
        }
        None
    }

    /// Whether a chunk is stored.
    pub fn has_chunk(&self, id: &[u8; 32]) -> (r: bool)
        ensures
            r == assoc_get(self@.chunks, *id) is Some,
    {
        self.find_chunk(id).is_some()
    }

    fn find_metadata(&self, id: &[u8; 32]) -> (r: Option<usize>)
        ensures
            match r {
                Some(i) => i < self@.metadata.len() && self@.metadata[i as int].0 == *id
                    && (forall|j: int| 0 <= j < i ==> self@.metadata[j].0 != *id)
                    && assoc_get(self@.metadata, *id) == Some(self@.metadata[i as int].1),
                None => assoc_get(self@.metadata, *id) is None
                    && (forall|j: int| 0 <= j < self@.metadata.len() ==> self@.metadata[j].0 != *id),
            },
    {
        let mut i: usize = 0;
        while i < self.metadata.len()
            invariant
                i <= self.metadata@.len(),
                forall|j: int| 0 <= j < i ==> self@.metadata[j].0 != *id,
            decreases self.metadata@.len() - i,
        {
            if hash_eq(&self.metadata[i].chunk_id, id) {
                proof { lemma_assoc_found(self@.metadata, i as int, *id); }
                return Some(i);
            }
            i = i + 1;
        }
        proof { lemma_assoc_absent(self@.metadata, *id); }
        None
    }

    /// Stores the content of an attachment: cut into pieces of
    /// [`CHUNK_SIZE`] bytes, each stored as a chunk. Gives the ids of the
    /// pieces, in order.
    pub fn process_attachment(&mut self, data: &[u8], now: i64) -> (r: Vec<[u8; 32]>)
        ensures
            r@ == Seq::new(chunk_pieces(data@, CHUNK_SIZE as nat).len(), |i: int| blake3_digest(chunk_pieces(data@, CHUNK_SIZE as nat)[i])),
            forall|i: int| 0 <= i < r@.len() ==> assoc_has(final(self)@.chunks, #[trigger] r@[i]),
            forall|k: [u8; 32]| assoc_has(old(self)@.chunks, k) ==> #[trigger] assoc_has(final(self)@.chunks, k),
            final(self)@.vault_key == old(self)@.vault_key,
            final(self)@.peers == old(self)@.peers,
    {
        let pieces = split_into_chunks(data, CHUNK_SIZE);
        let ghost ps = chunk_pieces(data@, CHUNK_SIZE as nat);
        proof { lemma_chunk_pieces(data@, CHUNK_SIZE as nat); }
        let mut ids: Vec<[u8; 32]> = Vec::new();
        let mut i: usize = 0;
        while i < pieces.len()
            invariant
                i <= pieces@.len(),
                crate::codec::bytes_list_view(pieces@) == ps,
                forall|j: int| 0 <= j < ps.len() ==> 0 < (#[trigger] ps[j]).len() <= CHUNK_SIZE,
                ids@ == Seq::new(i as nat, |j: int| blake3_digest(ps[j])),
                forall|j: int| 0 <= j < i ==> assoc_has(self@.chunks, #[trigger] ids@[j]),
                forall|k: [u8; 32]| assoc_has(old(self)@.chunks, k) ==> #[trigger] assoc_has(self@.chunks, k),
                self@.vault_key == old(self)@.vault_key,
                self@.peers == old(self)@.peers,
            decreases pieces@.len() - i,
        {
            let ghost before = self@.chunks;
            let piece = pieces[i].as_slice();
            proof {
                assert(piece@ == ps[i as int]);
                assert(piece@.len() / 64 < xchacha_max_blocks());
            }
            let stored = self.store_chunk_at(piece, now);
            let ghost d = blake3_digest(piece@);
            proof {
                if !assoc_has(before, d) {
                    let n = choose|n: [u8; 24]| self@.chunks == before.push((d, #[trigger] stored_chunk(old(self)@.vault_key, piece@, n)));
                    assert(self@.chunks[before.len() as int].0 == d);
                    assert forall|k: [u8; 32]| #[trigger] assoc_has(before, k) implies assoc_has(self@.chunks, k) by {
                        let j = choose|j: int| 0 <= j < before.len() && before[j].0 == k;
                        assert(self@.chunks[j].0 == k);
                    }
                }
                assert forall|k: [u8; 32]| #[trigger] assoc_has(old(self)@.chunks, k) implies assoc_has(self@.chunks, k) by {
                    assert(assoc_has(before, k));
                }
            }
            if let Ok(id) = stored {
                ids.push(id);
            }
            proof {
                assert(ids@ =~= Seq::new((i + 1) as nat, |j: int| blake3_digest(ps[j])));
            }
            i = i + 1;
        }
        ids
    }

    /// Stores a chunk now; see [`ChunkSyncManager::store_chunk_at`].
    pub fn store_chunk(&mut self, data: &[u8]) -> (r: Result<[u8; 32], CryptoError>)
        ensures
            final(self)@.vault_key == old(self)@.vault_key,
            final(self)@.peers == old(self)@.peers,
            assoc_has(old(self)@.chunks, blake3_digest(data@)) ==> r == Ok::<[u8; 32], CryptoError>(blake3_digest(data@))
                && final(self)@ == old(self)@,
            !assoc_has(old(self)@.chunks, blake3_digest(data@)) && data@.len() / 64 < xchacha_max_blocks() ==> {
                &&& r == Ok::<[u8; 32], CryptoError>(blake3_digest(data@))
                &&& exists|n: [u8; 24]| final(self)@.chunks
                    == old(self)@.chunks.push((blake3_digest(data@), #[trigger] stored_chunk(old(self)@.vault_key, data@, n)))
                &&& assoc_get(final(self)@.metadata, blake3_digest(data@)) matches Some(m)
                    && m == fresh_metadata(blake3_digest(data@), data@.len(), m.created_at)
                &&& forall|k: [u8; 32]| k != blake3_digest(data@)
                    ==> #[trigger] assoc_get(final(self)@.metadata, k) == assoc_get(old(self)@.metadata, k)
            },
            !assoc_has(old(self)@.chunks, blake3_digest(data@)) && data@.len() / 64 >= xchacha_max_blocks()
                ==> r == Err::<[u8; 32], CryptoError>(CryptoError::EncryptionFailed) && final(self)@ == old(self)@,
    {
        let now = utc_now_ms();
        self.store_chunk_at(data, now)
    }

    /// Which of `ids` are stored here, each with its answer, in order.
    pub fn check_chunk_availability(&self, ids: &[[u8; 32]]) -> (r: Vec<([u8; 32], bool)>)
        ensures
            r@.len() == ids@.len(),
            forall|i: int| 0 <= i < ids@.len() ==> #[trigger] r@[i] == (ids@[i], assoc_get(self@.chunks, ids@[i]) is Some),
    {
        let mut r: Vec<([u8; 32], bool)> = Vec::new();
        let mut i: usize = 0;
        while i < ids.len()
            invariant
                i <= ids@.len(),
                r@.len() == i,
                forall|j: int| 0 <= j < i ==> #[trigger] r@[j] == (ids@[j], assoc_get(self@.chunks, ids@[j]) is Some),
            decreases ids@.len() - i,
        {
            let h = self.has_chunk(&ids[i]);
            r.push((ids[i], h));
            i = i + 1;
        }
        r
    }

    /// The ids among `ids` of chunks not stored here, in order: the ones
    /// to ask peers for.
    pub fn fetch_missing_chunks(&self, ids: &[[u8; 32]]) -> (r: Vec<[u8; 32]>)
        ensures
            r@ == missing_chunk_ids(self@.chunks, ids@),
    {
        let mut r: Vec<[u8; 32]> = Vec::new();
        let mut i: usize = 0;
        while i < ids.len()
            invariant
                i <= ids@.len(),
                r@ == missing_chunk_ids(self@.chunks, ids@.take(i as int)),
            decreases ids@.len() - i,
        {
            proof {
                assert(ids@.take(i + 1).drop_last() =~= ids@.take(i as int));
                assert(ids@.take(i + 1).last() == ids@[i as int]);
            }
            if !self.has_chunk(&ids[i]) {
                r.push(ids[i]);
            }
            i = i + 1;
        }
        proof { assert(ids@.take(ids@.len() as int) =~= ids@); }
        r
    }

    /// The metadata held for a chunk.
    pub fn get_chunk_metadata(&self, id: &[u8; 32]) -> (r: Option<ChunkMetadata>)
        ensures
            match r {
                Some(m) => assoc_get(self@.metadata, *id) == Some(m@),
                None => assoc_get(self@.metadata, *id) is None,
            },
    {
        match self.find_metadata(id) {
            Some(i) => Some(copy_metadata(&self.metadata[i])),
            None => None,
        }
    }

    /// All metadata held, in the order the chunks were first recorded.
    pub fn get_all_chunk_metadata(&self) -> (r: Vec<ChunkMetadata>)
        ensures
            r@.len() == self@.metadata.len(),
            forall|i: int| 0 <= i < r@.len() ==> #[trigger] r@[i]@ == self@.metadata[i].1,
    {
        let mut r: Vec<ChunkMetadata> = Vec::new();
        let mut i: usize = 0;
        while i < self.metadata.len()
            invariant
                i <= self.metadata@.len(),
                r@.len() == i,
                forall|j: int| 0 <= j < i ==> #[trigger] r@[j]@ == self@.metadata[j].1,
            decreases self.metadata@.len() - i,
        {
            r.push(copy_metadata(&self.metadata[i]));
            i = i + 1;
        }
        r
    }

    /// Drops the metadata of chunks recorded `max_age_days` days or more
    /// before `now` (Unix milliseconds).
    pub fn cleanup_old_metadata_at(&mut self, max_age_days: u64, now: i64)
        requires
            max_age_days * MS_PER_DAY <= i64::MAX,
            now - max_age_days * MS_PER_DAY >= EARLIEST_TIME_MS,
        ensures
            final(self)@.vault_key == old(self)@.vault_key,
            final(self)@.chunks == old(self)@.chunks,
            final(self)@.peers == old(self)@.peers,
            final(self)@.metadata == metadata_newer_than(old(self)@.metadata, now - max_age_days * MS_PER_DAY),
    {
        let age: i64 = (max_age_days as i64) * MS_PER_DAY;
        let cutoff: i64 = now - age;
        let ghost before = self@.metadata;
        let mut kept: Vec<ChunkMetadata> = Vec::new();
        let mut i: usize = 0;
        while i < self.metadata.len()
            invariant
                i <= self.metadata@.len(),
                before == self@.metadata,
                cutoff == now - max_age_days * MS_PER_DAY,
                Seq::new(kept@.len(), |j: int| (kept@[j].chunk_id, kept@[j]@))
                    == metadata_newer_than(before.take(i as int), cutoff as int),
            decreases self.metadata@.len() - i,
        {
            proof {
                assert(before.take(i + 1).drop_last() =~= before.take(i as int));
                assert(before.take(i + 1).last() == before[i as int]);
            }
            let ghost kv = Seq::new(kept@.len(), |j: int| (kept@[j].chunk_id, kept@[j]@));
            if self.metadata[i].created_at > cutoff {
                let m = copy_metadata(&self.metadata[i]);
                kept.push(m);
                proof {
                    assert(Seq::new(kept@.len(), |j: int| (kept@[j].chunk_id, kept@[j]@)) =~= kv.push(before[i as int]));
                }
            }
            i = i + 1;
        }
        proof { assert(before.take(before.len() as int) =~= before); }
        self.metadata = kept;
    }

    /// Drops old metadata, measured from now; see
    /// [`ChunkSyncManager::cleanup_old_metadata_at`]. When the cut-off time
    /// would fall before [`EARLIEST_TIME_MS`], nothing is dropped.
    pub fn cleanup_old_metadata(&mut self, max_age_days: u64)
        requires
            max_age_days * MS_PER_DAY <= i64::MAX,
        ensures
            final(self)@.vault_key == old(self)@.vault_key,
            final(self)@.chunks == old(self)@.chunks,
            final(self)@.peers == old(self)@.peers,
            exists|now: i64| EARLIEST_TIME_MS <= now <= LATEST_TIME_MS && #[trigger] cleanup_outcome(old(self)@.metadata, max_age_days, now) == final(self)@.metadata,
    {
        let now = utc_now_ms();
        let age: i64 = (max_age_days as i64) * MS_PER_DAY;
        if (now as i128) - (age as i128) < EARLIEST_TIME_MS as i128 {
            proof { assert(cleanup_outcome(self@.metadata, max_age_days, now) == self@.metadata); }
            return;
        }
        let ghost before = self@.metadata;
        self.cleanup_old_metadata_at(max_age_days, now);
        proof { assert(cleanup_outcome(before, max_age_days, now) == self@.metadata); }
    }

    fn find_peer(&self, name: &String) -> (r: Option<usize>)
        ensures
            match r {
                Some(i) => i < self@.peers.len() && self@.peers[i as int].0 == name@
                    && (forall|j: int| 0 <= j < i ==> self@.peers[j].0 != name@),
                None => assoc_get(self@.peers, name@) is None
                    && (forall|j: int| 0 <= j < self@.peers.len() ==> self@.peers[j].0 != name@),
            },
    {
        let mut i: usize = 0;
        while i < self.peers.len()
            invariant
                i <= self.peers@.len(),
                forall|j: int| 0 <= j < i ==> self@.peers[j].0 != name@,
            decreases self.peers@.len() - i,
        {
            if str_eq(self.peers[i].0.as_str(), name.as_str()) {
                return Some(i);
            }
            i = i + 1;
        }
        proof { lemma_assoc_absent(self@.peers, name@); }
        None
    }

    /// Answers a peer's question of which chunks are held here, and
    /// remembers that the asking peer holds those of them that are held
    /// here too. `now` (Unix milliseconds) dates the answer.
    pub fn handle_availability_request_at(&mut self, request: ChunkSyncRequest, now: i64) -> (r: ChunkSyncResponse)
        ensures
            r.availability@ == Seq::new(request.chunk_ids@.len(), |i: int| assoc_get(old(self)@.chunks, request.chunk_ids@[i]) is Some),
            r.peer_id@ == local_peer(),
            r.timestamp == now,
            final(self)@.vault_key == old(self)@.vault_key,
            final(self)@.chunks == old(self)@.chunks,
            final(self)@.metadata == old(self)@.metadata,
            forall|p: Seq<char>| (#[trigger] assoc_get(final(self)@.peers, p) is Some)
                == (assoc_get(old(self)@.peers, p) is Some || p == request.peer_id@),
            forall|p: Seq<char>, c: [u8; 32]| #[trigger] peer_has(final(self)@.peers, p, c)
                == (peer_has(old(self)@.peers, p, c) || (p == request.peer_id@ && request.chunk_ids@.contains(c)
                    && assoc_get(old(self)@.chunks, c) is Some)),
    {
        let ghost ids = request.chunk_ids@;
        let mut availability: Vec<bool> = Vec::new();
        let mut i: usize = 0;
        while i < request.chunk_ids.len()
            invariant
                i <= ids.len(),
                ids == request.chunk_ids@,
                availability@.len() == i,
                forall|j: int| 0 <= j < i ==> #[trigger] availability@[j] == (assoc_get(self@.chunks, ids[j]) is Some),
            decreases ids.len() - i,
        {
            let h = self.has_chunk(&request.chunk_ids[i]);
            availability.push(h);
            i = i + 1;
        }
        let ghost before = self@.peers;
        let found = self.find_peer(&request.peer_id);
        let mut list: Vec<[u8; 32]> = match found {
            Some(p) => copy_ids(&self.peers[p].1),
            None => Vec::new(),
        };
        let ghost start = list@;
        let mut i: usize = 0;
        while i < request.chunk_ids.len()
            invariant
                i <= ids.len(),
                ids == request.chunk_ids@,
                availability@.len() == ids.len(),
                forall|j: int| 0 <= j < ids.len() ==> #[trigger] availability@[j] == (assoc_get(self@.chunks, ids[j]) is Some),
                forall|c: [u8; 32]| #[trigger] list@.contains(c)
                    == (start.contains(c) || exists|j: int| 0 <= j < i && ids[j] == c && availability@[j]),
            decreases ids.len() - i,
        {
            if availability[i] && !contains_hash(list.as_slice(), &request.chunk_ids[i]) {
                let ghost l0 = list@;
                list.push(request.chunk_ids[i]);
                proof {
                    assert forall|c: [u8; 32]| #[trigger] list@.contains(c) == (l0.contains(c) || c == ids[i as int]) by {
                        if list@.contains(c) {
                            let k = choose|k: int| 0 <= k < list@.len() && list@[k] == c;
                            if k < l0.len() { assert(l0[k] == c); }
                        }
                        if l0.contains(c) {
                            let k = choose|k: int| 0 <= k < l0.len() && l0[k] == c;
                            assert(list@[k] == c);
                        }
                        if c == ids[i as int] { assert(list@[l0.len() as int] == c); }
                    }
                }
            }
            proof {
                assert forall|c: [u8; 32]| #[trigger] list@.contains(c)
                    == (start.contains(c) || exists|j: int| 0 <= j < i + 1 && ids[j] == c && availability@[j]) by {
                    if exists|j: int| 0 <= j < i + 1 && ids[j] == c && availability@[j] {
                        let j = choose|j: int| 0 <= j < i + 1 && ids[j] == c && availability@[j];
                        if j == i {
                            assert(list@.contains(c));
                        }
                    }
                }
            }
            i = i + 1;
        }
        let ghost final_set = list@.to_set();
        proof {
            assert forall|c: [u8; 32]| #[trigger] final_set.contains(c)
                == (start.contains(c) || (ids.contains(c) && assoc_get(self@.chunks, c) is Some)) by {
                if ids.contains(c) && assoc_get(self@.chunks, c) is Some {
                    let j = choose|j: int| 0 <= j < ids.len() && ids[j] == c;
                    assert(availability@[j]);
                }
                if exists|j: int| 0 <= j < ids.len() && ids[j] == c && availability@[j] {
                    let j = choose|j: int| 0 <= j < ids.len() && ids[j] == c && availability@[j];
                    assert(ids.contains(c));
                }
            }
        }
        let name = copy_string(&request.peer_id);
        match found {
            Some(p) => {
                self.peers.set(p, (name, list));
                proof {
                    assert(self@.peers =~= before.update(p as int, (before[p as int].0, final_set)));
                    assert forall|n: Seq<char>| #[trigger] assoc_get(self@.peers, n)
                        == (if n == request.peer_id@ { Some(final_set) } else { assoc_get(before, n) }) by {
                        lemma_assoc_update(before, p as int, final_set, n);
                    }
                    lemma_assoc_found(before, p as int, request.peer_id@);
                    assert(start.to_set() == before[p as int].1);
                    assert forall|q: Seq<char>, c: [u8; 32]| #[trigger] peer_has(self@.peers, q, c)
                        == (peer_has(before, q, c) || (q == request.peer_id@ && ids.contains(c)
                            && assoc_get(self@.chunks, c) is Some)) by {
                        if q == request.peer_id@ {
                            assert(start.to_set().contains(c) == start.contains(c));
                        }
                    }
                }
            }
            None => {
                self.peers.push((name, list));
                proof {
                    assert(self@.peers =~= before.push((request.peer_id@, final_set)));
                    assert forall|n: Seq<char>| #[trigger] assoc_get(self@.peers, n)
                        == (if n == request.peer_id@ { Some(final_set) } else { assoc_get(before, n) }) by {
                        lemma_assoc_push(before, request.peer_id@, final_set, n);
                    }
                    assert(start =~= Seq::<[u8; 32]>::empty());
                    assert forall|q: Seq<char>, c: [u8; 32]| #[trigger] peer_has(self@.peers, q, c)
                        == (peer_has(before, q, c) || (q == request.peer_id@ && ids.contains(c)
                            && assoc_get(self@.chunks, c) is Some)) by {
                        if q == request.peer_id@ {
                            assert(!start.contains(c));
                        }
                    }
                }
            }
        }
        let local = String::from_str("local");
        proof { reveal_strlit("local"); }
        proof { assert(availability@ =~= Seq::new(ids.len(), |i: int| assoc_get(old(self)@.chunks, ids[i]) is Some)); }
        ChunkSyncResponse { availability, peer_id: local, timestamp: now }
    }

    /// Answers a peer's availability question now; see
    /// [`ChunkSyncManager::handle_availability_request_at`].
    pub fn handle_availability_request(&mut self, request: ChunkSyncRequest) -> (r: ChunkSyncResponse)
        ensures
            r.availability@ == Seq::new(request.chunk_ids@.len(), |i: int| assoc_get(old(self)@.chunks, request.chunk_ids@[i]) is Some),
            r.peer_id@ == local_peer(),
            final(self)@.vault_key == old(self)@.vault_key,
            final(self)@.chunks == old(self)@.chunks,
            final(self)@.metadata == old(self)@.metadata,
            forall|p: Seq<char>| (#[trigger] assoc_get(final(self)@.peers, p) is Some)
                == (assoc_get(old(self)@.peers, p) is Some || p == request.peer_id@),
            forall|p: Seq<char>, c: [u8; 32]| #[trigger] peer_has(final(self)@.peers, p, c)
                == (peer_has(old(self)@.peers, p, c) || (p == request.peer_id@ && request.chunk_ids@.contains(c)
                    && assoc_get(old(self)@.chunks, c) is Some)),
    {
        let now = utc_now_ms();
        self.handle_availability_request_at(request, now)
    }

    /// The peers seen to hold a chunk, in the order they were first heard of.
    pub fn get_chunk_peers(&self, id: &[u8; 32]) -> (r: Vec<String>)
        ensures
            Seq::new(r@.len(), |i: int| r@[i]@) == chunk_holders(self@.peers, *id),
    {
        let mut r: Vec<String> = Vec::new();
        let mut i: usize = 0;
        while i < self.peers.len()
            invariant
                i <= self.peers@.len(),
                Seq::new(r@.len(), |k: int| r@[k]@) == chunk_holders(self@.peers.take(i as int), *id),
            decreases self.peers@.len() - i,
        {
            proof {
                assert(self@.peers.take(i + 1).drop_last() =~= self@.peers.take(i as int));
                assert(self@.peers.take(i + 1).last() == self@.peers[i as int]);
            }
            let ghost rv = Seq::new(r@.len(), |k: int| r@[k]@);
            if contains_hash(self.peers[i].1.as_slice(), id) {
                r.push(copy_string(&self.peers[i].0));
                proof { assert(Seq::new(r@.len(), |k: int| r@[k]@) =~= rv.push(self@.peers[i as int].0)); }
            }
            i = i + 1;
        }
        proof { assert(self@.peers.take(self@.peers.len() as int) =~= self@.peers); }
        r
    }

    /// Answers a peer's request for chunks with those held here, each
    /// split into its nonce and ciphertext. `now` (Unix milliseconds)
    /// dates the answer.
    pub fn handle_fetch_request_at(&self, request: ChunkFetchRequest, now: i64) -> (r: ChunkFetchResponse)
        ensures
            chunk_data_views(r.chunks@) == fetched_chunks(self@.chunks, request.chunk_ids@),
            r.peer_id@ == local_peer(),
            r.timestamp == now,
    {
        let ghost ids = request.chunk_ids@;
        let mut out: Vec<ChunkData> = Vec::new();
        let mut i: usize = 0;
        while i < request.chunk_ids.len()
            invariant
                i <= ids.len(),
                ids == request.chunk_ids@,
                Seq::new(out@.len(), |k: int| out@[k]@) == fetched_chunks(self@.chunks, ids.take(i as int)),
            decreases ids.len() - i,
        {
            proof {
                assert(ids.take(i + 1).drop_last() =~= ids.take(i as int));
                assert(ids.take(i + 1).last() == ids[i as int]);
            }
            let ghost ov = Seq::new(out@.len(), |k: int| out@[k]@);
            match self.find_chunk(&request.chunk_ids[i]) {
                Some(j) => {
                    let stored = self.chunks[j].1.as_slice();
                    let k: usize = if stored.len() < 24 { stored.len() } else { 24 };
                    let nonce = vstd::slice::slice_to_vec(slice_subrange(stored, 0, k));
                    let data = vstd::slice::slice_to_vec(slice_subrange(stored, k, stored.len()));
                    let c = ChunkData { chunk_id: request.chunk_ids[i], encrypted_data: data, nonce };
                    proof {
                        assert(c@.nonce =~= stored@.take(k as int));
                        assert(c@.encrypted_data =~= stored@.skip(k as int));
                        assert(c@ == split_stored(ids[i as int], stored@));
                    }
                    out.push(c);
                    proof { assert(Seq::new(out@.len(), |k: int| out@[k]@) =~= ov.push(split_stored(ids[i as int], stored@))); }
                }
                None => {}
            }
            i = i + 1;
        }
        proof { assert(ids.take(ids.len() as int) =~= ids); }
        let local = String::from_str("local");
        proof { reveal_strlit("local"); }
        ChunkFetchResponse { chunks: out, peer_id: local, timestamp: now }
    }

    /// Answers a request for chunks now; see
    /// [`ChunkSyncManager::handle_fetch_request_at`].
    pub fn handle_fetch_request(&self, request: ChunkFetchRequest) -> (r: ChunkFetchResponse)
        ensures
            chunk_data_views(r.chunks@) == fetched_chunks(self@.chunks, request.chunk_ids@),
            r.peer_id@ == local_peer(),
    {
        let now = utc_now_ms();
        self.handle_fetch_request_at(request, now)
    }

    /// Stores bytes under an id, in place of what was held there.
    fn put_chunk(&mut self, id: [u8; 32], bytes: Vec<u8>)
        ensures
            final(self)@.vault_key == old(self)@.vault_key,
            final(self)@.metadata == old(self)@.metadata,
            final(self)@.peers == old(self)@.peers,
            forall|k: [u8; 32]| #[trigger] assoc_get(final(self)@.chunks, k)
                == (if k == id { Some(bytes@) } else { assoc_get(old(self)@.chunks, k) }),
    {
        let ghost bv = bytes@;
        let ghost before = self@.chunks;
        match self.find_chunk(&id) {
            Some(i) => {
                self.chunks.set(i, (id, bytes));
                proof {
                    assert(self@.chunks =~= before.update(i as int, (id, bv)));
                    assert forall|k: [u8; 32]| #[trigger] assoc_get(self@.chunks, k)
                        == (if k == id { Some(bv) } else { assoc_get(before, k) }) by {
                        lemma_assoc_update(before, i as int, bv, k);
                    }
                }
            }
            None => {
                self.chunks.push((id, bytes));
                proof {
                    assert(self@.chunks =~= before.push((id, bv)));
                    assert forall|k: [u8; 32]| #[trigger] assoc_get(self@.chunks, k)
                        == (if k == id { Some(bv) } else { assoc_get(before, k) }) by {
                        lemma_assoc_push(before, id, bv, k);
                    }
                }
            }
        }
    }

    /// Stores the chunks a peer sent (nonce in front of ciphertext, in
    /// place of anything held under the same id) and records that they are
    /// here and that the peer holds them. `now` (Unix milliseconds) dates
    /// the metadata of chunks not known before.
    pub fn handle_fetch_response_at(&mut self, response: ChunkFetchResponse, now: i64)
        ensures
            final(self)@.vault_key == old(self)@.vault_key,
            final(self)@.peers == old(self)@.peers,
            forall|k: [u8; 32]| #[trigger] assoc_get(final(self)@.chunks, k)
                == stored_after(old(self)@.chunks, chunk_data_views(response.chunks@), k),
            forall|k: [u8; 32]| #[trigger] assoc_get(final(self)@.metadata, k)
                == metadata_after(old(self)@.metadata, chunk_data_views(response.chunks@),
                    response.peer_id@, now, k),
    {
        let ghost cs = chunk_data_views(response.chunks@);
        let ghost peer = response.peer_id@;
        let mut i: usize = 0;
        while i < response.chunks.len()
            invariant
                i <= cs.len(),
                cs == chunk_data_views(response.chunks@),
                peer == response.peer_id@,
                self@.vault_key == old(self)@.vault_key,
                self@.peers == old(self)@.peers,
                forall|k: [u8; 32]| #[trigger] assoc_get(self@.chunks, k) == stored_after(old(self)@.chunks, cs.take(i as int), k),
                forall|k: [u8; 32]| #[trigger] assoc_get(self@.metadata, k)
                    == metadata_after(old(self)@.metadata, cs.take(i as int), peer, now, k),
            decreases cs.len() - i,
        {
            let ghost t = cs.take(i + 1);
            proof {
                assert(t.drop_last() =~= cs.take(i as int));
                assert(t.last() == cs[i as int]);
            }
            let c = &response.chunks[i];
            let id = c.chunk_id;
            let bytes = concat_bytes(&c.nonce, &c.encrypted_data);
            let ghost prev = assoc_get(self@.metadata, id);
            self.put_chunk(id, bytes);
            proof {
                assert forall|k: [u8; 32]| #[trigger] assoc_get(self@.chunks, k) == stored_after(old(self)@.chunks, t, k) by {
                    assert(stored_after(old(self)@.chunks, t, k) == (if t.last().chunk_id == k {
                        Some(t.last().nonce + t.last().encrypted_data)
                    } else {
                        stored_after(old(self)@.chunks, t.drop_last(), k)
                    }));
                }
            }
            let m = match self.find_metadata(&id) {
                Some(j) => {
                    let mut m = copy_metadata(&self.metadata[j]);
                    m.is_available = true;
                    if !contains_name(&m.available_peers, &response.peer_id) {
                        let ghost pv = m@.available_peers;
                        m.available_peers.push(copy_string(&response.peer_id));
                        proof { assert(m@.available_peers =~= pv.push(peer)); }
                    }
                    m
                }
                None => {
                    let mut peers: Vec<String> = Vec::new();
                    peers.push(copy_string(&response.peer_id));
                    let m = ChunkMetadata {
                        chunk_id: id,
                        size: c.encrypted_data.len() as u64,
                        created_at: now,
                        is_available: true,
                        available_peers: peers,
                    };
                    proof { assert(m@.available_peers =~= seq![peer]); }
                    m
                }
            };
            proof { assert(m@ == received_metadata(prev, cs[i as int], peer, now)); }
            self.put_metadata(m);
            proof {
                assert forall|k: [u8; 32]| #[trigger] assoc_get(self@.metadata, k)
                    == metadata_after(old(self)@.metadata, t, peer, now, k) by {
                    assert(metadata_after(old(self)@.metadata, t, peer, now, k) == (if t.last().chunk_id == k {
                        Some(received_metadata(metadata_after(old(self)@.metadata, t.drop_last(), peer, now, k), t.last(), peer, now))
                    } else {
                        metadata_after(old(self)@.metadata, t.drop_last(), peer, now, k)
                    }));
                }
            }
            i = i + 1;
        }
        proof { assert(cs.take(cs.len() as int) =~= cs); }
    }

    /// Stores the chunks a peer sent, now; see
    /// [`ChunkSyncManager::handle_fetch_response_at`].
    pub fn handle_fetch_response(&mut self, response: ChunkFetchResponse)
        ensures
            final(self)@.vault_key == old(self)@.vault_key,
            final(self)@.peers == old(self)@.peers,
            forall|k: [u8; 32]| #[trigger] assoc_get(final(self)@.chunks, k)
                == stored_after(old(self)@.chunks, chunk_data_views(response.chunks@), k),
            exists|now: i64| #[trigger] metadata_received(final(self)@.metadata, old(self)@.metadata,
                chunk_data_views(response.chunks@), response.peer_id@, now),
    {
        let now = utc_now_ms();
        let ghost cs = chunk_data_views(response.chunks@);
        let ghost peer = response.peer_id@;
        self.handle_fetch_response_at(response, now);
        proof { assert(metadata_received(self@.metadata, old(self)@.metadata, cs, peer, now)); }
    }

    /// Records metadata, in place of any held for the same chunk.
    fn put_metadata(&mut self, m: ChunkMetadata)
        ensures
            final(self)@.vault_key == old(self)@.vault_key,
            final(self)@.chunks == old(self)@.chunks,
            final(self)@.peers == old(self)@.peers,
            forall|k: [u8; 32]| #[trigger] assoc_get(final(self)@.metadata, k)
                == (if k == m.chunk_id { Some(m@) } else { assoc_get(old(self)@.metadata, k) }),
    {
        let ghost id = m.chunk_id;
        let ghost mv = m@;
        let ghost before = self@.metadata;
        match self.find_metadata(&m.chunk_id) {
            Some(i) => {
                self.metadata.set(i, m);
                proof {
                    assert(self@.metadata =~= before.update(i as int, (id, mv)));
                    assert forall|k: [u8; 32]| #[trigger] assoc_get(self@.metadata, k)
                        == (if k == id { Some(mv) } else { assoc_get(before, k) }) by {
                        lemma_assoc_update(before, i as int, mv, k);
                    }
                }
            }
            None => {
                self.metadata.push(m);
                proof {
                    assert(self@.metadata =~= before.push((id, mv)));
                    assert forall|k: [u8; 32]| #[trigger] assoc_get(self@.metadata, k)
                        == (if k == id { Some(mv) } else { assoc_get(before, k) }) by {
                        lemma_assoc_push(before, id, mv, k);
                    }
                }
            }
        }
    }

    /// Stores a chunk, named by the hash of its plaintext and encrypted
    /// under the key derived from it, with a fresh nonce; a chunk already
    /// held is left as it is. `now` (Unix milliseconds) dates the metadata.
    pub fn store_chunk_at(&mut self, data: &[u8], now: i64) -> (r: Result<[u8; 32], CryptoError>)
        ensures
            final(self)@.vault_key == old(self)@.vault_key,
            final(self)@.peers == old(self)@.peers,
            assoc_has(old(self)@.chunks, blake3_digest(data@)) ==> r == Ok::<[u8; 32], CryptoError>(blake3_digest(data@))
                && final(self)@ == old(self)@,
            !assoc_has(old(self)@.chunks, blake3_digest(data@)) && data@.len() / 64 < xchacha_max_blocks() ==> {
                &&& r == Ok::<[u8; 32], CryptoError>(blake3_digest(data@))
                &&& exists|n: [u8; 24]| final(self)@.chunks
                    == old(self)@.chunks.push((blake3_digest(data@), #[trigger] stored_chunk(old(self)@.vault_key, data@, n)))
                &&& forall|k: [u8; 32]| #[trigger] assoc_get(final(self)@.metadata, k) == (if k == blake3_digest(data@) {
                    Some(fresh_metadata(k, data@.len(), now))
                } else {
                    assoc_get(old(self)@.metadata, k)
                })
            },
            !assoc_has(old(self)@.chunks, blake3_digest(data@)) && data@.len() / 64 >= xchacha_max_blocks()
                ==> r == Err::<[u8; 32], CryptoError>(CryptoError::EncryptionFailed) && final(self)@ == old(self)@,
    {
        let id = blake3_hash(data);
        if self.has_chunk(&id) {
            proof { lemma_assoc_some(old(self)@.chunks, id); }
            return Ok(id);
        }
        proof { lemma_assoc_some(old(self)@.chunks, id); }
        let key = match derive_chunk_key(&self.vault_key, &id) {
            Ok(k) => k,
            Err(e) => { return Err(e); }
        };
        let nonce = generate_nonce();
        let sealed = match encrypt(&key, &nonce, data) {
            Ok(c) => c,
            Err(e) => { return Err(e); }
        };
        let front = vstd::slice::slice_to_vec(nonce.as_slice());
        let stored = concat_bytes(&front, &sealed);
        let ghost before = self@.chunks;
        self.chunks.push((id, stored));
        proof {
            assert(stored@ == stored_chunk(self.vault_key, data@, nonce));
            assert(self@.chunks =~= before.push((id, stored_chunk(self.vault_key, data@, nonce))));
        }
        let m = ChunkMetadata {
            chunk_id: id,
            size: data.len() as u64,
            created_at: now,
            is_available: true,
            available_peers: Vec::new(),
        };
        proof {
            assert(m@.available_peers =~= Seq::<Seq<char>>::empty());
            assert(m@ == fresh_metadata(id, data@.len(), now));
        }
        self.put_metadata(m);
        proof {
            assert(self@.chunks == old(self)@.chunks.push((id, stored_chunk(old(self)@.vault_key, data@, nonce))));
        }
        Ok(id)
    }

    /// Reads a chunk back: nothing when it is not stored here, its
    /// plaintext when it opens under the key of its id, an error when it
    /// does not. A chunk stored from some data gives that data back.
    pub fn get_chunk(&self, id: &[u8; 32]) -> (r: Result<Option<Vec<u8>>, CryptoError>)
        ensures
            match assoc_get(self@.chunks, *id) {
                None => r matches Ok(None),
                Some(s) => match open_stored(self@.vault_key, *id, s) {
                    Some(p) => r matches Ok(Some(v)) && v@ == p,
                    None => r == Err::<Option<Vec<u8>>, CryptoError>(CryptoError::DecryptionFailed),
                },
            },
            forall|data: Seq<u8>, n: [u8; 24]|
                assoc_get(self@.chunks, *id) == Some(#[trigger] stored_chunk(self@.vault_key, data, n))
                && blake3_digest(data) == *id && data.len() / 64 < xchacha_max_blocks()
                ==> (r matches Ok(Some(v)) && v@ == data),
    {
        let i = match self.find_chunk(id) {
            Some(i) => i,
            None => { return Ok(None); }
        };
        let stored = &self.chunks[i].1;
        if stored.len() < 24 {
            return Err(CryptoError::DecryptionFailed);
        }
        let nonce = bytes_to_arr24(slice_subrange(stored.as_slice(), 0, 24));
        let key = match derive_chunk_key(&self.vault_key, id) {
            Ok(k) => k,
            Err(e) => { return Err(e); }
        };
        let body = slice_subrange(stored.as_slice(), 24, stored.len());
        proof {
            assert(nonce@ =~= stored@.take(24));
            assert(body@ =~= stored@.skip(24));
            assert forall|data: Seq<u8>, n: [u8; 24]|
                stored@ == #[trigger] stored_chunk(self@.vault_key, data, n) && blake3_digest(data) == *id
                implies body@ == xchacha_seal(key@, nonce@, data) && nonce == n by {
                assert(stored@.take(24) =~= n@);
                assert(stored@.skip(24) =~= xchacha_seal(key@, n@, data));
                assert(nonce@ == n@);
            }
        }
        match decrypt(&key, &nonce, body) {
            Ok(p) => Ok(Some(p)),
            Err(e) => Err(e),
        }
    }
}

/// Where a chunk is kept below the chunk directory: in the directory named
/// by the first two hex digits of its id, within it the one named by the
/// next two, the file named by all of them.
pub fn chunk_path_parts(chunk_id: &[u8; 32]) -> (r: (String, String, String))
    ensures
        r.0@ == crate::validation::hex_lower(chunk_id@).take(2),
        r.1@ == crate::validation::hex_lower(chunk_id@).subrange(2, 4),
        r.2@ == crate::validation::hex_lower(chunk_id@),
{
    let hex = crate::validation::hex_encode(chunk_id.as_slice());
    proof { crate::validation::lemma_hex_lower_len(chunk_id@); }
    let first = hex.as_str().substring_ascii(0, 2);
    let second = hex.as_str().substring_ascii(2, 4);
    let r = (String::from_str(first), String::from_str(second), String::from_str(hex.as_str()));
    proof {
        assert(first@ =~= crate::validation::hex_lower(chunk_id@).take(2));
    }
    r
}

} // verus!
