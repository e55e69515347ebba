use saved_core::chunks::{
    split_into_chunks, ChunkFetchRequest, ChunkFetchResponse, ChunkSyncManager, ChunkSyncRequest,
};
use saved_core::crypto::{blake3_hash, CryptoError};
use saved_core::types::ChunkData;

#[test]
fn test_chunk_storage_and_retrieval() {
    let vault_key = [1u8; 32];
    let mut manager = ChunkSyncManager::new(vault_key);

    let test_data = b"Hello, World!";
    let chunk_id = manager.store_chunk(test_data).unwrap();

    let retrieved_data = manager.get_chunk(&chunk_id).unwrap().unwrap();
    assert_eq!(test_data, retrieved_data.as_slice());
}

#[test]
fn test_chunk_availability() {
    let vault_key = [1u8; 32];
    let mut manager = ChunkSyncManager::new(vault_key);

    let test_data = b"Test chunk data";
    let chunk_id = manager.store_chunk(test_data).unwrap();

    let availability = manager.check_chunk_availability(&[chunk_id]);
    assert_eq!(availability, vec![(chunk_id, true)]);
}

#[test]
fn test_chunk_metadata() {
    let vault_key = [1u8; 32];
    let mut manager = ChunkSyncManager::new(vault_key);

    let test_data = b"Metadata test data";
    let chunk_id = manager.store_chunk(test_data).unwrap();

    let metadata = manager.get_chunk_metadata(&chunk_id).unwrap();
    assert_eq!(metadata.chunk_id, chunk_id);
    assert_eq!(metadata.size, test_data.len() as u64);
    assert!(metadata.is_available);
}

#[test]
fn chunk_id_is_content_hash_and_store_is_idempotent() {
    let mut manager = ChunkSyncManager::new([2u8; 32]);
    let id = manager.store_chunk_at(b"same bytes", 10).unwrap();
    assert_eq!(id, blake3_hash(b"same bytes"));
    let again = manager.store_chunk_at(b"same bytes", 20).unwrap();
    assert_eq!(again, id);
    // The metadata keeps the first date.
    assert_eq!(manager.get_chunk_metadata(&id).unwrap().created_at, 10);
    assert_eq!(manager.get_all_chunk_metadata().len(), 1);
}

#[test]
fn stored_chunk_is_encrypted_with_nonce_in_front() {
    let mut manager = ChunkSyncManager::new([3u8; 32]);
    let data = b"secret attachment bytes";
    let id = manager.store_chunk_at(data, 1).unwrap();
    let response = manager.handle_fetch_request_at(
        ChunkFetchRequest { chunk_ids: vec![id], peer_id: "peer".to_string(), timestamp: 0 },
        5,
    );
    assert_eq!(response.peer_id, "local");
    assert_eq!(response.timestamp, 5);
    assert_eq!(response.chunks.len(), 1);
    assert_eq!(response.chunks[0].nonce.len(), 24);
    assert_eq!(response.chunks[0].encrypted_data.len(), data.len() + 16);
    assert_ne!(response.chunks[0].encrypted_data[..data.len()], data[..]);
}

#[test]
fn unknown_chunk_reads_as_none() {
    let manager = ChunkSyncManager::new([4u8; 32]);
    assert!(manager.get_chunk(&[9u8; 32]).unwrap().is_none());
    assert!(manager.get_chunk_metadata(&[9u8; 32]).is_none());
    assert!(!manager.has_chunk(&[9u8; 32]));
}

#[test]
fn chunk_under_another_vault_key_does_not_open() {
    let mut a = ChunkSyncManager::new([5u8; 32]);
    let id = a.store_chunk_at(b"payload", 1).unwrap();
    let sent = a.handle_fetch_request_at(
        ChunkFetchRequest { chunk_ids: vec![id], peer_id: "b".to_string(), timestamp: 0 },
        2,
    );
    let mut b = ChunkSyncManager::new([6u8; 32]);
    b.handle_fetch_response_at(sent, 3);
    assert!(b.has_chunk(&id));
    assert_eq!(b.get_chunk(&id), Err(CryptoError::DecryptionFailed));
}

#[test]
fn fetched_chunk_opens_under_same_vault_key() {
    let mut a = ChunkSyncManager::new([7u8; 32]);
    let id = a.store_chunk_at(b"shared payload", 1).unwrap();
    let sent = a.handle_fetch_request_at(
        ChunkFetchRequest { chunk_ids: vec![id, [0u8; 32]], peer_id: "b".to_string(), timestamp: 0 },
        2,
    );
    assert_eq!(sent.chunks.len(), 1);
    let mut b = ChunkSyncManager::new([7u8; 32]);
    b.handle_fetch_response_at(sent, 3);
    assert_eq!(b.get_chunk(&id).unwrap().unwrap(), b"shared payload".to_vec());
    let m = b.get_chunk_metadata(&id).unwrap();
    assert!(m.is_available);
    assert_eq!(m.available_peers, vec!["local".to_string()]);
    assert_eq!(m.created_at, 3);
    assert_eq!(m.size, (b"shared payload".len() + 16) as u64);
}

#[test]
fn fetch_response_adds_peer_once() {
    let mut m = ChunkSyncManager::new([8u8; 32]);
    let chunk = ChunkData { chunk_id: [1u8; 32], encrypted_data: vec![1, 2, 3], nonce: vec![0u8; 24] };
    let response = ChunkFetchResponse { chunks: vec![chunk.clone(), chunk], peer_id: "p".to_string(), timestamp: 0 };
    m.handle_fetch_response_at(response, 9);
    let md = m.get_chunk_metadata(&[1u8; 32]).unwrap();
    assert_eq!(md.available_peers, vec!["p".to_string()]);
    assert_eq!(md.size, 3);
}

#[test]
fn short_stored_chunk_fails_to_open() {
    let mut m = ChunkSyncManager::new([8u8; 32]);
    let chunk = ChunkData { chunk_id: [1u8; 32], encrypted_data: vec![], nonce: vec![1, 2, 3] };
    m.handle_fetch_response_at(ChunkFetchResponse { chunks: vec![chunk], peer_id: "p".to_string(), timestamp: 0 }, 1);
    assert_eq!(m.get_chunk(&[1u8; 32]), Err(CryptoError::DecryptionFailed));
    let back = m.handle_fetch_request_at(
        ChunkFetchRequest { chunk_ids: vec![[1u8; 32]], peer_id: "q".to_string(), timestamp: 0 },
        2,
    );
    assert_eq!(back.chunks[0].nonce, vec![1, 2, 3]);
    assert!(back.chunks[0].encrypted_data.is_empty());
}

#[test]
fn availability_request_records_peer_holdings() {
    let mut m = ChunkSyncManager::new([9u8; 32]);
    let id = m.store_chunk_at(b"x", 1).unwrap();
    let other = [7u8; 32];
    let r = m.handle_availability_request_at(
        ChunkSyncRequest { chunk_ids: vec![id, other], peer_id: "alice".to_string(), timestamp: 0 },
        4,
    );
    assert_eq!(r.availability, vec![true, false]);
    assert_eq!(r.peer_id, "local");
    assert_eq!(r.timestamp, 4);
    assert_eq!(m.get_chunk_peers(&id), vec!["alice".to_string()]);
    assert!(m.get_chunk_peers(&other).is_empty());
    m.handle_availability_request_at(
        ChunkSyncRequest { chunk_ids: vec![id], peer_id: "bob".to_string(), timestamp: 0 },
        5,
    );
    m.handle_availability_request_at(
        ChunkSyncRequest { chunk_ids: vec![id], peer_id: "alice".to_string(), timestamp: 0 },
        6,
    );
    assert_eq!(m.get_chunk_peers(&id), vec!["alice".to_string(), "bob".to_string()]);
}

#[test]
fn missing_chunks_in_order() {
    let mut m = ChunkSyncManager::new([9u8; 32]);
    let id = m.store_chunk_at(b"held", 1).unwrap();
    let a = [1u8; 32];
    let b = [2u8; 32];
    assert_eq!(m.fetch_missing_chunks(&[a, id, b, a]), vec![a, b, a]);
    assert!(m.fetch_missing_chunks(&[id]).is_empty());
}

#[test]
fn cleanup_drops_old_metadata() {
    let mut m = ChunkSyncManager::new([9u8; 32]);
    let day: i64 = 86_400_000;
    let old = m.store_chunk_at(b"old", 0).unwrap();
    let young = m.store_chunk_at(b"young", 9 * day).unwrap();
    m.cleanup_old_metadata_at(2, 10 * day);
    assert!(m.get_chunk_metadata(&old).is_none());
    assert!(m.get_chunk_metadata(&young).is_some());
    // The chunks themselves stay.
    assert!(m.has_chunk(&old));
    // Exactly at the cutoff is dropped too.
    m.cleanup_old_metadata_at(1, 10 * day);
    assert!(m.get_chunk_metadata(&young).is_none());
}

#[test]
fn split_into_chunks_cuts_and_joins() {
    let data: Vec<u8> = (0u8..10).collect();
    let pieces = split_into_chunks(&data, 4);
    assert_eq!(pieces, vec![vec![0, 1, 2, 3], vec![4, 5, 6, 7], vec![8, 9]]);
    assert_eq!(pieces.concat(), data);
    assert!(split_into_chunks(&[], 4).is_empty());
    assert_eq!(split_into_chunks(&data, 10), vec![data.clone()]);
}

#[test]
fn attachment_is_stored_piece_by_piece() {
    let mut m = ChunkSyncManager::new([1u8; 32]);
    let size = saved_core::types::CHUNK_SIZE;
    let data: Vec<u8> = (0..size + 5).map(|i| (i % 251) as u8).collect();
    let ids = m.process_attachment(&data, 1);
    assert_eq!(ids, vec![blake3_hash(&data[..size]), blake3_hash(&data[size..])]);
    assert_eq!(m.get_chunk(&ids[1]).unwrap().unwrap(), data[size..].to_vec());
    assert!(m.process_attachment(&[], 1).is_empty());
}

#[test]
fn test_chunk_store_and_refs() {
    let mut storage = saved_core::chunks::ChunkSyncManager::new([3u8; 32]);
    let data = b"some-bytes";
    let id = saved_core::crypto::blake3_hash(data);
    assert_eq!(storage.store_chunk(data).unwrap(), id);
    assert_eq!(storage.store_chunk(data).unwrap(), id);
    assert!(storage.has_chunk(&id));
    let chunk = storage.get_chunk(&id).unwrap().unwrap();
    assert_eq!(chunk, data);
}

#[test]
fn chunk_paths_fan_out_by_the_first_hex_digits() {
    let mut id = [0u8; 32];
    id[0] = 0xab;
    id[1] = 0x0c;
    let (a, b, c) = saved_core::chunks::chunk_path_parts(&id);
    assert_eq!(a, "ab");
    assert_eq!(b, "0c");
    assert_eq!(c.len(), 64);
    assert!(c.starts_with("ab0c00"));
}
