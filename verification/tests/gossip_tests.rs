use saved_core::attachments::AttachmentStore;
use saved_core::gossip::{
    announce_attachment_metadata, attachment_metadata_response, parse_saved_message, request_attachment_metadata,
    GossipError,
};
use saved_core::ids::MessageId;
use saved_core::protobuf::{AnnounceHeads, RequestAttachmentMetadataReq};
use saved_core::types::SavedMessageType;

fn store(t: &mut AttachmentStore, msg: u8, name: &str, size: u64, chunks: Vec<[u8; 32]>, at: i64) -> i64 {
    t.store_attachment_at(&MessageId([msg; 32]), name, size, &[9u8; 32], None, &chunks, at).unwrap()
}

#[test]
fn test_message_handling() {
    let announce = AnnounceHeads {
        feed_id: "test_feed".to_string(),
        lamport: 42,
        heads: vec![vec![1, 2, 3, 4], vec![5, 6, 7, 8]],
    };
    let data = announce.encode_to_vec();
    let result = parse_saved_message(&data);
    assert!(result.is_ok());
    match result.unwrap() {
        SavedMessageType::AnnounceHeads(parsed) => {
            assert_eq!(parsed.feed_id, "test_feed");
            assert_eq!(parsed.lamport, 42);
            assert_eq!(parsed.heads.len(), 2);
        }
        _ => panic!("Expected AnnounceHeads message type"),
    }
    let invalid_data = b"invalid message data";
    let result = parse_saved_message(invalid_data);
    assert!(result.is_err());
    assert!(matches!(result, Err(GossipError::UnknownMessageType)));
}

#[test]
fn metadata_answer_by_attachment_ids_keeps_the_order_asked() {
    let mut t = AttachmentStore::new();
    let a = store(&mut t, 1, "a.txt", 10, vec![[1u8; 32], [2u8; 32]], 100);
    let b = store(&mut t, 2, "b.txt", 20, vec![[3u8; 32]], 50);
    t.delete_attachment(b);
    let req = RequestAttachmentMetadataReq { message_ids: vec![vec![1u8; 32]], attachment_ids: vec![b, 99, a] };
    let resp = attachment_metadata_response(&t, &req);
    assert_eq!(resp.attachments.len(), 2);
    let first = &resp.attachments[0];
    assert_eq!(first.id, b);
    assert_eq!(first.filename, "b.txt");
    assert_eq!(first.status, 1);
    assert_eq!(first.message_id, vec![2u8; 32]);
    assert_eq!(first.chunk_ids, vec![vec![3u8; 32]]);
    let second = &resp.attachments[1];
    assert_eq!(second.id, a);
    assert_eq!(second.status, 0);
    assert_eq!(second.size, 10);
    assert_eq!(second.created_at, 100);
    assert_eq!(second.file_hash, vec![9u8; 32]);
    assert_eq!(second.chunk_ids, vec![vec![1u8; 32], vec![2u8; 32]]);
}

#[test]
fn metadata_answer_by_message_ids_skips_malformed_ids() {
    let mut t = AttachmentStore::new();
    let a = store(&mut t, 1, "late.txt", 10, vec![], 300);
    let b = store(&mut t, 1, "early.txt", 20, vec![[4u8; 32]], 100);
    let c = store(&mut t, 2, "other.txt", 30, vec![], 200);
    t.purge_attachment(c);
    let req = RequestAttachmentMetadataReq {
        message_ids: vec![vec![2u8; 32], vec![1u8; 31], vec![1u8; 32], vec![7u8; 32]],
        attachment_ids: vec![],
    };
    let resp = attachment_metadata_response(&t, &req);
    let ids: Vec<i64> = resp.attachments.iter().map(|m| m.id).collect();
    assert_eq!(ids, vec![c, b, a]);
    assert_eq!(resp.attachments[0].status, 2);
    assert!(resp.attachments[0].chunk_ids.is_empty());
    assert_eq!(resp.attachments[1].chunk_ids, vec![vec![4u8; 32]]);
    assert_eq!(resp.attachments[1].last_accessed, None);
}

#[test]
fn metadata_answer_to_an_empty_request_is_empty() {
    let mut t = AttachmentStore::new();
    store(&mut t, 1, "a.txt", 10, vec![], 100);
    let req = RequestAttachmentMetadataReq { message_ids: vec![], attachment_ids: vec![] };
    assert!(attachment_metadata_response(&t, &req).attachments.is_empty());
}

#[test]
fn announcement_carries_no_chunks() {
    let mut t = AttachmentStore::new();
    let a = store(&mut t, 3, "a.txt", 10, vec![[1u8; 32]], 100);
    t.delete_attachment(a);
    let all = t.get_all_attachments();
    let ann = announce_attachment_metadata(&all);
    assert_eq!(ann.attachments.len(), 1);
    let m = &ann.attachments[0];
    assert_eq!(m.id, a);
    assert_eq!(m.filename, "a.txt");
    assert_eq!(m.message_id, vec![3u8; 32]);
    assert_eq!(m.status, 1);
    assert_eq!(m.created_at, 100);
    assert!(m.chunk_ids.is_empty());
}

#[test]
fn metadata_request_spells_message_ids_as_bytes() {
    let req = request_attachment_metadata(&vec![[5u8; 32], [6u8; 32]], vec![7, 8]);
    assert_eq!(req.message_ids, vec![vec![5u8; 32], vec![6u8; 32]]);
    assert_eq!(req.attachment_ids, vec![7, 8]);
    let parsed = parse_saved_message(&req.encode_to_vec());
    assert!(parsed.is_ok());
}
