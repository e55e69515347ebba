use saved_core::attachments::{AttachmentError, AttachmentStore};
use saved_core::ids::MessageId;
use saved_core::types::AttachmentStatus;

fn store(t: &mut AttachmentStore, msg: u8, name: &str, size: u64, hash: u8, chunks: Vec<[u8; 32]>, at: i64) -> i64 {
    t.store_attachment_at(&MessageId([msg; 32]), name, size, &[hash; 32], Some("text/plain".to_string()), &chunks, at)
        .unwrap()
}

#[test]
fn ids_increase_and_rows_read_back() {
    let mut t = AttachmentStore::new();
    let a = store(&mut t, 1, "a.txt", 10, 7, vec![[1u8; 32], [2u8; 32]], 100);
    let b = store(&mut t, 1, "b.txt", 20, 8, vec![], 50);
    assert_eq!((a, b), (1, 2));
    let got = t.get_attachment_by_id(a).unwrap();
    assert_eq!(got.filename, "a.txt");
    assert_eq!(got.size, 10);
    assert_eq!(got.status, AttachmentStatus::Active);
    assert_eq!(got.created_at, 100);
    assert_eq!(got.mime_type, Some("text/plain".to_string()));
    assert!(got.last_accessed.is_none());
    assert!(t.get_attachment_by_id(3).is_none());
    assert_eq!(t.get_attachment_chunks(a), vec![[1u8; 32], [2u8; 32]]);
    assert!(t.get_attachment_chunks(b).is_empty());
}

#[test]
fn queries_are_oldest_first() {
    let mut t = AttachmentStore::new();
    store(&mut t, 1, "late", 1, 7, vec![], 300);
    store(&mut t, 2, "early", 1, 7, vec![], 100);
    store(&mut t, 1, "middle", 1, 9, vec![], 200);
    store(&mut t, 1, "middle-too", 1, 9, vec![], 200);
    let names = |v: Vec<saved_core::attachments::Attachment>| v.into_iter().map(|a| a.filename).collect::<Vec<_>>();
    assert_eq!(names(t.get_all_attachments()), vec!["early", "middle", "middle-too", "late"]);
    assert_eq!(names(t.get_attachments_for_message(&MessageId([1u8; 32]))), vec!["middle", "middle-too", "late"]);
    assert_eq!(names(t.get_attachments_by_file_hash(&[7u8; 32])), vec!["early", "late"]);
}

#[test]
fn delete_purge_and_access() {
    let mut t = AttachmentStore::new();
    let a = store(&mut t, 1, "a", 5, 1, vec![[3u8; 32]], 1);
    let b = store(&mut t, 1, "b", 6, 2, vec![[4u8; 32]], 2);
    t.delete_attachment(a);
    assert_eq!(t.get_attachment_by_id(a).unwrap().status, AttachmentStatus::Deleted);
    // A deleted attachment keeps its chunks.
    assert_eq!(t.get_attachment_chunks(a), vec![[3u8; 32]]);
    t.purge_attachment(b);
    assert_eq!(t.get_attachment_by_id(b).unwrap().status, AttachmentStatus::Purged);
    assert!(t.get_attachment_chunks(b).is_empty());
    t.update_attachment_access_time_at(a, 99);
    assert_eq!(t.get_attachment_by_id(a).unwrap().last_accessed, Some(99));
}

#[test]
fn statistics() {
    let mut t = AttachmentStore::new();
    let empty = t.get_attachment_stats();
    assert_eq!(empty.total_attachments, 0);
    assert_eq!(empty.total_size, 0);
    assert_eq!(empty.unique_files, 0);
    let a = store(&mut t, 1, "a", 100, 1, vec![], 1);
    store(&mut t, 1, "b", 200, 1, vec![], 2);
    let c = store(&mut t, 1, "c", 300, 2, vec![], 3);
    t.delete_attachment(a);
    t.purge_attachment(c);
    let s = t.get_attachment_stats();
    assert_eq!(s.total_attachments, 3);
    assert_eq!(s.active_attachments, 1);
    assert_eq!(s.deleted_attachments, 1);
    assert_eq!(s.purged_attachments, 1);
    assert_eq!(s.total_size, 600);
    assert_eq!(s.unique_files, 2);
}

#[test]
fn total_size_overflow_reads_as_zero() {
    let mut t = AttachmentStore::new();
    store(&mut t, 1, "a", i64::MAX as u64, 1, vec![], 1);
    store(&mut t, 1, "b", 1, 2, vec![], 2);
    assert_eq!(t.get_attachment_stats().total_size, 0);
    // A size beyond the signed range is stored negative and read back as given.
    let mut u = AttachmentStore::new();
    store(&mut u, 1, "big", u64::MAX, 1, vec![], 1);
    assert_eq!(u.get_attachment_stats().total_size, u64::MAX);
}

#[test]
fn garbage_collection_drops_purged_rows() {
    let mut t = AttachmentStore::new();
    let a = store(&mut t, 1, "a", 10, 1, vec![[1u8; 32], [2u8; 32]], 1);
    let b = store(&mut t, 1, "b", 20, 2, vec![[3u8; 32]], 2);
    t.purge_attachment(a);
    let (stats, chunks) = t.garbage_collect_attachments();
    // Purging dropped the chunk list, so the row counts once.
    assert_eq!(stats.attachments_removed, 1);
    assert_eq!(stats.space_freed, 10);
    assert_eq!(stats.chunks_removed, 0);
    assert!(chunks.is_empty());
    assert!(t.get_attachment_by_id(a).is_none());
    assert!(t.get_attachment_by_id(b).is_some());
    // Ids are not reused.
    assert_eq!(store(&mut t, 1, "c", 1, 3, vec![], 3), 3);
}

#[test]
fn ids_can_run_out() {
    let mut t = AttachmentStore::new();
    assert_eq!(
        t.store_attachment(&MessageId([1u8; 32]), "a", 1, &[0u8; 32], None, &vec![]),
        Ok(1)
    );
    assert!(!matches!(t.store_attachment(&MessageId([1u8; 32]), "b", 1, &[0u8; 32], None, &vec![]), Err(AttachmentError::IdsExhausted)));
}
