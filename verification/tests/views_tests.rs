use saved_core::events::{Op, Operation};
use saved_core::ids::OpId;
use saved_core::views::{operation_type_name, MaterializedViews};

fn op(counter: u64, operation: Operation) -> Op {
    Op::new(OpId::new([9u8; 32], counter), counter, vec![], operation, 0)
}

fn create(id: u8, feed: &str, body: &str, at: i64, chunks: Vec<[u8; 32]>) -> Op {
    op(
        1,
        Operation::CreateMessage {
            msg_id: [id; 32],
            feed_id: feed.to_string(),
            body: body.to_string(),
            attachments: chunks,
            created_at: at,
        },
    )
}

#[test]
fn messages_of_a_feed_newest_first() {
    let mut v = MaterializedViews::new();
    v.update_materialized_views(&create(1, "default", "first", 10, vec![]));
    v.update_materialized_views(&create(2, "default", "second", 30, vec![]));
    v.update_materialized_views(&create(3, "other", "elsewhere", 20, vec![]));
    v.update_materialized_views(&create(4, "default", "third", 20, vec![]));
    let ms = v.get_messages("default");
    let bodies: Vec<&str> = ms.iter().map(|m| m.body.as_str()).collect();
    assert_eq!(bodies, vec!["second", "third", "first"]);
    assert_eq!(ms[0].author_device, [9u8; 32]);
    assert_eq!(v.get_messages("other").len(), 1);
    assert!(v.get_messages("none").is_empty());
}

#[test]
fn edit_delete_and_purge_change_rows() {
    let mut v = MaterializedViews::new();
    v.update_materialized_views(&create(1, "f", "hello", 10, vec![]));
    v.update_materialized_views(&op(2, Operation::EditMessage { msg_id: [1u8; 32], body: "hi".to_string(), edited_at: 11 }));
    v.update_materialized_views(&op(3, Operation::DeleteMessage { msg_id: [1u8; 32], reason: None, deleted_at: 12 }));
    let m = &v.get_messages("f")[0];
    assert_eq!(m.body, "hi");
    assert_eq!(m.edited_at, Some(11));
    assert_eq!(m.deleted_at, Some(12));
    assert!(!m.is_purged);
    // Edits of unknown messages change nothing.
    v.update_materialized_views(&op(4, Operation::EditMessage { msg_id: [7u8; 32], body: "x".to_string(), edited_at: 13 }));
    assert_eq!(v.get_messages("f").len(), 1);
    v.update_materialized_views(&op(5, Operation::Purge { msg_id: [1u8; 32], timestamp: 14 }));
    assert!(v.get_messages("f").is_empty());
    // A new creation writes a fresh row in place of the purged one.
    v.update_materialized_views(&create(1, "f", "again", 15, vec![]));
    let m = &v.get_messages("f")[0];
    assert_eq!(m.body, "again");
    assert_eq!(m.edited_at, None);
    assert_eq!(m.deleted_at, None);
}

#[test]
fn chunk_references_are_counted() {
    let mut v = MaterializedViews::new();
    let c = [5u8; 32];
    let d = [6u8; 32];
    v.update_materialized_views(&create(1, "f", "a", 1, vec![c, d]));
    v.update_materialized_views(&op(2, Operation::Attach { msg_id: [2u8; 32], attachment_cids: vec![c] }));
    // c has two references, d one: detaching d from message 1 releases it.
    let released = v.update_materialized_views(&op(3, Operation::Detach { msg_id: [1u8; 32], attachment_cids: vec![d] }));
    assert_eq!(released, vec![d]);
    // Purging message 1 drops its remaining pair (with c): c keeps one reference.
    let released = v.update_materialized_views(&op(4, Operation::Purge { msg_id: [1u8; 32], timestamp: 5 }));
    assert!(released.is_empty());
    // Purging message 2 releases c.
    let released = v.update_materialized_views(&op(5, Operation::Purge { msg_id: [2u8; 32], timestamp: 6 }));
    assert_eq!(released, vec![c]);
    // Nothing more to release.
    assert!(!v.decrement_chunk_ref(c));
}

#[test]
fn detach_undoes_attach() {
    let mut v = MaterializedViews::new();
    let c = [5u8; 32];
    v.increment_chunk_ref(c);
    v.update_materialized_views(&op(1, Operation::Attach { msg_id: [1u8; 32], attachment_cids: vec![c, c] }));
    let released = v.update_materialized_views(&op(2, Operation::Detach { msg_id: [1u8; 32], attachment_cids: vec![c, c] }));
    assert!(released.is_empty());
    // The count is back to one.
    assert!(v.decrement_chunk_ref(c));
}

#[test]
fn loaded_counts_replace_held_ones() {
    let mut v = MaterializedViews::new();
    let c = [1u8; 32];
    v.increment_chunk_ref(c);
    v.load_chunk_refs(&[(c, 3), ([2u8; 32], 0), (c, 2)]);
    assert!(!v.decrement_chunk_ref(c));
    assert!(v.decrement_chunk_ref(c));
    // A zero count stays as it is.
    assert!(!v.decrement_chunk_ref([2u8; 32]));
    assert!(!v.decrement_chunk_ref([2u8; 32]));
    // Counts are cut to 32 bits.
    v.load_chunk_refs(&[([3u8; 32], (1i64 << 32) + 1)]);
    assert!(v.decrement_chunk_ref([3u8; 32]));
}

#[test]
fn operation_type_names() {
    assert_eq!(operation_type_name(&Operation::Attach { msg_id: [0u8; 32], attachment_cids: vec![] }), "Attach");
    assert_eq!(operation_type_name(&Operation::Purge { msg_id: [0u8; 32], timestamp: 0 }), "Purge");
    assert_eq!(
        operation_type_name(&Operation::CreateMessage {
            msg_id: [0u8; 32],
            feed_id: String::new(),
            body: String::new(),
            attachments: vec![],
            created_at: 0
        }),
        "CreateMessage"
    );
}
