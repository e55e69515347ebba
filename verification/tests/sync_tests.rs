use saved_core::crdt::{crdt_resolve_message_conflicts, ResolvedMessageState};
use saved_core::events::{Op, Operation};
use saved_core::ids::{MessageId, OpId};
use saved_core::sync::{SyncError, SyncManager};

fn op(pk: u8, lamport: u64, parents: Vec<[u8; 32]>, operation: Operation) -> Op {
    Op::new(OpId::new([pk; 32], 1), lamport, parents, operation, 1000)
}

fn create(msg: [u8; 32], body: &str) -> Operation {
    Operation::CreateMessage { msg_id: msg, feed_id: "default".to_string(), body: body.to_string(), attachments: Vec::new(), created_at: 1 }
}

fn edit(msg: [u8; 32], body: &str, at: i64) -> Operation {
    Operation::EditMessage { msg_id: msg, body: body.to_string(), edited_at: at }
}

#[test]
fn test_crdt_create_message() {
    let mut s = SyncManager::new([9u8; 32], [0u8; 32]);
    let msg = [1u8; 32];
    s.apply_operation(op(1, 1, Vec::new(), create(msg, "Hello, SAVED!"))).unwrap();
    let messages = s.get_all_messages();
    assert_eq!(messages.len(), 1);
    assert_eq!(messages[0].content, "Hello, SAVED!");
    assert!(!messages[0].is_deleted);
}

#[test]
fn test_crdt_edit_message() {
    let mut s = SyncManager::new([9u8; 32], [0u8; 32]);
    let msg = [1u8; 32];
    let c = op(1, 1, Vec::new(), create(msg, "Original content"));
    let h = c.hash();
    s.apply_operation(c).unwrap();
    s.apply_operation(op(1, 2, vec![h], edit(msg, "Edited content", 2))).unwrap();
    let messages = s.get_all_messages();
    assert_eq!(messages.len(), 1);
    assert_eq!(messages[0].content, "Edited content");
}

#[test]
fn test_crdt_conflict_resolution_last_write_wins() {
    let mut s = SyncManager::new([9u8; 32], [0u8; 32]);
    let msg = [1u8; 32];
    let c = op(1, 1, Vec::new(), create(msg, "Original content"));
    let h = c.hash();
    s.apply_operation(c).unwrap();
    s.apply_operation(op(2, 2, vec![h], edit(msg, "Edit from device 2", 5))).unwrap();
    s.apply_operation(op(1, 2, vec![h], edit(msg, "Edit from device 1", 6))).unwrap();
    let messages = s.get_all_messages();
    assert_eq!(messages.len(), 1);
    assert_eq!(messages[0].content, "Edit from device 2");
}

#[test]
fn test_crdt_delete_after_edit_and_purge() {
    let mut s = SyncManager::new([9u8; 32], [0u8; 32]);
    let msg = [1u8; 32];
    let c = op(1, 1, Vec::new(), create(msg, "Original content"));
    let hc = c.hash();
    s.apply_operation(c).unwrap();
    let e = op(1, 2, vec![hc], edit(msg, "Edited content", 2));
    let he = e.hash();
    s.apply_operation(e).unwrap();
    let d = op(1, 3, vec![he], Operation::DeleteMessage { msg_id: msg, reason: None, deleted_at: 3 });
    let hd = d.hash();
    s.apply_operation(d).unwrap();
    let all = s.get_all_messages_including_deleted();
    assert_eq!(all.len(), 1);
    assert!(all[0].is_deleted);
    assert_eq!(s.get_all_messages().len(), 0);
    s.apply_operation(op(1, 4, vec![hd], Operation::Purge { msg_id: msg, timestamp: 4 })).unwrap();
    assert_eq!(s.get_all_messages_including_deleted().len(), 0);
}

#[test]
fn test_operation_verification() {
    let mut s = SyncManager::new([9u8; 32], [0u8; 32]);
    let fake_parent = [0u8; 32];
    let r = s.apply_operation(op(1, 1, vec![fake_parent], create([1u8; 32], "Invalid operation")));
    assert_eq!(r, Err(SyncError::MissingParentOperation(fake_parent)));
    let r = s.apply_operation(op(1, 5000, Vec::new(), create([1u8; 32], "Too far")));
    assert_eq!(r, Err(SyncError::LamportTooFarInFuture));
    assert_eq!(s.get_all_messages().len(), 0);
}

#[test]
fn test_sync_heads_and_operations() {
    let mut s = SyncManager::new([9u8; 32], [0u8; 32]);
    assert_eq!(s.get_sync_heads().len(), 0);
    s.apply_operation(op(1, 1, Vec::new(), create([1u8; 32], "Test message"))).unwrap();
    assert_eq!(s.get_sync_heads().len(), 1);
    assert_eq!(s.get_operations_for_sync(&[]).len(), 1);
}

#[test]
fn applying_twice_changes_nothing() {
    let mut s = SyncManager::new([9u8; 32], [0u8; 32]);
    let c = op(1, 1, Vec::new(), create([1u8; 32], "once"));
    let c2 = op(1, 1, Vec::new(), create([1u8; 32], "once"));
    s.apply_operation(c).unwrap();
    s.apply_operation(c2).unwrap();
    assert_eq!(s.event_log().get_all_operations().len(), 1);
    assert_eq!(s.get_all_messages().len(), 1);
}

#[test]
fn local_operations_update_messages() {
    let mut s = SyncManager::new([9u8; 32], [0u8; 32]);
    let id = s.create_message("hello".to_string(), Vec::new());
    assert_eq!(s.get_message(&id).unwrap().content, "hello");
    s.edit_message(id, "world".to_string());
    assert_eq!(s.get_message(&id).unwrap().content, "world");
    s.delete_message(id);
    assert!(s.get_message(&id).unwrap().is_deleted);
    s.purge_message(id);
    assert!(s.get_message(&id).is_none());
    assert_eq!(s.event_log().current_lamport(), 8);
    assert_eq!(s.get_sync_heads().len(), 1);
    let missing = MessageId::from_bytes([7u8; 32]);
    s.edit_message(missing, "nothing".to_string());
    assert!(s.get_message(&missing).is_none());
}

#[test]
fn resolution_is_order_independent() {
    let msg = [3u8; 32];
    let a = op(1, 1, Vec::new(), create(msg, "a"));
    let b = op(2, 2, Vec::new(), edit(msg, "b", 2));
    let c = op(3, 2, Vec::new(), edit(msg, "c", 3));
    let r1 = crdt_resolve_message_conflicts(&vec![&a, &b, &c]);
    let r2 = crdt_resolve_message_conflicts(&vec![&c, &a, &b]);
    match (r1, r2) {
        (ResolvedMessageState::Edited { body: x, .. }, ResolvedMessageState::Edited { body: y, .. }) => {
            assert_eq!(x, "c");
            assert_eq!(y, "c");
        }
        _ => panic!("expected an edited message"),
    }
}

#[test]
fn purge_wins_over_everything() {
    let msg = [3u8; 32];
    let p = op(1, 1, Vec::new(), Operation::Purge { msg_id: msg, timestamp: 9 });
    let c = op(2, 5, Vec::new(), create(msg, "late"));
    let e = op(2, 6, Vec::new(), edit(msg, "later", 7));
    match crdt_resolve_message_conflicts(&vec![&c, &e, &p]) {
        ResolvedMessageState::Purged { purged_at } => assert_eq!(purged_at, 9),
        _ => panic!("expected a purged message"),
    }
}

#[test]
fn initialize_rebuilds_the_log_only() {
    let key = [4u8; 32];
    let make = |counter: u64, lamport: u64, parents: Vec<[u8; 32]>, operation: Operation| {
        Op::new(OpId::new(key, counter), lamport, parents, operation, 100)
    };
    let op1 = make(
        1,
        1,
        vec![],
        Operation::CreateMessage {
            msg_id: [1u8; 32],
            feed_id: "default".to_string(),
            body: "stored".to_string(),
            attachments: vec![],
            created_at: 5,
        },
    );
    let h1 = op1.hash();
    let op2 = make(2, 2, vec![h1], Operation::EditMessage { msg_id: [1u8; 32], body: "edited".to_string(), edited_at: 6 });
    let h2 = op2.hash();
    let op1_again = make(
        1,
        1,
        vec![],
        Operation::CreateMessage {
            msg_id: [1u8; 32],
            feed_id: "default".to_string(),
            body: "stored".to_string(),
            attachments: vec![],
            created_at: 5,
        },
    );
    let mut replica = SyncManager::new(key, [9u8; 32]);
    replica.initialize(vec![op1, op2, op1_again]);
    assert_eq!(replica.get_sync_heads(), vec![h2]);
    assert_eq!(replica.event_log().current_lamport(), 3);
    assert_eq!(replica.event_log().get_all_operations().len(), 2);
    // The messages shown come from storage, not from the log.
    assert!(replica.get_all_messages().is_empty());
}

#[test]
fn attachment_operation_builds_on_the_heads_without_joining_the_log() {
    let mut s = SyncManager::new([9u8; 32], [0u8; 32]);
    s.create_message_at(MessageId([1u8; 32]), "hello".to_string(), Vec::new(), 10);
    let heads = s.event_log().get_heads().clone();
    let before = s.event_log().get_all_operations().len();
    let op = s.create_attachment_operation_at(MessageId([1u8; 32]), "a.txt".to_string(), vec![1, 2, 3], 55);
    assert_eq!(op.lamport, s.event_log().current_lamport() + 1);
    assert_eq!(op.id.device_pubkey, [9u8; 32]);
    assert_eq!(op.id.counter, op.lamport);
    assert_eq!(op.parents, heads);
    assert_eq!(op.timestamp, 55);
    match &op.operation {
        Operation::Attach { msg_id, attachment_cids } => {
            assert_eq!(*msg_id, [0u8; 32]);
            assert!(attachment_cids.is_empty());
        }
        _ => panic!("expected an attachment operation"),
    }
    assert_eq!(s.event_log().get_all_operations().len(), before);
}

#[test]
fn test_crdt_delete_message() {
    let mut s = SyncManager::new([9u8; 32], [0u8; 32]);
    let msg = [1u8; 32];
    let c = op(1, 1, Vec::new(), create(msg, "To be deleted"));
    let h = c.hash();
    s.apply_operation(c).unwrap();
    assert_eq!(s.get_all_messages().len(), 1);
    let d = op(1, 2, vec![h], Operation::DeleteMessage { msg_id: msg, reason: Some("Test deletion".to_string()), deleted_at: 2 });
    s.apply_operation(d).unwrap();
    let messages = s.get_all_messages_including_deleted();
    assert_eq!(messages.len(), 1);
    assert!(messages[0].is_deleted);
}

#[test]
fn test_crdt_delete_after_edit() {
    let mut s = SyncManager::new([9u8; 32], [0u8; 32]);
    let msg = [1u8; 32];
    let c = op(1, 1, Vec::new(), create(msg, "Original content"));
    let hc = c.hash();
    s.apply_operation(c).unwrap();
    let e = op(1, 2, vec![hc], edit(msg, "Edited content", 2));
    let he = e.hash();
    s.apply_operation(e).unwrap();
    s.apply_operation(op(1, 3, vec![he], Operation::DeleteMessage { msg_id: msg, reason: None, deleted_at: 3 })).unwrap();
    let messages = s.get_all_messages_including_deleted();
    assert_eq!(messages.len(), 1);
    assert!(messages[0].is_deleted);
}

#[test]
fn test_crdt_purge_overrides_all() {
    let mut s = SyncManager::new([9u8; 32], [0u8; 32]);
    let msg = [1u8; 32];
    let c = op(1, 1, Vec::new(), create(msg, "Original content"));
    let hc = c.hash();
    s.apply_operation(c).unwrap();
    let e = op(1, 2, vec![hc], edit(msg, "Edited content", 2));
    let he = e.hash();
    s.apply_operation(e).unwrap();
    let d = op(1, 3, vec![he], Operation::DeleteMessage { msg_id: msg, reason: None, deleted_at: 3 });
    let hd = d.hash();
    s.apply_operation(d).unwrap();
    s.apply_operation(op(1, 4, vec![hd], Operation::Purge { msg_id: msg, timestamp: 4 })).unwrap();
    assert_eq!(s.get_all_messages_including_deleted().len(), 0);
}

#[test]
fn test_message_crud() {
    let mut storage = saved_core::sync::MessageStore::new();
    let msg = saved_core::sync::Message {
        id: MessageId::new(),
        content: "hello".to_string(),
        created_at: 1_700_000_000_000,
        is_deleted: false,
        is_purged: false,
    };
    let id = msg.id;
    storage.store_message(msg);
    let fetched = storage.get_message(&id).unwrap();
    assert_eq!(fetched.content, "hello");
    let all = storage.get_all_messages();
    assert_eq!(all.len(), 1);
    storage.delete_message(&id);
    let all_after = storage.get_all_messages();
    assert_eq!(all_after.len(), 0);
}

#[test]
fn refusals_read_as_sync_errors() {
    let mut s = SyncManager::new([9u8; 32], [0u8; 32]);
    let e = s.apply_operation(op(1, 1, vec![[0u8; 32]], create([1u8; 32], "Invalid operation"))).unwrap_err();
    assert!(e.message().contains("Missing parent operation"));
    assert_eq!(e.message(), format!("Sync error: Missing parent operation: {}", "0".repeat(64)));
    let e = s.apply_operation(op(1, 5000, Vec::new(), create([1u8; 32], "Too far"))).unwrap_err();
    assert_eq!(e.message(), "Sync error: Lamport timestamp too far in future");
}

#[test]
fn local_changes_are_logged_as_operations() {
    let mut s = SyncManager::new([9u8; 32], [0u8; 32]);
    let msg = MessageId([4u8; 32]);
    s.create_message_at(msg, "first".to_string(), Vec::new(), 10);
    assert_eq!(s.event_log().get_all_operations().len(), 1);
    assert_eq!(s.get_sync_heads().len(), 1);
    s.edit_message_at(msg, "second".to_string(), 20);
    assert_eq!(s.event_log().get_all_operations().len(), 2);
    assert_eq!(s.get_sync_heads().len(), 1);
    s.delete_message_at(msg, 30);
    assert_eq!(s.event_log().get_all_operations().len(), 3);
    s.purge_message_at(msg, 40);
    assert_eq!(s.event_log().get_all_operations().len(), 4);
    assert_eq!(s.get_all_messages().len(), 0);
}
