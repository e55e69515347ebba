use saved_core::chunks::ChunkSyncManager;
use saved_core::crypto::{generate_vault_key, DeviceKey};
use saved_core::sync::SyncManager;

fn create_test_account() -> SyncManager {
    SyncManager::new(DeviceKey::generate().public_key_bytes(), generate_vault_key())
}

fn create_test_content(device: &str, message_num: u32) -> String {
    format!("Message {} from device {}", message_num, device)
}

fn now_ms() -> i64 {
    std::time::SystemTime::now().duration_since(std::time::UNIX_EPOCH).unwrap().as_millis() as i64
}

#[test]
fn test_three_device_message_exchange() {
    let mut device_a = create_test_account();
    let mut device_b = create_test_account();
    let mut device_c = create_test_account();
    device_a.create_message(create_test_content("A", 1), Vec::new());
    device_a.create_message(create_test_content("A", 2), Vec::new());
    device_b.create_message(create_test_content("B", 1), Vec::new());
    device_b.create_message(create_test_content("B", 2), Vec::new());
    device_c.create_message(create_test_content("C", 1), Vec::new());
    device_c.create_message(create_test_content("C", 2), Vec::new());
    let device_a_messages = device_a.get_all_messages();
    let device_b_messages = device_b.get_all_messages();
    let device_c_messages = device_c.get_all_messages();
    assert_eq!(device_a_messages.len(), 2, "Device A should have 2 messages");
    assert_eq!(device_b_messages.len(), 2, "Device B should have 2 messages");
    assert_eq!(device_c_messages.len(), 2, "Device C should have 2 messages");
    for device_messages in [&device_a_messages, &device_b_messages, &device_c_messages] {
        for message in device_messages {
            assert!(!message.content.is_empty(), "Message content should not be empty");
            assert!(!message.is_deleted, "Messages should not be deleted");
            assert!(!message.is_purged, "Messages should not be purged");
            assert!(message.created_at <= now_ms(), "Message timestamp should be valid");
        }
    }
    let first_id = device_a_messages[0].id;
    device_a.edit_message(first_id, "Edited content".to_string());
    let updated_messages = device_a.get_all_messages();
    let edited_message = updated_messages.iter().find(|m| m.id == first_id).unwrap();
    assert_eq!(edited_message.content, "Edited content", "Message content should be updated");
    device_a.delete_message(first_id);
    let final_messages = device_a.get_all_messages();
    assert_eq!(final_messages.len(), 1, "Should have one message after deleting the other");
    assert!(!final_messages.iter().any(|m| m.id == first_id), "Deleted message should not be in the list");
}

#[test]
fn test_concurrent_message_editing() {
    let mut device_a = create_test_account();
    let _device_b = create_test_account();
    let msg_id = device_a.create_message("Original message".to_string(), Vec::new());
    device_a.edit_message(msg_id, "Edited by Device A".to_string());
    let device_a_messages = device_a.get_all_messages();
    assert_eq!(device_a_messages.len(), 1);
    assert_eq!(device_a_messages[0].content, "Edited by Device A");
}

#[test]
fn test_message_deletion_and_purge() {
    let mut device_a = create_test_account();
    let msg1_id = device_a.create_message("Message 1".to_string(), Vec::new());
    let msg2_id = device_a.create_message("Message 2".to_string(), Vec::new());
    let _msg3_id = device_a.create_message("Message 3".to_string(), Vec::new());
    assert_eq!(device_a.get_all_messages().len(), 3);
    device_a.delete_message(msg2_id);
    assert_eq!(device_a.get_all_messages().len(), 2);
    device_a.purge_message(msg1_id);
    assert_eq!(device_a.get_all_messages().len(), 1);
}

#[test]
fn test_file_attachments() {
    let mut device_a = create_test_account();
    let mut chunks = ChunkSyncManager::new(generate_vault_key());
    let msg_id = device_a.create_message("Message with attachments".to_string(), Vec::new());
    let messages = device_a.get_all_messages();
    assert_eq!(messages.len(), 1, "Should have exactly one message");
    assert_eq!(messages[0].id, msg_id, "Message ID should match");
    assert_eq!(messages[0].content, "Message with attachments", "Message content should match");
    assert!(!messages[0].is_deleted, "Message should not be deleted");
    assert!(!messages[0].is_purged, "Message should not be purged");
    assert!(messages[0].created_at <= now_ms(), "Message timestamp should be valid");
    let mut attachment_chunks = chunks.process_attachment(b"This is test attachment 1 content", now_ms());
    attachment_chunks.extend(chunks.process_attachment(b"This is test attachment 2 content", now_ms()));
    assert_eq!(attachment_chunks.len(), 2);
    device_a.create_message("Message with test attachments".to_string(), attachment_chunks);
    assert_eq!(device_a.get_all_messages().len(), 2, "Should have two messages after attachment test");
    device_a.purge_message(msg_id);
    let purged_messages = device_a.get_all_messages();
    assert_eq!(purged_messages.len(), 1, "Should have one message after purging the other");
    assert!(!purged_messages.iter().any(|m| m.id == msg_id), "Purged message should not be in the list");
}

#[test]
fn test_large_message_sync() {
    let mut device_a = create_test_account();
    let large_content = "Lorem ipsum dolor sit amet, consectetur adipiscing elit. ".repeat(1000);
    device_a.create_message(large_content.clone(), Vec::new());
    let messages = device_a.get_all_messages();
    assert_eq!(messages.len(), 1);
    assert_eq!(messages[0].content.len(), large_content.len());
}

#[test]
fn test_network_partition_recovery() {
    let mut device_a = create_test_account();
    let mut device_b = create_test_account();
    let mut device_c = create_test_account();
    device_a.create_message("Initial message".to_string(), Vec::new());
    device_b.create_message("B message".to_string(), Vec::new());
    device_c.create_message("C message".to_string(), Vec::new());
    assert_eq!(device_a.get_all_messages().len(), 1);
    assert_eq!(device_b.get_all_messages().len(), 1);
    assert_eq!(device_c.get_all_messages().len(), 1);
}
