use saved_core::events::{EventLog, Op, Operation};
use saved_core::ids::OpId;
use saved_core::crypto::{generate_vault_key, DeviceKey};

#[test]
fn test_op_id_serialization() {
    let device_pubkey = [1u8; 32];
    let counter = 42u64;
    let op_id = OpId::new(device_pubkey, counter);
    let bytes = op_id.to_bytes();
    let deserialized = OpId::from_bytes(&bytes).unwrap();
    assert_eq!(op_id, deserialized);
}

#[test]
fn test_event_log_operations() {
    let mut log = EventLog::new();
    let device_key = DeviceKey::generate();
    let _vault_key = generate_vault_key();
    let op = Op::new(
        OpId::new(device_key.public_key_bytes(), 1),
        1,
        Vec::new(),
        Operation::CreateMessage {
            msg_id: [1u8; 32],
            feed_id: "default".to_string(),
            body: "Hello, SAVED!".to_string(),
            attachments: Vec::new(),
            created_at: 1_700_000_000_000,
        },
        1_700_000_000_000,
    );
    let hash = log.add_operation(op);
    assert!(log.get_operation(&hash).is_some());
    assert_eq!(log.get_heads().len(), 1);
    assert!(log.get_heads().contains(&hash));
}

fn chain_op(counter: u64, parents: Vec<[u8; 32]>, body: &str) -> Op {
    Op::new(
        OpId::new([7u8; 32], counter),
        counter,
        parents,
        Operation::CreateMessage {
            msg_id: [counter as u8; 32],
            feed_id: "default".to_string(),
            body: body.to_string(),
            attachments: Vec::new(),
            created_at: 1_700_000_000_000,
        },
        1_700_000_000_000,
    )
}

#[test]
fn operations_since_heads_are_those_not_reached() {
    let mut log = EventLog::new();
    let a = log.add_operation(chain_op(1, Vec::new(), "a"));
    let b = log.add_operation(chain_op(2, vec![a], "b"));
    let c = log.add_operation(chain_op(3, vec![b], "c"));
    assert_eq!(log.get_operations_since(&[]).len(), 3);
    let since_b = log.get_operations_since(&[b]);
    assert_eq!(since_b.len(), 1);
    assert_eq!(since_b[0].hash(), c);
    assert_eq!(log.get_operations_since(&[c]).len(), 0);
    let since_a = log.get_operations_since(&[a]);
    assert_eq!(since_a.len(), 2);
    assert_eq!(since_a[0].hash(), b);
    assert_eq!(since_a[1].hash(), c);
    assert_eq!(log.get_operations_since(&[[9u8; 32]]).len(), 3);
}
