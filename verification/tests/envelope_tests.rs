use saved_core::crypto::DeviceKey;
use saved_core::envelope::EnvelopeError;
use saved_core::events::{Op, Operation};
use saved_core::ids::OpId;

fn sample_op(operation: Operation) -> Op {
    Op::new(OpId::new([3u8; 32], 7), 11, vec![[4u8; 32], [5u8; 32]], operation, 1_700_000_000_123)
}

#[test]
fn envelope_round_trip_every_kind() {
    let vault = [9u8; 32];
    let device = DeviceKey::generate();
    let ops = vec![
        Operation::CreateMessage { msg_id: [1u8; 32], feed_id: "default".to_string(), body: "hi".to_string(), attachments: vec![[2u8; 32]], created_at: 5 },
        Operation::EditMessage { msg_id: [1u8; 32], body: "edited".to_string(), edited_at: 6 },
        Operation::DeleteMessage { msg_id: [1u8; 32], reason: Some("spam".to_string()), deleted_at: 7 },
        Operation::DeleteMessage { msg_id: [1u8; 32], reason: None, deleted_at: 7 },
        Operation::DeleteMessage { msg_id: [1u8; 32], reason: Some(String::new()), deleted_at: 7 },
        Operation::Attach { msg_id: [1u8; 32], attachment_cids: vec![[8u8; 32], [9u8; 32]] },
        Operation::Detach { msg_id: [1u8; 32], attachment_cids: vec![] },
        Operation::Ack { up_to_op: OpId::new([6u8; 32], 99), timestamp: 8 },
        Operation::Purge { msg_id: [1u8; 32], timestamp: 9 },
    ];
    for operation in ops {
        let op = sample_op(operation);
        let envelope = op.encrypt(&vault, &device).unwrap();
        let back = Op::decrypt_and_verify(&envelope, &vault, &device).unwrap();
        assert_eq!(back.hash(), op.hash());
        assert_eq!(back.parents, op.parents);
        assert_eq!(back.timestamp, op.timestamp);
    }
}

#[test]
fn envelope_refuses_wrong_key_or_tampering() {
    let vault = [9u8; 32];
    let device = DeviceKey::generate();
    let op = sample_op(Operation::Purge { msg_id: [1u8; 32], timestamp: 9 });
    let envelope = op.encrypt(&vault, &device).unwrap();
    let other = DeviceKey::generate();
    assert_eq!(Op::decrypt_and_verify(&envelope, &vault, &other).err(), Some(EnvelopeError::SignatureVerificationFailed));
    let mut tampered = envelope.clone();
    tampered.ciphertext[0] ^= 1;
    assert_eq!(Op::decrypt_and_verify(&tampered, &vault, &device).err(), Some(EnvelopeError::SignatureVerificationFailed));
    assert_eq!(Op::decrypt_and_verify(&envelope, &[0u8; 32], &device).err(), Some(EnvelopeError::DecryptionFailed));
    let mut no_header = envelope.clone();
    no_header.header = None;
    assert_eq!(Op::decrypt_and_verify(&no_header, &vault, &device).err(), Some(EnvelopeError::MissingHeader));
}

#[test]
fn empty_deletion_reason_stays_apart_from_none() {
    let with_empty = Operation::DeleteMessage { msg_id: [1u8; 32], reason: Some(String::new()), deleted_at: 7 };
    let without = Operation::DeleteMessage { msg_id: [1u8; 32], reason: None, deleted_at: 7 };
    assert_ne!(with_empty.to_bytes(), without.to_bytes());
    match Operation::from_bytes(&with_empty.to_bytes()) {
        Some(Operation::DeleteMessage { reason, .. }) => assert_eq!(reason, Some(String::new())),
        _ => panic!("deletion did not read back"),
    }
    match Operation::from_bytes(&without.to_bytes()) {
        Some(Operation::DeleteMessage { reason, .. }) => assert_eq!(reason, None),
        _ => panic!("deletion did not read back"),
    }
}
