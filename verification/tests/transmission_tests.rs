use saved_core::crypto::DeviceKey;
use saved_core::events::{Op, Operation};
use saved_core::ids::OpId;
use saved_core::protobuf::{OpEnvelope, OpHeader};
use saved_core::transmission::{
    decrypt_and_verify_operation, encrypt_operation_for_transmission, encrypt_operation_for_transmission_with,
    TransmissionError,
};

fn sample_op(device: &DeviceKey) -> Op {
    let op = Operation::DeleteMessage { msg_id: [4u8; 32], reason: None, deleted_at: 9 };
    Op::new(OpId::new(device.public_key_bytes(), 3), 3, vec![[1u8; 32]], op, 1_700_000_000)
}

#[test]
fn sent_operations_are_signed_by_the_device() {
    let device = DeviceKey::generate();
    let op = sample_op(&device);
    let env = encrypt_operation_for_transmission_with(&op, &device, [7u8; 24]).unwrap();
    let header = env.header.clone().unwrap();
    assert_eq!(header.signer, device.public_key_bytes().to_vec());
    assert_eq!(header.nonce, vec![7u8; 24]);
    assert_eq!(header.lamport, 3);
    assert_eq!(header.parents, vec![vec![1u8; 32]]);
    assert_eq!(header.op_id, op.id.to_bytes());
    assert_eq!(header.sig.len(), 64);
    let mut unsigned = header.clone();
    unsigned.sig = Vec::new();
    let mut signed = unsigned.encode_to_vec();
    signed.extend_from_slice(&env.ciphertext);
    let mut sig = [0u8; 64];
    sig.copy_from_slice(&header.sig);
    assert!(device.verify(&signed, &sig).is_ok());
    assert_eq!(env.ciphertext.len(), op.operation.to_bytes().len() + 16);
    let again = encrypt_operation_for_transmission(&op, &device).unwrap();
    assert_ne!(again.header.unwrap().nonce, vec![7u8; 24]);
}

#[test]
fn received_operations_are_checked_over_the_signed_header() {
    let device = DeviceKey::generate();
    let env = encrypt_operation_for_transmission_with(&sample_op(&device), &device, [7u8; 24]).unwrap();
    // The signature covers the header without it, but is checked over the
    // header that carries it.
    assert!(matches!(decrypt_and_verify_operation(&env), Err(TransmissionError::SignatureVerificationFailed)));
    let bare = OpEnvelope { header: None, ciphertext: vec![1, 2, 3] };
    assert!(matches!(decrypt_and_verify_operation(&bare), Err(TransmissionError::MissingHeader)));
    let mut short = env.clone();
    short.header.as_mut().unwrap().sig.pop();
    assert!(matches!(decrypt_and_verify_operation(&short), Err(TransmissionError::InvalidSignatureLength)));
}

#[test]
fn received_operation_needs_a_public_signer_key() {
    let mut bad = None;
    for i in 0u8..=255 {
        let mut p = [0u8; 32];
        p[0] = i;
        p[31] = 0x7f;
        if saved_core::crypto::AccountKey::from_public_bytes(&p).is_err() {
            bad = Some(p);
            break;
        }
    }
    let header = OpHeader {
        op_id: vec![0u8; 40],
        lamport: 1,
        parents: vec![],
        signer: bad.unwrap().to_vec(),
        sig: vec![0u8; 64],
        timestamp: 0,
        nonce: vec![0u8; 24],
    };
    let env = OpEnvelope { header: Some(header), ciphertext: vec![0u8; 30] };
    assert!(matches!(decrypt_and_verify_operation(&env), Err(TransmissionError::InvalidSignerKey)));
}
