//! Core library of SAVED: a peer-to-peer, end-to-end encrypted store of
//! personal messages whose replicas converge through a CRDT operation log.

pub mod ids;
pub mod wire;
pub mod codec;
pub mod protobuf;
pub mod recovery;
pub mod assoc;
pub mod clock;
pub mod crypto;
pub mod events;
pub mod crdt;
pub mod sync;
pub mod validation;
pub mod daemon;
pub mod types;
pub mod envelope;
pub mod chunks;
pub mod device_linking;
pub mod views;
pub mod peers;
pub mod attachments;
pub mod gossip;
pub mod account;
pub mod transmission;
pub mod discovery;
pub mod control;
pub mod text;
