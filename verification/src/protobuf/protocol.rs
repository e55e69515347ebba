//! Protocol identifiers.

use vstd::prelude::*;

verus! {

/// Gossipsub topic for head announcements.
pub const HEADS_TOPIC: &'static str = "/savedmsgs/{account_id}/heads";

/// Request-response protocol for operations.
pub const OPS_PROTOCOL: &'static str = "/savedmsgs/1/ops";

/// Request-response protocol for chunks.
pub const CHUNKS_PROTOCOL: &'static str = "/savedmsgs/1/chunks";

/// Request-response protocol for device linking.
pub const LINKING_PROTOCOL: &'static str = "/savedmsgs/1/linking";

} // verus!
