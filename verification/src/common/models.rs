//! The message record exchanged over the relay's HTTP routes.
use vstd::prelude::*;

verus! {

/// A message with an encrypted payload.
pub struct Message {
    pub id: String,
    pub room_id: String,
    pub sender: String,
    pub timestamp: i64,
    pub encrypted_payload: Vec<u8>,
}

} // verus!
