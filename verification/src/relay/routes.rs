//! The relay's HTTP routes.
use vstd::prelude::*;
use crate::common::models::Message;

verus! {

/// `POST /send`: takes a message and confirms receipt; nothing is stored.
pub fn send_message(_msg: Message) -> (r: &'static str)
    ensures
        r@ == "Message received"@,
{
    "Message received"
}

/// `GET /fetch/{room_id}`: the messages of a room; none are kept, so none.
pub fn fetch_messages(_room_id: String) -> (r: Vec<Message>)
    ensures
        r@.len() == 0,
{
    Vec::new()
}

} // verus!
