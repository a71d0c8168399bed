//! Verified core of a two-person "secret room" terminal chat: the relay's
//! room admission and event handling, and the client's message store,
//! rendering and text utilities.
pub mod json;
pub mod text;
pub mod clock;
pub mod relay;
pub mod client;
pub mod common;
