//! The terminal client: its message store, how it reacts to relay events,
//! and how it renders messages.
pub mod types;
pub mod chat;
pub mod utils;
pub mod colors;
pub mod ui;
