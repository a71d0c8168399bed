//! Types shared by the client and the relay.
pub mod models;
