//! The relay: room admission, event handling and fan-out.
pub mod types;
pub mod socket;
pub mod fanout;
pub mod db;
pub mod events;
pub mod simple;
pub mod routes;
