//! The client side: a mirror of the server's tables kept up to date by
//! deltas.
pub mod client_db;
pub mod error;
