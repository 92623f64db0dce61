//! An in-memory record store with write-through snapshot persistence and
//! credential verification.
//!
//! The store keeps two tables — tasks and user accounts — behind one owner,
//! serializes the whole store to a single snapshot document after every
//! mutation, and checks passwords with a salted one-way hash.

pub mod auth;
pub mod codec;
pub mod laws;
pub mod store;
