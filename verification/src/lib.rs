//! A self-hosted paste record store: record model, identifier codecs,
//! a durable SQLite-backed store kept in step with an in-memory cache,
//! a lazy expiration sweep, and the access-control rules that gate
//! viewing, editing and deleting records.

pub mod access;
pub mod codec;
pub mod db;
pub mod digits;
pub mod hashed;
pub mod pasta;
pub mod store;
pub mod words;
