//! A codec for a small event record.
//!
//! A [`record::Record`] holds two text fields, `name` and `date`. The codec
//! turns a record into a JSON object with exactly those two keys and back.
//! At rest the `date` field carries the literal prefix `"Date: "`; encoding
//! adds it and decoding requires and removes it, so the two directions are
//! exact inverses.

pub mod codec;
pub mod laws;
pub mod model;
pub mod record;
