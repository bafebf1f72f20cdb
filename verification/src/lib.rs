//! A query rewrite engine for a chat-bot SQL gateway.
//!
//! Untrusted, free-text SQL is parsed into a word-level statement model,
//! its row limit is clamped to a configured ceiling, and a single output
//! format is forced, before the text is ever handed to the database.

pub mod digits;
pub mod endpoint;
pub mod laws;
pub mod plan;
pub mod policy;
pub mod render;
pub mod rewrite;
pub mod text;
