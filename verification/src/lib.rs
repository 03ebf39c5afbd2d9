//! Ingestion library for user-submitted API declarations.
//!
//! An API declaration describes the database tables of a backend project to
//! generate. Declarations arrive as JSON documents on a message queue; this
//! crate holds the typed schema for them, a verified JSON codec, and the
//! per-message pipeline decision logic (decode, persist, dispatch,
//! acknowledge). The queue, database and HTTP transports live outside the
//! library and only carry the plain values computed here.

pub mod models;
pub mod text;
pub mod codec;
pub mod parse;
pub mod pipeline;
