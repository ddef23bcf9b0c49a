//! Producer side of a line-oriented JSON status-bar feed.
//!
//! The library models the three wire entities of the protocol (`Header`,
//! `Block`, `ClientEvent`), renders them to single-line JSON with a
//! byte-exact specification, parses click events sent back by the host,
//! and drives the streaming lifecycle (header, open array, comma-separated
//! snapshot elements, never closed).

pub mod engine;
pub mod json;
pub mod laws;
pub mod parse;
pub mod protocol;
