//! Byte-level scanning primitives and a stackless, streaming engine that
//! counts the matches of descendant-only JSONPath queries (`$..a..b`) over
//! in-memory JSON documents.
//!
//! The crate is organised bottom-up:
//! - [`bytes`] finds single bytes and escape-aware occurrences,
//! - [`sequences`] finds fixed byte sequences and the earliest of a set,
//! - [`quotes`] classifies which bytes of a block lie inside string literals,
//! - [`classify`] turns a document into a stream of structural events,
//! - [`stackless`] runs the descendant automaton over those events.

pub mod bytes;
pub mod classify;
pub mod quotes;
pub mod sequences;
pub mod stackless;
