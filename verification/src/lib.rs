//! Quote collections for mail signatures.
//!
//! Plain-text quote files come in two hand-written layouts. This crate
//! recognises both, extracts the quotes, merges several files into one
//! duplicate-free list that keeps first-seen order, and renders each quote
//! as a named signature. Every function is specified over sequences of
//! characters and verified against that specification.

pub mod text;
pub mod quotes_parser;
pub mod signatures;
pub mod merge;
pub mod labels;
pub mod cli;
