//! Core of a spell-check and completion engine for Polish text.
//!
//! The library holds the algorithmic heart of a language server: a
//! Unicode-aware position index, a word tokenizer, a dictionary store
//! with case-insensitive lookup, a bounded edit-distance matcher, and
//! a completion ranker. It performs no I/O; the surrounding process
//! feeds it plain values and presents its results.

pub mod chars;
pub mod diagnostics;
pub mod dictionary;
pub mod distance;
pub mod pos_conv;
pub mod ranker;
pub mod tokenizer;
