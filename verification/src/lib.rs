//! Core of a Japanese text analyzer: a Unicode range classifier, a byte-safe
//! UTF-8 stream reader, a tokenizer-safe line chunker, a frequency/occurrence
//! engine, and an associative statistics aggregator.
//!
//! File discovery, JSON transcript parsing and the morphological tokenizer are
//! external collaborators; they live outside this crate and exchange plain
//! values (strings, byte buffers, vectors) with the verified core.

pub mod args_parser;
pub mod chunker;
pub mod classifier;
pub mod compress;
pub mod occurrence;
pub mod report;
pub mod stats;
pub mod text;
pub mod utf8_bufreader;
