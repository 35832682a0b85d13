//! Byte Pair Encoding training and tokenization with verified data structures.

pub mod types;
pub mod merge_sequence;
pub mod chain;
pub mod merge_candidate_buckets;
pub mod model;
pub mod ordered;
pub mod training;
pub mod pattern;
pub mod text;
pub mod error;
pub mod bpe;
pub mod config;
pub mod corpus;
pub mod inspect;
pub mod laws;
pub mod split;
pub mod encode;
pub mod dataset;
