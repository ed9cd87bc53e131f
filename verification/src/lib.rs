//! Byte-pair-encoding tokenizer: learns a subword vocabulary from a corpus by
//! repeated merges of the most frequent adjacent token pairs, and encodes
//! phrases with the learned vocabulary.

pub mod text;
pub mod types;
pub mod merge;
pub mod pairs;
pub mod seed;
pub mod train;
pub mod encode;
pub mod laws;
