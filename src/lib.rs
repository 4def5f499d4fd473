//! Sorted word-list processing: a case-fold collation rule, sorted word
//! streams with their transforms, sources and sinks, the sorted word
//! collection, and the word-guessing game that consumes the resulting lists.

pub mod collation;
pub mod word;
pub mod entry;
pub mod stream;
pub mod sorting;
pub mod sources;
pub mod sinks;
pub mod word_set;
pub mod data;
pub mod game;
