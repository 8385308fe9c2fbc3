//! A placeholder-text generator: a vocabulary is derived from a source
//! text, and words, sentences and paragraphs are assembled from random
//! draws of it, with configurable counts, comma density and an optional
//! static first sentence.

pub mod count;
pub mod generator;
pub mod placeholder;
pub mod rng;
pub mod text;
pub mod vocabulary;
