//! Alignment-preserving text normalization and pre-tokenization.
//!
//! A [`normalizer::NormalizedString`] keeps the original text, the current
//! (rewritten) text, and for every current character the span of original
//! characters it comes from. Rewrites, slicing and splitting keep that table
//! exact, so every fragment can be resolved back to the input.
pub mod text;
pub mod normalizer;
pub mod unicode;
pub mod pattern;
pub mod pretokenizer;
pub mod pre_tokenizers;
pub mod normalizers;
pub mod noop;
pub mod laws;
