//! Verified post-processing of speech transcriptions: filler words, stutters,
//! word replacements, self-corrections and custom-vocabulary correction.
pub mod unicode;
pub mod text;
pub mod pattern;
pub mod similarity;
pub mod corrections;
pub mod custom_words;
pub mod cleanup;
pub mod replacements;
pub mod laws;
