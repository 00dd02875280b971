//! A binary spam/ham text classifier: Naive Bayes over token presence, with additive
//! smoothing kept as exact fractions.

pub mod classifier;
pub mod laws;
pub mod message;
pub mod tokenizer;
