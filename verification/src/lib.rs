//! A tiny document index: each document is encoded as a 26-entry
//! letter-frequency vector, and documents are ranked against a query by
//! cosine similarity.
//!
//! Scores are kept as exact rationals (the square of the cosine), so
//! ranking and equality are exact; callers that want the cosine itself
//! take the square root of `num / den`.

pub mod encoding;
pub mod score;
pub mod store;
