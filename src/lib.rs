//! Bounded top-K search over cipher transforms: a tracker that keeps the
//! best-scoring candidates of a stream, the per-shard evaluation that feeds
//! it, and the transforms, scorers and generators that produce candidates.

pub mod alphabet_analysis;
pub mod candidate;
pub mod key_generation;
pub mod scoring;
pub mod search;
pub mod substitution;
pub mod text;
pub mod tracker;
pub mod transposition;
