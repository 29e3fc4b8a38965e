//! Byte-pair-encoding training with a full merge trace.
//!
//! `BPEEngine::train` segments a text into characters, then repeatedly fuses
//! the most frequent adjacent pair of tokens, recording every intermediate
//! segmentation.  `model` holds the mathematical description of that process,
//! `laws` the properties proved of it, and `windows` the argument that every
//! merge creates a value the vocabulary does not hold yet.

pub mod token;
pub mod model;
pub mod laws;
pub mod windows;
pub mod vocabulary;
pub mod engine;

pub use engine::BPEEngine;
pub use token::{MergeStep, Token, TrainingResult};
