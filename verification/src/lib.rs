//! Voice activity detection: which stretches of an audio stream are speech.
//!
//! Two nodes of a streaming pipeline are described here without the pipeline around them.
//! [`SileroVADNode`] hears chunks of audio, asks a neural model how likely each is to be
//! speech, and reports where speech begins and ends. [`SpeculativeVADCoordinator`]
//! forwards audio before the answer is known and takes it back when the speech turns out
//! to be too short. Running the model, fetching it and delivering what is given out is
//! left to the caller: the nodes say what is to be done and take in what came of it.
//!
//! Samples and probabilities are floating-point numbers, carried as their bit patterns and
//! computed with in integers ([`numbers`]), so that every result is a proved one.

pub mod accuracy;
pub mod arith;
pub mod config;
pub mod coordinator;
pub mod data;
pub mod effects;
pub mod error;
pub mod factory;
pub mod fidelity;
pub mod json;
pub mod laws;
pub mod levels;
pub mod model;
pub mod numbers;
pub mod rounding;
pub mod sessions;
pub mod signal;
pub mod text;
pub mod turn;
pub mod vad;

pub use crate::config::{SileroVADConfig, SpeculativeVADCoordinatorConfig};
pub use crate::coordinator::SpeculativeVADCoordinator;
pub use crate::factory::{SileroVADNodeFactory, SpeculativeVADCoordinatorFactory};
pub use crate::vad::SileroVADNode;
