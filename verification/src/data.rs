//! What passes through the nodes.

use vstd::prelude::*;

use crate::numbers::Binary32;

verus! {

/// A message that steers a pipeline.
#[derive(Clone, Copy, PartialEq, Eq, Structural, Debug)]
pub enum ControlMessageType {
    /// What was forwarded of this stretch is to be taken back.
    CancelSpeculation { from_timestamp: u64, to_timestamp: u64 },
    BatchHint { suggested_batch_size: usize },
    DeadlineWarning { deadline_us: u64 },
}

/// A chunk of audio, its channels interleaved.
pub struct AudioChunk {
    pub samples: Vec<Binary32>,
    pub sample_rate: u32,
    pub channels: u32,
}

/// What a node is given, as far as it looks into it.
pub enum MediaInput {
    Audio(AudioChunk),
    ControlMessage(ControlMessageType),
    Other,
}

} // verus!
