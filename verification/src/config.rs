//! Settings of the two nodes.

use vstd::prelude::*;

use crate::numbers;
use crate::numbers::Binary32;

verus! {

/// Settings of the detector.
pub struct SileroVADConfig {
    /// Where the model lies; a file of its own name in the working directory, if not said.
    pub model_path: Option<String>,
    /// From this probability on, a chunk is speech.
    pub threshold: Binary32,
    /// Below this probability, a chunk counts as silence once speech has begun.
    pub neg_threshold: Option<Binary32>,
    pub sampling_rate: u32,
    pub min_speech_duration_ms: u32,
    /// How long silence has to last to end speech.
    pub min_silence_duration_ms: u32,
    pub speech_pad_ms: u32,
}

impl Default for SileroVADConfig {
    fn default() -> (c: SileroVADConfig)
        ensures
            c.is_default(),
    {
        proof {
            numbers::lemma_half();
        }
        SileroVADConfig {
            model_path: None,
            threshold: Binary32::from_ratio(1, 2),
            neg_threshold: None,
            sampling_rate: 16_000,
            min_speech_duration_ms: 250,
            min_silence_duration_ms: 100,
            speech_pad_ms: 30,
        }
    }
}

impl SileroVADConfig {
    /// The settings that hold where nothing is said.
    pub open spec fn is_default(self) -> bool {
        &&& self.model_path is None
        // One half.
        &&& self.threshold.bits == 0x3f00_0000
        &&& self.neg_threshold is None
        &&& self.sampling_rate == 16_000
        &&& self.min_speech_duration_ms == 250
        &&& self.min_silence_duration_ms == 100
        &&& self.speech_pad_ms == 30
    }

    /// The probability below which speech falls silent: as set, or a little below the
    /// threshold but not below zero, and never above the threshold.
    pub open spec fn neg_threshold_in_force(self) -> Binary32 {
        let chosen = match self.neg_threshold {
            Some(t) => t,
            None => self.threshold.minus(Binary32::ratio(15, 100)).larger(Binary32 { bits: 0 }),
        };
        chosen.smaller(self.threshold)
    }
}

/// Settings of the coordinator.
pub struct SpeculativeVADCoordinatorConfig {
    pub vad_threshold: Binary32,
    pub sample_rate: u32,
    /// Speech that is shorter was no speech.
    pub min_speech_duration_ms: u32,
    pub min_silence_duration_ms: u32,
    /// How much audio is kept.
    pub lookback_ms: u32,
    pub speech_pad_ms: u32,
}

impl Default for SpeculativeVADCoordinatorConfig {
    fn default() -> (c: SpeculativeVADCoordinatorConfig)
        ensures
            c.is_default(),
    {
        proof {
            numbers::lemma_half();
        }
        SpeculativeVADCoordinatorConfig {
            vad_threshold: Binary32::from_ratio(1, 2),
            sample_rate: 16_000,
            min_speech_duration_ms: 250,
            min_silence_duration_ms: 100,
            lookback_ms: 150,
            speech_pad_ms: 30,
        }
    }
}

impl SpeculativeVADCoordinatorConfig {
    /// The settings that hold where nothing is said.
    pub open spec fn is_default(self) -> bool {
        // One half.
        &&& self.vad_threshold.bits == 0x3f00_0000
        &&& self.sample_rate == 16_000
        &&& self.min_speech_duration_ms == 250
        &&& self.min_silence_duration_ms == 100
        &&& self.lookback_ms == 150
        &&& self.speech_pad_ms == 30
    }

    /// The samples that the lookback takes.
    pub open spec fn lookback_samples(self) -> nat {
        (self.lookback_ms * (self.sample_rate / 1000)) as nat
    }

    /// The samples of the lookback can be counted, and there is memory for them that can be
    /// asked for.
    pub open spec fn has_lookback(self) -> bool {
        self.lookback_samples() <= u32::MAX && 4 * self.lookback_samples() <= isize::MAX
    }
}

} // verus!
