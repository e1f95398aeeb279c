//! The processor: the one sample rate that segmentation works at, and how far
//! the processing of a file has come.

use vstd::prelude::*;

verus! {

/// The rate, in hertz, that audio is brought to before speech detection.
pub const TARGET_SAMPLE_RATE: u32 = 16000;

/// The number of samples in one classified chunk at the target rate.
pub const CHUNK_SIZE: usize = 512;

/// The longest pause between two segments, in milliseconds, that merging closes.
pub const DEFAULT_MAX_GAP_MS: u64 = 1500;

/// How far the processing of a file has come.
#[derive(Debug, Clone, Copy, PartialEq, Eq, Structural)]
pub enum Stage {
    /// No file is being processed.
    Idle,
    /// The file was accepted; its decoded samples are awaited.
    Decoding,
    /// The samples were handed out for speech detection; the labels are awaited.
    Detecting,
}

/// Turns decoded audio into speech segments.
///
/// Sample indices of the segments it makes count samples at `rate()`.
pub struct AudioProcessor {
    sample_rate: u32,
    stage: Stage,
}

impl AudioProcessor {
    /// The rate, in hertz, of the buffers this processor cuts segments from.
    pub closed spec fn rate(&self) -> u32 {
        self.sample_rate
    }

    /// How far the processing of a file has come.
    pub closed spec fn stage(&self) -> Stage {
        self.stage
    }

    /// A processor at the target rate, with no file in work.
    pub fn new() -> (processor: Self)
        ensures
            processor.rate() == TARGET_SAMPLE_RATE,
            processor.stage() == Stage::Idle,
    {
        AudioProcessor { sample_rate: TARGET_SAMPLE_RATE, stage: Stage::Idle }
    }

    /// The rate, in hertz, of the buffers this processor cuts segments from.
    pub fn sample_rate(&self) -> (hz: u32)
        ensures
            hz == self.rate(),
    {
        self.sample_rate
    }

    /// How far the processing of a file has come.
    pub fn current_stage(&self) -> (stage: Stage)
        ensures
            stage == self.stage(),
    {
        self.stage
    }

    /// Moves on to `stage` and sets the rate to the target rate.
    pub(crate) fn enter(&mut self, stage: Stage)
        ensures
            final(self).stage() == stage,
            final(self).rate() == TARGET_SAMPLE_RATE,
    {
        self.stage = stage;
        self.sample_rate = TARGET_SAMPLE_RATE;
    }
}

} // verus!
