//! Copies of stretches of a sample buffer.

use vstd::prelude::*;
use vstd::slice::{slice_subrange, slice_to_vec};
use crate::error::AudioError;
use crate::processor::AudioProcessor;
use crate::segment::at_most;

verus! {

/// Where a chunk that is asked for from `start_sample` starts: a start before
/// the buffer stands for its first sample.
pub open spec fn chunk_start(start_sample: int) -> int {
    if start_sample < 0 {
        0
    } else {
        start_sample
    }
}

/// Where a chunk that is asked for up to `end_sample` ends: an end beyond the
/// buffer, and a negative one, stand for the end of the buffer.
pub open spec fn chunk_end(end_sample: int, len: int) -> int {
    if end_sample < 0 || end_sample > len {
        len
    } else {
        end_sample
    }
}

impl AudioProcessor {
    /// Copies the samples of `content` from `start_sample` up to, not
    /// including, `end_sample`.
    pub fn extract_audio_chunk(&self, content: &[i16], start_sample: i64, end_sample: i64) -> (chunk:
        Vec<i16>)
        requires
            chunk_start(start_sample as int) <= chunk_end(end_sample as int, content@.len() as int),
        ensures
            chunk@ == content@.subrange(
                chunk_start(start_sample as int),
                chunk_end(end_sample as int, content@.len() as int),
            ),
    {
        let len = content.len();
        let to: usize = if end_sample < 0 || end_sample as u64 > len as u64 {
            len
        } else {
            end_sample as usize
        };
        let from: usize = if start_sample < 0 {
            0
        } else {
            start_sample as usize
        };
        slice_to_vec(slice_subrange(content, from, to))
    }

    /// Copies the samples of decoded audio from `start_sample` up to, not
    /// including, `end_sample`, and hands its sample rate on with them.
    ///
    /// Both bounds are held to the length of the audio first. Fails with
    /// `InvalidRange` exactly when no sample lies between them.
    pub fn extract_segment_from_file(
        &self,
        audio_samples: &[i16],
        sample_rate: u32,
        start_sample: usize,
        end_sample: usize,
    ) -> (r: Result<(Vec<i16>, u32), AudioError>)
        ensures
            ({
                let len = audio_samples@.len() as int;
                let from = at_most(start_sample as int, len);
                let to = at_most(end_sample as int, len);
                if from < to {
                    r is Ok && r->Ok_0.0@ == audio_samples@.subrange(from, to) && r->Ok_0.1
                        == sample_rate
                } else {
                    r == Err::<(Vec<i16>, u32), AudioError>(AudioError::InvalidRange)
                }
            }),
    {
        let len = audio_samples.len();
        let from = if start_sample > len {
            len
        } else {
            start_sample
        };
        let to = if end_sample > len {
            len
        } else {
            end_sample
        };
        if from >= to {
            return Err(AudioError::InvalidRange);
        }
        Ok((slice_to_vec(slice_subrange(audio_samples, from, to)), sample_rate))
    }
}

} // verus!
