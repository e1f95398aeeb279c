//! Chunk labels and speech segments.

use vstd::prelude::*;
use vstd::slice::{slice_subrange, slice_to_vec};
use crate::processor::AudioProcessor;
use crate::text::{container_text, text_or_empty};

verus! {

/// What the classifier said of one chunk of samples.
#[derive(Debug, Clone, Copy, PartialEq, Eq, Structural)]
pub enum ChunkLabel {
    Speech,
    NonSpeech,
}

/// A stretch of the sample buffer that holds speech.
///
/// `start_sample` and `end_sample` count samples at the processor's rate, so the
/// segment starts `start_sample / rate` seconds into the buffer and ends
/// `end_sample / rate` seconds into it. `audio_data` is the segment's own copy
/// of its samples, and `audio_base64` their container in base64 text, or the
/// empty text where they have none.
#[derive(Debug, Clone, PartialEq, Eq)]
pub struct AudioSegment {
    pub start_sample: i64,
    pub end_sample: i64,
    pub audio_data: Vec<i16>,
    pub audio_base64: String,
}

/// A segment as plain values.
pub ghost struct SegmentView {
    pub start: int,
    pub end: int,
    pub samples: Seq<i16>,
    pub text: Seq<char>,
}

impl SegmentView {
    /// A segment starts at or after sample 0 and ends after it starts.
    pub open spec fn wf(self) -> bool {
        0 <= self.start < self.end
    }
}

impl View for AudioSegment {
    type V = SegmentView;

    open spec fn view(&self) -> SegmentView {
        SegmentView {
            start: self.start_sample as int,
            end: self.end_sample as int,
            samples: self.audio_data@,
            text: self.audio_base64@,
        }
    }
}

/// The segments of a list, each as plain values.
pub open spec fn views(segments: Seq<AudioSegment>) -> Seq<SegmentView> {
    segments.map_values(|s: AudioSegment| s@)
}

/// `i`, or `len` where `i` lies beyond it.
pub open spec fn at_most(i: int, len: int) -> int {
    if i > len {
        len
    } else {
        i
    }
}

/// The samples of `content` from `start` to `end`, both held to its length.
pub open spec fn slice_between(content: Seq<i16>, start: int, end: int) -> Seq<i16>
    recommends
        0 <= start <= end,
{
    content.subrange(at_most(start, content.len() as int), at_most(end, content.len() as int))
}

/// The segment from `start` to `end` of `content`: its bounds as given, its
/// samples cut from the buffer, and their container at `rate` hertz.
pub open spec fn cut(content: Seq<i16>, start: int, end: int, rate: u32) -> SegmentView
    recommends
        0 <= start <= end,
{
    SegmentView {
        start,
        end,
        samples: slice_between(content, start, end),
        text: container_text(slice_between(content, start, end), rate),
    }
}

fn index_at_most(i: i64, len: usize) -> (r: usize)
    requires
        0 <= i,
    ensures
        r == at_most(i as int, len as int),
{
    if i as u64 > len as u64 {
        len
    } else {
        i as usize
    }
}

impl AudioProcessor {
    /// Makes the segment from `start_sample` to `end_sample` of `content`.
    ///
    /// The bounds are kept as given; the samples are those of the buffer between
    /// them, as far as the buffer reaches. A failed encoding leaves the text
    /// empty and the samples in place.
    pub fn cut_segment(&self, content: &[i16], start_sample: i64, end_sample: i64) -> (segment:
        AudioSegment)
        requires
            0 <= start_sample <= end_sample,
        ensures
            segment@ == cut(content@, start_sample as int, end_sample as int, self.rate()),
    {
        let from = index_at_most(start_sample, content.len());
        let to = index_at_most(end_sample, content.len());
        let audio_data = slice_to_vec(slice_subrange(content, from, to));
        let audio_base64 = text_or_empty(self.samples_to_wav_base64(audio_data.as_slice()));
        AudioSegment { start_sample, end_sample, audio_data, audio_base64 }
    }
}

} // verus!
