//! The processing of one file, step by step.
//!
//! Decoding and speech detection run outside this library. The processor says
//! what is to be done next, takes what came of it, and goes on: it admits the
//! file by its extension, brings the decoded samples to the target rate, and
//! turns the labels of the chunks into merged segments. Each step names the
//! milestones it has passed, for whoever watches the progress.

use vstd::prelude::*;
use vstd::string::StrSliceExecFns;
use crate::assemble::{
    assembled, lemma_spans_in_order, lemma_spans_ordered, segments_at, speech_spans,
};
use crate::error::AudioError;
use crate::merge::{
    all_wf, is_cut_of, lemma_merge_non_overlap, lemma_merged_are_cuts, lemma_merged_wf,
    lemma_sorted_by_start, merged, ordered_by_start, sorted_by_start,
};
use crate::processor::{AudioProcessor, Stage, CHUNK_SIZE, DEFAULT_MAX_GAP_MS, TARGET_SAMPLE_RATE};
use crate::resample::{can_resample, resampled};
use crate::segment::{views, AudioSegment, ChunkLabel, SegmentView};

verus! {

/// A point that the processing of a file passes.
#[derive(Debug, Clone, Copy, PartialEq, Eq, Structural)]
pub enum Milestone {
    FormatValidated,
    DecodeStarted,
    AudioDecoded,
    ResampleStarted,
    AudioResampled,
    DetectionStarted,
    DetectionRunning,
    DetectionDone,
    ExtractionStarted,
    MergeStarted,
    SegmentationDone,
    Complete,
}

impl Milestone {
    /// How much of the work is done at this milestone, in percent.
    pub open spec fn percent_of(self) -> u8 {
        match self {
            Milestone::FormatValidated => 5,
            Milestone::DecodeStarted => 10,
            Milestone::AudioDecoded => 25,
            Milestone::ResampleStarted => 35,
            Milestone::AudioResampled => 45,
            Milestone::DetectionStarted => 50,
            Milestone::DetectionRunning => 60,
            Milestone::DetectionDone => 75,
            Milestone::ExtractionStarted => 80,
            Milestone::MergeStarted => 90,
            Milestone::SegmentationDone => 95,
            Milestone::Complete => 100,
        }
    }

    /// How much of the work is done at this milestone, in percent.
    pub fn percent(self) -> (p: u8)
        ensures
            p == self.percent_of(),
            p <= 100,
    {
        match self {
            Milestone::FormatValidated => 5,
            Milestone::DecodeStarted => 10,
            Milestone::AudioDecoded => 25,
            Milestone::ResampleStarted => 35,
            Milestone::AudioResampled => 45,
            Milestone::DetectionStarted => 50,
            Milestone::DetectionRunning => 60,
            Milestone::DetectionDone => 75,
            Milestone::ExtractionStarted => 80,
            Milestone::MergeStarted => 90,
            Milestone::SegmentationDone => 95,
            Milestone::Complete => 100,
        }
    }
}

/// What came of the work that a step asked for.
#[derive(Debug, Clone, PartialEq, Eq)]
pub enum PipelineEvent {
    /// The decoder gave these mono samples at this rate.
    Decoded { samples: Vec<i16>, sample_rate: u32 },
    /// The decoder failed.
    DecodeFailed,
    /// The classifier labelled the chunks of `content`, first chunk first.
    Labeled { content: Vec<i16>, labels: Vec<ChunkLabel> },
    /// The classifier could not be set up.
    DetectorFailed,
}

/// What is to be done next.
#[derive(Debug, Clone, PartialEq, Eq)]
pub enum PipelineAction {
    /// Decode the file and report `Decoded` or `DecodeFailed`.
    Decode,
    /// Label the chunks of `content` and report `Labeled`, with this buffer, or
    /// `DetectorFailed`.
    Detect { content: Vec<i16> },
    /// The file is processed: these are its segments, and `assembled` is the
    /// number of segments there were before merging.
    Done { segments: Vec<AudioSegment>, assembled: usize },
    /// The processing failed.
    Fail { error: AudioError },
}

/// One step of the processing: what to do next, and the milestones passed.
#[derive(Debug, Clone, PartialEq, Eq)]
pub struct PipelineStep {
    pub action: PipelineAction,
    pub progress: Vec<Milestone>,
}

/// The number that stands for `c` when letters count alike in both cases.
pub open spec fn folded(c: char) -> int {
    if 'A' <= c <= 'Z' {
        c as int + 32
    } else {
        c as int
    }
}

/// Whether `a` and `b` are the same text but for the case of their letters.
pub open spec fn same_ignoring_case(a: Seq<char>, b: Seq<char>) -> bool {
    a.len() == b.len() && forall|i: int| 0 <= i < a.len() ==> folded(a[i]) == folded(b[i])
}

/// Whether `extension` names one of the audio formats that are processed.
pub open spec fn is_supported_extension(extension: Seq<char>) -> bool {
    ||| same_ignoring_case(extension, "wav"@)
    ||| same_ignoring_case(extension, "mp3"@)
    ||| same_ignoring_case(extension, "m4a"@)
    ||| same_ignoring_case(extension, "aac"@)
    ||| same_ignoring_case(extension, "flac"@)
    ||| same_ignoring_case(extension, "ogg"@)
}

fn fold_case(c: char) -> (code: u32)
    ensures
        code == folded(c),
{
    if 'A' <= c && c <= 'Z' {
        c as u32 + 32
    } else {
        c as u32
    }
}

fn is_same_ignoring_case(a: &str, b: &str) -> (same: bool)
    ensures
        same == same_ignoring_case(a@, b@),
{
    let n = a.unicode_len();
    if n != b.unicode_len() {
        return false;
    }
    let mut i: usize = 0;
    while i < n
        invariant
            i <= n,
            n == a@.len(),
            n == b@.len(),
            forall|k: int| 0 <= k < i ==> folded(a@[k]) == folded(b@[k]),
        decreases n - i,
    {
        if fold_case(a.get_char(i)) != fold_case(b.get_char(i)) {
            return false;
        }
        i += 1;
    }
    true
}

/// Says whether `extension` names one of the audio formats that are
/// processed: wav, mp3, m4a, aac, flac or ogg, in either case of the letters.
pub fn is_supported_format(extension: &str) -> (supported: bool)
    ensures
        supported == is_supported_extension(extension@),
{
    is_same_ignoring_case(extension, "wav") || is_same_ignoring_case(extension, "mp3")
        || is_same_ignoring_case(extension, "m4a") || is_same_ignoring_case(extension, "aac")
        || is_same_ignoring_case(extension, "flac") || is_same_ignoring_case(extension, "ogg")
}

/// Calls `std::path::Path::extension` on `file_path` and gives the extension
/// as text, where the path has one.
///
/// Trusted, and nothing is claimed of the result: which part of a path is its
/// file name varies with the platform.
#[verifier::external_body]
fn path_extension(file_path: &str) -> (extension: Option<String>) {
    std::path::Path::new(file_path).extension().and_then(|e| e.to_str()).map(|e| e.to_string())
}

/// Admits a file by the extension that was found in its path; a path without
/// one counts as having the empty extension.
///
/// Fails with `UnsupportedFormat`, which carries the extension, exactly when
/// the extension is none of the formats that are processed.
pub fn admit_extension(found: Option<String>) -> (r: Result<(), AudioError>)
    ensures
        ({
            let extension = match found {
                Some(e) => e@,
                None => Seq::<char>::empty(),
            };
            if is_supported_extension(extension) {
                r is Ok
            } else {
                r matches Err(AudioError::UnsupportedFormat { extension: e }) && e@ == extension
            }
        }),
{
    let extension = match found {
        Some(e) => e,
        None => String::new(),
    };
    if is_supported_format(extension.as_str()) {
        Ok(())
    } else {
        Err(AudioError::UnsupportedFormat { extension })
    }
}

/// The segments of a buffer at the target rate whose chunks carry `labels`:
/// assembled, then merged over the default gap.
pub open spec fn segmented(labels: Seq<ChunkLabel>, content: Seq<i16>, rate: u32) -> Seq<
    SegmentView,
> {
    merged(
        sorted_by_start(assembled(labels, content, CHUNK_SIZE as int, rate)),
        content,
        rate,
        DEFAULT_MAX_GAP_MS,
    )
}

/// Whether `event` is what the processor waits for at `stage`.
pub open spec fn in_turn(stage: Stage, event: PipelineEvent) -> bool {
    match stage {
        Stage::Idle => false,
        Stage::Decoding => event is Decoded || event is DecodeFailed,
        Stage::Detecting => event is Labeled || event is DetectorFailed,
    }
}

/// The milestones passed when decoded samples at `sample_rate` are taken in
/// and handed on for detection.
pub open spec fn milestones_to_detection(sample_rate: u32) -> Seq<Milestone> {
    if sample_rate == TARGET_SAMPLE_RATE {
        seq![Milestone::AudioDecoded, Milestone::DetectionStarted, Milestone::DetectionRunning]
    } else {
        seq![
            Milestone::AudioDecoded,
            Milestone::ResampleStarted,
            Milestone::AudioResampled,
            Milestone::DetectionStarted,
            Milestone::DetectionRunning,
        ]
    }
}

/// The milestones passed from the labels to the merged segments.
pub open spec fn milestones_to_segments() -> Seq<Milestone> {
    seq![
        Milestone::DetectionDone,
        Milestone::ExtractionStarted,
        Milestone::MergeStarted,
        Milestone::SegmentationDone,
    ]
}

impl AudioProcessor {
    /// Starts on the file at `file_path`.
    ///
    /// The step is `Decode` where the extension of the path is one of the
    /// formats that are processed, and the processor then awaits the decoded
    /// samples. Else the step fails with `UnsupportedFormat`, which carries
    /// the extension found, and the processor stays idle.
    pub fn process_audio_file(&mut self, file_path: &str, _model_path: &str) -> (step:
        PipelineStep)
        ensures
            final(self).rate() == TARGET_SAMPLE_RATE,
            step.action is Decode || step.action is Fail,
            step.action is Decode ==> final(self).stage() == Stage::Decoding && step.progress@
                == seq![Milestone::FormatValidated, Milestone::DecodeStarted],
            step.action is Fail ==> final(self).stage() == Stage::Idle && step.progress@
                == seq![Milestone::FormatValidated] && step.action->error is UnsupportedFormat
                && !is_supported_extension(step.action->error->extension@),
    {
        let mut progress: Vec<Milestone> = Vec::new();
        progress.push(Milestone::FormatValidated);
        match admit_extension(path_extension(file_path)) {
            Ok(()) => {
                progress.push(Milestone::DecodeStarted);
                self.enter(Stage::Decoding);
                assert(progress@ =~= seq![Milestone::FormatValidated, Milestone::DecodeStarted]);
                PipelineStep { action: PipelineAction::Decode, progress }
            },
            Err(error) => {
                self.enter(Stage::Idle);
                assert(progress@ =~= seq![Milestone::FormatValidated]);
                PipelineStep { action: PipelineAction::Fail { error }, progress }
            },
        }
    }

    /// Takes what came of the last step and says what to do next.
    ///
    /// Decoded samples are brought to the target rate and handed out for
    /// detection; no samples at all are a failed decoding. Labels are turned
    /// into segments, which are merged over the default gap. A failure that is
    /// reported, and an event that is not awaited, fail the processing. After
    /// `Done` and after `Fail` the processor is idle again.
    pub fn process_audio_file_with_progress(&mut self, event: PipelineEvent) -> (step: PipelineStep)
        requires
            event matches PipelineEvent::Labeled { content, labels } ==> labels@.len() * CHUNK_SIZE
                <= i64::MAX && content@.len() <= i64::MAX,
        ensures
            final(self).rate() == TARGET_SAMPLE_RATE,
            !in_turn(old(self).stage(), event) ==> step.action == (PipelineAction::Fail {
                error: AudioError::OutOfTurn,
            }) && step.progress@.len() == 0 && final(self).stage() == Stage::Idle,
            in_turn(old(self).stage(), event) ==> match event {
                PipelineEvent::Decoded { samples, sample_rate } => {
                    if samples@.len() == 0 {
                        &&& step.action == (PipelineAction::Fail {
                            error: AudioError::DecodeFailure,
                        })
                        &&& step.progress@ == seq![Milestone::AudioDecoded]
                        &&& final(self).stage() == Stage::Idle
                    } else if !can_resample(samples@.len(), sample_rate, TARGET_SAMPLE_RATE) {
                        &&& step.action == (PipelineAction::Fail {
                            error: AudioError::ResampleFailure,
                        })
                        &&& step.progress@ == seq![
                            Milestone::AudioDecoded,
                            Milestone::ResampleStarted,
                        ]
                        &&& final(self).stage() == Stage::Idle
                    } else {
                        &&& step.action is Detect
                        &&& step.action->content@ == resampled(
                            samples@,
                            sample_rate,
                            TARGET_SAMPLE_RATE,
                        )
                        &&& step.progress@ == milestones_to_detection(sample_rate)
                        &&& final(self).stage() == Stage::Detecting
                    }
                },
                PipelineEvent::DecodeFailed => {
                    &&& step.action == (PipelineAction::Fail { error: AudioError::DecodeFailure })
                    &&& step.progress@.len() == 0
                    &&& final(self).stage() == Stage::Idle
                },
                PipelineEvent::Labeled { content, labels } => {
                    &&& step.action is Done
                    &&& views(step.action->segments@) == segmented(
                        labels@,
                        content@,
                        TARGET_SAMPLE_RATE,
                    )
                    &&& step.action->assembled == assembled(
                        labels@,
                        content@,
                        CHUNK_SIZE as int,
                        TARGET_SAMPLE_RATE,
                    ).len()
                    &&& step.progress@ == milestones_to_segments()
                    &&& final(self).stage() == Stage::Idle
                },
                PipelineEvent::DetectorFailed => {
                    &&& step.action == (PipelineAction::Fail {
                        error: AudioError::ClassifierFailure,
                    })
                    &&& step.progress@.len() == 0
                    &&& final(self).stage() == Stage::Idle
                },
            },
    {
        let stage = self.current_stage();
        let mut progress: Vec<Milestone> = Vec::new();
        match event {
            PipelineEvent::Decoded { samples, sample_rate } => {
                if stage != Stage::Decoding {
                    self.enter(Stage::Idle);
                    return PipelineStep {
                        action: PipelineAction::Fail { error: AudioError::OutOfTurn },
                        progress,
                    };
                }
                progress.push(Milestone::AudioDecoded);
                if samples.len() == 0 {
                    self.enter(Stage::Idle);
                    assert(progress@ =~= seq![Milestone::AudioDecoded]);
                    return PipelineStep {
                        action: PipelineAction::Fail { error: AudioError::DecodeFailure },
                        progress,
                    };
                }
                let content = if sample_rate != TARGET_SAMPLE_RATE {
                    progress.push(Milestone::ResampleStarted);
                    match self.resample_audio(samples.as_slice(), sample_rate, TARGET_SAMPLE_RATE) {
                        Ok(converted) => {
                            progress.push(Milestone::AudioResampled);
                            converted
                        },
                        Err(_) => {
                            self.enter(Stage::Idle);
                            assert(progress@ =~= seq![
                                Milestone::AudioDecoded,
                                Milestone::ResampleStarted,
                            ]);
                            return PipelineStep {
                                action: PipelineAction::Fail { error: AudioError::ResampleFailure },
                                progress,
                            };
                        },
                    }
                } else {
                    samples
                };
                progress.push(Milestone::DetectionStarted);
                progress.push(Milestone::DetectionRunning);
                self.enter(Stage::Detecting);
                assert(progress@ =~= milestones_to_detection(sample_rate));
                PipelineStep { action: PipelineAction::Detect { content }, progress }
            },
            PipelineEvent::DecodeFailed => {
                self.enter(Stage::Idle);
                if stage != Stage::Decoding {
                    return PipelineStep {
                        action: PipelineAction::Fail { error: AudioError::OutOfTurn },
                        progress,
                    };
                }
                PipelineStep {
                    action: PipelineAction::Fail { error: AudioError::DecodeFailure },
                    progress,
                }
            },
            PipelineEvent::Labeled { content, labels } => {
                self.enter(Stage::Idle);
                if stage != Stage::Detecting {
                    return PipelineStep {
                        action: PipelineAction::Fail { error: AudioError::OutOfTurn },
                        progress,
                    };
                }
                progress.push(Milestone::DetectionDone);
                progress.push(Milestone::ExtractionStarted);
                let raw = self.assemble_segments(labels.as_slice(), content.as_slice(), CHUNK_SIZE);
                let assembled = raw.len();
                assert(views(raw@).len() == raw@.len());
                progress.push(Milestone::MergeStarted);
                let segments = self.merge_close_segments(raw, content.as_slice(), DEFAULT_MAX_GAP_MS);
                progress.push(Milestone::SegmentationDone);
                assert(progress@ =~= milestones_to_segments());
                PipelineStep { action: PipelineAction::Done { segments, assembled }, progress }
            },
            PipelineEvent::DetectorFailed => {
                self.enter(Stage::Idle);
                if stage != Stage::Detecting {
                    return PipelineStep {
                        action: PipelineAction::Fail { error: AudioError::OutOfTurn },
                        progress,
                    };
                }
                PipelineStep {
                    action: PipelineAction::Fail { error: AudioError::ClassifierFailure },
                    progress,
                }
            },
        }
    }
}

/// The milestones of every step come in rising order of their percentage.
pub proof fn lemma_milestones_rise(sample_rate: u32)
    ensures
        forall|i: int, j: int|
            0 <= i < j < milestones_to_detection(sample_rate).len() ==> milestones_to_detection(
                sample_rate,
            )[i].percent_of() < milestones_to_detection(sample_rate)[j].percent_of(),
        forall|i: int, j: int|
            0 <= i < j < milestones_to_segments().len() ==> milestones_to_segments()[i].percent_of()
                < milestones_to_segments()[j].percent_of(),
{
}

/// What holds of the segments of every file: they were in order before merging,
/// so that merging reads them as they were assembled; each starts at or after
/// sample 0 and ends after it starts; each holds the samples of the buffer
/// between its bounds, with their container; and each ends before the next
/// one starts.
pub proof fn lemma_segmented(labels: Seq<ChunkLabel>, content: Seq<i16>, rate: u32)
    ensures
        segmented(labels, content, rate) == merged(
            assembled(labels, content, CHUNK_SIZE as int, rate),
            content,
            rate,
            DEFAULT_MAX_GAP_MS,
        ),
        all_wf(segmented(labels, content, rate)),
        forall|i: int|
            0 <= i < segmented(labels, content, rate).len() ==> is_cut_of(
                #[trigger] segmented(labels, content, rate)[i],
                content,
                rate,
            ),
        forall|i: int|
            0 <= i && i + 1 < segmented(labels, content, rate).len() ==> (#[trigger] segmented(
                labels,
                content,
                rate,
            )[i]).end < segmented(labels, content, rate)[i + 1].start,
{
    let chunk = CHUNK_SIZE as int;
    let len = content.len() as int;
    let spans = speech_spans(labels, chunk, len);
    let raw = assembled(labels, content, chunk, rate);
    lemma_spans_ordered(labels, chunk, len);
    lemma_spans_in_order(labels, chunk, len);
    assert(raw == segments_at(spans, content, rate));
    assert forall|i: int, j: int| 0 <= i <= j < raw.len() implies raw[i].start <= raw[j].start by {
        assert(raw[i].start == spans[i].0 && raw[j].start == spans[j].0);
        if i < j {
            assert(spans[i].0 < spans[i].1 <= spans[j].0);
        }
    }
    assert(ordered_by_start(raw));
    assert forall|i: int| 0 <= i < raw.len() implies (#[trigger] raw[i]).wf() by {
        assert(raw[i].start == spans[i].0 && raw[i].end == spans[i].1);
    }
    lemma_sorted_by_start(raw);
    lemma_merged_wf(raw, content, rate, DEFAULT_MAX_GAP_MS);
    lemma_merged_are_cuts(raw, content, rate, DEFAULT_MAX_GAP_MS);
    lemma_merge_non_overlap(raw, content, rate, DEFAULT_MAX_GAP_MS);
}

} // verus!
