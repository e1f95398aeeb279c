//! From chunk labels to speech segments.
//!
//! The labels are read left to right. A run of speech opens at the first chunk
//! labelled speech and closes at the next chunk that is not; a run still open
//! when the labels end closes at the end of the buffer.

use vstd::prelude::*;
use crate::processor::AudioProcessor;
use crate::segment::{cut, views, AudioSegment, ChunkLabel, SegmentView};

verus! {

/// The bounds of a segment, in samples.
#[derive(Debug, Clone, Copy, PartialEq, Eq, Structural)]
pub struct SampleSpan {
    pub start: i64,
    pub end: i64,
}

/// Bounds as a pair of plain numbers.
pub type Span = (int, int);

/// The spans of a list, each as a pair of plain numbers.
pub open spec fn span_views(spans: Seq<SampleSpan>) -> Seq<Span> {
    spans.map_values(|s: SampleSpan| (s.start as int, s.end as int))
}

/// The first sample of the run of speech that is open once `labels` are read,
/// if one is.
pub open spec fn open_run(labels: Seq<ChunkLabel>, chunk_size: int) -> Option<int>
    decreases labels.len(),
{
    if labels.len() == 0 {
        None
    } else if labels.last() is NonSpeech {
        None
    } else if open_run(labels.drop_last(), chunk_size) is Some {
        open_run(labels.drop_last(), chunk_size)
    } else {
        Some((labels.len() - 1) * chunk_size)
    }
}

/// Whether the buffer holds at least one sample between `start` and `end`.
pub open spec fn holds_samples(start: int, end: int, buffer_len: int) -> bool {
    start < end && start < buffer_len
}

/// The spans closed while `labels` are read: one for each run of speech that a
/// later chunk ends, where the buffer holds samples of it.
pub open spec fn closed_spans(labels: Seq<ChunkLabel>, chunk_size: int, buffer_len: int) -> Seq<
    Span,
>
    decreases labels.len(),
{
    if labels.len() == 0 {
        Seq::empty()
    } else {
        let before = closed_spans(labels.drop_last(), chunk_size, buffer_len);
        let opened = open_run(labels.drop_last(), chunk_size);
        let here = (labels.len() - 1) * chunk_size;
        if labels.last() is NonSpeech && opened is Some && holds_samples(
            opened->Some_0,
            here,
            buffer_len,
        ) {
            before.push((opened->Some_0, here))
        } else {
            before
        }
    }
}

/// All spans of speech: those closed while the labels are read, then the run
/// still open at their end, which reaches to the end of the buffer.
pub open spec fn speech_spans(labels: Seq<ChunkLabel>, chunk_size: int, buffer_len: int) -> Seq<
    Span,
> {
    let closed = closed_spans(labels, chunk_size, buffer_len);
    let opened = open_run(labels, chunk_size);
    if opened is Some && holds_samples(opened->Some_0, buffer_len, buffer_len) {
        closed.push((opened->Some_0, buffer_len))
    } else {
        closed
    }
}

/// The segments cut from `content` at `spans`, in order.
pub open spec fn segments_at(spans: Seq<Span>, content: Seq<i16>, rate: u32) -> Seq<SegmentView> {
    spans.map_values(|s: Span| cut(content, s.0, s.1, rate))
}

/// The segments of speech in `content`, as the labels of its chunks give them.
pub open spec fn assembled(
    labels: Seq<ChunkLabel>,
    content: Seq<i16>,
    chunk_size: int,
    rate: u32,
) -> Seq<SegmentView> {
    segments_at(speech_spans(labels, chunk_size, content.len() as int), content, rate)
}

/// Finds the spans of speech in a buffer of `buffer_len` samples whose chunks
/// of `chunk_size` samples carry `labels`, first chunk first.
pub fn find_speech_spans(labels: &[ChunkLabel], buffer_len: usize, chunk_size: usize) -> (spans:
    Vec<SampleSpan>)
    requires
        labels@.len() * chunk_size <= i64::MAX,
        buffer_len <= i64::MAX,
    ensures
        span_views(spans@) == speech_spans(labels@, chunk_size as int, buffer_len as int),
{
    let n = labels.len();
    let mut spans: Vec<SampleSpan> = Vec::new();
    let step: u64 = chunk_size as u64;
    let mut opened: Option<u64> = None;
    let mut here: u64 = 0;
    let mut k: usize = 0;
    assert(labels@.take(0) =~= Seq::<ChunkLabel>::empty());
    while k < n
        invariant
            k <= n,
            n == labels@.len(),
            n * chunk_size <= i64::MAX,
            buffer_len <= i64::MAX,
            step == chunk_size,
            here == k * chunk_size,
            match opened {
                Some(start) => open_run(labels@.take(k as int), chunk_size as int) == Some(
                    start as int,
                ) && start <= here,
                None => open_run(labels@.take(k as int), chunk_size as int) is None,
            },
            span_views(spans@) == closed_spans(
                labels@.take(k as int),
                chunk_size as int,
                buffer_len as int,
            ),
        decreases n - k,
    {
        let ghost read = labels@.take(k as int + 1);
        assert(read.drop_last() =~= labels@.take(k as int));
        assert(read.last() == labels@[k as int]);
        assert((k + 1) * chunk_size == k * chunk_size + chunk_size && (k + 1) * chunk_size <= n
            * chunk_size) by (nonlinear_arith)
            requires
                k < n,
        ;
        match labels[k] {
            ChunkLabel::Speech => {
                if opened.is_none() {
                    opened = Some(here);
                }
            },
            ChunkLabel::NonSpeech => {
                if let Some(start) = opened {
                    if start < here && start < buffer_len as u64 {
                        let ghost before = spans@;
                        spans.push(SampleSpan { start: start as i64, end: here as i64 });
                        assert(span_views(spans@) =~= span_views(before).push(
                            (start as int, here as int),
                        ));
                    }
                }
                opened = None;
            },
        }
        here = here + step;
        k += 1;
    }
    assert(labels@.take(n as int) =~= labels@);
    if let Some(start) = opened {
        if start < buffer_len as u64 {
            let ghost before = spans@;
            spans.push(SampleSpan { start: start as i64, end: buffer_len as i64 });
            assert(span_views(spans@) =~= span_views(before).push(
                (start as int, buffer_len as int),
            ));
        }
    }
    spans
}

impl AudioProcessor {
    /// Cuts the segments of speech out of `content`, whose chunks of
    /// `chunk_size` samples carry `labels`, first chunk first.
    ///
    /// The segments come in the order of their place in the buffer.
    pub fn assemble_segments(
        &self,
        labels: &[ChunkLabel],
        content: &[i16],
        chunk_size: usize,
    ) -> (segments: Vec<AudioSegment>)
        requires
            labels@.len() * chunk_size <= i64::MAX,
            content@.len() <= i64::MAX,
        ensures
            views(segments@) == assembled(labels@, content@, chunk_size as int, self.rate()),
            forall|i: int| 0 <= i < segments@.len() ==> (#[trigger] views(segments@)[i]).wf(),
    {
        let spans = find_speech_spans(labels, content.len(), chunk_size);
        assert forall|j: int| 0 <= j < spans@.len() implies 0 <= (#[trigger] spans@[j]).start
            < spans@[j].end by {
            lemma_spans_ordered(labels@, chunk_size as int, content@.len() as int);
            assert(span_views(spans@)[j] == (spans@[j].start as int, spans@[j].end as int));
        }
        let mut segments: Vec<AudioSegment> = Vec::new();
        let mut i: usize = 0;
        while i < spans.len()
            invariant
                i <= spans.len(),
                forall|j: int|
                    0 <= j < spans@.len() ==> 0 <= (#[trigger] spans@[j]).start < spans@[j].end,
                views(segments@) == segments_at(
                    span_views(spans@).take(i as int),
                    content@,
                    self.rate(),
                ),
                forall|j: int| 0 <= j < segments@.len() ==> (#[trigger] views(segments@)[j]).wf(),
            decreases spans.len() - i,
        {
            let span = spans[i];
            let ghost before = segments@;
            segments.push(self.cut_segment(content, span.start, span.end));
            assert(span_views(spans@).take(i as int + 1) =~= span_views(spans@).take(i as int).push(
                (span.start as int, span.end as int),
            ));
            assert(views(segments@) =~= views(before).push(
                cut(content@, span.start as int, span.end as int, self.rate()),
            ));
            i += 1;
        }
        assert(span_views(spans@).take(spans@.len() as int) =~= span_views(spans@));
        segments
    }
}

/// A run that is open starts at a chunk that was read.
pub proof fn lemma_open_run_bounds(labels: Seq<ChunkLabel>, chunk_size: int)
    requires
        chunk_size >= 0,
    ensures
        open_run(labels, chunk_size) is Some ==> labels.len() > 0 && 0 <= open_run(
            labels,
            chunk_size,
        )->Some_0 <= (labels.len() - 1) * chunk_size,
    decreases labels.len(),
{
    if labels.len() > 0 {
        lemma_open_run_bounds(labels.drop_last(), chunk_size);
        assert(0 <= (labels.len() - 2) * chunk_size <= (labels.len() - 1) * chunk_size
            || labels.len() == 1) by (nonlinear_arith)
            requires
                chunk_size >= 0,
                labels.len() >= 1,
        ;
        assert(0 <= (labels.len() - 1) * chunk_size) by (nonlinear_arith)
            requires
                chunk_size >= 0,
                labels.len() >= 1,
        ;
    }
}

/// Every span starts at or after sample 0 and ends after it starts.
pub proof fn lemma_spans_ordered(labels: Seq<ChunkLabel>, chunk_size: int, buffer_len: int)
    requires
        chunk_size >= 0,
    ensures
        forall|i: int|
            0 <= i < speech_spans(labels, chunk_size, buffer_len).len() ==> 0 <= (
            #[trigger] speech_spans(labels, chunk_size, buffer_len)[i]).0 < speech_spans(
                labels,
                chunk_size,
                buffer_len,
            )[i].1,
{
    lemma_closed_spans_ordered(labels, chunk_size, buffer_len);
    lemma_open_run_bounds(labels, chunk_size);
    let closed = closed_spans(labels, chunk_size, buffer_len);
    let all = speech_spans(labels, chunk_size, buffer_len);
    assert forall|i: int| 0 <= i < all.len() implies 0 <= (#[trigger] all[i]).0 < all[i].1 by {
        if i < closed.len() {
            assert(all[i] == closed[i]);
        }
    }
}

proof fn lemma_closed_spans_ordered(labels: Seq<ChunkLabel>, chunk_size: int, buffer_len: int)
    requires
        chunk_size >= 0,
    ensures
        forall|i: int|
            0 <= i < closed_spans(labels, chunk_size, buffer_len).len() ==> 0 <= (
            #[trigger] closed_spans(labels, chunk_size, buffer_len)[i]).0 < closed_spans(
                labels,
                chunk_size,
                buffer_len,
            )[i].1,
    decreases labels.len(),
{
    if labels.len() > 0 {
        lemma_closed_spans_ordered(labels.drop_last(), chunk_size, buffer_len);
        lemma_open_run_bounds(labels.drop_last(), chunk_size);
        let before = closed_spans(labels.drop_last(), chunk_size, buffer_len);
        let closed = closed_spans(labels, chunk_size, buffer_len);
        assert forall|i: int| 0 <= i < closed.len() implies 0 <= (#[trigger] closed[i]).0
            < closed[i].1 by {
            if i < before.len() {
                assert(closed[i] == before[i]);
            }
        }
    }
}

/// Whether the chunks from `first` up to, not including, `end` are a run of
/// speech that cannot be made longer: all of them are labelled speech, and the
/// chunk on either side, where there is one, is not.
pub open spec fn is_speech_run(labels: Seq<ChunkLabel>, first: int, end: int) -> bool {
    &&& 0 <= first < end <= labels.len()
    &&& forall|k: int| first <= k < end ==> labels[k] is Speech
    &&& (first == 0 || labels[first - 1] is NonSpeech)
    &&& (end == labels.len() || labels[end] is NonSpeech)
}

/// Whether `span` lies within the samples of the chunks from `first` to `end`.
pub open spec fn span_in_chunks(span: Span, first: int, end: int, chunk_size: int) -> bool {
    first * chunk_size <= span.0 && span.1 <= end * chunk_size
}

/// Whether `span` starts with a run of speech and lies within it.
pub open spec fn lies_in_run(span: Span, labels: Seq<ChunkLabel>, chunk_size: int) -> bool {
    exists|first: int, end: int|
        is_speech_run(labels, first, end) && span.0 == first * chunk_size && #[trigger] span_in_chunks(
            span,
            first,
            end,
            chunk_size,
        )
}

/// Whether a run of speech that starts at chunk `first` reaches to the end of `labels`.
spec fn opens_at(labels: Seq<ChunkLabel>, first: int) -> bool {
    &&& 0 <= first < labels.len()
    &&& forall|k: int| first <= k < labels.len() ==> labels[k] is Speech
    &&& (first == 0 || labels[first - 1] is NonSpeech)
}

proof fn lemma_open_run_chunk(labels: Seq<ChunkLabel>, chunk_size: int) -> (first: int)
    ensures
        open_run(labels, chunk_size) is Some ==> opens_at(labels, first) && open_run(
            labels,
            chunk_size,
        ) == Some(first * chunk_size),
        open_run(labels, chunk_size) is None ==> labels.len() == 0 || labels.last() is NonSpeech,
    decreases labels.len(),
{
    if labels.len() == 0 || labels.last() is NonSpeech {
        0
    } else {
        let head = labels.drop_last();
        let inner = lemma_open_run_chunk(head, chunk_size);
        if open_run(head, chunk_size) is Some {
            assert forall|k: int| inner <= k < labels.len() implies labels[k] is Speech by {
                if k < head.len() {
                    assert(head[k] == labels[k]);
                }
            }
            if inner > 0 {
                assert(head[inner - 1] == labels[inner - 1]);
            }
            inner
        } else {
            if head.len() > 0 {
                assert(head.last() == labels[labels.len() - 2]);
            }
            labels.len() - 1
        }
    }
}

/// Whether `span` is the whole of a run of speech that a later chunk ends.
spec fn closes_run(span: Span, labels: Seq<ChunkLabel>, chunk_size: int) -> bool {
    exists|first: int, end: int|
        is_speech_run(labels, first, end) && end < labels.len() && span.0 == first * chunk_size
            && span.1 == end * chunk_size && #[trigger] span_in_chunks(
            span,
            first,
            end,
            chunk_size,
        )
}

proof fn lemma_closed_spans_in_runs(labels: Seq<ChunkLabel>, chunk_size: int, buffer_len: int)
    ensures
        forall|i: int|
            0 <= i < closed_spans(labels, chunk_size, buffer_len).len() ==> closes_run(
                #[trigger] closed_spans(labels, chunk_size, buffer_len)[i],
                labels,
                chunk_size,
            ),
    decreases labels.len(),
{
    if labels.len() > 0 {
        let head = labels.drop_last();
        lemma_closed_spans_in_runs(head, chunk_size, buffer_len);
        let before = closed_spans(head, chunk_size, buffer_len);
        let closed = closed_spans(labels, chunk_size, buffer_len);
        let opened = lemma_open_run_chunk(head, chunk_size);
        assert forall|i: int| 0 <= i < closed.len() implies closes_run(
            #[trigger] closed[i],
            labels,
            chunk_size,
        ) by {
            if i < before.len() {
                assert(closed[i] == before[i]);
                assert(closes_run(before[i], head, chunk_size));
                let (first, end) = choose|first: int, end: int|
                    is_speech_run(head, first, end) && end < head.len() && before[i].0 == first
                        * chunk_size && before[i].1 == end * chunk_size
                        && #[trigger] span_in_chunks(before[i], first, end, chunk_size);
                assert forall|k: int| first <= k < end implies labels[k] is Speech by {
                    assert(head[k] == labels[k]);
                }
                if first > 0 {
                    assert(head[first - 1] == labels[first - 1]);
                }
                assert(head[end] == labels[end]);
                assert(is_speech_run(labels, first, end));
                assert(span_in_chunks(closed[i], first, end, chunk_size));
            } else {
                let end = labels.len() - 1;
                assert forall|k: int| opened <= k < end implies labels[k] is Speech by {
                    assert(head[k] == labels[k]);
                }
                if opened > 0 {
                    assert(head[opened - 1] == labels[opened - 1]);
                }
                assert(is_speech_run(labels, opened, end));
                assert(span_in_chunks(closed[i], opened, end, chunk_size));
            }
        }
    }
}

/// Every span of speech starts with a run of speech that cannot be made longer
/// and lies within it, where the labels reach to the end of the buffer.
pub proof fn lemma_spans_within_runs(labels: Seq<ChunkLabel>, chunk_size: int, buffer_len: int)
    requires
        buffer_len <= labels.len() * chunk_size,
    ensures
        forall|i: int|
            0 <= i < speech_spans(labels, chunk_size, buffer_len).len() ==> lies_in_run(
                #[trigger] speech_spans(labels, chunk_size, buffer_len)[i],
                labels,
                chunk_size,
            ),
{
    lemma_closed_spans_in_runs(labels, chunk_size, buffer_len);
    let closed = closed_spans(labels, chunk_size, buffer_len);
    let all = speech_spans(labels, chunk_size, buffer_len);
    let opened = lemma_open_run_chunk(labels, chunk_size);
    assert forall|i: int| 0 <= i < all.len() implies lies_in_run(
        #[trigger] all[i],
        labels,
        chunk_size,
    ) by {
        if i < closed.len() {
            assert(all[i] == closed[i]);
            assert(closes_run(closed[i], labels, chunk_size));
            let (first, end) = choose|first: int, end: int|
                is_speech_run(labels, first, end) && end < labels.len() && closed[i].0 == first
                    * chunk_size && closed[i].1 == end * chunk_size && #[trigger] span_in_chunks(
                    closed[i],
                    first,
                    end,
                    chunk_size,
                );
            assert(span_in_chunks(all[i], first, end, chunk_size));
        } else {
            assert(is_speech_run(labels, opened, labels.len() as int));
            assert(span_in_chunks(all[i], opened, labels.len() as int, chunk_size));
        }
    }
}

/// A span that holds a sample lies within at most one run of speech.
pub proof fn lemma_run_is_unique(
    labels: Seq<ChunkLabel>,
    chunk_size: int,
    span: Span,
    first: int,
    end: int,
    other_first: int,
    other_end: int,
)
    requires
        chunk_size > 0,
        span.0 < span.1,
        is_speech_run(labels, first, end),
        is_speech_run(labels, other_first, other_end),
        span_in_chunks(span, first, end, chunk_size),
        span_in_chunks(span, other_first, other_end, chunk_size),
    ensures
        first == other_first,
        end == other_end,
{
    if first < other_first {
        assert(labels[other_first - 1] is NonSpeech);
        assert(end <= other_first - 1);
        assert(end * chunk_size < other_first * chunk_size) by (nonlinear_arith)
            requires
                end <= other_first - 1,
                chunk_size > 0,
        ;
    } else if other_first < first {
        assert(labels[first - 1] is NonSpeech);
        assert(other_end <= first - 1);
        assert(other_end * chunk_size < first * chunk_size) by (nonlinear_arith)
            requires
                other_end <= first - 1,
                chunk_size > 0,
        ;
    } else if end < other_end {
        assert(labels[end] is NonSpeech);
    } else if other_end < end {
        assert(labels[other_end] is NonSpeech);
    }
}

proof fn lemma_closed_spans_end_early(labels: Seq<ChunkLabel>, chunk_size: int, buffer_len: int)
    requires
        chunk_size >= 0,
    ensures
        forall|i: int|
            0 <= i < closed_spans(labels, chunk_size, buffer_len).len() ==> (
            #[trigger] closed_spans(labels, chunk_size, buffer_len)[i]).1 <= (labels.len() - 1)
                * chunk_size,
        open_run(labels, chunk_size) is Some ==> forall|i: int|
            0 <= i < closed_spans(labels, chunk_size, buffer_len).len() ==> (
            #[trigger] closed_spans(labels, chunk_size, buffer_len)[i]).1 <= open_run(
                labels,
                chunk_size,
            )->Some_0,
        forall|i: int, j: int|
            0 <= i < j < closed_spans(labels, chunk_size, buffer_len).len() ==> (
            #[trigger] closed_spans(labels, chunk_size, buffer_len)[i]).1 <= (
            #[trigger] closed_spans(labels, chunk_size, buffer_len)[j]).0,
    decreases labels.len(),
{
    if labels.len() > 0 {
        let head = labels.drop_last();
        lemma_closed_spans_end_early(head, chunk_size, buffer_len);
        lemma_open_run_bounds(head, chunk_size);
        let before = closed_spans(head, chunk_size, buffer_len);
        let closed = closed_spans(labels, chunk_size, buffer_len);
        let here = (labels.len() - 1) * chunk_size;
        assert((labels.len() - 2) * chunk_size <= here) by (nonlinear_arith)
            requires
                chunk_size >= 0,
                here == (labels.len() - 1) * chunk_size,
        ;
        assert forall|i: int| 0 <= i < closed.len() implies (#[trigger] closed[i]).1 <= here by {
            if i < before.len() {
                assert(closed[i] == before[i]);
            }
        }
        if open_run(labels, chunk_size) is Some {
            assert(closed == before);
        }
        assert forall|i: int, j: int| 0 <= i < j < closed.len() implies (#[trigger] closed[i]).1 <= (
        #[trigger] closed[j]).0 by {
            assert(closed[i] == before[i]);
            if j < before.len() {
                assert(closed[j] == before[j]);
            }
        }
    }
}

/// The spans come in the order of their place in the buffer, and none reaches
/// into the next.
pub proof fn lemma_spans_in_order(labels: Seq<ChunkLabel>, chunk_size: int, buffer_len: int)
    requires
        chunk_size >= 0,
    ensures
        forall|i: int, j: int|
            0 <= i < j < speech_spans(labels, chunk_size, buffer_len).len() ==> (
            #[trigger] speech_spans(labels, chunk_size, buffer_len)[i]).1 <= (
            #[trigger] speech_spans(labels, chunk_size, buffer_len)[j]).0,
{
    lemma_closed_spans_end_early(labels, chunk_size, buffer_len);
    let closed = closed_spans(labels, chunk_size, buffer_len);
    let all = speech_spans(labels, chunk_size, buffer_len);
    assert forall|i: int, j: int| 0 <= i < j < all.len() implies (#[trigger] all[i]).1 <= (
    #[trigger] all[j]).0 by {
        assert(all[i] == closed[i]);
        if j < closed.len() {
            assert(all[j] == closed[j]);
        }
    }
}

} // verus!
