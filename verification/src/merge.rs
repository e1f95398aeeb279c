//! Merging of segments that lie close together.
//!
//! Segments are put in order of their start and read left to right. One that
//! starts within the allowed pause after the end of the segment before it is
//! joined to it: the joined segment runs from the start of the first to the end
//! of the second, and its samples are cut anew from the buffer, pause included.

use vstd::prelude::*;
use crate::processor::AudioProcessor;
use crate::segment::{cut, views, AudioSegment, SegmentView};

verus! {

/// Whether a segment that starts at sample `next_start` follows one that ends
/// at sample `current_end` closely enough to be joined to it: the pause
/// between them, `(next_start - current_end) / rate` seconds, is at most
/// `max_gap_ms / 1000` seconds. A pause of exactly that length still joins.
pub open spec fn within_gap(current_end: int, next_start: int, rate: u32, max_gap_ms: u64) -> bool {
    (next_start - current_end) * 1000 <= max_gap_ms * rate
}

/// `s` with `x` put in behind the last segment that does not start after it.
pub open spec fn insert_by_start(s: Seq<SegmentView>, x: SegmentView) -> Seq<SegmentView>
    decreases s.len(),
{
    if s.len() == 0 {
        seq![x]
    } else if s.last().start <= x.start {
        s.push(x)
    } else {
        insert_by_start(s.drop_last(), x).push(s.last())
    }
}

/// `s` in order of start; segments with the same start keep their order.
pub open spec fn sorted_by_start(s: Seq<SegmentView>) -> Seq<SegmentView>
    decreases s.len(),
{
    if s.len() == 0 {
        s
    } else {
        insert_by_start(sorted_by_start(s.drop_last()), s.last())
    }
}

/// Whether the segments of `s` come in order of their start.
pub open spec fn ordered_by_start(s: Seq<SegmentView>) -> bool {
    forall|i: int, j: int| 0 <= i <= j < s.len() ==> s[i].start <= s[j].start
}

/// The result of reading `s` left to right and joining each segment to the one
/// before it where it follows closely enough. The last segment of the result
/// is the one that a further segment would be held against.
pub open spec fn merged(s: Seq<SegmentView>, content: Seq<i16>, rate: u32, max_gap_ms: u64) -> Seq<
    SegmentView,
>
    decreases s.len(),
{
    if s.len() <= 1 {
        s
    } else {
        let before = merged(s.drop_last(), content, rate, max_gap_ms);
        let current = before.last();
        let next = s.last();
        if within_gap(current.end, next.start, rate, max_gap_ms) {
            before.drop_last().push(cut(content, current.start, next.end, rate))
        } else {
            before.push(next)
        }
    }
}

/// Whether every segment of `s` starts at or after sample 0 and ends after it starts.
pub open spec fn all_wf(s: Seq<SegmentView>) -> bool {
    forall|i: int| 0 <= i < s.len() ==> (#[trigger] s[i]).wf()
}

proof fn lemma_insert_position(s: Seq<SegmentView>, x: SegmentView, j: int)
    requires
        0 <= j <= s.len(),
        forall|i: int| j <= i < s.len() ==> (#[trigger] s[i]).start > x.start,
        j == 0 || s[j - 1].start <= x.start,
    ensures
        insert_by_start(s, x) == s.insert(j, x),
    decreases s.len() - j,
{
    if j == s.len() {
        assert(s.insert(j, x) =~= s.push(x));
        if s.len() == 0 {
            assert(s.push(x) =~= seq![x]);
        }
    } else {
        assert(s.last().start > x.start);
        lemma_insert_position(s.drop_last(), x, j);
        assert(s.drop_last().insert(j, x).push(s.last()) =~= s.insert(j, x));
    }
}

/// Putting segments in order gives them in order of their start, keeps every
/// one of them and loses or adds none, and changes nothing where they come in
/// order already.
pub proof fn lemma_sorted_by_start(s: Seq<SegmentView>)
    ensures
        ordered_by_start(sorted_by_start(s)),
        sorted_by_start(s).to_multiset() == s.to_multiset(),
        sorted_by_start(s).len() == s.len(),
        all_wf(s) ==> all_wf(sorted_by_start(s)),
        ordered_by_start(s) ==> sorted_by_start(s) == s,
    decreases s.len(),
{
    broadcast use vstd::seq_lib::group_to_multiset_ensures;

    if s.len() == 0 {
    } else {
        let head = s.drop_last();
        let x = s.last();
        lemma_sorted_by_start(head);
        lemma_insert_by_start(sorted_by_start(head), x);
        assert(s =~= head.push(x));
        if ordered_by_start(s) {
            assert(ordered_by_start(head));
            assert(sorted_by_start(head) == head);
            if head.len() > 0 {
                assert(head.last().start <= x.start);
            }
            assert(insert_by_start(head, x) =~= head.push(x));
        }
    }
}

proof fn lemma_insert_by_start(s: Seq<SegmentView>, x: SegmentView)
    requires
        ordered_by_start(s),
    ensures
        ordered_by_start(insert_by_start(s, x)),
        insert_by_start(s, x).to_multiset() == s.to_multiset().insert(x),
        insert_by_start(s, x).len() == s.len() + 1,
        all_wf(s) && x.wf() ==> all_wf(insert_by_start(s, x)),
        forall|i: int|
            0 <= i < insert_by_start(s, x).len() ==> (#[trigger] insert_by_start(s, x)[i]) == x
                || s.contains(insert_by_start(s, x)[i]),
    decreases s.len(),
{
    broadcast use vstd::seq_lib::group_to_multiset_ensures;

    let r = insert_by_start(s, x);
    if s.len() == 0 {
        assert(seq![x] =~= Seq::<SegmentView>::empty().push(x));
        assert(s =~= Seq::<SegmentView>::empty());
    } else if s.last().start <= x.start {
        assert forall|i: int| 0 <= i < r.len() implies (#[trigger] r[i]) == x || s.contains(
            r[i],
        ) by {
            if i < s.len() {
                assert(r[i] == s[i]);
            }
        }
    } else {
        let head = s.drop_last();
        lemma_insert_by_start(head, x);
        let inner = insert_by_start(head, x);
        assert(s =~= head.push(s.last()));
        assert forall|i: int| 0 <= i < r.len() implies (#[trigger] r[i]) == x || s.contains(
            r[i],
        ) by {
            if i < inner.len() {
                assert(r[i] == inner[i]);
                if inner[i] != x {
                    assert(head.contains(inner[i]));
                    let k = choose|k: int| 0 <= k < head.len() && head[k] == inner[i];
                    assert(s[k] == inner[i]);
                }
            } else {
                assert(r[i] == s[s.len() - 1]);
            }
        }
        assert forall|i: int, j: int| 0 <= i <= j < r.len() implies r[i].start <= r[j].start by {
            if j < inner.len() {
                assert(r[i] == inner[i] && r[j] == inner[j]);
            } else if i < inner.len() {
                assert(r[i] == inner[i]);
                if inner[i] != x {
                    assert(head.contains(inner[i]));
                    let k = choose|k: int| 0 <= k < head.len() && head[k] == inner[i];
                    assert(s[k].start <= s[s.len() - 1].start);
                }
            }
        }
    }
    if all_wf(s) && x.wf() {
        assert forall|i: int| 0 <= i < r.len() implies (#[trigger] r[i]).wf() by {
            if r[i] != x {
                assert(s.contains(r[i]));
                let k = choose|k: int| 0 <= k < s.len() && s[k] == r[i];
                assert(s[k].wf());
            }
        }
    }
}

/// The segments of `s` that start at sample `start`, in their order.
pub open spec fn starting_at(s: Seq<SegmentView>, start: int) -> Seq<SegmentView> {
    s.filter(|x: SegmentView| x.start == start)
}

proof fn lemma_insert_keeps_order_of_equals(s: Seq<SegmentView>, x: SegmentView, start: int)
    ensures
        starting_at(insert_by_start(s, x), start) == if x.start == start {
            starting_at(s, start).push(x)
        } else {
            starting_at(s, start)
        },
    decreases s.len(),
{
    reveal(Seq::filter);
    if s.len() == 0 {
        assert(seq![x].drop_last() =~= s);
    } else if s.last().start <= x.start {
        assert(s.push(x).drop_last() =~= s);
    } else {
        let inner = insert_by_start(s.drop_last(), x);
        lemma_insert_keeps_order_of_equals(s.drop_last(), x, start);
        assert(inner.push(s.last()).drop_last() =~= inner);
    }
}

/// Putting segments in order is stable: those that start at the same sample
/// come out in the order they went in.
pub proof fn lemma_sort_is_stable(s: Seq<SegmentView>, start: int)
    ensures
        starting_at(sorted_by_start(s), start) == starting_at(s, start),
    decreases s.len(),
{
    reveal(Seq::filter);
    if s.len() > 0 {
        lemma_sort_is_stable(s.drop_last(), start);
        lemma_insert_keeps_order_of_equals(sorted_by_start(s.drop_last()), s.last(), start);
    }
}

fn sort_by_start(segments: Vec<AudioSegment>) -> (sorted: Vec<AudioSegment>)
    ensures
        views(sorted@) == sorted_by_start(views(segments@)),
{
    let ghost input = segments@;
    let mut sorted: Vec<AudioSegment> = Vec::new();
    assert(views(input.take(0)) =~= Seq::<SegmentView>::empty());
    for segment in it: segments.into_iter()
        invariant
            it.seq() == input,
            views(sorted@) == sorted_by_start(views(input.take(it.index() as int))),
    {
        let ghost k = it.index() as int;
        let ghost before = views(sorted@);
        let mut j: usize = sorted.len();
        while j > 0 && sorted[j - 1].start_sample > segment.start_sample
            invariant
                j <= sorted@.len(),
                forall|i: int| j <= i < sorted@.len() ==> (#[trigger] sorted@[i]).start_sample
                    > segment.start_sample,
            decreases j,
        {
            j -= 1;
        }
        proof {
            assert forall|i: int| j <= i < before.len() implies (#[trigger] before[i]).start
                > segment@.start by {
                assert(before[i] == sorted@[i]@);
            }
            if j > 0 {
                assert(before[j - 1] == sorted@[j - 1]@);
            }
            lemma_insert_position(before, segment@, j as int);
            assert(views(input.take(k + 1)).drop_last() =~= views(input.take(k)));
            assert(views(input.take(k + 1)).last() == segment@);
        }
        sorted.insert(j, segment);
        assert(views(sorted@) =~= before.insert(j as int, segment@));
    }
    assert(input.take(input.len() as int) =~= input);
    sorted
}

impl AudioProcessor {
    /// Joins the segments that lie within `max_gap_ms` milliseconds of the one
    /// before them.
    ///
    /// The segments are first put in order of their start, those with equal
    /// starts in the order given. No two segments of the result lie within the
    /// gap of each other any more; a segment that was not joined to another
    /// comes out as it went in.
    pub fn merge_close_segments(
        &self,
        segments: Vec<AudioSegment>,
        content: &[i16],
        max_gap_ms: u64,
    ) -> (result: Vec<AudioSegment>)
        requires
            all_wf(views(segments@)),
        ensures
            views(result@) == merged(
                sorted_by_start(views(segments@)),
                content@,
                self.rate(),
                max_gap_ms,
            ),
            all_wf(views(result@)),
    {
        let ghost input = views(segments@);
        let rate = self.sample_rate();
        let sorted = sort_by_start(segments);
        let ghost order = views(sorted@);
        let ghost all = sorted@;
        proof {
            lemma_sorted_by_start(input);
        }
        let mut result: Vec<AudioSegment> = Vec::new();
        let mut current: Option<AudioSegment> = None;
        assert(order.take(0) =~= Seq::<SegmentView>::empty());
        for next in it: sorted.into_iter()
            invariant
                it.seq() == all,
                order == views(all),
                ordered_by_start(order),
                all_wf(order),
                rate == self.rate(),
                current is None ==> it.index() == 0 && result@.len() == 0,
                current is Some ==> it.index() > 0 && views(result@).push(current->Some_0@)
                    == merged(order.take(it.index() as int), content@, rate, max_gap_ms),
                current is Some ==> current->Some_0@.wf() && current->Some_0@.start <= order[
                    it.index() - 1].start,
                all_wf(views(result@)),
        {
            let ghost k = it.index() as int;
            assert(order.take(k + 1).drop_last() =~= order.take(k));
            assert(order.take(k + 1).last() == next@);
            assert(order[k] == next@);
            assert(next@.wf());
            match current {
                None => {
                    assert(order.take(1) =~= seq![next@]);
                    assert(views(result@).push(next@) =~= seq![next@]);
                    current = Some(next);
                },
                Some(held) => {
                    assert(held@.start <= next@.start) by {
                        assert(order[k - 1].start <= order[k].start);
                    }
                    assert(order.take(k).len() >= 1);
                    let ghost before = merged(order.take(k), content@, rate, max_gap_ms);
                    assert(before.last() == held@);
                    assert(before.drop_last() =~= views(result@));
                    let pause: i128 = (next.start_sample as i128 - held.end_sample as i128) * 1000;
                    assert(max_gap_ms * rate <= 0xffff_ffff_ffff_ffff * 0xffff_ffff)
                        by (nonlinear_arith)
                        requires
                            max_gap_ms <= 0xffff_ffff_ffff_ffff,
                            rate <= 0xffff_ffff,
                    ;
                    let limit: i128 = max_gap_ms as i128 * rate as i128;
                    if pause <= limit {
                        let joined = self.cut_segment(content, held.start_sample, next.end_sample);
                        current = Some(joined);
                    } else {
                        let ghost emitted = views(result@);
                        result.push(held);
                        assert(views(result@) =~= emitted.push(held@));
                        current = Some(next);
                    }
                },
            }
        }
        assert(order.take(order.len() as int) =~= order);
        match current {
            None => {
                assert(order =~= Seq::<SegmentView>::empty());
            },
            Some(held) => {
                let ghost emitted = views(result@);
                result.push(held);
                assert(views(result@) =~= emitted.push(held@));
            },
        }
        result
    }
}

/// Whether no segment of `s` follows the one before it closely enough to be joined to it.
pub open spec fn all_apart(s: Seq<SegmentView>, rate: u32, max_gap_ms: u64) -> bool {
    forall|i: int|
        0 <= i && i + 1 < s.len() ==> !within_gap(
            (#[trigger] s[i]).end,
            s[i + 1].start,
            rate,
            max_gap_ms,
        )
}

/// Whether `joined` is what became of the segments from place `first` to place
/// `last` of `s`: that one segment unchanged, or, of several, the segment cut
/// from the start of the first to the end of the last.
pub open spec fn joins(
    joined: SegmentView,
    s: Seq<SegmentView>,
    first: int,
    last: int,
    content: Seq<i16>,
    rate: u32,
) -> bool {
    &&& 0 <= first <= last < s.len()
    &&& joined.start == s[first].start
    &&& joined.end == s[last].end
    &&& first == last ==> joined == s[first]
    &&& first < last ==> joined == cut(content, s[first].start, s[last].end, rate)
}

/// Reading joins segments without ever leaving two within the gap of each
/// other, and it gives at least one segment where it was given one.
pub proof fn lemma_merged_apart(
    s: Seq<SegmentView>,
    content: Seq<i16>,
    rate: u32,
    max_gap_ms: u64,
)
    ensures
        all_apart(merged(s, content, rate, max_gap_ms), rate, max_gap_ms),
        s.len() >= 1 ==> 1 <= merged(s, content, rate, max_gap_ms).len() <= s.len(),
        s.len() == 0 ==> merged(s, content, rate, max_gap_ms).len() == 0,
    decreases s.len(),
{
    if s.len() > 1 {
        lemma_merged_apart(s.drop_last(), content, rate, max_gap_ms);
        let before = merged(s.drop_last(), content, rate, max_gap_ms);
        let r = merged(s, content, rate, max_gap_ms);
        assert forall|i: int| 0 <= i && i + 1 < r.len() implies !within_gap(
            (#[trigger] r[i]).end,
            r[i + 1].start,
            rate,
            max_gap_ms,
        ) by {
            if i + 1 < before.len() {
                assert(r[i] == before[i]);
                assert(r[i + 1].start == before[i + 1].start);
            } else {
                assert(r[i] == before[i]);
            }
        }
    }
}

/// Reading segments that come in order of their start gives segments in order
/// of their start, each with the start of one that was read.
pub proof fn lemma_merged_ordered(
    s: Seq<SegmentView>,
    content: Seq<i16>,
    rate: u32,
    max_gap_ms: u64,
)
    requires
        ordered_by_start(s),
    ensures
        ordered_by_start(merged(s, content, rate, max_gap_ms)),
        s.len() >= 1 ==> merged(s, content, rate, max_gap_ms).last().start <= s.last().start,
    decreases s.len(),
{
    if s.len() > 1 {
        let head = s.drop_last();
        assert(ordered_by_start(head));
        lemma_merged_ordered(head, content, rate, max_gap_ms);
        lemma_merged_apart(head, content, rate, max_gap_ms);
        let before = merged(head, content, rate, max_gap_ms);
        let r = merged(s, content, rate, max_gap_ms);
        assert(head.last().start <= s.last().start) by {
            assert(s[s.len() - 2].start <= s[s.len() - 1].start);
        }
        assert forall|i: int, j: int| 0 <= i <= j < r.len() implies r[i].start <= r[j].start by {
            if j < before.len() {
                assert(r[i].start == before[i].start);
                assert(r[j].start == before[j].start);
            } else if i < before.len() {
                assert(r[i] == before[i]);
                assert(before[i].start <= before[before.len() - 1].start);
            }
        }
    }
}

/// Reading segments of which none lies within the gap of the one before it
/// changes nothing.
pub proof fn lemma_merged_fixed(
    s: Seq<SegmentView>,
    content: Seq<i16>,
    rate: u32,
    max_gap_ms: u64,
)
    requires
        all_apart(s, rate, max_gap_ms),
    ensures
        merged(s, content, rate, max_gap_ms) == s,
    decreases s.len(),
{
    if s.len() > 1 {
        let head = s.drop_last();
        assert forall|i: int| 0 <= i && i + 1 < head.len() implies !within_gap(
            (#[trigger] head[i]).end,
            head[i + 1].start,
            rate,
            max_gap_ms,
        ) by {
            assert(head[i] == s[i]);
        }
        lemma_merged_fixed(head, content, rate, max_gap_ms);
        assert(!within_gap(s[s.len() - 2].end, s[s.len() - 2 + 1].start, rate, max_gap_ms));
        assert(head.push(s.last()) =~= s);
    }
}

/// Merging what merging gave, with the same gap, gives the same segments again.
pub proof fn lemma_merge_idempotent(
    s: Seq<SegmentView>,
    content: Seq<i16>,
    rate: u32,
    max_gap_ms: u64,
)
    ensures
        ({
            let once = merged(sorted_by_start(s), content, rate, max_gap_ms);
            merged(sorted_by_start(once), content, rate, max_gap_ms) == once
        }),
{
    let once = merged(sorted_by_start(s), content, rate, max_gap_ms);
    lemma_sorted_by_start(s);
    lemma_merged_ordered(sorted_by_start(s), content, rate, max_gap_ms);
    lemma_sorted_by_start(once);
    lemma_merged_apart(sorted_by_start(s), content, rate, max_gap_ms);
    lemma_merged_fixed(once, content, rate, max_gap_ms);
}

/// After merging, every segment ends before the next one starts: in samples,
/// and so in seconds at any rate.
pub proof fn lemma_merge_non_overlap(
    s: Seq<SegmentView>,
    content: Seq<i16>,
    rate: u32,
    max_gap_ms: u64,
)
    ensures
        ({
            let r = merged(sorted_by_start(s), content, rate, max_gap_ms);
            forall|i: int| 0 <= i && i + 1 < r.len() ==> (#[trigger] r[i]).end < r[i + 1].start
        }),
{
    let r = merged(sorted_by_start(s), content, rate, max_gap_ms);
    lemma_merged_apart(sorted_by_start(s), content, rate, max_gap_ms);
    assert forall|i: int| 0 <= i && i + 1 < r.len() implies (#[trigger] r[i]).end < r[i
        + 1].start by {
        assert(!within_gap(r[i].end, r[i + 1].start, rate, max_gap_ms));
        assert(0 <= max_gap_ms * rate) by (nonlinear_arith);
    }
}

/// Whether `joined` is what became of some stretch of the segments of `s`.
pub open spec fn joined_from(
    joined: SegmentView,
    s: Seq<SegmentView>,
    content: Seq<i16>,
    rate: u32,
) -> bool {
    exists|first: int, last: int| #[trigger] joins(joined, s, first, last, content, rate)
}

spec fn joins_to_end(
    joined: SegmentView,
    s: Seq<SegmentView>,
    first: int,
    content: Seq<i16>,
    rate: u32,
) -> bool {
    joins(joined, s, first, s.len() - 1, content, rate)
}

proof fn lemma_merged_joins_to_end(
    s: Seq<SegmentView>,
    content: Seq<i16>,
    rate: u32,
    max_gap_ms: u64,
)
    ensures
        forall|i: int|
            0 <= i < merged(s, content, rate, max_gap_ms).len() ==> joined_from(
                #[trigger] merged(s, content, rate, max_gap_ms)[i],
                s,
                content,
                rate,
            ),
        s.len() >= 1 ==> exists|first: int| #[trigger]
            joins_to_end(merged(s, content, rate, max_gap_ms).last(), s, first, content, rate),
    decreases s.len(),
{
    let r = merged(s, content, rate, max_gap_ms);
    if s.len() == 1 {
        assert(joins(r[0], s, 0, 0, content, rate));
        assert(joins_to_end(r.last(), s, 0, content, rate));
    } else if s.len() > 1 {
        let head = s.drop_last();
        lemma_merged_joins_to_end(head, content, rate, max_gap_ms);
        lemma_merged_apart(head, content, rate, max_gap_ms);
        let before = merged(head, content, rate, max_gap_ms);
        let n = s.len() - 1;
        let held = choose|first: int| #[trigger]
            joins_to_end(before.last(), head, first, content, rate);
        assert(head[held] == s[held] && head[n - 1] == s[n - 1]);
        let from = if within_gap(before.last().end, s.last().start, rate, max_gap_ms) {
            held
        } else {
            n
        };
        assert(joins(r.last(), s, from, n, content, rate));
        assert(joins_to_end(r.last(), s, from, content, rate));
        assert forall|i: int| 0 <= i < r.len() implies joined_from(
            #[trigger] r[i],
            s,
            content,
            rate,
        ) by {
            if i < r.len() - 1 {
                assert(r[i] == before[i]);
                assert(joined_from(before[i], head, content, rate));
                let (first, last) = choose|first: int, last: int| #[trigger]
                    joins(before[i], head, first, last, content, rate);
                assert(head[first] == s[first] && head[last] == s[last]);
                assert(joins(r[i], s, first, last, content, rate));
            }
        }
    }
}

/// Every segment that reading gives stands for a stretch of the segments read:
/// it starts where the first of them starts and ends where the last of them
/// ends, so it covers that last one whole. A stretch of one segment is that
/// segment unchanged.
pub proof fn lemma_merged_joins(
    s: Seq<SegmentView>,
    content: Seq<i16>,
    rate: u32,
    max_gap_ms: u64,
)
    ensures
        forall|i: int|
            0 <= i < merged(s, content, rate, max_gap_ms).len() ==> joined_from(
                #[trigger] merged(s, content, rate, max_gap_ms)[i],
                s,
                content,
                rate,
            ),
{
    lemma_merged_joins_to_end(s, content, rate, max_gap_ms);
}

/// Whether the samples and the text of `segment` are those that `content`
/// holds between its bounds.
pub open spec fn is_cut_of(segment: SegmentView, content: Seq<i16>, rate: u32) -> bool {
    segment == cut(content, segment.start, segment.end, rate)
}

/// Reading segments that hold the samples of the buffer between their bounds
/// gives such segments again.
pub proof fn lemma_merged_are_cuts(
    s: Seq<SegmentView>,
    content: Seq<i16>,
    rate: u32,
    max_gap_ms: u64,
)
    requires
        forall|i: int| 0 <= i < s.len() ==> is_cut_of(#[trigger] s[i], content, rate),
    ensures
        forall|i: int|
            0 <= i < merged(s, content, rate, max_gap_ms).len() ==> is_cut_of(
                #[trigger] merged(s, content, rate, max_gap_ms)[i],
                content,
                rate,
            ),
{
    let r = merged(s, content, rate, max_gap_ms);
    lemma_merged_joins(s, content, rate, max_gap_ms);
    assert forall|i: int| 0 <= i < r.len() implies is_cut_of(#[trigger] r[i], content, rate) by {
        assert(joined_from(r[i], s, content, rate));
        let (first, last) = choose|first: int, last: int| #[trigger]
            joins(r[i], s, first, last, content, rate);
        assert(is_cut_of(s[first], content, rate));
    }
}

/// Reading segments that come in order of their start, each ending after it
/// starts, gives segments that each end after they start.
pub proof fn lemma_merged_wf(s: Seq<SegmentView>, content: Seq<i16>, rate: u32, max_gap_ms: u64)
    requires
        ordered_by_start(s),
        all_wf(s),
    ensures
        all_wf(merged(s, content, rate, max_gap_ms)),
{
    let r = merged(s, content, rate, max_gap_ms);
    lemma_merged_joins(s, content, rate, max_gap_ms);
    assert forall|i: int| 0 <= i < r.len() implies (#[trigger] r[i]).wf() by {
        assert(joined_from(r[i], s, content, rate));
        let (first, last) = choose|first: int, last: int| #[trigger]
            joins(r[i], s, first, last, content, rate);
        assert(s[first].wf() && s[last].wf());
        assert(s[first].start <= s[last].start);
    }
}

} // verus!
