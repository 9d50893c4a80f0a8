//! The columnar facet's segment layout: rows kept in append order across ordered segments. The
//! writer honors a target segment size, rolling to a fresh segment when the open one is full, and
//! an explicit compaction re-chunks every row into target-sized segments. Segment boundaries are
//! part of a dataset's identity, so the layout rules are stated exactly.

use vstd::prelude::*;
use crate::client::{chunks_of, law_chunks_concatenate_to_input};

verus! {

broadcast use {
    vstd::seq::group_seq_axioms,
    vstd::seq_lib::group_seq_properties,
    vstd::seq::Seq::lemma_flatten_push,
    vstd::seq::Seq::lemma_flatten_singleton,
    vstd::std_specs::vec::group_vec_axioms,
};

/// The rows-per-segment target used when a dataset asks for 0.
pub const DEFAULT_TARGET_SEGMENT_ROWS: usize = 8192;

/// The target a requested size selects: the request itself, or the default for 0.
pub open spec fn effective_target(requested: usize) -> nat {
    if requested == 0 {
        DEFAULT_TARGET_SEGMENT_ROWS as nat
    } else {
        requested as nat
    }
}

/// A requested target is kept as it is when positive; only 0 selects the default.
pub proof fn law_positive_target_is_kept(requested: usize)
    ensures
        requested > 0 ==> effective_target(requested) == requested,
        requested == 0 ==> effective_target(requested) == DEFAULT_TARGET_SEGMENT_ROWS,
{
}

/// The rows of each segment of a vector of segments.
pub open spec fn segment_views<R>(s: Seq<Vec<R>>) -> Seq<Seq<R>> {
    Seq::new(s.len(), |i: int| s[i]@)
}

/// The layout after appending `row`: a fresh segment when there is none or the last one holds
/// `target` rows or more, otherwise the row joins the last segment.
pub open spec fn rolled<R>(segments: Seq<Seq<R>>, row: R, target: nat) -> Seq<Seq<R>> {
    if segments.len() == 0 || segments.last().len() >= target {
        segments.push(seq![row])
    } else {
        segments.update(segments.len() - 1, segments.last().push(row))
    }
}

/// Where a segment sits among a dataset's rows: its position, the index of its first row, and
/// its row count.
#[derive(Debug, Clone, Copy, PartialEq, Eq, Structural)]
pub struct SegmentRange {
    pub ordinal: usize,
    pub row_start: usize,
    pub row_count: usize,
}

/// Rows in append order across ordered segments, with a target segment size.
#[derive(Debug)]
pub struct SegmentedRows<R> {
    segments: Vec<Vec<R>>,
    target: usize,
}

/// The rows before segment `i` number as many as the first `i` segments flattened, and adding
/// segment `i` adds its rows.
proof fn lemma_flatten_take_step<R>(s: Seq<Seq<R>>, i: int)
    requires
        0 <= i < s.len(),
    ensures
        s.take(i + 1).flatten() == s.take(i).flatten() + s[i],
{
    assert(s.take(i + 1) =~= s.take(i).push(s[i]));
}

/// A prefix of the segments holds no more rows than all of them.
proof fn lemma_flatten_take_len<R>(s: Seq<Seq<R>>, i: int)
    requires
        0 <= i <= s.len(),
    ensures
        s.take(i).flatten().len() <= s.flatten().len(),
    decreases s.len() - i,
{
    if i < s.len() {
        lemma_flatten_take_step(s, i);
        lemma_flatten_take_len(s, i + 1);
    } else {
        assert(s.take(i) =~= s);
    }
}

/// Replacing the last segment by itself plus one row adds that row to the flattened rows.
proof fn lemma_flatten_update_last<R>(s: Seq<Seq<R>>, row: R)
    requires
        s.len() > 0,
    ensures
        s.update(s.len() - 1, s.last().push(row)).flatten() == s.flatten().push(row),
{
    let front = s.drop_last();
    assert(s =~= front.push(s.last()));
    assert(s.update(s.len() - 1, s.last().push(row)) =~= front.push(s.last().push(row)));
    assert((front.flatten() + s.last()).push(row) =~= front.flatten() + s.last().push(row));
}

/// Appending a row adds it to the end of the flattened rows.
proof fn lemma_rolled_flatten<R>(s: Seq<Seq<R>>, row: R, target: nat)
    ensures
        rolled(s, row, target).flatten() == s.flatten().push(row),
{
    if s.len() == 0 || s.last().len() >= target {
        assert(s.flatten() + seq![row] =~= s.flatten().push(row));
    } else {
        lemma_flatten_update_last(s, row);
    }
}

impl<R> SegmentedRows<R> {
    /// The target is positive and the row count fits a `usize`.
    #[verifier::type_invariant]
    spec fn layout_ok(&self) -> bool {
        &&& self.target > 0
        &&& segment_views(self.segments@).flatten().len() <= usize::MAX
    }

    /// The rows of each segment, in order.
    pub closed spec fn segments_view(&self) -> Seq<Seq<R>> {
        segment_views(self.segments@)
    }

    /// The configured rows-per-segment target.
    pub closed spec fn target_view(&self) -> nat {
        self.target as nat
    }

    /// Every row, in append order across the segments.
    pub open spec fn scan_view(&self) -> Seq<R> {
        self.segments_view().flatten()
    }

    /// An empty layout rolling at `target_segment_rows` (0 selects the default).
    pub fn new(target_segment_rows: usize) -> (r: SegmentedRows<R>)
        ensures
            r.segments_view() == Seq::<Seq<R>>::empty(),
            r.target_view() == effective_target(target_segment_rows),
            target_segment_rows > 0 ==> r.target_view() == target_segment_rows,
            target_segment_rows == 0 ==> r.target_view() == DEFAULT_TARGET_SEGMENT_ROWS,
    {
        let target = if target_segment_rows == 0 {
            DEFAULT_TARGET_SEGMENT_ROWS
        } else {
            target_segment_rows
        };
        let r = SegmentedRows { segments: Vec::new(), target };
        assert(r.segments_view() =~= Seq::<Seq<R>>::empty());
        r
    }

    /// A layout holding `segments` as they are (0 selects the default target).
    pub fn from_segments(segments: Vec<Vec<R>>, target_segment_rows: usize) -> (r: SegmentedRows<R>)
        requires
            segment_views(segments@).flatten().len() <= usize::MAX,
        ensures
            r.segments_view() == segment_views(segments@),
            r.target_view() == effective_target(target_segment_rows),
            target_segment_rows > 0 ==> r.target_view() == target_segment_rows,
            target_segment_rows == 0 ==> r.target_view() == DEFAULT_TARGET_SEGMENT_ROWS,
    {
        let target = if target_segment_rows == 0 {
            DEFAULT_TARGET_SEGMENT_ROWS
        } else {
            target_segment_rows
        };
        SegmentedRows { segments, target }
    }

    /// The segments, in order.
    pub fn segments(&self) -> (r: &Vec<Vec<R>>)
        ensures
            segment_views(r@) == self.segments_view(),
    {
        &self.segments
    }

    /// Total row count across all segments.
    pub fn rows(&self) -> (r: usize)
        ensures
            r == self.scan_view().len(),
    {
        proof {
            use_type_invariant(self);
        }
        let ghost s = self.segments_view();
        let mut total: usize = 0;
        let mut i: usize = 0;
        while i < self.segments.len()
            invariant
                s == segment_views(self.segments@),
                s.flatten().len() <= usize::MAX,
                i <= s.len(),
                total == s.take(i as int).flatten().len(),
            decreases s.len() - i,
        {
            proof {
                lemma_flatten_take_step(s, i as int);
                lemma_flatten_take_len(s, i + 1);
            }
            total = total + self.segments[i].len();
            i = i + 1;
        }
        assert(s.take(i as int) =~= s);
        total
    }

    /// Whether there are no rows.
    pub fn is_empty(&self) -> (r: bool)
        ensures
            r == (self.scan_view().len() == 0),
    {
        self.rows() == 0
    }

    /// Number of segments.
    pub fn segment_count(&self) -> (r: usize)
        ensures
            r == self.segments_view().len(),
    {
        self.segments.len()
    }

    /// The configured target rows-per-segment.
    pub fn target_segment_rows(&self) -> (r: usize)
        ensures
            r == self.target_view(),
            r > 0,
    {
        proof {
            use_type_invariant(self);
        }
        self.target
    }

    /// Append a row, rolling to a fresh segment when the open one has reached the target size.
    /// The row becomes the last one of the scan.
    pub fn push(&mut self, row: R)
        requires
            old(self).scan_view().len() < usize::MAX,
        ensures
            final(self).target_view() == old(self).target_view(),
            final(self).segments_view() == rolled(old(self).segments_view(), row, old(self).target_view()),
            final(self).scan_view() == old(self).scan_view().push(row),
    {
        proof {
            use_type_invariant(&*self);
        }
        let ghost before = self.segments_view();
        let ghost target = self.target as nat;
        proof {
            lemma_rolled_flatten(before, row, target);
        }
        let mut segments: Vec<Vec<R>> = Vec::new();
        std::mem::swap(&mut segments, &mut self.segments);
        let n = segments.len();
        if n == 0 || segments[n - 1].len() >= self.target {
            let mut fresh: Vec<R> = Vec::new();
            fresh.push(row);
            segments.push(fresh);
            assert(segment_views(segments@) =~= before.push(seq![row]));
        } else {
            let mut last = segments.pop().unwrap();
            last.push(row);
            segments.push(last);
            assert(segment_views(segments@) =~= before.update(before.len() - 1, before.last().push(row)));
        }
        self.segments = segments;
    }

    /// Merge the segments into target-sized ones: every row in order, re-chunked at the target,
    /// so every segment but the last holds exactly the target and the last holds 1 to target.
    pub fn compact(&mut self)
        ensures
            final(self).target_view() == old(self).target_view(),
            final(self).target_view() > 0,
            final(self).segments_view() == chunks_of(old(self).scan_view(), old(self).target_view()),
            final(self).scan_view() == old(self).scan_view(),
    {
        proof {
            use_type_invariant(&*self);
        }
        let ghost all_rows = self.scan_view();
        let n = self.target;
        let mut segments: Vec<Vec<R>> = Vec::new();
        std::mem::swap(&mut segments, &mut self.segments);
        let mut all: Vec<R> = Vec::new();
        assert(segment_views(segments@).flatten() + all@ =~= all_rows);
        while segments.len() > 0
            invariant
                segment_views(segments@).flatten() + all@ == all_rows,
            decreases segments@.len(),
        {
            let ghost sv = segment_views(segments@);
            let mut seg = segments.pop().unwrap();
            proof {
                assert(sv =~= segment_views(segments@).push(seg@));
                assert(sv.flatten() == segment_views(segments@).flatten() + seg@);
            }
            seg.append(&mut all);
            all = seg;
            assert(segment_views(segments@).flatten() + all@ =~= all_rows);
        }
        assert(segment_views(segments@) =~= Seq::<Seq<R>>::empty());
        assert(all@ =~= all_rows);
        let mut out: Vec<Vec<R>> = Vec::new();
        assert(segment_views(out@) + chunks_of(all@, n as nat) =~= chunks_of(all_rows, n as nat));
        while all.len() > 0
            invariant
                n > 0,
                segment_views(out@) + chunks_of(all@, n as nat) == chunks_of(all_rows, n as nat),
            decreases all@.len(),
        {
            let ghost rest = all@;
            let k: usize = if all.len() <= n {
                all.len()
            } else {
                n
            };
            let tail = all.split_off(k);
            proof {
                if rest.len() <= n {
                    assert(all@ =~= rest);
                    assert(tail@.len() == 0);
                    assert(chunks_of(tail@, n as nat) =~= Seq::<Seq<R>>::empty());
                } else {
                    assert(all@ =~= rest.take(n as int));
                    assert(tail@ =~= rest.skip(n as int));
                }
                assert(segment_views(out@.push(all)) =~= segment_views(out@).push(all@));
            }
            out.push(all);
            all = tail;
        }
        assert(chunks_of(all@, n as nat) =~= Seq::<Seq<R>>::empty());
        assert(segment_views(out@) =~= chunks_of(all_rows, n as nat));
        proof {
            law_chunks_concatenate_to_input(all_rows, n as nat);
        }
        self.segments = out;
    }

    /// Where each segment sits: its ordinal, the index of its first row (the rows of all earlier
    /// segments), and its row count.
    pub fn segment_ranges(&self) -> (r: Vec<SegmentRange>)
        ensures
            r@.len() == self.segments_view().len(),
            forall|i: int|
                0 <= i < r@.len() ==> (#[trigger] r@[i]).ordinal == i && r@[i].row_start
                    == self.segments_view().take(i).flatten().len() && r@[i].row_count
                    == self.segments_view()[i].len(),
    {
        proof {
            use_type_invariant(self);
        }
        let ghost s = self.segments_view();
        let mut out: Vec<SegmentRange> = Vec::new();
        let mut start: usize = 0;
        let mut i: usize = 0;
        while i < self.segments.len()
            invariant
                s == segment_views(self.segments@),
                s.flatten().len() <= usize::MAX,
                i <= s.len(),
                out@.len() == i,
                start == s.take(i as int).flatten().len(),
                forall|j: int|
                    0 <= j < i ==> (#[trigger] out@[j]).ordinal == j && out@[j].row_start == s.take(
                        j,
                    ).flatten().len() && out@[j].row_count == s[j].len(),
            decreases s.len() - i,
        {
            proof {
                lemma_flatten_take_step(s, i as int);
                lemma_flatten_take_len(s, i + 1);
            }
            let count = self.segments[i].len();
            out.push(SegmentRange { ordinal: i, row_start: start, row_count: count });
            start = start + count;
            i = i + 1;
        }
        out
    }
}

/// Compaction is a re-chunking: it keeps every row in order, and every segment it produces but
/// the last holds exactly `target` rows while the last holds between 1 and `target`.
pub proof fn law_compacted_segments_are_full<R>(rows: Seq<R>, target: nat)
    requires
        target > 0,
    ensures
        chunks_of(rows, target).flatten() == rows,
        forall|i: int|
            0 <= i < chunks_of(rows, target).len() - 1 ==> (#[trigger] chunks_of(rows, target)[i]).len() == target,
        chunks_of(rows, target).len() > 0 ==> 0 < chunks_of(rows, target).last().len() <= target,
{
    law_chunks_concatenate_to_input(rows, target);
    lemma_chunks_full(rows, target);
}

/// Every chunk but the last is full.
proof fn lemma_chunks_full<A>(s: Seq<A>, size: nat)
    requires
        size > 0,
    ensures
        forall|i: int| 0 <= i < chunks_of(s, size).len() - 1 ==> (#[trigger] chunks_of(s, size)[i]).len() == size,
        chunks_of(s, size).len() > 0 ==> 0 < chunks_of(s, size).last().len() <= size,
    decreases s.len(),
{
    if s.len() > size {
        let t = s.skip(size as int);
        lemma_chunks_full(t, size);
        let c = chunks_of(s, size);
        assert(c.drop_first() =~= chunks_of(t, size));
        assert forall|i: int| 0 <= i < c.len() - 1 implies (#[trigger] c[i]).len() == size by {
            if i > 0 {
                assert(c[i] == chunks_of(t, size)[i - 1]);
            }
        }
        assert(c.last() == chunks_of(t, size).last());
    }
}

/// Appending keeps segments within the target: when every segment holds between 1 and `target`
/// rows, so does every segment after a row is appended.
pub proof fn law_appends_keep_segments_within_target<R>(segments: Seq<Seq<R>>, row: R, target: nat)
    requires
        target > 0,
        forall|i: int| 0 <= i < segments.len() ==> 0 < (#[trigger] segments[i]).len() <= target,
    ensures
        forall|i: int|
            0 <= i < rolled(segments, row, target).len() ==> 0 < (#[trigger] rolled(segments, row, target)[i]).len()
                <= target,
{
    let r = rolled(segments, row, target);
    assert forall|i: int| 0 <= i < r.len() implies 0 < (#[trigger] r[i]).len() <= target by {
        if i < segments.len() && !(segments.len() > 0 && segments.last().len() < target && i == segments.len() - 1) {
            assert(r[i] == segments[i]);
        }
    }
}

/// A row starts a new segment exactly when there is no segment or the last one holds `target`
/// rows; otherwise it joins the last segment, and the segments before it stay as they were.
pub proof fn law_append_rolls_exactly_at_target<R>(segments: Seq<Seq<R>>, row: R, target: nat)
    requires
        target > 0,
        forall|i: int| 0 <= i < segments.len() ==> 0 < (#[trigger] segments[i]).len() <= target,
    ensures
        segments.len() == 0 || segments.last().len() == target ==> rolled(segments, row, target)
            == segments.push(seq![row]),
        segments.len() > 0 && segments.last().len() < target ==> rolled(segments, row, target)
            == segments.drop_last().push(segments.last().push(row)),
{
    if segments.len() > 0 {
        assert(segments.last() == segments[segments.len() - 1]);
        if segments.last().len() < target {
            assert(segments.update(segments.len() - 1, segments.last().push(row)) =~= segments.drop_last().push(
                segments.last().push(row),
            ));
        }
    }
}

/// The layout `rows` make when appended one at a time to an empty layout at `target`.
pub open spec fn appended<R>(rows: Seq<R>, target: nat) -> Seq<Seq<R>>
    decreases rows.len(),
{
    if rows.len() == 0 {
        Seq::empty()
    } else {
        rolled(appended(rows.drop_last(), target), rows.last(), target)
    }
}

/// Appending rows one at a time to an empty layout fills each segment to exactly `target` rows
/// before starting the next: the segments hold the rows in order, every segment but the last
/// holds exactly `target` rows, and the last holds between 1 and `target` rows.
pub proof fn law_appends_fill_each_segment_to_target<R>(rows: Seq<R>, target: nat)
    requires
        target > 0,
    ensures
        appended(rows, target).flatten() == rows,
        forall|i: int|
            0 <= i < appended(rows, target).len() - 1 ==> (#[trigger] appended(rows, target)[i]).len() == target,
        appended(rows, target).len() > 0 ==> 0 < appended(rows, target).last().len() <= target,
        rows.len() > 0 ==> appended(rows, target).len() > 0,
    decreases rows.len(),
{
    if rows.len() > 0 {
        let t = rows.drop_last();
        let x = rows.last();
        law_appends_fill_each_segment_to_target(t, target);
        let a = appended(t, target);
        let r = appended(rows, target);
        lemma_rolled_flatten(a, x, target);
        assert(t.push(x) =~= rows);
        if a.len() == 0 || a.last().len() >= target {
            assert(r == a.push(seq![x]));
            assert forall|i: int| 0 <= i < r.len() - 1 implies (#[trigger] r[i]).len() == target by {
                assert(r[i] == a[i]);
                if i < a.len() - 1 {
                } else {
                    assert(a[i] == a.last());
                }
            }
        } else {
            assert(r == a.update(a.len() - 1, a.last().push(x)));
            assert forall|i: int| 0 <= i < r.len() - 1 implies (#[trigger] r[i]).len() == target by {
                assert(r[i] == a[i]);
            }
        }
    }
}

/// The number of target-sized chunks `n` items make: `n / target`, rounded up.
pub open spec fn chunk_count(n: nat, target: nat) -> nat {
    ((n + target - 1) / target as int) as nat
}

/// Where chunk `i` of `n` items ends: `(i + 1) * size`, or `n` for the last.
pub open spec fn chunk_end(i: int, size: nat, n: nat) -> int {
    if (i + 1) * size <= n {
        (i + 1) * size
    } else {
        n as int
    }
}

/// The chunks of `s` are `s`'s consecutive pieces of `size` items, the last possibly shorter.
proof fn lemma_chunks_layout<A>(s: Seq<A>, size: nat)
    requires
        size > 0,
    ensures
        chunks_of(s, size).len() == chunk_count(s.len(), size),
        forall|i: int| 0 <= i < chunks_of(s, size).len() ==> #[trigger] (i * size) < s.len(),
        forall|i: int|
            0 <= i < chunks_of(s, size).len() ==> #[trigger] chunks_of(s, size)[i] == s.subrange(
                i * size,
                chunk_end(i, size, s.len()),
            ),
    decreases s.len(),
{
    let n = s.len();
    let c = chunks_of(s, size);
    if n == 0 {
        assert((size - 1) / (size as int) == 0) by (nonlinear_arith)
            requires
                size > 0,
        ;
    } else if n <= size {
        assert((n + size - 1) / (size as int) == 1) by (nonlinear_arith)
            requires
                size > 0,
                0 < n <= size,
        ;
        assert(c.len() == 1);
        assert(0 * size == 0);
        assert(s.subrange(0, chunk_end(0, size, n)) =~= s);
    } else {
        let t = s.skip(size as int);
        lemma_chunks_layout(t, size);
        assert(c.drop_first() =~= chunks_of(t, size));
        assert((n + size - 1) / (size as int) == (t.len() + size - 1) / (size as int) + 1) by (nonlinear_arith)
            requires
                size > 0,
                n > size,
                t.len() == n - size,
        ;
        assert forall|i: int| 0 <= i < c.len() implies #[trigger] (i * size) < s.len() && c[i] == s.subrange(
            i * size,
            chunk_end(i, size, s.len()),
        ) by {
            if i == 0 {
                assert(0 * size == 0);
                assert(s.take(size as int) =~= s.subrange(0, chunk_end(0, size, n)));
            } else {
                let j = i - 1;
                assert(c[i] == chunks_of(t, size)[j]);
                assert(j * size < t.len());
                assert(i * size == j * size + size) by (nonlinear_arith)
                    requires
                        j == i - 1,
                ;
                assert((i + 1) * size == (j + 1) * size + size) by (nonlinear_arith)
                    requires
                        j == i - 1,
                ;
                assert(chunk_end(i, size, n) == chunk_end(j, size, t.len()) + size);
                assert(t.subrange(j * size, chunk_end(j, size, t.len())) =~= s.subrange(
                    i * size,
                    chunk_end(i, size, n),
                ));
            }
        }
    }
}

/// Compaction's layout: `n` rows compacted at target `t` make `n / t` segments rounded up,
/// segment `i` holding rows `i * t` up to `(i + 1) * t` (or the end), so every segment is full
/// but possibly the last; and compacting the result again gives the same segments.
pub proof fn law_compaction_layout<R>(rows: Seq<R>, target: nat)
    requires
        target > 0,
    ensures
        chunks_of(rows, target).len() == chunk_count(rows.len(), target),
        forall|i: int|
            0 <= i < chunks_of(rows, target).len() ==> #[trigger] chunks_of(rows, target)[i] == rows.subrange(
                i * target,
                chunk_end(i, target, rows.len()),
            ),
        chunks_of(chunks_of(rows, target).flatten(), target) == chunks_of(rows, target),
{
    lemma_chunks_layout(rows, target);
    law_chunks_concatenate_to_input(rows, target);
}

} // verus!
