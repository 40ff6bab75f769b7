//! Stretches of spliced transcripts: the exons of a transcript are laid end
//! to end, and a stretch of what they make is cut out of them.

use crate::arith::{clamp, sat_abs, sat_add, sat_neg, sat_sub};
use crate::radix::{lemma_reorder_members, reorder, sort_rows, stable_order};
use crate::ruranges_structs::{
    GroupType, PositionType, SplicedRecord, SplicedSubsequenceInterval,
};
use crate::sorts::{
    build_sorted_subsequence_intervals, shift, shifted, sorted_subsequence_rows, subsequence_key,
    subsequence_rows,
};
use vstd::prelude::*;

verus! {

/// The least of zero and the first `t` of `xs`, not above `floor`.
pub open spec fn least_upto(xs: Seq<i64>, t: int, floor: i64) -> i64
    decreases t,
{
    if t <= 0 {
        floor
    } else {
        let before = least_upto(xs, t - 1, floor);
        if xs[t - 1] < before {
            xs[t - 1]
        } else {
            before
        }
    }
}

/// By how much the coordinates are raised so that none lies below zero.
pub open spec fn shift_of(starts: Seq<i64>, ends: Seq<i64>) -> i64 {
    let least = least_upto(ends, ends.len() as int, least_upto(starts, starts.len() as int, 0));
    if least < 0 {
        clamp(-least)
    } else {
        0
    }
}

/// By how much the coordinates are raised so that none lies below zero.
pub fn global_shift(starts: &[PositionType], ends: &[PositionType]) -> (by: PositionType)
    ensures
        by == shift_of(starts@, ends@),
        by >= 0,
{
    let mut min_coord: i64 = 0;
    let mut i: usize = 0;
    while i < starts.len()
        invariant
            i <= starts.len(),
            min_coord == least_upto(starts@, i as int, 0),
        decreases starts.len() - i,
    {
        if starts[i] < min_coord {
            min_coord = starts[i];
        }
        i += 1;
    }
    let ghost floor = min_coord;
    let mut j: usize = 0;
    while j < ends.len()
        invariant
            j <= ends.len(),
            min_coord == least_upto(ends@, j as int, floor),
        decreases ends.len() - j,
    {
        if ends[j] < min_coord {
            min_coord = ends[j];
        }
        j += 1;
    }
    if min_coord < 0 {
        sat_neg(min_coord)
    } else {
        0
    }
}

/// The length of an exon, whose coordinates count downwards on the reverse strand.
pub open spec fn exon_length(iv: SplicedSubsequenceInterval) -> i64 {
    clamp(exon_end(iv) - exon_start(iv))
}

pub open spec fn exon_start(iv: SplicedSubsequenceInterval) -> i64 {
    clamp(if iv.start < 0 { -iv.start } else { iv.start as int })
}

pub open spec fn exon_end(iv: SplicedSubsequenceInterval) -> i64 {
    clamp(if iv.end < 0 { -iv.end } else { iv.end as int })
}

/// The summed lengths of the exons of the transcript of exon `p` up to and
/// with that exon.
pub open spec fn length_upto(rows: Seq<SplicedSubsequenceInterval>, p: int) -> i64
    decreases p,
{
    if p < 0 {
        0
    } else if p == 0 || rows[p].chr != rows[p - 1].chr {
        clamp(0 + exon_length(rows[p]))
    } else {
        clamp(length_upto(rows, p - 1) + exon_length(rows[p]))
    }
}

/// The summed lengths of all exons of the transcript of exon `p`.
pub open spec fn transcript_length(rows: Seq<SplicedSubsequenceInterval>, p: int) -> i64
    decreases rows.len() - p,
{
    if p + 1 >= rows.len() || rows[p + 1].chr != rows[p].chr {
        length_upto(rows, p)
    } else {
        transcript_length(rows, p + 1)
    }
}

/// The first exon of the transcript of exon `p`.
pub open spec fn first_exon(rows: Seq<SplicedSubsequenceInterval>, p: int) -> int
    decreases p,
{
    if p <= 0 || rows[p].chr != rows[p - 1].chr {
        p
    } else {
        first_exon(rows, p - 1)
    }
}

/// A place on a transcript of length `total`: counted from its end where negative.
pub open spec fn place_on(total: i64, at: i64) -> i64 {
    if at < 0 {
        clamp(total + at)
    } else {
        at
    }
}

/// What the stretch from `slice_start` to `slice_end` of the transcript
/// keeps of exon `p`, if anything. The stretch runs to the end of the
/// transcript where no end is given. An exon is cut from its left where
/// the stretch begins within it, and from its right where the stretch ends
/// within it; on the reverse strand, unless the forward strand is forced,
/// the other way round.
pub open spec fn kept_of_exon(
    rows: Seq<SplicedSubsequenceInterval>,
    p: int,
    slice_start: i64,
    slice_end: Option<i64>,
    force_plus_strand: bool,
) -> Option<SplicedRecord> {
    let iv = rows[p];
    let total = transcript_length(rows, p);
    let global_start = place_on(total, slice_start);
    let global_end = place_on(
        total,
        match slice_end {
            Some(e) => e,
            None => total,
        },
    );
    let cumsum_end = length_upto(rows, p);
    let cumsum_start = clamp(cumsum_end - exon_length(iv));
    let from_start = clamp(global_start - cumsum_start);
    let from_end = clamp(cumsum_end - global_end);
    let forward = force_plus_strand || iv.forward_strand;
    let cut_left = if forward { from_start } else { from_end };
    let cut_right = if forward { from_end } else { from_start };
    let st = if cut_left > 0 { clamp(exon_start(iv) + cut_left) } else { exon_start(iv) };
    let en = if cut_right > 0 { clamp(exon_end(iv) - cut_right) } else { exon_end(iv) };
    if st < en {
        Some(SplicedRecord { idx: iv.idx, start: st, end: en, strand: iv.forward_strand == forward })
    } else {
        None
    }
}

/// The stretch that is cut from the transcript of exon `p`: one for all, or
/// for each transcript that of the row of its first exon.
pub open spec fn slice_of(
    rows: Seq<SplicedSubsequenceInterval>,
    slice_starts: Seq<i64>,
    slice_ends: Seq<Option<i64>>,
    p: int,
) -> (i64, Option<i64>) {
    let row = rows[first_exon(rows, p)].idx as int;
    (slice_starts[row], slice_ends[row])
}

/// What is kept of the first `t` exons.
pub open spec fn kept_upto(
    rows: Seq<SplicedSubsequenceInterval>,
    slice_starts: Seq<i64>,
    slice_ends: Seq<Option<i64>>,
    force_plus_strand: bool,
    t: int,
) -> Seq<SplicedRecord>
    decreases t,
{
    if t <= 0 {
        Seq::empty()
    } else {
        let before = kept_upto(rows, slice_starts, slice_ends, force_plus_strand, t - 1);
        let slice = slice_of(rows, slice_starts, slice_ends, t - 1);
        match kept_of_exon(rows, t - 1, slice.0, slice.1, force_plus_strand) {
            Some(rec) => before.push(rec),
            None => before,
        }
    }
}

/// Records by row, lowered by `by`.
pub open spec fn lowered_by_row(found: Seq<SplicedRecord>, by: i64) -> Seq<SplicedRecord> {
    let sorted = reorder(
        found,
        stable_order(Seq::new(found.len(), |k: int| (found[k].idx as i64, 0i64, 0i64))),
    );
    Seq::new(
        sorted.len(),
        |k: int|
            SplicedRecord {
                idx: sorted[k].idx,
                start: if by > 0 { clamp(sorted[k].start - by) } else { sorted[k].start },
                end: if by > 0 { clamp(sorted[k].end - by) } else { sorted[k].end },
                strand: sorted[k].strand,
            },
    )
}

/// The exons in the order of transcription, raised so that no coordinate
/// lies below zero.
pub open spec fn exons_in_order(
    chrs: Seq<i64>,
    starts: Seq<i64>,
    ends: Seq<i64>,
    strand_flags: Seq<bool>,
) -> Seq<SplicedSubsequenceInterval> {
    let by = shift_of(starts, ends);
    if by > 0 {
        sorted_subsequence_rows(
            subsequence_rows(chrs, shift(starts, by as int), shift(ends, by as int), strand_flags),
        )
    } else {
        sorted_subsequence_rows(subsequence_rows(chrs, starts, ends, strand_flags))
    }
}

/// What `spliced_subseq_multi` returns, as records.
pub open spec fn spliced_stretches(
    chrs: Seq<i64>,
    starts: Seq<i64>,
    ends: Seq<i64>,
    strand_flags: Seq<bool>,
    slice_starts: Seq<i64>,
    slice_ends: Seq<Option<i64>>,
    force_plus_strand: bool,
) -> Seq<SplicedRecord> {
    let rows = exons_in_order(chrs, starts, ends, strand_flags);
    lowered_by_row(
        kept_upto(rows, slice_starts, slice_ends, force_plus_strand, rows.len() as int),
        shift_of(starts, ends),
    )
}

/// The exons in the order of transcription, raised so that no coordinate
/// lies below zero.
fn exons_of(
    chrs: &[GroupType],
    starts: &[PositionType],
    ends: &[PositionType],
    strand_flags: &[bool],
) -> (rows: Vec<SplicedSubsequenceInterval>)
    requires
        chrs.len() == starts.len(),
        chrs.len() == ends.len(),
        chrs.len() == strand_flags.len(),
        chrs.len() <= u32::MAX,
    ensures
        rows@ == exons_in_order(chrs@, starts@, ends@, strand_flags@),
        rows.len() == chrs.len(),
        forall|p: int| 0 <= p < rows.len() ==> (#[trigger] rows[p]).idx < chrs.len(),
{
    let by = global_shift(starts, ends);
    let rows = if by > 0 {
        let s = shifted(starts, by);
        let e = shifted(ends, by);
        proof {
            let built = subsequence_rows(
                chrs@,
                shift(starts@, by as int),
                shift(ends@, by as int),
                strand_flags@,
            );
            lemma_reorder_members(
                built,
                Seq::new(built.len(), |r: int| subsequence_key(built[r])),
            );
        }
        build_sorted_subsequence_intervals(chrs, s.as_slice(), e.as_slice(), strand_flags)
    } else {
        proof {
            let built = subsequence_rows(chrs@, starts@, ends@, strand_flags@);
            lemma_reorder_members(
                built,
                Seq::new(built.len(), |r: int| subsequence_key(built[r])),
            );
        }
        build_sorted_subsequence_intervals(chrs, starts, ends, strand_flags)
    };
    proof {
        assert forall|p: int| 0 <= p < rows.len() implies (#[trigger] rows[p]).idx
            < chrs.len() by {
            let built = if by > 0 {
                subsequence_rows(
                    chrs@,
                    shift(starts@, by as int),
                    shift(ends@, by as int),
                    strand_flags@,
                )
            } else {
                subsequence_rows(chrs@, starts@, ends@, strand_flags@)
            };
            assert(built.contains(rows[p]));
            let r = choose|r: int| 0 <= r < built.len() && built[r] == rows[p];
            assert(rows[p].idx == r as u32);
        }
    }
    rows
}

/// Cuts a stretch out of each transcript and returns what it keeps of the
/// exons as four columns: row, start, end and strand, by row. The exons of
/// a transcript are its rows, in the order of their coordinates, on the
/// reverse strand from the greatest down. The stretch of a transcript is
/// that given with the row of its first exon; it is counted along the
/// exons laid end to end, from the end of the transcript where negative,
/// and runs to the end where no end is given. With `force_plus_strand`
/// every exon is cut as if on the forward strand.
pub fn spliced_subseq_multi(
    chrs: &[GroupType],
    starts: &[PositionType],
    ends: &[PositionType],
    strand_flags: &[bool],
    slice_starts: &[PositionType],
    slice_ends: &[Option<PositionType>],
    force_plus_strand: bool,
) -> (out: (Vec<u32>, Vec<PositionType>, Vec<PositionType>, Vec<bool>))
    requires
        chrs.len() == starts.len(),
        starts.len() == ends.len(),
        ends.len() == strand_flags.len(),
        strand_flags.len() == slice_starts.len(),
        slice_starts.len() == slice_ends.len(),
        chrs.len() <= u32::MAX,
    ensures
        ({
            let found = spliced_stretches(
                chrs@,
                starts@,
                ends@,
                strand_flags@,
                slice_starts@,
                slice_ends@,
                force_plus_strand,
            );
            &&& out.0@ == Seq::new(found.len(), |k: int| found[k].idx)
            &&& out.1@ == Seq::new(found.len(), |k: int| found[k].start)
            &&& out.2@ == Seq::new(found.len(), |k: int| found[k].end)
            &&& out.3@ == Seq::new(found.len(), |k: int| found[k].strand)
        }),
{
    let by = global_shift(starts, ends);
    let intervals = exons_of(chrs, starts, ends, strand_flags);
    let ghost rows = intervals@;
    let n = intervals.len();
    // the summed lengths up to each exon, and the first exon of its transcript
    let mut cumsum: Vec<i64> = Vec::new();
    let mut first: Vec<usize> = Vec::new();
    let mut p: usize = 0;
    while p < n
        invariant
            p <= n,
            n == intervals.len(),
            rows == intervals@,
            cumsum.len() == p,
            first.len() == p,
            forall|q: int| 0 <= q < p ==> #[trigger] cumsum[q] == length_upto(rows, q),
            forall|q: int| 0 <= q < p ==> #[trigger] first[q] == first_exon(rows, q),
            forall|q: int| 0 <= q < p ==> 0 <= #[trigger] first_exon(rows, q) <= q,
        decreases n - p,
    {
        let iv = intervals[p];
        let len = sat_sub(sat_abs(iv.end), sat_abs(iv.start));
        let fresh = p == 0 || iv.chr != intervals[p - 1].chr;
        let running = if fresh { 0 } else { cumsum[p - 1] };
        let begin = if fresh { p } else { first[p - 1] };
        cumsum.push(sat_add(running, len));
        first.push(begin);
        p += 1;
    }
    // the length of the transcript of each exon
    let mut totals: Vec<i64> = Vec::new();
    let mut z: usize = 0;
    while z < n
        invariant
            z <= n,
            totals.len() == z,
        decreases n - z,
    {
        totals.push(0);
        z += 1;
    }
    let mut b: usize = n;
    while b > 0
        invariant
            b <= n,
            n == intervals.len(),
            rows == intervals@,
            cumsum.len() == n,
            totals.len() == n,
            forall|q: int| 0 <= q < n ==> #[trigger] cumsum[q] == length_upto(rows, q),
            forall|q: int| b <= q < n ==> #[trigger] totals[q] == transcript_length(rows, q),
        decreases b,
    {
        b -= 1;
        let last = b + 1 >= n || intervals[b + 1].chr != intervals[b].chr;
        let total = if last { cumsum[b] } else { totals[b + 1] };
        totals.set(b, total);
    }
    let mut found: Vec<SplicedRecord> = Vec::new();
    let mut t: usize = 0;
    while t < n
        invariant
            t <= n,
            n == intervals.len(),
            n == chrs.len(),
            n == slice_starts.len(),
            n == slice_ends.len(),
            rows == intervals@,
            cumsum.len() == n,
            totals.len() == n,
            first.len() == n,
            forall|q: int| 0 <= q < n ==> #[trigger] cumsum[q] == length_upto(rows, q),
            forall|q: int| 0 <= q < n ==> #[trigger] totals[q] == transcript_length(rows, q),
            forall|q: int| 0 <= q < n ==> #[trigger] first[q] == first_exon(rows, q),
            forall|q: int| 0 <= q < n ==> 0 <= #[trigger] first_exon(rows, q) <= q,
            forall|q: int| 0 <= q < n ==> (#[trigger] rows[q]).idx < n,
            found@ == kept_upto(rows, slice_starts@, slice_ends@, force_plus_strand, t as int),
        decreases n - t,
    {
        let iv = intervals[t];
        assert(0 <= first_exon(rows, t as int) <= t);
        let lead = intervals[first[t]];
        let row = lead.idx as usize;
        assert(rows[first[t as int] as int].idx < n);
        let slice_start = slice_starts[row];
        let slice_end = slice_ends[row];
        let total_len = totals[t];
        let end_val = match slice_end {
            Some(e) => e,
            None => total_len,
        };
        let global_start = if slice_start < 0 { sat_add(total_len, slice_start) } else { slice_start };
        let global_end = if end_val < 0 { sat_add(total_len, end_val) } else { end_val };
        let a_start = sat_abs(iv.start);
        let a_end = sat_abs(iv.end);
        let length = sat_sub(a_end, a_start);
        let cumsum_end = cumsum[t];
        let cumsum_start = sat_sub(cumsum_end, length);
        let from_start = sat_sub(global_start, cumsum_start);
        let from_end = sat_sub(cumsum_end, global_end);
        let forward = force_plus_strand || iv.forward_strand;
        let cut_left = if forward { from_start } else { from_end };
        let cut_right = if forward { from_end } else { from_start };
        let st = if cut_left > 0 { sat_add(a_start, cut_left) } else { a_start };
        let en = if cut_right > 0 { sat_sub(a_end, cut_right) } else { a_end };
        if st < en {
            found.push(
                SplicedRecord { idx: iv.idx, start: st, end: en, strand: iv.forward_strand == forward },
            );
        }
        t += 1;
    }
    let mut keys: Vec<(i64, i64, i64)> = Vec::new();
    let mut i: usize = 0;
    while i < found.len()
        invariant
            i <= found.len(),
            keys.len() == i,
            forall|k: int| 0 <= k < i ==> #[trigger] keys[k] == (found[k].idx as i64, 0i64, 0i64),
        decreases found.len() - i,
    {
        keys.push((found[i].idx as i64, 0, 0));
        i += 1;
    }
    assert(keys@ =~= Seq::new(found.len() as nat, |k: int| (found[k].idx as i64, 0i64, 0i64)));
    let sorted = sort_rows(&found, &keys);
    let mut out_idxs: Vec<u32> = Vec::new();
    let mut out_starts: Vec<i64> = Vec::new();
    let mut out_ends: Vec<i64> = Vec::new();
    let mut out_strands: Vec<bool> = Vec::new();
    let ghost all = lowered_by_row(found@, by);
    let mut k: usize = 0;
    while k < sorted.len()
        invariant
            k <= sorted.len(),
            sorted@ == reorder(
                found@,
                stable_order(Seq::new(found@.len(), |k: int| (found@[k].idx as i64, 0i64, 0i64))),
            ),
            all == lowered_by_row(found@, by),
            out_idxs.len() == k,
            out_starts.len() == k,
            out_ends.len() == k,
            out_strands.len() == k,
            forall|j: int| 0 <= j < k ==> #[trigger] out_idxs[j] == all[j].idx,
            forall|j: int| 0 <= j < k ==> #[trigger] out_starts[j] == all[j].start,
            forall|j: int| 0 <= j < k ==> #[trigger] out_ends[j] == all[j].end,
            forall|j: int| 0 <= j < k ==> #[trigger] out_strands[j] == all[j].strand,
        decreases sorted.len() - k,
    {
        let rec = sorted[k];
        out_idxs.push(rec.idx);
        out_starts.push(if by > 0 { sat_sub(rec.start, by) } else { rec.start });
        out_ends.push(if by > 0 { sat_sub(rec.end, by) } else { rec.end });
        out_strands.push(rec.strand);
        k += 1;
    }
    proof {
        assert(all.len() == sorted.len());
        assert(out_idxs@ =~= Seq::new(all.len(), |k: int| all[k].idx));
        assert(out_starts@ =~= Seq::new(all.len(), |k: int| all[k].start));
        assert(out_ends@ =~= Seq::new(all.len(), |k: int| all[k].end));
        assert(out_strands@ =~= Seq::new(all.len(), |k: int| all[k].strand));
    }
    (out_idxs, out_starts, out_ends, out_strands)
}

/// As `spliced_subseq_multi`, with one stretch for all transcripts: from
/// `start` to `end`.
pub fn spliced_subseq(
    chrs: &[GroupType],
    starts: &[PositionType],
    ends: &[PositionType],
    strand_flags: &[bool],
    start: PositionType,
    end: Option<PositionType>,
    force_plus_strand: bool,
) -> (out: (Vec<u32>, Vec<PositionType>, Vec<PositionType>, Vec<bool>))
    requires
        chrs.len() == starts.len(),
        starts.len() == ends.len(),
        ends.len() == strand_flags.len(),
        chrs.len() <= u32::MAX,
    ensures
        ({
            let found = spliced_stretches(
                chrs@,
                starts@,
                ends@,
                strand_flags@,
                Seq::new(chrs.len() as nat, |i: int| start),
                Seq::new(chrs.len() as nat, |i: int| end),
                force_plus_strand,
            );
            &&& out.0@ == Seq::new(found.len(), |k: int| found[k].idx)
            &&& out.1@ == Seq::new(found.len(), |k: int| found[k].start)
            &&& out.2@ == Seq::new(found.len(), |k: int| found[k].end)
            &&& out.3@ == Seq::new(found.len(), |k: int| found[k].strand)
        }),
{
    let mut slice_starts: Vec<i64> = Vec::new();
    let mut slice_ends: Vec<Option<i64>> = Vec::new();
    let mut i: usize = 0;
    while i < chrs.len()
        invariant
            i <= chrs.len(),
            slice_starts.len() == i,
            slice_ends.len() == i,
            forall|k: int| 0 <= k < i ==> #[trigger] slice_starts[k] == start,
            forall|k: int| 0 <= k < i ==> #[trigger] slice_ends[k] == end,
        decreases chrs.len() - i,
    {
        slice_starts.push(start);
        slice_ends.push(end);
        i += 1;
    }
    assert(slice_starts@ =~= Seq::new(chrs.len() as nat, |i: int| start));
    assert(slice_ends@ =~= Seq::new(chrs.len() as nat, |i: int| end));
    spliced_subseq_multi(
        chrs,
        starts,
        ends,
        strand_flags,
        slice_starts.as_slice(),
        slice_ends.as_slice(),
        force_plus_strand,
    )
}

} // verus!
