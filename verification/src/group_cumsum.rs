//! Cumulative lengths of the intervals of each group.

use crate::arith::{clamp, sat_add, sat_sub};
use crate::radix::{reorder, sort_rows, stable_order};
use crate::ruranges_structs::{GroupType, MinInterval, PositionType, SplicedSubsequenceInterval};
use crate::sorts::{build_subsequence_intervals, subsequence_rows};
use vstd::prelude::*;

verus! {

/// The rows of a table by group and start, starts on the reverse strand
/// counting downwards.
pub open spec fn rows_by_group_and_start(rows: Seq<SplicedSubsequenceInterval>) -> Seq<
    SplicedSubsequenceInterval,
> {
    reorder(rows, stable_order(Seq::new(rows.len(), |r: int| (rows[r].chr, rows[r].start, 0i64))))
}

/// The length of an interval, whichever of its ends is the greater.
pub open spec fn span(iv: SplicedSubsequenceInterval) -> i64 {
    if iv.end >= iv.start {
        clamp(iv.end - iv.start)
    } else {
        clamp(iv.start - iv.end)
    }
}

/// The summed lengths of the rows of the group of row `t` that stand before it.
pub open spec fn length_before(rows: Seq<SplicedSubsequenceInterval>, t: int) -> i64
    decreases t,
{
    if t <= 0 || rows[t].chr != rows[t - 1].chr {
        0
    } else {
        clamp(length_before(rows, t - 1) + span(rows[t - 1]))
    }
}

/// Each row with the stretch that it takes among the summed lengths of its group.
pub open spec fn summed(rows: Seq<SplicedSubsequenceInterval>) -> Seq<MinInterval> {
    Seq::new(
        rows.len(),
        |t: int|
            MinInterval {
                start: length_before(rows, t),
                end: clamp(length_before(rows, t) + span(rows[t])),
                idx: rows[t].idx,
            },
    )
}

/// The stretches by row.
pub open spec fn stretches_by_row(found: Seq<MinInterval>) -> Seq<MinInterval> {
    reorder(found, stable_order(Seq::new(found.len(), |k: int| (found[k].idx as i64, 0i64, 0i64))))
}

/// What `sweep_line_cumsum` returns, as rows.
pub open spec fn cumulative_lengths(
    chrs: Seq<i64>,
    starts: Seq<i64>,
    ends: Seq<i64>,
    strand_flags: Seq<bool>,
    sort: bool,
) -> Seq<MinInterval> {
    let found = summed(rows_by_group_and_start(subsequence_rows(chrs, starts, ends, strand_flags)));
    if sort {
        stretches_by_row(found)
    } else {
        found
    }
}

/// Lays the intervals of each group end to end, in the order of their
/// starts, on the reverse strand from the greatest start down, and returns
/// for each row where it then begins and ends: row, start and end. With
/// `sort` the rows come by row number, else in the order in which they
/// were laid.
pub fn sweep_line_cumsum(
    chrs: &[GroupType],
    starts: &[PositionType],
    ends: &[PositionType],
    strand_flags: &[bool],
    sort: bool,
) -> (out: (Vec<u32>, Vec<PositionType>, Vec<PositionType>))
    requires
        chrs.len() == starts.len(),
        chrs.len() == ends.len(),
        chrs.len() == strand_flags.len(),
        chrs.len() <= u32::MAX,
    ensures
        out.0@ == Seq::new(
            chrs.len() as nat,
            |k: int| cumulative_lengths(chrs@, starts@, ends@, strand_flags@, sort)[k].idx,
        ),
        out.1@ == Seq::new(
            chrs.len() as nat,
            |k: int| cumulative_lengths(chrs@, starts@, ends@, strand_flags@, sort)[k].start,
        ),
        out.2@ == Seq::new(
            chrs.len() as nat,
            |k: int| cumulative_lengths(chrs@, starts@, ends@, strand_flags@, sort)[k].end,
        ),
{
    let built = build_subsequence_intervals(chrs, starts, ends, strand_flags);
    let mut keys: Vec<(i64, i64, i64)> = Vec::new();
    let mut i: usize = 0;
    while i < built.len()
        invariant
            i <= built.len(),
            keys.len() == i,
            forall|r: int| 0 <= r < i ==> #[trigger] keys[r] == (built[r].chr, built[r].start, 0i64),
        decreases built.len() - i,
    {
        keys.push((built[i].chr, built[i].start, 0));
        i += 1;
    }
    assert(keys@ =~= Seq::new(
        built.len() as nat,
        |r: int| (built[r].chr, built[r].start, 0i64),
    ));
    let ivals = sort_rows(&built, &keys);
    let ghost rows = ivals@;
    let mut results: Vec<MinInterval> = Vec::new();
    let mut running_total: i64 = 0;
    let mut t: usize = 0;
    while t < ivals.len()
        invariant
            t <= ivals.len(),
            rows == ivals@,
            results.len() == t,
            t < ivals.len() ==> running_total == (if t == 0 {
                0
            } else {
                clamp(length_before(rows, t - 1) + span(rows[t - 1]))
            }),
            forall|k: int| 0 <= k < t ==> #[trigger] results[k] == summed(rows)[k],
        decreases ivals.len() - t,
    {
        let iv = ivals[t];
        if t > 0 && iv.chr != ivals[t - 1].chr {
            running_total = 0;
        }
        let len = if iv.end >= iv.start {
            sat_sub(iv.end, iv.start)
        } else {
            sat_sub(iv.start, iv.end)
        };
        let s = running_total;
        let e = sat_add(running_total, len);
        results.push(MinInterval { idx: iv.idx, start: s, end: e });
        running_total = e;
        t += 1;
    }
    assert(results@ =~= summed(rows));
    let ordered = if sort {
        let mut row_keys: Vec<(i64, i64, i64)> = Vec::new();
        let mut q: usize = 0;
        while q < results.len()
            invariant
                q <= results.len(),
                row_keys.len() == q,
                forall|k: int|
                    0 <= k < q ==> #[trigger] row_keys[k] == (results[k].idx as i64, 0i64, 0i64),
            decreases results.len() - q,
        {
            row_keys.push((results[q].idx as i64, 0, 0));
            q += 1;
        }
        assert(row_keys@ =~= Seq::new(
            results.len() as nat,
            |k: int| (results[k].idx as i64, 0i64, 0i64),
        ));
        sort_rows(&results, &row_keys)
    } else {
        results
    };
    assert(ordered@ == cumulative_lengths(chrs@, starts@, ends@, strand_flags@, sort));
    let mut out_idxs: Vec<u32> = Vec::new();
    let mut out_starts: Vec<i64> = Vec::new();
    let mut out_ends: Vec<i64> = Vec::new();
    let mut k: usize = 0;
    while k < ordered.len()
        invariant
            k <= ordered.len(),
            out_idxs.len() == k,
            out_starts.len() == k,
            out_ends.len() == k,
            forall|j: int| 0 <= j < k ==> #[trigger] out_idxs[j] == ordered[j].idx,
            forall|j: int| 0 <= j < k ==> #[trigger] out_starts[j] == ordered[j].start,
            forall|j: int| 0 <= j < k ==> #[trigger] out_ends[j] == ordered[j].end,
        decreases ordered.len() - k,
    {
        out_idxs.push(ordered[k].idx);
        out_starts.push(ordered[k].start);
        out_ends.push(ordered[k].end);
        k += 1;
    }
    proof {
        let all = cumulative_lengths(chrs@, starts@, ends@, strand_flags@, sort);
        assert(ordered.len() == chrs.len());
        assert(out_idxs@ =~= Seq::new(chrs.len() as nat, |k: int| all[k].idx));
        assert(out_starts@ =~= Seq::new(chrs.len() as nat, |k: int| all[k].start));
        assert(out_ends@ =~= Seq::new(chrs.len() as nat, |k: int| all[k].end));
    }
    (out_idxs, out_starts, out_ends)
}

} // verus!
