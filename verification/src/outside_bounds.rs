//! Intervals held against the lengths of their groups: those that reach
//! beyond are dropped or clipped.

use crate::ruranges_structs::{GroupType, MinInterval, PositionType};
use std::collections::HashMap;
use vstd::prelude::*;

verus! {

/// What becomes of the interval `start..end` in a group of length `size`.
/// Without `clip` it is dropped where it reaches beyond the end of the
/// group or, unless `only_right`, begins before zero. With `clip` it is cut
/// to the group, and dropped where nothing of it lies within.
pub open spec fn bounded(start: i64, end: i64, size: i64, clip: bool, only_right: bool) -> Option<
    (i64, i64),
> {
    if !clip {
        if end > size || (!only_right && start < 0) {
            None
        } else {
            Some((start, end))
        }
    } else if only_right {
        if start >= size {
            None
        } else {
            Some((start, if end > size { size } else { end }))
        }
    } else {
        if start >= size || end <= 0 {
            None
        } else {
            Some((if start < 0 { 0i64 } else { start }, if end > size { size } else { end }))
        }
    }
}

/// What is left of the first `t` rows, in their order.
pub open spec fn bounded_rows(
    starts: Seq<i64>,
    ends: Seq<i64>,
    chrom_lens: Seq<i64>,
    clip: bool,
    only_right: bool,
    t: int,
) -> Seq<MinInterval>
    decreases t,
{
    if t <= 0 {
        Seq::empty()
    } else {
        let before = bounded_rows(starts, ends, chrom_lens, clip, only_right, t - 1);
        match bounded(starts[t - 1], ends[t - 1], chrom_lens[t - 1], clip, only_right) {
            Some((s, e)) => before.push(MinInterval { start: s, end: e, idx: (t - 1) as u32 }),
            None => before,
        }
    }
}

/// The message for columns of different lengths.
pub open spec fn length_mismatch() -> Seq<char> {
    "All input slices must have the same length"@
}

/// Holds each interval against the length of its group, given row by row in
/// `chrom_lens`, and returns what is left as three columns: row, start, end.
/// Fails where the columns differ in length.
pub fn outside_bounds(
    groups: &[GroupType],
    starts: &[PositionType],
    ends: &[PositionType],
    chrom_lens: &[PositionType],
    clip: bool,
    only_right: bool,
) -> (res: Result<(Vec<u32>, Vec<PositionType>, Vec<PositionType>), String>)
    requires
        starts.len() <= u32::MAX,
    ensures
        res is Err <==> (starts.len() != ends.len() || groups.len() != starts.len()
            || chrom_lens.len() != starts.len()),
        res is Err ==> res->Err_0@ == length_mismatch(),
        res is Ok ==> {
            let rows = bounded_rows(
                starts@,
                ends@,
                chrom_lens@,
                clip,
                only_right,
                starts.len() as int,
            );
            &&& res->Ok_0.0@ == Seq::new(rows.len(), |k: int| rows[k].idx)
            &&& res->Ok_0.1@ == Seq::new(rows.len(), |k: int| rows[k].start)
            &&& res->Ok_0.2@ == Seq::new(rows.len(), |k: int| rows[k].end)
        },
{
    if starts.len() != ends.len() || groups.len() != starts.len() || chrom_lens.len()
        != starts.len() {
        return Err("All input slices must have the same length".to_owned());
    }
    let n = starts.len();
    let mut idx: Vec<u32> = Vec::new();
    let mut out_starts: Vec<i64> = Vec::new();
    let mut out_ends: Vec<i64> = Vec::new();
    let mut i: usize = 0;
    while i < n
        invariant
            i <= n,
            n == starts.len(),
            n == ends.len(),
            n == chrom_lens.len(),
            n <= u32::MAX,
            idx.len() == bounded_rows(starts@, ends@, chrom_lens@, clip, only_right, i as int).len(),
            out_starts.len() == idx.len(),
            out_ends.len() == idx.len(),
            forall|k: int|
                0 <= k < idx.len() ==> #[trigger] idx[k] == bounded_rows(
                    starts@,
                    ends@,
                    chrom_lens@,
                    clip,
                    only_right,
                    i as int,
                )[k].idx,
            forall|k: int|
                0 <= k < idx.len() ==> #[trigger] out_starts[k] == bounded_rows(
                    starts@,
                    ends@,
                    chrom_lens@,
                    clip,
                    only_right,
                    i as int,
                )[k].start,
            forall|k: int|
                0 <= k < idx.len() ==> #[trigger] out_ends[k] == bounded_rows(
                    starts@,
                    ends@,
                    chrom_lens@,
                    clip,
                    only_right,
                    i as int,
                )[k].end,
        decreases n - i,
    {
        let size = chrom_lens[i];
        let orig_start = starts[i];
        let orig_end = ends[i];
        if !clip {
            let skip = if only_right {
                orig_end > size
            } else {
                orig_end > size || orig_start < 0
            };
            if !skip {
                idx.push(i as u32);
                out_starts.push(orig_start);
                out_ends.push(orig_end);
            }
        } else if only_right {
            if orig_start < size {
                let clipped_end = if orig_end > size { size } else { orig_end };
                idx.push(i as u32);
                out_starts.push(orig_start);
                out_ends.push(clipped_end);
            }
        } else {
            if !(orig_start >= size || orig_end <= 0) {
                let clipped_start = if orig_start < 0 { 0 } else { orig_start };
                let clipped_end = if orig_end > size { size } else { orig_end };
                idx.push(i as u32);
                out_starts.push(clipped_start);
                out_ends.push(clipped_end);
            }
        }
        i += 1;
    }
    proof {
        let rows = bounded_rows(starts@, ends@, chrom_lens@, clip, only_right, n as int);
        assert(idx@ =~= Seq::new(rows.len(), |k: int| rows[k].idx));
        assert(out_starts@ =~= Seq::new(rows.len(), |k: int| rows[k].start));
        assert(out_ends@ =~= Seq::new(rows.len(), |k: int| rows[k].end));
    }
    Ok((idx, out_starts, out_ends))
}


/// The length that the first `t` entries of a table of lengths give for
/// group `g`: that of the last entry for the group.
pub open spec fn length_in(chrom_ids: Seq<i64>, chrom_length: Seq<i64>, g: i64, t: int) -> Option<
    i64,
>
    decreases t,
{
    if t <= 0 {
        None
    } else if chrom_ids[t - 1] == g {
        Some(chrom_length[t - 1])
    } else {
        length_in(chrom_ids, chrom_length, g, t - 1)
    }
}

/// The first of the first `t` rows whose group has no length, if there is one.
pub open spec fn first_unknown(
    groups: Seq<i64>,
    chrom_ids: Seq<i64>,
    chrom_length: Seq<i64>,
    t: int,
) -> Option<int>
    decreases t,
{
    if t <= 0 {
        None
    } else {
        match first_unknown(groups, chrom_ids, chrom_length, t - 1) {
            Some(i) => Some(i),
            None => if length_in(
                chrom_ids,
                chrom_length,
                groups[t - 1],
                chrom_ids.len() as int,
            ) is None {
                Some(t - 1)
            } else {
                None
            },
        }
    }
}

/// The length of the group of each row, from a table that gives the length
/// of each group. Where the table has no length for the group of a row, the
/// group of the first such row is returned as the error.
pub fn group_lengths(groups: &[GroupType], chrom_ids: &[GroupType], chrom_length: &[PositionType]) -> (res:
    Result<Vec<PositionType>, GroupType>)
    requires
        chrom_ids.len() == chrom_length.len(),
    ensures
        match first_unknown(groups@, chrom_ids@, chrom_length@, groups.len() as int) {
            Some(i) => res == Err::<Vec<PositionType>, GroupType>(groups[i]),
            None => res is Ok && res->Ok_0@.len() == groups.len() && forall|i: int|
                0 <= i < groups.len() ==> Some(#[trigger] res->Ok_0@[i]) == length_in(
                    chrom_ids@,
                    chrom_length@,
                    groups[i],
                    chrom_ids.len() as int,
                ),
        },
{
    broadcast use vstd::std_specs::hash::group_hash_axioms;

    let mut table: HashMap<i64, i64> = HashMap::new();
    let mut j: usize = 0;
    while j < chrom_ids.len()
        invariant
            j <= chrom_ids.len(),
            chrom_ids.len() == chrom_length.len(),
            forall|g: i64|
                (#[trigger] table@.contains_key(g)) == (length_in(
                    chrom_ids@,
                    chrom_length@,
                    g,
                    j as int,
                ) is Some),
            forall|g: i64| #[trigger]
                table@.contains_key(g) ==> Some(table@[g]) == length_in(
                    chrom_ids@,
                    chrom_length@,
                    g,
                    j as int,
                ),
        decreases chrom_ids.len() - j,
    {
        table.insert(chrom_ids[j], chrom_length[j]);
        j += 1;
    }
    let mut lens: Vec<i64> = Vec::new();
    let mut i: usize = 0;
    while i < groups.len()
        invariant
            i <= groups.len(),
            forall|g: i64|
                (#[trigger] table@.contains_key(g)) == (length_in(
                    chrom_ids@,
                    chrom_length@,
                    g,
                    chrom_ids.len() as int,
                ) is Some),
            forall|g: i64| #[trigger]
                table@.contains_key(g) ==> Some(table@[g]) == length_in(
                    chrom_ids@,
                    chrom_length@,
                    g,
                    chrom_ids.len() as int,
                ),
            first_unknown(groups@, chrom_ids@, chrom_length@, i as int) is None,
            lens.len() == i,
            forall|k: int|
                0 <= k < i ==> Some(#[trigger] lens[k]) == length_in(
                    chrom_ids@,
                    chrom_length@,
                    groups[k],
                    chrom_ids.len() as int,
                ),
        decreases groups.len() - i,
    {
        let g = groups[i];
        match table.get(&g) {
            Some(len) => {
                lens.push(*len);
            },
            None => {
                proof {
                    assert(first_unknown(groups@, chrom_ids@, chrom_length@, i + 1) == Some(
                        i as int,
                    ));
                    lemma_first_unknown_stays(
                        groups@,
                        chrom_ids@,
                        chrom_length@,
                        i + 1,
                        groups.len() as int,
                    );
                }
                return Err(g);
            },
        }
        i += 1;
    }
    Ok(lens)
}

proof fn lemma_first_unknown_stays(
    groups: Seq<i64>,
    chrom_ids: Seq<i64>,
    chrom_length: Seq<i64>,
    t: int,
    n: int,
)
    requires
        0 <= t <= n,
        first_unknown(groups, chrom_ids, chrom_length, t) is Some,
    ensures
        first_unknown(groups, chrom_ids, chrom_length, n) == first_unknown(
            groups,
            chrom_ids,
            chrom_length,
            t,
        ),
    decreases n - t,
{
    if t < n {
        lemma_first_unknown_stays(groups, chrom_ids, chrom_length, t, n - 1);
    }
}

} // verus!
