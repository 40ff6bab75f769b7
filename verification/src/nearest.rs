//! The nearest-neighbour join: for each row of one table, the rows of
//! another that lie nearest to it, to the left, to the right or both.

use crate::arith::{clamp, sat_add, sat_sub};
use crate::nearest_laws::{
    holds_left_hits, holds_left_neighbours, holds_right_hits, holds_right_neighbours, in_order,
    lemma_left_hits, lemma_left_neighbours, lemma_positions_in_order, lemma_right_hits,
    lemma_right_neighbours,
};
use crate::neighbour_laws::{
    keeps_nearest, lemma_by_left_row, lemma_by_row_then_distance, lemma_merged_keeps_nearest,
    pairs_in_order, rows_in_order,
};
use crate::overlap_laws::slack_tables;
use crate::overlaps::{
    by_left_row, four_way_merge, is_sweep_output, sort_pairs_by_left_row,
    sweep_line_overlaps_overlap_pair,
};
use crate::radix::{reorder, sort_rows, stable_order};
use crate::ruranges_structs::{
    lowercase, lowercased, read_as, GroupType, MinEvent, Nearest, OverlapPair, PositionType,
};
use crate::sorts::{
    build_sorted_events_single_collection_separate_outputs, position_events, shift, shifted,
    sorted_min_events,
};
use crate::stream_laws::{lemma_streams_find_overlaps, merged_sweep};
use std::collections::HashSet;
use vstd::prelude::*;

verus! {

/// The direction in which neighbours are looked for.
#[derive(Copy, Clone, Debug, PartialEq, Eq, Structural)]
pub enum Direction {
    Forward,
    Backward,
    Any,
}

/// The direction that a lowercase word names.
pub open spec fn direction_of(lower: Seq<char>) -> Option<Direction> {
    if lower == "forward"@ {
        Some(Direction::Forward)
    } else if lower == "backward"@ {
        Some(Direction::Backward)
    } else if lower == "any"@ {
        Some(Direction::Any)
    } else {
        None
    }
}

impl Direction {
    /// Reads a word that is already in lowercase: `forward`, `backward` or `any`.
    pub fn from_lowercase(lower: &str) -> (res: Result<Direction, &'static str>)
        ensures
            read_as(direction_of(lower@), res),
    {
        let word = lower.to_owned();
        proof {
            reveal_strlit("forward");
            reveal_strlit("backward");
            reveal_strlit("any");
        }
        if word == "forward".to_owned() {
            Ok(Direction::Forward)
        } else if word == "backward".to_owned() {
            Ok(Direction::Backward)
        } else if word == "any".to_owned() {
            Ok(Direction::Any)
        } else {
            Err("Invalid direction string")
        }
    }

    /// Reads `forward`, `backward` or `any`, in any mix of upper and lower case.
    pub fn parse(s: &str) -> (res: Result<Direction, &'static str>)
        ensures
            read_as(direction_of(lowercase(s@)), res),
    {
        let lower = lowercased(s);
        Direction::from_lowercase(lower.as_str())
    }
}

impl std::str::FromStr for Direction {
    type Err = &'static str;

    fn from_str(s: &str) -> (res: Result<Self, Self::Err>)
        ensures
            read_as(direction_of(lowercase(s@)), res),
    {
        Direction::parse(s)
    }
}

/// `s` lies before `e` in the order of groups and positions.
pub open spec fn lies_before(s: MinEvent, e: MinEvent) -> bool {
    s.chr < e.chr || (s.chr == e.chr && s.pos < e.pos)
}

/// The distance from `from` up to `to`: one more than their difference, so
/// that positions that touch are at distance one.
pub open spec fn reach(from: i64, to: i64) -> i64 {
    clamp(clamp(to - from) + 1)
}

/// Where a pointer that stood at `j` stands once it has passed everything
/// that lies before `e`.
pub open spec fn advance(others: Seq<MinEvent>, j: int, e: MinEvent) -> int
    decreases others.len() - j,
{
    if 0 <= j < others.len() && lies_before(others[j], e) {
        advance(others, j + 1, e)
    } else {
        j
    }
}

/// Where the pointer stands when it has been advanced for each of the first
/// `t` rows in turn. It never moves back.
pub open spec fn pointer(rows: Seq<MinEvent>, others: Seq<MinEvent>, t: int) -> int
    decreases t,
{
    if t <= 0 {
        0
    } else {
        advance(others, pointer(rows, others, t - 1), rows[t - 1])
    }
}

/// What a scan to the right from place `from` finds for `e`: the items of
/// the group of `e`, up to `k` different positions of them, with their
/// distances from `e`. `seen` positions have been met so far, the last of
/// them `last`.
pub open spec fn scan_right(
    others: Seq<MinEvent>,
    from: int,
    e: MinEvent,
    k: nat,
    seen: nat,
    last: Option<i64>,
) -> Seq<Nearest>
    decreases others.len() - from,
{
    if from < 0 || from >= others.len() || others[from].chr != e.chr {
        Seq::empty()
    } else {
        let s = others[from];
        let fresh = last is None || s.pos != last->0;
        let seen_now = if fresh { seen + 1 } else { seen };
        if fresh && seen_now > k {
            Seq::empty()
        } else {
            seq![Nearest { distance: reach(e.pos, s.pos), idx: e.idx, idx2: s.idx }] + scan_right(
                others,
                from + 1,
                e,
                k,
                seen_now,
                Some(s.pos),
            )
        }
    }
}

/// What a scan to the left from place `from` finds for `e`.
pub open spec fn scan_left(
    others: Seq<MinEvent>,
    from: int,
    e: MinEvent,
    k: nat,
    seen: nat,
    last: Option<i64>,
) -> Seq<Nearest>
    decreases from + 1,
{
    if from < 0 || from >= others.len() || others[from].chr != e.chr {
        Seq::empty()
    } else {
        let s = others[from];
        let fresh = last is None || s.pos != last->0;
        let seen_now = if fresh { seen + 1 } else { seen };
        if fresh && seen_now > k {
            Seq::empty()
        } else {
            seq![Nearest { distance: reach(s.pos, e.pos), idx: e.idx, idx2: s.idx }] + scan_left(
                others,
                from - 1,
                e,
                k,
                seen_now,
                Some(s.pos),
            )
        }
    }
}

/// What the first `t` rows find to their right.
pub open spec fn right_hits(rows: Seq<MinEvent>, others: Seq<MinEvent>, k: nat, t: int) -> Seq<
    Nearest,
>
    decreases t,
{
    if t <= 0 {
        Seq::empty()
    } else {
        right_hits(rows, others, k, t - 1) + scan_right(
            others,
            pointer(rows, others, t),
            rows[t - 1],
            k,
            0,
            None,
        )
    }
}

/// What the first `t` rows find to their left.
pub open spec fn left_hits(rows: Seq<MinEvent>, others: Seq<MinEvent>, k: nat, t: int) -> Seq<
    Nearest,
>
    decreases t,
{
    if t <= 0 {
        Seq::empty()
    } else {
        left_hits(rows, others, k, t - 1) + scan_left(
            others,
            pointer(rows, others, t) - 1,
            rows[t - 1],
            k,
            0,
            None,
        )
    }
}

proof fn lemma_advance_bounds(others: Seq<MinEvent>, j: int, e: MinEvent)
    requires
        0 <= j <= others.len(),
    ensures
        j <= advance(others, j, e) <= others.len(),
    decreases others.len() - j,
{
    if j < others.len() && lies_before(others[j], e) {
        lemma_advance_bounds(others, j + 1, e);
    }
}

/// Moves the pointer past everything that lies before `e`.
fn advance_pointer(others: &Vec<MinEvent>, from: usize, e: MinEvent) -> (j: usize)
    requires
        from <= others.len(),
    ensures
        j == advance(others@, from as int, e),
        from <= j <= others.len(),
{
    let mut j = from;
    while j < others.len() && (others[j].chr < e.chr || (others[j].chr == e.chr && others[j].pos
        < e.pos))
        invariant
            from <= j <= others.len(),
            advance(others@, j as int, e) == advance(others@, from as int, e),
        decreases others.len() - j,
    {
        j += 1;
    }
    j
}

/// For each item of `sorted_ends`, the items of `sorted_starts2` at or to the
/// right of it in its group, up to `k` different positions of them; items
/// that share a position count as one and are all reported. Both lists are
/// read in the order of groups and positions, with one pointer that only
/// moves forward.
///
/// Where both lists are in that order, what is found are, for each item,
/// the items of its group at the `k` nearest positions at or behind it,
/// each at a distance of one more than the difference of the positions.
pub fn nearest_intervals_to_the_right(
    sorted_ends: Vec<MinEvent>,
    sorted_starts2: Vec<MinEvent>,
    k: usize,
) -> (output: Vec<Nearest>)
    ensures
        output@ == right_hits(sorted_ends@, sorted_starts2@, k as nat, sorted_ends.len() as int),
        in_order(sorted_ends@) && in_order(sorted_starts2@) ==> holds_right_hits(
            sorted_ends@,
            sorted_starts2@,
            k as nat,
            output@,
        ),
{
    proof {
        if in_order(sorted_ends@) && in_order(sorted_starts2@) {
            lemma_right_hits(sorted_ends@, sorted_starts2@, k as nat);
        }
    }
    let mut output: Vec<Nearest> = Vec::new();
    let n_starts = sorted_starts2.len();
    let mut j: usize = 0;
    let mut t: usize = 0;
    while t < sorted_ends.len()
        invariant
            t <= sorted_ends.len(),
            n_starts == sorted_starts2.len(),
            j <= n_starts,
            j == pointer(sorted_ends@, sorted_starts2@, t as int),
            output@ == right_hits(sorted_ends@, sorted_starts2@, k as nat, t as int),
        decreases sorted_ends.len() - t,
    {
        let end = sorted_ends[t];
        j = advance_pointer(&sorted_starts2, j, end);
        let ghost before = output@;
        let ghost all = scan_right(sorted_starts2@, j as int, end, k as nat, 0, None);
        let mut unique_count: usize = 0;
        let mut last_pos: Option<i64> = None;
        let mut local_idx = j;
        let ghost mut found: Seq<Nearest> = Seq::empty();
        assert(found + all =~= all);
        while local_idx < n_starts
            invariant_except_break
                j <= local_idx <= n_starts,
                unique_count <= local_idx - j,
                found + scan_right(
                    sorted_starts2@,
                    local_idx as int,
                    end,
                    k as nat,
                    unique_count as nat,
                    last_pos,
                ) == all,
            invariant
                n_starts == sorted_starts2.len(),
                output@ == before + found,
            ensures
                found == all,
            decreases n_starts - local_idx,
        {
            let start = sorted_starts2[local_idx];
            if start.chr != end.chr {
                proof {
                    assert(found + Seq::<Nearest>::empty() =~= found);
                }
                break ;
            }
            let fresh = match last_pos {
                Some(lp) => start.pos != lp,
                None => true,
            };
            if fresh {
                unique_count += 1;
                if unique_count > k {
                    proof {
                        assert(found + Seq::<Nearest>::empty() =~= found);
                    }
                    break ;
                }
                last_pos = Some(start.pos);
            }
            let hit = Nearest {
                distance: sat_add(sat_sub(start.pos, end.pos), 1),
                idx: end.idx,
                idx2: start.idx,
            };
            output.push(hit);
            proof {
                let rest = scan_right(
                    sorted_starts2@,
                    local_idx + 1,
                    end,
                    k as nat,
                    unique_count as nat,
                    Some(start.pos),
                );
                assert(found.push(hit) + rest =~= found + (seq![hit] + rest));
                found = found.push(hit);
                assert(output@ =~= before + found);
            }
            local_idx += 1;
        }
        proof {
            if local_idx >= n_starts {
                assert(found + Seq::<Nearest>::empty() =~= found);
            }
        }
        t += 1;
    }
    output
}

/// For each item of `sorted_ends`, the items of `sorted_starts2` to the left
/// of it in its group, nearest first, up to `k` different positions of
/// them; items that share a position count as one and are all reported.
///
/// Where both lists are in the order of groups and positions, what is
/// found are, for each item, the items of its group at the `k` nearest
/// positions before it, each at a distance of one more than the difference
/// of the positions.
pub fn nearest_intervals_to_the_left(
    sorted_ends: Vec<MinEvent>,
    sorted_starts2: Vec<MinEvent>,
    k: usize,
) -> (output: Vec<Nearest>)
    ensures
        output@ == left_hits(sorted_ends@, sorted_starts2@, k as nat, sorted_ends.len() as int),
        in_order(sorted_ends@) && in_order(sorted_starts2@) ==> holds_left_hits(
            sorted_ends@,
            sorted_starts2@,
            k as nat,
            output@,
        ),
{
    proof {
        if in_order(sorted_ends@) && in_order(sorted_starts2@) {
            lemma_left_hits(sorted_ends@, sorted_starts2@, k as nat);
        }
    }
    let mut output: Vec<Nearest> = Vec::new();
    let n_starts = sorted_starts2.len();
    let mut j: usize = 0;
    let mut t: usize = 0;
    while t < sorted_ends.len()
        invariant
            t <= sorted_ends.len(),
            n_starts == sorted_starts2.len(),
            j <= n_starts,
            j == pointer(sorted_ends@, sorted_starts2@, t as int),
            output@ == left_hits(sorted_ends@, sorted_starts2@, k as nat, t as int),
        decreases sorted_ends.len() - t,
    {
        let end = sorted_ends[t];
        j = advance_pointer(&sorted_starts2, j, end);
        let ghost before = output@;
        let ghost all = scan_left(sorted_starts2@, j as int - 1, end, k as nat, 0, None);
        let mut unique_count: usize = 0;
        let mut last_pos: Option<i64> = None;
        let mut remaining = j;
        let ghost mut found: Seq<Nearest> = Seq::empty();
        assert(found + all =~= all);
        while remaining > 0
            invariant_except_break
                remaining <= j,
                unique_count <= j - remaining,
                found + scan_left(
                    sorted_starts2@,
                    remaining as int - 1,
                    end,
                    k as nat,
                    unique_count as nat,
                    last_pos,
                ) == all,
            invariant
                j <= n_starts,
                n_starts == sorted_starts2.len(),
                output@ == before + found,
            ensures
                found == all,
            decreases remaining,
        {
            let local_idx = remaining - 1;
            let start = sorted_starts2[local_idx];
            if start.chr != end.chr {
                proof {
                    assert(found + Seq::<Nearest>::empty() =~= found);
                }
                break ;
            }
            let fresh = match last_pos {
                Some(lp) => start.pos != lp,
                None => true,
            };
            if fresh {
                unique_count += 1;
                if unique_count > k {
                    proof {
                        assert(found + Seq::<Nearest>::empty() =~= found);
                    }
                    break ;
                }
                last_pos = Some(start.pos);
            }
            let hit = Nearest {
                distance: sat_add(sat_sub(end.pos, start.pos), 1),
                idx: end.idx,
                idx2: start.idx,
            };
            output.push(hit);
            proof {
                let rest = scan_left(
                    sorted_starts2@,
                    local_idx as int - 1,
                    end,
                    k as nat,
                    unique_count as nat,
                    Some(start.pos),
                );
                assert(found.push(hit) + rest =~= found + (seq![hit] + rest));
                found = found.push(hit);
                assert(output@ =~= before + found);
            }
            remaining = local_idx;
        }
        proof {
            if remaining == 0 {
                assert(found + Seq::<Nearest>::empty() =~= found);
            }
        }
        t += 1;
    }
    output
}


/// How many items from place `from` on have the distance `d` without a break.
pub open spec fn distance_run(items: Seq<Nearest>, from: int, d: i64) -> nat
    decreases items.len() - from,
{
    if 0 <= from < items.len() && items[from].distance == d {
        1 + distance_run(items, from + 1, d)
    } else {
        0
    }
}

/// How many items from place `from` on belong to row `idx` without a break.
pub open spec fn row_run(items: Seq<Nearest>, from: int, idx: u32) -> nat
    decreases items.len() - from,
{
    if 0 <= from < items.len() && items[from].idx == idx {
        1 + row_run(items, from + 1, idx)
    } else {
        0
    }
}

/// How many pairs from place `from` on belong to row `idx` without a break.
pub open spec fn pair_run(pairs: Seq<OverlapPair>, from: int, idx: u32) -> nat
    decreases pairs.len() - from,
{
    if 0 <= from < pairs.len() && pairs[from].idx == idx {
        1 + pair_run(pairs, from + 1, idx)
    } else {
        0
    }
}

/// Overlapping pairs as neighbours at distance zero.
pub open spec fn at_distance_zero(pairs: Seq<OverlapPair>) -> Seq<Nearest> {
    Seq::new(pairs.len(), |q: int| Nearest { distance: 0, idx: pairs[q].idx, idx2: pairs[q].idx2 })
}

/// The distance of the item at place `at`, or the largest distance where the
/// list has no such item.
pub open spec fn head_distance(items: Seq<Nearest>, at: int) -> i64 {
    if 0 <= at < items.len() {
        items[at].distance
    } else {
        i64::MAX
    }
}

pub open spec fn least_of_three(a: i64, b: i64, c: i64) -> i64 {
    if a <= b && a <= c {
        a
    } else if b <= c {
        b
    } else {
        c
    }
}

/// What one row keeps of its three lists of neighbours from the places
/// `oi`, `lj` and `rr` on. Round by round, the least distance `d` at the
/// heads of the lists is taken, and with it the run of items of distance
/// `d` at each head: first the overlaps, then the left list, then the
/// right. A distance that has not been taken before is only taken while
/// fewer than `k` distances have been; with the first that is refused the
/// row is done. The largest distance stands for an empty list and is
/// never taken.
pub open spec fn kept_of_row(
    overlaps: Seq<Nearest>,
    left: Seq<Nearest>,
    right: Seq<Nearest>,
    oi: int,
    lj: int,
    rr: int,
    used: Set<i64>,
    distinct: nat,
    k: nat,
) -> Seq<Nearest>
    decreases (overlaps.len() - oi) + (left.len() - lj) + (right.len() - rr),
{
    let d = least_of_three(
        head_distance(overlaps, oi),
        head_distance(left, lj),
        head_distance(right, rr),
    );
    let co = distance_run(overlaps, oi, d);
    let cl = distance_run(left, lj, d);
    let cr = distance_run(right, rr, d);
    if oi < 0 || lj < 0 || rr < 0 || oi > overlaps.len() || lj > left.len() || rr > right.len()
        || co + cl + cr == 0 || d == i64::MAX {
        Seq::empty()
    } else if !used.contains(d) && distinct >= k {
        Seq::empty()
    } else {
        proof {
            lemma_distance_run_bounds(overlaps, oi, d);
            lemma_distance_run_bounds(left, lj, d);
            lemma_distance_run_bounds(right, rr, d);
        }
        overlaps.subrange(oi, oi + co) + left.subrange(lj, lj + cl) + right.subrange(rr, rr + cr)
            + kept_of_row(
            overlaps,
            left,
            right,
            oi + co,
            lj + cl,
            rr + cr,
            used.insert(d),
            if used.contains(d) { distinct } else { distinct + 1 },
            k,
        )
    }
}

/// The least row that stands at the head of one of the three lists.
pub open spec fn least_head_row(
    overlaps: Seq<OverlapPair>,
    left: Seq<Nearest>,
    right: Seq<Nearest>,
    i: int,
    j: int,
    r: int,
) -> u32 {
    let a = if 0 <= i < overlaps.len() { overlaps[i].idx } else { u32::MAX };
    let b = if 0 <= j < left.len() { left[j].idx } else { u32::MAX };
    let c = if 0 <= r < right.len() { right[r].idx } else { u32::MAX };
    if a <= b && a <= c {
        a
    } else if b <= c {
        b
    } else {
        c
    }
}

/// What is kept of the three lists from the places `i`, `j` and `r` on. Row
/// by row: the least row at the heads of the lists is taken, with the run of
/// its items at each head, and of these runs is kept what `kept_of_row` says.
pub open spec fn kept_from(
    overlaps: Seq<OverlapPair>,
    left: Seq<Nearest>,
    right: Seq<Nearest>,
    i: int,
    j: int,
    r: int,
    k: nat,
) -> Seq<Nearest>
    decreases (overlaps.len() - i) + (left.len() - j) + (right.len() - r),
{
    let row = least_head_row(overlaps, left, right, i, j, r);
    let ci = pair_run(overlaps, i, row);
    let cj = row_run(left, j, row);
    let cr = row_run(right, r, row);
    if i < 0 || j < 0 || r < 0 || i > overlaps.len() || j > left.len() || r > right.len() || ci
        + cj + cr == 0 {
        Seq::empty()
    } else {
        proof {
            lemma_pair_run_bounds(overlaps, i, row);
            lemma_row_run_bounds(left, j, row);
            lemma_row_run_bounds(right, r, row);
        }
        kept_of_row(
            at_distance_zero(overlaps.subrange(i, i + ci)),
            left.subrange(j, j + cj),
            right.subrange(r, r + cr),
            0,
            0,
            0,
            Set::empty(),
            0,
            k,
        ) + kept_from(overlaps, left, right, i + ci, j + cj, r + cr, k)
    }
}

/// The order of the result: by row, then distance, then the row of the
/// other table.
pub open spec fn nearest_key(n: Nearest) -> (i64, i64, i64) {
    (n.idx as i64, n.distance, n.idx2 as i64)
}

/// Neighbours by row, distance and row of the other table.
pub open spec fn by_row_and_distance(items: Seq<Nearest>) -> Seq<Nearest> {
    reorder(items, stable_order(Seq::new(items.len(), |q: int| nearest_key(items[q]))))
}

/// Neighbours by row and distance, those that agree in both in their order.
pub open spec fn by_row_then_distance(items: Seq<Nearest>) -> Seq<Nearest> {
    reorder(
        items,
        stable_order(Seq::new(items.len(), |q: int| (items[q].idx as i64, items[q].distance, 0i64))),
    )
}

/// What `merge_three_way_by_index_distance` makes of three lists.
pub open spec fn merged_neighbours(
    overlaps: Seq<OverlapPair>,
    left: Seq<Nearest>,
    right: Seq<Nearest>,
    k: nat,
) -> Seq<Nearest> {
    by_row_and_distance(kept_from(overlaps, left, right, 0, 0, 0, k))
}

pub proof fn lemma_row_run_bounds(items: Seq<Nearest>, from: int, idx: u32)
    requires
        0 <= from <= items.len(),
    ensures
        from + row_run(items, from, idx) <= items.len(),
    decreases items.len() - from,
{
    if from < items.len() && items[from].idx == idx {
        lemma_row_run_bounds(items, from + 1, idx);
    }
}

pub proof fn lemma_pair_run_bounds(pairs: Seq<OverlapPair>, from: int, idx: u32)
    requires
        0 <= from <= pairs.len(),
    ensures
        from + pair_run(pairs, from, idx) <= pairs.len(),
    decreases pairs.len() - from,
{
    if from < pairs.len() && pairs[from].idx == idx {
        lemma_pair_run_bounds(pairs, from + 1, idx);
    }
}

pub proof fn lemma_distance_run_bounds(items: Seq<Nearest>, from: int, d: i64)
    requires
        0 <= from <= items.len(),
    ensures
        from + distance_run(items, from, d) <= items.len(),
    decreases items.len() - from,
{
    if from < items.len() && items[from].distance == d {
        lemma_distance_run_bounds(items, from + 1, d);
    }
}

/// Appends the run of items of distance `d` that begins at place `from`, and
/// gives the place behind it.
fn take_distance_run(out: &mut Vec<Nearest>, items: &Vec<Nearest>, from: usize, d: i64) -> (next:
    usize)
    requires
        from <= items.len(),
    ensures
        next == from + distance_run(items@, from as int, d),
        next <= items.len(),
        final(out)@ == old(out)@ + items@.subrange(from as int, next as int),
{
    let ghost before = out@;
    let mut at = from;
    proof {
        assert(items@.subrange(from as int, from as int) =~= Seq::<Nearest>::empty());
        assert(before + Seq::<Nearest>::empty() =~= before);
    }
    while at < items.len() && items[at].distance == d
        invariant
            from <= at <= items.len(),
            at + distance_run(items@, at as int, d) == from + distance_run(items@, from as int, d),
            out@ == before + items@.subrange(from as int, at as int),
        decreases items.len() - at,
    {
        out.push(items[at]);
        proof {
            assert(items@.subrange(from as int, at + 1) =~= items@.subrange(
                from as int,
                at as int,
            ).push(items[at as int]));
        }
        at += 1;
    }
    at
}

fn head_distance_of(items: &Vec<Nearest>, at: usize) -> (d: i64)
    ensures
        d == head_distance(items@, at as int),
{
    if at < items.len() {
        items[at].distance
    } else {
        i64::MAX
    }
}

/// Appends what one row keeps of its three lists of neighbours.
fn keep_of_row(
    out: &mut Vec<Nearest>,
    overlaps: &Vec<Nearest>,
    left: &Vec<Nearest>,
    right: &Vec<Nearest>,
    k: usize,
)
    ensures
        final(out)@ == old(out)@ + kept_of_row(
            overlaps@,
            left@,
            right@,
            0,
            0,
            0,
            Set::empty(),
            0,
            k as nat,
        ),
{
    broadcast use vstd::std_specs::hash::group_hash_axioms;

    let ghost before = out@;
    let ghost all = kept_of_row(overlaps@, left@, right@, 0, 0, 0, Set::empty(), 0, k as nat);
    let mut used: HashSet<i64> = HashSet::new();
    let mut distinct: usize = 0;
    let mut oi: usize = 0;
    let mut lj: usize = 0;
    let mut rr: usize = 0;
    let ghost mut found: Seq<Nearest> = Seq::empty();
    assert(found + all =~= all);
    loop
        invariant_except_break
            oi <= overlaps.len(),
            lj <= left.len(),
            rr <= right.len(),
            distinct <= k,
            found + kept_of_row(
                overlaps@,
                left@,
                right@,
                oi as int,
                lj as int,
                rr as int,
                used@,
                distinct as nat,
                k as nat,
            ) == all,
        invariant
            out@ == before + found,
        ensures
            found == all,
        decreases (overlaps.len() - oi) + (left.len() - lj) + (right.len() - rr),
    {
        let d_o = head_distance_of(overlaps, oi);
        let d_l = head_distance_of(left, lj);
        let d_r = head_distance_of(right, rr);
        let d = if d_o <= d_l && d_o <= d_r {
            d_o
        } else if d_l <= d_r {
            d_l
        } else {
            d_r
        };
        proof {
            lemma_distance_run_bounds(overlaps@, oi as int, d);
            lemma_distance_run_bounds(left@, lj as int, d);
            lemma_distance_run_bounds(right@, rr as int, d);
        }
        let nothing = !(oi < overlaps.len() && overlaps[oi].distance == d) && !(lj < left.len()
            && left[lj].distance == d) && !(rr < right.len() && right[rr].distance == d);
        if nothing || d == i64::MAX {
            proof {
                assert(found + Seq::<Nearest>::empty() =~= found);
            }
            break ;
        }
        let known = used.contains(&d);
        if !known {
            if distinct >= k {
                proof {
                    assert(found + Seq::<Nearest>::empty() =~= found);
                }
                break ;
            }
            used.insert(d);
            distinct += 1;
        } else {
            assert(used@.insert(d) =~= used@);
        }
        let ghost was = found;
        let ghost out_was = out@;
        let o_next = take_distance_run(out, overlaps, oi, d);
        let l_next = take_distance_run(out, left, lj, d);
        let r_next = take_distance_run(out, right, rr, d);
        proof {
            let taken = overlaps@.subrange(oi as int, o_next as int) + left@.subrange(
                lj as int,
                l_next as int,
            ) + right@.subrange(rr as int, r_next as int);
            let rest = kept_of_row(
                overlaps@,
                left@,
                right@,
                o_next as int,
                l_next as int,
                r_next as int,
                used@,
                distinct as nat,
                k as nat,
            );
            found = was + taken;
            assert(out@ =~= before + found);
            assert(found + rest =~= was + (taken + rest));
        }
        oi = o_next;
        lj = l_next;
        rr = r_next;
    }
}

/// The items from place `from` on that belong to row `row`, and the place
/// behind them.
fn take_row_run(items: &[Nearest], from: usize, row: u32) -> (out: (Vec<Nearest>, usize))
    requires
        from <= items.len(),
    ensures
        out.1 == from + row_run(items@, from as int, row),
        out.1 <= items.len(),
        out.0@ == items@.subrange(from as int, out.1 as int),
{
    let mut run: Vec<Nearest> = Vec::new();
    let mut at = from;
    assert(items@.subrange(from as int, from as int) =~= Seq::<Nearest>::empty());
    while at < items.len() && items[at].idx == row
        invariant
            from <= at <= items.len(),
            at + row_run(items@, at as int, row) == from + row_run(items@, from as int, row),
            run@ == items@.subrange(from as int, at as int),
        decreases items.len() - at,
    {
        run.push(items[at]);
        proof {
            assert(items@.subrange(from as int, at + 1) =~= items@.subrange(
                from as int,
                at as int,
            ).push(items[at as int]));
        }
        at += 1;
    }
    (run, at)
}

/// The pairs from place `from` on that belong to row `row`, as neighbours at
/// distance zero, and the place behind them.
fn take_pair_run(pairs: &[OverlapPair], from: usize, row: u32) -> (out: (Vec<Nearest>, usize))
    requires
        from <= pairs.len(),
    ensures
        out.1 == from + pair_run(pairs@, from as int, row),
        out.1 <= pairs.len(),
        out.0@ == at_distance_zero(pairs@.subrange(from as int, out.1 as int)),
{
    let mut run: Vec<Nearest> = Vec::new();
    let mut at = from;
    assert(at_distance_zero(pairs@.subrange(from as int, from as int)) =~= Seq::<Nearest>::empty());
    while at < pairs.len() && pairs[at].idx == row
        invariant
            from <= at <= pairs.len(),
            at + pair_run(pairs@, at as int, row) == from + pair_run(pairs@, from as int, row),
            run@ == at_distance_zero(pairs@.subrange(from as int, at as int)),
        decreases pairs.len() - at,
    {
        run.push(Nearest { distance: 0, idx: pairs[at].idx, idx2: pairs[at].idx2 });
        proof {
            assert(pairs@.subrange(from as int, at + 1) =~= pairs@.subrange(
                from as int,
                at as int,
            ).push(pairs[at as int]));
            assert(run@ =~= at_distance_zero(pairs@.subrange(from as int, at + 1)));
        }
        at += 1;
    }
    (run, at)
}

/// Neighbours by row, distance and row of the other table.
pub fn sort_by_row_and_distance(items: &Vec<Nearest>) -> (out: Vec<Nearest>)
    ensures
        out@ == by_row_and_distance(items@),
        out.len() == items.len(),
{
    let mut keys: Vec<(i64, i64, i64)> = Vec::new();
    let mut i: usize = 0;
    while i < items.len()
        invariant
            i <= items.len(),
            keys.len() == i,
            forall|q: int| 0 <= q < i ==> #[trigger] keys[q] == nearest_key(items[q]),
        decreases items.len() - i,
    {
        let n = items[i];
        keys.push((n.idx as i64, n.distance, n.idx2 as i64));
        i += 1;
    }
    assert(keys@ =~= Seq::new(items.len() as nat, |q: int| nearest_key(items[q])));
    sort_rows(items, &keys)
}

/// Neighbours by row and distance, those that agree in both in their order.
pub fn sort_by_row_then_distance(items: &Vec<Nearest>) -> (out: Vec<Nearest>)
    ensures
        out@ == by_row_then_distance(items@),
        out.len() == items.len(),
{
    let mut keys: Vec<(i64, i64, i64)> = Vec::new();
    let mut i: usize = 0;
    while i < items.len()
        invariant
            i <= items.len(),
            keys.len() == i,
            forall|q: int|
                0 <= q < i ==> #[trigger] keys[q] == (items[q].idx as i64, items[q].distance, 0i64),
        decreases items.len() - i,
    {
        let n = items[i];
        keys.push((n.idx as i64, n.distance, 0));
        i += 1;
    }
    assert(keys@ =~= Seq::new(
        items.len() as nat,
        |q: int| (items[q].idx as i64, items[q].distance, 0i64),
    ));
    sort_rows(items, &keys)
}

/// Merges, row by row, the overlaps of the row with what it found to its
/// left and to its right, and keeps the items at the `k` least distances of
/// the row, an overlap being at distance zero. All items at a kept distance
/// are kept. The three lists are read in the order of rows, each row's items
/// by ascending distance. The result has three columns: row, row of the
/// other table, and distance, by row, distance and row of the other table.
///
/// Where the lists are in that order, an item is kept exactly if a list
/// offers it and fewer than `k` of the distances that the lists offer to
/// its row are less than its own.
pub fn merge_three_way_by_index_distance(
    overlaps: &[OverlapPair],
    nearest_left: &[Nearest],
    nearest_right: &[Nearest],
    k: usize,
) -> (out: (Vec<u32>, Vec<u32>, Vec<PositionType>))
    ensures
        out.0@ == Seq::new(
            merged_neighbours(overlaps@, nearest_left@, nearest_right@, k as nat).len(),
            |q: int| merged_neighbours(overlaps@, nearest_left@, nearest_right@, k as nat)[q].idx,
        ),
        out.1@ == Seq::new(
            merged_neighbours(overlaps@, nearest_left@, nearest_right@, k as nat).len(),
            |q: int| merged_neighbours(overlaps@, nearest_left@, nearest_right@, k as nat)[q].idx2,
        ),
        out.2@ == Seq::new(
            merged_neighbours(overlaps@, nearest_left@, nearest_right@, k as nat).len(),
            |q: int|
                merged_neighbours(overlaps@, nearest_left@, nearest_right@, k as nat)[q].distance,
        ),
        pairs_in_order(overlaps@) && rows_in_order(nearest_left@) && rows_in_order(nearest_right@)
            ==> keeps_nearest(
            overlaps@,
            nearest_left@,
            nearest_right@,
            k as nat,
            merged_neighbours(overlaps@, nearest_left@, nearest_right@, k as nat),
        ),
{
    let ghost all = kept_from(overlaps@, nearest_left@, nearest_right@, 0, 0, 0, k as nat);
    let mut results: Vec<Nearest> = Vec::new();
    let mut i: usize = 0;
    let mut j: usize = 0;
    let mut r: usize = 0;
    assert(results@ + all =~= all);
    while i < overlaps.len() || j < nearest_left.len() || r < nearest_right.len()
        invariant
            i <= overlaps.len(),
            j <= nearest_left.len(),
            r <= nearest_right.len(),
            results@ + kept_from(
                overlaps@,
                nearest_left@,
                nearest_right@,
                i as int,
                j as int,
                r as int,
                k as nat,
            ) == all,
        decreases (overlaps.len() - i) + (nearest_left.len() - j) + (nearest_right.len() - r),
    {
        let a = if i < overlaps.len() { overlaps[i].idx } else { u32::MAX };
        let b = if j < nearest_left.len() { nearest_left[j].idx } else { u32::MAX };
        let c = if r < nearest_right.len() { nearest_right[r].idx } else { u32::MAX };
        let current_idx = if a <= b && a <= c {
            a
        } else if b <= c {
            b
        } else {
            c
        };
        let (overlaps_slice, i_next) = take_pair_run(overlaps, i, current_idx);
        let (left_slice, j_next) = take_row_run(nearest_left, j, current_idx);
        let (right_slice, r_next) = take_row_run(nearest_right, r, current_idx);
        let ghost before = results@;
        keep_of_row(&mut results, &overlaps_slice, &left_slice, &right_slice, k);
        proof {
            let rest = kept_from(
                overlaps@,
                nearest_left@,
                nearest_right@,
                i_next as int,
                j_next as int,
                r_next as int,
                k as nat,
            );
            let kept = kept_of_row(
                overlaps_slice@,
                left_slice@,
                right_slice@,
                0,
                0,
                0,
                Set::empty(),
                0,
                k as nat,
            );
            assert(i_next + j_next + r_next > i + j + r);
            assert(results@ + rest =~= before + (kept + rest));
        }
        i = i_next;
        j = j_next;
        r = r_next;
    }
    proof {
        assert(results@ + Seq::<Nearest>::empty() =~= results@);
        if pairs_in_order(overlaps@) && rows_in_order(nearest_left@) && rows_in_order(
            nearest_right@,
        ) {
            assert(all.len() == results.len());
            lemma_merged_keeps_nearest(overlaps@, nearest_left@, nearest_right@, k as nat);
        }
    }
    let sorted = sort_by_row_and_distance(&results);
    let mut out_idxs: Vec<u32> = Vec::new();
    let mut out_idxs2: Vec<u32> = Vec::new();
    let mut out_distances: Vec<i64> = Vec::new();
    let mut q: usize = 0;
    while q < sorted.len()
        invariant
            q <= sorted.len(),
            out_idxs.len() == q,
            out_idxs2.len() == q,
            out_distances.len() == q,
            forall|p: int| 0 <= p < q ==> #[trigger] out_idxs[p] == sorted[p].idx,
            forall|p: int| 0 <= p < q ==> #[trigger] out_idxs2[p] == sorted[p].idx2,
            forall|p: int| 0 <= p < q ==> #[trigger] out_distances[p] == sorted[p].distance,
        decreases sorted.len() - q,
    {
        out_idxs.push(sorted[q].idx);
        out_idxs2.push(sorted[q].idx2);
        out_distances.push(sorted[q].distance);
        q += 1;
    }
    proof {
        let m = merged_neighbours(overlaps@, nearest_left@, nearest_right@, k as nat);
        assert(sorted@ == m);
        assert(out_idxs@ =~= Seq::new(m.len(), |q: int| m[q].idx));
        assert(out_idxs2@ =~= Seq::new(m.len(), |q: int| m[q].idx2));
        assert(out_distances@ =~= Seq::new(m.len(), |q: int| m[q].distance));
    }
    (out_idxs, out_idxs2, out_distances)
}


/// The rows of a table as positions, by group and position.
pub open spec fn positions_in_order(chrs: Seq<i64>, pos: Seq<i64>) -> Seq<MinEvent> {
    sorted_min_events(position_events(chrs, pos))
}

/// What the rows of the first table find to their left, where that is looked
/// for: their starts are held against the ends of the second table.
pub open spec fn left_neighbours(
    chrs: Seq<i64>,
    starts: Seq<i64>,
    chrs2: Seq<i64>,
    ends2: Seq<i64>,
    slack: i64,
    k: nat,
    direction: Direction,
) -> Seq<Nearest> {
    if direction == Direction::Forward {
        Seq::empty()
    } else {
        by_row_then_distance(
            left_hits(
                positions_in_order(chrs, shift(starts, -slack)),
                positions_in_order(chrs2, shift(ends2, 0)),
                k,
                chrs.len() as int,
            ),
        )
    }
}

/// What the rows of the first table find to their right, where that is
/// looked for: their ends are held against the starts of the second table.
pub open spec fn right_neighbours(
    chrs: Seq<i64>,
    ends: Seq<i64>,
    chrs2: Seq<i64>,
    starts2: Seq<i64>,
    slack: i64,
    k: nat,
    direction: Direction,
) -> Seq<Nearest> {
    if direction == Direction::Backward {
        Seq::empty()
    } else {
        by_row_then_distance(
            right_hits(
                positions_in_order(chrs, shift(ends, slack as int)),
                positions_in_order(chrs2, shift(starts2, 0)),
                k,
                chrs.len() as int,
            ),
        )
    }
}

/// What `nearest` returns, read without the scans and the merge. A
/// neighbour is returned exactly if it is offered and fewer than `k` of the
/// distances offered to its row are less than its own. Offered are the
/// overlaps, at distance zero; where the left is looked at, for each row
/// the rows of the second table that end at the `k` nearest positions
/// before its start; and where the right is looked at, those that start at
/// the `k` nearest positions at or behind its end. The start and the end
/// of a row of the first table are those of its interval widened by `slack`.
pub open spec fn reads_as_nearest(
    chrs: Seq<i64>,
    starts: Seq<i64>,
    ends: Seq<i64>,
    chrs2: Seq<i64>,
    starts2: Seq<i64>,
    ends2: Seq<i64>,
    slack: i64,
    k: nat,
    direction: Direction,
    found: Seq<OverlapPair>,
) -> bool {
    let left = left_neighbours(chrs, starts, chrs2, ends2, slack, k, direction);
    let right = right_neighbours(chrs, ends, chrs2, starts2, slack, k, direction);
    &&& keeps_nearest(
        by_left_row(found),
        left,
        right,
        k,
        nearest_of(chrs, starts, ends, chrs2, starts2, ends2, slack, k, direction, found),
    )
    &&& direction != Direction::Forward ==> holds_left_neighbours(
        chrs,
        shift(starts, -slack),
        chrs2,
        ends2,
        k,
        left,
    )
    &&& direction != Direction::Backward ==> holds_right_neighbours(
        chrs,
        shift(ends, slack as int),
        chrs2,
        starts2,
        k,
        right,
    )
}

/// What `nearest` starts from, read without the sweep: for tables of proper
/// intervals, the pairs of rows that overlap, the first table widened by
/// `slack`, where overlaps are asked for, and else none.
pub open spec fn offers_overlaps(
    chrs: Seq<i64>,
    starts: Seq<i64>,
    ends: Seq<i64>,
    chrs2: Seq<i64>,
    starts2: Seq<i64>,
    ends2: Seq<i64>,
    slack: i64,
    include_overlaps: bool,
    found: Seq<OverlapPair>,
) -> bool {
    slack_tables(chrs, starts, ends, chrs2, starts2, ends2, slack).proper() ==> forall|
        p: OverlapPair,
    | #[trigger]
        found.contains(p) <==> (include_overlaps && p.idx < chrs.len() && p.idx2 < chrs2.len()
            && slack_tables(chrs, starts, ends, chrs2, starts2, ends2, slack).overlap(
            p.idx as int,
            p.idx2 as int,
        ))
}

/// Whether `found` may be the overlaps that `nearest` starts from: none
/// where overlaps are not asked for or a table is empty, else what the
/// four-way sweep over the starts and ends of both tables may give.
pub open spec fn may_overlap(
    chrs: Seq<i64>,
    starts: Seq<i64>,
    ends: Seq<i64>,
    chrs2: Seq<i64>,
    starts2: Seq<i64>,
    ends2: Seq<i64>,
    slack: i64,
    include_overlaps: bool,
    found: Seq<OverlapPair>,
) -> bool {
    if include_overlaps && chrs.len() > 0 && chrs2.len() > 0 {
        is_sweep_output(
            four_way_merge(
                positions_in_order(chrs, shift(starts, -slack)),
                positions_in_order(chrs, shift(ends, slack as int)),
                positions_in_order(chrs2, shift(starts2, 0)),
                positions_in_order(chrs2, shift(ends2, 0)),
            ),
            found,
        )
    } else {
        found.len() == 0
    }
}

/// The neighbours that `nearest` returns when the sweep for overlaps found `found`.
pub open spec fn nearest_of(
    chrs: Seq<i64>,
    starts: Seq<i64>,
    ends: Seq<i64>,
    chrs2: Seq<i64>,
    starts2: Seq<i64>,
    ends2: Seq<i64>,
    slack: i64,
    k: nat,
    direction: Direction,
    found: Seq<OverlapPair>,
) -> Seq<Nearest> {
    merged_neighbours(
        by_left_row(found),
        left_neighbours(chrs, starts, chrs2, ends2, slack, k, direction),
        right_neighbours(chrs, ends, chrs2, starts2, slack, k, direction),
        k,
    )
}

/// For each row of the first table, the rows of the second table at its `k`
/// least distances, as three columns: row, row of the second table, and
/// distance. The intervals of the first table are widened by `slack` on
/// both sides. A row of the second table that begins at or behind the end
/// of the row lies to its right, one that ends before its start lies to its
/// left; `direction` says which are looked for. With `include_overlaps`,
/// rows that overlap count as neighbours at distance zero. All rows at a
/// kept distance are returned, so a row may get more than `k` neighbours.
///
/// What is returned reads as `reads_as_nearest` says: the neighbours that
/// are offered to a row at its `k` least distances, where the overlaps are
/// offered at distance zero and each side offers the rows at the `k`
/// nearest positions on that side. For tables of proper intervals the
/// overlaps are the pairs of rows that overlap, as `offers_overlaps` says.
pub fn nearest(
    chrs: &[GroupType],
    starts: &[PositionType],
    ends: &[PositionType],
    chrs2: &[GroupType],
    starts2: &[PositionType],
    ends2: &[PositionType],
    slack: PositionType,
    k: usize,
    include_overlaps: bool,
    direction: Direction,
) -> (out: (Vec<u32>, Vec<u32>, Vec<PositionType>))
    requires
        chrs.len() == starts.len(),
        chrs.len() == ends.len(),
        chrs.len() <= u32::MAX,
        chrs2.len() == starts2.len(),
        chrs2.len() == ends2.len(),
        chrs2.len() <= u32::MAX,
    ensures
        exists|found: Seq<OverlapPair>|
            {
                &&& may_overlap(
                    chrs@,
                    starts@,
                    ends@,
                    chrs2@,
                    starts2@,
                    ends2@,
                    slack,
                    include_overlaps,
                    found,
                )
                &&& reads_as_nearest(
                    chrs@,
                    starts@,
                    ends@,
                    chrs2@,
                    starts2@,
                    ends2@,
                    slack,
                    k as nat,
                    direction,
                    found,
                )
                &&& offers_overlaps(
                    chrs@,
                    starts@,
                    ends@,
                    chrs2@,
                    starts2@,
                    ends2@,
                    slack,
                    include_overlaps,
                    found,
                )
                &&& out.0@ == Seq::new(
                    nearest_of(
                        chrs@,
                        starts@,
                        ends@,
                        chrs2@,
                        starts2@,
                        ends2@,
                        slack,
                        k as nat,
                        direction,
                        found,
                    ).len(),
                    |q: int|
                        nearest_of(
                            chrs@,
                            starts@,
                            ends@,
                            chrs2@,
                            starts2@,
                            ends2@,
                            slack,
                            k as nat,
                            direction,
                            found,
                        )[q].idx,
                )
                &&& out.1@ == Seq::new(
                    nearest_of(
                        chrs@,
                        starts@,
                        ends@,
                        chrs2@,
                        starts2@,
                        ends2@,
                        slack,
                        k as nat,
                        direction,
                        found,
                    ).len(),
                    |q: int|
                        nearest_of(
                            chrs@,
                            starts@,
                            ends@,
                            chrs2@,
                            starts2@,
                            ends2@,
                            slack,
                            k as nat,
                            direction,
                            found,
                        )[q].idx2,
                )
                &&& out.2@ == Seq::new(
                    nearest_of(
                        chrs@,
                        starts@,
                        ends@,
                        chrs2@,
                        starts2@,
                        ends2@,
                        slack,
                        k as nat,
                        direction,
                        found,
                    ).len(),
                    |q: int|
                        nearest_of(
                            chrs@,
                            starts@,
                            ends@,
                            chrs2@,
                            starts2@,
                            ends2@,
                            slack,
                            k as nat,
                            direction,
                            found,
                        )[q].distance,
                )
            },
{
    let wide_ends = shifted(ends, slack);
    let sorted_starts = build_sorted_events_single_collection_separate_outputs(chrs, starts, slack);
    let sorted_ends = build_sorted_events_single_collection_separate_outputs(
        chrs,
        wide_ends.as_slice(),
        0,
    );
    let sorted_starts2 = build_sorted_events_single_collection_separate_outputs(chrs2, starts2, 0);
    let sorted_ends2 = build_sorted_events_single_collection_separate_outputs(chrs2, ends2, 0);
    proof {
        assert(shift(shift(ends@, slack as int), 0) =~= shift(ends@, slack as int));
        assert(sorted_starts@ == positions_in_order(chrs@, shift(starts@, -slack)));
        assert(sorted_ends@ == positions_in_order(chrs@, shift(ends@, slack as int)));
        assert(sorted_starts2@ == positions_in_order(chrs2@, shift(starts2@, 0)));
        assert(sorted_ends2@ == positions_in_order(chrs2@, shift(ends2@, 0)));
        lemma_positions_in_order(position_events(chrs@, shift(starts@, -slack)));
        lemma_positions_in_order(position_events(chrs@, shift(ends@, slack as int)));
        lemma_positions_in_order(position_events(chrs2@, shift(starts2@, 0)));
        lemma_positions_in_order(position_events(chrs2@, shift(ends2@, 0)));
    }
    let ghost from_starts = sorted_starts@;
    let ghost from_ends = sorted_ends@;
    let ghost to_starts = sorted_starts2@;
    let ghost to_ends = sorted_ends2@;
    let found = if include_overlaps {
        sweep_line_overlaps_overlap_pair(
            sorted_starts.as_slice(),
            sorted_ends.as_slice(),
            sorted_starts2.as_slice(),
            sorted_ends2.as_slice(),
        )
    } else {
        Vec::new()
    };
    assert(may_overlap(
        chrs@,
        starts@,
        ends@,
        chrs2@,
        starts2@,
        ends2@,
        slack,
        include_overlaps,
        found@,
    ));
    let overlaps = sort_pairs_by_left_row(&found);
    proof {
        lemma_by_left_row(found@);
        let tb = slack_tables(chrs@, starts@, ends@, chrs2@, starts2@, ends2@, slack);
        if tb.proper() && include_overlaps && chrs.len() > 0 && chrs2.len() > 0 {
            assert(shift(starts2@, 0) =~= starts2@);
            assert(shift(ends2@, 0) =~= ends2@);
            assert(merged_sweep(tb) == four_way_merge(from_starts, from_ends, to_starts, to_ends));
            lemma_streams_find_overlaps(tb, found@);
        }
        assert(offers_overlaps(
            chrs@,
            starts@,
            ends@,
            chrs2@,
            starts2@,
            ends2@,
            slack,
            include_overlaps,
            found@,
        ));
    }
    let looks_left = match direction {
        Direction::Forward => false,
        Direction::Backward => true,
        Direction::Any => true,
    };
    let looks_right = match direction {
        Direction::Forward => true,
        Direction::Backward => false,
        Direction::Any => true,
    };
    let nearest_left = if looks_left {
        let tmp = nearest_intervals_to_the_left(sorted_starts, sorted_ends2, k);
        let sorted = sort_by_row_then_distance(&tmp);
        proof {
            lemma_by_row_then_distance(tmp@);
            assert(holds_left_hits(from_starts, to_ends, k as nat, sorted@)) by {
                assert forall|h: Nearest| #[trigger] sorted@.contains(h) <==> tmp@.contains(h) by {}
            }
            assert(shift(ends2@, 0) =~= ends2@);
            lemma_left_neighbours(chrs@, shift(starts@, -slack), chrs2@, ends2@, k as nat, sorted@);
        }
        sorted
    } else {
        Vec::new()
    };
    let nearest_right = if looks_right {
        let tmp = nearest_intervals_to_the_right(sorted_ends, sorted_starts2, k);
        let sorted = sort_by_row_then_distance(&tmp);
        proof {
            lemma_by_row_then_distance(tmp@);
            assert(holds_right_hits(from_ends, to_starts, k as nat, sorted@)) by {
                assert forall|h: Nearest| #[trigger] sorted@.contains(h) <==> tmp@.contains(h) by {}
            }
            assert(shift(starts2@, 0) =~= starts2@);
            lemma_right_neighbours(
                chrs@,
                shift(ends@, slack as int),
                chrs2@,
                starts2@,
                k as nat,
                sorted@,
            );
        }
        sorted
    } else {
        Vec::new()
    };
    proof {
        assert(nearest_left@ == left_neighbours(
            chrs@,
            starts@,
            chrs2@,
            ends2@,
            slack,
            k as nat,
            direction,
        ));
        assert(nearest_right@ == right_neighbours(
            chrs@,
            ends@,
            chrs2@,
            starts2@,
            slack,
            k as nat,
            direction,
        ));
    }
    merge_three_way_by_index_distance(
        overlaps.as_slice(),
        nearest_left.as_slice(),
        nearest_right.as_slice(),
        k,
    )
}

} // verus!
