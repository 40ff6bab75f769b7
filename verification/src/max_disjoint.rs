//! A set of rows of each group whose intervals lie apart, chosen greedily
//! among the rows in the order of their starts: the first row of a group,
//! and then each row that starts behind the end of the row chosen last.
//! The choice need not be of the greatest size: a long interval that starts
//! first is taken and shuts out the shorter ones behind it.

use crate::arith::{clamp, sat_add};
use crate::complement::{ascending, sort_ascending};
use crate::radix::{
    lemma_reorder_members, lemma_stable_order, reorder, stable_order,
};
use crate::ruranges_structs::{GroupType, Interval, PositionType};
use crate::sorts::{build_sorted_intervals, interval_key, interval_rows, sorted_intervals};
use vstd::prelude::*;

verus! {

/// Whether row `t` of `rows` is accepted: the first row of a group always
/// is, another row if it starts more than `slack` behind the end of the row
/// that was accepted last.
pub open spec fn accepts(rows: Seq<Interval>, slack: i64, t: int) -> bool
    decreases t, 1nat,
{
    t <= 0 || rows[t].group != rows[t - 1].group || rows[t].start > clamp(
        rows[last_accepted(rows, slack, t)].end + slack,
    )
}

/// The last row before row `t` that is accepted.
pub open spec fn last_accepted(rows: Seq<Interval>, slack: i64, t: int) -> int
    decreases t, 0nat,
{
    if t <= 1 {
        0
    } else if accepts(rows, slack, t - 1) {
        t - 1
    } else {
        last_accepted(rows, slack, t - 1)
    }
}

/// The rows that are accepted among the first `t`, in their order.
pub open spec fn accepted(rows: Seq<Interval>, slack: i64, t: int) -> Seq<u32>
    decreases t,
{
    if t <= 0 {
        Seq::empty()
    } else if accepts(rows, slack, t - 1) {
        accepted(rows, slack, t - 1).push(rows[t - 1].idx)
    } else {
        accepted(rows, slack, t - 1)
    }
}

/// The rows of a table by group, start and end.
pub open spec fn rows_by_start(chrs: Seq<i64>, starts: Seq<i64>, ends: Seq<i64>) -> Seq<Interval> {
    sorted_intervals(interval_rows(chrs, starts, ends, None, 0), true)
}

/// Groups ascend along `rows`, and starts ascend within a group.
pub open spec fn ordered_by_start(rows: Seq<Interval>) -> bool {
    forall|a: int, b: int|
        0 <= a < b < rows.len() ==> (#[trigger] rows[a]).group < (#[trigger] rows[b]).group || (
        rows[a].group == rows[b].group && rows[a].start <= rows[b].start)
}

proof fn lemma_last_accepted(rows: Seq<Interval>, slack: i64, t: int)
    requires
        1 <= t,
    ensures
        0 <= last_accepted(rows, slack, t) < t,
        accepts(rows, slack, last_accepted(rows, slack, t)),
        forall|a: int| 0 <= a < t && accepts(rows, slack, a) ==> a <= last_accepted(rows, slack, t),
    decreases t,
{
    if t > 1 && !accepts(rows, slack, t - 1) {
        lemma_last_accepted(rows, slack, t - 1);
    }
}

/// Of two accepted rows of one group, the later one starts more than `slack`
/// behind the end of the earlier one.
pub proof fn lemma_accepted_lie_apart(rows: Seq<Interval>, slack: i64, a: int, b: int)
    requires
        ordered_by_start(rows),
        0 <= a < b < rows.len(),
        accepts(rows, slack, a),
        accepts(rows, slack, b),
        rows[a].group == rows[b].group,
    ensures
        rows[b].start > rows[a].end + slack,
    decreases b,
{
    lemma_last_accepted(rows, slack, b);
    let last = last_accepted(rows, slack, b);
    assert(rows[b - 1].group == rows[b].group) by {
        if a < b - 1 {
            assert(rows[a].group <= rows[b - 1].group);
            assert(rows[b - 1].group <= rows[b].group);
        }
    }
    assert(rows[b].start > rows[last].end + slack);
    if last != a {
        assert(rows[a].group <= rows[last].group <= rows[b].group);
        lemma_accepted_lie_apart(rows, slack, a, last);
        assert(rows[last].start <= rows[b].start);
    }
}

proof fn lemma_rows_by_start(chrs: Seq<i64>, starts: Seq<i64>, ends: Seq<i64>)
    requires
        chrs.len() == starts.len(),
        chrs.len() == ends.len(),
        chrs.len() <= u32::MAX,
    ensures
        rows_by_start(chrs, starts, ends).len() == chrs.len(),
        ordered_by_start(rows_by_start(chrs, starts, ends)),
        forall|t: int|
            0 <= t < chrs.len() ==> {
                let row = #[trigger] rows_by_start(chrs, starts, ends)[t];
                &&& row.idx < chrs.len()
                &&& row.group == chrs[row.idx as int]
                &&& row.start == starts[row.idx as int]
                &&& row.end == ends[row.idx as int]
            },
        forall|s: int, t: int|
            0 <= s < t < chrs.len() ==> (#[trigger] rows_by_start(chrs, starts, ends)[s]).idx != (
            #[trigger] rows_by_start(chrs, starts, ends)[t]).idx,
{
    let built = interval_rows(chrs, starts, ends, None, 0);
    let keys = Seq::new(built.len(), |r: int| interval_key(built[r], true));
    let order = stable_order(keys);
    let rows = rows_by_start(chrs, starts, ends);
    lemma_stable_order(keys);
    assert(rows == reorder(built, order));
    assert forall|t: int| 0 <= t < chrs.len() implies {
        let row = #[trigger] rows[t];
        &&& row.idx == order[t]
        &&& row.idx < chrs.len()
        &&& row.group == chrs[row.idx as int]
        &&& row.start == starts[row.idx as int]
        &&& row.end == ends[row.idx as int]
    } by {
        assert(order[t] < keys.len());
        assert(rows[t] == built[order[t] as int]);
    }
    assert forall|a: int, b: int| 0 <= a < b < rows.len() implies (#[trigger] rows[a]).group < (
    #[trigger] rows[b]).group || (rows[a].group == rows[b].group && rows[a].start
        <= rows[b].start) by {
        assert(rows[a] == built[order[a] as int]);
        assert(rows[b] == built[order[b] as int]);
        assert(order[a] < keys.len() && order[b] < keys.len());
        assert(keys[order[a] as int] == interval_key(rows[a], true));
        assert(keys[order[b] as int] == interval_key(rows[b], true));
    }
    assert forall|s: int, t: int| 0 <= s < t < chrs.len() implies (#[trigger] rows[s]).idx != (
    #[trigger] rows[t]).idx by {
        assert(rows[s].idx == order[s] && rows[t].idx == order[t]);
    }
}

proof fn lemma_accepted_rows(rows: Seq<Interval>, slack: i64, t: int)
    requires
        0 <= t <= rows.len(),
    ensures
        forall|x: u32|
            accepted(rows, slack, t).contains(x) ==> exists|s: int|
                0 <= s < t && accepts(rows, slack, s) && (#[trigger] rows[s]).idx == x,
    decreases t,
{
    if t > 0 {
        lemma_accepted_rows(rows, slack, t - 1);
        let before = accepted(rows, slack, t - 1);
        let now = accepted(rows, slack, t);
        assert forall|x: u32| now.contains(x) implies exists|s: int|
            0 <= s < t && accepts(rows, slack, s) && (#[trigger] rows[s]).idx == x by {
            let j = choose|j: int| 0 <= j < now.len() && now[j] == x;
            if j < before.len() {
                assert(before[j] == x);
                assert(before.contains(x));
                let s = choose|s: int|
                    0 <= s < t - 1 && accepts(rows, slack, s) && (#[trigger] rows[s]).idx == x;
                assert(0 <= s < t && accepts(rows, slack, s) && rows[s].idx == x);
            } else {
                assert(accepts(rows, slack, t - 1) && rows[t - 1].idx == x);
            }
        }
    }
}

/// The rows that `max_disjoint` chooses.
pub open spec fn chosen_rows(chrs: Seq<i64>, starts: Seq<i64>, ends: Seq<i64>, slack: i64) -> Seq<
    u32,
> {
    ascending(accepted(rows_by_start(chrs, starts, ends), slack, chrs.len() as int))
}

/// Any two rows that `max_disjoint` chooses from one group lie apart: one of
/// them starts more than `slack` behind the end of the other.
pub proof fn lemma_chosen_lie_apart(chrs: Seq<i64>, starts: Seq<i64>, ends: Seq<i64>, slack: i64)
    requires
        chrs.len() == starts.len(),
        chrs.len() == ends.len(),
        chrs.len() <= u32::MAX,
    ensures
        forall|a: int, b: int|
            0 <= a < chosen_rows(chrs, starts, ends, slack).len() && 0 <= b < chosen_rows(
                chrs,
                starts,
                ends,
                slack,
            ).len() && chosen_rows(chrs, starts, ends, slack)[a] != chosen_rows(
                chrs,
                starts,
                ends,
                slack,
            )[b] ==> {
                let i = #[trigger] chosen_rows(chrs, starts, ends, slack)[a] as int;
                let j = #[trigger] chosen_rows(chrs, starts, ends, slack)[b] as int;
                &&& i < chrs.len()
                &&& j < chrs.len()
                &&& chrs[i] == chrs[j] ==> starts[j] > ends[i] + slack || starts[i] > ends[j]
                    + slack
            },
{
    let n = chrs.len() as int;
    let rows = rows_by_start(chrs, starts, ends);
    let chosen = accepted(rows, slack, n);
    let output = chosen_rows(chrs, starts, ends, slack);
    lemma_rows_by_start(chrs, starts, ends);
    lemma_accepted_rows(rows, slack, n);
    lemma_accepted_len(rows, slack, n);
    let keys = Seq::new(chosen.len(), |k: int| (chosen[k] as i64, 0i64, 0i64));
    lemma_reorder_members(chosen, keys);
    assert forall|a: int, b: int|
        0 <= a < output.len() && 0 <= b < output.len() && output[a] != output[b] implies {
        let i = #[trigger] output[a] as int;
        let j = #[trigger] output[b] as int;
        &&& i < chrs.len()
        &&& j < chrs.len()
        &&& chrs[i] == chrs[j] ==> starts[j] > ends[i] + slack || starts[i] > ends[j] + slack
    } by {
        assert(chosen.contains(output[a]));
        assert(chosen.contains(output[b]));
        let s = choose|s: int|
            0 <= s < n && accepts(rows, slack, s) && (#[trigger] rows[s]).idx == output[a];
        let u = choose|u: int|
            0 <= u < n && accepts(rows, slack, u) && (#[trigger] rows[u]).idx == output[b];
        assert(rows[s].group == chrs[rows[s].idx as int]);
        assert(rows[u].group == chrs[rows[u].idx as int]);
        if chrs[output[a] as int] == chrs[output[b] as int] {
            if s < u {
                lemma_accepted_lie_apart(rows, slack, s, u);
            } else {
                lemma_accepted_lie_apart(rows, slack, u, s);
            }
        }
    }
}

proof fn lemma_accepted_len(rows: Seq<Interval>, slack: i64, t: int)
    requires
        0 <= t,
    ensures
        accepted(rows, slack, t).len() <= t,
    decreases t,
{
    if t > 0 {
        lemma_accepted_len(rows, slack, t - 1);
    }
}

/// A greedy choice of rows whose intervals lie apart. The rows are taken by
/// group, start and end. The first row of a group is accepted, and each
/// further row that starts more than `slack` behind the end of the row
/// accepted last. The accepted rows are returned in ascending order.
///
/// Any two accepted rows of one group lie apart: one of them starts more
/// than `slack` behind the end of the other.
pub fn max_disjoint(
    groups: &[GroupType],
    starts: &[PositionType],
    ends: &[PositionType],
    slack: PositionType,
) -> (output: Vec<u32>)
    requires
        groups.len() == starts.len(),
        starts.len() == ends.len(),
        groups.len() <= u32::MAX,
    ensures
        output@ == chosen_rows(groups@, starts@, ends@, slack),
        forall|a: int, b: int|
            0 <= a < output.len() && 0 <= b < output.len() && output[a] != output[b] ==> {
                let i = #[trigger] output[a] as int;
                let j = #[trigger] output[b] as int;
                &&& i < groups.len()
                &&& j < groups.len()
                &&& groups[i] == groups[j] ==> starts[j] > ends[i] + slack || starts[i] > ends[j]
                    + slack
            },
{
    let intervals = build_sorted_intervals(groups, starts, ends, None, 0, true);
    let ghost rows = intervals@;
    let mut chosen: Vec<u32> = Vec::new();
    let mut last_end: i64 = 0;
    let mut t: usize = 0;
    while t < intervals.len()
        invariant
            t <= intervals.len(),
            rows == intervals@,
            chosen@ == accepted(rows, slack, t as int),
            t > 0 ==> 0 <= last_accepted(rows, slack, t as int) < t,
            t > 0 ==> last_end == rows[last_accepted(rows, slack, t as int)].end,
        decreases intervals.len() - t,
    {
        let interval = intervals[t];
        let take = t == 0 || interval.group != intervals[t - 1].group || interval.start > sat_add(
            last_end,
            slack,
        );
        proof {
            lemma_last_accepted(rows, slack, t + 1);
            assert(take == accepts(rows, slack, t as int));
            assert(last_accepted(rows, slack, t + 1) == (if t == 0 || take {
                t as int
            } else {
                last_accepted(rows, slack, t as int)
            }));
        }
        if take {
            last_end = interval.end;
            chosen.push(interval.idx);
        }
        t += 1;
    }
    let output = sort_ascending(&chosen);
    proof {
        lemma_chosen_lie_apart(groups@, starts@, ends@, slack);
        let all = chosen_rows(groups@, starts@, ends@, slack);
        assert forall|a: int, b: int|
            0 <= a < output.len() && 0 <= b < output.len() && output[a] != output[b] implies {
            let i = #[trigger] output[a] as int;
            let j = #[trigger] output[b] as int;
            &&& i < groups.len()
            &&& j < groups.len()
            &&& groups[i] == groups[j] ==> starts[j] > ends[i] + slack || starts[i] > ends[j]
                + slack
        } by {
            assert(output[a] == all[a] && output[b] == all[b]);
        }
    }
    output
}

} // verus!
