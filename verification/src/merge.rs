//! Merging: one sweep over the events of a table that joins the intervals
//! of a group into maximal runs of coverage.

use crate::arith::{clamp, sat_sub};
use crate::coverage_laws::{keeps_coverage, lemma_merge_keeps_coverage, proper_rows};
use crate::overlaps::{cap_u32, group_changes};
use crate::ruranges_structs::{Event, GroupType, PositionType};
use crate::sorts::{build_sorted_events_single_collection, single_collection_events, sorted_events};
use vstd::prelude::*;

verus! {

/// Where the sweep stands within a run of coverage.
pub struct Coverage {
    /// Intervals opened and not yet closed.
    pub open: int,
    /// The position at which the run began.
    pub run_start: i64,
    /// Intervals opened since the run began.
    pub members: nat,
}

/// A maximal run of coverage: the row that closed it, its two ends, and the
/// number of intervals in it.
pub struct Run {
    pub idx: u32,
    pub start: i64,
    pub end: i64,
    pub count: u32,
}

/// The coverage once the first `t` events are done. Each group starts with
/// nothing open; an event that finds nothing open begins a run.
pub open spec fn coverage(events: Seq<Event>, t: int) -> Coverage
    decreases t,
{
    if t <= 0 {
        Coverage { open: 0, run_start: 0, members: 0 }
    } else {
        let e = events[t - 1];
        let prev = coverage(events, t - 1);
        let open = if group_changes(events, t - 1) { 0 } else { prev.open };
        let fresh = open == 0;
        let run_start = if fresh { e.pos } else { prev.run_start };
        let members = if fresh { 0 } else { prev.members };
        if e.is_start {
            Coverage { open: open + 1, run_start, members: members + 1 }
        } else {
            Coverage { open: open - 1, run_start, members }
        }
    }
}

/// Event `t` closes a run: it is an end, and nothing is open behind it.
pub open spec fn closes_run(events: Seq<Event>, t: int) -> bool {
    !events[t].is_start && coverage(events, t + 1).open == 0
}

/// The run that event `t` closes. Its end is the end of the closing interval
/// without the `slack` that the events were built with.
pub open spec fn run_at(events: Seq<Event>, slack: i64, t: int) -> Run {
    Run {
        idx: events[t].idx,
        start: coverage(events, t + 1).run_start,
        end: clamp(events[t].pos - slack),
        count: cap_u32(coverage(events, t + 1).members),
    }
}

/// The runs that the first `t` events close, in their order.
pub open spec fn runs(events: Seq<Event>, slack: i64, t: int) -> Seq<Run>
    decreases t,
{
    if t <= 0 {
        Seq::empty()
    } else if closes_run(events, t - 1) {
        runs(events, slack, t - 1).push(run_at(events, slack, t - 1))
    } else {
        runs(events, slack, t - 1)
    }
}

/// The runs of coverage of a table, with intervals of one group joined where
/// less than `slack` lies between them.
pub open spec fn merged_runs(chrs: Seq<i64>, starts: Seq<i64>, ends: Seq<i64>, slack: i64) -> Seq<
    Run,
> {
    runs(
        sorted_events(single_collection_events(chrs, starts, ends, slack)),
        slack,
        2 * chrs.len() as int,
    )
}

proof fn lemma_coverage_bounds(events: Seq<Event>, t: int)
    requires
        0 <= t,
    ensures
        -t <= coverage(events, t).open <= t,
        coverage(events, t).members <= t,
    decreases t,
{
    if t > 0 {
        lemma_coverage_bounds(events, t - 1);
    }
}

/// Merges the intervals of each group into maximal runs of coverage. For each
/// run, in sweep order: the row whose end closed it, where it starts, where
/// it ends, and how many intervals it joins.
pub fn sweep_line_merge(
    chrs: &[GroupType],
    starts: &[PositionType],
    ends: &[PositionType],
    slack: PositionType,
) -> (out: (Vec<u32>, Vec<PositionType>, Vec<PositionType>, Vec<u32>))
    requires
        chrs.len() == starts.len(),
        chrs.len() == ends.len(),
        chrs.len() <= u32::MAX,
    ensures
        out.0@ == Seq::new(
            merged_runs(chrs@, starts@, ends@, slack).len(),
            |k: int| merged_runs(chrs@, starts@, ends@, slack)[k].idx,
        ),
        out.1@ == Seq::new(
            merged_runs(chrs@, starts@, ends@, slack).len(),
            |k: int| merged_runs(chrs@, starts@, ends@, slack)[k].start,
        ),
        out.2@ == Seq::new(
            merged_runs(chrs@, starts@, ends@, slack).len(),
            |k: int| merged_runs(chrs@, starts@, ends@, slack)[k].end,
        ),
        out.3@ == Seq::new(
            merged_runs(chrs@, starts@, ends@, slack).len(),
            |k: int| merged_runs(chrs@, starts@, ends@, slack)[k].count,
        ),
        proper_rows(chrs@, starts@, ends@, slack) ==> keeps_coverage(
            chrs@,
            starts@,
            ends@,
            slack,
            merged_runs(chrs@, starts@, ends@, slack),
        ),
{
    let mut out_indices: Vec<u32> = Vec::new();
    let mut out_starts: Vec<i64> = Vec::new();
    let mut out_ends: Vec<i64> = Vec::new();
    let mut counts: Vec<u32> = Vec::new();
    let events = build_sorted_events_single_collection(chrs, starts, ends, slack);
    let mut current_start: i64 = 0;
    let mut active_count: i64 = 0;
    let mut current_cluster_count: u64 = 0;
    let mut t: usize = 0;
    while t < events.len()
        invariant
            t <= events.len(),
            events.len() <= 2 * u32::MAX,
            active_count == coverage(events@, t as int).open,
            current_start == coverage(events@, t as int).run_start,
            current_cluster_count == coverage(events@, t as int).members,
            out_indices.len() == runs(events@, slack, t as int).len(),
            out_starts.len() == out_indices.len(),
            out_ends.len() == out_indices.len(),
            counts.len() == out_indices.len(),
            forall|k: int|
                0 <= k < out_indices.len() ==> #[trigger] out_indices[k] == runs(
                    events@,
                    slack,
                    t as int,
                )[k].idx,
            forall|k: int|
                0 <= k < out_indices.len() ==> #[trigger] out_starts[k] == runs(
                    events@,
                    slack,
                    t as int,
                )[k].start,
            forall|k: int|
                0 <= k < out_indices.len() ==> #[trigger] out_ends[k] == runs(
                    events@,
                    slack,
                    t as int,
                )[k].end,
            forall|k: int|
                0 <= k < out_indices.len() ==> #[trigger] counts[k] == runs(
                    events@,
                    slack,
                    t as int,
                )[k].count,
        decreases events.len() - t,
    {
        let e = events[t];
        proof {
            lemma_coverage_bounds(events@, t as int);
            lemma_coverage_bounds(events@, t + 1);
        }
        if t > 0 && e.chr != events[t - 1].chr {
            active_count = 0;
        }
        if active_count == 0 {
            current_start = e.pos;
            current_cluster_count = 0;
        }
        if e.is_start {
            active_count += 1;
            current_cluster_count += 1;
        } else {
            active_count -= 1;
            if active_count == 0 {
                out_indices.push(e.idx);
                out_starts.push(current_start);
                out_ends.push(sat_sub(e.pos, slack));
                counts.push(
                    if current_cluster_count > u32::MAX as u64 {
                        u32::MAX
                    } else {
                        current_cluster_count as u32
                    },
                );
            }
        }
        t += 1;
    }
    proof {
        let all = merged_runs(chrs@, starts@, ends@, slack);
        assert(all == runs(events@, slack, events.len() as int));
        assert(out_indices@ =~= Seq::new(all.len(), |k: int| all[k].idx));
        assert(out_starts@ =~= Seq::new(all.len(), |k: int| all[k].start));
        assert(out_ends@ =~= Seq::new(all.len(), |k: int| all[k].end));
        assert(counts@ =~= Seq::new(all.len(), |k: int| all[k].count));
        if proper_rows(chrs@, starts@, ends@, slack) {
            lemma_merge_keeps_coverage(chrs@, starts@, ends@, slack);
        }
    }
    (out_indices, out_starts, out_ends, counts)
}

} // verus!
