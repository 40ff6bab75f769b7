//! Boundaries: the span that the events of each group cover.

use crate::boundary_laws::{lemma_spans_are_of_groups, spans_groups};
use crate::coverage_laws::proper_rows;
use crate::merge::Run;
use crate::overlaps::{cap_u32, group_changes};
use crate::ruranges_structs::{Event, GroupType, PositionType};
use crate::sorts::{build_sorted_events_single_collection, single_collection_events, sorted_events};
use vstd::prelude::*;

verus! {

/// The first event of the group that event `t` belongs to.
pub open spec fn group_first(events: Seq<Event>, t: int) -> int
    decreases t,
{
    if t <= 0 || group_changes(events, t) {
        t
    } else {
        group_first(events, t - 1)
    }
}

/// Event `t` is the last of its group.
pub open spec fn ends_group(events: Seq<Event>, t: int) -> bool {
    t + 1 == events.len() || group_changes(events, t + 1)
}

/// The span of the group that event `t` is the last of: the row of that
/// event, the position of the first event of the group, that of the last,
/// and the number of events in the group.
pub open spec fn span_at(events: Seq<Event>, t: int) -> Run {
    Run {
        idx: events[t].idx,
        start: events[group_first(events, t)].pos,
        end: events[t].pos,
        count: cap_u32((t - group_first(events, t) + 1) as nat),
    }
}

/// The spans of the groups that end within the first `t` events.
pub open spec fn spans(events: Seq<Event>, t: int) -> Seq<Run>
    decreases t,
{
    if t <= 0 {
        Seq::empty()
    } else if ends_group(events, t - 1) {
        spans(events, t - 1).push(span_at(events, t - 1))
    } else {
        spans(events, t - 1)
    }
}

/// The spans of the groups of a table, in the order of the groups.
pub open spec fn group_spans(chrs: Seq<i64>, starts: Seq<i64>, ends: Seq<i64>) -> Seq<Run> {
    spans(sorted_events(single_collection_events(chrs, starts, ends, 0)), 2 * chrs.len() as int)
}

proof fn lemma_group_first_bounds(events: Seq<Event>, t: int)
    requires
        0 <= t,
    ensures
        0 <= group_first(events, t) <= t,
    decreases t,
{
    if t > 0 && !group_changes(events, t) {
        lemma_group_first_bounds(events, t - 1);
    }
}

/// For each group, in ascending order: the row of its last event, the
/// position of its first event, the position of its last event, and the
/// number of its events, which is twice the number of its rows.
///
/// For a table of proper intervals there is one span for each group, from
/// the least start of its rows to their greatest end, reported with the
/// row that ends last.
pub fn sweep_line_boundary(
    chrs: &[GroupType],
    starts: &[PositionType],
    ends: &[PositionType],
) -> (out: (Vec<u32>, Vec<PositionType>, Vec<PositionType>, Vec<u32>))
    requires
        chrs.len() == starts.len(),
        chrs.len() == ends.len(),
        chrs.len() <= u32::MAX,
    ensures
        out.0@ == Seq::new(
            group_spans(chrs@, starts@, ends@).len(),
            |k: int| group_spans(chrs@, starts@, ends@)[k].idx,
        ),
        out.1@ == Seq::new(
            group_spans(chrs@, starts@, ends@).len(),
            |k: int| group_spans(chrs@, starts@, ends@)[k].start,
        ),
        out.2@ == Seq::new(
            group_spans(chrs@, starts@, ends@).len(),
            |k: int| group_spans(chrs@, starts@, ends@)[k].end,
        ),
        out.3@ == Seq::new(
            group_spans(chrs@, starts@, ends@).len(),
            |k: int| group_spans(chrs@, starts@, ends@)[k].count,
        ),
        proper_rows(chrs@, starts@, ends@, 0) ==> spans_groups(
            chrs@,
            starts@,
            ends@,
            group_spans(chrs@, starts@, ends@),
        ),
{
    proof {
        if proper_rows(chrs@, starts@, ends@, 0) {
            lemma_spans_are_of_groups(chrs@, starts@, ends@);
        }
    }
    let mut out_indices: Vec<u32> = Vec::new();
    let mut out_starts: Vec<i64> = Vec::new();
    let mut out_ends: Vec<i64> = Vec::new();
    let mut counts: Vec<u32> = Vec::new();
    let events = build_sorted_events_single_collection(chrs, starts, ends, 0);
    let mut current_start: i64 = 0;
    let mut current_cluster_count: u64 = 0;
    let mut t: usize = 0;
    while t < events.len()
        invariant
            t <= events.len(),
            events.len() <= 2 * u32::MAX,
            t > 0 ==> 0 <= group_first(events@, t - 1) <= t - 1,
            t > 0 ==> current_start == events[group_first(events@, t - 1)].pos,
            t > 0 ==> current_cluster_count == t - group_first(events@, t - 1),
            out_indices.len() == spans(events@, t as int).len(),
            out_starts.len() == out_indices.len(),
            out_ends.len() == out_indices.len(),
            counts.len() == out_indices.len(),
            forall|k: int|
                0 <= k < out_indices.len() ==> #[trigger] out_indices[k] == spans(
                    events@,
                    t as int,
                )[k].idx,
            forall|k: int|
                0 <= k < out_indices.len() ==> #[trigger] out_starts[k] == spans(
                    events@,
                    t as int,
                )[k].start,
            forall|k: int|
                0 <= k < out_indices.len() ==> #[trigger] out_ends[k] == spans(
                    events@,
                    t as int,
                )[k].end,
            forall|k: int|
                0 <= k < out_indices.len() ==> #[trigger] counts[k] == spans(
                    events@,
                    t as int,
                )[k].count,
        decreases events.len() - t,
    {
        let e = events[t];
        proof {
            lemma_group_first_bounds(events@, t as int);
            if t > 0 {
                lemma_group_first_bounds(events@, t - 1);
            }
        }
        if t == 0 || e.chr != events[t - 1].chr {
            current_start = e.pos;
            current_cluster_count = 0;
        }
        current_cluster_count += 1;
        if t + 1 == events.len() || events[t + 1].chr != e.chr {
            out_indices.push(e.idx);
            out_starts.push(current_start);
            out_ends.push(e.pos);
            counts.push(
                if current_cluster_count > u32::MAX as u64 {
                    u32::MAX
                } else {
                    current_cluster_count as u32
                },
            );
        }
        t += 1;
    }
    proof {
        let all = group_spans(chrs@, starts@, ends@);
        assert(all == spans(events@, events.len() as int));
        assert(out_indices@ =~= Seq::new(all.len(), |k: int| all[k].idx));
        assert(out_starts@ =~= Seq::new(all.len(), |k: int| all[k].start));
        assert(out_ends@ =~= Seq::new(all.len(), |k: int| all[k].end));
        assert(counts@ =~= Seq::new(all.len(), |k: int| all[k].count));
    }
    (out_indices, out_starts, out_ends, counts)
}

} // verus!
