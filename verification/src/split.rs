//! Splitting: the intervals of a group cut at every start and end among them.

use crate::coverage_laws::proper_rows;
use crate::overlaps::group_changes;
use crate::ruranges_structs::{Event, GroupType, MinInterval, PositionType};
use crate::sorts::{build_sorted_events_single_collection, single_collection_events, sorted_events};
use crate::split_laws::{cuts_coverage, lemma_split_cuts_coverage};
use vstd::prelude::*;

verus! {

/// Where the sweep stands between two cuts.
pub struct Splitting {
    /// Intervals opened and not yet closed.
    pub open: nat,
    /// The position of the last cut.
    pub last_pos: i64,
    /// The row of the event at the last cut.
    pub last_idx: u32,
}

/// Whether event `t` makes a cut: it lies in the group of the event before
/// it, at a greater position than the last cut.
pub open spec fn cuts_at(events: Seq<Event>, t: int) -> bool {
    t > 0 && !group_changes(events, t) && events[t].pos > splitting(events, t).last_pos
}

/// The state once the first `t` events are done. An end that finds nothing
/// open leaves nothing open.
pub open spec fn splitting(events: Seq<Event>, t: int) -> Splitting
    decreases t,
{
    if t <= 0 {
        Splitting { open: 0, last_pos: 0, last_idx: 0 }
    } else {
        let e = events[t - 1];
        let prev = splitting(events, t - 1);
        if t == 1 || group_changes(events, t - 1) {
            Splitting { open: if e.is_start { 1 } else { 0 }, last_pos: e.pos, last_idx: e.idx }
        } else {
            let moved = e.pos > prev.last_pos;
            Splitting {
                open: if e.is_start {
                    prev.open + 1
                } else if prev.open > 0 {
                    (prev.open - 1) as nat
                } else {
                    0
                },
                last_pos: if moved { e.pos } else { prev.last_pos },
                last_idx: if moved { e.idx } else { prev.last_idx },
            }
        }
    }
}

/// The pieces that the first `t` events cut off: at each cut the stretch
/// from the last cut, where something is open on it or `between` asks for
/// the gaps as well.
pub open spec fn pieces(events: Seq<Event>, between: bool, t: int) -> Seq<MinInterval>
    decreases t,
{
    if t <= 0 {
        Seq::empty()
    } else {
        let before = pieces(events, between, t - 1);
        let prev = splitting(events, t - 1);
        if cuts_at(events, t - 1) && (prev.open > 0 || between) {
            before.push(
                MinInterval { start: prev.last_pos, end: events[t - 1].pos, idx: prev.last_idx },
            )
        } else {
            before
        }
    }
}

/// The pieces of a table whose ends are widened by `slack`.
pub open spec fn split_pieces(
    chrs: Seq<i64>,
    starts: Seq<i64>,
    ends: Seq<i64>,
    slack: i64,
    between: bool,
) -> Seq<MinInterval> {
    pieces(
        sorted_events(single_collection_events(chrs, starts, ends, slack)),
        between,
        2 * chrs.len() as int,
    )
}

proof fn lemma_splitting_bounds(events: Seq<Event>, t: int)
    requires
        0 <= t,
    ensures
        splitting(events, t).open <= t,
    decreases t,
{
    if t > 0 {
        lemma_splitting_bounds(events, t - 1);
    }
}

/// Cuts the covered stretch of each group at every start and end, and
/// returns the pieces as three columns: a row, start, end. The row is that
/// of the event at which the piece begins. With `between`, the stretches
/// between the intervals of a group are pieces as well.
///
/// For a table of proper intervals the pieces lie apart within their group
/// and hold no start or end of the group within them; they cover what the
/// intervals cover and, without `between`, nothing more.
pub fn sweep_line_split(
    chrs: &[GroupType],
    starts: &[PositionType],
    ends: &[PositionType],
    slack: PositionType,
    between: bool,
) -> (out: (Vec<u32>, Vec<PositionType>, Vec<PositionType>))
    requires
        chrs.len() == starts.len(),
        chrs.len() == ends.len(),
        chrs.len() <= u32::MAX,
    ensures
        out.0@ == Seq::new(
            split_pieces(chrs@, starts@, ends@, slack, between).len(),
            |k: int| split_pieces(chrs@, starts@, ends@, slack, between)[k].idx,
        ),
        out.1@ == Seq::new(
            split_pieces(chrs@, starts@, ends@, slack, between).len(),
            |k: int| split_pieces(chrs@, starts@, ends@, slack, between)[k].start,
        ),
        out.2@ == Seq::new(
            split_pieces(chrs@, starts@, ends@, slack, between).len(),
            |k: int| split_pieces(chrs@, starts@, ends@, slack, between)[k].end,
        ),
        proper_rows(chrs@, starts@, ends@, slack) ==> cuts_coverage(
            chrs@,
            starts@,
            ends@,
            slack,
            between,
            split_pieces(chrs@, starts@, ends@, slack, between),
        ),
{
    proof {
        if proper_rows(chrs@, starts@, ends@, slack) {
            lemma_split_cuts_coverage(chrs@, starts@, ends@, slack, between);
        }
    }
    let events = build_sorted_events_single_collection(chrs, starts, ends, slack);
    let mut idxs_out: Vec<u32> = Vec::new();
    let mut starts_out: Vec<i64> = Vec::new();
    let mut ends_out: Vec<i64> = Vec::new();
    let mut active_count: u64 = 0;
    let mut last_pos: i64 = 0;
    let mut last_idx: u32 = 0;
    let mut t: usize = 0;
    while t < events.len()
        invariant
            t <= events.len(),
            events.len() <= 2 * u32::MAX,
            active_count == splitting(events@, t as int).open,
            last_pos == splitting(events@, t as int).last_pos,
            last_idx == splitting(events@, t as int).last_idx,
            idxs_out.len() == pieces(events@, between, t as int).len(),
            starts_out.len() == idxs_out.len(),
            ends_out.len() == idxs_out.len(),
            forall|k: int|
                0 <= k < idxs_out.len() ==> #[trigger] idxs_out[k] == pieces(
                    events@,
                    between,
                    t as int,
                )[k].idx,
            forall|k: int|
                0 <= k < idxs_out.len() ==> #[trigger] starts_out[k] == pieces(
                    events@,
                    between,
                    t as int,
                )[k].start,
            forall|k: int|
                0 <= k < idxs_out.len() ==> #[trigger] ends_out[k] == pieces(
                    events@,
                    between,
                    t as int,
                )[k].end,
        decreases events.len() - t,
    {
        let e = events[t];
        proof {
            lemma_splitting_bounds(events@, t as int);
        }
        if t == 0 || e.chr != events[t - 1].chr {
            active_count = if e.is_start { 1 } else { 0 };
            last_pos = e.pos;
            last_idx = e.idx;
        } else {
            if e.pos > last_pos {
                if active_count > 0 || between {
                    idxs_out.push(last_idx);
                    starts_out.push(last_pos);
                    ends_out.push(e.pos);
                }
                last_pos = e.pos;
                last_idx = e.idx;
            }
            if e.is_start {
                active_count += 1;
            } else if active_count > 0 {
                active_count -= 1;
            }
        }
        t += 1;
    }
    proof {
        let all = split_pieces(chrs@, starts@, ends@, slack, between);
        assert(all == pieces(events@, between, events.len() as int));
        assert(idxs_out@ =~= Seq::new(all.len(), |k: int| all[k].idx));
        assert(starts_out@ =~= Seq::new(all.len(), |k: int| all[k].start));
        assert(ends_out@ =~= Seq::new(all.len(), |k: int| all[k].end));
    }
    (idxs_out, starts_out, ends_out)
}

} // verus!
