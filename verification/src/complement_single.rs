//! The complement of one table: the gaps that its intervals leave in each group.

use crate::active::group_length;
use crate::complement_laws::{
    lemma_gaps_tile_groups, lemma_gaps_tile_groups_behind_first, lies_within_groups,
    tiles_groups, tiles_groups_behind_first,
};
use crate::overlaps::group_changes;
use crate::ruranges_structs::{Event, GroupType, PositionType};
use crate::sorts::{build_sorted_events_single_collection, single_collection_events, sorted_events};
use rustc_hash::FxHashMap;
use vstd::prelude::*;

verus! {

/// Where the sweep stands between the intervals of a group.
pub struct GapState {
    /// Intervals opened and not yet closed.
    pub open: int,
    /// Whether a gap is open.
    pub in_gap: bool,
    /// Where the open gap began.
    pub gap_start: i64,
    /// The row that gaps of this group are reported with.
    pub index: u32,
}

/// A stretch of a group that no interval covers.
pub struct Gap {
    pub chr: i64,
    pub start: i64,
    pub end: i64,
    pub idx: u32,
}

/// The state at the start of a group whose gaps are reported with row `index`.
pub open spec fn fresh_gap_state(include_first: bool, index: u32) -> GapState {
    GapState { open: 0, in_gap: include_first, gap_start: 0, index }
}

/// Whether the start event `e` closes the gap of `met`: coverage rises from
/// nothing, a gap is open, and it did not begin at this very position.
pub open spec fn closes_gap(met: GapState, e: Event) -> bool {
    e.is_start && met.open == 0 && met.in_gap && met.gap_start != e.pos
}

/// The state once the first `t` events are done.
pub open spec fn gap_state(events: Seq<Event>, include_first: bool, t: int) -> GapState
    decreases t, 0nat,
{
    if t <= 0 {
        fresh_gap_state(include_first, 0)
    } else {
        let e = events[t - 1];
        let met = gap_state_met(events, include_first, t - 1);
        if e.is_start {
            GapState {
                open: met.open + 1,
                in_gap: met.in_gap && !closes_gap(met, e),
                gap_start: met.gap_start,
                index: met.index,
            }
        } else if met.open - 1 == 0 {
            GapState { open: 0, in_gap: true, gap_start: e.pos, index: met.index }
        } else {
            GapState {
                open: met.open - 1,
                in_gap: met.in_gap,
                gap_start: met.gap_start,
                index: met.index,
            }
        }
    }
}

/// The state that event `t` finds: a fresh one where it begins a group.
pub open spec fn gap_state_met(events: Seq<Event>, include_first: bool, t: int) -> GapState
    decreases t, 1nat,
{
    if t <= 0 {
        fresh_gap_state(include_first, 0)
    } else if group_changes(events, t) {
        fresh_gap_state(include_first, events[t].idx)
    } else {
        gap_state(events, include_first, t)
    }
}

/// Whether the group of event `t - 1` ends with a gap that reaches to the
/// end of the group: it does where the length of the group is known and a
/// gap is open behind the last event.
pub open spec fn has_trailing_gap(
    events: Seq<Event>,
    lengths: Map<i64, i64>,
    include_first: bool,
    t: int,
) -> bool {
    lengths.contains_key(events[t - 1].chr) && gap_state(events, include_first, t).in_gap
}

/// The gap between the last interval of the group of event `t - 1` and the
/// end of that group.
pub open spec fn trailing_gap(
    events: Seq<Event>,
    lengths: Map<i64, i64>,
    include_first: bool,
    t: int,
) -> Gap {
    Gap {
        chr: events[t - 1].chr,
        start: gap_state(events, include_first, t).gap_start,
        end: lengths[events[t - 1].chr],
        idx: gap_state(events, include_first, t).index,
    }
}

/// The gaps that the first `t` events report: behind the last event of a
/// group the gap up to the length of that group, and before a start that
/// finds nothing open the gap that it closes.
pub open spec fn gaps(
    events: Seq<Event>,
    lengths: Map<i64, i64>,
    include_first: bool,
    t: int,
) -> Seq<Gap>
    decreases t,
{
    if t <= 0 {
        Seq::empty()
    } else {
        let e = events[t - 1];
        let met = gap_state_met(events, include_first, t - 1);
        let before = gaps(events, lengths, include_first, t - 1);
        let closed = if group_changes(events, t - 1) && has_trailing_gap(
            events,
            lengths,
            include_first,
            t - 1,
        ) {
            before.push(trailing_gap(events, lengths, include_first, t - 1))
        } else {
            before
        };
        if closes_gap(met, e) {
            closed.push(Gap { chr: e.chr, start: met.gap_start, end: e.pos, idx: met.index })
        } else {
            closed
        }
    }
}

/// All gaps of a sequence of events.
pub open spec fn all_gaps(events: Seq<Event>, lengths: Map<i64, i64>, include_first: bool) -> Seq<
    Gap,
> {
    let n = events.len() as int;
    if n > 0 && has_trailing_gap(events, lengths, include_first, n) {
        gaps(events, lengths, include_first, n).push(
            trailing_gap(events, lengths, include_first, n),
        )
    } else {
        gaps(events, lengths, include_first, n)
    }
}

/// The gaps of a table whose ends are widened by `slack`.
pub open spec fn complement_gaps(
    chrs: Seq<i64>,
    starts: Seq<i64>,
    ends: Seq<i64>,
    slack: i64,
    lengths: Map<i64, i64>,
    include_first: bool,
) -> Seq<Gap> {
    all_gaps(
        sorted_events(single_collection_events(chrs, starts, ends, slack)),
        lengths,
        include_first,
    )
}

proof fn lemma_gap_state_bounds(events: Seq<Event>, include_first: bool, t: int)
    requires
        0 <= t,
    ensures
        -t <= gap_state(events, include_first, t).open <= t,
        -t <= gap_state_met(events, include_first, t).open <= t,
    decreases t,
{
    if t > 0 {
        lemma_gap_state_bounds(events, include_first, t - 1);
    }
}

/// The gaps between the intervals of each group, as four columns: group,
/// start, end, and a row of the group. A gap runs from where coverage drops
/// to nothing to where it next rises; one of no length is left out. With
/// `include_first_interval` the stretch from zero to the first interval of
/// a group counts as a gap. Behind the last interval of a group lies a gap
/// up to the length that `chrom_lens` gives for the group, and none where it
/// gives no length.
///
/// For a table of proper intervals that lie within their groups, the gaps
/// and the widened intervals tile each group: a position lies in a gap
/// exactly if no interval covers it and, where the first stretch is no gap,
/// an interval of the group starts at or before it.
pub fn sweep_line_complement(
    chrs: &[GroupType],
    starts: &[PositionType],
    ends: &[PositionType],
    slack: PositionType,
    chrom_lens: &FxHashMap<GroupType, PositionType>,
    include_first_interval: bool,
) -> (out: (Vec<GroupType>, Vec<PositionType>, Vec<PositionType>, Vec<u32>))
    requires
        chrs.len() == starts.len(),
        chrs.len() == ends.len(),
        chrs.len() <= u32::MAX,
    ensures
        out.0@ == Seq::new(
            complement_gaps(
                chrs@,
                starts@,
                ends@,
                slack,
                chrom_lens@,
                include_first_interval,
            ).len(),
            |k: int|
                complement_gaps(
                    chrs@,
                    starts@,
                    ends@,
                    slack,
                    chrom_lens@,
                    include_first_interval,
                )[k].chr,
        ),
        out.1@ == Seq::new(
            complement_gaps(
                chrs@,
                starts@,
                ends@,
                slack,
                chrom_lens@,
                include_first_interval,
            ).len(),
            |k: int|
                complement_gaps(
                    chrs@,
                    starts@,
                    ends@,
                    slack,
                    chrom_lens@,
                    include_first_interval,
                )[k].start,
        ),
        out.2@ == Seq::new(
            complement_gaps(
                chrs@,
                starts@,
                ends@,
                slack,
                chrom_lens@,
                include_first_interval,
            ).len(),
            |k: int|
                complement_gaps(
                    chrs@,
                    starts@,
                    ends@,
                    slack,
                    chrom_lens@,
                    include_first_interval,
                )[k].end,
        ),
        out.3@ == Seq::new(
            complement_gaps(
                chrs@,
                starts@,
                ends@,
                slack,
                chrom_lens@,
                include_first_interval,
            ).len(),
            |k: int|
                complement_gaps(
                    chrs@,
                    starts@,
                    ends@,
                    slack,
                    chrom_lens@,
                    include_first_interval,
                )[k].idx,
        ),
        include_first_interval && lies_within_groups(chrs@, starts@, ends@, slack, chrom_lens@)
            ==> tiles_groups(
            chrs@,
            starts@,
            ends@,
            slack,
            chrom_lens@,
            complement_gaps(chrs@, starts@, ends@, slack, chrom_lens@, include_first_interval),
        ),
        !include_first_interval && lies_within_groups(chrs@, starts@, ends@, slack, chrom_lens@)
            ==> tiles_groups_behind_first(
            chrs@,
            starts@,
            ends@,
            slack,
            chrom_lens@,
            complement_gaps(chrs@, starts@, ends@, slack, chrom_lens@, include_first_interval),
        ),
{
    let mut out_chrs: Vec<i64> = Vec::new();
    let mut out_starts: Vec<i64> = Vec::new();
    let mut out_ends: Vec<i64> = Vec::new();
    let mut out_idxs: Vec<u32> = Vec::new();
    let events = build_sorted_events_single_collection(chrs, starts, ends, slack);
    let ghost lengths = chrom_lens@;
    let ghost first = include_first_interval;
    let mut active_count: i64 = 0;
    let mut in_complement = include_first_interval;
    let mut current_start: i64 = 0;
    let mut current_index: u32 = 0;
    let mut t: usize = 0;
    while t < events.len()
        invariant
            t <= events.len(),
            events.len() <= 2 * u32::MAX,
            lengths == chrom_lens@,
            first == include_first_interval,
            active_count == gap_state(events@, first, t as int).open,
            in_complement == gap_state(events@, first, t as int).in_gap,
            current_start == gap_state(events@, first, t as int).gap_start,
            current_index == gap_state(events@, first, t as int).index,
            out_chrs.len() == gaps(events@, lengths, first, t as int).len(),
            out_starts.len() == out_chrs.len(),
            out_ends.len() == out_chrs.len(),
            out_idxs.len() == out_chrs.len(),
            forall|k: int|
                0 <= k < out_chrs.len() ==> #[trigger] out_chrs[k] == gaps(
                    events@,
                    lengths,
                    first,
                    t as int,
                )[k].chr,
            forall|k: int|
                0 <= k < out_chrs.len() ==> #[trigger] out_starts[k] == gaps(
                    events@,
                    lengths,
                    first,
                    t as int,
                )[k].start,
            forall|k: int|
                0 <= k < out_chrs.len() ==> #[trigger] out_ends[k] == gaps(
                    events@,
                    lengths,
                    first,
                    t as int,
                )[k].end,
            forall|k: int|
                0 <= k < out_chrs.len() ==> #[trigger] out_idxs[k] == gaps(
                    events@,
                    lengths,
                    first,
                    t as int,
                )[k].idx,
        decreases events.len() - t,
    {
        let e = events[t];
        proof {
            lemma_gap_state_bounds(events@, first, t as int);
            lemma_gap_state_bounds(events@, first, t + 1);
        }
        if t > 0 && e.chr != events[t - 1].chr {
            let current_chr = events[t - 1].chr;
            match group_length(chrom_lens, current_chr) {
                Some(chlen) => {
                    if in_complement {
                        out_chrs.push(current_chr);
                        out_starts.push(current_start);
                        out_ends.push(chlen);
                        out_idxs.push(current_index);
                    }
                },
                None => {},
            }
            active_count = 0;
            in_complement = include_first_interval;
            current_start = 0;
            current_index = e.idx;
        }
        if e.is_start {
            active_count += 1;
            if active_count == 1 && in_complement && current_start != e.pos {
                out_chrs.push(e.chr);
                out_starts.push(current_start);
                out_ends.push(e.pos);
                out_idxs.push(current_index);
                in_complement = false;
            }
        } else {
            active_count -= 1;
            if active_count == 0 {
                in_complement = true;
                current_start = e.pos;
            }
        }
        t += 1;
    }
    if events.len() > 0 {
        let current_chr = events[events.len() - 1].chr;
        match group_length(chrom_lens, current_chr) {
            Some(chlen) => {
                if in_complement {
                    out_chrs.push(current_chr);
                    out_starts.push(current_start);
                    out_ends.push(chlen);
                    out_idxs.push(current_index);
                }
            },
            None => {},
        }
    }
    proof {
        let all = complement_gaps(chrs@, starts@, ends@, slack, lengths, first);
        assert(all == all_gaps(events@, lengths, first));
        assert(out_chrs@ =~= Seq::new(all.len(), |k: int| all[k].chr));
        assert(out_starts@ =~= Seq::new(all.len(), |k: int| all[k].start));
        assert(out_ends@ =~= Seq::new(all.len(), |k: int| all[k].end));
        assert(out_idxs@ =~= Seq::new(all.len(), |k: int| all[k].idx));
        if include_first_interval && lies_within_groups(chrs@, starts@, ends@, slack, lengths) {
            lemma_gaps_tile_groups(chrs@, starts@, ends@, slack, lengths);
        }
        if !include_first_interval && lies_within_groups(chrs@, starts@, ends@, slack, lengths) {
            lemma_gaps_tile_groups_behind_first(chrs@, starts@, ends@, slack, lengths);
        }
    }
    (out_chrs, out_starts, out_ends, out_idxs)
}

} // verus!
