//! Builders that turn parallel columns into intervals and endpoint events,
//! and put them in sweep order.
//!
//! Events are ordered by `(group, position, is_start)`. An end sorts before a
//! start at the same position of the same group, which is what makes the
//! intervals half-open: one that ends at `p` does not meet one that starts at
//! `p`. Rows that tie keep the order in which they were built.

use crate::arith::{clamp, sat_add, sat_neg, sat_sub};
use crate::radix::{
    is_stable_order, lemma_reorder_members, reorder, sort_order, sort_rows, stable_order,
};
use crate::ruranges_structs::{
    Event, GenericEvent, GroupType, Interval, MaxEvent, MinEvent, PositionType,
    SplicedSubsequenceInterval, SubsequenceInterval,
};
use vstd::prelude::*;

verus! {

/// Each coordinate of `xs` moved by `d`, saturating.
pub open spec fn shift(xs: Seq<i64>, d: int) -> Seq<i64> {
    Seq::new(xs.len(), |i: int| clamp(xs[i] + d))
}

/// Each coordinate of `xs` negated, saturating.
pub open spec fn negate(xs: Seq<i64>) -> Seq<i64> {
    Seq::new(xs.len(), |i: int| clamp(-xs[i]))
}

/// The sort key of an event.
pub open spec fn event_key(e: Event) -> (i64, i64, i64) {
    (e.chr, e.pos, if e.is_start { 1i64 } else { 0i64 })
}

/// The sort key of an event that carries its interval.
pub open spec fn max_event_key(e: MaxEvent) -> (i64, i64, i64) {
    (e.chr, e.pos, if e.is_start { 1i64 } else { 0i64 })
}

/// The sort key of a position.
pub open spec fn min_event_key(e: MinEvent) -> (i64, i64, i64) {
    (e.chr, e.pos, 0i64)
}

/// The sort key of an interval: group, start and, where asked for, end.
pub open spec fn interval_key(iv: Interval, ends_too: bool) -> (i64, i64, i64) {
    (iv.group, iv.start, if ends_too { iv.end } else { 0i64 })
}

/// `events` in sweep order.
pub open spec fn sorted_events(events: Seq<Event>) -> Seq<Event> {
    reorder(events, stable_order(Seq::new(events.len(), |r: int| event_key(events[r]))))
}

/// `events` in sweep order.
pub open spec fn sorted_max_events(events: Seq<MaxEvent>) -> Seq<MaxEvent> {
    reorder(events, stable_order(Seq::new(events.len(), |r: int| max_event_key(events[r]))))
}

/// `events` by group and position.
pub open spec fn sorted_min_events(events: Seq<MinEvent>) -> Seq<MinEvent> {
    reorder(events, stable_order(Seq::new(events.len(), |r: int| min_event_key(events[r]))))
}

/// `intervals` by group and start, and by end where `ends_too`.
pub open spec fn sorted_intervals(intervals: Seq<Interval>, ends_too: bool) -> Seq<Interval> {
    reorder(
        intervals,
        stable_order(Seq::new(intervals.len(), |r: int| interval_key(intervals[r], ends_too))),
    )
}

/// Two events for each row, its start and then its end.
pub open spec fn endpoint_events(
    chrs: Seq<i64>,
    starts: Seq<i64>,
    ends: Seq<i64>,
    first_set: bool,
) -> Seq<Event> {
    Seq::new(
        2 * chrs.len(),
        |r: int|
            Event {
                chr: chrs[r / 2],
                pos: if r % 2 == 0 { starts[r / 2] } else { ends[r / 2] },
                is_start: r % 2 == 0,
                first_set,
                idx: (r / 2) as u32,
            },
    )
}

/// Two events for each row, its start and then its end, each with both ends.
pub open spec fn endpoint_max_events(
    chrs: Seq<i64>,
    starts: Seq<i64>,
    ends: Seq<i64>,
    first_set: bool,
) -> Seq<MaxEvent> {
    Seq::new(
        2 * chrs.len(),
        |r: int|
            MaxEvent {
                chr: chrs[r / 2],
                pos: if r % 2 == 0 { starts[r / 2] } else { ends[r / 2] },
                start: starts[r / 2],
                end: ends[r / 2],
                is_start: r % 2 == 0,
                first_set,
                idx: (r / 2) as u32,
            },
    )
}

/// One position for each row.
pub open spec fn position_events(chrs: Seq<i64>, pos: Seq<i64>) -> Seq<MinEvent> {
    Seq::new(chrs.len(), |i: int| MinEvent { chr: chrs[i], pos: pos[i], idx: i as u32 })
}

/// The events of one table: starts as they are, ends widened by `slack`.
pub open spec fn single_collection_events(
    chrs: Seq<i64>,
    starts: Seq<i64>,
    ends: Seq<i64>,
    slack: i64,
) -> Seq<Event> {
    endpoint_events(chrs, starts, shift(ends, slack as int), true)
}

/// The events of two tables, those of the first widened by `slack` on both sides.
pub open spec fn pair_events(
    chrs: Seq<i64>,
    starts: Seq<i64>,
    ends: Seq<i64>,
    chrs2: Seq<i64>,
    starts2: Seq<i64>,
    ends2: Seq<i64>,
    slack: i64,
) -> Seq<Event> {
    endpoint_events(chrs, shift(starts, -slack), shift(ends, slack as int), true)
        + endpoint_events(chrs2, starts2, ends2, false)
}

/// As `pair_events`, each event with both ends of its interval.
pub open spec fn pair_max_events(
    chrs: Seq<i64>,
    starts: Seq<i64>,
    ends: Seq<i64>,
    chrs2: Seq<i64>,
    starts2: Seq<i64>,
    ends2: Seq<i64>,
    slack: i64,
) -> Seq<MaxEvent> {
    endpoint_max_events(chrs, shift(starts, -slack), shift(ends, slack as int), true)
        + endpoint_max_events(chrs2, starts2, ends2, false)
}

/// The interval of row `i`: widened by `slack` on both sides, then mirrored
/// at zero where the row is marked as reversed.
pub open spec fn interval_row(
    chrs: Seq<i64>,
    starts: Seq<i64>,
    ends: Seq<i64>,
    reverse: Option<Seq<bool>>,
    slack: i64,
    i: int,
) -> Interval {
    let s = clamp(starts[i] - slack);
    let e = clamp(ends[i] + slack);
    let rev = reverse is Some && reverse->0[i];
    Interval {
        group: chrs[i],
        start: if rev { clamp(-s) } else { s },
        end: if rev { clamp(-e) } else { e },
        idx: i as u32,
    }
}

pub open spec fn interval_rows(
    chrs: Seq<i64>,
    starts: Seq<i64>,
    ends: Seq<i64>,
    reverse: Option<Seq<bool>>,
    slack: i64,
) -> Seq<Interval> {
    Seq::new(chrs.len(), |i: int| interval_row(chrs, starts, ends, reverse, slack, i))
}

/// The view of an optional column of flags.
pub open spec fn flags_view(flags: Option<&[bool]>) -> Option<Seq<bool>> {
    match flags {
        Some(f) => Some(f@),
        None => None,
    }
}

/// The exon of row `i`, mirrored at zero where it lies on the reverse strand.
pub open spec fn subsequence_row(
    chrs: Seq<i64>,
    starts: Seq<i64>,
    ends: Seq<i64>,
    strand_flags: Seq<bool>,
    i: int,
) -> SplicedSubsequenceInterval {
    SplicedSubsequenceInterval {
        chr: chrs[i],
        start: if strand_flags[i] { starts[i] } else { clamp(-starts[i]) },
        end: if strand_flags[i] { ends[i] } else { clamp(-ends[i]) },
        idx: i as u32,
        forward_strand: strand_flags[i],
        temp_cumsum: 0,
        temp_length: 0,
    }
}

pub open spec fn subsequence_rows(
    chrs: Seq<i64>,
    starts: Seq<i64>,
    ends: Seq<i64>,
    strand_flags: Seq<bool>,
) -> Seq<SplicedSubsequenceInterval> {
    Seq::new(chrs.len(), |i: int| subsequence_row(chrs, starts, ends, strand_flags, i))
}

pub open spec fn subsequence_key(iv: SplicedSubsequenceInterval) -> (i64, i64, i64) {
    (iv.chr, iv.start, iv.end)
}

pub open spec fn sorted_subsequence_rows(rows: Seq<SplicedSubsequenceInterval>) -> Seq<
    SplicedSubsequenceInterval,
> {
    reorder(rows, stable_order(Seq::new(rows.len(), |r: int| subsequence_key(rows[r]))))
}

/// The interval of row `i`, mirrored at zero where it lies on the reverse
/// strand and the forward strand is not forced.
pub open spec fn sequence_row(
    chrs: Seq<i64>,
    starts: Seq<i64>,
    ends: Seq<i64>,
    idxs: Seq<i64>,
    strand_flags: Seq<bool>,
    force_plus_strand: bool,
    i: int,
) -> SubsequenceInterval {
    let keep = force_plus_strand || strand_flags[i];
    SubsequenceInterval {
        group_id: chrs[i],
        start: if keep { starts[i] } else { clamp(-starts[i]) },
        end: if keep { ends[i] } else { clamp(-ends[i]) },
        idx: idxs[i],
        forward_strand: strand_flags[i],
    }
}

pub open spec fn sequence_rows(
    chrs: Seq<i64>,
    starts: Seq<i64>,
    ends: Seq<i64>,
    idxs: Seq<i64>,
    strand_flags: Seq<bool>,
    force_plus_strand: bool,
) -> Seq<SubsequenceInterval> {
    Seq::new(
        chrs.len(),
        |i: int| sequence_row(chrs, starts, ends, idxs, strand_flags, force_plus_strand, i),
    )
}

pub open spec fn sequence_key(iv: SubsequenceInterval) -> (i64, i64, i64) {
    (iv.group_id, iv.start, iv.end)
}

pub open spec fn sorted_sequence_rows(rows: Seq<SubsequenceInterval>) -> Seq<SubsequenceInterval> {
    reorder(rows, stable_order(Seq::new(rows.len(), |r: int| sequence_key(rows[r]))))
}

/// The event of row `i` at one of its ends: moved outwards by `slack`, then
/// mirrored at zero where `negative_position`.
pub open spec fn single_position_row(
    chrs: Seq<i64>,
    pos: Seq<i64>,
    start: bool,
    first_set: bool,
    negative_position: bool,
    slack: i64,
    i: int,
) -> Event {
    let p = if start { clamp(pos[i] - slack) } else { clamp(pos[i] + slack) };
    Event {
        chr: chrs[i],
        pos: if negative_position { clamp(-p) } else { p },
        is_start: start,
        first_set,
        idx: i as u32,
    }
}

pub open spec fn single_position_rows(
    chrs: Seq<i64>,
    pos: Seq<i64>,
    start: bool,
    first_set: bool,
    negative_position: bool,
    slack: i64,
) -> Seq<Event> {
    Seq::new(
        chrs.len(),
        |i: int| single_position_row(chrs, pos, start, first_set, negative_position, slack, i),
    )
}

/// The rows by ascending group, rows of one group in their own order.
pub open spec fn sorted_group_rows(chrs: Seq<i64>) -> Seq<u32> {
    let order = stable_order(Seq::new(chrs.len(), |i: int| (chrs[i], 0i64, 0i64)));
    Seq::new(order.len(), |k: int| order[k] as u32)
}

/// The start and the end of each interval as events, without their groups in
/// the order: by position, ends before starts.
pub open spec fn interval_events(intervals: Seq<Interval>, first_set: bool) -> Seq<Event> {
    Seq::new(
        2 * intervals.len(),
        |r: int|
            Event {
                chr: intervals[r / 2].group,
                pos: if r % 2 == 0 { intervals[r / 2].start } else { intervals[r / 2].end },
                is_start: r % 2 == 0,
                first_set,
                idx: intervals[r / 2].idx,
            },
    )
}

pub open spec fn position_key(e: Event) -> (i64, i64, i64) {
    (e.pos, if e.is_start { 1i64 } else { 0i64 }, 0i64)
}

pub open spec fn sorted_by_position(events: Seq<Event>) -> Seq<Event> {
    reorder(events, stable_order(Seq::new(events.len(), |r: int| position_key(events[r]))))
}

/// The same event in the type that the overlap sweeps read.
pub open spec fn as_generic(e: Event) -> GenericEvent {
    GenericEvent { chr: e.chr, pos: e.pos, is_start: e.is_start, first_set: e.first_set, idx: e.idx }
}

/// Events in sweep order are the events that were given.
pub proof fn lemma_sorted_events_members(events: Seq<Event>)
    requires
        events.len() <= usize::MAX,
    ensures
        sorted_events(events).len() == events.len(),
        forall|k: int|
            0 <= k < events.len() ==> events.contains(#[trigger] sorted_events(events)[k]),
{
    lemma_reorder_members(events, Seq::new(events.len(), |r: int| event_key(events[r])));
}

pub fn shifted(xs: &[i64], d: i64) -> (out: Vec<i64>)
    ensures
        out@ == shift(xs@, d as int),
{
    let mut out: Vec<i64> = Vec::new();
    let mut i: usize = 0;
    while i < xs.len()
        invariant
            i <= xs.len(),
            out.len() == i,
            forall|k: int| 0 <= k < i ==> #[trigger] out[k] == clamp(xs[k] + d),
        decreases xs.len() - i,
    {
        out.push(sat_add(xs[i], d));
        i += 1;
    }
    assert(out@ =~= shift(xs@, d as int));
    out
}

/// Each coordinate lowered by `d`, saturating.
pub fn lowered(xs: &[i64], d: i64) -> (out: Vec<i64>)
    ensures
        out@ == shift(xs@, -d),
{
    let mut out: Vec<i64> = Vec::new();
    let mut i: usize = 0;
    while i < xs.len()
        invariant
            i <= xs.len(),
            out.len() == i,
            forall|k: int| 0 <= k < i ==> #[trigger] out[k] == clamp(xs[k] - d),
        decreases xs.len() - i,
    {
        out.push(sat_sub(xs[i], d));
        i += 1;
    }
    assert(out@ =~= shift(xs@, -d));
    out
}

pub fn negated(xs: &[i64]) -> (out: Vec<i64>)
    ensures
        out@ == negate(xs@),
{
    let mut out: Vec<i64> = Vec::new();
    let mut i: usize = 0;
    while i < xs.len()
        invariant
            i <= xs.len(),
            out.len() == i,
            forall|k: int| 0 <= k < i ==> #[trigger] out[k] == clamp(-xs[k]),
        decreases xs.len() - i,
    {
        out.push(sat_neg(xs[i]));
        i += 1;
    }
    assert(out@ =~= negate(xs@));
    out
}

/// Appends the start and end events of every row to `events`.
pub fn push_endpoint_events(
    events: &mut Vec<Event>,
    chrs: &[i64],
    starts: &[i64],
    ends: &[i64],
    first_set: bool,
)
    requires
        chrs.len() == starts.len(),
        chrs.len() == ends.len(),
        chrs.len() <= u32::MAX,
    ensures
        final(events)@ == old(events)@ + endpoint_events(chrs@, starts@, ends@, first_set),
{
    let ghost before = events@;
    let ghost target = endpoint_events(chrs@, starts@, ends@, first_set);
    let mut i: usize = 0;
    while i < chrs.len()
        invariant
            chrs.len() == starts.len(),
            chrs.len() == ends.len(),
            chrs.len() <= u32::MAX,
            i <= chrs.len(),
            target == endpoint_events(chrs@, starts@, ends@, first_set),
            events@ == before + target.take(2 * i),
        decreases chrs.len() - i,
    {
        events.push(
            Event { chr: chrs[i], pos: starts[i], is_start: true, first_set, idx: i as u32 },
        );
        events.push(
            Event { chr: chrs[i], pos: ends[i], is_start: false, first_set, idx: i as u32 },
        );
        proof {
            assert(target[2 * i] == Event {
                chr: chrs[i as int],
                pos: starts[i as int],
                is_start: true,
                first_set,
                idx: i as u32,
            });
            assert(target[2 * i + 1] == Event {
                chr: chrs[i as int],
                pos: ends[i as int],
                is_start: false,
                first_set,
                idx: i as u32,
            });
            assert(events@ =~= before + target.take(2 * (i + 1)));
        }
        i += 1;
    }
    assert(target.take(2 * i) =~= target);
}

/// Appends the start and end events of every row to `events`, each with both
/// ends of its interval.
pub fn push_endpoint_max_events(
    events: &mut Vec<MaxEvent>,
    chrs: &[i64],
    starts: &[i64],
    ends: &[i64],
    first_set: bool,
)
    requires
        chrs.len() == starts.len(),
        chrs.len() == ends.len(),
        chrs.len() <= u32::MAX,
    ensures
        final(events)@ == old(events)@ + endpoint_max_events(chrs@, starts@, ends@, first_set),
{
    let ghost before = events@;
    let ghost target = endpoint_max_events(chrs@, starts@, ends@, first_set);
    let mut i: usize = 0;
    while i < chrs.len()
        invariant
            chrs.len() == starts.len(),
            chrs.len() == ends.len(),
            chrs.len() <= u32::MAX,
            i <= chrs.len(),
            target == endpoint_max_events(chrs@, starts@, ends@, first_set),
            events@ == before + target.take(2 * i),
        decreases chrs.len() - i,
    {
        events.push(
            MaxEvent {
                chr: chrs[i],
                pos: starts[i],
                start: starts[i],
                end: ends[i],
                is_start: true,
                first_set,
                idx: i as u32,
            },
        );
        events.push(
            MaxEvent {
                chr: chrs[i],
                pos: ends[i],
                start: starts[i],
                end: ends[i],
                is_start: false,
                first_set,
                idx: i as u32,
            },
        );
        proof {
            assert(target[2 * i] == MaxEvent {
                chr: chrs[i as int],
                pos: starts[i as int],
                start: starts[i as int],
                end: ends[i as int],
                is_start: true,
                first_set,
                idx: i as u32,
            });
            assert(target[2 * i + 1] == MaxEvent {
                chr: chrs[i as int],
                pos: ends[i as int],
                start: starts[i as int],
                end: ends[i as int],
                is_start: false,
                first_set,
                idx: i as u32,
            });
            assert(events@ =~= before + target.take(2 * (i + 1)));
        }
        i += 1;
    }
    assert(target.take(2 * i) =~= target);
}

/// `events` in sweep order.
pub fn sort_events(events: &Vec<Event>) -> (out: Vec<Event>)
    ensures
        out@ == sorted_events(events@),
        out.len() == events.len(),
{
    let mut keys: Vec<(i64, i64, i64)> = Vec::new();
    let mut i: usize = 0;
    while i < events.len()
        invariant
            i <= events.len(),
            keys.len() == i,
            forall|k: int| 0 <= k < i ==> #[trigger] keys[k] == event_key(events[k]),
        decreases events.len() - i,
    {
        let e = events[i];
        keys.push((e.chr, e.pos, if e.is_start { 1 } else { 0 }));
        i += 1;
    }
    assert(keys@ =~= Seq::new(events.len() as nat, |r: int| event_key(events[r])));
    sort_rows(events, &keys)
}

/// `events` in sweep order.
pub fn sort_max_events(events: &Vec<MaxEvent>) -> (out: Vec<MaxEvent>)
    ensures
        out@ == sorted_max_events(events@),
        out.len() == events.len(),
{
    let mut keys: Vec<(i64, i64, i64)> = Vec::new();
    let mut i: usize = 0;
    while i < events.len()
        invariant
            i <= events.len(),
            keys.len() == i,
            forall|k: int| 0 <= k < i ==> #[trigger] keys[k] == max_event_key(events[k]),
        decreases events.len() - i,
    {
        let e = events[i];
        keys.push((e.chr, e.pos, if e.is_start { 1 } else { 0 }));
        i += 1;
    }
    assert(keys@ =~= Seq::new(events.len() as nat, |r: int| max_event_key(events[r])));
    sort_rows(events, &keys)
}

/// `events` by group and position.
pub fn sort_min_events(events: &Vec<MinEvent>) -> (out: Vec<MinEvent>)
    ensures
        out@ == sorted_min_events(events@),
        out.len() == events.len(),
{
    let mut keys: Vec<(i64, i64, i64)> = Vec::new();
    let mut i: usize = 0;
    while i < events.len()
        invariant
            i <= events.len(),
            keys.len() == i,
            forall|k: int| 0 <= k < i ==> #[trigger] keys[k] == min_event_key(events[k]),
        decreases events.len() - i,
    {
        let e = events[i];
        keys.push((e.chr, e.pos, 0));
        i += 1;
    }
    assert(keys@ =~= Seq::new(events.len() as nat, |r: int| min_event_key(events[r])));
    sort_rows(events, &keys)
}

/// One interval per row, widened by `slack` on both sides. Where
/// `sort_reverse_direction` marks a row, its coordinates are negated, so that
/// ascending order of the result is descending order of the row.
pub fn build_intervals(
    chrs: &[GroupType],
    starts: &[PositionType],
    ends: &[PositionType],
    sort_reverse_direction: Option<&[bool]>,
    slack: PositionType,
) -> (intervals: Vec<Interval>)
    requires
        chrs.len() == starts.len(),
        chrs.len() == ends.len(),
        chrs.len() <= u32::MAX,
        sort_reverse_direction is Some ==> sort_reverse_direction->0.len() == chrs.len(),
    ensures
        intervals@ == interval_rows(
            chrs@,
            starts@,
            ends@,
            flags_view(sort_reverse_direction),
            slack,
        ),
{
    let ghost rev = flags_view(sort_reverse_direction);
    let mut intervals: Vec<Interval> = Vec::new();
    let mut i: usize = 0;
    while i < chrs.len()
        invariant
            chrs.len() == starts.len(),
            chrs.len() == ends.len(),
            chrs.len() <= u32::MAX,
            sort_reverse_direction is Some ==> sort_reverse_direction->0.len() == chrs.len(),
            rev == flags_view(sort_reverse_direction),
            i <= chrs.len(),
            intervals.len() == i,
            forall|k: int|
                0 <= k < i ==> #[trigger] intervals[k] == interval_row(
                    chrs@,
                    starts@,
                    ends@,
                    rev,
                    slack,
                    k,
                ),
        decreases chrs.len() - i,
    {
        let s = sat_sub(starts[i], slack);
        let e = sat_add(ends[i], slack);
        let reversed = match sort_reverse_direction {
            Some(reverse) => reverse[i],
            None => false,
        };
        intervals.push(
            Interval {
                group: chrs[i],
                start: if reversed { sat_neg(s) } else { s },
                end: if reversed { sat_neg(e) } else { e },
                idx: i as u32,
            },
        );
        i += 1;
    }
    assert(intervals@ =~= interval_rows(chrs@, starts@, ends@, rev, slack));
    intervals
}

/// One exon per row, with coordinates negated on the reverse strand so that
/// sorting puts the exons of a transcript in the order of transcription.
pub fn build_subsequence_intervals(
    chrs: &[GroupType],
    starts: &[PositionType],
    ends: &[PositionType],
    strand_flags: &[bool],
) -> (intervals: Vec<SplicedSubsequenceInterval>)
    requires
        chrs.len() == starts.len(),
        chrs.len() == ends.len(),
        chrs.len() == strand_flags.len(),
        chrs.len() <= u32::MAX,
    ensures
        intervals@ == subsequence_rows(chrs@, starts@, ends@, strand_flags@),
{
    let mut intervals: Vec<SplicedSubsequenceInterval> = Vec::new();
    let mut i: usize = 0;
    while i < chrs.len()
        invariant
            chrs.len() == starts.len(),
            chrs.len() == ends.len(),
            chrs.len() == strand_flags.len(),
            chrs.len() <= u32::MAX,
            i <= chrs.len(),
            intervals.len() == i,
            forall|k: int|
                0 <= k < i ==> #[trigger] intervals[k] == subsequence_row(
                    chrs@,
                    starts@,
                    ends@,
                    strand_flags@,
                    k,
                ),
        decreases chrs.len() - i,
    {
        let fwd = strand_flags[i];
        intervals.push(
            SplicedSubsequenceInterval {
                chr: chrs[i],
                start: if fwd { starts[i] } else { sat_neg(starts[i]) },
                end: if fwd { ends[i] } else { sat_neg(ends[i]) },
                idx: i as u32,
                forward_strand: fwd,
                temp_cumsum: 0,
                temp_length: 0,
            },
        );
        i += 1;
    }
    assert(intervals@ =~= subsequence_rows(chrs@, starts@, ends@, strand_flags@));
    intervals
}

/// One interval per row with the row's own identifier, negated on the reverse
/// strand unless `force_plus_strand`.
pub fn build_sequence_intervals(
    chrs: &[i64],
    starts: &[i64],
    ends: &[i64],
    idxs: &[i64],
    strand_flags: &[bool],
    force_plus_strand: bool,
) -> (intervals: Vec<SubsequenceInterval>)
    requires
        chrs.len() == starts.len(),
        chrs.len() == ends.len(),
        chrs.len() == idxs.len(),
        chrs.len() == strand_flags.len(),
    ensures
        intervals@ == sequence_rows(
            chrs@,
            starts@,
            ends@,
            idxs@,
            strand_flags@,
            force_plus_strand,
        ),
{
    let mut intervals: Vec<SubsequenceInterval> = Vec::new();
    let mut i: usize = 0;
    while i < chrs.len()
        invariant
            chrs.len() == starts.len(),
            chrs.len() == ends.len(),
            chrs.len() == idxs.len(),
            chrs.len() == strand_flags.len(),
            i <= chrs.len(),
            intervals.len() == i,
            forall|k: int|
                0 <= k < i ==> #[trigger] intervals[k] == sequence_row(
                    chrs@,
                    starts@,
                    ends@,
                    idxs@,
                    strand_flags@,
                    force_plus_strand,
                    k,
                ),
        decreases chrs.len() - i,
    {
        let keep = force_plus_strand || strand_flags[i];
        intervals.push(
            SubsequenceInterval {
                group_id: chrs[i],
                start: if keep { starts[i] } else { sat_neg(starts[i]) },
                end: if keep { ends[i] } else { sat_neg(ends[i]) },
                idx: idxs[i],
                forward_strand: strand_flags[i],
            },
        );
        i += 1;
    }
    assert(intervals@ =~= sequence_rows(
        chrs@,
        starts@,
        ends@,
        idxs@,
        strand_flags@,
        force_plus_strand,
    ));
    intervals
}

/// The intervals of `build_intervals` by group and start, and by end where
/// `sort_on_ends_too`.
pub fn build_sorted_intervals(
    chrs: &[GroupType],
    starts: &[PositionType],
    ends: &[PositionType],
    sort_reverse_direction: Option<&[bool]>,
    slack: PositionType,
    sort_on_ends_too: bool,
) -> (intervals: Vec<Interval>)
    requires
        chrs.len() == starts.len(),
        chrs.len() == ends.len(),
        chrs.len() <= u32::MAX,
        sort_reverse_direction is Some ==> sort_reverse_direction->0.len() == chrs.len(),
    ensures
        intervals@ == sorted_intervals(
            interval_rows(chrs@, starts@, ends@, flags_view(sort_reverse_direction), slack),
            sort_on_ends_too,
        ),
        intervals.len() == chrs.len(),
{
    let rows = build_intervals(chrs, starts, ends, sort_reverse_direction, slack);
    let mut keys: Vec<(i64, i64, i64)> = Vec::new();
    let mut i: usize = 0;
    while i < rows.len()
        invariant
            i <= rows.len(),
            keys.len() == i,
            forall|k: int|
                0 <= k < i ==> #[trigger] keys[k] == interval_key(rows[k], sort_on_ends_too),
        decreases rows.len() - i,
    {
        let iv = rows[i];
        keys.push((iv.group, iv.start, if sort_on_ends_too { iv.end } else { 0 }));
        i += 1;
    }
    assert(keys@ =~= Seq::new(
        rows.len() as nat,
        |r: int| interval_key(rows[r], sort_on_ends_too),
    ));
    sort_rows(&rows, &keys)
}

/// The exons of `build_subsequence_intervals` by group, start and end.
pub fn build_sorted_subsequence_intervals(
    chrs: &[GroupType],
    starts: &[PositionType],
    ends: &[PositionType],
    strand_flags: &[bool],
) -> (intervals: Vec<SplicedSubsequenceInterval>)
    requires
        chrs.len() == starts.len(),
        chrs.len() == ends.len(),
        chrs.len() == strand_flags.len(),
        chrs.len() <= u32::MAX,
    ensures
        intervals@ == sorted_subsequence_rows(
            subsequence_rows(chrs@, starts@, ends@, strand_flags@),
        ),
        intervals.len() == chrs.len(),
{
    let rows = build_subsequence_intervals(chrs, starts, ends, strand_flags);
    let mut keys: Vec<(i64, i64, i64)> = Vec::new();
    let mut i: usize = 0;
    while i < rows.len()
        invariant
            i <= rows.len(),
            keys.len() == i,
            forall|k: int| 0 <= k < i ==> #[trigger] keys[k] == subsequence_key(rows[k]),
        decreases rows.len() - i,
    {
        let iv = rows[i];
        keys.push((iv.chr, iv.start, iv.end));
        i += 1;
    }
    assert(keys@ =~= Seq::new(rows.len() as nat, |r: int| subsequence_key(rows[r])));
    sort_rows(&rows, &keys)
}

/// The intervals of `build_sequence_intervals` by group, start and end.
pub fn build_sorted_sequence_intervals(
    chrs: &[i64],
    starts: &[i64],
    ends: &[i64],
    idxs: &[i64],
    strand_flags: &[bool],
    force_plus_strand: bool,
) -> (intervals: Vec<SubsequenceInterval>)
    requires
        chrs.len() == starts.len(),
        chrs.len() == ends.len(),
        chrs.len() == idxs.len(),
        chrs.len() == strand_flags.len(),
    ensures
        intervals@ == sorted_sequence_rows(
            sequence_rows(chrs@, starts@, ends@, idxs@, strand_flags@, force_plus_strand),
        ),
        intervals.len() == chrs.len(),
{
    let rows = build_sequence_intervals(chrs, starts, ends, idxs, strand_flags, force_plus_strand);
    let mut keys: Vec<(i64, i64, i64)> = Vec::new();
    let mut i: usize = 0;
    while i < rows.len()
        invariant
            i <= rows.len(),
            keys.len() == i,
            forall|k: int| 0 <= k < i ==> #[trigger] keys[k] == sequence_key(rows[k]),
        decreases rows.len() - i,
    {
        let iv = rows[i];
        keys.push((iv.group_id, iv.start, iv.end));
        i += 1;
    }
    assert(keys@ =~= Seq::new(rows.len() as nat, |r: int| sequence_key(rows[r])));
    sort_rows(&rows, &keys)
}

/// The rows in the order of group, start and end.
pub fn sort_order_idx(
    chrs: &[GroupType],
    starts: &[PositionType],
    ends: &[PositionType],
    sort_reverse_direction: Option<&[bool]>,
) -> (order: Vec<u32>)
    requires
        chrs.len() == starts.len(),
        chrs.len() == ends.len(),
        chrs.len() <= u32::MAX,
        sort_reverse_direction is Some ==> sort_reverse_direction->0.len() == chrs.len(),
    ensures
        order@ == Seq::new(
            chrs.len() as nat,
            |k: int|
                sorted_intervals(
                    interval_rows(chrs@, starts@, ends@, flags_view(sort_reverse_direction), 0),
                    true,
                )[k].idx,
        ),
{
    let intervals = build_sorted_intervals(chrs, starts, ends, sort_reverse_direction, 0, true);
    let mut order: Vec<u32> = Vec::new();
    let mut k: usize = 0;
    while k < intervals.len()
        invariant
            k <= intervals.len(),
            order.len() == k,
            forall|j: int| 0 <= j < k ==> #[trigger] order[j] == intervals[j].idx,
        decreases intervals.len() - k,
    {
        order.push(intervals[k].idx);
        k += 1;
    }
    assert(order@ =~= Seq::new(chrs.len() as nat, |k: int| intervals@[k].idx));
    order
}

/// One event per row at one end of it, in sweep order. The position moves
/// outwards by `slack`: down for a start, up for an end.
pub fn build_sorted_events_single_position(
    chrs: &[GroupType],
    pos: &[PositionType],
    start: bool,
    first_set: bool,
    negative_position: bool,
    slack: PositionType,
) -> (events: Vec<Event>)
    requires
        chrs.len() == pos.len(),
        chrs.len() <= u32::MAX,
    ensures
        events@ == sorted_events(
            single_position_rows(chrs@, pos@, start, first_set, negative_position, slack),
        ),
{
    let mut rows: Vec<Event> = Vec::new();
    let mut i: usize = 0;
    while i < chrs.len()
        invariant
            chrs.len() == pos.len(),
            chrs.len() <= u32::MAX,
            i <= chrs.len(),
            rows.len() == i,
            forall|k: int|
                0 <= k < i ==> #[trigger] rows[k] == single_position_row(
                    chrs@,
                    pos@,
                    start,
                    first_set,
                    negative_position,
                    slack,
                    k,
                ),
        decreases chrs.len() - i,
    {
        let p = if start { sat_sub(pos[i], slack) } else { sat_add(pos[i], slack) };
        rows.push(
            Event {
                chr: chrs[i],
                pos: if negative_position { sat_neg(p) } else { p },
                is_start: start,
                first_set,
                idx: i as u32,
            },
        );
        i += 1;
    }
    assert(rows@ =~= single_position_rows(
        chrs@,
        pos@,
        start,
        first_set,
        negative_position,
        slack,
    ));
    sort_events(&rows)
}

/// The start and end events of one table in sweep order, ends widened by `slack`.
pub fn build_sorted_events_single_collection(
    chrs: &[GroupType],
    starts: &[PositionType],
    ends: &[PositionType],
    slack: PositionType,
) -> (events: Vec<Event>)
    requires
        chrs.len() == starts.len(),
        chrs.len() == ends.len(),
        chrs.len() <= u32::MAX,
    ensures
        events@ == sorted_events(single_collection_events(chrs@, starts@, ends@, slack)),
        events.len() == 2 * chrs.len(),
{
    let wide_ends = shifted(ends, slack);
    let mut rows: Vec<Event> = Vec::new();
    push_endpoint_events(&mut rows, chrs, starts, wide_ends.as_slice(), true);
    assert(rows@ =~= single_collection_events(chrs@, starts@, ends@, slack));
    sort_events(&rows)
}

/// One position per row, lowered by `slack`, by group and position.
pub fn build_sorted_events_single_collection_separate_outputs(
    chrs: &[GroupType],
    pos: &[PositionType],
    slack: PositionType,
) -> (out_pos: Vec<MinEvent>)
    requires
        chrs.len() == pos.len(),
        chrs.len() <= u32::MAX,
    ensures
        out_pos@ == sorted_min_events(position_events(chrs@, shift(pos@, -slack))),
        out_pos.len() == chrs.len(),
{
    let mut rows: Vec<MinEvent> = Vec::new();
    let mut i: usize = 0;
    while i < chrs.len()
        invariant
            chrs.len() == pos.len(),
            chrs.len() <= u32::MAX,
            i <= chrs.len(),
            rows.len() == i,
            forall|k: int|
                0 <= k < i ==> #[trigger] rows[k] == (MinEvent {
                    chr: chrs[k],
                    pos: clamp(pos[k] - slack),
                    idx: k as u32,
                }),
        decreases chrs.len() - i,
    {
        rows.push(MinEvent { chr: chrs[i], pos: sat_sub(pos[i], slack), idx: i as u32 });
        i += 1;
    }
    assert(rows@ =~= position_events(chrs@, shift(pos@, -slack)));
    sort_min_events(&rows)
}

/// The rows by ascending group, rows of one group in their own order.
pub fn build_sorted_groups(chrs: &[GroupType]) -> (rows: Vec<u32>)
    requires
        chrs.len() <= u32::MAX,
    ensures
        rows@ == sorted_group_rows(chrs@),
{
    let mut keys: Vec<(i64, i64, i64)> = Vec::new();
    let mut i: usize = 0;
    while i < chrs.len()
        invariant
            i <= chrs.len(),
            keys.len() == i,
            forall|k: int| 0 <= k < i ==> #[trigger] keys[k] == (chrs[k], 0i64, 0i64),
        decreases chrs.len() - i,
    {
        keys.push((chrs[i], 0, 0));
        i += 1;
    }
    assert(keys@ =~= Seq::new(chrs.len() as nat, |i: int| (chrs[i], 0i64, 0i64)));
    let order = sort_order(&keys);
    let mut rows: Vec<u32> = Vec::new();
    let mut k: usize = 0;
    while k < order.len()
        invariant
            k <= order.len(),
            order.len() == chrs.len(),
            chrs.len() <= u32::MAX,
            is_stable_order(order@, keys@),
            keys.len() == chrs.len(),
            rows.len() == k,
            forall|j: int| 0 <= j < k ==> #[trigger] rows[j] == order[j] as u32,
        decreases order.len() - k,
    {
        rows.push(order[k] as u32);
        k += 1;
    }
    assert(rows@ =~= sorted_group_rows(chrs@));
    rows
}

/// One position per row, lowered by `slack`, by group and position.
pub fn build_sorted_events_with_starts_ends(
    chrs: &[GroupType],
    pos: &[PositionType],
    slack: PositionType,
) -> (out_pos: Vec<MinEvent>)
    requires
        chrs.len() == pos.len(),
        chrs.len() <= u32::MAX,
    ensures
        out_pos@ == sorted_min_events(position_events(chrs@, shift(pos@, -slack))),
        out_pos.len() == chrs.len(),
{
    build_sorted_events_single_collection_separate_outputs(chrs, pos, slack)
}

/// The events of two tables in sweep order. The intervals of the first table
/// are widened by `slack` on both sides.
pub fn build_sorted_events(
    chrs: &[GroupType],
    starts: &[PositionType],
    ends: &[PositionType],
    chrs2: &[GroupType],
    starts2: &[PositionType],
    ends2: &[PositionType],
    slack: PositionType,
) -> (events: Vec<GenericEvent>)
    requires
        chrs.len() == starts.len(),
        chrs.len() == ends.len(),
        chrs.len() <= u32::MAX,
        chrs2.len() == starts2.len(),
        chrs2.len() == ends2.len(),
        chrs2.len() <= u32::MAX,
    ensures
        events@ == sorted_events(
            pair_events(chrs@, starts@, ends@, chrs2@, starts2@, ends2@, slack),
        ).map_values(|e: Event| as_generic(e)),
{
    let sorted = build_sorted_events_idxs(chrs, starts, ends, chrs2, starts2, ends2, slack);
    let mut events: Vec<GenericEvent> = Vec::new();
    let mut k: usize = 0;
    while k < sorted.len()
        invariant
            k <= sorted.len(),
            events.len() == k,
            forall|j: int| 0 <= j < k ==> #[trigger] events[j] == as_generic(sorted[j]),
        decreases sorted.len() - k,
    {
        let e = sorted[k];
        events.push(
            GenericEvent {
                chr: e.chr,
                pos: e.pos,
                is_start: e.is_start,
                first_set: e.first_set,
                idx: e.idx,
            },
        );
        k += 1;
    }
    assert(events@ =~= sorted@.map_values(|e: Event| as_generic(e)));
    events
}

/// The events of two tables in sweep order, each with both ends of its
/// interval. The intervals of the first table are widened by `slack`.
pub fn build_sorted_maxevents_with_starts_ends(
    chrs: &[GroupType],
    starts: &[PositionType],
    ends: &[PositionType],
    chrs2: &[GroupType],
    starts2: &[PositionType],
    ends2: &[PositionType],
    slack: PositionType,
) -> (events: Vec<MaxEvent>)
    requires
        chrs.len() == starts.len(),
        chrs.len() == ends.len(),
        chrs.len() <= u32::MAX,
        chrs2.len() == starts2.len(),
        chrs2.len() == ends2.len(),
        chrs2.len() <= u32::MAX,
    ensures
        events@ == sorted_max_events(
            pair_max_events(chrs@, starts@, ends@, chrs2@, starts2@, ends2@, slack),
        ),
{
    let low_starts = lowered(starts, slack);
    let wide_ends = shifted(ends, slack);
    let mut rows: Vec<MaxEvent> = Vec::new();
    push_endpoint_max_events(&mut rows, chrs, low_starts.as_slice(), wide_ends.as_slice(), true);
    push_endpoint_max_events(&mut rows, chrs2, starts2, ends2, false);
    assert(rows@ =~= pair_max_events(chrs@, starts@, ends@, chrs2@, starts2@, ends2@, slack));
    sort_max_events(&rows)
}

/// The events of two tables in sweep order. The intervals of the first table
/// are widened by `slack` on both sides.
pub fn build_sorted_events_idxs(
    chrs: &[GroupType],
    starts: &[PositionType],
    ends: &[PositionType],
    chrs2: &[GroupType],
    starts2: &[PositionType],
    ends2: &[PositionType],
    slack: PositionType,
) -> (events: Vec<Event>)
    requires
        chrs.len() == starts.len(),
        chrs.len() == ends.len(),
        chrs.len() <= u32::MAX,
        chrs2.len() == starts2.len(),
        chrs2.len() == ends2.len(),
        chrs2.len() <= u32::MAX,
    ensures
        events@ == sorted_events(
            pair_events(chrs@, starts@, ends@, chrs2@, starts2@, ends2@, slack),
        ),
        events.len() == 2 * chrs.len() + 2 * chrs2.len(),
{
    let low_starts = lowered(starts, slack);
    let wide_ends = shifted(ends, slack);
    let mut rows: Vec<Event> = Vec::new();
    push_endpoint_events(&mut rows, chrs, low_starts.as_slice(), wide_ends.as_slice(), true);
    push_endpoint_events(&mut rows, chrs2, starts2, ends2, false);
    assert(rows@ =~= pair_events(chrs@, starts@, ends@, chrs2@, starts2@, ends2@, slack));
    sort_events(&rows)
}

/// The start and end events of two lists of intervals, by position alone,
/// ends before starts.
pub fn build_sorted_events_from_intervals(
    intervals1: &[Interval],
    intervals2: &[Interval],
) -> (events: Vec<Event>)
    ensures
        events@ == sorted_by_position(
            interval_events(intervals1@, true) + interval_events(intervals2@, false),
        ),
{
    let mut rows: Vec<Event> = Vec::new();
    push_interval_events(&mut rows, intervals1, true);
    push_interval_events(&mut rows, intervals2, false);
    let mut keys: Vec<(i64, i64, i64)> = Vec::new();
    let mut i: usize = 0;
    while i < rows.len()
        invariant
            i <= rows.len(),
            keys.len() == i,
            forall|k: int| 0 <= k < i ==> #[trigger] keys[k] == position_key(rows[k]),
        decreases rows.len() - i,
    {
        let e = rows[i];
        keys.push((e.pos, if e.is_start { 1 } else { 0 }, 0));
        i += 1;
    }
    assert(keys@ =~= Seq::new(rows.len() as nat, |r: int| position_key(rows[r])));
    sort_rows(&rows, &keys)
}

fn push_interval_events(events: &mut Vec<Event>, intervals: &[Interval], first_set: bool)
    ensures
        final(events)@ == old(events)@ + interval_events(intervals@, first_set),
{
    let ghost before = events@;
    let ghost target = interval_events(intervals@, first_set);
    let mut i: usize = 0;
    while i < intervals.len()
        invariant
            i <= intervals.len(),
            target == interval_events(intervals@, first_set),
            events@ == before + target.take(2 * i),
        decreases intervals.len() - i,
    {
        let iv = intervals[i];
        events.push(
            Event { chr: iv.group, pos: iv.start, is_start: true, first_set, idx: iv.idx },
        );
        events.push(Event { chr: iv.group, pos: iv.end, is_start: false, first_set, idx: iv.idx });
        proof {
            assert(target[2 * i] == Event {
                chr: iv.group,
                pos: iv.start,
                is_start: true,
                first_set,
                idx: iv.idx,
            });
            assert(target[2 * i + 1] == Event {
                chr: iv.group,
                pos: iv.end,
                is_start: false,
                first_set,
                idx: iv.idx,
            });
            assert(events@ =~= before + target.take(2 * (i + 1)));
        }
        i += 1;
    }
    assert(target.take(2 * i) =~= target);
}

} // verus!
