//! The overlap join: a sweep over the endpoint events of two tables that
//! keeps, for each table, the set of rows whose interval is open.
//!
//! When an interval of one table opens, it overlaps every interval of the
//! other table that is open at that moment. Since an end sorts before a start
//! at the same position, intervals that merely touch do not overlap.

use crate::active::{
    block_lists, is_listing, keys_of, lemma_next_listed, lists_in_turn, lists_sets,
    map_hashes_alike, new_row_map, new_row_set, rows_of, set_hashes_alike,
};
use crate::containment_laws::{
    holds_contained, lemma_sweep_finds_contained, max_events, max_sweep, within,
};
use crate::helpers::{
    firsts, keep_first_by_idx, keep_last_by_idx, keeps_one_of_each_row, lasts, lemma_firsts,
    lemma_lasts, rows_before,
};
use crate::overlap_laws::{
    lemma_count_is_number_of_overlaps, lemma_sweep_finds_overlaps, overlapping_rows,
    slack_tables, PairTables,
};
use crate::radix::{
    lemma_reorder_keeps_all, lemma_reorder_members, lemma_reorder_repeats_nothing, reorder,
    sort_rows, stable_order,
};
use crate::ruranges_structs::{
    Event, GroupType, MaxEvent, MinEvent, OverlapPair, OverlapType, PositionType,
};
use crate::sorts::{
    build_sorted_events_idxs, build_sorted_events_single_collection_separate_outputs,
    build_sorted_maxevents_with_starts_ends, lemma_sorted_events_members, negate, negated,
    pair_events, pair_max_events, position_events, shift, sorted_events, sorted_max_events,
    sorted_min_events,
};
use crate::stream_laws::{lemma_stream, lemma_streams_find_overlaps, stream};
use rustc_hash::FxHashMap;
use vstd::prelude::*;
use vstd::std_specs::hash::*;

verus! {

/// Whether event `t` is the first of another group than the event before it.
pub open spec fn group_changes(events: Seq<Event>, t: int) -> bool {
    t > 0 && events[t].chr != events[t - 1].chr
}

/// The rows of one table whose interval is open once the first `t` events
/// are done. A new group starts with no row open.
pub open spec fn active_rows(events: Seq<Event>, t: int, first_set: bool) -> Set<u32>
    decreases t, 0nat,
{
    if t <= 0 {
        Set::empty()
    } else {
        let e = events[t - 1];
        let before = met_rows(events, t - 1, first_set);
        if e.first_set != first_set {
            before
        } else if e.is_start {
            before.insert(e.idx)
        } else {
            before.remove(e.idx)
        }
    }
}

/// The rows of one table that event `t` finds open.
pub open spec fn met_rows(events: Seq<Event>, t: int, first_set: bool) -> Set<u32>
    decreases t, 1nat,
{
    if t <= 0 || group_changes(events, t) {
        Set::empty()
    } else {
        active_rows(events, t, first_set)
    }
}

/// The pairs that event `t` gives: where it opens an interval, that row
/// with each row of the other table that it finds open.
pub open spec fn pairs_at(events: Seq<Event>, t: int) -> Set<OverlapPair> {
    let e = events[t];
    if !e.is_start {
        Set::empty()
    } else if e.first_set {
        Set::new(|p: OverlapPair| p.idx == e.idx && met_rows(events, t, false).contains(p.idx2))
    } else {
        Set::new(|p: OverlapPair| p.idx2 == e.idx && met_rows(events, t, true).contains(p.idx))
    }
}

/// The sets of pairs of all events.
pub open spec fn pair_sets(events: Seq<Event>) -> Seq<Set<OverlapPair>> {
    Seq::new(events.len(), |t: int| pairs_at(events, t))
}

/// `out` is what the sweep over `events` may give: the pairs of each event in
/// turn, those of one event in any order, each once.
pub open spec fn is_sweep_output(events: Seq<Event>, out: Seq<OverlapPair>) -> bool {
    lists_sets(out, pair_sets(events))
}

/// Row `idx` of the first table with each of `rows`.
pub open spec fn pairs_of_left(idx: u32, rows: Seq<u32>) -> Seq<OverlapPair> {
    Seq::new(rows.len(), |q: int| OverlapPair { idx, idx2: rows[q] })
}

/// Each of `rows` with row `idx2` of the second table.
pub open spec fn pairs_of_right(rows: Seq<u32>, idx2: u32) -> Seq<OverlapPair> {
    Seq::new(rows.len(), |q: int| OverlapPair { idx: rows[q], idx2 })
}

proof fn lemma_pairs_of_left(idx: u32, rows: Seq<u32>, set: Set<u32>)
    requires
        is_listing(rows, set),
    ensures
        is_listing(
            pairs_of_left(idx, rows),
            Set::new(|p: OverlapPair| p.idx == idx && set.contains(p.idx2)),
        ),
{
    let out = pairs_of_left(idx, rows);
    let target = Set::new(|p: OverlapPair| p.idx == idx && set.contains(p.idx2));
    assert forall|p: OverlapPair| out.to_set().contains(p) <==> target.contains(p) by {
        if out.to_set().contains(p) {
            let q = choose|q: int| 0 <= q < out.len() && out[q] == p;
            assert(rows.to_set().contains(rows[q]));
        }
        if target.contains(p) {
            assert(rows.to_set().contains(p.idx2));
            let q = choose|q: int| 0 <= q < rows.len() && rows[q] == p.idx2;
            assert(out[q] == p);
        }
    }
    assert(out.to_set() =~= target);
    assert forall|a: int, b: int| 0 <= a < out.len() && 0 <= b < out.len() && a != b implies out[a]
        != out[b] by {
        assert(rows[a] != rows[b]);
    }
}

proof fn lemma_pairs_of_right(rows: Seq<u32>, idx2: u32, set: Set<u32>)
    requires
        is_listing(rows, set),
    ensures
        is_listing(
            pairs_of_right(rows, idx2),
            Set::new(|p: OverlapPair| p.idx2 == idx2 && set.contains(p.idx)),
        ),
{
    let out = pairs_of_right(rows, idx2);
    let target = Set::new(|p: OverlapPair| p.idx2 == idx2 && set.contains(p.idx));
    assert forall|p: OverlapPair| out.to_set().contains(p) <==> target.contains(p) by {
        if out.to_set().contains(p) {
            let q = choose|q: int| 0 <= q < out.len() && out[q] == p;
            assert(rows.to_set().contains(rows[q]));
        }
        if target.contains(p) {
            assert(rows.to_set().contains(p.idx));
            let q = choose|q: int| 0 <= q < rows.len() && rows[q] == p.idx;
            assert(out[q] == p);
        }
    }
    assert(out.to_set() =~= target);
    assert forall|a: int, b: int| 0 <= a < out.len() && 0 <= b < out.len() && a != b implies out[a]
        != out[b] by {
        assert(rows[a] != rows[b]);
    }
}

fn push_pairs_of_left(pairs: &mut Vec<OverlapPair>, idx: u32, rows: &Vec<u32>)
    ensures
        final(pairs)@ == old(pairs)@ + pairs_of_left(idx, rows@),
{
    let ghost before = pairs@;
    let mut q: usize = 0;
    while q < rows.len()
        invariant
            q <= rows.len(),
            pairs@ == before + pairs_of_left(idx, rows@).take(q as int),
        decreases rows.len() - q,
    {
        pairs.push(OverlapPair { idx, idx2: rows[q] });
        assert(pairs@ =~= before + pairs_of_left(idx, rows@).take(q + 1));
        q += 1;
    }
    assert(pairs_of_left(idx, rows@).take(q as int) =~= pairs_of_left(idx, rows@));
}

fn push_pairs_of_right(pairs: &mut Vec<OverlapPair>, rows: &Vec<u32>, idx2: u32)
    ensures
        final(pairs)@ == old(pairs)@ + pairs_of_right(rows@, idx2),
{
    let ghost before = pairs@;
    let mut q: usize = 0;
    while q < rows.len()
        invariant
            q <= rows.len(),
            pairs@ == before + pairs_of_right(rows@, idx2).take(q as int),
        decreases rows.len() - q,
    {
        pairs.push(OverlapPair { idx: rows[q], idx2 });
        assert(pairs@ =~= before + pairs_of_right(rows@, idx2).take(q + 1));
        q += 1;
    }
    assert(pairs_of_right(rows@, idx2).take(q as int) =~= pairs_of_right(rows@, idx2));
}

/// The sweep over events that are already in order: every pair of a row of
/// the first table and a row of the second of which one opens while the other
/// is open.
pub fn sweep_pairs(events: &Vec<Event>) -> (pairs: Vec<OverlapPair>)
    ensures
        is_sweep_output(events@, pairs@),
{
    broadcast use group_hash_axioms;

    let mut pairs: Vec<OverlapPair> = Vec::new();
    let mut active1 = new_row_set();
    let mut active2 = new_row_set();
    let ghost mut cuts: Seq<int> = seq![0int];
    let ghost sets = pair_sets(events@);
    let mut t: usize = 0;
    while t < events.len()
        invariant
            t <= events.len(),
            sets == pair_sets(events@),
            set_hashes_alike(&active1),
            set_hashes_alike(&active2),
            active1@ == active_rows(events@, t as int, true),
            active2@ == active_rows(events@, t as int, false),
            cuts.len() == t + 1,
            cuts[0] == 0,
            cuts[t as int] == pairs.len(),
            forall|s: int| 0 <= s < t ==> #[trigger] block_lists(pairs@, cuts, s, sets[s]),
        decreases events.len() - t,
    {
        let e = events[t];
        if t > 0 && e.chr != events[t - 1].chr {
            active1.clear();
            active2.clear();
        }
        assert(active1@ == met_rows(events@, t as int, true));
        assert(active2@ == met_rows(events@, t as int, false));
        let ghost before = pairs@;
        let ghost mut block: Seq<OverlapPair> = Seq::empty();
        if e.is_start {
            if e.first_set {
                let rows = rows_of(&active2);
                push_pairs_of_left(&mut pairs, e.idx, &rows);
                proof {
                    lemma_pairs_of_left(e.idx, rows@, active2@);
                    block = pairs_of_left(e.idx, rows@);
                }
                active1.insert(e.idx);
            } else {
                let rows = rows_of(&active1);
                push_pairs_of_right(&mut pairs, &rows, e.idx);
                proof {
                    lemma_pairs_of_right(rows@, e.idx, active1@);
                    block = pairs_of_right(rows@, e.idx);
                }
                active2.insert(e.idx);
            }
        } else {
            if e.first_set {
                active1.remove(&e.idx);
            } else {
                active2.remove(&e.idx);
            }
            assert(block.to_set() =~= Set::empty());
        }
        proof {
            assert(pairs@ =~= before + block);
            assert(sets[t as int] == pairs_at(events@, t as int));
            assert(is_listing(block, sets[t as int]));
            lemma_next_listed(before, cuts, block, sets, t as int);
            cuts = cuts.push(pairs.len() as int);
        }
        t += 1;
    }
    assert(lists_in_turn(pairs@, cuts, sets));
    pairs
}


/// The four streams that the four-way sweep draws from.
#[derive(Copy, Clone, Debug, PartialEq, Eq, Structural)]
pub enum WhichList {
    StartSet1,
    EndSet1,
    StartSet2,
    EndSet2,
}

impl WhichList {
    /// Whether the stream holds starts.
    pub open spec fn opens(self) -> bool {
        self == WhichList::StartSet1 || self == WhichList::StartSet2
    }

    /// Whether the stream belongs to the first table.
    pub open spec fn of_first_set(self) -> bool {
        self == WhichList::StartSet1 || self == WhichList::EndSet1
    }

    pub fn is_start(&self) -> (b: bool)
        ensures
            b == self.opens(),
    {
        match self {
            WhichList::StartSet1 | WhichList::StartSet2 => true,
            WhichList::EndSet1 | WhichList::EndSet2 => false,
        }
    }
}

/// Whether the head `a` is taken rather than the head `b`: the one of the
/// smaller group, then of the smaller position. Where both agree, `b` is
/// taken only if it is an end and `a` is a start.
pub open spec fn goes_first(a: (WhichList, MinEvent), b: (WhichList, MinEvent)) -> bool {
    if a.1.chr != b.1.chr {
        a.1.chr < b.1.chr
    } else if a.1.pos != b.1.pos {
        a.1.pos < b.1.pos
    } else {
        !(a.0.opens() && !b.0.opens())
    }
}

pub open spec fn winner_of_two(
    a: Option<(WhichList, MinEvent)>,
    b: Option<(WhichList, MinEvent)>,
) -> Option<(WhichList, MinEvent)> {
    match (a, b) {
        (None, None) => None,
        (Some(x), None) => Some(x),
        (None, Some(y)) => Some(y),
        (Some(x), Some(y)) => if goes_first(x, y) {
            Some(x)
        } else {
            Some(y)
        },
    }
}

/// The head that the sweep takes next: the best of the starts and ends of
/// the first table against the best of those of the second.
pub open spec fn winner_of_four(
    s1: Option<(WhichList, MinEvent)>,
    s2: Option<(WhichList, MinEvent)>,
    e1: Option<(WhichList, MinEvent)>,
    e2: Option<(WhichList, MinEvent)>,
) -> Option<(WhichList, MinEvent)> {
    winner_of_two(winner_of_two(s1, e1), winner_of_two(s2, e2))
}

pub fn pick_winner_of_two_choose_first_if_equal(
    a: Option<(WhichList, MinEvent)>,
    b: Option<(WhichList, MinEvent)>,
) -> (w: Option<(WhichList, MinEvent)>)
    ensures
        w == winner_of_two(a, b),
{
    match (a, b) {
        (None, None) => None,
        (Some(x), None) => Some(x),
        (None, Some(y)) => Some(y),
        (Some((wh_a, ev_a)), Some((wh_b, ev_b))) => {
            if ev_a.chr < ev_b.chr {
                return Some((wh_a, ev_a));
            } else if ev_b.chr < ev_a.chr {
                return Some((wh_b, ev_b));
            }
            if ev_a.pos < ev_b.pos {
                return Some((wh_a, ev_a));
            } else if ev_b.pos < ev_a.pos {
                return Some((wh_b, ev_b));
            }
            let a_is_end = !wh_a.is_start();
            let b_is_end = !wh_b.is_start();
            if !a_is_end && b_is_end {
                Some((wh_b, ev_b))
            } else {
                Some((wh_a, ev_a))
            }
        },
    }
}

pub fn pick_winner_of_four(
    s1: Option<(WhichList, MinEvent)>,
    s2: Option<(WhichList, MinEvent)>,
    e1: Option<(WhichList, MinEvent)>,
    e2: Option<(WhichList, MinEvent)>,
) -> (w: Option<(WhichList, MinEvent)>)
    ensures
        w == winner_of_four(s1, s2, e1, e2),
{
    let starts_winner = pick_winner_of_two_choose_first_if_equal(s1, e1);
    let ends_winner = pick_winner_of_two_choose_first_if_equal(s2, e2);
    pick_winner_of_two_choose_first_if_equal(starts_winner, ends_winner)
}

/// The next item of a stream, with the stream it is from.
pub open spec fn head_of(list: Seq<MinEvent>, i: int, which: WhichList) -> Option<
    (WhichList, MinEvent),
> {
    if 0 <= i < list.len() {
        Some((which, list[i]))
    } else {
        None
    }
}

/// The event that an item of a stream stands for.
pub open spec fn event_of(which: WhichList, ev: MinEvent) -> Event {
    Event {
        chr: ev.chr,
        pos: ev.pos,
        is_start: which.opens(),
        first_set: which.of_first_set(),
        idx: ev.idx,
    }
}

/// The next `n` events that the four streams give from the places `i1`,
/// `i2`, `i3` and `i4` on, always taking the winner of the four heads.
pub open spec fn merged_from(
    starts: Seq<MinEvent>,
    ends: Seq<MinEvent>,
    starts2: Seq<MinEvent>,
    ends2: Seq<MinEvent>,
    i1: int,
    i2: int,
    i3: int,
    i4: int,
    n: nat,
) -> Seq<Event>
    decreases n,
{
    if n == 0 {
        Seq::empty()
    } else {
        match winner_of_four(
            head_of(starts, i1, WhichList::StartSet1),
            head_of(starts2, i2, WhichList::StartSet2),
            head_of(ends, i3, WhichList::EndSet1),
            head_of(ends2, i4, WhichList::EndSet2),
        ) {
            None => Seq::empty(),
            Some((which, ev)) => seq![event_of(which, ev)] + merged_from(
                starts,
                ends,
                starts2,
                ends2,
                if which == WhichList::StartSet1 { i1 + 1 } else { i1 },
                if which == WhichList::StartSet2 { i2 + 1 } else { i2 },
                if which == WhichList::EndSet1 { i3 + 1 } else { i3 },
                if which == WhichList::EndSet2 { i4 + 1 } else { i4 },
                (n - 1) as nat,
            ),
        }
    }
}

/// The four streams merged into one sequence of events.
pub open spec fn four_way_merge(
    starts: Seq<MinEvent>,
    ends: Seq<MinEvent>,
    starts2: Seq<MinEvent>,
    ends2: Seq<MinEvent>,
) -> Seq<Event> {
    merged_from(
        starts,
        ends,
        starts2,
        ends2,
        0,
        0,
        0,
        0,
        starts.len() + ends.len() + starts2.len() + ends2.len(),
    )
}

fn head(list: &[MinEvent], i: usize, which: WhichList) -> (h: Option<(WhichList, MinEvent)>)
    ensures
        h == head_of(list@, i as int, which),
{
    if i < list.len() {
        Some((which, list[i]))
    } else {
        None
    }
}

/// Merges the four streams into one sequence of events.
pub fn merge_four(
    sorted_starts: &[MinEvent],
    sorted_ends: &[MinEvent],
    sorted_starts2: &[MinEvent],
    sorted_ends2: &[MinEvent],
) -> (events: Vec<Event>)
    ensures
        events@ == four_way_merge(sorted_starts@, sorted_ends@, sorted_starts2@, sorted_ends2@),
{
    let mut events: Vec<Event> = Vec::new();
    let mut i1: usize = 0;
    let mut i2: usize = 0;
    let mut i3: usize = 0;
    let mut i4: usize = 0;
    let ghost total = sorted_starts.len() + sorted_ends.len() + sorted_starts2.len()
        + sorted_ends2.len();
    while i1 < sorted_starts.len() || i2 < sorted_starts2.len() || i3 < sorted_ends.len() || i4
        < sorted_ends2.len()
        invariant
            i1 <= sorted_starts.len(),
            i2 <= sorted_starts2.len(),
            i3 <= sorted_ends.len(),
            i4 <= sorted_ends2.len(),
            total == sorted_starts.len() + sorted_ends.len() + sorted_starts2.len()
                + sorted_ends2.len(),
            events@ + merged_from(
                sorted_starts@,
                sorted_ends@,
                sorted_starts2@,
                sorted_ends2@,
                i1 as int,
                i2 as int,
                i3 as int,
                i4 as int,
                (total - i1 - i2 - i3 - i4) as nat,
            ) == four_way_merge(sorted_starts@, sorted_ends@, sorted_starts2@, sorted_ends2@),
        decreases total - i1 - i2 - i3 - i4,
    {
        let ghost rest = merged_from(
            sorted_starts@,
            sorted_ends@,
            sorted_starts2@,
            sorted_ends2@,
            i1 as int,
            i2 as int,
            i3 as int,
            i4 as int,
            (total - i1 - i2 - i3 - i4) as nat,
        );
        let ghost before = events@;
        let w = pick_winner_of_four(
            head(sorted_starts, i1, WhichList::StartSet1),
            head(sorted_starts2, i2, WhichList::StartSet2),
            head(sorted_ends, i3, WhichList::EndSet1),
            head(sorted_ends2, i4, WhichList::EndSet2),
        );
        match w {
            None => {
                assert(false);
            },
            Some((which, ev)) => {
                events.push(
                    Event {
                        chr: ev.chr,
                        pos: ev.pos,
                        is_start: which.is_start(),
                        first_set: match which {
                            WhichList::StartSet1 | WhichList::EndSet1 => true,
                            WhichList::StartSet2 | WhichList::EndSet2 => false,
                        },
                        idx: ev.idx,
                    },
                );
                match which {
                    WhichList::StartSet1 => {
                        i1 += 1;
                    },
                    WhichList::StartSet2 => {
                        i2 += 1;
                    },
                    WhichList::EndSet1 => {
                        i3 += 1;
                    },
                    WhichList::EndSet2 => {
                        i4 += 1;
                    },
                }
                proof {
                    let next = merged_from(
                        sorted_starts@,
                        sorted_ends@,
                        sorted_starts2@,
                        sorted_ends2@,
                        i1 as int,
                        i2 as int,
                        i3 as int,
                        i4 as int,
                        (total - i1 - i2 - i3 - i4) as nat,
                    );
                    assert(rest == seq![event_of(which, ev)] + next);
                    assert(events@ + next =~= before + rest);
                }
            },
        }
    }
    proof {
        let rest = merged_from(
            sorted_starts@,
            sorted_ends@,
            sorted_starts2@,
            sorted_ends2@,
            i1 as int,
            i2 as int,
            i3 as int,
            i4 as int,
            0,
        );
        assert(events@ + rest =~= events@);
    }
    events
}

/// The overlap sweep over four streams that are each in order: the starts
/// and the ends of the first table and those of the second. Where the
/// streams are those of two tables of proper intervals, merged they are the
/// events of the tables in sweep order, and the sweep gives the pairs of
/// rows that overlap.
pub fn sweep_line_overlaps_overlap_pair(
    sorted_starts: &[MinEvent],
    sorted_ends: &[MinEvent],
    sorted_starts2: &[MinEvent],
    sorted_ends2: &[MinEvent],
) -> (out_idxs: Vec<OverlapPair>)
    ensures
        sorted_starts.len() == 0 || sorted_starts2.len() == 0 ==> out_idxs@.len() == 0,
        sorted_starts.len() > 0 && sorted_starts2.len() > 0 ==> is_sweep_output(
            four_way_merge(sorted_starts@, sorted_ends@, sorted_starts2@, sorted_ends2@),
            out_idxs@,
        ),
        forall|tb: PairTables|
            tb.proper() && sorted_starts@ == #[trigger] stream(tb, WhichList::StartSet1)
                && sorted_ends@ == stream(tb, WhichList::EndSet1) && sorted_starts2@ == stream(
                tb,
                WhichList::StartSet2,
            ) && sorted_ends2@ == stream(tb, WhichList::EndSet2) ==> holds_overlaps(tb, out_idxs@),
{
    let out_idxs = if sorted_starts.len() == 0 || sorted_starts2.len() == 0 {
        Vec::new()
    } else {
        let events = merge_four(sorted_starts, sorted_ends, sorted_starts2, sorted_ends2);
        sweep_pairs(&events)
    };
    proof {
        assert forall|tb: PairTables|
            tb.proper() && sorted_starts@ == #[trigger] stream(tb, WhichList::StartSet1)
                && sorted_ends@ == stream(tb, WhichList::EndSet1) && sorted_starts2@ == stream(
                tb,
                WhichList::StartSet2,
            ) && sorted_ends2@ == stream(tb, WhichList::EndSet2) implies holds_overlaps(
            tb,
            out_idxs@,
        ) by {
            lemma_stream(tb, WhichList::StartSet1);
            lemma_stream(tb, WhichList::StartSet2);
            if sorted_starts.len() > 0 && sorted_starts2.len() > 0 {
                lemma_streams_find_overlaps(tb, out_idxs@);
            }
        }
    }
    out_idxs
}

/// The pairs of overlapping rows of two tables, in the order in which the
/// sweep finds them. The intervals of the first table are widened by `slack`
/// on both sides. For tables of proper intervals a pair is given exactly if
/// its rows overlap, and given once.
pub fn sweep_line_overlaps(
    chrs: &[GroupType],
    starts: &[PositionType],
    ends: &[PositionType],
    chrs2: &[GroupType],
    starts2: &[PositionType],
    ends2: &[PositionType],
    slack: PositionType,
) -> (overlaps: Vec<OverlapPair>)
    requires
        chrs.len() == starts.len(),
        chrs.len() == ends.len(),
        chrs.len() <= u32::MAX,
        chrs2.len() == starts2.len(),
        chrs2.len() == ends2.len(),
        chrs2.len() <= u32::MAX,
    ensures
        is_sweep_output(
            sorted_events(
                pair_events(chrs@, starts@, ends@, chrs2@, starts2@, ends2@, slack),
            ),
            overlaps@,
        ),
        slack_tables(chrs@, starts@, ends@, chrs2@, starts2@, ends2@, slack).proper()
            ==> holds_overlaps(
            slack_tables(chrs@, starts@, ends@, chrs2@, starts2@, ends2@, slack),
            overlaps@,
        ),
{
    let events = build_sorted_events_idxs(chrs, starts, ends, chrs2, starts2, ends2, slack);
    let overlaps = sweep_pairs(&events);
    proof {
        let tb = slack_tables(chrs@, starts@, ends@, chrs2@, starts2@, ends2@, slack);
        if tb.proper() {
            lemma_sweep_finds_overlaps(tb, overlaps@);
        }
    }
    overlaps
}

/// `found` holds the pairs of rows of the two tables that overlap, each once.
pub open spec fn holds_overlaps(tb: PairTables, found: Seq<OverlapPair>) -> bool {
    &&& found.no_duplicates()
    &&& forall|p: OverlapPair| #[trigger]
        found.contains(p) <==> (p.idx < tb.chrs.len() && p.idx2 < tb.chrs2.len() && tb.overlap(
            p.idx as int,
            p.idx2 as int,
        ))
}

/// The two columns name, at one place, row `i` beside row `j`.
pub open spec fn names_pair(left: Seq<u32>, right: Seq<u32>, i: u32, j: u32) -> bool {
    exists|k: int| 0 <= k < left.len() && k < right.len() && left[k] == i && right[k] == j
}

/// The two columns name no pair of rows at two places.
pub open spec fn names_each_once(left: Seq<u32>, right: Seq<u32>) -> bool {
    forall|a: int, b: int|
        0 <= a < b < left.len() && b < right.len() ==> !((#[trigger] left[a]) == (
        #[trigger] left[b]) && right[a] == right[b])
}

/// Row `i` of the first table and row `j` of the second are a pair of the
/// join: their intervals overlap or, where only contained intervals are
/// wanted, the first lies within the second.
pub open spec fn is_pair_of_join(tb: PairTables, contained: bool, i: int, j: int) -> bool {
    if contained {
        within(tb, i, j)
    } else {
        tb.overlap(i, j)
    }
}

/// The two columns name one partner for each row of the first table that
/// has any: each place names a pair of the join, a row stands in the left
/// column exactly if it has a partner, and no row stands there twice.
pub open spec fn names_one_partner_each(
    tb: PairTables,
    contained: bool,
    left: Seq<u32>,
    right: Seq<u32>,
) -> bool {
    &&& left.len() == right.len()
    &&& forall|k: int|
        0 <= k < left.len() ==> (#[trigger] left[k]) < tb.chrs.len() && right[k] < tb.chrs2.len()
            && is_pair_of_join(tb, contained, left[k] as int, right[k] as int)
    &&& forall|i: u32| #[trigger]
        left.contains(i) <==> (i < tb.chrs.len() && exists|j: int|
            0 <= j < tb.chrs2.len() && #[trigger] is_pair_of_join(tb, contained, i as int, j))
    &&& forall|a: int, b: int|
        0 <= a < b < left.len() ==> (#[trigger] left[a]) != (#[trigger] left[b])
}

/// The rows of the first table that the pairs name, pair by pair.
pub open spec fn left_rows(pairs: Seq<OverlapPair>) -> Seq<u32> {
    Seq::new(pairs.len(), |k: int| pairs[k].idx)
}

/// The rows of the second table that the pairs name, pair by pair.
pub open spec fn right_rows(pairs: Seq<OverlapPair>) -> Seq<u32> {
    Seq::new(pairs.len(), |k: int| pairs[k].idx2)
}

/// For each overlap of a row of the first table with a row of the second,
/// the row of the first table. Nothing if either table is empty. For
/// tables of proper intervals a row is given exactly if it overlaps a row
/// of the second table.
pub fn sweep_line_overlaps_set1(
    chrs: &[GroupType],
    starts: &[PositionType],
    ends: &[PositionType],
    chrs2: &[GroupType],
    starts2: &[PositionType],
    ends2: &[PositionType],
    slack: PositionType,
) -> (overlaps: Vec<u32>)
    requires
        chrs.len() == starts.len(),
        chrs.len() == ends.len(),
        chrs.len() <= u32::MAX,
        chrs2.len() == starts2.len(),
        chrs2.len() == ends2.len(),
        chrs2.len() <= u32::MAX,
    ensures
        chrs.len() == 0 || chrs2.len() == 0 ==> overlaps@.len() == 0,
        chrs.len() > 0 && chrs2.len() > 0 ==> exists|pairs: Seq<OverlapPair>|
            is_sweep_output(
                sorted_events(
                    pair_events(chrs@, starts@, ends@, chrs2@, starts2@, ends2@, slack),
                ),
                pairs,
            ) && overlaps@ == left_rows(pairs),
        slack_tables(chrs@, starts@, ends@, chrs2@, starts2@, ends2@, slack).proper() ==> forall|
            i: u32,
        | #[trigger]
            overlaps@.contains(i) <==> (i < chrs.len() && exists|j: int|
                0 <= j < chrs2.len() && #[trigger] slack_tables(
                    chrs@,
                    starts@,
                    ends@,
                    chrs2@,
                    starts2@,
                    ends2@,
                    slack,
                ).overlap(i as int, j)),
{
    if chrs.len() == 0 || chrs2.len() == 0 {
        return Vec::new();
    }
    let pairs = sweep_line_overlaps(chrs, starts, ends, chrs2, starts2, ends2, slack);
    let mut overlaps: Vec<u32> = Vec::new();
    let mut k: usize = 0;
    while k < pairs.len()
        invariant
            k <= pairs.len(),
            overlaps.len() == k,
            forall|j: int| 0 <= j < k ==> #[trigger] overlaps[j] == pairs[j].idx,
        decreases pairs.len() - k,
    {
        overlaps.push(pairs[k].idx);
        k += 1;
    }
    assert(overlaps@ =~= left_rows(pairs@));
    proof {
        let tb = slack_tables(chrs@, starts@, ends@, chrs2@, starts2@, ends2@, slack);
        if tb.proper() {
            assert forall|i: u32| #[trigger]
                overlaps@.contains(i) <==> (i < chrs.len() && exists|j: int|
                    0 <= j < chrs2.len() && #[trigger] tb.overlap(i as int, j)) by {
                if overlaps@.contains(i) {
                    let k = choose|k: int| 0 <= k < overlaps@.len() && overlaps@[k] == i;
                    assert(pairs@.contains(pairs@[k]));
                    assert(tb.overlap(i as int, pairs@[k].idx2 as int));
                }
                if i < chrs.len() && exists|j: int|
                    0 <= j < chrs2.len() && #[trigger] tb.overlap(i as int, j) {
                    let j = choose|j: int| 0 <= j < chrs2.len() && #[trigger] tb.overlap(i as int, j);
                    let p = OverlapPair { idx: i, idx2: j as u32 };
                    assert(pairs@.contains(p));
                    let k = choose|k: int| 0 <= k < pairs@.len() && pairs@[k] == p;
                    assert(overlaps@[k] == i);
                }
            }
        }
    }
    overlaps
}

/// How many pairs with row `i` of the first table event `t` gives.
pub open spec fn pairs_with(events: Seq<Event>, t: int, i: u32) -> nat {
    let e = events[t];
    if !e.is_start {
        0
    } else if e.first_set {
        if e.idx == i {
            met_rows(events, t, false).len()
        } else {
            0
        }
    } else {
        if met_rows(events, t, true).contains(i) {
            1
        } else {
            0
        }
    }
}

/// How many pairs with row `i` of the first table the first `t` events give.
pub open spec fn pair_count(events: Seq<Event>, t: int, i: u32) -> nat
    decreases t,
{
    if t <= 0 {
        0
    } else {
        pair_count(events, t - 1, i) + pairs_with(events, t - 1, i)
    }
}

/// A count as a `u32`, the largest `u32` standing for all that is beyond it.
pub open spec fn cap_u32(x: nat) -> u32 {
    if x > u32::MAX {
        u32::MAX
    } else {
        x as u32
    }
}

/// For each of the `n` rows of the first table, the number of pairs that the
/// sweep over `events` gives for it.
pub fn sweep_counts(events: &Vec<Event>, n: usize) -> (counts: Vec<u32>)
    requires
        n <= u32::MAX,
        forall|t: int|
            0 <= t < events.len() && (#[trigger] events[t]).first_set ==> events[t].idx < n,
    ensures
        counts.len() == n,
        forall|i: int|
            0 <= i < n ==> #[trigger] counts[i] == cap_u32(
                pair_count(events@, events.len() as int, i as u32),
            ),
{
    broadcast use group_hash_axioms;

    let mut counts: Vec<u32> = Vec::new();
    let mut z: usize = 0;
    while z < n
        invariant
            z <= n,
            counts.len() == z,
            forall|i: int| 0 <= i < z ==> #[trigger] counts[i] == 0,
        decreases n - z,
    {
        counts.push(0);
        z += 1;
    }
    let mut active1 = new_row_set();
    let mut active2 = new_row_set();
    let mut t: usize = 0;
    while t < events.len()
        invariant
            t <= events.len(),
            counts.len() == n,
            n <= u32::MAX,
            forall|s: int|
                0 <= s < events.len() && (#[trigger] events[s]).first_set ==> events[s].idx < n,
            set_hashes_alike(&active1),
            set_hashes_alike(&active2),
            active1@ == active_rows(events@, t as int, true),
            active2@ == active_rows(events@, t as int, false),
            active1@.finite(),
            active2@.finite(),
            forall|x: u32| active1@.contains(x) ==> x < n,
            forall|i: int|
                0 <= i < n ==> #[trigger] counts[i] == cap_u32(
                    pair_count(events@, t as int, i as u32),
                ),
        decreases events.len() - t,
    {
        let e = events[t];
        if t > 0 && e.chr != events[t - 1].chr {
            active1.clear();
            active2.clear();
        }
        assert(active1@ == met_rows(events@, t as int, true));
        assert(active2@ == met_rows(events@, t as int, false));
        if e.is_start {
            if e.first_set {
                let open2 = active2.len();
                let add: u32 = if open2 > u32::MAX as usize {
                    u32::MAX
                } else {
                    open2 as u32
                };
                let i = e.idx as usize;
                let c = counts[i];
                counts.set(i, c.saturating_add(add));
                active1.insert(e.idx);
            } else {
                let rows = rows_of(&active1);
                let ghost base = counts@;
                proof {
                    assert forall|j: int| 0 <= j < rows.len() implies #[trigger] rows[j] < n by {
                        assert(rows@.to_set().contains(rows[j]));
                    }
                    assert(rows@.take(0) =~= Seq::<u32>::empty());
                }
                let mut q: usize = 0;
                while q < rows.len()
                    invariant
                        q <= rows.len(),
                        counts.len() == n,
                        n <= u32::MAX,
                        base.len() == n,
                        rows@.no_duplicates(),
                        forall|j: int| 0 <= j < rows.len() ==> #[trigger] rows[j] < n,
                        forall|i: int|
                            0 <= i < n ==> #[trigger] counts[i] as int == (if base[i] < u32::MAX
                                && rows@.take(q as int).contains(i as u32) {
                                base[i] + 1
                            } else {
                                base[i] as int
                            }),
                    decreases rows.len() - q,
                {
                    let i = rows[q] as usize;
                    let c = counts[i];
                    proof {
                        if rows@.take(q as int).contains(i as u32) {
                            let j = choose|j: int|
                                0 <= j < q && rows@.take(q as int)[j] == i as u32;
                            assert(rows[j] == rows[q as int]);
                        }
                        assert(c == base[i as int]);
                    }
                    counts.set(i, c.saturating_add(1));
                    proof {
                        let now = rows@.take(q + 1);
                        let was = rows@.take(q as int);
                        assert forall|x: u32| #[trigger]
                            now.contains(x) <==> (was.contains(x) || x == rows[q as int]) by {
                            if was.contains(x) {
                                let j = choose|j: int| 0 <= j < q && was[j] == x;
                                assert(now[j] == x);
                            }
                            if x == rows[q as int] {
                                assert(now[q as int] == x);
                            }
                            if now.contains(x) {
                                let j = choose|j: int| 0 <= j < q + 1 && now[j] == x;
                                if j < q {
                                    assert(was[j] == x);
                                }
                            }
                        }
                    }
                    q += 1;
                }
                proof {
                    assert(rows@.take(rows.len() as int) =~= rows@);
                    assert forall|x: u32| #[trigger]
                        rows@.contains(x) <==> active1@.contains(x) by {
                        assert(rows@.to_set().contains(x) <==> rows@.contains(x));
                    }
                }
                active2.insert(e.idx);
            }
        } else {
            if e.first_set {
                active1.remove(&e.idx);
            } else {
                active2.remove(&e.idx);
            }
        }
        t += 1;
    }
    counts
}

/// For each row of the first table, with how many rows of the second it
/// overlaps. Where either table is empty, every count is zero.
pub fn count_overlaps(
    chrs: &[GroupType],
    starts: &[PositionType],
    ends: &[PositionType],
    chrs2: &[GroupType],
    starts2: &[PositionType],
    ends2: &[PositionType],
    slack: PositionType,
) -> (overlaps: Vec<u32>)
    requires
        chrs.len() == starts.len(),
        chrs.len() == ends.len(),
        chrs.len() <= u32::MAX,
        chrs2.len() == starts2.len(),
        chrs2.len() == ends2.len(),
        chrs2.len() <= u32::MAX,
    ensures
        overlaps.len() == chrs.len(),
        chrs2.len() == 0 ==> forall|i: int| 0 <= i < chrs.len() ==> #[trigger] overlaps[i] == 0,
        chrs2.len() > 0 ==> forall|i: int|
            0 <= i < chrs.len() ==> #[trigger] overlaps[i] == cap_u32(
                pair_count(
                    sorted_events(
                        pair_events(chrs@, starts@, ends@, chrs2@, starts2@, ends2@, slack),
                    ),
                    2 * chrs.len() + 2 * chrs2.len(),
                    i as u32,
                ),
            ),
        slack_tables(chrs@, starts@, ends@, chrs2@, starts2@, ends2@, slack).proper()
            ==> forall|i: int|
            0 <= i < chrs.len() ==> #[trigger] overlaps[i] == overlapping_rows(
                chrs@,
                starts@,
                ends@,
                chrs2@,
                starts2@,
                ends2@,
                slack,
                i,
            ),
{
    if chrs.len() == 0 || chrs2.len() == 0 {
        let mut zeros: Vec<u32> = Vec::new();
        let mut z: usize = 0;
        while z < chrs.len()
            invariant
                z <= chrs.len(),
                zeros.len() == z,
                forall|i: int| 0 <= i < z ==> #[trigger] zeros[i] == 0,
            decreases chrs.len() - z,
        {
            zeros.push(0);
            z += 1;
        }
        proof {
            if slack_tables(chrs@, starts@, ends@, chrs2@, starts2@, ends2@, slack).proper() {
                assert forall|i: int| 0 <= i < chrs.len() implies #[trigger] zeros[i]
                    == overlapping_rows(
                    chrs@,
                    starts@,
                    ends@,
                    chrs2@,
                    starts2@,
                    ends2@,
                    slack,
                    i,
                ) by {
                    lemma_count_is_number_of_overlaps(
                        chrs@,
                        starts@,
                        ends@,
                        chrs2@,
                        starts2@,
                        ends2@,
                        slack,
                        i,
                    );
                }
            }
        }
        return zeros;
    }
    let events = build_sorted_events_idxs(chrs, starts, ends, chrs2, starts2, ends2, slack);
    proof {
        let built = pair_events(chrs@, starts@, ends@, chrs2@, starts2@, ends2@, slack);
        lemma_sorted_events_members(built);
        assert forall|t: int| 0 <= t < events.len() && (#[trigger] events[t]).first_set implies
            events[t].idx < chrs.len() by {
            assert(built.contains(events[t]));
            let r = choose|r: int| 0 <= r < built.len() && built[r] == events[t];
            assert(r < 2 * chrs.len());
        }
    }
    let counts = sweep_counts(&events, chrs.len());
    proof {
        if slack_tables(chrs@, starts@, ends@, chrs2@, starts2@, ends2@, slack).proper() {
            assert forall|i: int| 0 <= i < chrs.len() implies #[trigger] counts[i]
                == overlapping_rows(chrs@, starts@, ends@, chrs2@, starts2@, ends2@, slack, i) by {
                lemma_count_is_number_of_overlaps(
                    chrs@,
                    starts@,
                    ends@,
                    chrs2@,
                    starts2@,
                    ends2@,
                    slack,
                    i,
                );
            }
        }
    }
    counts
}


/// Whether event `t` is the first of another group than the event before it.
pub open spec fn max_group_changes(events: Seq<MaxEvent>, t: int) -> bool {
    t > 0 && events[t].chr != events[t - 1].chr
}

/// The rows of one table whose interval is open once the first `t` events
/// are done, each with the two ends of its interval.
pub open spec fn active_spans(events: Seq<MaxEvent>, t: int, first_set: bool) -> Map<
    u32,
    (i64, i64),
>
    decreases t, 0nat,
{
    if t <= 0 {
        Map::empty()
    } else {
        let e = events[t - 1];
        let before = met_spans(events, t - 1, first_set);
        if e.first_set != first_set {
            before
        } else if e.is_start {
            before.insert(e.idx, (e.start, e.end))
        } else {
            before.remove(e.idx)
        }
    }
}

/// The rows of one table that event `t` finds open, with their intervals.
pub open spec fn met_spans(events: Seq<MaxEvent>, t: int, first_set: bool) -> Map<u32, (i64, i64)>
    decreases t, 1nat,
{
    if t <= 0 || max_group_changes(events, t) {
        Map::empty()
    } else {
        active_spans(events, t, first_set)
    }
}

/// The interval `inner` lies within the interval `outer`.
pub open spec fn lies_within(inner: (i64, i64), outer: (i64, i64)) -> bool {
    outer.0 <= inner.0 && inner.1 <= outer.1
}

/// The pairs that event `t` gives: where it opens an interval, that row with
/// each open row of the other table, provided that the interval of the
/// first table lies within that of the second.
pub open spec fn contained_pairs_at(events: Seq<MaxEvent>, t: int) -> Set<OverlapPair> {
    let e = events[t];
    if !e.is_start {
        Set::empty()
    } else if e.first_set {
        Set::new(
            |p: OverlapPair|
                p.idx == e.idx && met_spans(events, t, false).contains_key(p.idx2) && lies_within(
                    (e.start, e.end),
                    met_spans(events, t, false)[p.idx2],
                ),
        )
    } else {
        Set::new(
            |p: OverlapPair|
                p.idx2 == e.idx && met_spans(events, t, true).contains_key(p.idx) && lies_within(
                    met_spans(events, t, true)[p.idx],
                    (e.start, e.end),
                ),
        )
    }
}

/// The sets of pairs of all events.
pub open spec fn contained_sets(events: Seq<MaxEvent>) -> Seq<Set<OverlapPair>> {
    Seq::new(events.len(), |t: int| contained_pairs_at(events, t))
}

/// `out` is what the containment sweep over `events` may give: the pairs of
/// each event in turn, those of one event in any order, each once.
pub open spec fn is_containment_output(events: Seq<MaxEvent>, out: Seq<OverlapPair>) -> bool {
    lists_sets(out, contained_sets(events))
}

/// The pairs of event `e` with the open rows of the other table.
spec fn contained_with(e: MaxEvent, open: Map<u32, (i64, i64)>) -> Set<OverlapPair> {
    if e.first_set {
        Set::new(
            |p: OverlapPair|
                p.idx == e.idx && open.contains_key(p.idx2) && lies_within(
                    (e.start, e.end),
                    open[p.idx2],
                ),
        )
    } else {
        Set::new(
            |p: OverlapPair|
                p.idx2 == e.idx && open.contains_key(p.idx) && lies_within(
                    open[p.idx],
                    (e.start, e.end),
                ),
        )
    }
}

/// The pair of event `e` with the open row `other`.
spec fn pair_with(e: MaxEvent, other: u32) -> OverlapPair {
    if e.first_set {
        OverlapPair { idx: e.idx, idx2: other }
    } else {
        OverlapPair { idx: other, idx2: e.idx }
    }
}

/// Appends the pairs of the opening event `e` with the open rows of the
/// other table that stand in the right containment to it.
fn push_contained(
    pairs: &mut Vec<OverlapPair>,
    e: MaxEvent,
    open: &FxHashMap<u32, (i64, i64)>,
) -> (block: Ghost<Seq<OverlapPair>>)
    requires
        map_hashes_alike(open),
    ensures
        final(pairs)@ == old(pairs)@ + block@,
        is_listing(block@, contained_with(e, open@)),
{
    broadcast use group_hash_axioms;

    let ghost before = pairs@;
    let ghost mut block: Seq<OverlapPair> = Seq::empty();
    let keys = keys_of(open);
    let mut q: usize = 0;
    while q < keys.len()
        invariant
            q <= keys.len(),
            map_hashes_alike(open),
            is_listing(keys@, open@.dom()),
            pairs@ == before + block,
            block.no_duplicates(),
            forall|p: OverlapPair| #[trigger]
                block.contains(p) <==> (contained_with(e, open@).contains(p) && exists|j: int|
                    0 <= j < q && p == pair_with(e, #[trigger] keys[j])),
        decreases keys.len() - q,
    {
        let other = keys[q];
        assert(keys@.to_set().contains(other));
        let span = open.get(&other);
        assert(span is Some);
        let (s, en) = *span.unwrap();
        let inside = if e.first_set {
            e.start >= s && e.end <= en
        } else {
            e.start <= s && e.end >= en
        };
        let ghost was = block;
        if inside {
            let p = if e.first_set {
                OverlapPair { idx: e.idx, idx2: other }
            } else {
                OverlapPair { idx: other, idx2: e.idx }
            };
            pairs.push(p);
            proof {
                if was.contains(p) {
                    let j = choose|j: int| 0 <= j < q && p == pair_with(e, #[trigger] keys[j]);
                    assert(keys[j] == keys[q as int]);
                }
                block = was.push(p);
                assert(pairs@ =~= before + block);
            }
        }
        proof {
            assert forall|p: OverlapPair| #[trigger]
                block.contains(p) <==> (contained_with(e, open@).contains(p) && exists|j: int|
                    0 <= j < q + 1 && p == pair_with(e, #[trigger] keys[j])) by {
                let named = exists|j: int| 0 <= j < q && p == pair_with(e, #[trigger] keys[j]);
                let named_now = exists|j: int|
                    0 <= j < q + 1 && p == pair_with(e, #[trigger] keys[j]);
                if named {
                    let j = choose|j: int| 0 <= j < q && p == pair_with(e, #[trigger] keys[j]);
                    assert(0 <= j < q + 1 && p == pair_with(e, keys[j]));
                }
                if p == pair_with(e, other) {
                    assert(0 <= q < q + 1 && p == pair_with(e, keys[q as int]));
                }
                if named_now {
                    let j = choose|j: int|
                        0 <= j < q + 1 && p == pair_with(e, #[trigger] keys[j]);
                    if j < q {
                        assert(named);
                    }
                }
                if block.contains(p) {
                    let k = choose|k: int| 0 <= k < block.len() && block[k] == p;
                    if k < was.len() {
                        assert(was[k] == p);
                        assert(was.contains(p));
                    }
                }
                if was.contains(p) {
                    let k = choose|k: int| 0 <= k < was.len() && was[k] == p;
                    assert(block[k] == p);
                }
                if inside && p == pair_with(e, other) {
                    assert(block[block.len() - 1] == p);
                }
            }
        }
        q += 1;
    }
    proof {
        let target = contained_with(e, open@);
        assert forall|p: OverlapPair| block.to_set().contains(p) <==> target.contains(p) by {
            if target.contains(p) {
                let other = if e.first_set {
                    p.idx2
                } else {
                    p.idx
                };
                assert(open@.dom().contains(other));
                assert(keys@.to_set().contains(other));
                let j = choose|j: int| 0 <= j < keys.len() && keys[j] == other;
                assert(p == pair_with(e, keys[j]));
            }
        }
        assert(block.to_set() =~= target);
    }
    Ghost(block)
}

/// The containment sweep over events that are in order. Where the events
/// are those of two tables of proper intervals, a pair is given exactly if
/// the interval of its first row lies within that of its second, and given
/// once.
pub fn sweep_line_overlaps_containment(events: Vec<MaxEvent>) -> (overlaps: Vec<OverlapPair>)
    ensures
        is_containment_output(events@, overlaps@),
        forall|tb: PairTables|
            tb.proper() && events@ == #[trigger] max_sweep(tb) ==> holds_contained(tb, overlaps@),
{
    broadcast use group_hash_axioms;

    let mut pairs: Vec<OverlapPair> = Vec::new();
    let mut active1 = new_row_map::<(i64, i64)>();
    let mut active2 = new_row_map::<(i64, i64)>();
    let ghost mut cuts: Seq<int> = seq![0int];
    let ghost sets = contained_sets(events@);
    let mut t: usize = 0;
    assert(active1@ =~= Map::empty());
    assert(active2@ =~= Map::empty());
    while t < events.len()
        invariant
            t <= events.len(),
            sets == contained_sets(events@),
            map_hashes_alike(&active1),
            map_hashes_alike(&active2),
            active1@ == active_spans(events@, t as int, true),
            active2@ == active_spans(events@, t as int, false),
            cuts.len() == t + 1,
            cuts[0] == 0,
            cuts[t as int] == pairs.len(),
            forall|s: int| 0 <= s < t ==> #[trigger] block_lists(pairs@, cuts, s, sets[s]),
        decreases events.len() - t,
    {
        let e = events[t];
        if t > 0 && e.chr != events[t - 1].chr {
            active1.clear();
            active2.clear();
        }
        assert(active1@ == met_spans(events@, t as int, true));
        assert(active2@ == met_spans(events@, t as int, false));
        let ghost before = pairs@;
        let ghost mut block: Seq<OverlapPair> = Seq::empty();
        if e.is_start {
            if e.first_set {
                let b = push_contained(&mut pairs, e, &active2);
                proof {
                    block = b@;
                    assert(contained_with(e, active2@) =~= contained_pairs_at(events@, t as int));
                }
                active1.insert(e.idx, (e.start, e.end));
            } else {
                let b = push_contained(&mut pairs, e, &active1);
                proof {
                    block = b@;
                    assert(contained_with(e, active1@) =~= contained_pairs_at(events@, t as int));
                }
                active2.insert(e.idx, (e.start, e.end));
            }
        } else {
            if e.first_set {
                active1.remove(&e.idx);
            } else {
                active2.remove(&e.idx);
            }
            assert(block.to_set() =~= Set::empty());
        }
        proof {
            assert(pairs@ =~= before + block);
            assert(sets[t as int] == contained_pairs_at(events@, t as int));
            assert(is_listing(block, sets[t as int]));
            lemma_next_listed(before, cuts, block, sets, t as int);
            cuts = cuts.push(pairs.len() as int);
        }
        t += 1;
    }
    assert(lists_in_turn(pairs@, cuts, sets));
    proof {
        assert forall|tb: PairTables|
            tb.proper() && events@ == #[trigger] max_sweep(tb) implies holds_contained(
            tb,
            pairs@,
        ) by {
            lemma_sweep_finds_contained(tb, pairs@);
        }
    }
    pairs
}

/// The starts and the ends of one table as two streams, each by group and
/// position, the starts lowered by `slack`. With `invert` the coordinates are
/// negated first, and the negated ends serve as starts.
pub fn compute_sorted_events(
    chrs: &[GroupType],
    starts: &[PositionType],
    ends: &[PositionType],
    slack: PositionType,
    invert: bool,
) -> (streams: (Vec<MinEvent>, Vec<MinEvent>))
    requires
        chrs.len() == starts.len(),
        chrs.len() == ends.len(),
        chrs.len() <= u32::MAX,
    ensures
        !invert ==> streams.0@ == sorted_min_events(
            position_events(chrs@, shift(starts@, -slack)),
        ) && streams.1@ == sorted_min_events(position_events(chrs@, shift(ends@, 0))),
        invert ==> streams.0@ == sorted_min_events(
            position_events(chrs@, shift(negate(ends@), -slack)),
        ) && streams.1@ == sorted_min_events(position_events(chrs@, shift(negate(starts@), 0))),
{
    if !invert {
        let sorted_starts = build_sorted_events_single_collection_separate_outputs(
            chrs,
            starts,
            slack,
        );
        let sorted_ends = build_sorted_events_single_collection_separate_outputs(chrs, ends, 0);
        (sorted_starts, sorted_ends)
    } else {
        let new_starts = negated(starts);
        let new_ends = negated(ends);
        let sorted_starts = build_sorted_events_single_collection_separate_outputs(
            chrs,
            new_ends.as_slice(),
            slack,
        );
        let sorted_ends = build_sorted_events_single_collection_separate_outputs(
            chrs,
            new_starts.as_slice(),
            0,
        );
        (sorted_starts, sorted_ends)
    }
}

/// The events of two tables in sweep order, each with both ends of its
/// interval, the first table widened by `slack`. With `invert` the
/// coordinates are negated first, and starts and ends change places.
pub fn compute_sorted_maxevents(
    chrs: &[GroupType],
    starts: &[PositionType],
    ends: &[PositionType],
    chrs2: &[GroupType],
    starts2: &[PositionType],
    ends2: &[PositionType],
    slack: PositionType,
    invert: bool,
) -> (events: Vec<MaxEvent>)
    requires
        chrs.len() == starts.len(),
        chrs.len() == ends.len(),
        chrs.len() <= u32::MAX,
        chrs2.len() == starts2.len(),
        chrs2.len() == ends2.len(),
        chrs2.len() <= u32::MAX,
    ensures
        !invert ==> events@ == sorted_max_events(
            pair_max_events(chrs@, starts@, ends@, chrs2@, starts2@, ends2@, slack),
        ),
        invert ==> events@ == sorted_max_events(
            pair_max_events(
                chrs@,
                negate(ends@),
                negate(starts@),
                chrs2@,
                negate(ends2@),
                negate(starts2@),
                slack,
            ),
        ),
{
    if !invert {
        build_sorted_maxevents_with_starts_ends(chrs, starts, ends, chrs2, starts2, ends2, slack)
    } else {
        let new_starts = negated(starts);
        let new_ends = negated(ends);
        let new_starts2 = negated(starts2);
        let new_ends2 = negated(ends2);
        build_sorted_maxevents_with_starts_ends(
            chrs,
            new_ends.as_slice(),
            new_starts.as_slice(),
            chrs2,
            new_ends2.as_slice(),
            new_starts2.as_slice(),
            slack,
        )
    }
}

/// The pairs by the row of the first table, pairs of one row in their order.
pub open spec fn by_left_row(pairs: Seq<OverlapPair>) -> Seq<OverlapPair> {
    reorder(pairs, stable_order(Seq::new(pairs.len(), |k: int| (pairs[k].idx as i64, 0i64, 0i64))))
}

/// What becomes of the pairs that a sweep found: they are put in the order
/// of the rows of the first table where that is asked for or only one pair
/// of each row is wanted, and then the first or the last of each row is kept.
pub open spec fn finished(
    found: Seq<OverlapPair>,
    overlap_type: OverlapType,
    sort_output: bool,
) -> Seq<OverlapPair> {
    let sorted = if sort_output || overlap_type != OverlapType::All {
        by_left_row(found)
    } else {
        found
    };
    match overlap_type {
        OverlapType::All => sorted,
        OverlapType::First => firsts(sorted),
        OverlapType::Last => lasts(sorted),
    }
}

/// The pairs by the row of the first table, pairs of one row in their order.
pub fn sort_pairs_by_left_row(pairs: &Vec<OverlapPair>) -> (out: Vec<OverlapPair>)
    ensures
        out@ == by_left_row(pairs@),
{
    let mut keys: Vec<(i64, i64, i64)> = Vec::new();
    let mut i: usize = 0;
    while i < pairs.len()
        invariant
            i <= pairs.len(),
            keys.len() == i,
            forall|k: int| 0 <= k < i ==> #[trigger] keys[k] == (pairs[k].idx as i64, 0i64, 0i64),
        decreases pairs.len() - i,
    {
        keys.push((pairs[i].idx as i64, 0, 0));
        i += 1;
    }
    assert(keys@ =~= Seq::new(pairs.len() as nat, |k: int| (pairs[k].idx as i64, 0i64, 0i64)));
    sort_rows(pairs, &keys)
}

/// The overlap join of two tables: the rows of the first table and, beside
/// them, the rows of the second that they overlap. With `contained`, only
/// pairs in which the interval of the first table lies within that of the
/// second. The pairs are those of `finished`.
///
/// Where every pair is wanted and the intervals are proper, the columns
/// name a row of the first table beside a row of the second exactly if the
/// widened interval of the one overlaps the interval of the other, or, with
/// `contained`, lies within it, and they name no pair twice. Where one
/// pair for each row is wanted, each row of the first table that has such
/// a partner stands once, beside one of its partners.
pub fn overlaps(
    chrs: &[GroupType],
    starts: &[PositionType],
    ends: &[PositionType],
    chrs2: &[GroupType],
    starts2: &[PositionType],
    ends2: &[PositionType],
    slack: PositionType,
    overlap_type: OverlapType,
    sort_output: bool,
    contained: bool,
) -> (out: (Vec<u32>, Vec<u32>))
    requires
        chrs.len() == starts.len(),
        chrs.len() == ends.len(),
        chrs.len() <= u32::MAX,
        chrs2.len() == starts2.len(),
        chrs2.len() == ends2.len(),
        chrs2.len() <= u32::MAX,
    ensures
        exists|found: Seq<OverlapPair>|
            {
                &&& contained ==> is_containment_output(
                    sorted_max_events(
                        pair_max_events(chrs@, starts@, ends@, chrs2@, starts2@, ends2@, slack),
                    ),
                    found,
                )
                &&& !contained ==> is_sweep_output(
                    sorted_events(
                        pair_events(chrs@, starts@, ends@, chrs2@, starts2@, ends2@, slack),
                    ),
                    found,
                )
                &&& out.0@ == left_rows(finished(found, overlap_type, sort_output))
                &&& out.1@ == right_rows(finished(found, overlap_type, sort_output))
            },
        out.0.len() == out.1.len(),
        overlap_type == OverlapType::All && !contained && slack_tables(
            chrs@,
            starts@,
            ends@,
            chrs2@,
            starts2@,
            ends2@,
            slack,
        ).proper() ==> forall|i: u32, j: u32|
            names_pair(out.0@, out.1@, i, j) <==> (i < chrs.len() && j < chrs2.len()
                && slack_tables(chrs@, starts@, ends@, chrs2@, starts2@, ends2@, slack).overlap(
                i as int,
                j as int,
            )),
        overlap_type == OverlapType::All && !contained && slack_tables(
            chrs@,
            starts@,
            ends@,
            chrs2@,
            starts2@,
            ends2@,
            slack,
        ).proper() ==> names_each_once(out.0@, out.1@),
        overlap_type == OverlapType::All && contained && slack_tables(
            chrs@,
            starts@,
            ends@,
            chrs2@,
            starts2@,
            ends2@,
            slack,
        ).proper() ==> names_each_once(out.0@, out.1@) && forall|i: u32, j: u32|
            names_pair(out.0@, out.1@, i, j) <==> (i < chrs.len() && j < chrs2.len() && within(
                slack_tables(chrs@, starts@, ends@, chrs2@, starts2@, ends2@, slack),
                i as int,
                j as int,
            )),
        overlap_type != OverlapType::All && slack_tables(
            chrs@,
            starts@,
            ends@,
            chrs2@,
            starts2@,
            ends2@,
            slack,
        ).proper() ==> names_one_partner_each(
            slack_tables(chrs@, starts@, ends@, chrs2@, starts2@, ends2@, slack),
            contained,
            out.0@,
            out.1@,
        ),
{
    let found = if contained {
        let maxevents = compute_sorted_maxevents(
            chrs,
            starts,
            ends,
            chrs2,
            starts2,
            ends2,
            slack,
            false,
        );
        sweep_line_overlaps_containment(maxevents)
    } else {
        sweep_line_overlaps(chrs, starts, ends, chrs2, starts2, ends2, slack)
    };
    let wants_one = match overlap_type {
        OverlapType::All => false,
        OverlapType::First => true,
        OverlapType::Last => true,
    };
    let mut pairs = if sort_output || wants_one {
        sort_pairs_by_left_row(&found)
    } else {
        found.clone()
    };
    match overlap_type {
        OverlapType::All => {},
        OverlapType::First => keep_first_by_idx(&mut pairs),
        OverlapType::Last => keep_last_by_idx(&mut pairs),
    }
    assert(pairs@ == finished(found@, overlap_type, sort_output));
    let mut idx1: Vec<u32> = Vec::new();
    let mut idx2: Vec<u32> = Vec::new();
    let mut k: usize = 0;
    while k < pairs.len()
        invariant
            k <= pairs.len(),
            idx1.len() == k,
            idx2.len() == k,
            forall|j: int| 0 <= j < k ==> #[trigger] idx1[j] == pairs[j].idx,
            forall|j: int| 0 <= j < k ==> #[trigger] idx2[j] == pairs[j].idx2,
        decreases pairs.len() - k,
    {
        idx1.push(pairs[k].idx);
        idx2.push(pairs[k].idx2);
        k += 1;
    }
    assert(idx1@ =~= left_rows(pairs@));
    assert(idx2@ =~= right_rows(pairs@));
    proof {
        let tb = slack_tables(chrs@, starts@, ends@, chrs2@, starts2@, ends2@, slack);
        if overlap_type != OverlapType::All && tb.proper() {
            if contained {
                assert(max_events(tb) == pair_max_events(
                    chrs@,
                    starts@,
                    ends@,
                    chrs2@,
                    starts2@,
                    ends2@,
                    slack,
                ));
                lemma_sweep_finds_contained(tb, found@);
            } else {
                lemma_sweep_finds_overlaps(tb, found@);
            }
            let keys = Seq::new(found@.len(), |k: int| (found@[k].idx as i64, 0i64, 0i64));
            assert(keys.len() == found.len());
            lemma_reorder_members(found@, keys);
            lemma_reorder_keeps_all(found@, keys);
            let sorted = by_left_row(found@);
            lemma_firsts(sorted);
            lemma_lasts(sorted);
            assert(keeps_one_of_each_row(sorted, pairs@));
            assert forall|k: int| 0 <= k < idx1@.len() implies (#[trigger] idx1@[k]) < chrs.len()
                && idx2@[k] < chrs2.len() && is_pair_of_join(
                tb,
                contained,
                idx1@[k] as int,
                idx2@[k] as int,
            ) by {
                assert(sorted.contains(pairs@[k]));
                let q = choose|q: int| 0 <= q < sorted.len() && sorted[q] == pairs@[k];
                assert(found@.contains(sorted[q]));
            }
            assert forall|i: u32| #[trigger]
                idx1@.contains(i) <==> (i < chrs.len() && exists|j: int|
                    0 <= j < chrs2.len() && #[trigger] is_pair_of_join(
                        tb,
                        contained,
                        i as int,
                        j,
                    )) by {
                if idx1@.contains(i) {
                    let k = choose|k: int| 0 <= k < idx1@.len() && idx1@[k] == i;
                    assert(is_pair_of_join(tb, contained, idx1@[k] as int, idx2@[k] as int));
                }
                if i < chrs.len() && exists|j: int|
                    0 <= j < chrs2.len() && #[trigger] is_pair_of_join(
                        tb,
                        contained,
                        i as int,
                        j,
                    ) {
                    let j = choose|j: int|
                        0 <= j < chrs2.len() && #[trigger] is_pair_of_join(
                            tb,
                            contained,
                            i as int,
                            j,
                        );
                    let p = OverlapPair { idx: i, idx2: j as u32 };
                    assert(found@.contains(p));
                    let r = choose|r: int| 0 <= r < found@.len() && found@[r] == p;
                    assert(sorted.contains(found@[r]));
                    let q = choose|q: int| 0 <= q < sorted.len() && sorted[q] == p;
                    assert(rows_before(pairs@, pairs@.len() as int).contains(sorted[q].idx));
                    let k = choose|k: int| 0 <= k < pairs@.len() && (#[trigger] pairs@[k]).idx == i;
                    assert(idx1@[k] == i);
                }
            }
            assert forall|a: int, b: int| 0 <= a < b < idx1@.len() implies (#[trigger] idx1@[a])
                != (#[trigger] idx1@[b]) by {
                assert(pairs@[a].idx != pairs@[b].idx);
            }
        }
        if overlap_type == OverlapType::All && contained && tb.proper() {
            assert(max_events(tb) == pair_max_events(
                chrs@,
                starts@,
                ends@,
                chrs2@,
                starts2@,
                ends2@,
                slack,
            ));
            lemma_sweep_finds_contained(tb, found@);
            let keys = Seq::new(found@.len(), |k: int| (found@[k].idx as i64, 0i64, 0i64));
            assert(keys.len() == found.len());
            lemma_reorder_members(found@, keys);
            lemma_reorder_keeps_all(found@, keys);
            lemma_reorder_repeats_nothing(found@, keys);
            assert(pairs@.no_duplicates());
            assert forall|a: int, b: int|
                0 <= a < b < idx1@.len() && b < idx2@.len() implies !((#[trigger] idx1@[a]) == (
                #[trigger] idx1@[b]) && idx2@[a] == idx2@[b]) by {
                assert(pairs@[a] != pairs@[b]);
            }
            assert forall|i: u32, j: u32|
                names_pair(idx1@, idx2@, i, j) <==> (i < chrs.len() && j < chrs2.len() && within(
                    tb,
                    i as int,
                    j as int,
                )) by {
                let p = OverlapPair { idx: i, idx2: j };
                if names_pair(idx1@, idx2@, i, j) {
                    let k = choose|k: int|
                        0 <= k < idx1@.len() && k < idx2@.len() && idx1@[k] == i && idx2@[k] == j;
                    assert(pairs@[k] == p);
                    assert(pairs@.contains(p));
                    assert(found@.contains(p));
                }
                if found@.contains(p) {
                    assert(pairs@.contains(p));
                    let k = choose|k: int| 0 <= k < pairs@.len() && pairs@[k] == p;
                    assert(idx1@[k] == i && idx2@[k] == j);
                }
            }
        }
        if overlap_type == OverlapType::All && !contained && tb.proper() {
            lemma_sweep_finds_overlaps(tb, found@);
            let keys = Seq::new(found@.len(), |k: int| (found@[k].idx as i64, 0i64, 0i64));
            assert(keys.len() == found.len());
            lemma_reorder_members(found@, keys);
            lemma_reorder_keeps_all(found@, keys);
            lemma_reorder_repeats_nothing(found@, keys);
            assert(pairs@.no_duplicates());
            assert forall|a: int, b: int|
                0 <= a < b < idx1@.len() && b < idx2@.len() implies !((#[trigger] idx1@[a]) == (
                #[trigger] idx1@[b]) && idx2@[a] == idx2@[b]) by {
                assert(pairs@[a] != pairs@[b]);
            }
            assert forall|i: u32, j: u32|
                names_pair(idx1@, idx2@, i, j) <==> (i < chrs.len() && j < chrs2.len()
                    && tb.overlap(i as int, j as int)) by {
                let p = OverlapPair { idx: i, idx2: j };
                if names_pair(idx1@, idx2@, i, j) {
                    let k = choose|k: int|
                        0 <= k < idx1@.len() && k < idx2@.len() && idx1@[k] == i && idx2@[k] == j;
                    assert(pairs@[k] == p);
                    assert(pairs@.contains(p));
                    assert(found@.contains(p));
                }
                if found@.contains(p) {
                    assert(pairs@.contains(p));
                    let k = choose|k: int| 0 <= k < pairs@.len() && pairs@[k] == p;
                    assert(idx1@[k] == i && idx2@[k] == j);
                }
            }
        }
    }
    (idx1, idx2)
}

} // verus!
