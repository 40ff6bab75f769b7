//! What the pieces of a split are, said without the sweep: the stretches
//! between neighbouring endpoints of a group, those that an interval covers
//! and, where asked for, the others too.

use crate::complement_laws::lemma_gap_state;
use crate::coverage_laws::{
    covered, idle, lemma_coverage_counts_open, lemma_idle, lemma_single_table,
    lemma_sweep_ascends, proper_rows, single_table,
};
use crate::merge::coverage;
use crate::overlap_laws::{lemma_event_kind, lemma_layout, lemma_start_before_end, PairTables};
use crate::overlaps::group_changes;
use crate::radix::stable_order;
use crate::ruranges_structs::{Event, MinInterval};
use crate::sorts::shift;
use crate::split::{cuts_at, pieces, split_pieces, splitting};
use vstd::prelude::*;

verus! {

/// Event `t` cuts off a piece.
pub open spec fn makes_piece(events: Seq<Event>, between: bool, t: int) -> bool {
    cuts_at(events, t) && (splitting(events, t).open > 0 || between)
}

/// The piece that event `t` cuts off.
pub open spec fn piece_at(events: Seq<Event>, t: int) -> MinInterval {
    MinInterval {
        start: splitting(events, t).last_pos,
        end: events[t].pos,
        idx: splitting(events, t).last_idx,
    }
}

/// The places below `t` at which a piece is cut off, in ascending order.
pub open spec fn piece_places(events: Seq<Event>, between: bool, t: int) -> Seq<int>
    decreases t,
{
    if t <= 0 {
        Seq::empty()
    } else if makes_piece(events, between, t - 1) {
        piece_places(events, between, t - 1).push(t - 1)
    } else {
        piece_places(events, between, t - 1)
    }
}

/// The pieces are those of the places at which one is cut off, in their order.
pub proof fn lemma_piece_places(events: Seq<Event>, between: bool, t: int)
    requires
        0 <= t,
    ensures
        piece_places(events, between, t).len() == pieces(events, between, t).len(),
        forall|k: int|
            0 <= k < piece_places(events, between, t).len() ==> {
                let c = #[trigger] piece_places(events, between, t)[k];
                &&& 0 <= c < t
                &&& makes_piece(events, between, c)
                &&& pieces(events, between, t)[k] == piece_at(events, c)
            },
        forall|k1: int, k2: int|
            0 <= k1 < k2 < piece_places(events, between, t).len() ==> (#[trigger] piece_places(
                events,
                between,
                t,
            )[k1]) < (#[trigger] piece_places(events, between, t)[k2]),
        forall|c: int|
            0 <= c < t && makes_piece(events, between, c) ==> #[trigger] piece_places(
                events,
                between,
                t,
            ).contains(c),
    decreases t,
{
    if t > 0 {
        lemma_piece_places(events, between, t - 1);
        let before = piece_places(events, between, t - 1);
        let now = piece_places(events, between, t);
        assert forall|c: int| 0 <= c < t && makes_piece(events, between, c) implies #[trigger] now.contains(
            c,
        ) by {
            if c < t - 1 {
                assert(before.contains(c));
                let k = choose|k: int| 0 <= k < before.len() && before[k] == c;
                assert(now[k] == c);
            } else {
                assert(now[now.len() - 1] == c);
            }
        }
    }
}

/// Where the sweep stands in a table of proper intervals: the last cut
/// lies where the last event lies, at an event of a row of its group, and
/// as many intervals are open as rows have started and not ended.
pub proof fn lemma_splitting(tb: PairTables, t: int)
    requires
        tb.proper(),
        tb.chrs2.len() == 0,
        1 <= t <= tb.events().len(),
    ensures
        splitting(tb.sweep(), t).last_pos == tb.sweep()[t - 1].pos,
        splitting(tb.sweep(), t).open == coverage(tb.sweep(), t).open,
        splitting(tb.sweep(), t).last_idx < tb.chrs.len(),
        tb.chrs[splitting(tb.sweep(), t).last_idx as int] == tb.sweep()[t - 1].chr,
    decreases t,
{
    lemma_layout(tb);
    let events = tb.sweep();
    let order = stable_order(tb.keys());
    let r = order[t - 1] as int;
    assert(events[t - 1] == tb.events()[r]);
    lemma_event_kind(tb, r);
    lemma_coverage_counts_open(tb, t);
    lemma_coverage_counts_open(tb, t - 1);
    lemma_gap_state(tb, t - 1);
    if t == 1 || group_changes(events, t - 1) {
    } else {
        lemma_splitting(tb, t - 1);
        lemma_sweep_ascends(tb, t - 2, t - 1);
    }
}

/// Position `x` of group `g` lies in one of the pieces, the group of a
/// piece being that of the row it is reported with.
pub open spec fn in_a_piece(ps: Seq<MinInterval>, chrs: Seq<i64>, g: i64, x: i64) -> bool {
    exists|k: int|
        0 <= k < ps.len() && chrs[(#[trigger] ps[k]).idx as int] == g && ps[k].start <= x
            < ps[k].end
}

/// `ps` are the pieces of the table, its ends widened by `slack`: each has
/// a length, pieces of one group lie apart, in their order, no start or end
/// of the group lies within a piece, and every position that an interval
/// covers lies in a piece of its group. Where the stretches between the
/// intervals are not asked for, every position of a piece is covered.
pub open spec fn cuts_coverage(
    chrs: Seq<i64>,
    starts: Seq<i64>,
    ends: Seq<i64>,
    slack: i64,
    between: bool,
    ps: Seq<MinInterval>,
) -> bool {
    &&& forall|k: int|
        0 <= k < ps.len() ==> (#[trigger] ps[k]).idx < chrs.len() && ps[k].start < ps[k].end
    &&& forall|k1: int, k2: int|
        0 <= k1 < k2 < ps.len() && chrs[(#[trigger] ps[k1]).idx as int] == chrs[(
        #[trigger] ps[k2]).idx as int] ==> ps[k1].end <= ps[k2].start
    &&& forall|k: int, i: int|
        0 <= k < ps.len() && 0 <= i < chrs.len() && chrs[(#[trigger] ps[k]).idx as int]
            == chrs[i] ==> !(ps[k].start < #[trigger] starts[i] < ps[k].end) && !(ps[k].start
            < ends[i] + slack < ps[k].end)
    &&& forall|g: i64, x: i64|
        covered(chrs, starts, shift(ends, slack as int), g, x) ==> #[trigger] in_a_piece(
            ps,
            chrs,
            g,
            x,
        )
    &&& !between ==> forall|g: i64, x: i64| #[trigger]
        in_a_piece(ps, chrs, g, x) ==> covered(chrs, starts, shift(ends, slack as int), g, x)
}

/// The piece that an event cuts off reaches from the event before it to
/// the event itself, and both lie in one group.
proof fn lemma_piece_is_cut(tb: PairTables, between: bool, t: int)
    requires
        tb.proper(),
        tb.chrs2.len() == 0,
        0 <= t < tb.events().len(),
        makes_piece(tb.sweep(), between, t),
    ensures
        t >= 1,
        !group_changes(tb.sweep(), t),
        piece_at(tb.sweep(), t).start == tb.sweep()[t - 1].pos,
        piece_at(tb.sweep(), t).end == tb.sweep()[t].pos,
        piece_at(tb.sweep(), t).start < piece_at(tb.sweep(), t).end,
        piece_at(tb.sweep(), t).idx < tb.chrs.len(),
        tb.chrs[piece_at(tb.sweep(), t).idx as int] == tb.sweep()[t].chr,
        !between ==> !idle(tb.sweep(), t),
{
    lemma_splitting(tb, t);
}

/// No event of the group lies within the piece that event `t` cuts off.
proof fn lemma_nothing_within(tb: PairTables, t: int, u: int)
    requires
        tb.proper(),
        1 <= t < tb.events().len(),
        0 <= u < tb.events().len(),
        tb.sweep()[u].chr == tb.sweep()[t].chr,
        tb.sweep()[t - 1].chr == tb.sweep()[t].chr,
    ensures
        tb.sweep()[u].pos <= tb.sweep()[t - 1].pos || tb.sweep()[t].pos <= tb.sweep()[u].pos,
{
    if u <= t - 1 {
        lemma_sweep_ascends(tb, u, t - 1);
    } else {
        lemma_sweep_ascends(tb, t, u);
    }
}

/// Where something is open, what lies between two events is covered.
proof fn lemma_piece_is_covered(tb: PairTables, t: int, x: i64) -> (i: int)
    requires
        tb.proper(),
        tb.chrs2.len() == 0,
        1 <= t < tb.events().len(),
        !group_changes(tb.sweep(), t),
        !idle(tb.sweep(), t),
        tb.sweep()[t - 1].pos <= x < tb.sweep()[t].pos,
    ensures
        0 <= i < tb.chrs.len(),
        tb.chrs[i] == tb.sweep()[t].chr,
        tb.starts[i] <= x < tb.ends[i],
{
    lemma_layout(tb);
    let events = tb.sweep();
    lemma_idle(tb, t);
    let open = tb.open1(t);
    assert(!(open =~= Set::<u32>::empty()));
    let i = choose|i: u32| #[trigger] open.contains(i);
    let s = tb.at(tb.start1(i as int));
    let e = tb.at(tb.end1(i as int));
    assert(events[s] == tb.events()[tb.start1(i as int)]);
    assert(events[e] == tb.events()[tb.end1(i as int)]);
    lemma_sweep_ascends(tb, s, t - 1);
    lemma_sweep_ascends(tb, t - 1, t);
    lemma_sweep_ascends(tb, t, e);
    i as int
}

/// The last event from `a` on that lies at or before `x`, where event `a`
/// does and event `c` does not.
proof fn lemma_last_before(events: Seq<Event>, a: int, c: int, x: i64) -> (k: int)
    requires
        0 <= a <= c,
        events[a].pos <= x < events[c].pos,
    ensures
        a <= k < c,
        events[k].pos <= x < events[k + 1].pos,
    decreases c - a,
{
    if events[c - 1].pos <= x {
        c - 1
    } else {
        lemma_last_before(events, a, c - 1, x)
    }
}

/// What is covered lies in a piece: the event that cuts it off is returned.
proof fn lemma_covered_in_piece(tb: PairTables, between: bool, i: int, x: i64) -> (t: int)
    requires
        tb.proper(),
        tb.chrs2.len() == 0,
        0 <= i < tb.chrs.len(),
        tb.starts[i] <= x < tb.ends[i],
    ensures
        1 <= t < tb.events().len(),
        makes_piece(tb.sweep(), between, t),
        tb.sweep()[t].chr == tb.chrs[i],
        tb.sweep()[t - 1].pos <= x < tb.sweep()[t].pos,
{
    lemma_layout(tb);
    lemma_start_before_end(tb);
    let events = tb.sweep();
    let s = tb.at(tb.start1(i));
    let e = tb.at(tb.end1(i));
    assert(events[s] == tb.events()[tb.start1(i)]);
    assert(events[e] == tb.events()[tb.end1(i)]);
    let k = lemma_last_before(events, s, e, x);
    let t = k + 1;
    lemma_sweep_ascends(tb, s, k);
    lemma_sweep_ascends(tb, k, t);
    lemma_sweep_ascends(tb, t, e);
    assert(tb.open1(t).contains(i as u32));
    lemma_idle(tb, t);
    lemma_splitting(tb, t);
    t
}

/// Splitting is right: for a table of proper intervals the pieces have a
/// length, lie apart within their group, hold no start or end of their
/// group within them, and cover what the intervals cover; where the
/// stretches between the intervals are not asked for, they cover nothing
/// more.
pub proof fn lemma_split_cuts_coverage(
    chrs: Seq<i64>,
    starts: Seq<i64>,
    ends: Seq<i64>,
    slack: i64,
    between: bool,
)
    requires
        proper_rows(chrs, starts, ends, slack),
    ensures
        cuts_coverage(
            chrs,
            starts,
            ends,
            slack,
            between,
            split_pieces(chrs, starts, ends, slack, between),
        ),
{
    let tb = single_table(chrs, starts, ends, slack);
    lemma_single_table(chrs, starts, ends, slack);
    let events = tb.sweep();
    let m = events.len() as int;
    assert(m == 2 * chrs.len()) by {
        lemma_layout(tb);
    }
    let ps = split_pieces(chrs, starts, ends, slack, between);
    assert(ps == pieces(events, between, m));
    lemma_piece_places(events, between, m);
    let pp = piece_places(events, between, m);
    let wide = shift(ends, slack as int);
    assert(tb.ends == wide);
    assert forall|i: int| 0 <= i < chrs.len() implies #[trigger] wide[i] == ends[i] + slack by {
        assert(starts[i] < ends[i]);
    }
    // each piece reaches from one event of its group to the next
    assert forall|k: int| 0 <= k < ps.len() implies {
        let c = #[trigger] pp[k];
        &&& 1 <= c < m
        &&& ps[k].idx < chrs.len()
        &&& chrs[ps[k].idx as int] == events[c].chr
        &&& events[c - 1].chr == events[c].chr
        &&& ps[k].start == events[c - 1].pos
        &&& ps[k].end == events[c].pos
        &&& ps[k].start < ps[k].end
        &&& !between ==> !idle(events, c)
    } by {
        lemma_piece_is_cut(tb, between, pp[k]);
    }
    assert forall|k: int| 0 <= k < ps.len() implies (#[trigger] ps[k]).idx < chrs.len()
        && ps[k].start < ps[k].end by {
        assert(1 <= pp[k] < m);
    }
    assert forall|k1: int, k2: int|
        0 <= k1 < k2 < ps.len() && chrs[(#[trigger] ps[k1]).idx as int] == chrs[(
        #[trigger] ps[k2]).idx as int] implies ps[k1].end <= ps[k2].start by {
        assert(pp[k1] < pp[k2]);
        lemma_sweep_ascends(tb, pp[k1], pp[k2] - 1);
    }
    assert forall|k: int, i: int|
        0 <= k < ps.len() && 0 <= i < chrs.len() && chrs[(#[trigger] ps[k]).idx as int]
            == chrs[i] implies !(ps[k].start < #[trigger] starts[i] < ps[k].end) && !(ps[k].start
        < ends[i] + slack < ps[k].end) by {
        let c = pp[k];
        assert(1 <= c < m);
        lemma_row_events(tb, i);
        lemma_nothing_within(tb, c, tb.at(tb.start1(i)));
        lemma_nothing_within(tb, c, tb.at(tb.end1(i)));
    }
    assert forall|g: i64, x: i64| covered(chrs, starts, wide, g, x) implies #[trigger] in_a_piece(
        ps,
        chrs,
        g,
        x,
    ) by {
        let i = choose|i: int|
            0 <= i < chrs.len() && chrs[i] == g && #[trigger] starts[i] <= x < wide[i];
        let c = lemma_covered_in_piece(tb, between, i, x);
        assert(pp.contains(c));
        let k = choose|k: int| 0 <= k < pp.len() && pp[k] == c;
        assert(chrs[ps[k].idx as int] == g && ps[k].start <= x < ps[k].end);
    }
    if !between {
        assert forall|g: i64, x: i64| #[trigger] in_a_piece(ps, chrs, g, x) implies covered(
            chrs,
            starts,
            wide,
            g,
            x,
        ) by {
            let k = choose|k: int|
                0 <= k < ps.len() && chrs[(#[trigger] ps[k]).idx as int] == g && ps[k].start <= x
                    < ps[k].end;
            let c = pp[k];
            assert(1 <= c < m);
            let i = lemma_piece_is_covered(tb, c, x);
            assert(0 <= i < chrs.len() && chrs[i] == g && starts[i] <= x < wide[i]);
        }
    }
}

/// The events of a row stand in the sweep with its group and its two ends.
proof fn lemma_row_events(tb: PairTables, i: int)
    requires
        tb.proper(),
        0 <= i < tb.chrs.len(),
    ensures
        0 <= tb.at(tb.start1(i)) < tb.events().len(),
        0 <= tb.at(tb.end1(i)) < tb.events().len(),
        tb.sweep()[tb.at(tb.start1(i))].chr == tb.chrs[i],
        tb.sweep()[tb.at(tb.start1(i))].pos == tb.starts[i],
        tb.sweep()[tb.at(tb.end1(i))].chr == tb.chrs[i],
        tb.sweep()[tb.at(tb.end1(i))].pos == tb.ends[i],
{
    lemma_layout(tb);
    assert(tb.sweep()[tb.at(tb.start1(i))] == tb.events()[tb.start1(i)]);
    assert(tb.sweep()[tb.at(tb.end1(i))] == tb.events()[tb.end1(i)]);
}

} // verus!
