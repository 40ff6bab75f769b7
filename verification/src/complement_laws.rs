//! What the complement of one table is, said without the sweep: the gaps are
//! what the intervals leave of each group.

use crate::complement_single::{
    all_gaps, closes_gap, complement_gaps, gap_state, gap_state_met, gaps, has_trailing_gap,
    trailing_gap, Gap,
};
use crate::coverage_laws::{
    begins_run, covered, idle, lemma_covered_is_in_run, lemma_idle,
    lemma_one_group, lemma_run_first, lemma_single_table, lemma_sweep_ascends, run_first,
    single_table,
};
use crate::merge::coverage;
use crate::overlap_laws::{
    lemma_event_kind, lemma_layout, lemma_nothing_open_at_group_change, lemma_start_before_end,
    PairTables,
};
use crate::overlaps::group_changes;
use crate::radix::stable_order;
use crate::ruranges_structs::Event;
use crate::sorts::shift;
use vstd::prelude::*;

verus! {

/// The gap that the start event `s` closes.
pub open spec fn closed_gap(events: Seq<Event>, include_first: bool, s: int) -> Gap {
    Gap {
        chr: events[s].chr,
        start: gap_state_met(events, include_first, s).gap_start,
        end: events[s].pos,
        idx: gap_state_met(events, include_first, s).index,
    }
}

/// `gap` is reported at event `s`: as the gap behind the group that ends
/// before it, or as the gap that it closes.
pub open spec fn reported_at(
    events: Seq<Event>,
    lengths: Map<i64, i64>,
    include_first: bool,
    s: int,
    gap: Gap,
) -> bool {
    ||| group_changes(events, s) && has_trailing_gap(events, lengths, include_first, s) && gap
        == trailing_gap(events, lengths, include_first, s)
    ||| closes_gap(gap_state_met(events, include_first, s), events[s]) && gap == closed_gap(
        events,
        include_first,
        s,
    )
}

/// The gaps of the first `t` events are those reported at one of them.
pub proof fn lemma_gaps_reported(
    events: Seq<Event>,
    lengths: Map<i64, i64>,
    include_first: bool,
    t: int,
)
    requires
        0 <= t,
    ensures
        forall|gap: Gap| #[trigger]
            gaps(events, lengths, include_first, t).contains(gap) <==> exists|s: int|
                0 <= s < t && #[trigger] reported_at(events, lengths, include_first, s, gap),
    decreases t,
{
    let now = gaps(events, lengths, include_first, t);
    if t > 0 {
        lemma_gaps_reported(events, lengths, include_first, t - 1);
        let before = gaps(events, lengths, include_first, t - 1);
        let s0 = t - 1;
        let trails = group_changes(events, s0) && has_trailing_gap(
            events,
            lengths,
            include_first,
            s0,
        );
        let closes = closes_gap(gap_state_met(events, include_first, s0), events[s0]);
        let tg = trailing_gap(events, lengths, include_first, s0);
        let cg = closed_gap(events, include_first, s0);
        let mid = if trails { before.push(tg) } else { before };
        assert(now == (if closes { mid.push(cg) } else { mid }));
        assert forall|gap: Gap| #[trigger] now.contains(gap) <==> exists|s: int|
            0 <= s < t && #[trigger] reported_at(events, lengths, include_first, s, gap) by {
            if now.contains(gap) {
                let q = choose|q: int| 0 <= q < now.len() && now[q] == gap;
                if q < before.len() {
                    assert(before[q] == gap);
                    assert(before.contains(gap));
                    let s = choose|s: int|
                        0 <= s < t - 1 && #[trigger] reported_at(
                            events,
                            lengths,
                            include_first,
                            s,
                            gap,
                        );
                    assert(0 <= s < t && reported_at(events, lengths, include_first, s, gap));
                } else {
                    assert(reported_at(events, lengths, include_first, s0, gap));
                }
            }
            if exists|s: int|
                0 <= s < t && #[trigger] reported_at(events, lengths, include_first, s, gap) {
                let s = choose|s: int|
                    0 <= s < t && #[trigger] reported_at(events, lengths, include_first, s, gap);
                if s < t - 1 {
                    assert(before.contains(gap));
                    let q = choose|q: int| 0 <= q < before.len() && before[q] == gap;
                    assert(now[q] == gap);
                } else {
                    if trails && gap == tg {
                        assert(now[before.len() as int] == gap);
                    } else {
                        assert(closes && gap == cg);
                        assert(now[now.len() - 1] == gap);
                    }
                }
            }
        }
    }
}

/// The sweep for gaps counts the open intervals as the sweep for runs does.
pub proof fn lemma_gap_state_open(events: Seq<Event>, include_first: bool, t: int)
    requires
        0 <= t,
    ensures
        gap_state(events, include_first, t).open == coverage(events, t).open,
        gap_state_met(events, include_first, t).open == (if t <= 0 || group_changes(events, t) {
            0
        } else {
            coverage(events, t).open
        }),
    decreases t,
{
    if t > 0 {
        lemma_gap_state_open(events, include_first, t - 1);
    }
}

/// Where an event begins a run, the gap before the run begins at zero if
/// the event begins its group, else where the event before it lies.
pub open spec fn gap_begin(events: Seq<Event>, t: int) -> i64 {
    if t <= 0 || group_changes(events, t) {
        0
    } else {
        events[t - 1].pos
    }
}

/// What the sweep for gaps knows where nothing is open: in a table of
/// proper intervals, behind an event that leaves nothing open a gap is open
/// that begins where the event lies; an event that begins a run is a start
/// and finds a gap open that begins at `gap_begin`; no other event closes
/// a gap.
pub proof fn lemma_gap_state(tb: PairTables, t: int)
    requires
        tb.proper(),
        tb.chrs2.len() == 0,
        0 <= t <= tb.events().len(),
    ensures
        t >= 1 && idle(tb.sweep(), t) ==> gap_state(tb.sweep(), true, t).in_gap && gap_state(
            tb.sweep(),
            true,
            t,
        ).gap_start == tb.sweep()[t - 1].pos && !tb.sweep()[t - 1].is_start,
        t < tb.events().len() && begins_run(tb.sweep(), t) ==> tb.sweep()[t].is_start
            && gap_state_met(tb.sweep(), true, t).in_gap && gap_state_met(
            tb.sweep(),
            true,
            t,
        ).gap_start == gap_begin(tb.sweep(), t),
        t < tb.events().len() ==> (closes_gap(gap_state_met(tb.sweep(), true, t), tb.sweep()[t])
            <==> (begins_run(tb.sweep(), t) && gap_begin(tb.sweep(), t) != tb.sweep()[t].pos)),
{
    lemma_layout(tb);
    lemma_start_before_end(tb);
    let events = tb.sweep();
    let m = events.len() as int;
    lemma_gap_state_open(events, true, t);
    lemma_idle(tb, t);
    if t >= 1 {
        lemma_gap_state_open(events, true, t - 1);
        lemma_idle(tb, t - 1);
        if idle(events, t) {
            assert(!events[t - 1].is_start);
        }
    }
    if t < m {
        let order = stable_order(tb.keys());
        let r = order[t] as int;
        assert(events[t] == tb.events()[r]);
        assert(tb.at(r) == t);
        lemma_event_kind(tb, r);
        if begins_run(events, t) {
            if !events[t].is_start {
                let i = events[t].idx;
                assert(tb.at(tb.start1(i as int)) < tb.at(tb.end1(i as int)));
                assert(tb.open1(t).contains(i));
            }
        }
    }
}

/// Position `x` of group `g` lies in one of the gaps.
pub open spec fn in_a_gap(found: Seq<Gap>, g: i64, x: i64) -> bool {
    exists|k: int|
        0 <= k < found.len() && (#[trigger] found[k]).chr == g && found[k].start <= x
            < found[k].end
}


/// `gap` is one of the gaps of `events`.
pub open spec fn is_gap_of(events: Seq<Event>, lengths: Map<i64, i64>, gap: Gap) -> bool {
    ||| exists|s: int|
        0 <= s < events.len() && #[trigger] reported_at(events, lengths, true, s, gap)
    ||| events.len() > 0 && has_trailing_gap(events, lengths, true, events.len() as int) && gap
        == trailing_gap(events, lengths, true, events.len() as int)
}

/// All gaps are the reported ones and the gap behind the last group.
pub proof fn lemma_all_gaps(events: Seq<Event>, lengths: Map<i64, i64>)
    ensures
        forall|gap: Gap| #[trigger]
            all_gaps(events, lengths, true).contains(gap) <==> is_gap_of(events, lengths, gap),
{
    let m = events.len() as int;
    lemma_gaps_reported(events, lengths, true, m);
    let inner = gaps(events, lengths, true, m);
    let all = all_gaps(events, lengths, true);
    let last = m > 0 && has_trailing_gap(events, lengths, true, m);
    let tg = trailing_gap(events, lengths, true, m);
    assert forall|gap: Gap| #[trigger] all.contains(gap) <==> is_gap_of(events, lengths, gap) by {
        if all.contains(gap) {
            let q = choose|q: int| 0 <= q < all.len() && all[q] == gap;
            if q < inner.len() {
                assert(inner[q] == gap);
                assert(inner.contains(gap));
            }
        }
        if inner.contains(gap) {
            let q = choose|q: int| 0 <= q < inner.len() && inner[q] == gap;
            assert(all[q] == gap);
        }
        if last && gap == tg {
            assert(all[inner.len() as int] == gap);
        }
    }
}

/// The first event of the group of event `p`.
proof fn lemma_group_begin(events: Seq<Event>, p: int) -> (a: int)
    requires
        0 <= p < events.len(),
    ensures
        0 <= a <= p,
        events[a].chr == events[p].chr,
        a == 0 || group_changes(events, a),
    decreases p,
{
    if p == 0 || group_changes(events, p) {
        p
    } else {
        lemma_group_begin(events, p - 1)
    }
}

/// The last event below `hi` that lies in group `g` at or before `x`, or
/// `-1` where there is none.
proof fn lemma_last_in_group(events: Seq<Event>, g: i64, x: i64, hi: int) -> (k: int)
    requires
        0 <= hi <= events.len(),
    ensures
        -1 <= k < hi,
        k >= 0 ==> events[k].chr == g && events[k].pos <= x,
        forall|u: int| k < u < hi && events[u].chr == g ==> (#[trigger] events[u]).pos > x,
    decreases hi,
{
    if hi == 0 {
        -1
    } else if events[hi - 1].chr == g && events[hi - 1].pos <= x {
        hi - 1
    } else {
        lemma_last_in_group(events, g, x, hi - 1)
    }
}

/// The intervals of the table are proper and lie within their groups: none
/// begins before zero, and widened by `slack` none ends behind the length
/// of its group, which `lengths` gives.
pub open spec fn lies_within_groups(
    chrs: Seq<i64>,
    starts: Seq<i64>,
    ends: Seq<i64>,
    slack: i64,
    lengths: Map<i64, i64>,
) -> bool {
    &&& chrs.len() == starts.len()
    &&& chrs.len() == ends.len()
    &&& chrs.len() <= u32::MAX
    &&& 2 * chrs.len() <= usize::MAX
    &&& 0 <= slack
    &&& forall|i: int|
        0 <= i < chrs.len() ==> 0 <= #[trigger] starts[i] < ends[i] && lengths.contains_key(
            chrs[i],
        ) && ends[i] + slack <= lengths[chrs[i]]
}

/// Each gap lies within its group, which is the group of some row.
proof fn lemma_gap_lies_within(
    chrs: Seq<i64>,
    starts: Seq<i64>,
    ends: Seq<i64>,
    slack: i64,
    lengths: Map<i64, i64>,
    gap: Gap,
)
    requires
        lies_within_groups(chrs, starts, ends, slack, lengths),
        is_gap_of(single_table(chrs, starts, ends, slack).sweep(), lengths, gap),
    ensures
        chrs.contains(gap.chr),
        0 <= gap.start <= gap.end <= lengths[gap.chr],
{
    let tb = single_table(chrs, starts, ends, slack);
    assert forall|i: int| 0 <= i < chrs.len() implies #[trigger] tb.starts[i] < tb.ends[i] by {
        assert(0 <= starts[i] < ends[i]);
    }
    lemma_layout(tb);
    let events = tb.sweep();
    let m = events.len() as int;
    let order = stable_order(tb.keys());
    if exists|s: int| 0 <= s < m && #[trigger] reported_at(events, lengths, true, s, gap) {
        let s = choose|s: int| 0 <= s < m && #[trigger] reported_at(events, lengths, true, s, gap);
        lemma_gap_state(tb, s);
        if group_changes(events, s) && has_trailing_gap(events, lengths, true, s) && gap
            == trailing_gap(events, lengths, true, s) {
            lemma_nothing_open_at_group_change(tb, s);
            lemma_idle(tb, s);
            let r = order[s - 1] as int;
            assert(events[s - 1] == tb.events()[r]);
            lemma_event_kind(tb, r);
            let i = events[s - 1].idx as int;
            assert(0 <= starts[i] < ends[i]);
            assert(chrs[i] == gap.chr);
        } else {
            let r = order[s] as int;
            assert(events[s] == tb.events()[r]);
            lemma_event_kind(tb, r);
            let i = events[s].idx as int;
            assert(0 <= starts[i] < ends[i]);
            assert(chrs[i] == gap.chr);
            if !(s <= 0 || group_changes(events, s)) {
                lemma_sweep_ascends(tb, s - 1, s);
                let rp = order[s - 1] as int;
                assert(events[s - 1] == tb.events()[rp]);
                lemma_event_kind(tb, rp);
                let ip = events[s - 1].idx as int;
                assert(0 <= starts[ip] < ends[ip]);
            }
        }
    } else {
        lemma_gap_state(tb, m);
        lemma_idle(tb, m);
        assert forall|i: u32| !tb.open1(m).contains(i) by {
            if i < tb.chrs.len() {
                assert(tb.at(tb.end1(i as int)) < m);
            }
        }
        assert(tb.open1(m) =~= Set::<u32>::empty());
        let r = order[m - 1] as int;
        assert(events[m - 1] == tb.events()[r]);
        lemma_event_kind(tb, r);
        let i = events[m - 1].idx as int;
        assert(0 <= starts[i] < ends[i]);
        assert(chrs[i] == gap.chr);
    }
}


/// A position that an interval covers lies in no gap of the group.
proof fn lemma_covered_not_in_gap(tb: PairTables, lengths: Map<i64, i64>, i: int, x: i64, gap: Gap)
    requires
        tb.proper(),
        tb.chrs2.len() == 0,
        0 <= i < tb.chrs.len(),
        tb.starts[i] <= x < tb.ends[i],
        is_gap_of(tb.sweep(), lengths, gap),
        gap.chr == tb.chrs[i],
    ensures
        !(gap.start <= x < gap.end),
{
    lemma_layout(tb);
    let events = tb.sweep();
    let m = events.len() as int;
    let c = lemma_covered_is_in_run(tb, i, x);
    lemma_run_first(events, c + 1);
    let a = run_first(events, c + 1);
    assert forall|u: int| a < u <= c implies !group_changes(events, u) by {
        assert(!begins_run(events, u));
    }
    lemma_one_group(events, a, c);
    if exists|s: int| 0 <= s < m && #[trigger] reported_at(events, lengths, true, s, gap) {
        let s = choose|s: int| 0 <= s < m && #[trigger] reported_at(events, lengths, true, s, gap);
        lemma_gap_state(tb, s);
        if group_changes(events, s) && has_trailing_gap(events, lengths, true, s) && gap
            == trailing_gap(events, lengths, true, s) {
            lemma_nothing_open_at_group_change(tb, s);
            lemma_idle(tb, s);
            if c >= s {
                lemma_sweep_ascends(tb, s - 1, s);
                lemma_sweep_ascends(tb, s, c);
            } else {
                lemma_sweep_ascends(tb, c, s - 1);
            }
        } else {
            if s <= a {
                lemma_sweep_ascends(tb, s, a);
            } else if s <= c {
                assert(!begins_run(events, s));
            } else {
                lemma_sweep_ascends(tb, c, s - 1);
                lemma_sweep_ascends(tb, s - 1, s);
            }
        }
    } else {
        lemma_gap_state(tb, m);
        lemma_idle(tb, m);
        assert forall|j: u32| !tb.open1(m).contains(j) by {
            if j < tb.chrs.len() {
                assert(tb.at(tb.end1(j as int)) < m);
            }
        }
        assert(tb.open1(m) =~= Set::<u32>::empty());
        lemma_sweep_ascends(tb, c, m - 1);
    }
}

/// A position of a group that no interval covers lies in a gap of the group.
proof fn lemma_uncovered_in_gap(tb: PairTables, lengths: Map<i64, i64>, i0: int, x: i64) -> (gap:
    Gap)
    requires
        tb.proper(),
        tb.chrs2.len() == 0,
        0 <= i0 < tb.chrs.len(),
        lengths.contains_key(tb.chrs[i0]),
        0 <= x < lengths[tb.chrs[i0]],
        !covered(tb.chrs, tb.starts, tb.ends, tb.chrs[i0], x),
    ensures
        is_gap_of(tb.sweep(), lengths, gap),
        gap.chr == tb.chrs[i0],
        gap.start <= x < gap.end,
{
    lemma_layout(tb);
    lemma_start_before_end(tb);
    let events = tb.sweep();
    let m = events.len() as int;
    let g = tb.chrs[i0];
    let p0 = tb.at(tb.start1(i0));
    assert(events[p0] == tb.events()[tb.start1(i0)]);
    let k = lemma_last_in_group(events, g, x, m);
    if k < 0 {
        let a = lemma_group_begin(events, p0);
        lemma_gap_state(tb, a);
        let gap = closed_gap(events, true, a);
        assert(reported_at(events, lengths, true, a, gap));
        gap
    } else {
        lemma_idle(tb, k + 1);
        if !idle(events, k + 1) {
            let open = tb.open1(k + 1);
            assert(!(open =~= Set::<u32>::empty()));
            let i = choose|i: u32| #[trigger] open.contains(i);
            let s = tb.at(tb.start1(i as int));
            let e = tb.at(tb.end1(i as int));
            assert(events[s] == tb.events()[tb.start1(i as int)]);
            assert(events[e] == tb.events()[tb.end1(i as int)]);
            lemma_sweep_ascends(tb, s, k);
            lemma_sweep_ascends(tb, k, e);
            assert(events[e].pos > x);
            assert(0 <= (i as int) < tb.chrs.len() && tb.chrs[i as int] == g && tb.starts[i as int]
                <= x < tb.ends[i as int]);
            assert(false);
            arbitrary()
        } else if k + 1 == m {
            lemma_gap_state(tb, m);
            trailing_gap(events, lengths, true, m)
        } else if group_changes(events, k + 1) {
            lemma_gap_state(tb, k + 1);
            let gap = trailing_gap(events, lengths, true, k + 1);
            assert(reported_at(events, lengths, true, k + 1, gap));
            gap
        } else {
            lemma_gap_state(tb, k + 1);
            let gap = closed_gap(events, true, k + 1);
            assert(events[k + 1].pos > x);
            assert(reported_at(events, lengths, true, k + 1, gap));
            gap
        }
    }
}

/// Event `t` is the first of its group.
pub open spec fn begins_group(events: Seq<Event>, t: int) -> bool {
    t <= 0 || group_changes(events, t)
}

/// Without the stretch before the first interval of a group the sweep for
/// gaps stands as it does with it, but that the first event of a group
/// finds no gap open: it counts and remembers the same, holds a gap open
/// wherever nothing is open behind an event, and closes the same gaps but
/// those before the first interval of a group.
pub proof fn lemma_gap_states_alike(tb: PairTables, t: int)
    requires
        tb.proper(),
        tb.chrs2.len() == 0,
        0 <= t <= tb.events().len(),
    ensures
        gap_state(tb.sweep(), false, t).open == gap_state(tb.sweep(), true, t).open,
        gap_state(tb.sweep(), false, t).gap_start == gap_state(tb.sweep(), true, t).gap_start,
        gap_state(tb.sweep(), false, t).index == gap_state(tb.sweep(), true, t).index,
        t >= 1 && idle(tb.sweep(), t) ==> gap_state(tb.sweep(), false, t).in_gap,
        gap_state_met(tb.sweep(), false, t).open == gap_state_met(tb.sweep(), true, t).open,
        gap_state_met(tb.sweep(), false, t).gap_start == gap_state_met(
            tb.sweep(),
            true,
            t,
        ).gap_start,
        gap_state_met(tb.sweep(), false, t).index == gap_state_met(tb.sweep(), true, t).index,
        t < tb.events().len() ==> (closes_gap(gap_state_met(tb.sweep(), false, t), tb.sweep()[t])
            <==> (closes_gap(gap_state_met(tb.sweep(), true, t), tb.sweep()[t]) && !begins_group(
            tb.sweep(),
            t,
        ))),
    decreases t,
{
    lemma_layout(tb);
    let events = tb.sweep();
    lemma_gap_state(tb, t);
    lemma_gap_state_open(events, true, t);
    lemma_gap_state_open(events, false, t);
    if t > 0 {
        lemma_gap_states_alike(tb, t - 1);
        lemma_gap_state_open(events, true, t - 1);
        lemma_gap_state_open(events, false, t - 1);
    }
}

/// `gap` is one of the gaps of `events` where the stretch before the first
/// interval of a group is no gap.
pub open spec fn is_later_gap_of(events: Seq<Event>, lengths: Map<i64, i64>, gap: Gap) -> bool {
    ||| exists|s: int|
        0 <= s < events.len() && #[trigger] reported_at(events, lengths, false, s, gap)
    ||| events.len() > 0 && has_trailing_gap(events, lengths, false, events.len() as int) && gap
        == trailing_gap(events, lengths, false, events.len() as int)
}

/// All gaps are the reported ones and the gap behind the last group.
pub proof fn lemma_all_later_gaps(events: Seq<Event>, lengths: Map<i64, i64>)
    ensures
        forall|gap: Gap| #[trigger]
            all_gaps(events, lengths, false).contains(gap) <==> is_later_gap_of(
                events,
                lengths,
                gap,
            ),
{
    let m = events.len() as int;
    lemma_gaps_reported(events, lengths, false, m);
    let inner = gaps(events, lengths, false, m);
    let all = all_gaps(events, lengths, false);
    let last = m > 0 && has_trailing_gap(events, lengths, false, m);
    let tg = trailing_gap(events, lengths, false, m);
    assert forall|gap: Gap| #[trigger] all.contains(gap) <==> is_later_gap_of(
        events,
        lengths,
        gap,
    ) by {
        if all.contains(gap) {
            let q = choose|q: int| 0 <= q < all.len() && all[q] == gap;
            if q < inner.len() {
                assert(inner[q] == gap);
                assert(inner.contains(gap));
            }
        }
        if inner.contains(gap) {
            let q = choose|q: int| 0 <= q < inner.len() && inner[q] == gap;
            assert(all[q] == gap);
        }
        if last && gap == tg {
            assert(all[inner.len() as int] == gap);
        }
    }
}

/// A row of group `g` starts at or before position `x`.
pub open spec fn begun(chrs: Seq<i64>, starts: Seq<i64>, g: i64, x: i64) -> bool {
    exists|j: int| 0 <= j < chrs.len() && chrs[j] == g && #[trigger] starts[j] <= x
}

/// A gap that is reported where the stretch before the first interval is
/// no gap is a gap where it is one, and begins where a row of its group ends.
proof fn lemma_later_gap(tb: PairTables, lengths: Map<i64, i64>, gap: Gap)
    requires
        tb.proper(),
        tb.chrs2.len() == 0,
        is_later_gap_of(tb.sweep(), lengths, gap),
    ensures
        is_gap_of(tb.sweep(), lengths, gap),
        begun(tb.chrs, tb.starts, gap.chr, gap.start),
{
    lemma_layout(tb);
    lemma_start_before_end(tb);
    let events = tb.sweep();
    let m = events.len() as int;
    let order = stable_order(tb.keys());
    // where the gap begins, an event of the group lies that is an end
    let at = if exists|s: int| 0 <= s < m && #[trigger] reported_at(events, lengths, false, s, gap) {
        let s = choose|s: int| 0 <= s < m && #[trigger] reported_at(events, lengths, false, s, gap);
        lemma_gap_states_alike(tb, s);
        lemma_gap_state(tb, s);
        if group_changes(events, s) {
            lemma_nothing_open_at_group_change(tb, s);
            lemma_idle(tb, s);
            lemma_gap_state_open(events, true, s);
        }
        assert(reported_at(events, lengths, true, s, gap));
        lemma_idle(tb, s);
        s
    } else {
        lemma_gap_states_alike(tb, m);
        lemma_gap_state(tb, m);
        lemma_idle(tb, m);
        assert forall|i: u32| !tb.open1(m).contains(i) by {
            if i < tb.chrs.len() {
                assert(tb.at(tb.end1(i as int)) < m);
            }
        }
        assert(tb.open1(m) =~= Set::<u32>::empty());
        m
    };
    assert(at >= 1 && idle(events, at) && gap.start == events[at - 1].pos && gap.chr == events[at
        - 1].chr && !events[at - 1].is_start);
    let r = order[at - 1] as int;
    assert(events[at - 1] == tb.events()[r]);
    lemma_event_kind(tb, r);
    let i = events[at - 1].idx as int;
    assert(0 <= i < tb.chrs.len() && tb.chrs[i] == gap.chr && tb.starts[i] <= gap.start);
}

/// A gap that begins at or behind the start of a row of its group is
/// reported also where the stretch before the first interval is no gap.
proof fn lemma_gap_behind_start(tb: PairTables, lengths: Map<i64, i64>, gap: Gap, x: i64)
    requires
        tb.proper(),
        tb.chrs2.len() == 0,
        is_gap_of(tb.sweep(), lengths, gap),
        gap.start <= x < gap.end,
        begun(tb.chrs, tb.starts, gap.chr, x),
    ensures
        is_later_gap_of(tb.sweep(), lengths, gap),
{
    lemma_layout(tb);
    let events = tb.sweep();
    let m = events.len() as int;
    if exists|s: int| 0 <= s < m && #[trigger] reported_at(events, lengths, true, s, gap) {
        let s = choose|s: int| 0 <= s < m && #[trigger] reported_at(events, lengths, true, s, gap);
        lemma_gap_states_alike(tb, s);
        lemma_gap_state(tb, s);
        if group_changes(events, s) {
            lemma_nothing_open_at_group_change(tb, s);
            lemma_idle(tb, s);
        }
        if !(group_changes(events, s) && has_trailing_gap(events, lengths, true, s) && gap
            == trailing_gap(events, lengths, true, s)) && begins_group(events, s) {
            // the gap before the first interval of a group ends where the group begins
            let j = choose|j: int|
                0 <= j < tb.chrs.len() && tb.chrs[j] == gap.chr && #[trigger] tb.starts[j] <= x;
            let u = tb.at(tb.start1(j));
            assert(events[u] == tb.events()[tb.start1(j)]);
            if u < s {
                if s > 0 {
                    lemma_sweep_ascends(tb, u, s - 1);
                    lemma_sweep_ascends(tb, s - 1, s);
                }
            } else {
                lemma_sweep_ascends(tb, s, u);
            }
        }
        assert(reported_at(events, lengths, false, s, gap));
    } else {
        lemma_gap_states_alike(tb, m);
        lemma_gap_state(tb, m);
        lemma_idle(tb, m);
        assert forall|i: u32| !tb.open1(m).contains(i) by {
            if i < tb.chrs.len() {
                assert(tb.at(tb.end1(i as int)) < m);
            }
        }
        assert(tb.open1(m) =~= Set::<u32>::empty());
    }
}

/// Gaps of one group lie apart, in their order: a gap ends at or before the
/// start of each gap of its group that follows it.
pub open spec fn gaps_lie_apart(found: Seq<Gap>) -> bool {
    forall|k1: int, k2: int|
        0 <= k1 < k2 < found.len() && (#[trigger] found[k1]).chr == (#[trigger] found[k2]).chr
            ==> found[k1].end <= found[k2].start
}

/// A gap lies before event `p`: in a group before that of the event, or in
/// its group and with its end at or before the event.
pub open spec fn lies_before_event(events: Seq<Event>, p: int, gap: Gap) -> bool {
    gap.chr < events[p].chr || (gap.chr == events[p].chr && gap.end <= events[p].pos)
}

/// The gaps that the first `t` events report lie apart, and each lies
/// before the last of these events.
proof fn lemma_gaps_in_order(
    tb: PairTables,
    lengths: Map<i64, i64>,
    include_first: bool,
    t: int,
)
    requires
        tb.proper(),
        tb.chrs2.len() == 0,
        0 <= t <= tb.events().len(),
    ensures
        gaps_lie_apart(gaps(tb.sweep(), lengths, include_first, t)),
        forall|k: int|
            0 <= k < gaps(tb.sweep(), lengths, include_first, t).len() ==> lies_before_event(
                tb.sweep(),
                t - 1,
                #[trigger] gaps(tb.sweep(), lengths, include_first, t)[k],
            ),
    decreases t,
{
    lemma_layout(tb);
    let events = tb.sweep();
    if t > 0 {
        let s = t - 1;
        lemma_gaps_in_order(tb, lengths, include_first, s);
        lemma_gap_state(tb, s);
        lemma_gap_states_alike(tb, s);
        let before = gaps(events, lengths, include_first, s);
        let trails = group_changes(events, s) && has_trailing_gap(events, lengths, include_first, s);
        let closes = closes_gap(gap_state_met(events, include_first, s), events[s]);
        let tg = trailing_gap(events, lengths, include_first, s);
        let cg = closed_gap(events, include_first, s);
        let mid = if trails { before.push(tg) } else { before };
        let now = gaps(events, lengths, include_first, t);
        assert(now == (if closes { mid.push(cg) } else { mid }));
        if s > 0 {
            lemma_sweep_ascends(tb, s - 1, s);
        }
        if group_changes(events, s) {
            lemma_nothing_open_at_group_change(tb, s);
            lemma_idle(tb, s);
            assert(tg.start == events[s - 1].pos);
            assert(tg.chr < events[s].chr);
        }
        assert forall|k: int| 0 <= k < before.len() implies lies_before_event(
            events,
            s,
            #[trigger] before[k],
        ) && (closes ==> before[k].chr != cg.chr || before[k].end <= cg.start) && (trails
            ==> before[k].chr != tg.chr || before[k].end <= tg.start) by {
            assert(lies_before_event(events, s - 1, before[k]));
        }
        assert forall|k: int| 0 <= k < mid.len() implies lies_before_event(
            events,
            s,
            #[trigger] mid[k],
        ) && (closes ==> mid[k].chr != cg.chr || mid[k].end <= cg.start) by {
            if k < before.len() {
                assert(mid[k] == before[k]);
            }
        }
        assert(gaps_lie_apart(mid)) by {
            assert forall|k1: int, k2: int|
                0 <= k1 < k2 < mid.len() && (#[trigger] mid[k1]).chr == (#[trigger] mid[k2]).chr
                implies mid[k1].end <= mid[k2].start by {
                assert(mid[k1] == before[k1]);
                if k2 < before.len() {
                    assert(mid[k2] == before[k2]);
                }
            }
        }
        assert(gaps_lie_apart(now)) by {
            assert forall|k1: int, k2: int|
                0 <= k1 < k2 < now.len() && (#[trigger] now[k1]).chr == (#[trigger] now[k2]).chr
                implies now[k1].end <= now[k2].start by {
                assert(now[k1] == mid[k1]);
                if k2 < mid.len() {
                    assert(now[k2] == mid[k2]);
                }
            }
        }
        assert forall|k: int| 0 <= k < now.len() implies lies_before_event(
            events,
            t - 1,
            #[trigger] now[k],
        ) by {
            if k < mid.len() {
                assert(now[k] == mid[k]);
            }
        }
    }
}

/// The gaps `found` and the intervals of the table, widened by `slack`,
/// tile each group: each gap lies within its group, gaps of one group lie
/// apart, and a position of a group lies in a gap of the group exactly if
/// no widened interval of the group covers it.
pub open spec fn tiles_groups(
    chrs: Seq<i64>,
    starts: Seq<i64>,
    ends: Seq<i64>,
    slack: i64,
    lengths: Map<i64, i64>,
    found: Seq<Gap>,
) -> bool {
    &&& forall|k: int|
        0 <= k < found.len() ==> chrs.contains((#[trigger] found[k]).chr) && 0 <= found[k].start
            <= found[k].end <= lengths[found[k].chr]
    &&& gaps_lie_apart(found)
    &&& forall|g: i64, x: i64|
        chrs.contains(g) && 0 <= x < lengths[g] ==> (#[trigger] in_a_gap(found, g, x)
            <==> !covered(chrs, starts, shift(ends, slack as int), g, x))
}

/// The gaps and the intervals tile each group: for a table of proper
/// intervals that lie within their groups, the complement with the stretch
/// before the first interval of each group included is what the intervals
/// leave of the groups.
pub proof fn lemma_gaps_tile_groups(
    chrs: Seq<i64>,
    starts: Seq<i64>,
    ends: Seq<i64>,
    slack: i64,
    lengths: Map<i64, i64>,
)
    requires
        lies_within_groups(chrs, starts, ends, slack, lengths),
    ensures
        tiles_groups(
            chrs,
            starts,
            ends,
            slack,
            lengths,
            complement_gaps(chrs, starts, ends, slack, lengths, true),
        ),
{
    let tb = single_table(chrs, starts, ends, slack);
    lemma_single_table(chrs, starts, ends, slack);
    assert forall|i: int| 0 <= i < chrs.len() implies #[trigger] tb.starts[i] < tb.ends[i] by {
        assert(0 <= starts[i] < ends[i]);
    }
    let events = tb.sweep();
    let found = complement_gaps(chrs, starts, ends, slack, lengths, true);
    assert(found == all_gaps(events, lengths, true));
    lemma_all_gaps(events, lengths);
    assert forall|k: int| 0 <= k < found.len() implies chrs.contains((#[trigger] found[k]).chr)
        && 0 <= found[k].start <= found[k].end <= lengths[found[k].chr] by {
        assert(found.contains(found[k]));
        lemma_gap_lies_within(chrs, starts, ends, slack, lengths, found[k]);
    }
    assert(gaps_lie_apart(found)) by {
        lemma_layout(tb);
        let m = events.len() as int;
        let inner = gaps(events, lengths, true, m);
        lemma_gaps_in_order(tb, lengths, true, m);
        if m > 0 && has_trailing_gap(events, lengths, true, m) {
            let tg = trailing_gap(events, lengths, true, m);
            lemma_gap_state(tb, m);
            lemma_idle(tb, m);
            assert forall|j: u32| !tb.open1(m).contains(j) by {
                if j < tb.chrs.len() {
                    assert(tb.at(tb.end1(j as int)) < m);
                }
            }
            assert(tb.open1(m) =~= Set::<u32>::empty());
            assert(tg.start == events[m - 1].pos);
            assert forall|k1: int, k2: int|
                0 <= k1 < k2 < found.len() && (#[trigger] found[k1]).chr == (
                #[trigger] found[k2]).chr implies found[k1].end <= found[k2].start by {
                assert(found[k1] == inner[k1]);
                assert(lies_before_event(events, m - 1, inner[k1]));
                if k2 < inner.len() {
                    assert(found[k2] == inner[k2]);
                }
            }
        }
    }
    assert forall|g: i64, x: i64| chrs.contains(g) && 0 <= x < lengths[g] implies (
    #[trigger] in_a_gap(found, g, x) <==> !covered(chrs, starts, shift(ends, slack as int), g, x)) by {
        let i0 = choose|i0: int| 0 <= i0 < chrs.len() && chrs[i0] == g;
        assert(0 <= starts[i0] < ends[i0]);
        if covered(chrs, starts, shift(ends, slack as int), g, x) {
            let i = choose|i: int|
                0 <= i < chrs.len() && chrs[i] == g && #[trigger] starts[i] <= x < shift(
                    ends,
                    slack as int,
                )[i];
            if in_a_gap(found, g, x) {
                let k = choose|k: int|
                    0 <= k < found.len() && (#[trigger] found[k]).chr == g && found[k].start <= x
                        < found[k].end;
                assert(found.contains(found[k]));
                lemma_covered_not_in_gap(tb, lengths, i, x, found[k]);
            }
        } else {
            let gap = lemma_uncovered_in_gap(tb, lengths, i0, x);
            assert(found.contains(gap));
            let k = choose|k: int| 0 <= k < found.len() && found[k] == gap;
            assert(found[k].chr == g && found[k].start <= x < found[k].end);
        }
    }
}

/// The gaps `found` and the intervals of the table, widened by `slack`,
/// tile each group from its first interval on: each gap lies within its
/// group, gaps of one group lie apart, and a position of a group lies in a
/// gap of the group exactly if no widened interval of the group covers it
/// and an interval of the group starts at or before it.
pub open spec fn tiles_groups_behind_first(
    chrs: Seq<i64>,
    starts: Seq<i64>,
    ends: Seq<i64>,
    slack: i64,
    lengths: Map<i64, i64>,
    found: Seq<Gap>,
) -> bool {
    &&& forall|k: int|
        0 <= k < found.len() ==> chrs.contains((#[trigger] found[k]).chr) && 0 <= found[k].start
            <= found[k].end <= lengths[found[k].chr]
    &&& gaps_lie_apart(found)
    &&& forall|g: i64, x: i64|
        chrs.contains(g) && 0 <= x < lengths[g] ==> (#[trigger] in_a_gap(found, g, x) <==> (
        !covered(chrs, starts, shift(ends, slack as int), g, x) && begun(chrs, starts, g, x)))
}

/// Without the stretch before the first interval of each group, the gaps
/// and the intervals tile each group from its first interval on.
pub proof fn lemma_gaps_tile_groups_behind_first(
    chrs: Seq<i64>,
    starts: Seq<i64>,
    ends: Seq<i64>,
    slack: i64,
    lengths: Map<i64, i64>,
)
    requires
        lies_within_groups(chrs, starts, ends, slack, lengths),
    ensures
        tiles_groups_behind_first(
            chrs,
            starts,
            ends,
            slack,
            lengths,
            complement_gaps(chrs, starts, ends, slack, lengths, false),
        ),
{
    let tb = single_table(chrs, starts, ends, slack);
    lemma_single_table(chrs, starts, ends, slack);
    assert forall|i: int| 0 <= i < chrs.len() implies #[trigger] tb.starts[i] < tb.ends[i] by {
        assert(0 <= starts[i] < ends[i]);
    }
    let events = tb.sweep();
    let found = complement_gaps(chrs, starts, ends, slack, lengths, false);
    assert(found == all_gaps(events, lengths, false));
    lemma_all_later_gaps(events, lengths);
    assert forall|k: int| 0 <= k < found.len() implies chrs.contains((#[trigger] found[k]).chr)
        && 0 <= found[k].start <= found[k].end <= lengths[found[k].chr] by {
        assert(found.contains(found[k]));
        lemma_later_gap(tb, lengths, found[k]);
        lemma_gap_lies_within(chrs, starts, ends, slack, lengths, found[k]);
    }
    assert(gaps_lie_apart(found)) by {
        lemma_layout(tb);
        let m = events.len() as int;
        let inner = gaps(events, lengths, false, m);
        lemma_gaps_in_order(tb, lengths, false, m);
        if m > 0 && has_trailing_gap(events, lengths, false, m) {
            let tg = trailing_gap(events, lengths, false, m);
            lemma_gap_states_alike(tb, m);
            lemma_gap_state(tb, m);
            lemma_idle(tb, m);
            assert forall|j: u32| !tb.open1(m).contains(j) by {
                if j < tb.chrs.len() {
                    assert(tb.at(tb.end1(j as int)) < m);
                }
            }
            assert(tb.open1(m) =~= Set::<u32>::empty());
            assert(tg.start == events[m - 1].pos);
            assert forall|k1: int, k2: int|
                0 <= k1 < k2 < found.len() && (#[trigger] found[k1]).chr == (
                #[trigger] found[k2]).chr implies found[k1].end <= found[k2].start by {
                assert(found[k1] == inner[k1]);
                assert(lies_before_event(events, m - 1, inner[k1]));
                if k2 < inner.len() {
                    assert(found[k2] == inner[k2]);
                }
            }
        }
    }
    assert forall|g: i64, x: i64| chrs.contains(g) && 0 <= x < lengths[g] implies (
    #[trigger] in_a_gap(found, g, x) <==> (!covered(chrs, starts, shift(ends, slack as int), g, x)
        && begun(chrs, starts, g, x))) by {
        let i0 = choose|i0: int| 0 <= i0 < chrs.len() && chrs[i0] == g;
        assert(0 <= starts[i0] < ends[i0]);
        if in_a_gap(found, g, x) {
            let k = choose|k: int|
                0 <= k < found.len() && (#[trigger] found[k]).chr == g && found[k].start <= x
                    < found[k].end;
            assert(found.contains(found[k]));
            lemma_later_gap(tb, lengths, found[k]);
            let j = choose|j: int|
                0 <= j < chrs.len() && chrs[j] == g && #[trigger] starts[j] <= found[k].start;
            assert(starts[j] <= x);
            if covered(chrs, starts, shift(ends, slack as int), g, x) {
                let i = choose|i: int|
                    0 <= i < chrs.len() && chrs[i] == g && #[trigger] starts[i] <= x < shift(
                        ends,
                        slack as int,
                    )[i];
                lemma_covered_not_in_gap(tb, lengths, i, x, found[k]);
            }
        }
        if !covered(chrs, starts, shift(ends, slack as int), g, x) && begun(chrs, starts, g, x) {
            let gap = lemma_uncovered_in_gap(tb, lengths, i0, x);
            lemma_gap_behind_start(tb, lengths, gap, x);
            assert(found.contains(gap));
            let k = choose|k: int| 0 <= k < found.len() && found[k] == gap;
            assert(found[k].chr == g && found[k].start <= x < found[k].end);
        }
    }
}

} // verus!
