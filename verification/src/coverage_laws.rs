//! What the sweeps over one table find, said without the sweep: the runs of
//! coverage are the stretches that the intervals cover.

use crate::merge::{closes_run, coverage, merged_runs, run_at, runs, Run};
use crate::overlap_laws::{
    lemma_active_rows_finite, lemma_event_kind, lemma_layout,
    lemma_nothing_open_at_group_change, lemma_open_rows, lemma_start_before_end, PairTables,
};
use crate::overlaps::{group_changes, met_rows};
use crate::radix::{row_lt, stable_order};
use crate::ruranges_structs::Event;
use crate::sorts::{event_key, shift, single_collection_events, sorted_events};
use vstd::prelude::*;

verus! {

/// One table as the sweep sees it: its ends widened by `slack`, and no
/// second table beside it.
pub open spec fn single_table(chrs: Seq<i64>, starts: Seq<i64>, ends: Seq<i64>, slack: i64) -> PairTables {
    PairTables {
        chrs,
        starts,
        ends: shift(ends, slack as int),
        chrs2: Seq::empty(),
        starts2: Seq::empty(),
        ends2: Seq::empty(),
    }
}

/// The events of a single table are those that the builders give.
pub proof fn lemma_single_table(chrs: Seq<i64>, starts: Seq<i64>, ends: Seq<i64>, slack: i64)
    ensures
        single_table(chrs, starts, ends, slack).events() == single_collection_events(
            chrs,
            starts,
            ends,
            slack,
        ),
        single_table(chrs, starts, ends, slack).sweep() == sorted_events(
            single_collection_events(chrs, starts, ends, slack),
        ),
{
    let tb = single_table(chrs, starts, ends, slack);
    assert(tb.events() =~= single_collection_events(chrs, starts, ends, slack));
}

/// Groups ascend along the sweep, and positions ascend within a group.
pub proof fn lemma_sweep_ascends(tb: PairTables, a: int, b: int)
    requires
        tb.proper(),
        0 <= a <= b < tb.events().len(),
    ensures
        tb.sweep()[a].chr <= tb.sweep()[b].chr,
        tb.sweep()[a].chr == tb.sweep()[b].chr ==> tb.sweep()[a].pos <= tb.sweep()[b].pos,
{
    lemma_layout(tb);
    let order = stable_order(tb.keys());
    let keys = tb.keys();
    let ra = order[a] as int;
    let rb = order[b] as int;
    assert(tb.sweep()[a] == tb.events()[ra]);
    assert(tb.sweep()[b] == tb.events()[rb]);
    assert(keys[ra] == event_key(tb.events()[ra]));
    assert(keys[rb] == event_key(tb.events()[rb]));
    if a < b {
        assert(tb.at(ra) == a && tb.at(rb) == b);
        assert(row_lt(keys, ra, rb));
    }
}

/// As many intervals are open as rows have started and not ended.
pub proof fn lemma_coverage_counts_open(tb: PairTables, t: int)
    requires
        tb.proper(),
        tb.chrs2.len() == 0,
        0 <= t <= tb.events().len(),
    ensures
        tb.open1(t).finite(),
        coverage(tb.sweep(), t).open == tb.open1(t).len(),
    decreases t,
{
    lemma_layout(tb);
    lemma_open_rows(tb, t);
    lemma_active_rows_finite(tb.sweep(), t, true);
    if t > 0 {
        let s = t - 1;
        lemma_coverage_counts_open(tb, s);
        lemma_open_rows(tb, s);
        lemma_start_before_end(tb);
        let order = stable_order(tb.keys());
        let r = order[s] as int;
        assert(tb.sweep()[s] == tb.events()[r]);
        assert(tb.at(r) == s);
        lemma_event_kind(tb, r);
        let e = tb.sweep()[s];
        let i = e.idx;
        if group_changes(tb.sweep(), s) {
            lemma_nothing_open_at_group_change(tb, s);
        }
        assert(met_rows(tb.sweep(), s, true) == tb.open1(s));
        if e.is_start {
            assert(!tb.open1(s).contains(i));
        } else {
            assert(tb.at(tb.start1(i as int)) < tb.at(tb.end1(i as int)));
            assert(tb.open1(s).contains(i));
        }
    }
}



/// Nothing is open once the first `t` events are done.
pub open spec fn idle(events: Seq<Event>, t: int) -> bool {
    coverage(events, t).open == 0
}

/// Event `t` begins a run: it is the first of its group or finds nothing open.
pub open spec fn begins_run(events: Seq<Event>, t: int) -> bool {
    t <= 0 || group_changes(events, t) || idle(events, t)
}

/// The event that began the run in which event `t - 1` lies.
pub open spec fn run_first(events: Seq<Event>, t: int) -> int
    decreases t,
{
    if t <= 1 {
        0
    } else if begins_run(events, t - 1) {
        t - 1
    } else {
        run_first(events, t - 1)
    }
}

/// The run of an event began with an event at or before it, nothing
/// between the two began a run, and the run starts where that event lies.
pub proof fn lemma_run_first(events: Seq<Event>, t: int)
    requires
        1 <= t,
    ensures
        0 <= run_first(events, t) < t,
        begins_run(events, run_first(events, t)),
        forall|u: int| run_first(events, t) < u < t ==> !begins_run(events, u),
        coverage(events, t).run_start == events[run_first(events, t)].pos,
    decreases t,
{
    let prev = coverage(events, t - 1);
    let open = if group_changes(events, t - 1) { 0 } else { prev.open };
    assert(coverage(events, t).run_start == (if open == 0 {
        events[t - 1].pos
    } else {
        prev.run_start
    }));
    if t > 1 {
        lemma_run_first(events, t - 1);
    } else {
        assert(coverage(events, 0).open == 0);
    }
}

/// Events between which no group begins lie in one group.
pub proof fn lemma_one_group(events: Seq<Event>, a: int, b: int)
    requires
        0 <= a <= b,
        forall|u: int| a < u <= b ==> !group_changes(events, u),
    ensures
        events[a].chr == events[b].chr,
    decreases b - a,
{
    if a < b {
        lemma_one_group(events, a, b - 1);
        assert(!group_changes(events, b));
    }
}

/// In a table of proper intervals, nothing is open exactly where no row
/// has started without having ended, and an event that begins a group
/// finds nothing open.
pub proof fn lemma_idle(tb: PairTables, t: int)
    requires
        tb.proper(),
        tb.chrs2.len() == 0,
        0 <= t <= tb.events().len(),
    ensures
        idle(tb.sweep(), t) <==> tb.open1(t) =~= Set::<u32>::empty(),
        0 <= coverage(tb.sweep(), t).open,
        t < tb.events().len() ==> (begins_run(tb.sweep(), t) <==> idle(tb.sweep(), t)),
{
    lemma_coverage_counts_open(tb, t);
    if t < tb.events().len() && group_changes(tb.sweep(), t) {
        lemma_nothing_open_at_group_change(tb, t);
    }
    if tb.open1(t).len() == 0 {
        assert(tb.open1(t) =~= Set::<u32>::empty());
    }
}

/// The places below `t` at which a run closes, in ascending order.
pub open spec fn closings(events: Seq<Event>, t: int) -> Seq<int>
    decreases t,
{
    if t <= 0 {
        Seq::empty()
    } else if closes_run(events, t - 1) {
        closings(events, t - 1).push(t - 1)
    } else {
        closings(events, t - 1)
    }
}

/// The runs are those of the closing places, in their order.
pub proof fn lemma_closings(events: Seq<Event>, slack: i64, t: int)
    requires
        0 <= t,
    ensures
        closings(events, t).len() == runs(events, slack, t).len(),
        forall|k: int|
            0 <= k < closings(events, t).len() ==> {
                let c = #[trigger] closings(events, t)[k];
                &&& 0 <= c < t
                &&& closes_run(events, c)
                &&& runs(events, slack, t)[k] == run_at(events, slack, c)
            },
        forall|k1: int, k2: int|
            0 <= k1 < k2 < closings(events, t).len() ==> (#[trigger] closings(events, t)[k1]) < (
            #[trigger] closings(events, t)[k2]),
        forall|c: int|
            0 <= c < t && closes_run(events, c) ==> #[trigger] closings(events, t).contains(c),
    decreases t,
{
    if t > 0 {
        lemma_closings(events, slack, t - 1);
        let before = closings(events, t - 1);
        let now = closings(events, t);
        assert forall|c: int| 0 <= c < t && closes_run(events, c) implies #[trigger] now.contains(
            c,
        ) by {
            if c < t - 1 {
                assert(before.contains(c));
                let k = choose|k: int| 0 <= k < before.len() && before[k] == c;
                assert(now[k] == c);
            } else {
                assert(now[now.len() - 1] == c);
            }
        }
    }
}


/// The last event from `a` on that lies at or before `x`, where event `a`
/// does and event `c` does not.
proof fn lemma_last_at_or_before(events: Seq<Event>, a: int, c: int, x: i64) -> (k: int)
    requires
        0 <= a <= c,
        events[a].pos <= x < events[c].pos,
    ensures
        a <= k < c,
        events[k].pos <= x < events[k + 1].pos,
    decreases c - a,
{
    if events[c - 1].pos <= x {
        c - 1
    } else {
        lemma_last_at_or_before(events, a, c - 1, x)
    }
}

/// The first place from `u` on behind which nothing is open.
proof fn lemma_next_idle(tb: PairTables, u: int) -> (c: int)
    requires
        tb.proper(),
        tb.chrs2.len() == 0,
        0 <= u < tb.events().len(),
    ensures
        u <= c < tb.events().len(),
        idle(tb.sweep(), c + 1),
        forall|v: int| u < v <= c ==> !idle(tb.sweep(), v),
    decreases tb.events().len() - u,
{
    lemma_layout(tb);
    let m = tb.events().len() as int;
    if idle(tb.sweep(), u + 1) {
        u
    } else if u + 1 == m {
        lemma_idle(tb, m);
        assert forall|i: u32| !tb.open1(m).contains(i) by {
            if i < tb.chrs.len() {
                assert(tb.at(tb.end1(i as int)) < m);
            }
        }
        assert(tb.open1(m) =~= Set::<u32>::empty());
        u
    } else {
        lemma_next_idle(tb, u + 1)
    }
}

/// What a run spans is covered: each position between the start of a run
/// and its end lies in an interval of the group.
pub proof fn lemma_run_is_covered(tb: PairTables, c: int, x: i64) -> (i: int)
    requires
        tb.proper(),
        tb.chrs2.len() == 0,
        0 <= c < tb.events().len(),
        idle(tb.sweep(), c + 1),
        tb.sweep()[run_first(tb.sweep(), c + 1)].pos <= x < tb.sweep()[c].pos,
    ensures
        0 <= i < tb.chrs.len(),
        tb.chrs[i] == tb.sweep()[c].chr,
        tb.starts[i] <= x < tb.ends[i],
{
    lemma_layout(tb);
    let events = tb.sweep();
    let m = events.len() as int;
    lemma_run_first(events, c + 1);
    let a = run_first(events, c + 1);
    let k = lemma_last_at_or_before(events, a, c, x);
    assert(!begins_run(events, k + 1));
    lemma_idle(tb, k + 1);
    lemma_idle(tb, a);
    lemma_idle(tb, c + 1);
    let open = tb.open1(k + 1);
    assert(!(open =~= Set::<u32>::empty()));
    let i = choose|i: u32| #[trigger] open.contains(i);
    let s = tb.at(tb.start1(i as int));
    let e = tb.at(tb.end1(i as int));
    assert(0 <= s < m && 0 <= e < m);
    assert(events[s] == tb.events()[tb.start1(i as int)]);
    assert(events[e] == tb.events()[tb.end1(i as int)]);
    if s < a {
        assert(tb.open1(a).contains(i));
    }
    if e > c {
        assert(tb.open1(c + 1).contains(i));
    }
    assert forall|u: int| a < u <= c implies !group_changes(events, u) by {
        assert(!begins_run(events, u));
    }
    lemma_one_group(events, s, c);
    lemma_one_group(events, s, k);
    lemma_one_group(events, k + 1, e);
    lemma_sweep_ascends(tb, s, k);
    lemma_sweep_ascends(tb, k + 1, e);
    i as int
}

/// What is covered lies in a run: each position of an interval lies between
/// the start and the end of the run that closes at the returned place.
pub proof fn lemma_covered_is_in_run(tb: PairTables, i: int, x: i64) -> (c: int)
    requires
        tb.proper(),
        tb.chrs2.len() == 0,
        0 <= i < tb.chrs.len(),
        tb.starts[i] <= x < tb.ends[i],
    ensures
        0 <= c < tb.events().len(),
        closes_run(tb.sweep(), c),
        tb.sweep()[c].chr == tb.chrs[i],
        tb.sweep()[run_first(tb.sweep(), c + 1)].pos <= x < tb.sweep()[c].pos,
        tb.ends[i] <= tb.sweep()[c].pos,
{
    lemma_layout(tb);
    lemma_start_before_end(tb);
    let events = tb.sweep();
    let m = events.len() as int;
    let s = tb.at(tb.start1(i));
    let u = tb.at(tb.end1(i));
    assert(0 <= s < u < m);
    assert(events[s] == tb.events()[tb.start1(i)]);
    assert(events[u] == tb.events()[tb.end1(i)]);
    let c = lemma_next_idle(tb, u);
    lemma_idle(tb, c + 1);
    // the event at place c is an end
    let order = stable_order(tb.keys());
    let r = order[c] as int;
    assert(events[c] == tb.events()[r]);
    assert(tb.at(r) == c);
    lemma_event_kind(tb, r);
    if events[c].is_start {
        assert(tb.at(tb.start1(events[c].idx as int)) < tb.at(tb.end1(events[c].idx as int)));
        assert(tb.open1(c + 1).contains(events[c].idx));
    }
    lemma_run_first(events, c + 1);
    let a = run_first(events, c + 1);
    lemma_idle(tb, a);
    if a > s {
        if a <= u {
            assert(tb.open1(a).contains(i as u32));
        } else {
            assert(!idle(events, a));
        }
    }
    assert forall|v: int| a < v <= c implies !group_changes(events, v) by {
        assert(!begins_run(events, v));
    }
    lemma_one_group(events, a, s);
    lemma_one_group(events, s, c);
    lemma_one_group(events, u, c);
    lemma_sweep_ascends(tb, a, s);
    lemma_sweep_ascends(tb, u, c);
    c
}

/// Runs of one group lie apart: a run ends at or before the start of each
/// run that closes after it.
pub proof fn lemma_runs_lie_apart(tb: PairTables, c1: int, c2: int)
    requires
        tb.proper(),
        tb.chrs2.len() == 0,
        0 <= c1 < c2 < tb.events().len(),
        idle(tb.sweep(), c1 + 1),
        idle(tb.sweep(), c2 + 1),
        tb.sweep()[c1].chr == tb.sweep()[c2].chr,
    ensures
        tb.sweep()[c1].pos <= tb.sweep()[run_first(tb.sweep(), c2 + 1)].pos,
{
    lemma_layout(tb);
    let events = tb.sweep();
    lemma_run_first(events, c2 + 1);
    let a2 = run_first(events, c2 + 1);
    lemma_idle(tb, c1 + 1);
    assert(begins_run(events, c1 + 1));
    assert(c1 < a2);
    lemma_sweep_ascends(tb, c1, a2);
    lemma_sweep_ascends(tb, a2, c2);
}

/// A run starts where one of its rows starts, and that row ends at or
/// before the end of the run.
pub proof fn lemma_run_opens_with_a_row(tb: PairTables, c: int) -> (i: int)
    requires
        tb.proper(),
        tb.chrs2.len() == 0,
        0 <= c < tb.events().len(),
        idle(tb.sweep(), c + 1),
    ensures
        0 <= i < tb.chrs.len(),
        tb.starts[i] == tb.sweep()[run_first(tb.sweep(), c + 1)].pos,
        tb.ends[i] <= tb.sweep()[c].pos,
{
    lemma_layout(tb);
    lemma_start_before_end(tb);
    let events = tb.sweep();
    lemma_run_first(events, c + 1);
    let a = run_first(events, c + 1);
    lemma_idle(tb, a);
    lemma_idle(tb, c + 1);
    let order = stable_order(tb.keys());
    let r = order[a] as int;
    assert(events[a] == tb.events()[r]);
    assert(tb.at(r) == a);
    lemma_event_kind(tb, r);
    let i = events[a].idx as int;
    if !events[a].is_start {
        assert(tb.at(tb.start1(i)) < tb.at(tb.end1(i)));
        assert(tb.open1(a).contains(i as u32));
    }
    assert(r == tb.start1(i));
    let e = tb.at(tb.end1(i));
    assert(a < e);
    if e > c {
        assert(tb.open1(c + 1).contains(i as u32));
    }
    assert(events[e] == tb.events()[tb.end1(i)]);
    assert forall|u: int| a < u <= c implies !group_changes(events, u) by {
        assert(!begins_run(events, u));
    }
    lemma_one_group(events, e, c);
    lemma_sweep_ascends(tb, e, c);
    i
}

/// Position `x` of group `g` lies in an interval of the table.
pub open spec fn covered(chrs: Seq<i64>, starts: Seq<i64>, ends: Seq<i64>, g: i64, x: i64) -> bool {
    exists|i: int| 0 <= i < chrs.len() && chrs[i] == g && #[trigger] starts[i] <= x < ends[i]
}

/// Position `x` of group `g` lies in one of the runs, the group of a run
/// being that of the row it is reported with.
pub open spec fn in_a_run(rs: Seq<Run>, chrs: Seq<i64>, g: i64, x: i64) -> bool {
    exists|k: int|
        0 <= k < rs.len() && chrs[(#[trigger] rs[k]).idx as int] == g && rs[k].start <= x
            < rs[k].end
}

/// The intervals of the table are proper, and `slack` is not negative and
/// carries no end beyond the range of coordinates.
pub open spec fn proper_rows(chrs: Seq<i64>, starts: Seq<i64>, ends: Seq<i64>, slack: i64) -> bool {
    &&& chrs.len() == starts.len()
    &&& chrs.len() == ends.len()
    &&& chrs.len() <= u32::MAX
    &&& 2 * chrs.len() <= usize::MAX
    &&& 0 <= slack
    &&& forall|i: int|
        0 <= i < chrs.len() ==> #[trigger] starts[i] < ends[i] && ends[i] + slack <= i64::MAX
}

/// The runs `rs` keep the coverage of the table: every position that an
/// interval covers lies in a run of its group, every run starts before it
/// ends, and runs of one group lie apart, in their order. With no slack,
/// every position of a run is covered by an interval of its group, so that
/// the runs cover what the intervals cover and nothing more.
pub open spec fn keeps_coverage(
    chrs: Seq<i64>,
    starts: Seq<i64>,
    ends: Seq<i64>,
    slack: i64,
    rs: Seq<Run>,
) -> bool {
    &&& forall|g: i64, x: i64|
        covered(chrs, starts, ends, g, x) ==> #[trigger] in_a_run(rs, chrs, g, x)
    &&& slack == 0 ==> forall|g: i64, x: i64| #[trigger]
        in_a_run(rs, chrs, g, x) ==> covered(chrs, starts, ends, g, x)
    &&& forall|k: int| 0 <= k < rs.len() ==> (#[trigger] rs[k]).start < rs[k].end
    &&& forall|k1: int, k2: int|
        0 <= k1 < k2 < rs.len() && chrs[(#[trigger] rs[k1]).idx as int] == chrs[(
        #[trigger] rs[k2]).idx as int] ==> rs[k1].end <= rs[k2].start
}

/// Merging keeps the coverage: the runs of a table of proper intervals
/// cover what the intervals cover, have a length, lie apart, and with no
/// slack cover nothing more.
pub proof fn lemma_merge_keeps_coverage(
    chrs: Seq<i64>,
    starts: Seq<i64>,
    ends: Seq<i64>,
    slack: i64,
)
    requires
        proper_rows(chrs, starts, ends, slack),
    ensures
        keeps_coverage(chrs, starts, ends, slack, merged_runs(chrs, starts, ends, slack)),
{
    let tb = single_table(chrs, starts, ends, slack);
    lemma_single_table(chrs, starts, ends, slack);
    lemma_layout(tb);
    let events = tb.sweep();
    let m = events.len() as int;
    let rs = merged_runs(chrs, starts, ends, slack);
    assert(rs == runs(events, slack, m));
    lemma_closings(events, slack, m);
    let cl = closings(events, m);
    // each run is that of its closing place, whose group is that of its row
    assert forall|k: int| 0 <= k < rs.len() implies {
        let c = #[trigger] cl[k];
        &&& 0 <= c < m
        &&& idle(events, c + 1)
        &&& rs[k].idx < chrs.len()
        &&& chrs[rs[k].idx as int] == events[c].chr
        &&& rs[k].start == events[run_first(events, c + 1)].pos
        &&& rs[k].end == events[c].pos - slack
    } by {
        let c = cl[k];
        let order = stable_order(tb.keys());
        let r = order[c] as int;
        assert(events[c] == tb.events()[r]);
        lemma_event_kind(tb, r);
        lemma_run_first(events, c + 1);
        let i = events[c].idx as int;
        assert(r == tb.end1(i));
        assert(events[c].pos == tb.ends[i]);
    }
    assert forall|g: i64, x: i64| covered(chrs, starts, ends, g, x) implies #[trigger] in_a_run(
        rs,
        chrs,
        g,
        x,
    ) by {
        let i = choose|i: int|
            0 <= i < chrs.len() && chrs[i] == g && #[trigger] starts[i] <= x < ends[i];
        assert(tb.ends[i] == ends[i] + slack);
        let c = lemma_covered_is_in_run(tb, i, x);
        assert(cl.contains(c));
        let k = choose|k: int| 0 <= k < cl.len() && cl[k] == c;
        assert(chrs[rs[k].idx as int] == g && rs[k].start <= x < rs[k].end);
    }
    if slack == 0 {
        assert forall|g: i64, x: i64| #[trigger] in_a_run(rs, chrs, g, x) implies covered(
            chrs,
            starts,
            ends,
            g,
            x,
        ) by {
            let k = choose|k: int|
                0 <= k < rs.len() && chrs[(#[trigger] rs[k]).idx as int] == g && rs[k].start <= x
                    < rs[k].end;
            let c = cl[k];
            let i = lemma_run_is_covered(tb, c, x);
            assert(tb.ends[i] == ends[i]);
            assert(0 <= i < chrs.len() && chrs[i] == g && starts[i] <= x < ends[i]);
        }
    }
    assert forall|k: int| 0 <= k < rs.len() implies (#[trigger] rs[k]).start < rs[k].end by {
        let c = cl[k];
        let i = lemma_run_opens_with_a_row(tb, c);
        assert(tb.ends[i] == ends[i] + slack);
        assert(starts[i] < ends[i]);
    }
    assert forall|k1: int, k2: int|
        0 <= k1 < k2 < rs.len() && chrs[(#[trigger] rs[k1]).idx as int] == chrs[(
        #[trigger] rs[k2]).idx as int] implies rs[k1].end <= rs[k2].start by {
        let c1 = cl[k1];
        let c2 = cl[k2];
        lemma_runs_lie_apart(tb, c1, c2);
    }
}

} // verus!
