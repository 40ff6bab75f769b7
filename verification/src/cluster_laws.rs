//! What the numbers of the clusters say, said without the sweep: rows whose
//! intervals overlap bear one number, rows of different groups bear
//! different ones, and the numbers never fall along the sweep.

use crate::cluster::{clustered, clustering, clustering_met, clusters};
use crate::complement_laws::lemma_gap_state;
use crate::coverage_laws::{
    begins_run, idle, lemma_coverage_counts_open, lemma_idle, lemma_single_table,
    lemma_sweep_ascends, proper_rows, single_table,
};
use crate::merge::coverage;
use crate::overlap_laws::{lemma_event_kind, lemma_layout, lemma_start_before_end, PairTables};
use crate::overlaps::{cap_u32, group_changes};
use crate::radix::{row_lt, stable_order};
use crate::sorts::shift;
use crate::ruranges_structs::Event;
use crate::sorts::event_key;
use vstd::prelude::*;

verus! {

/// The places below `t` of the events that are starts, in ascending order.
pub open spec fn start_places(events: Seq<Event>, t: int) -> Seq<int>
    decreases t,
{
    if t <= 0 {
        Seq::empty()
    } else if events[t - 1].is_start {
        start_places(events, t - 1).push(t - 1)
    } else {
        start_places(events, t - 1)
    }
}

/// The clustered rows are those of the start events, in their order, each
/// with the number that its start finds.
pub proof fn lemma_start_places(events: Seq<Event>, t: int)
    requires
        0 <= t,
    ensures
        start_places(events, t).len() == clustered(events, t).len(),
        forall|k: int|
            0 <= k < start_places(events, t).len() ==> {
                let s = #[trigger] start_places(events, t)[k];
                &&& 0 <= s < t
                &&& events[s].is_start
                &&& clustered(events, t)[k] == (
                    cap_u32(clustering_met(events, s).cluster),
                    events[s].idx,
                )
            },
        forall|k1: int, k2: int|
            0 <= k1 < k2 < start_places(events, t).len() ==> (#[trigger] start_places(
                events,
                t,
            )[k1]) < (#[trigger] start_places(events, t)[k2]),
        forall|s: int|
            0 <= s < t && events[s].is_start ==> #[trigger] start_places(events, t).contains(s),
    decreases t,
{
    if t > 0 {
        lemma_start_places(events, t - 1);
        let before = start_places(events, t - 1);
        let now = start_places(events, t);
        assert forall|s: int| 0 <= s < t && events[s].is_start implies #[trigger] now.contains(
            s,
        ) by {
            if s < t - 1 {
                assert(before.contains(s));
                let k = choose|k: int| 0 <= k < before.len() && before[k] == s;
                assert(now[k] == s);
            } else {
                assert(now[now.len() - 1] == s);
            }
        }
    }
}

/// The sweep for clusters counts the open intervals as the sweep for runs does.
pub proof fn lemma_cluster_open(events: Seq<Event>, t: int)
    requires
        0 <= t,
    ensures
        clustering(events, t).open == coverage(events, t).open,
        clustering_met(events, t).open == (if t <= 0 || group_changes(events, t) {
            0
        } else {
            coverage(events, t).open
        }),
    decreases t,
{
    if t > 0 {
        lemma_cluster_open(events, t - 1);
    }
}

/// The number of the cluster never falls along the sweep.
pub proof fn lemma_cluster_rises(events: Seq<Event>, a: int, b: int)
    requires
        0 <= a <= b,
    ensures
        clustering_met(events, a).cluster <= clustering_met(events, b).cluster,
    decreases b - a,
{
    if a < b {
        lemma_cluster_rises(events, a, b - 1);
    }
}

/// Past the start of another group the number of the cluster is greater.
pub proof fn lemma_cluster_rises_with_group(events: Seq<Event>, a: int, u: int, b: int)
    requires
        0 <= a < u <= b,
        group_changes(events, u),
    ensures
        clustering_met(events, a).cluster < clustering_met(events, b).cluster,
{
    lemma_cluster_rises(events, a, u - 1);
    lemma_cluster_rises(events, u, b);
}

/// While no event begins a run, the number of the cluster stays.
pub proof fn lemma_cluster_stays(events: Seq<Event>, a: int, b: int)
    requires
        0 <= a <= b,
        forall|u: int| a < u <= b ==> !begins_run(events, u),
    ensures
        clustering_met(events, a).cluster == clustering_met(events, b).cluster,
    decreases b - a,
{
    if a < b {
        lemma_cluster_stays(events, a, b - 1);
        assert(!begins_run(events, b));
        lemma_cluster_open(events, b);
        lemma_cluster_open(events, b - 1);
    }
}

/// An event of another group than an earlier one lies at or behind the
/// start of a group.
proof fn lemma_group_begins_between(events: Seq<Event>, a: int, b: int) -> (u: int)
    requires
        0 <= a < b,
        events[a].chr != events[b].chr,
    ensures
        a < u <= b,
        group_changes(events, u),
    decreases b - a,
{
    if group_changes(events, b) {
        b
    } else {
        lemma_group_begins_between(events, a, b - 1)
    }
}

/// A row that starts while a row of its group is open finds the number
/// that the open row found.
proof fn lemma_overlapping_rows_share(tb: PairTables, i1: int, i2: int)
    requires
        tb.proper(),
        tb.chrs2.len() == 0,
        0 <= i1 < tb.chrs.len(),
        0 <= i2 < tb.chrs.len(),
        tb.chrs[i1] == tb.chrs[i2],
        tb.at(tb.start1(i1)) < tb.at(tb.start1(i2)),
        tb.starts[i2] < tb.ends[i1],
    ensures
        clustering_met(tb.sweep(), tb.at(tb.start1(i1))).cluster == clustering_met(
            tb.sweep(),
            tb.at(tb.start1(i2)),
        ).cluster,
{
    lemma_layout(tb);
    lemma_start_before_end(tb);
    let events = tb.sweep();
    let keys = tb.keys();
    let s1 = tb.at(tb.start1(i1));
    let s2 = tb.at(tb.start1(i2));
    let e1 = tb.at(tb.end1(i1));
    assert(keys[tb.start1(i2)] == event_key(tb.events()[tb.start1(i2)]));
    assert(keys[tb.end1(i1)] == event_key(tb.events()[tb.end1(i1)]));
    assert(row_lt(keys, tb.start1(i2), tb.end1(i1)));
    assert(s2 < e1);
    assert forall|u: int| s1 < u <= s2 implies !begins_run(events, u) by {
        assert(tb.open1(u).contains(i1 as u32));
        lemma_idle(tb, u);
    }
    lemma_cluster_stays(events, s1, s2);
}

/// Position `x` of group `g` lies inside an interval of the group: behind
/// its start and before its end.
pub open spec fn lies_inside(chrs: Seq<i64>, starts: Seq<i64>, ends: Seq<i64>, g: i64, x: i64) -> bool {
    exists|j: int| 0 <= j < chrs.len() && chrs[j] == g && #[trigger] starts[j] < x && x < ends[j]
}

/// The intervals of their group join row `i1` to row `i2`: every position
/// behind the start of the one, up to the start of the other, lies inside
/// an interval of the group.
pub open spec fn joined(chrs: Seq<i64>, starts: Seq<i64>, ends: Seq<i64>, i1: int, i2: int) -> bool {
    &&& chrs[i1] == chrs[i2]
    &&& forall|x: i64|
        starts[i1] < x <= starts[i2] ==> #[trigger] lies_inside(chrs, starts, ends, chrs[i1], x)
}

/// The event lies behind position `x` in the order of the sweep, where a
/// start at `x` counts as behind it.
pub open spec fn lies_behind(e: Event, x: i64) -> bool {
    e.pos > x || (e.pos == x && e.is_start)
}

/// The first event behind `x` among those from `lo` to `hi`, where the
/// event at `hi` lies behind it and that at `lo` does not.
proof fn lemma_first_behind(events: Seq<Event>, lo: int, hi: int, x: i64) -> (u: int)
    requires
        lo < hi,
        lies_behind(events[hi], x),
        !lies_behind(events[lo], x),
    ensures
        lo < u <= hi,
        lies_behind(events[u], x),
        !lies_behind(events[u - 1], x),
    decreases hi - lo,
{
    if lies_behind(events[hi - 1], x) {
        lemma_first_behind(events, lo, hi - 1, x)
    } else {
        hi
    }
}

/// Of two events at one position of a group, an end stands before a start.
proof fn lemma_ends_before_starts(tb: PairTables, a: int, b: int)
    requires
        tb.proper(),
        0 <= a <= b < tb.events().len(),
        tb.sweep()[a].chr == tb.sweep()[b].chr,
        tb.sweep()[a].pos == tb.sweep()[b].pos,
    ensures
        !(tb.sweep()[a].is_start && !tb.sweep()[b].is_start),
{
    lemma_layout(tb);
    let order = stable_order(tb.keys());
    let keys = tb.keys();
    let ra = order[a] as int;
    let rb = order[b] as int;
    assert(tb.sweep()[a] == tb.events()[ra]);
    assert(tb.sweep()[b] == tb.events()[rb]);
    assert(keys[ra] == event_key(tb.events()[ra]));
    assert(keys[rb] == event_key(tb.events()[rb]));
    if a < b {
        assert(tb.at(ra) == a && tb.at(rb) == b);
        assert(row_lt(keys, ra, rb));
    }
}

/// Past an event that begins a run the number of the cluster is greater.
proof fn lemma_cluster_rises_with_run(tb: PairTables, a: int, u: int, b: int)
    requires
        tb.proper(),
        tb.chrs2.len() == 0,
        0 <= a < u <= b < tb.events().len(),
        begins_run(tb.sweep(), u),
    ensures
        clustering_met(tb.sweep(), a).cluster < clustering_met(tb.sweep(), b).cluster,
{
    let events = tb.sweep();
    if group_changes(events, u) {
        lemma_cluster_rises_with_group(events, a, u, b);
    } else {
        lemma_cluster_open(events, u);
        lemma_cluster_open(events, u - 1);
        lemma_coverage_counts_open(tb, u - 1);
        lemma_cluster_rises(events, a, u - 1);
        lemma_cluster_rises(events, u, b);
    }
}

/// Between the starts of two rows of a group no run begins exactly if the
/// intervals of the group join the one row to the other.
proof fn lemma_joined(tb: PairTables, i1: int, i2: int)
    requires
        tb.proper(),
        tb.chrs2.len() == 0,
        0 <= i1 < tb.chrs.len(),
        0 <= i2 < tb.chrs.len(),
        tb.chrs[i1] == tb.chrs[i2],
        tb.at(tb.start1(i1)) < tb.at(tb.start1(i2)),
    ensures
        joined(tb.chrs, tb.starts, tb.ends, i1, i2) <==> forall|u: int|
            tb.at(tb.start1(i1)) < u <= tb.at(tb.start1(i2)) ==> !begins_run(tb.sweep(), u),
{
    lemma_layout(tb);
    lemma_start_before_end(tb);
    let events = tb.sweep();
    let keys = tb.keys();
    let g = tb.chrs[i1];
    let s1 = tb.at(tb.start1(i1));
    let s2 = tb.at(tb.start1(i2));
    assert(events[s1] == tb.events()[tb.start1(i1)]);
    assert(events[s2] == tb.events()[tb.start1(i2)]);
    assert forall|u: int| s1 <= u <= s2 implies (#[trigger] events[u]).chr == g by {
        lemma_sweep_ascends(tb, s1, u);
        lemma_sweep_ascends(tb, u, s2);
    }
    if joined(tb.chrs, tb.starts, tb.ends, i1, i2) {
        assert forall|u: int| s1 < u <= s2 implies !begins_run(events, u) by {
            if begins_run(events, u) {
                assert(events[u - 1].chr == g && events[u].chr == g);
                lemma_idle(tb, u);
                lemma_gap_state(tb, u);
                let x = events[u].pos;
                let e1 = tb.at(tb.end1(i1));
                assert(events[e1] == tb.events()[tb.end1(i1)]);
                if e1 >= u {
                    assert(tb.open1(u).contains(i1 as u32));
                }
                lemma_sweep_ascends(tb, e1, u);
                lemma_sweep_ascends(tb, u, s2);
                assert(tb.starts[i1] < x <= tb.starts[i2]);
                assert(lies_inside(tb.chrs, tb.starts, tb.ends, g, x));
                let j = choose|j: int|
                    0 <= j < tb.chrs.len() && tb.chrs[j] == g && #[trigger] tb.starts[j] < x && x
                        < tb.ends[j];
                let r = stable_order(keys)[u] as int;
                assert(events[u] == tb.events()[r]);
                assert(tb.at(r) == u);
                assert(keys[r] == event_key(tb.events()[r]));
                assert(keys[tb.start1(j)] == event_key(tb.events()[tb.start1(j)]));
                assert(keys[tb.end1(j)] == event_key(tb.events()[tb.end1(j)]));
                assert(row_lt(keys, tb.start1(j), r));
                assert(row_lt(keys, r, tb.end1(j)));
                assert(tb.open1(u).contains(j as u32));
            }
        }
    }
    if forall|u: int| s1 < u <= s2 ==> !begins_run(events, u) {
        assert forall|x: i64| tb.starts[i1] < x <= tb.starts[i2] implies #[trigger] lies_inside(
            tb.chrs,
            tb.starts,
            tb.ends,
            g,
            x,
        ) by {
            let u = lemma_first_behind(events, s1, s2, x);
            assert(!begins_run(events, u));
            lemma_idle(tb, u);
            let open = tb.open1(u);
            assert(!(open =~= Set::<u32>::empty()));
            let j = choose|j: u32| #[trigger] open.contains(j);
            let sj = tb.at(tb.start1(j as int));
            let ej = tb.at(tb.end1(j as int));
            assert(events[sj] == tb.events()[tb.start1(j as int)]);
            assert(events[ej] == tb.events()[tb.end1(j as int)]);
            lemma_sweep_ascends(tb, sj, u - 1);
            lemma_sweep_ascends(tb, u - 1, u);
            lemma_sweep_ascends(tb, u, ej);
            if events[sj].pos == events[u - 1].pos {
                lemma_ends_before_starts(tb, sj, u - 1);
            }
            if events[u].pos == events[ej].pos {
                lemma_ends_before_starts(tb, u, ej);
            }
            assert(0 <= (j as int) < tb.chrs.len() && tb.chrs[j as int] == g && tb.starts[j as int]
                < x && x < tb.ends[j as int]);
        }
    }
}

/// Two rows of one group bear one number exactly if the intervals of the
/// group join them, the row that starts first to the other.
proof fn lemma_joined_rows_share(tb: PairTables, i1: int, i2: int)
    requires
        tb.proper(),
        tb.chrs2.len() == 0,
        0 <= i1 < tb.chrs.len(),
        0 <= i2 < tb.chrs.len(),
        tb.chrs[i1] == tb.chrs[i2],
        tb.at(tb.start1(i1)) < tb.at(tb.start1(i2)),
    ensures
        joined(tb.chrs, tb.starts, tb.ends, i1, i2) <==> clustering_met(
            tb.sweep(),
            tb.at(tb.start1(i1)),
        ).cluster == clustering_met(tb.sweep(), tb.at(tb.start1(i2))).cluster,
{
    lemma_layout(tb);
    let events = tb.sweep();
    let s1 = tb.at(tb.start1(i1));
    let s2 = tb.at(tb.start1(i2));
    lemma_joined(tb, i1, i2);
    if forall|u: int| s1 < u <= s2 ==> !begins_run(events, u) {
        lemma_cluster_stays(events, s1, s2);
    } else {
        let u = choose|u: int| s1 < u <= s2 && begins_run(events, u);
        lemma_cluster_rises_with_run(tb, s1, u, s2);
    }
}

/// `ids` and `rows` number the clusters of the table: every row stands in
/// `rows` with a number beside it; the numbers never fall; rows of one
/// group whose intervals overlap, their ends widened by `slack`, bear one
/// number; rows of one group bear one number exactly if the widened
/// intervals of the group join the earlier to the later; and rows of
/// different groups bear different numbers. Where a number is the largest
/// there is, it stands for all beyond it, and tells no rows apart.
pub open spec fn numbers_clusters(
    chrs: Seq<i64>,
    starts: Seq<i64>,
    ends: Seq<i64>,
    slack: i64,
    ids: Seq<u32>,
    rows: Seq<u32>,
) -> bool {
    &&& ids.len() == rows.len()
    &&& forall|k: int| 0 <= k < rows.len() ==> (#[trigger] rows[k]) < chrs.len()
    &&& forall|i: u32| i < chrs.len() ==> #[trigger] rows.contains(i)
    &&& forall|k1: int, k2: int|
        0 <= k1 < k2 < ids.len() ==> (#[trigger] ids[k1]) <= (#[trigger] ids[k2])
    &&& forall|k1: int, k2: int|
        0 <= k1 < rows.len() && 0 <= k2 < rows.len() && shares_positions(
            chrs,
            starts,
            ends,
            slack,
            #[trigger] rows[k1] as int,
            #[trigger] rows[k2] as int,
        ) ==> ids[k1] == ids[k2]
    &&& forall|k1: int, k2: int|
        0 <= k1 < k2 < rows.len() && chrs[(#[trigger] rows[k1]) as int] == chrs[(
        #[trigger] rows[k2]) as int] ==> (joined(
            chrs,
            starts,
            shift(ends, slack as int),
            rows[k1] as int,
            rows[k2] as int,
        ) ==> ids[k1] == ids[k2]) && (ids[k1] == ids[k2] && ids[k1] < u32::MAX ==> joined(
            chrs,
            starts,
            shift(ends, slack as int),
            rows[k1] as int,
            rows[k2] as int,
        ))
    &&& forall|k1: int, k2: int|
        0 <= k1 < rows.len() && 0 <= k2 < rows.len() && chrs[(#[trigger] rows[k1]) as int]
            != chrs[(#[trigger] rows[k2]) as int] ==> ids[k1] != ids[k2] || ids[k1] == u32::MAX
}

/// Rows `i1` and `i2` lie in one group and their intervals, the ends
/// widened by `slack`, have a position in common.
pub open spec fn shares_positions(
    chrs: Seq<i64>,
    starts: Seq<i64>,
    ends: Seq<i64>,
    slack: i64,
    i1: int,
    i2: int,
) -> bool {
    chrs[i1] == chrs[i2] && starts[i1] < ends[i2] + slack && starts[i2] < ends[i1] + slack
}

/// The numbers of the clusters, in sweep order.
pub open spec fn cluster_ids(chrs: Seq<i64>, starts: Seq<i64>, ends: Seq<i64>, slack: i64) -> Seq<
    u32,
> {
    Seq::new(
        clusters(chrs, starts, ends, slack).len(),
        |k: int| clusters(chrs, starts, ends, slack)[k].0,
    )
}

/// The rows beside the numbers of their clusters, in sweep order.
pub open spec fn cluster_rows(chrs: Seq<i64>, starts: Seq<i64>, ends: Seq<i64>, slack: i64) -> Seq<
    u32,
> {
    Seq::new(
        clusters(chrs, starts, ends, slack).len(),
        |k: int| clusters(chrs, starts, ends, slack)[k].1,
    )
}

/// Clustering is right: for a table of proper intervals, every row gets a
/// number, the numbers never fall along the sweep, rows of one group get
/// one number exactly if the widened intervals of the group join them, as
/// they do where the two overlap, and rows of different groups get
/// different numbers.
pub proof fn lemma_clusters_are_numbered(
    chrs: Seq<i64>,
    starts: Seq<i64>,
    ends: Seq<i64>,
    slack: i64,
)
    requires
        proper_rows(chrs, starts, ends, slack),
    ensures
        numbers_clusters(
            chrs,
            starts,
            ends,
            slack,
            cluster_ids(chrs, starts, ends, slack),
            cluster_rows(chrs, starts, ends, slack),
        ),
{
    let tb = single_table(chrs, starts, ends, slack);
    lemma_single_table(chrs, starts, ends, slack);
    lemma_layout(tb);
    let events = tb.sweep();
    let m = events.len() as int;
    let cs = clusters(chrs, starts, ends, slack);
    let ids = cluster_ids(chrs, starts, ends, slack);
    let rows = cluster_rows(chrs, starts, ends, slack);
    assert(cs == clustered(events, m));
    lemma_start_places(events, m);
    let sp = start_places(events, m);
    let order = stable_order(tb.keys());
    // each entry is that of a start event, which is the start of its row
    assert forall|k: int| 0 <= k < rows.len() implies {
        let s = #[trigger] sp[k];
        &&& 0 <= s < m
        &&& rows[k] < chrs.len()
        &&& s == tb.at(tb.start1(rows[k] as int))
        &&& events[s].chr == chrs[rows[k] as int]
        &&& ids[k] == cap_u32(clustering_met(events, s).cluster)
    } by {
        let s = sp[k];
        let r = order[s] as int;
        assert(events[s] == tb.events()[r]);
        assert(tb.at(r) == s);
        lemma_event_kind(tb, r);
    }
    assert forall|k: int| 0 <= k < rows.len() implies (#[trigger] rows[k]) < chrs.len() by {
        assert(0 <= sp[k] < m);
    }
    assert forall|i: u32| i < chrs.len() implies #[trigger] rows.contains(i) by {
        let s = tb.at(tb.start1(i as int));
        assert(events[s] == tb.events()[tb.start1(i as int)]);
        assert(sp.contains(s));
        let k = choose|k: int| 0 <= k < sp.len() && sp[k] == s;
        assert(rows[k] == i);
    }
    assert forall|k1: int, k2: int| 0 <= k1 < k2 < ids.len() implies (#[trigger] ids[k1]) <= (
    #[trigger] ids[k2]) by {
        let s1 = sp[k1];
        let s2 = sp[k2];
        lemma_cluster_rises(events, s1, s2);
    }
    assert forall|k1: int, k2: int|
        0 <= k1 < rows.len() && 0 <= k2 < rows.len() && shares_positions(
            chrs,
            starts,
            ends,
            slack,
            #[trigger] rows[k1] as int,
            #[trigger] rows[k2] as int,
        ) implies ids[k1] == ids[k2] by {
        let s1 = sp[k1];
        let s2 = sp[k2];
        let i1 = rows[k1] as int;
        let i2 = rows[k2] as int;
        assert(tb.ends[i1] == ends[i1] + slack);
        assert(tb.ends[i2] == ends[i2] + slack);
        if s1 < s2 {
            lemma_overlapping_rows_share(tb, i1, i2);
        } else if s2 < s1 {
            lemma_overlapping_rows_share(tb, i2, i1);
        }
    }
    assert forall|k1: int, k2: int|
        0 <= k1 < k2 < rows.len() && chrs[(#[trigger] rows[k1]) as int] == chrs[(
        #[trigger] rows[k2]) as int] implies (joined(
        chrs,
        starts,
        shift(ends, slack as int),
        rows[k1] as int,
        rows[k2] as int,
    ) ==> ids[k1] == ids[k2]) && (ids[k1] == ids[k2] && ids[k1] < u32::MAX ==> joined(
        chrs,
        starts,
        shift(ends, slack as int),
        rows[k1] as int,
        rows[k2] as int,
    )) by {
        assert(sp[k1] < sp[k2]);
        lemma_joined_rows_share(tb, rows[k1] as int, rows[k2] as int);
    }
    assert forall|k1: int, k2: int|
        0 <= k1 < rows.len() && 0 <= k2 < rows.len() && chrs[(#[trigger] rows[k1]) as int]
            != chrs[(#[trigger] rows[k2]) as int] implies ids[k1] != ids[k2] || ids[k1]
        == u32::MAX by {
        let s1 = sp[k1];
        let s2 = sp[k2];
        if s1 < s2 {
            let u = lemma_group_begins_between(events, s1, s2);
            lemma_cluster_rises_with_group(events, s1, u, s2);
        } else if s2 < s1 {
            let u = lemma_group_begins_between(events, s2, s1);
            lemma_cluster_rises_with_group(events, s2, u, s1);
        }
    }
}

} // verus!
