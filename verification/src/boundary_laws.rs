//! What the boundaries are, said without the sweep: one span for each
//! group, from the least start of its rows to their greatest end.

use crate::boundary::{ends_group, group_first, group_spans, span_at, spans};
use crate::coverage_laws::{
    lemma_one_group, lemma_single_table, lemma_sweep_ascends, proper_rows, single_table,
};
use crate::merge::Run;
use crate::overlap_laws::{lemma_event_kind, lemma_layout, lemma_start_before_end, PairTables};
use crate::overlaps::group_changes;
use crate::radix::stable_order;
use crate::ruranges_structs::Event;
use vstd::prelude::*;

verus! {

/// The places below `t` at which a group ends, in ascending order.
pub open spec fn group_ends(events: Seq<Event>, t: int) -> Seq<int>
    decreases t,
{
    if t <= 0 {
        Seq::empty()
    } else if ends_group(events, t - 1) {
        group_ends(events, t - 1).push(t - 1)
    } else {
        group_ends(events, t - 1)
    }
}

/// The spans are those of the places at which a group ends, in their order.
pub proof fn lemma_group_ends(events: Seq<Event>, t: int)
    requires
        0 <= t,
    ensures
        group_ends(events, t).len() == spans(events, t).len(),
        forall|k: int|
            0 <= k < group_ends(events, t).len() ==> {
                let c = #[trigger] group_ends(events, t)[k];
                &&& 0 <= c < t
                &&& ends_group(events, c)
                &&& spans(events, t)[k] == span_at(events, c)
            },
        forall|k1: int, k2: int|
            0 <= k1 < k2 < group_ends(events, t).len() ==> (#[trigger] group_ends(events, t)[k1])
                < (#[trigger] group_ends(events, t)[k2]),
        forall|c: int|
            0 <= c < t && ends_group(events, c) ==> #[trigger] group_ends(events, t).contains(c),
    decreases t,
{
    if t > 0 {
        lemma_group_ends(events, t - 1);
        let before = group_ends(events, t - 1);
        let now = group_ends(events, t);
        assert forall|c: int| 0 <= c < t && ends_group(events, c) implies #[trigger] now.contains(
            c,
        ) by {
            if c < t - 1 {
                assert(before.contains(c));
                let k = choose|k: int| 0 <= k < before.len() && before[k] == c;
                assert(now[k] == c);
            } else {
                assert(now[now.len() - 1] == c);
            }
        }
    }
}

/// The first event of the group of an event begins the group, and no
/// group begins between the two.
pub proof fn lemma_group_first(events: Seq<Event>, t: int)
    requires
        0 <= t,
    ensures
        0 <= group_first(events, t) <= t,
        group_first(events, t) == 0 || group_changes(events, group_first(events, t)),
        forall|u: int| group_first(events, t) < u <= t ==> !group_changes(events, u),
    decreases t,
{
    if t > 0 && !group_changes(events, t) {
        lemma_group_first(events, t - 1);
    }
}

/// The place from `s` on at which the group of event `s` ends.
proof fn lemma_group_end_behind(events: Seq<Event>, s: int) -> (c: int)
    requires
        0 <= s < events.len(),
    ensures
        s <= c < events.len(),
        ends_group(events, c),
        forall|u: int| s < u <= c ==> !group_changes(events, u),
    decreases events.len() - s,
{
    if ends_group(events, s) {
        s
    } else {
        lemma_group_end_behind(events, s + 1)
    }
}

/// The span `r` holds row `i`: it is that of the group of the row, begins
/// at or before the row and ends at or behind it.
pub open spec fn holds_row(chrs: Seq<i64>, starts: Seq<i64>, ends: Seq<i64>, r: Run, i: int) -> bool {
    chrs[r.idx as int] == chrs[i] && r.start <= starts[i] && ends[i] <= r.end
}

/// A row of group `g` starts at `x`.
pub open spec fn starts_at(chrs: Seq<i64>, starts: Seq<i64>, g: i64, x: i64) -> bool {
    exists|i: int| 0 <= i < chrs.len() && #[trigger] chrs[i] == g && starts[i] == x
}

/// One of the spans holds row `i`.
pub open spec fn is_held(chrs: Seq<i64>, starts: Seq<i64>, ends: Seq<i64>, found: Seq<Run>, i: int) -> bool {
    exists|k: int| 0 <= k < found.len() && #[trigger] holds_row(chrs, starts, ends, found[k], i)
}

/// `found` holds the spans of the groups of the table: one for each group,
/// in the order of the groups, each reported with the row of its group
/// that ends last; a span begins where a row of its group starts, ends
/// where the reported row ends, and holds every row of its group.
pub open spec fn spans_groups(
    chrs: Seq<i64>,
    starts: Seq<i64>,
    ends: Seq<i64>,
    found: Seq<Run>,
) -> bool {
    &&& forall|k: int|
        0 <= k < found.len() ==> (#[trigger] found[k]).idx < chrs.len() && ends[found[k].idx as int]
            == found[k].end && starts_at(chrs, starts, chrs[found[k].idx as int], found[k].start)
    &&& forall|k1: int, k2: int|
        0 <= k1 < k2 < found.len() ==> chrs[(#[trigger] found[k1]).idx as int] < chrs[(
        #[trigger] found[k2]).idx as int]
    &&& forall|i: int| 0 <= i < chrs.len() ==> #[trigger] is_held(chrs, starts, ends, found, i)
}

/// Behind the end of a group only greater groups follow.
proof fn lemma_behind_group_end(tb: PairTables, c: int, u: int)
    requires
        tb.proper(),
        0 <= c < u < tb.events().len(),
        ends_group(tb.sweep(), c),
    ensures
        tb.sweep()[c].chr < tb.sweep()[u].chr,
{
    lemma_layout(tb);
    lemma_sweep_ascends(tb, c, c + 1);
    lemma_sweep_ascends(tb, c + 1, u);
}

/// Before the start of a group only lesser groups stand.
proof fn lemma_before_group_start(tb: PairTables, a: int, u: int)
    requires
        tb.proper(),
        0 <= u < a < tb.events().len(),
        group_changes(tb.sweep(), a),
    ensures
        tb.sweep()[u].chr < tb.sweep()[a].chr,
{
    lemma_layout(tb);
    lemma_sweep_ascends(tb, a - 1, a);
    lemma_sweep_ascends(tb, u, a - 1);
}

/// A group ends with the end of one of its rows and begins with the start
/// of one of them: these two rows are returned.
proof fn lemma_span_of_group(tb: PairTables, c: int) -> (rows: (int, int))
    requires
        tb.proper(),
        tb.chrs2.len() == 0,
        0 <= c < tb.events().len(),
        ends_group(tb.sweep(), c),
    ensures
        0 <= rows.0 < tb.chrs.len(),
        tb.sweep()[c].idx == rows.0,
        tb.chrs[rows.0] == tb.sweep()[c].chr,
        tb.ends[rows.0] == tb.sweep()[c].pos,
        0 <= rows.1 < tb.chrs.len(),
        tb.chrs[rows.1] == tb.sweep()[c].chr,
        tb.starts[rows.1] == tb.sweep()[group_first(tb.sweep(), c)].pos,
{
    lemma_layout(tb);
    lemma_start_before_end(tb);
    let events = tb.sweep();
    let order = stable_order(tb.keys());
    let a = group_first(events, c);
    lemma_group_first(events, c);
    lemma_one_group(events, a, c);
    let r = order[c] as int;
    assert(events[c] == tb.events()[r]);
    assert(tb.at(r) == c);
    lemma_event_kind(tb, r);
    let i = events[c].idx as int;
    if events[c].is_start {
        let u = tb.at(tb.end1(i));
        assert(events[u] == tb.events()[tb.end1(i)]);
        assert(c < u);
        lemma_behind_group_end(tb, c, u);
    }
    let ra = order[a] as int;
    assert(events[a] == tb.events()[ra]);
    assert(tb.at(ra) == a);
    lemma_event_kind(tb, ra);
    let i0 = events[a].idx as int;
    if !events[a].is_start {
        let u = tb.at(tb.start1(i0));
        assert(events[u] == tb.events()[tb.start1(i0)]);
        assert(u < a);
        lemma_before_group_start(tb, a, u);
    }
    (i, i0)
}

/// The end of the group of a row: the group begins at or before the row
/// and ends at or behind it.
proof fn lemma_row_in_span(tb: PairTables, i: int) -> (c: int)
    requires
        tb.proper(),
        0 <= i < tb.chrs.len(),
    ensures
        0 <= c < tb.events().len(),
        ends_group(tb.sweep(), c),
        tb.sweep()[c].chr == tb.chrs[i],
        tb.sweep()[group_first(tb.sweep(), c)].pos <= tb.starts[i],
        tb.ends[i] <= tb.sweep()[c].pos,
{
    lemma_layout(tb);
    lemma_start_before_end(tb);
    let events = tb.sweep();
    let s = tb.at(tb.start1(i));
    let e = tb.at(tb.end1(i));
    assert(events[s] == tb.events()[tb.start1(i)]);
    assert(events[e] == tb.events()[tb.end1(i)]);
    let c = lemma_group_end_behind(events, e);
    lemma_one_group(events, e, c);
    lemma_sweep_ascends(tb, e, c);
    let a = group_first(events, c);
    lemma_group_first(events, c);
    lemma_one_group(events, a, c);
    if a > s {
        lemma_before_group_start(tb, a, s);
        lemma_sweep_ascends(tb, s, e);
    } else {
        lemma_sweep_ascends(tb, a, s);
    }
    c
}

/// The boundaries are right: for a table of proper intervals there is one
/// span for each group, in the order of the groups, from the least start
/// of the rows of the group to their greatest end.
pub proof fn lemma_spans_are_of_groups(chrs: Seq<i64>, starts: Seq<i64>, ends: Seq<i64>)
    requires
        proper_rows(chrs, starts, ends, 0),
    ensures
        spans_groups(chrs, starts, ends, group_spans(chrs, starts, ends)),
{
    let tb = single_table(chrs, starts, ends, 0);
    lemma_single_table(chrs, starts, ends, 0);
    let events = tb.sweep();
    let m = events.len() as int;
    assert(m == 2 * chrs.len()) by {
        lemma_layout(tb);
    }
    let found = group_spans(chrs, starts, ends);
    assert(found == spans(events, m));
    lemma_group_ends(events, m);
    let ge = group_ends(events, m);
    assert(tb.ends =~= ends);
    assert forall|k: int| 0 <= k < found.len() implies (#[trigger] found[k]).idx < chrs.len()
        && ends[found[k].idx as int] == found[k].end && starts_at(
        chrs,
        starts,
        chrs[found[k].idx as int],
        found[k].start,
    ) && chrs[found[k].idx as int] == events[ge[k]].chr by {
        let c = ge[k];
        assert(found[k] == span_at(events, c));
        let rows = lemma_span_of_group(tb, c);
        assert(chrs[rows.1] == events[c].chr && starts[rows.1] == found[k].start);
    }
    assert forall|k1: int, k2: int| 0 <= k1 < k2 < found.len() implies chrs[(
    #[trigger] found[k1]).idx as int] < chrs[(#[trigger] found[k2]).idx as int] by {
        assert(ge[k1] < ge[k2]);
        lemma_behind_group_end(tb, ge[k1], ge[k2]);
    }
    assert forall|i: int| 0 <= i < chrs.len() implies #[trigger] is_held(
        chrs,
        starts,
        ends,
        found,
        i,
    ) by {
        let c = lemma_row_in_span(tb, i);
        assert(ge.contains(c));
        let k = choose|k: int| 0 <= k < ge.len() && ge[k] == c;
        assert(found[k] == span_at(events, c));
        assert(holds_row(chrs, starts, ends, found[k], i));
    }
}

} // verus!
