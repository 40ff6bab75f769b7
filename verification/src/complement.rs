//! The rows of one table that no row of another overlaps.

use crate::active::{new_row_set, rows_of, set_hashes_alike};
use crate::overlap_laws::{lemma_layout, lemma_lonely_rows, slack_tables};
use crate::overlaps::{active_rows, met_rows};
use crate::radix::{
    lemma_reorder_keeps_all, lemma_reorder_members, lemma_stable_order, reorder, row_lt,
    sort_rows, stable_order,
};
use crate::ruranges_structs::{Event, GroupType, PositionType};
use crate::sorts::{build_sorted_events_idxs, pair_events, sorted_events};
use vstd::prelude::*;
use vstd::std_specs::hash::*;

verus! {

/// The open rows of the first table that are known to overlap a row of the
/// second once the first `t` events are done. A row is marked when it opens
/// while a row of the second table is open, or when a row of the second
/// table opens while it is open. The mark leaves with the end of the row.
pub open spec fn marked(events: Seq<Event>, t: int) -> Set<u32>
    decreases t,
{
    if t <= 0 {
        Set::empty()
    } else {
        let e = events[t - 1];
        let before = marked(events, t - 1);
        if e.is_start {
            if e.first_set {
                if met_rows(events, t - 1, false).is_empty() {
                    before
                } else {
                    before.insert(e.idx)
                }
            } else {
                before.union(met_rows(events, t - 1, true))
            }
        } else if e.first_set {
            before.remove(e.idx)
        } else {
            before
        }
    }
}

/// Event `t` closes a row of the first table that nothing has overlapped.
pub open spec fn closes_lonely(events: Seq<Event>, t: int) -> bool {
    !events[t].is_start && events[t].first_set && !marked(events, t).contains(events[t].idx)
}

/// The rows that the first `t` events close without an overlap, in sweep order.
pub open spec fn lonely_rows(events: Seq<Event>, t: int) -> Seq<u32>
    decreases t,
{
    if t <= 0 {
        Seq::empty()
    } else if closes_lonely(events, t - 1) {
        lonely_rows(events, t - 1).push(events[t - 1].idx)
    } else {
        lonely_rows(events, t - 1)
    }
}

/// `rows` in ascending order.
pub open spec fn ascending(rows: Seq<u32>) -> Seq<u32> {
    reorder(rows, stable_order(Seq::new(rows.len(), |k: int| (rows[k] as i64, 0i64, 0i64))))
}

/// `rows` in ascending order.
pub fn sort_ascending(rows: &Vec<u32>) -> (out: Vec<u32>)
    ensures
        out@ == ascending(rows@),
{
    let mut keys: Vec<(i64, i64, i64)> = Vec::new();
    let mut i: usize = 0;
    while i < rows.len()
        invariant
            i <= rows.len(),
            keys.len() == i,
            forall|k: int| 0 <= k < i ==> #[trigger] keys[k] == (rows[k] as i64, 0i64, 0i64),
        decreases rows.len() - i,
    {
        keys.push((rows[i] as i64, 0, 0));
        i += 1;
    }
    assert(keys@ =~= Seq::new(rows.len() as nat, |k: int| (rows[k] as i64, 0i64, 0i64)));
    sort_rows(rows, &keys)
}

/// The rows of the first table that overlap no row of the second, in
/// ascending order. The intervals of the first table are widened by `slack`.
/// Where either table is empty, nothing is returned.
pub fn sweep_line_non_overlaps(
    chrs: &[GroupType],
    starts: &[PositionType],
    ends: &[PositionType],
    chrs2: &[GroupType],
    starts2: &[PositionType],
    ends2: &[PositionType],
    slack: PositionType,
) -> (no_overlaps: Vec<u32>)
    requires
        chrs.len() == starts.len(),
        chrs.len() == ends.len(),
        chrs.len() <= u32::MAX,
        chrs2.len() == starts2.len(),
        chrs2.len() == ends2.len(),
        chrs2.len() <= u32::MAX,
    ensures
        chrs.len() == 0 || chrs2.len() == 0 ==> no_overlaps@.len() == 0,
        chrs.len() > 0 && chrs2.len() > 0 ==> no_overlaps@ == ascending(
            lonely_rows(
                sorted_events(pair_events(chrs@, starts@, ends@, chrs2@, starts2@, ends2@, slack)),
                2 * chrs.len() + 2 * chrs2.len(),
            ),
        ),
        chrs.len() > 0 && chrs2.len() > 0 && slack_tables(
            chrs@,
            starts@,
            ends@,
            chrs2@,
            starts2@,
            ends2@,
            slack,
        ).proper() ==> {
            &&& forall|i: u32| #[trigger]
                no_overlaps@.contains(i) <==> (i < chrs.len() && slack_tables(
                    chrs@,
                    starts@,
                    ends@,
                    chrs2@,
                    starts2@,
                    ends2@,
                    slack,
                ).lonely(i as int))
            &&& forall|a: int, b: int|
                0 <= a < b < no_overlaps.len() ==> no_overlaps[a] < no_overlaps[b]
        },
{
    broadcast use group_hash_axioms;

    if chrs.len() == 0 || chrs2.len() == 0 {
        return Vec::new();
    }
    let events = build_sorted_events_idxs(chrs, starts, ends, chrs2, starts2, ends2, slack);
    let mut found: Vec<u32> = Vec::new();
    let mut overlapped = new_row_set();
    let mut active1 = new_row_set();
    let mut active2 = new_row_set();
    let mut t: usize = 0;
    while t < events.len()
        invariant
            t <= events.len(),
            set_hashes_alike(&active1),
            set_hashes_alike(&active2),
            set_hashes_alike(&overlapped),
            active1@ == active_rows(events@, t as int, true),
            active2@ == active_rows(events@, t as int, false),
            overlapped@ == marked(events@, t as int),
            found@ == lonely_rows(events@, t as int),
        decreases events.len() - t,
    {
        let e = events[t];
        if t > 0 && e.chr != events[t - 1].chr {
            active1.clear();
            active2.clear();
        }
        assert(active1@ == met_rows(events@, t as int, true));
        assert(active2@ == met_rows(events@, t as int, false));
        if e.is_start {
            if e.first_set {
                if !active2.is_empty() {
                    overlapped.insert(e.idx);
                }
                active1.insert(e.idx);
            } else {
                let rows = rows_of(&active1);
                let ghost base = overlapped@;
                let mut q: usize = 0;
                while q < rows.len()
                    invariant
                        q <= rows.len(),
                        set_hashes_alike(&overlapped),
                        overlapped@ == base.union(rows@.take(q as int).to_set()),
                    decreases rows.len() - q,
                {
                    overlapped.insert(rows[q]);
                    proof {
                        assert(rows@.take(q + 1) =~= rows@.take(q as int).push(rows[q as int]));
                        assert(rows@.take(q as int).push(rows[q as int]).to_set()
                            =~= rows@.take(q as int).to_set().insert(rows[q as int])) by {
                            let was = rows@.take(q as int);
                            let now = was.push(rows[q as int]);
                            assert forall|x: u32|
                                now.to_set().contains(x) <==> was.to_set().insert(
                                    rows[q as int],
                                ).contains(x) by {
                                if now.to_set().contains(x) {
                                    let j = choose|j: int| 0 <= j < now.len() && now[j] == x;
                                    if j < was.len() {
                                        assert(was[j] == x);
                                    }
                                }
                                if was.to_set().contains(x) {
                                    let j = choose|j: int| 0 <= j < was.len() && was[j] == x;
                                    assert(now[j] == x);
                                }
                                if x == rows[q as int] {
                                    assert(now[was.len() as int] == x);
                                }
                            }
                        }
                        assert(overlapped@ =~= base.union(rows@.take(q + 1).to_set()));
                    }
                    q += 1;
                }
                assert(rows@.take(rows.len() as int) =~= rows@);
                active2.insert(e.idx);
            }
        } else {
            if e.first_set {
                active1.remove(&e.idx);
                if !overlapped.contains(&e.idx) {
                    found.push(e.idx);
                }
                overlapped.remove(&e.idx);
            } else {
                active2.remove(&e.idx);
            }
        }
        t += 1;
    }
    let no_overlaps = sort_ascending(&found);
    proof {
        let tb = slack_tables(chrs@, starts@, ends@, chrs2@, starts2@, ends2@, slack);
        if tb.proper() {
            lemma_layout(tb);
            assert(tb.sweep() == events@);
            lemma_lonely_rows(tb, events.len() as int);
            let keys = Seq::new(found@.len(), |k: int| (found@[k] as i64, 0i64, 0i64));
            assert(keys.len() == found.len());
            lemma_reorder_members(found@, keys);
            lemma_reorder_keeps_all(found@, keys);
            lemma_stable_order(keys);
            let order = stable_order(keys);
            assert forall|i: u32| #[trigger]
                no_overlaps@.contains(i) <==> (i < chrs.len() && tb.lonely(i as int)) by {
                if no_overlaps@.contains(i) {
                    let k = choose|k: int| 0 <= k < no_overlaps@.len() && no_overlaps@[k] == i;
                    assert(found@.contains(no_overlaps@[k]));
                }
                if found@.contains(i) {
                    let k = choose|k: int| 0 <= k < found@.len() && found@[k] == i;
                    assert(no_overlaps@.contains(found@[k]));
                }
                if i < chrs.len() {
                    assert(tb.at(tb.end1(i as int)) < events.len());
                }
            }
            assert forall|a: int, b: int| 0 <= a < b < no_overlaps.len() implies no_overlaps[a]
                < no_overlaps[b] by {
                assert(row_lt(keys, order[a] as int, order[b] as int));
                assert(order[a] < keys.len() && order[b] < keys.len());
                assert(no_overlaps[a] == found@[order[a] as int]);
                assert(no_overlaps[b] == found@[order[b] as int]);
                if keys[order[a] as int] == keys[order[b] as int] {
                    assert(found@[order[a] as int] == found@[order[b] as int]);
                }
            }
        }
    }
    no_overlaps
}

} // verus!
