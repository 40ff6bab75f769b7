//! What the overlap sweep finds, said without the sweep: for tables of
//! proper intervals, a row of the first table and a row of the second are
//! paired exactly if their intervals overlap.

use crate::active::{block_lists, lists_in_turn};
use crate::complement::{closes_lonely, lonely_rows, marked};
use crate::overlaps::{
    active_rows, group_changes, is_sweep_output, met_rows, pair_count, pair_sets, pairs_at,
};
use crate::radix::{is_stable_order, lemma_places, lemma_stable_order, place, row_lt, stable_order};
use crate::ruranges_structs::{Event, OverlapPair};
use crate::sorts::{
    endpoint_events, event_key, pair_events, shift, sorted_events,
};
use vstd::prelude::*;

verus! {

/// The two tables of a sweep, with the coordinates that their events have:
/// those of the first table as widened.
pub struct PairTables {
    pub chrs: Seq<i64>,
    pub starts: Seq<i64>,
    pub ends: Seq<i64>,
    pub chrs2: Seq<i64>,
    pub starts2: Seq<i64>,
    pub ends2: Seq<i64>,
}

impl PairTables {
    /// The columns of each table are of one length, the rows can be
    /// numbered, and every interval has a start before its end.
    pub open spec fn proper(self) -> bool {
        &&& self.chrs.len() == self.starts.len()
        &&& self.chrs.len() == self.ends.len()
        &&& self.chrs.len() <= u32::MAX
        &&& self.chrs2.len() == self.starts2.len()
        &&& self.chrs2.len() == self.ends2.len()
        &&& self.chrs2.len() <= u32::MAX
        &&& 2 * self.chrs.len() + 2 * self.chrs2.len() <= usize::MAX
        &&& forall|i: int| 0 <= i < self.chrs.len() ==> #[trigger] self.starts[i] < self.ends[i]
        &&& forall|j: int| 0 <= j < self.chrs2.len() ==> #[trigger] self.starts2[j] < self.ends2[j]
    }

    /// Row `i` of the first table and row `j` of the second have a
    /// position of one group in common.
    pub open spec fn overlap(self, i: int, j: int) -> bool {
        &&& self.chrs[i] == self.chrs2[j]
        &&& self.starts[i] < self.ends2[j]
        &&& self.starts2[j] < self.ends[i]
    }

    /// The events of both tables as they are built.
    pub open spec fn events(self) -> Seq<Event> {
        endpoint_events(self.chrs, self.starts, self.ends, true) + endpoint_events(
            self.chrs2,
            self.starts2,
            self.ends2,
            false,
        )
    }

    pub open spec fn keys(self) -> Seq<(i64, i64, i64)> {
        Seq::new(self.events().len(), |r: int| event_key(self.events()[r]))
    }

    /// The events in sweep order.
    pub open spec fn sweep(self) -> Seq<Event> {
        sorted_events(self.events())
    }

    /// The place of an event in the sweep.
    pub open spec fn at(self, r: int) -> int {
        place(stable_order(self.keys()), r)
    }

    /// The event at which row `i` of the first table starts.
    pub open spec fn start1(self, i: int) -> int {
        2 * i
    }

    /// The event at which row `i` of the first table ends.
    pub open spec fn end1(self, i: int) -> int {
        2 * i + 1
    }

    /// The event at which row `j` of the second table starts.
    pub open spec fn start2(self, j: int) -> int {
        2 * self.chrs.len() + 2 * j
    }

    /// The event at which row `j` of the second table ends.
    pub open spec fn end2(self, j: int) -> int {
        2 * self.chrs.len() + 2 * j + 1
    }

    /// The place at which rows `i` and `j` have both started.
    pub open spec fn meet(self, i: int, j: int) -> int {
        if self.at(self.start1(i)) < self.at(self.start2(j)) {
            self.at(self.start2(j))
        } else {
            self.at(self.start1(i))
        }
    }

    /// The rows of the first table that have started and not ended before place `t`.
    pub open spec fn open1(self, t: int) -> Set<u32> {
        Set::new(
            |i: u32|
                i < self.chrs.len() && self.at(self.start1(i as int)) < t && !(self.at(
                    self.end1(i as int),
                ) < t),
        )
    }

    /// The rows of the second table that have started and not ended before place `t`.
    pub open spec fn open2(self, t: int) -> Set<u32> {
        Set::new(
            |j: u32|
                j < self.chrs2.len() && self.at(self.start2(j as int)) < t && !(self.at(
                    self.end2(j as int),
                ) < t),
        )
    }
}

/// How the events lie: each row has its start and its end among them, the
/// events have their places in the sweep, and an event stands before
/// another exactly if its key is less, or the keys agree and it was built
/// earlier.
pub proof fn lemma_layout(tb: PairTables)
    requires
        tb.proper(),
    ensures
        tb.events().len() == 2 * tb.chrs.len() + 2 * tb.chrs2.len(),
        tb.sweep().len() == tb.events().len(),
        tb.keys().len() == tb.events().len(),
        is_stable_order(stable_order(tb.keys()), tb.keys()),
        forall|i: int|
            0 <= i < tb.chrs.len() ==> #[trigger] tb.events()[tb.start1(i)] == (Event {
                chr: tb.chrs[i],
                pos: tb.starts[i],
                is_start: true,
                first_set: true,
                idx: i as u32,
            }),
        forall|i: int|
            0 <= i < tb.chrs.len() ==> #[trigger] tb.events()[tb.end1(i)] == (Event {
                chr: tb.chrs[i],
                pos: tb.ends[i],
                is_start: false,
                first_set: true,
                idx: i as u32,
            }),
        forall|j: int|
            0 <= j < tb.chrs2.len() ==> #[trigger] tb.events()[tb.start2(j)] == (Event {
                chr: tb.chrs2[j],
                pos: tb.starts2[j],
                is_start: true,
                first_set: false,
                idx: j as u32,
            }),
        forall|j: int|
            0 <= j < tb.chrs2.len() ==> #[trigger] tb.events()[tb.end2(j)] == (Event {
                chr: tb.chrs2[j],
                pos: tb.ends2[j],
                is_start: false,
                first_set: false,
                idx: j as u32,
            }),
        forall|r: int|
            0 <= r < tb.events().len() ==> 0 <= #[trigger] tb.at(r) < tb.events().len()
                && tb.sweep()[tb.at(r)] == tb.events()[r],
        forall|k: int|
            0 <= k < tb.events().len() ==> 0 <= (#[trigger] stable_order(tb.keys())[k])
                < tb.events().len() && tb.at(stable_order(tb.keys())[k] as int) == k
                && tb.sweep()[k] == tb.events()[stable_order(tb.keys())[k] as int],
        forall|r1: int, r2: int|
            0 <= r1 < tb.events().len() && 0 <= r2 < tb.events().len() ==> (#[trigger] tb.at(r1)
                < #[trigger] tb.at(r2) <==> row_lt(tb.keys(), r1, r2)),
{
    let order = stable_order(tb.keys());
    lemma_stable_order(tb.keys());
    lemma_places(order, tb.keys());
    let n1 = tb.chrs.len() as int;
    assert forall|j: int| 0 <= j < tb.chrs2.len() implies #[trigger] tb.events()[tb.start2(j)] == (
    Event {
        chr: tb.chrs2[j],
        pos: tb.starts2[j],
        is_start: true,
        first_set: false,
        idx: j as u32,
    }) by {
        assert((2 * n1 + 2 * j - 2 * n1) / 2 == j);
    }
    assert forall|j: int| 0 <= j < tb.chrs2.len() implies #[trigger] tb.events()[tb.end2(j)] == (
    Event {
        chr: tb.chrs2[j],
        pos: tb.ends2[j],
        is_start: false,
        first_set: false,
        idx: j as u32,
    }) by {
        assert((2 * n1 + 2 * j + 1 - 2 * n1) / 2 == j);
    }
}


/// Every row starts before it ends, in the sweep as in its coordinates.
pub proof fn lemma_start_before_end(tb: PairTables)
    requires
        tb.proper(),
    ensures
        forall|i: int|
            0 <= i < tb.chrs.len() ==> #[trigger] tb.at(tb.start1(i)) < tb.at(tb.end1(i)),
        forall|j: int|
            0 <= j < tb.chrs2.len() ==> #[trigger] tb.at(tb.start2(j)) < tb.at(tb.end2(j)),
{
    lemma_layout(tb);
    assert forall|i: int| 0 <= i < tb.chrs.len() implies #[trigger] tb.at(tb.start1(i)) < tb.at(
        tb.end1(i),
    ) by {
        assert(tb.keys()[tb.start1(i)] == event_key(tb.events()[tb.start1(i)]));
        assert(tb.keys()[tb.end1(i)] == event_key(tb.events()[tb.end1(i)]));
        assert(tb.starts[i] < tb.ends[i]);
        assert(row_lt(tb.keys(), tb.start1(i), tb.end1(i)));
    }
    assert forall|j: int| 0 <= j < tb.chrs2.len() implies #[trigger] tb.at(tb.start2(j)) < tb.at(
        tb.end2(j),
    ) by {
        assert(tb.keys()[tb.start2(j)] == event_key(tb.events()[tb.start2(j)]));
        assert(tb.keys()[tb.end2(j)] == event_key(tb.events()[tb.end2(j)]));
        assert(tb.starts2[j] < tb.ends2[j]);
        assert(row_lt(tb.keys(), tb.start2(j), tb.end2(j)));
    }
}

/// Where the sweep enters another group, every row that has started has ended.
pub proof fn lemma_nothing_open_at_group_change(tb: PairTables, t: int)
    requires
        tb.proper(),
        0 <= t < tb.events().len(),
        group_changes(tb.sweep(), t),
    ensures
        tb.open1(t) =~= Set::empty(),
        tb.open2(t) =~= Set::empty(),
{
    lemma_layout(tb);
    let order = stable_order(tb.keys());
    let keys = tb.keys();
    let r = order[t] as int;
    let p = order[t - 1] as int;
    assert(tb.at(p) == t - 1 && tb.at(r) == t);
    assert(row_lt(keys, p, r));
    assert(keys[p] == event_key(tb.events()[p]));
    assert(keys[r] == event_key(tb.events()[r]));
    assert(tb.sweep()[t] == tb.events()[r]);
    assert(tb.sweep()[t - 1] == tb.events()[p]);
    assert(keys[p].0 < keys[r].0);
    assert forall|i: u32| !tb.open1(t).contains(i) by {
        if i < tb.chrs.len() && tb.at(tb.start1(i as int)) < t {
            let s = tb.start1(i as int);
            let e = tb.end1(i as int);
            assert(keys[s] == event_key(tb.events()[s]));
            assert(keys[e] == event_key(tb.events()[e]));
            if s != p {
                assert(tb.at(s) < tb.at(p));
                assert(row_lt(keys, s, p));
            }
            assert(keys[s].0 <= keys[p].0);
            assert(row_lt(keys, e, r));
            assert(tb.at(e) < tb.at(r));
        }
    }
    assert forall|j: u32| !tb.open2(t).contains(j) by {
        if j < tb.chrs2.len() && tb.at(tb.start2(j as int)) < t {
            let s = tb.start2(j as int);
            let e = tb.end2(j as int);
            assert(keys[s] == event_key(tb.events()[s]));
            assert(keys[e] == event_key(tb.events()[e]));
            if s != p {
                assert(tb.at(s) < tb.at(p));
                assert(row_lt(keys, s, p));
            }
            assert(keys[s].0 <= keys[p].0);
            assert(row_lt(keys, e, r));
            assert(tb.at(e) < tb.at(r));
        }
    }
}

/// What an event is: the start or the end of a row of one of the tables.
pub proof fn lemma_event_kind(tb: PairTables, r: int)
    requires
        tb.proper(),
        0 <= r < tb.events().len(),
    ensures
        ({
            let n1 = tb.chrs.len() as int;
            let e = tb.events()[r];
            &&& r < 2 * n1 ==> e.first_set && e.idx == r / 2 && 0 <= r / 2 < n1 && (r % 2 == 0
                ==> e.is_start && r == tb.start1(r / 2)) && (r % 2 != 0 ==> !e.is_start && r
                == tb.end1(r / 2))
            &&& r >= 2 * n1 ==> {
                let j = (r - 2 * n1) / 2;
                &&& !e.first_set
                &&& e.idx == j
                &&& 0 <= j < tb.chrs2.len()
                &&& (r - 2 * n1) % 2 == 0 ==> e.is_start && r == tb.start2(j)
                &&& (r - 2 * n1) % 2 != 0 ==> !e.is_start && r == tb.end2(j)
            }
        }),
{
    lemma_layout(tb);
    let n1 = tb.chrs.len() as int;
    if r < 2 * n1 {
        let i = r / 2;
        if r % 2 == 0 {
            assert(r == tb.start1(i));
        } else {
            assert(r == tb.end1(i));
        }
    } else {
        let j = (r - 2 * n1) / 2;
        if (r - 2 * n1) % 2 == 0 {
            assert(r == tb.start2(j));
        } else {
            assert(r == tb.end2(j));
        }
    }
}

/// One step of the sweep keeps the open rows what they are said to be.
proof fn lemma_open_rows_step(tb: PairTables, t: int)
    requires
        tb.proper(),
        0 <= t < tb.events().len(),
        active_rows(tb.sweep(), t, true) == tb.open1(t),
        active_rows(tb.sweep(), t, false) == tb.open2(t),
    ensures
        met_rows(tb.sweep(), t, true) == tb.open1(t),
        met_rows(tb.sweep(), t, false) == tb.open2(t),
        active_rows(tb.sweep(), t + 1, true) == tb.open1(t + 1),
        active_rows(tb.sweep(), t + 1, false) == tb.open2(t + 1),
{
    lemma_layout(tb);
    lemma_start_before_end(tb);
    let order = stable_order(tb.keys());
    let r = order[t] as int;
    let e = tb.sweep()[t];
    let n1 = tb.chrs.len() as int;
    assert(e == tb.events()[r]);
    assert(tb.at(r) == t);
    lemma_event_kind(tb, r);
    if group_changes(tb.sweep(), t) {
        lemma_nothing_open_at_group_change(tb, t);
    }
    if t == 0 {
        assert(tb.open1(0) =~= Set::empty());
        assert(tb.open2(0) =~= Set::empty());
    }
    assert(met_rows(tb.sweep(), t, true) == tb.open1(t));
    assert(met_rows(tb.sweep(), t, false) == tb.open2(t));
    // a row is before place t + 1 if it is before place t or is the row at place t
    assert forall|q: int| 0 <= q < tb.events().len() implies (#[trigger] tb.at(q) < t + 1 <==> (
    tb.at(q) < t || q == r)) by {
        if tb.at(q) == t {
            assert(tb.sweep()[tb.at(q)] == tb.events()[q]);
            assert(order[tb.at(q)] == order[t]);
            lemma_places(order, tb.keys());
        }
    }
    let now1 = active_rows(tb.sweep(), t + 1, true);
    let now2 = active_rows(tb.sweep(), t + 1, false);
    let said1 = tb.open1(t + 1);
    let said2 = tb.open2(t + 1);
    assert forall|i: u32| #[trigger] said1.contains(i) <==> now1.contains(i) by {
        if i < n1 {
            let s = tb.start1(i as int);
            let en = tb.end1(i as int);
            assert(tb.at(s) < tb.at(en));
            assert(tb.at(s) < t + 1 <==> (tb.at(s) < t || s == r));
            assert(tb.at(en) < t + 1 <==> (tb.at(en) < t || en == r));
        }
    }
    assert forall|j: u32| #[trigger] said2.contains(j) <==> now2.contains(j) by {
        if j < tb.chrs2.len() {
            let s = tb.start2(j as int);
            let en = tb.end2(j as int);
            assert(tb.at(s) < tb.at(en));
            assert(tb.at(s) < t + 1 <==> (tb.at(s) < t || s == r));
            assert(tb.at(en) < t + 1 <==> (tb.at(en) < t || en == r));
        }
    }
    assert(now1 =~= said1);
    assert(now2 =~= said2);
}

/// The rows that the sweep holds open at place `t` are those that have
/// started and not ended before it.
pub proof fn lemma_open_rows(tb: PairTables, t: int)
    requires
        tb.proper(),
        0 <= t <= tb.events().len(),
    ensures
        active_rows(tb.sweep(), t, true) == tb.open1(t),
        active_rows(tb.sweep(), t, false) == tb.open2(t),
        t < tb.events().len() ==> met_rows(tb.sweep(), t, true) == tb.open1(t) && met_rows(
            tb.sweep(),
            t,
            false,
        ) == tb.open2(t),
    decreases t,
{
    if t == 0 {
        lemma_layout(tb);
        assert forall|i: u32| !tb.open1(0).contains(i) by {
            if i < tb.chrs.len() {
                assert(0 <= tb.at(tb.start1(i as int)));
            }
        }
        assert forall|j: u32| !tb.open2(0).contains(j) by {
            if j < tb.chrs2.len() {
                assert(0 <= tb.at(tb.start2(j as int)));
            }
        }
        assert(tb.open1(0) =~= Set::empty());
        assert(tb.open2(0) =~= Set::empty());
    } else {
        lemma_open_rows(tb, t - 1);
        lemma_open_rows_step(tb, t - 1);
    }
    if t < tb.events().len() {
        lemma_open_rows_step(tb, t);
    }
}


/// The event at place `t` gives the pair of two rows exactly if the rows
/// overlap and `t` is the place at which both have started.
pub proof fn lemma_pairs_at(tb: PairTables, t: int, i: int, j: int)
    requires
        tb.proper(),
        0 <= t < tb.events().len(),
        0 <= i < tb.chrs.len(),
        0 <= j < tb.chrs2.len(),
    ensures
        pairs_at(tb.sweep(), t).contains(OverlapPair { idx: i as u32, idx2: j as u32 }) <==> (
        tb.overlap(i, j) && t == tb.meet(i, j)),
{
    lemma_layout(tb);
    lemma_start_before_end(tb);
    lemma_open_rows(tb, t);
    let order = stable_order(tb.keys());
    let keys = tb.keys();
    let r = order[t] as int;
    let n1 = tb.chrs.len() as int;
    let p = OverlapPair { idx: i as u32, idx2: j as u32 };
    assert(tb.sweep()[t] == tb.events()[r]);
    assert(tb.at(r) == t);
    lemma_event_kind(tb, r);
    let s1 = tb.start1(i);
    let e1 = tb.end1(i);
    let s2 = tb.start2(j);
    let e2 = tb.end2(j);
    assert(keys[s1] == event_key(tb.events()[s1]));
    assert(keys[e1] == event_key(tb.events()[e1]));
    assert(keys[s2] == event_key(tb.events()[s2]));
    assert(keys[e2] == event_key(tb.events()[e2]));
    assert(tb.at(s1) < tb.at(e1));
    assert(tb.at(s2) < tb.at(e2));
    assert(tb.at(s1) == t <==> s1 == r) by {
        if tb.at(s1) == t {
            assert(tb.sweep()[tb.at(s1)] == tb.events()[s1]);
            assert(order[tb.at(s1)] == s1) by {
                lemma_places(order, keys);
            }
        }
    }
    assert(tb.at(s2) == t <==> s2 == r) by {
        if tb.at(s2) == t {
            assert(order[tb.at(s2)] == s2) by {
                lemma_places(order, keys);
            }
        }
    }
    assert(tb.at(e1) == t <==> e1 == r) by {
        if tb.at(e1) == t {
            assert(order[tb.at(e1)] == e1) by {
                lemma_places(order, keys);
            }
        }
    }
    assert(tb.at(e2) == t <==> e2 == r) by {
        if tb.at(e2) == t {
            assert(order[tb.at(e2)] == e2) by {
                lemma_places(order, keys);
            }
        }
    }
    assert(tb.at(s2) < tb.at(s1) <==> row_lt(keys, s2, s1));
    assert(tb.at(s1) < tb.at(s2) <==> row_lt(keys, s1, s2));
    assert(tb.at(s1) < tb.at(e2) <==> row_lt(keys, s1, e2));
    assert(tb.at(e2) < tb.at(s1) <==> row_lt(keys, e2, s1));
    assert(tb.at(s2) < tb.at(e1) <==> row_lt(keys, s2, e1));
    assert(tb.at(e1) < tb.at(s2) <==> row_lt(keys, e1, s2));
    if r == s1 {
        assert(pairs_at(tb.sweep(), t).contains(p) <==> tb.open2(t).contains(j as u32));
    } else if r < 2 * n1 {
        assert(!pairs_at(tb.sweep(), t).contains(p));
    } else if r == s2 {
        assert(pairs_at(tb.sweep(), t).contains(p) <==> tb.open1(t).contains(i as u32));
    } else {
        assert(!pairs_at(tb.sweep(), t).contains(p));
    }
}

/// The event at place `t` gives pairs of rows of the two tables only.
pub proof fn lemma_pairs_at_rows(tb: PairTables, t: int, p: OverlapPair)
    requires
        tb.proper(),
        0 <= t < tb.events().len(),
        pairs_at(tb.sweep(), t).contains(p),
    ensures
        p.idx < tb.chrs.len(),
        p.idx2 < tb.chrs2.len(),
{
    lemma_layout(tb);
    lemma_open_rows(tb, t);
    let order = stable_order(tb.keys());
    let r = order[t] as int;
    assert(tb.sweep()[t] == tb.events()[r]);
    lemma_event_kind(tb, r);
}


/// The event whose block holds item `q` of a listing.
proof fn lemma_block_of(
    events: Seq<Event>,
    out: Seq<OverlapPair>,
    cuts: Seq<int>,
    q: int,
    hi: int,
) -> (t: int)
    requires
        lists_in_turn(out, cuts, pair_sets(events)),
        0 <= hi <= events.len(),
        0 <= q < cuts[hi],
    ensures
        0 <= t < hi,
        cuts[t] <= q < cuts[t + 1],
    decreases hi,
{
    assert(hi > 0);
    assert(block_lists(out, cuts, hi - 1, pair_sets(events)[hi - 1]));
    if q >= cuts[hi - 1] {
        hi - 1
    } else {
        lemma_block_of(events, out, cuts, q, hi - 1)
    }
}

/// The overlap sweep is right: for tables of proper intervals, whatever the
/// sweep gives holds the pair of a row of the first table and a row of the
/// second exactly if the two overlap, and holds no pair twice.
pub proof fn lemma_sweep_finds_overlaps(tb: PairTables, out: Seq<OverlapPair>)
    requires
        tb.proper(),
        is_sweep_output(tb.sweep(), out),
    ensures
        forall|p: OverlapPair| #[trigger]
            out.contains(p) <==> (p.idx < tb.chrs.len() && p.idx2 < tb.chrs2.len() && tb.overlap(
                p.idx as int,
                p.idx2 as int,
            )),
        out.no_duplicates(),
{
    lemma_layout(tb);
    let events = tb.sweep();
    let m = events.len() as int;
    let sets = pair_sets(events);
    let cuts = choose|cuts: Seq<int>| lists_in_turn(out, cuts, sets);
    assert forall|a: int, b: int| 0 <= a < out.len() && 0 <= b < out.len() && a != b implies out[a]
        != out[b] by {
        if out[a] == out[b] {
            let p = out[a];
            let ta = lemma_block_of(events, out, cuts, a, m);
            let tb2 = lemma_block_of(events, out, cuts, b, m);
            assert(block_lists(out, cuts, ta, sets[ta]));
            assert(block_lists(out, cuts, tb2, sets[tb2]));
            let block_a = out.subrange(cuts[ta], cuts[ta + 1]);
            let block_b = out.subrange(cuts[tb2], cuts[tb2 + 1]);
            assert(block_a[a - cuts[ta]] == p);
            assert(block_b[b - cuts[tb2]] == p);
            assert(block_a.to_set().contains(p));
            assert(block_b.to_set().contains(p));
            assert(sets[ta] == pairs_at(events, ta));
            assert(sets[tb2] == pairs_at(events, tb2));
            lemma_pairs_at_rows(tb, ta, p);
            lemma_pairs_at(tb, ta, p.idx as int, p.idx2 as int);
            lemma_pairs_at(tb, tb2, p.idx as int, p.idx2 as int);
            assert(ta == tb2);
            assert(block_a[a - cuts[ta]] != block_a[b - cuts[ta]]);
        }
    }
    assert forall|p: OverlapPair| #[trigger]
        out.contains(p) <==> (p.idx < tb.chrs.len() && p.idx2 < tb.chrs2.len() && tb.overlap(
            p.idx as int,
            p.idx2 as int,
        )) by {
        if out.contains(p) {
            let q = choose|q: int| 0 <= q < out.len() && out[q] == p;
            let t = lemma_block_of(events, out, cuts, q, m);
            assert(block_lists(out, cuts, t, sets[t]));
            assert(sets[t] == pairs_at(events, t));
            let block = out.subrange(cuts[t], cuts[t + 1]);
            assert(block[q - cuts[t]] == p);
            assert(block.to_set().contains(p));
            lemma_pairs_at_rows(tb, t, p);
            lemma_pairs_at(tb, t, p.idx as int, p.idx2 as int);
        }
        if p.idx < tb.chrs.len() && p.idx2 < tb.chrs2.len() && tb.overlap(
            p.idx as int,
            p.idx2 as int,
        ) {
            let t = tb.meet(p.idx as int, p.idx2 as int);
            assert(0 <= tb.at(tb.start1(p.idx as int)) < m);
            assert(0 <= tb.at(tb.start2(p.idx2 as int)) < m);
            lemma_pairs_at(tb, t, p.idx as int, p.idx2 as int);
            assert(block_lists(out, cuts, t, sets[t]));
            assert(sets[t] == pairs_at(events, t));
            let block = out.subrange(cuts[t], cuts[t + 1]);
            assert(block.to_set().contains(p));
            let q = choose|q: int| 0 <= q < block.len() && block[q] == p;
            assert(out[cuts[t] + q] == p);
        }
    }
}

/// The two tables of a sweep in which the intervals of the first table are
/// widened by `slack` on both sides.
pub open spec fn slack_tables(
    chrs: Seq<i64>,
    starts: Seq<i64>,
    ends: Seq<i64>,
    chrs2: Seq<i64>,
    starts2: Seq<i64>,
    ends2: Seq<i64>,
    slack: i64,
) -> PairTables {
    PairTables {
        chrs,
        starts: shift(starts, -slack),
        ends: shift(ends, slack as int),
        chrs2,
        starts2,
        ends2,
    }
}

/// The intervals of a table are proper as they stand and stay within the
/// range of coordinates when widened by `slack` on both sides.
pub open spec fn plain_table(chrs: Seq<i64>, starts: Seq<i64>, ends: Seq<i64>, slack: i64) -> bool {
    &&& chrs.len() == starts.len()
    &&& chrs.len() == ends.len()
    &&& chrs.len() <= u32::MAX
    &&& forall|i: int|
        0 <= i < chrs.len() ==> #[trigger] starts[i] < ends[i] && i64::MIN <= starts[i] - slack
            && ends[i] + slack <= i64::MAX
}

/// The overlap join is symmetric. Take two tables of proper intervals, and
/// a slack that is not negative and carries no start or end beyond the
/// range of coordinates. Then the pairs that the
/// sweep gives for the first table against the second are those that it
/// gives for the second against the first, with the two rows of each pair
/// in each other's place.
pub proof fn lemma_overlaps_symmetric(
    chrs: Seq<i64>,
    starts: Seq<i64>,
    ends: Seq<i64>,
    chrs2: Seq<i64>,
    starts2: Seq<i64>,
    ends2: Seq<i64>,
    slack: i64,
    found: Seq<OverlapPair>,
    found_back: Seq<OverlapPair>,
)
    requires
        0 <= slack,
        plain_table(chrs, starts, ends, slack),
        plain_table(chrs2, starts2, ends2, slack),
        2 * chrs.len() + 2 * chrs2.len() <= usize::MAX,
        is_sweep_output(
            sorted_events(pair_events(chrs, starts, ends, chrs2, starts2, ends2, slack)),
            found,
        ),
        is_sweep_output(
            sorted_events(pair_events(chrs2, starts2, ends2, chrs, starts, ends, slack)),
            found_back,
        ),
    ensures
        forall|i: u32, j: u32|
            found.contains(OverlapPair { idx: i, idx2: j }) <==> found_back.contains(
                OverlapPair { idx: j, idx2: i },
            ),
{
    let there = slack_tables(chrs, starts, ends, chrs2, starts2, ends2, slack);
    let back = slack_tables(chrs2, starts2, ends2, chrs, starts, ends, slack);
    assert forall|i: int| 0 <= i < chrs.len() implies #[trigger] there.starts[i]
        < there.ends[i] by {
        assert(starts[i] < ends[i]);
    }
    assert forall|j: int| 0 <= j < chrs2.len() implies #[trigger] back.starts[j]
        < back.ends[j] by {
        assert(starts2[j] < ends2[j]);
    }
    assert(there.proper());
    assert(back.proper());
    lemma_sweep_finds_overlaps(there, found);
    lemma_sweep_finds_overlaps(back, found_back);
    assert forall|i: u32, j: u32|
        found.contains(OverlapPair { idx: i, idx2: j }) <==> found_back.contains(
            OverlapPair { idx: j, idx2: i },
        ) by {
        let p = OverlapPair { idx: i, idx2: j };
        let q = OverlapPair { idx: j, idx2: i };
        assert(found.contains(p) <==> (p.idx < chrs.len() && p.idx2 < chrs2.len() && there.overlap(
            p.idx as int,
            p.idx2 as int,
        )));
        assert(found_back.contains(q) <==> (q.idx < chrs2.len() && q.idx2 < chrs.len()
            && back.overlap(q.idx as int, q.idx2 as int)));
        if i < chrs.len() && j < chrs2.len() {
            assert(starts[i as int] < ends[i as int]);
            assert(starts2[j as int] < ends2[j as int]);
        }
    }
}


/// How many of the numbers below `n` have the property `f`.
pub open spec fn count_below(f: spec_fn(int) -> bool, n: int) -> nat
    decreases n,
{
    if n <= 0 {
        0
    } else {
        count_below(f, n - 1) + (if f(n - 1) { 1nat } else { 0nat })
    }
}

proof fn lemma_count_same(f: spec_fn(int) -> bool, g: spec_fn(int) -> bool, n: int)
    requires
        forall|j: int| 0 <= j < n ==> #[trigger] f(j) == g(j),
    ensures
        count_below(f, n) == count_below(g, n),
    decreases n,
{
    if n > 0 {
        lemma_count_same(f, g, n - 1);
    }
}

proof fn lemma_count_split(
    f: spec_fn(int) -> bool,
    g: spec_fn(int) -> bool,
    h: spec_fn(int) -> bool,
    n: int,
)
    requires
        forall|j: int| 0 <= j < n ==> #[trigger] f(j) == (g(j) || h(j)),
        forall|j: int| 0 <= j < n ==> !(#[trigger] g(j) && h(j)),
    ensures
        count_below(f, n) == count_below(g, n) + count_below(h, n),
    decreases n,
{
    if n > 0 {
        lemma_count_split(f, g, h, n - 1);
    }
}

proof fn lemma_count_none(f: spec_fn(int) -> bool, n: int)
    requires
        forall|j: int| 0 <= j < n ==> !#[trigger] f(j),
    ensures
        count_below(f, n) == 0,
    decreases n,
{
    if n > 0 {
        lemma_count_none(f, n - 1);
    }
}

proof fn lemma_count_one(f: spec_fn(int) -> bool, n: int, only: int)
    requires
        0 <= only < n,
        forall|j: int| 0 <= j < n ==> #[trigger] f(j) == (j == only),
    ensures
        count_below(f, n) == 1,
    decreases n,
{
    if n - 1 == only {
        lemma_count_none(f, n - 1);
    } else {
        lemma_count_one(f, n - 1, only);
    }
}

proof fn lemma_count_members(s: Set<u32>, n: int)
    requires
        s.finite(),
        0 <= n <= u32::MAX + 1,
        forall|x: u32| s.contains(x) ==> x < n,
    ensures
        count_below(|j: int| s.contains(j as u32), n) == s.len(),
    decreases n,
{
    let f = |j: int| s.contains(j as u32);
    if n == 0 {
        assert(s =~= Set::empty());
    } else {
        let top = (n - 1) as u32;
        let rest = s.remove(top);
        let g = |j: int| rest.contains(j as u32);
        lemma_count_members(rest, n - 1);
        lemma_count_same(f, g, n - 1);
        assert(f(n - 1) == s.contains(top));
    }
}

pub proof fn lemma_active_rows_finite(events: Seq<Event>, t: int, first_set: bool)
    requires
        0 <= t,
    ensures
        active_rows(events, t, first_set).finite(),
        met_rows(events, t, first_set).finite(),
    decreases t,
{
    if t > 0 {
        lemma_active_rows_finite(events, t - 1, first_set);
    }
}

/// The pairs with row `i` that the first `t` events give are as many as the
/// rows of the second table that overlap row `i` and have met it by then.
proof fn lemma_pair_count_upto(tb: PairTables, i: int, t: int)
    requires
        tb.proper(),
        0 <= i < tb.chrs.len(),
        0 <= t <= tb.events().len(),
    ensures
        pair_count(tb.sweep(), t, i as u32) == count_below(
            |j: int| tb.overlap(i, j) && tb.meet(i, j) < t,
            tb.chrs2.len() as int,
        ),
    decreases t,
{
    lemma_layout(tb);
    let n2 = tb.chrs2.len() as int;
    let met_by = |j: int| tb.overlap(i, j) && tb.meet(i, j) < t;
    if t == 0 {
        assert forall|j: int| 0 <= j < n2 implies !#[trigger] met_by(j) by {
            assert(0 <= tb.at(tb.start1(i)));
        }
        lemma_count_none(met_by, n2);
    } else {
        let s = t - 1;
        lemma_pair_count_upto(tb, i, s);
        let before = |j: int| tb.overlap(i, j) && tb.meet(i, j) < s;
        let now = |j: int| tb.overlap(i, j) && tb.meet(i, j) == s;
        lemma_count_split(met_by, before, now, n2);
        // what event `s` adds
        lemma_open_rows(tb, s);
        let order = stable_order(tb.keys());
        let r = order[s] as int;
        assert(tb.sweep()[s] == tb.events()[r]);
        assert(tb.at(r) == s);
        lemma_event_kind(tb, r);
        let gives = |j: int|
            pairs_at(tb.sweep(), s).contains(OverlapPair { idx: i as u32, idx2: j as u32 });
        assert forall|j: int| 0 <= j < n2 implies #[trigger] now(j) == gives(j) by {
            lemma_pairs_at(tb, s, i, j);
        }
        lemma_count_same(now, gives, n2);
        let e = tb.sweep()[s];
        if e.is_start && e.first_set && e.idx == i as u32 {
            let open = met_rows(tb.sweep(), s, false);
            lemma_active_rows_finite(tb.sweep(), s, false);
            let member = |j: int| open.contains(j as u32);
            lemma_count_members(open, n2);
            lemma_count_same(gives, member, n2);
        } else if e.is_start && !e.first_set && met_rows(tb.sweep(), s, true).contains(i as u32) {
            let j0 = e.idx as int;
            assert forall|j: int| 0 <= j < n2 implies #[trigger] gives(j) == (j == j0) by {}
            lemma_count_one(gives, n2, j0);
        } else {
            assert forall|j: int| 0 <= j < n2 implies !#[trigger] gives(j) by {}
            lemma_count_none(gives, n2);
        }
    }
}

/// How many rows of the second table overlap row `i` of the first.
pub open spec fn overlapping_rows(
    chrs: Seq<i64>,
    starts: Seq<i64>,
    ends: Seq<i64>,
    chrs2: Seq<i64>,
    starts2: Seq<i64>,
    ends2: Seq<i64>,
    slack: i64,
    i: int,
) -> nat {
    count_below(
        |j: int| slack_tables(chrs, starts, ends, chrs2, starts2, ends2, slack).overlap(i, j),
        chrs2.len() as int,
    )
}

/// The count of overlaps is right. For tables of proper intervals, the
/// number of pairs that the sweep gives for a row of the first table is the
/// number of rows of the second table whose interval overlaps the widened
/// interval of that row.
pub proof fn lemma_count_is_number_of_overlaps(
    chrs: Seq<i64>,
    starts: Seq<i64>,
    ends: Seq<i64>,
    chrs2: Seq<i64>,
    starts2: Seq<i64>,
    ends2: Seq<i64>,
    slack: i64,
    i: int,
)
    requires
        slack_tables(chrs, starts, ends, chrs2, starts2, ends2, slack).proper(),
        0 <= i < chrs.len(),
    ensures
        pair_count(
            sorted_events(pair_events(chrs, starts, ends, chrs2, starts2, ends2, slack)),
            2 * chrs.len() + 2 * chrs2.len() as int,
            i as u32,
        ) == overlapping_rows(chrs, starts, ends, chrs2, starts2, ends2, slack, i),
        overlapping_rows(chrs, starts, ends, chrs2, starts2, ends2, slack, i) <= chrs2.len(),
{
    let tb = slack_tables(chrs, starts, ends, chrs2, starts2, ends2, slack);
    lemma_layout(tb);
    let m = tb.events().len() as int;
    let n2 = chrs2.len() as int;
    lemma_pair_count_upto(tb, i, m);
    let met_by = |j: int| tb.overlap(i, j) && tb.meet(i, j) < m;
    let overlaps = |j: int| tb.overlap(i, j);
    assert forall|j: int| 0 <= j < n2 implies #[trigger] met_by(j) == overlaps(j) by {
        assert(tb.at(tb.start1(i)) < m);
        assert(tb.at(tb.start2(j)) < m);
    }
    lemma_count_same(met_by, overlaps, n2);
    lemma_count_at_most(overlaps, n2);
}

proof fn lemma_count_at_most(f: spec_fn(int) -> bool, n: int)
    requires
        0 <= n,
    ensures
        count_below(f, n) <= n,
    decreases n,
{
    if n > 0 {
        lemma_count_at_most(f, n - 1);
    }
}


impl PairTables {
    /// Row `i` of the first table overlaps a row of the second that it has
    /// met before place `t`.
    pub open spec fn has_met(self, i: int, t: int) -> bool {
        exists|j: int|
            0 <= j < self.chrs2.len() && #[trigger] self.overlap(i, j) && self.meet(i, j) < t
    }

    /// The open rows of the first table that overlap a row of the second
    /// that they have met before place `t`.
    pub open spec fn marked_rows(self, t: int) -> Set<u32> {
        Set::new(|i: u32| self.open1(t).contains(i) && self.has_met(i as int, t))
    }

    /// Row `i` of the first table overlaps no row of the second.
    pub open spec fn lonely(self, i: int) -> bool {
        forall|j: int| 0 <= j < self.chrs2.len() ==> !#[trigger] self.overlap(i, j)
    }
}

/// The marks of the sweep are what they are said to be.
proof fn lemma_marked(tb: PairTables, t: int)
    requires
        tb.proper(),
        0 <= t <= tb.events().len(),
    ensures
        marked(tb.sweep(), t) == tb.marked_rows(t),
    decreases t,
{
    lemma_layout(tb);
    if t == 0 {
        lemma_open_rows(tb, 0);
        assert(tb.marked_rows(0) =~= Set::empty());
    } else {
        let s = t - 1;
        lemma_marked(tb, s);
        lemma_open_rows(tb, s);
        lemma_open_rows(tb, t);
        lemma_start_before_end(tb);
        let events = tb.sweep();
        let order = stable_order(tb.keys());
        let r = order[s] as int;
        assert(events[s] == tb.events()[r]);
        assert(tb.at(r) == s);
        lemma_event_kind(tb, r);
        let e = events[s];
        let now = marked(events, t);
        let said = tb.marked_rows(t);
        assert forall|i: u32| #[trigger] now.contains(i) <==> said.contains(i) by {
            if i < tb.chrs.len() {
                let ii = i as int;
                // what row i has met by place t is what it had met by place s or meets at s
                assert forall|j: int| 0 <= j < tb.chrs2.len() implies (tb.overlap(ii, j)
                    && tb.meet(ii, j) == s <==> pairs_at(events, s).contains(
                    OverlapPair { idx: i, idx2: j as u32 },
                )) by {
                    lemma_pairs_at(tb, s, ii, j);
                }
                if tb.has_met(ii, t) {
                    let j = choose|j: int|
                        0 <= j < tb.chrs2.len() && #[trigger] tb.overlap(ii, j) && tb.meet(ii, j)
                            < t;
                    if tb.meet(ii, j) < s {
                        assert(tb.has_met(ii, s));
                    } else {
                        assert(pairs_at(events, s).contains(OverlapPair { idx: i, idx2: j as u32 }));
                    }
                }
                if tb.has_met(ii, s) {
                    let j = choose|j: int|
                        0 <= j < tb.chrs2.len() && #[trigger] tb.overlap(ii, j) && tb.meet(ii, j)
                            < s;
                    assert(tb.overlap(ii, j) && tb.meet(ii, j) < t);
                }
                if e.is_start && e.first_set && e.idx == i {
                    let open = met_rows(events, s, false);
                    if !open.is_empty() {
                        assert(!(open =~= Set::<u32>::empty()));
                        let j = choose|j: u32| #[trigger] open.contains(j);
                        assert(pairs_at(events, s).contains(OverlapPair { idx: i, idx2: j }));
                        assert(tb.overlap(ii, j as int) && tb.meet(ii, j as int) < t);
                    }
                }
                if e.is_start && !e.first_set && met_rows(events, s, true).contains(i) {
                    let j = e.idx;
                    assert(pairs_at(events, s).contains(OverlapPair { idx: i, idx2: j }));
                    assert(tb.overlap(ii, j as int) && tb.meet(ii, j as int) < t);
                }
            }
        }
        assert(now =~= said);
    }
}

/// The rows that the sweep closes without an overlap are the rows of the
/// first table that overlap no row of the second, each once.
pub proof fn lemma_lonely_rows(tb: PairTables, t: int)
    requires
        tb.proper(),
        0 <= t <= tb.events().len(),
    ensures
        forall|i: u32| #[trigger]
            lonely_rows(tb.sweep(), t).contains(i) <==> (i < tb.chrs.len() && tb.at(
                tb.end1(i as int),
            ) < t && tb.lonely(i as int)),
        lonely_rows(tb.sweep(), t).no_duplicates(),
    decreases t,
{
    lemma_layout(tb);
    if t > 0 {
        let s = t - 1;
        lemma_lonely_rows(tb, s);
        lemma_marked(tb, s);
        lemma_open_rows(tb, s);
        lemma_start_before_end(tb);
        let events = tb.sweep();
        let order = stable_order(tb.keys());
        let r = order[s] as int;
        assert(events[s] == tb.events()[r]);
        assert(tb.at(r) == s);
        lemma_event_kind(tb, r);
        let e = events[s];
        let before = lonely_rows(events, s);
        let now = lonely_rows(events, t);
        let closes = closes_lonely(events, s);
        if !e.is_start && e.first_set {
            let i0 = e.idx as int;
            assert(tb.open1(s).contains(e.idx));
            // every row that overlaps row i0 has met it before its end
            assert forall|j: int| 0 <= j < tb.chrs2.len() && tb.overlap(i0, j) implies tb.meet(
                i0,
                j,
            ) < s by {
                let s2 = tb.start2(j);
                let e1 = tb.end1(i0);
                assert(tb.keys()[s2] == event_key(tb.events()[s2]));
                assert(tb.keys()[e1] == event_key(tb.events()[e1]));
                assert(row_lt(tb.keys(), s2, e1));
                assert(tb.at(s2) < tb.at(e1));
            }
            assert(closes <==> tb.lonely(i0)) by {
                if tb.has_met(i0, s) {
                    let j = choose|j: int|
                        0 <= j < tb.chrs2.len() && #[trigger] tb.overlap(i0, j) && tb.meet(i0, j)
                            < s;
                    assert(!tb.lonely(i0));
                }
                if !tb.lonely(i0) {
                    let j = choose|j: int| 0 <= j < tb.chrs2.len() && #[trigger] tb.overlap(i0, j);
                    assert(tb.overlap(i0, j) && tb.meet(i0, j) < s);
                }
            }
        }
        assert forall|i: u32| #[trigger] now.contains(i) <==> (i < tb.chrs.len() && tb.at(
            tb.end1(i as int),
        ) < t && tb.lonely(i as int)) by {
            if i < tb.chrs.len() {
                assert(tb.at(tb.end1(i as int)) == s <==> tb.end1(i as int) == r) by {
                    if tb.at(tb.end1(i as int)) == s {
                        lemma_places(order, tb.keys());
                    }
                }
            }
            if now.contains(i) {
                let q = choose|q: int| 0 <= q < now.len() && now[q] == i;
                if q < before.len() {
                    assert(before[q] == i);
                    assert(before.contains(i));
                }
            }
            if before.contains(i) {
                let q = choose|q: int| 0 <= q < before.len() && before[q] == i;
                assert(now[q] == i);
            }
            if closes && i == e.idx {
                assert(now[before.len() as int] == i);
            }
        }
        if closes {
            assert(!before.contains(e.idx));
            assert forall|a: int, b: int| 0 <= a < now.len() && 0 <= b < now.len() && a
                != b implies now[a] != now[b] by {
                if a < before.len() && b < before.len() {
                    assert(before[a] != before[b]);
                } else if a < before.len() {
                    assert(before.contains(before[a]));
                } else {
                    assert(before.contains(before[b]));
                }
            }
        }
    }
}

} // verus!
