//! What subtraction leaves, said without the sweep: of each interval of the
//! first table the stretches that no interval of the second table covers.

use crate::overlap_laws::{
    lemma_active_rows_finite, lemma_event_kind, lemma_layout,
    lemma_nothing_open_at_group_change, lemma_open_rows, lemma_start_before_end, PairTables,
};
use crate::overlaps::{active_rows, group_changes, met_rows};
use crate::radix::{lemma_places, lemma_stable_order, row_lt, stable_order};
use crate::ruranges_structs::{Event, MinInterval};
use crate::sorts::event_key;
use crate::active::{block_lists, lists_in_turn, lists_sets};
use crate::subtract::{
    by_row, captures, captures_met, piece_sets, pieces_at, second_open, second_open_met,
};
use vstd::prelude::*;

verus! {

impl PairTables {
    /// Row `j` of the second table lies in group `g` and covers position `x`.
    pub open spec fn second_covers(self, j: int, g: i64, x: int) -> bool {
        self.chrs2[j] == g && self.starts2[j] <= x < self.ends2[j]
    }

    /// Some row of the second table covers position `x` of group `g`.
    pub open spec fn covered_by_second(self, g: i64, x: int) -> bool {
        exists|j: int| 0 <= j < self.chrs2.len() && #[trigger] self.second_covers(j, g, x)
    }

    /// No row of the second table covers a position of group `g` from `a` up to `b`.
    pub open spec fn free(self, g: i64, a: int, b: int) -> bool {
        forall|x: int| a <= x < b ==> !#[trigger] self.covered_by_second(g, x)
    }

    /// A stretch of row `i` that may be captured from `a` on when the sweep
    /// stands before the event at place `t`: it begins within the row,
    /// nothing of the second table covers it up to that event, and it begins
    /// where the row begins or where the second table leaves off.
    pub open spec fn captured_from(self, i: int, a: i64, t: int) -> bool {
        &&& self.starts[i] <= a <= self.sweep()[t].pos
        &&& self.free(self.chrs[i], a as int, self.sweep()[t].pos as int)
        &&& a == self.starts[i] || self.covered_by_second(self.chrs[i], a - 1)
    }

    /// What the sweep holds of each open row of the first table before the
    /// event at place `t`: the rows are the open ones; while a row of the
    /// second table is open nothing is captured, and while none is, each row
    /// captures a stretch that may be captured.
    pub open spec fn captures_right(self, held: Map<u32, Option<i64>>, t: int) -> bool {
        &&& held.dom() == self.open1(t)
        &&& forall|i: u32| #[trigger]
            self.open1(t).contains(i) ==> (if self.open2(t) =~= Set::<u32>::empty() {
                held[i] is Some && self.captured_from(i as int, held[i]->0, t)
            } else {
                held[i] is None
            })
    }
}

/// As many intervals of the second table are open as rows of it have
/// started and not ended.
pub proof fn lemma_second_open(tb: PairTables, t: int)
    requires
        tb.proper(),
        0 <= t <= tb.events().len(),
    ensures
        tb.open2(t).finite(),
        second_open(tb.sweep(), t) == tb.open2(t).len(),
        t < tb.events().len() ==> second_open_met(tb.sweep(), t) == tb.open2(t).len(),
    decreases t,
{
    lemma_layout(tb);
    lemma_open_rows(tb, t);
    lemma_active_rows_finite(tb.sweep(), t, false);
    if t > 0 {
        let s = t - 1;
        lemma_second_open(tb, s);
        lemma_open_rows(tb, s);
        lemma_start_before_end(tb);
        let order = stable_order(tb.keys());
        let r = order[s] as int;
        assert(tb.sweep()[s] == tb.events()[r]);
        assert(tb.at(r) == s);
        lemma_event_kind(tb, r);
        let e = tb.sweep()[s];
        let j = e.idx;
        assert(met_rows(tb.sweep(), s, false) == tb.open2(s));
        if !e.first_set {
            if e.is_start {
                assert(!tb.open2(s).contains(j));
            } else {
                assert(tb.at(tb.start2(j as int)) < tb.at(tb.end2(j as int)));
                assert(tb.open2(s).contains(j));
            }
        }
    }
    if t < tb.events().len() && group_changes(tb.sweep(), t) {
        lemma_nothing_open_at_group_change(tb, t);
    }
}


/// The events between the start and the end of a row lie in its group, at
/// positions within it.
proof fn lemma_within_row(tb: PairTables, i: int, u: int)
    requires
        tb.proper(),
        0 <= i < tb.chrs.len(),
        tb.at(tb.start1(i)) <= u <= tb.at(tb.end1(i)),
    ensures
        0 <= u < tb.events().len(),
        tb.sweep()[u].chr == tb.chrs[i],
        tb.starts[i] <= tb.sweep()[u].pos <= tb.ends[i],
{
    lemma_layout(tb);
    let s = tb.at(tb.start1(i));
    let e = tb.at(tb.end1(i));
    assert(tb.sweep()[s] == tb.events()[tb.start1(i)]);
    assert(tb.sweep()[e] == tb.events()[tb.end1(i)]);
    lemma_ascends(tb, s, u);
    lemma_ascends(tb, u, e);
}

/// Groups ascend along the sweep, and positions ascend within a group.
proof fn lemma_ascends(tb: PairTables, a: int, b: int)
    requires
        tb.proper(),
        0 <= a <= b < tb.events().len(),
    ensures
        tb.sweep()[a].chr <= tb.sweep()[b].chr,
        tb.sweep()[a].chr == tb.sweep()[b].chr ==> tb.sweep()[a].pos <= tb.sweep()[b].pos,
{
    lemma_layout(tb);
    let order = stable_order(tb.keys());
    let keys = tb.keys();
    let ra = order[a] as int;
    let rb = order[b] as int;
    assert(tb.sweep()[a] == tb.events()[ra]);
    assert(tb.sweep()[b] == tb.events()[rb]);
    assert(keys[ra] == event_key(tb.events()[ra]));
    assert(keys[rb] == event_key(tb.events()[rb]));
    if a < b {
        assert(tb.at(ra) == a && tb.at(rb) == b);
        assert(row_lt(keys, ra, rb));
    }
}

/// While no row of the second table is open, none covers what lies between
/// one event of an open row of the first table and the next.
proof fn lemma_free_ahead(tb: PairTables, i: int, u: int)
    requires
        tb.proper(),
        0 <= i < tb.chrs.len(),
        tb.at(tb.start1(i)) <= u,
        u + 1 <= tb.at(tb.end1(i)),
        tb.open2(u + 1) =~= Set::<u32>::empty(),
    ensures
        tb.free(tb.chrs[i], tb.sweep()[u].pos as int, tb.sweep()[u + 1].pos as int),
{
    lemma_layout(tb);
    lemma_within_row(tb, i, u);
    lemma_within_row(tb, i, u + 1);
    let g = tb.chrs[i];
    let keys = tb.keys();
    let order = stable_order(keys);
    let ru = order[u] as int;
    let rv = order[u + 1] as int;
    assert(tb.sweep()[u] == tb.events()[ru]);
    assert(tb.sweep()[u + 1] == tb.events()[rv]);
    assert(keys[ru] == event_key(tb.events()[ru]));
    assert(keys[rv] == event_key(tb.events()[rv]));
    assert(tb.at(ru) == u && tb.at(rv) == u + 1);
    assert forall|x: int| tb.sweep()[u].pos <= x < tb.sweep()[u + 1].pos implies !#[trigger] tb.covered_by_second(
        g,
        x,
    ) by {
        if tb.covered_by_second(g, x) {
            let j = choose|j: int| 0 <= j < tb.chrs2.len() && #[trigger] tb.second_covers(j, g, x);
            let s2 = tb.start2(j);
            let e2 = tb.end2(j);
            assert(keys[s2] == event_key(tb.events()[s2]));
            assert(keys[e2] == event_key(tb.events()[e2]));
            assert(row_lt(keys, s2, rv));
            assert(tb.at(s2) < tb.at(rv));
            assert(row_lt(keys, ru, e2));
            assert(tb.at(ru) < tb.at(e2));
            assert(tb.open2(u + 1).contains(j as u32));
        }
    }
}

/// What the sweep holds of the open rows is right at every place.
pub proof fn lemma_captures(tb: PairTables, t: int)
    requires
        tb.proper(),
        0 <= t <= tb.events().len(),
    ensures
        tb.captures_right(captures(tb.sweep(), t), t),
        t < tb.events().len() ==> tb.captures_right(captures_met(tb.sweep(), t), t),
    decreases t,
{
    lemma_layout(tb);
    lemma_start_before_end(tb);
    let events = tb.sweep();
    let m = events.len() as int;
    lemma_open_rows(tb, t);
    if t == 0 {
        assert(captures(events, 0).dom() =~= tb.open1(0));
    } else {
        let s = t - 1;
        lemma_captures(tb, s);
        lemma_open_rows(tb, s);
        lemma_second_open(tb, s);
        let order = stable_order(tb.keys());
        let r = order[s] as int;
        assert(events[s] == tb.events()[r]);
        assert(tb.at(r) == s);
        lemma_event_kind(tb, r);
        let e = events[s];
        let met = captures_met(events, s);
        let now = captures(events, t);
        assert(tb.captures_right(met, s));
        if tb.open2(s).len() == 0 {
            assert(tb.open2(s) =~= Set::<u32>::empty());
        }
        assert(now.dom() =~= tb.open1(t)) by {
            assert(active_rows(events, t, true) == tb.open1(t));
            assert(met_rows(events, s, true) == tb.open1(s));
        }
        assert forall|i: u32| #[trigger] tb.open1(t).contains(i) implies (if tb.open2(t)
            =~= Set::<u32>::empty() {
            now[i] is Some && tb.captured_from(i as int, now[i]->0, t)
        } else {
            now[i] is None
        }) by {
            let ii = i as int;
            // the row is open across the event at place s
            assert(tb.at(tb.start1(ii)) <= s);
            assert(s + 1 <= tb.at(tb.end1(ii)));
            lemma_within_row(tb, ii, s);
            lemma_within_row(tb, ii, t);
            if tb.open2(t) =~= Set::<u32>::empty() {
                lemma_free_ahead(tb, ii, s);
                if !e.first_set && !e.is_start {
                    // the second table leaves off at this event
                    let j = e.idx as int;
                    assert(tb.starts2[j] < tb.ends2[j]);
                    assert(tb.second_covers(j, tb.chrs[ii], e.pos - 1));
                    assert(tb.open2(s).contains(e.idx));
                    assert(tb.open1(s).contains(i));
                } else if e.first_set && e.is_start && e.idx == i {
                    assert(tb.open2(s) =~= tb.open2(t));
                } else {
                    assert(tb.open2(s) =~= tb.open2(t));
                    assert(tb.open1(s).contains(i));
                    assert(tb.captured_from(ii, met[i]->0, s));
                }
            } else {
                if e.first_set {
                    assert(tb.open2(s) =~= tb.open2(t));
                    if !e.is_start || e.idx != i {
                        assert(tb.open1(s).contains(i));
                    }
                } else if e.is_start {
                    assert(tb.open1(s).contains(i));
                } else {
                    assert(tb.open1(s).contains(i));
                    assert(tb.open2(s).contains(e.idx));
                    assert(tb.open2(t) =~= tb.open2(s).remove(e.idx));
                }
            }
        }
    }
    if t < m {
        if group_changes(events, t) {
            lemma_nothing_open_at_group_change(tb, t);
            assert(captures_met(events, t).dom() =~= tb.open1(t));
        }
    }
}


impl PairTables {
    /// `p` is what is left of a row of the first table between two
    /// intervals of the second: a stretch of the row that no row of the
    /// second table covers, and that cannot be made longer. It begins where
    /// the row begins or where the second table leaves off, and ends where
    /// the row ends or where the second table sets in.
    pub open spec fn is_remainder(self, p: MinInterval) -> bool {
        let i = p.idx as int;
        let g = self.chrs[i];
        &&& p.idx < self.chrs.len()
        &&& self.starts[i] <= p.start < p.end <= self.ends[i]
        &&& self.free(g, p.start as int, p.end as int)
        &&& p.start == self.starts[i] || self.covered_by_second(g, p.start - 1)
        &&& p.end == self.ends[i] || self.covered_by_second(g, p.end as int)
    }
}

/// A stretch that may be captured up to a place begins where the remainder
/// that ends there begins.
proof fn lemma_one_beginning(tb: PairTables, p: MinInterval, a: i64, t: int)
    requires
        tb.proper(),
        tb.is_remainder(p),
        0 <= t < tb.events().len(),
        tb.sweep()[t].pos == p.end,
        tb.captured_from(p.idx as int, a, t),
    ensures
        a == p.start,
{
    let g = tb.chrs[p.idx as int];
    if p.start < a {
        assert(tb.covered_by_second(g, a - 1));
        assert(p.start <= a - 1 < p.end);
    }
    if a < p.start {
        assert(tb.covered_by_second(g, p.start - 1));
        assert(a <= p.start - 1 < tb.sweep()[t].pos);
    }
}

/// The first place at or behind `lo` at which a row of the second table
/// starts at position `b` of group `g`, given that one does at place `hi`.
proof fn lemma_first_start_at(tb: PairTables, g: i64, b: i64, lo: int, hi: int) -> (t: int)
    requires
        0 <= lo <= hi < tb.events().len(),
        is_second_start_at(tb.sweep()[hi], g, b),
    ensures
        lo <= t <= hi,
        is_second_start_at(tb.sweep()[t], g, b),
        forall|u: int| lo <= u < t ==> !is_second_start_at(#[trigger] tb.sweep()[u], g, b),
    decreases hi - lo,
{
    if is_second_start_at(tb.sweep()[lo], g, b) {
        lo
    } else {
        lemma_first_start_at(tb, g, b, lo + 1, hi)
    }
}

/// The event is the start of a row of the second table at position `b` of group `g`.
pub open spec fn is_second_start_at(e: Event, g: i64, b: i64) -> bool {
    e.is_start && !e.first_set && e.chr == g && e.pos == b
}

/// What an event completes is a remainder.
proof fn lemma_piece_is_remainder(tb: PairTables, t: int, p: MinInterval)
    requires
        tb.proper(),
        0 <= t < tb.events().len(),
        pieces_at(tb.sweep(), t).contains(p),
    ensures
        tb.is_remainder(p),
{
    lemma_layout(tb);
    lemma_start_before_end(tb);
    lemma_captures(tb, t);
    lemma_second_open(tb, t);
    lemma_open_rows(tb, t);
    let events = tb.sweep();
    let order = stable_order(tb.keys());
    let r = order[t] as int;
    assert(events[t] == tb.events()[r]);
    assert(tb.at(r) == t);
    lemma_event_kind(tb, r);
    let e = events[t];
    let met = captures_met(events, t);
    assert(tb.captures_right(met, t));
    assert(met.dom().contains(p.idx));
    assert(tb.open1(t).contains(p.idx));
    let i = p.idx as int;
    lemma_within_row(tb, i, t);
    if tb.open2(t).len() == 0 {
        assert(tb.open2(t) =~= Set::<u32>::empty());
    }
    if !e.first_set {
        let j = e.idx as int;
        assert(tb.starts2[j] < tb.ends2[j]);
        assert(tb.second_covers(j, tb.chrs[i], p.end as int));
    }
}

/// Each remainder is completed by an event.
proof fn lemma_remainder_is_piece(tb: PairTables, p: MinInterval) -> (t: int)
    requires
        tb.proper(),
        tb.is_remainder(p),
    ensures
        0 <= t < tb.events().len(),
        pieces_at(tb.sweep(), t).contains(p),
{
    lemma_layout(tb);
    lemma_start_before_end(tb);
    let events = tb.sweep();
    let keys = tb.keys();
    let order = stable_order(keys);
    let i = p.idx as int;
    let g = tb.chrs[i];
    let s1 = tb.start1(i);
    let e1 = tb.end1(i);
    assert(keys[s1] == event_key(tb.events()[s1]));
    assert(keys[e1] == event_key(tb.events()[e1]));
    assert(events[tb.at(e1)] == tb.events()[e1]);
    let t = if p.end == tb.ends[i] {
        tb.at(e1)
    } else {
        let j = choose|j: int|
            0 <= j < tb.chrs2.len() && #[trigger] tb.second_covers(j, g, p.end as int);
        // the row starts at the end of the remainder, for nothing covers the position before it
        assert(!tb.covered_by_second(g, p.end - 1));
        assert(!tb.second_covers(j, g, p.end - 1));
        let hi = tb.at(tb.start2(j));
        assert(events[hi] == tb.events()[tb.start2(j)]);
        lemma_first_start_at(tb, g, p.end, 0, hi)
    };
    let r = order[t] as int;
    assert(events[t] == tb.events()[r]);
    assert(tb.at(r) == t);
    assert(keys[r] == event_key(tb.events()[r]));
    lemma_event_kind(tb, r);
    lemma_captures(tb, t);
    lemma_second_open(tb, t);
    lemma_open_rows(tb, t);
    // the row is open at place t
    assert(tb.at(s1) < t <= tb.at(e1)) by {
        if p.end != tb.ends[i] {
            assert(row_lt(keys, s1, r));
            assert(row_lt(keys, r, e1));
        }
    }
    assert(tb.open1(t).contains(p.idx));
    // no row of the second table is open at place t
    assert forall|j: u32| !tb.open2(t).contains(j) by {
        if tb.open2(t).contains(j) {
            let jj = j as int;
            let s2 = tb.start2(jj);
            let e2 = tb.end2(jj);
            assert(keys[s2] == event_key(tb.events()[s2]));
            assert(keys[e2] == event_key(tb.events()[e2]));
            assert(events[tb.at(s2)] == tb.events()[s2]);
            assert(tb.at(s2) < t);
            assert(tb.at(e2) != t) by {
                if tb.at(e2) == t {
                    lemma_places(order, keys);
                }
            }
            assert(row_lt(keys, s2, r));
            assert(row_lt(keys, r, e2));
            if p.end == tb.ends[i] {
                let x = if tb.starts2[jj] > p.start { tb.starts2[jj] as int } else { p.start as int };
                assert(tb.second_covers(jj, g, x));
                assert(tb.covered_by_second(g, x));
            } else {
                assert(!is_second_start_at(events[tb.at(s2)], g, p.end));
                assert(tb.second_covers(jj, g, p.end - 1));
                assert(tb.covered_by_second(g, p.end - 1));
            }
        }
    }
    assert(tb.open2(t) =~= Set::<u32>::empty());
    let met = captures_met(events, t);
    assert(tb.captures_right(met, t));
    lemma_one_beginning(tb, p, met[p.idx]->0, t);
    if p.end != tb.ends[i] {
        assert(pieces_at(events, t).contains(p));
    } else {
        assert(p == MinInterval { start: met[p.idx]->0, end: events[t].pos, idx: p.idx });
    }
    t
}

/// Subtraction is right. For tables of proper intervals, whatever the sweep
/// completes is what is left of the rows of the first table: it holds a
/// stretch exactly if the stretch is a remainder.
pub proof fn lemma_subtract_leaves_remainders(tb: PairTables, found: Seq<MinInterval>)
    requires
        tb.proper(),
        lists_sets(found, piece_sets(tb.sweep())),
    ensures
        forall|p: MinInterval| #[trigger] found.contains(p) <==> tb.is_remainder(p),
{
    lemma_layout(tb);
    let events = tb.sweep();
    let m = events.len() as int;
    let sets = piece_sets(events);
    let cuts = choose|cuts: Seq<int>| lists_in_turn(found, cuts, sets);
    assert forall|p: MinInterval| #[trigger] found.contains(p) <==> tb.is_remainder(p) by {
        if found.contains(p) {
            let q = choose|q: int| 0 <= q < found.len() && found[q] == p;
            let t = lemma_block_holding(found, cuts, sets, q, m);
            assert(block_lists(found, cuts, t, sets[t]));
            let block = found.subrange(cuts[t], cuts[t + 1]);
            assert(block[q - cuts[t]] == p);
            assert(block.to_set().contains(p));
            assert(sets[t] == pieces_at(events, t));
            lemma_piece_is_remainder(tb, t, p);
        }
        if tb.is_remainder(p) {
            let t = lemma_remainder_is_piece(tb, p);
            assert(block_lists(found, cuts, t, sets[t]));
            assert(sets[t] == pieces_at(events, t));
            let block = found.subrange(cuts[t], cuts[t + 1]);
            assert(block.to_set().contains(p));
            let q = choose|q: int| 0 <= q < block.len() && block[q] == p;
            assert(found[cuts[t] + q] == p);
        }
    }
}

/// The set whose block holds item `q` of a listing.
proof fn lemma_block_holding<T>(
    out: Seq<T>,
    cuts: Seq<int>,
    sets: Seq<Set<T>>,
    q: int,
    hi: int,
) -> (t: int)
    requires
        lists_in_turn(out, cuts, sets),
        0 <= hi <= sets.len(),
        0 <= q < cuts[hi],
    ensures
        0 <= t < hi,
        cuts[t] <= q < cuts[t + 1],
    decreases hi,
{
    assert(hi > 0);
    assert(block_lists(out, cuts, hi - 1, sets[hi - 1]));
    if q >= cuts[hi - 1] {
        hi - 1
    } else {
        lemma_block_holding(out, cuts, sets, q, hi - 1)
    }
}

/// A piece that an event completes ends where the event lies; its row is
/// open there and has captured from the start of the piece on, and no row
/// of the second table is open.
proof fn lemma_piece_ends_here(tb: PairTables, t: int, p: MinInterval)
    requires
        tb.proper(),
        0 <= t < tb.events().len(),
        pieces_at(tb.sweep(), t).contains(p),
    ensures
        p.end == tb.sweep()[t].pos,
        p.idx < tb.chrs.len(),
        tb.open1(t).contains(p.idx),
        tb.sweep()[t].chr == tb.chrs[p.idx as int],
        tb.open2(t) =~= Set::<u32>::empty(),
        captures_met(tb.sweep(), t).contains_key(p.idx),
        captures_met(tb.sweep(), t)[p.idx] == Some(p.start),
{
    lemma_layout(tb);
    lemma_captures(tb, t);
    lemma_second_open(tb, t);
    let met = captures_met(tb.sweep(), t);
    assert(tb.captures_right(met, t));
    assert(met.dom().contains(p.idx));
    assert(tb.open1(t).contains(p.idx));
    lemma_within_row(tb, p.idx as int, t);
    if tb.open2(t).len() == 0 {
        assert(tb.open2(t) =~= Set::<u32>::empty());
    }
}

/// A piece is completed at one place only.
proof fn lemma_completed_once(tb: PairTables, ta: int, tb2: int, p: MinInterval)
    requires
        tb.proper(),
        0 <= ta <= tb2 < tb.events().len(),
        pieces_at(tb.sweep(), ta).contains(p),
        pieces_at(tb.sweep(), tb2).contains(p),
    ensures
        ta == tb2,
{
    if ta == tb2 {
        return ;
    }
    lemma_layout(tb);
    lemma_start_before_end(tb);
    lemma_piece_ends_here(tb, ta, p);
    lemma_piece_ends_here(tb, tb2, p);
    let events = tb.sweep();
    let order = stable_order(tb.keys());
    let r = order[ta] as int;
    assert(events[ta] == tb.events()[r]);
    assert(tb.at(r) == ta);
    lemma_event_kind(tb, r);
    let e = events[ta];
    if e.first_set {
        assert(r == tb.end1(p.idx as int));
    } else {
        let j = e.idx as int;
        let u = tb.at(tb.end2(j));
        assert(events[u] == tb.events()[tb.end2(j)]);
        assert(tb.starts2[j] < tb.ends2[j]);
        if u <= tb2 {
            lemma_ascends(tb, u, tb2);
            let r2 = order[tb2] as int;
            assert(events[tb2] == tb.events()[r2]);
            assert(tb.at(r2) == tb2);
            lemma_event_kind(tb, r2);
        } else {
            assert(tb.open2(tb2).contains(j as u32));
        }
    }
}

/// Of two remainders of one row, the one that ends first ends at or before
/// the start of the other.
proof fn lemma_remainders_lie_apart(tb: PairTables, p: MinInterval, q: MinInterval)
    requires
        tb.is_remainder(p),
        tb.is_remainder(q),
        p.idx == q.idx,
        p != q,
        p.end <= q.end,
    ensures
        p.end <= q.start,
{
    let g = tb.chrs[p.idx as int];
    if q.start < p.end {
        if p.start < q.start {
            assert(tb.covered_by_second(g, q.start - 1));
            assert(p.start <= q.start - 1 < p.end);
        } else if q.start < p.start {
            assert(tb.covered_by_second(g, p.start - 1));
            assert(q.start <= p.start - 1 < q.end);
        } else {
            assert(tb.covered_by_second(g, p.end as int));
            assert(q.start <= p.end < q.end);
        }
    }
}

/// The pieces are in the order of their rows, and those of one row lie
/// apart, from left to right.
pub open spec fn in_row_order(pieces: Seq<MinInterval>) -> bool {
    forall|a: int, b: int|
        0 <= a < b < pieces.len() ==> (#[trigger] pieces[a]).idx <= (#[trigger] pieces[b]).idx && (
        pieces[a].idx == pieces[b].idx ==> pieces[a].end <= pieces[b].start)
}

/// Of two pieces of one row that the sweep completes, the one that it
/// lists first lies to the left of the other.
proof fn lemma_listed_left_to_right(tb: PairTables, found: Seq<MinInterval>, a: int, b: int)
    requires
        tb.proper(),
        lists_sets(found, piece_sets(tb.sweep())),
        0 <= a < b < found.len(),
        found[a].idx == found[b].idx,
    ensures
        found[a].end <= found[b].start,
{
    lemma_layout(tb);
    let events = tb.sweep();
    let m = events.len() as int;
    let sets = piece_sets(events);
    let cuts = choose|cuts: Seq<int>| lists_in_turn(found, cuts, sets);
    let ta = lemma_block_holding(found, cuts, sets, a, m);
    let tb2 = lemma_block_holding(found, cuts, sets, b, m);
    assert(block_lists(found, cuts, ta, sets[ta]));
    assert(block_lists(found, cuts, tb2, sets[tb2]));
    let block_a = found.subrange(cuts[ta], cuts[ta + 1]);
    let block_b = found.subrange(cuts[tb2], cuts[tb2 + 1]);
    assert(block_a[a - cuts[ta]] == found[a]);
    assert(block_b[b - cuts[tb2]] == found[b]);
    assert(block_a.to_set().contains(found[a]));
    assert(block_b.to_set().contains(found[b]));
    assert(sets[ta] == pieces_at(events, ta));
    assert(sets[tb2] == pieces_at(events, tb2));
    lemma_piece_ends_here(tb, ta, found[a]);
    lemma_piece_ends_here(tb, tb2, found[b]);
    lemma_piece_is_remainder(tb, ta, found[a]);
    lemma_piece_is_remainder(tb, tb2, found[b]);
    if ta > tb2 {
        assert(block_lists(found, cuts, ta - 1, sets[ta - 1]));
        lemma_cuts_ascend(found, cuts, sets, tb2 + 1, ta);
    }
    if ta == tb2 {
        assert(found[a] == found[b]);
        assert(block_a[a - cuts[ta]] != block_a[b - cuts[ta]]);
    } else {
        if found[a] == found[b] {
            lemma_completed_once(tb, ta, tb2, found[a]);
        }
        lemma_ascends(tb, ta, tb2);
        lemma_remainders_lie_apart(tb, found[a], found[b]);
    }
}

/// The cuts of a listing ascend.
proof fn lemma_cuts_ascend<T>(out: Seq<T>, cuts: Seq<int>, sets: Seq<Set<T>>, lo: int, hi: int)
    requires
        lists_in_turn(out, cuts, sets),
        0 <= lo <= hi <= sets.len(),
    ensures
        cuts[lo] <= cuts[hi],
    decreases hi - lo,
{
    if lo < hi {
        assert(block_lists(out, cuts, hi - 1, sets[hi - 1]));
        lemma_cuts_ascend(out, cuts, sets, lo, hi - 1);
    }
}

/// Subtraction reports in order: for tables of proper intervals, what the
/// sweep completes is, put in the order of the rows, also in the order of
/// the positions within each row, and no two pieces of a row meet.
pub proof fn lemma_subtract_in_order(tb: PairTables, found: Seq<MinInterval>)
    requires
        tb.proper(),
        lists_sets(found, piece_sets(tb.sweep())),
        found.len() <= usize::MAX,
    ensures
        in_row_order(by_row(found)),
{
    let keys = Seq::new(found.len(), |k: int| (found[k].idx as i64, 0i64, 0i64));
    lemma_stable_order(keys);
    let order = stable_order(keys);
    let out = by_row(found);
    assert forall|a: int, b: int| 0 <= a < b < out.len() implies (#[trigger] out[a]).idx <= (
    #[trigger] out[b]).idx && (out[a].idx == out[b].idx ==> out[a].end <= out[b].start) by {
        let qa = order[a] as int;
        let qb = order[b] as int;
        assert(row_lt(keys, qa, qb));
        assert(out[a] == found[qa] && out[b] == found[qb]);
        if out[a].idx == out[b].idx {
            assert(qa < qb);
            lemma_listed_left_to_right(tb, found, qa, qb);
        }
    }
}

} // verus!
