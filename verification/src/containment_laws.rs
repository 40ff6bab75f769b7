//! What the containment sweep finds, said without the sweep: for tables of
//! proper intervals, a row of the first table and a row of the second are
//! paired exactly if the interval of the first lies within that of the
//! second.

use crate::active::{block_lists, lists_in_turn};
use crate::overlap_laws::{
    lemma_event_kind, lemma_layout, lemma_pairs_at, lemma_pairs_at_rows, PairTables,
};
use crate::overlaps::{
    active_rows, active_spans, contained_pairs_at, contained_sets, group_changes,
    is_containment_output, lies_within, max_group_changes, met_rows, met_spans, pairs_at,
};
use crate::radix::stable_order;
use crate::ruranges_structs::{Event, MaxEvent, OverlapPair};
use crate::sorts::{endpoint_max_events, max_event_key, sorted_max_events};
use vstd::prelude::*;

verus! {

/// An event without the ends of its interval.
pub open spec fn plain(m: MaxEvent) -> Event {
    Event { chr: m.chr, pos: m.pos, is_start: m.is_start, first_set: m.first_set, idx: m.idx }
}

/// The interval of the row that an event belongs to.
pub open spec fn span_of(tb: PairTables, first_set: bool, idx: u32) -> (i64, i64) {
    if first_set {
        (tb.starts[idx as int], tb.ends[idx as int])
    } else {
        (tb.starts2[idx as int], tb.ends2[idx as int])
    }
}

/// The events of both tables as they are built, each with both ends of its
/// interval.
pub open spec fn max_events(tb: PairTables) -> Seq<MaxEvent> {
    endpoint_max_events(tb.chrs, tb.starts, tb.ends, true) + endpoint_max_events(
        tb.chrs2,
        tb.starts2,
        tb.ends2,
        false,
    )
}

/// These events in sweep order.
pub open spec fn max_sweep(tb: PairTables) -> Seq<MaxEvent> {
    sorted_max_events(max_events(tb))
}

/// Row `i` of the first table lies within row `j` of the second: the two
/// lie in one group, and the interval of the one within that of the other.
pub open spec fn within(tb: PairTables, i: int, j: int) -> bool {
    &&& tb.chrs[i] == tb.chrs2[j]
    &&& tb.starts2[j] <= tb.starts[i]
    &&& tb.ends[i] <= tb.ends2[j]
}

/// The events that carry their intervals are, in sweep order, the plain
/// events in sweep order, each with the interval of its row.
pub proof fn lemma_max_sweep(tb: PairTables)
    requires
        tb.proper(),
    ensures
        max_sweep(tb).len() == tb.events().len(),
        forall|t: int|
            0 <= t < tb.events().len() ==> plain(#[trigger] max_sweep(tb)[t]) == tb.sweep()[t],
        forall|t: int|
            0 <= t < tb.events().len() ==> {
                let m = #[trigger] max_sweep(tb)[t];
                (m.start, m.end) == span_of(tb, m.first_set, m.idx) && (m.first_set ==> m.idx
                    < tb.chrs.len()) && (!m.first_set ==> m.idx < tb.chrs2.len())
            },
{
    lemma_layout(tb);
    let wide = max_events(tb);
    let keys = Seq::new(wide.len(), |r: int| max_event_key(wide[r]));
    let n1 = tb.chrs.len() as int;
    assert(wide.len() == tb.events().len());
    assert forall|r: int| 0 <= r < wide.len() implies plain(#[trigger] wide[r]) == tb.events()[r]
        && (wide[r].start, wide[r].end) == span_of(tb, wide[r].first_set, wide[r].idx) by {
        lemma_event_kind(tb, r);
        if r < 2 * n1 {
            assert(wide[r] == endpoint_max_events(tb.chrs, tb.starts, tb.ends, true)[r]);
        } else {
            assert(wide[r] == endpoint_max_events(tb.chrs2, tb.starts2, tb.ends2, false)[r - 2
                * n1]);
        }
    }
    assert(keys =~= tb.keys());
    let order = stable_order(tb.keys());
    assert forall|t: int| 0 <= t < tb.events().len() implies plain(#[trigger] max_sweep(tb)[t])
        == tb.sweep()[t] && {
        let m = max_sweep(tb)[t];
        (m.start, m.end) == span_of(tb, m.first_set, m.idx) && (m.first_set ==> m.idx
            < tb.chrs.len()) && (!m.first_set ==> m.idx < tb.chrs2.len())
    } by {
        let r = order[t] as int;
        assert(max_sweep(tb)[t] == wide[r]);
        assert(tb.sweep()[t] == tb.events()[r]);
        lemma_event_kind(tb, r);
    }
}

/// The rows that the containment sweep holds open are those that the plain
/// sweep holds open, each with its interval.
proof fn lemma_met_spans(tb: PairTables, t: int, first_set: bool)
    requires
        tb.proper(),
        0 <= t <= tb.events().len(),
    ensures
        active_spans(max_sweep(tb), t, first_set).dom() =~= active_rows(tb.sweep(), t, first_set),
        forall|i: u32| #[trigger]
            active_spans(max_sweep(tb), t, first_set).contains_key(i) ==> active_spans(
                max_sweep(tb),
                t,
                first_set,
            )[i] == span_of(tb, first_set, i),
        t < tb.events().len() ==> met_spans(max_sweep(tb), t, first_set).dom() =~= met_rows(
            tb.sweep(),
            t,
            first_set,
        ),
        t < tb.events().len() ==> forall|i: u32| #[trigger]
            met_spans(max_sweep(tb), t, first_set).contains_key(i) ==> met_spans(
                max_sweep(tb),
                t,
                first_set,
            )[i] == span_of(tb, first_set, i),
    decreases t,
{
    lemma_layout(tb);
    lemma_max_sweep(tb);
    let wide = max_sweep(tb);
    let events = tb.sweep();
    if t > 0 {
        lemma_met_spans(tb, t - 1, first_set);
        assert(plain(wide[t - 1]) == events[t - 1]);
        if t - 1 > 0 {
            assert(plain(wide[t - 2]) == events[t - 2]);
        }
        assert(max_group_changes(wide, t - 1) == group_changes(events, t - 1));
        if t < tb.events().len() {
            assert(plain(wide[t]) == events[t]);
            assert(max_group_changes(wide, t) == group_changes(events, t));
        }
    }
}

/// The containment sweep gives, at each event, the pairs that the plain
/// sweep gives there and of which the first interval lies within the second.
proof fn lemma_contained_pairs_at(tb: PairTables, t: int, p: OverlapPair)
    requires
        tb.proper(),
        0 <= t < tb.events().len(),
    ensures
        contained_pairs_at(max_sweep(tb), t).contains(p) <==> (pairs_at(tb.sweep(), t).contains(p)
            && lies_within(span_of(tb, true, p.idx), span_of(tb, false, p.idx2))),
{
    lemma_max_sweep(tb);
    lemma_met_spans(tb, t, true);
    lemma_met_spans(tb, t, false);
    let m = max_sweep(tb)[t];
    assert(plain(m) == tb.sweep()[t]);
}

/// The event whose block holds item `q` of a listing.
proof fn lemma_block_holds(
    sets: Seq<Set<OverlapPair>>,
    out: Seq<OverlapPair>,
    cuts: Seq<int>,
    q: int,
    hi: int,
) -> (t: int)
    requires
        lists_in_turn(out, cuts, sets),
        0 <= hi <= sets.len(),
        0 <= q < cuts[hi],
    ensures
        0 <= t < hi,
        cuts[t] <= q < cuts[t + 1],
    decreases hi,
{
    assert(hi > 0);
    assert(block_lists(out, cuts, hi - 1, sets[hi - 1]));
    if q >= cuts[hi - 1] {
        hi - 1
    } else {
        lemma_block_holds(sets, out, cuts, q, hi - 1)
    }
}

/// `found` holds the pairs of rows of the two tables of which the first
/// lies within the second, each once.
pub open spec fn holds_contained(tb: PairTables, found: Seq<OverlapPair>) -> bool {
    &&& found.no_duplicates()
    &&& forall|p: OverlapPair| #[trigger]
        found.contains(p) <==> (p.idx < tb.chrs.len() && p.idx2 < tb.chrs2.len() && within(
            tb,
            p.idx as int,
            p.idx2 as int,
        ))
}

/// The containment sweep is right: for tables of proper intervals, whatever
/// the sweep gives holds the pair of a row of the first table and a row of
/// the second exactly if the first lies within the second, and holds no
/// pair twice.
pub proof fn lemma_sweep_finds_contained(tb: PairTables, out: Seq<OverlapPair>)
    requires
        tb.proper(),
        is_containment_output(max_sweep(tb), out),
    ensures
        forall|p: OverlapPair| #[trigger]
            out.contains(p) <==> (p.idx < tb.chrs.len() && p.idx2 < tb.chrs2.len() && within(
                tb,
                p.idx as int,
                p.idx2 as int,
            )),
        out.no_duplicates(),
{
    lemma_layout(tb);
    lemma_max_sweep(tb);
    let wide = max_sweep(tb);
    let events = tb.sweep();
    let m = events.len() as int;
    let sets = contained_sets(wide);
    let cuts = choose|cuts: Seq<int>| lists_in_turn(out, cuts, sets);
    assert forall|p: OverlapPair| #[trigger]
        out.contains(p) <==> (p.idx < tb.chrs.len() && p.idx2 < tb.chrs2.len() && within(
            tb,
            p.idx as int,
            p.idx2 as int,
        )) by {
        if out.contains(p) {
            let q = choose|q: int| 0 <= q < out.len() && out[q] == p;
            let t = lemma_block_holds(sets, out, cuts, q, m);
            assert(block_lists(out, cuts, t, sets[t]));
            let block = out.subrange(cuts[t], cuts[t + 1]);
            assert(block[q - cuts[t]] == p);
            assert(block.to_set().contains(p));
            assert(sets[t] == contained_pairs_at(wide, t));
            lemma_contained_pairs_at(tb, t, p);
            lemma_pairs_at_rows(tb, t, p);
            lemma_pairs_at(tb, t, p.idx as int, p.idx2 as int);
        }
        if p.idx < tb.chrs.len() && p.idx2 < tb.chrs2.len() && within(
            tb,
            p.idx as int,
            p.idx2 as int,
        ) {
            let i = p.idx as int;
            let j = p.idx2 as int;
            assert(tb.starts[i] < tb.ends[i] && tb.starts2[j] < tb.ends2[j]);
            assert(tb.overlap(i, j));
            let t = tb.meet(i, j);
            assert(0 <= tb.at(tb.start1(i)) < m);
            assert(0 <= tb.at(tb.start2(j)) < m);
            lemma_pairs_at(tb, t, i, j);
            lemma_contained_pairs_at(tb, t, p);
            assert(block_lists(out, cuts, t, sets[t]));
            assert(sets[t] == contained_pairs_at(wide, t));
            let block = out.subrange(cuts[t], cuts[t + 1]);
            assert(block.to_set().contains(p));
            let q = choose|q: int| 0 <= q < block.len() && block[q] == p;
            assert(out[cuts[t] + q] == p);
        }
    }
    assert forall|a: int, b: int| 0 <= a < out.len() && 0 <= b < out.len() && a != b implies out[a]
        != out[b] by {
        if out[a] == out[b] {
            let p = out[a];
            let ta = lemma_block_holds(sets, out, cuts, a, m);
            let tb2 = lemma_block_holds(sets, out, cuts, b, m);
            assert(block_lists(out, cuts, ta, sets[ta]));
            assert(block_lists(out, cuts, tb2, sets[tb2]));
            let block_a = out.subrange(cuts[ta], cuts[ta + 1]);
            let block_b = out.subrange(cuts[tb2], cuts[tb2 + 1]);
            assert(block_a[a - cuts[ta]] == p);
            assert(block_b[b - cuts[tb2]] == p);
            assert(block_a.to_set().contains(p));
            assert(block_b.to_set().contains(p));
            assert(sets[ta] == contained_pairs_at(wide, ta));
            assert(sets[tb2] == contained_pairs_at(wide, tb2));
            lemma_contained_pairs_at(tb, ta, p);
            lemma_contained_pairs_at(tb, tb2, p);
            lemma_pairs_at_rows(tb, ta, p);
            lemma_pairs_at(tb, ta, p.idx as int, p.idx2 as int);
            lemma_pairs_at(tb, tb2, p.idx as int, p.idx2 as int);
            assert(ta == tb2);
            assert(block_a[a - cuts[ta]] != block_a[b - cuts[ta]]);
        }
    }
}

} // verus!
