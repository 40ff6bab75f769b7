//! Subtraction: what is left of the intervals of one table where the
//! intervals of another are taken away.

use crate::active::{
    block_lists, is_listing, keys_of, lemma_next_listed, lists_in_turn, lists_sets,
    map_hashes_alike, new_row_map,
};
use crate::overlap_laws::PairTables;
use crate::overlaps::group_changes;
use crate::radix::{
    lemma_reorder_keeps_all, lemma_reorder_members, reorder, sort_rows, stable_order,
};
use crate::subtract_laws::{lemma_subtract_in_order, lemma_subtract_leaves_remainders};
use crate::ruranges_structs::{Event, GroupType, MinInterval, PositionType};
use crate::sorts::{build_sorted_events_idxs, pair_events, shift, sorted_events};
use rustc_hash::FxHashMap;
use vstd::prelude::*;
use vstd::std_specs::hash::*;

verus! {

/// How many intervals of the second table are open once the first `t`
/// events are done.
pub open spec fn second_open(events: Seq<Event>, t: int) -> int
    decreases t, 0nat,
{
    if t <= 0 {
        0
    } else {
        let e = events[t - 1];
        let met = second_open_met(events, t - 1);
        if e.first_set {
            met
        } else if e.is_start {
            met + 1
        } else {
            met - 1
        }
    }
}

/// How many intervals of the second table event `t` finds open.
pub open spec fn second_open_met(events: Seq<Event>, t: int) -> int
    decreases t, 1nat,
{
    if t <= 0 || group_changes(events, t) {
        0
    } else {
        second_open(events, t)
    }
}

/// Every open row with nothing being captured.
pub open spec fn all_closed(m: Map<u32, Option<i64>>) -> Map<u32, Option<i64>> {
    Map::new(|k: u32| m.contains_key(k), |k: u32| None::<i64>)
}

/// Every open row that captures nothing set to capture from `pos` on.
pub open spec fn all_reopened(m: Map<u32, Option<i64>>, pos: i64) -> Map<u32, Option<i64>> {
    Map::new(|k: u32| m.contains_key(k), |k: u32| if m[k] is None { Some(pos) } else { m[k] })
}

/// The open rows of the first table once the first `t` events are done,
/// each with the position from which on a piece of it is being captured, if
/// one is. Pieces are captured while no interval of the second table is open.
pub open spec fn captures(events: Seq<Event>, t: int) -> Map<u32, Option<i64>>
    decreases t, 0nat,
{
    if t <= 0 {
        Map::empty()
    } else {
        let e = events[t - 1];
        let met = captures_met(events, t - 1);
        let open2 = second_open_met(events, t - 1);
        if e.first_set {
            if e.is_start {
                met.insert(e.idx, if open2 == 0 { Some(e.pos) } else { None })
            } else {
                met.remove(e.idx)
            }
        } else if e.is_start {
            if open2 + 1 == 1 {
                all_closed(met)
            } else {
                met
            }
        } else {
            if open2 - 1 == 0 {
                all_reopened(met, e.pos)
            } else {
                met
            }
        }
    }
}

/// The captures that event `t` finds.
pub open spec fn captures_met(events: Seq<Event>, t: int) -> Map<u32, Option<i64>>
    decreases t, 1nat,
{
    if t <= 0 || group_changes(events, t) {
        Map::empty()
    } else {
        captures(events, t)
    }
}

/// The pieces that end at position `pos` when the captures of `met` are
/// closed: one for each row that has captured from before `pos` on.
pub open spec fn closed_pieces(met: Map<u32, Option<i64>>, pos: i64) -> Set<MinInterval> {
    Set::new(
        |p: MinInterval|
            met.contains_key(p.idx) && met[p.idx] == Some(p.start) && p.start < pos && p.end == pos,
    )
}

/// The pieces that event `t` completes. The end of a row of the first table
/// completes the piece that the row is capturing. The start of an interval
/// of the second table that finds none open completes the pieces of all
/// rows that are capturing. A piece of no length is left out.
pub open spec fn pieces_at(events: Seq<Event>, t: int) -> Set<MinInterval> {
    let e = events[t];
    let met = captures_met(events, t);
    if e.first_set && !e.is_start {
        if met.contains_key(e.idx) && met[e.idx] is Some && met[e.idx]->0 < e.pos {
            set![MinInterval { start: met[e.idx]->0, end: e.pos, idx: e.idx }]
        } else {
            Set::empty()
        }
    } else if !e.first_set && e.is_start && second_open_met(events, t) + 1 == 1 {
        closed_pieces(met, e.pos)
    } else {
        Set::empty()
    }
}

/// The sets of pieces of all events.
pub open spec fn piece_sets(events: Seq<Event>) -> Seq<Set<MinInterval>> {
    Seq::new(events.len(), |t: int| pieces_at(events, t))
}

/// The three columns name the piece `p` at one place.
pub open spec fn names_piece(idx: Seq<u32>, starts: Seq<i64>, ends: Seq<i64>, p: MinInterval) -> bool {
    exists|k: int|
        0 <= k < idx.len() && #[trigger] idx[k] == p.idx && starts[k] == p.start && ends[k]
            == p.end
}

/// The three columns are in the order of the rows, and the pieces of one
/// row lie apart, from left to right.
pub open spec fn names_in_row_order(idx: Seq<u32>, starts: Seq<i64>, ends: Seq<i64>) -> bool {
    forall|a: int, b: int|
        0 <= a < b < idx.len() ==> (#[trigger] idx[a]) <= (#[trigger] idx[b]) && (idx[a] == idx[b]
            ==> ends[a] <= starts[b])
}

/// The two tables of a subtraction, as they are.
pub open spec fn plain_tables(
    chrs1: Seq<i64>,
    starts1: Seq<i64>,
    ends1: Seq<i64>,
    chrs2: Seq<i64>,
    starts2: Seq<i64>,
    ends2: Seq<i64>,
) -> PairTables {
    PairTables { chrs: chrs1, starts: starts1, ends: ends1, chrs2, starts2, ends2 }
}

/// The pieces by row, pieces of one row in their order.
pub open spec fn by_row(pieces: Seq<MinInterval>) -> Seq<MinInterval> {
    reorder(
        pieces,
        stable_order(Seq::new(pieces.len(), |k: int| (pieces[k].idx as i64, 0i64, 0i64))),
    )
}

proof fn lemma_second_open_bounds(events: Seq<Event>, t: int)
    requires
        0 <= t,
    ensures
        -t <= second_open(events, t) <= t,
        -t <= second_open_met(events, t) <= t,
    decreases t,
{
    if t > 0 {
        lemma_second_open_bounds(events, t - 1);
    }
}

/// Appends the pieces that end at `pos` when the captures of `open` are closed.
fn push_closed_pieces(
    out: &mut Vec<MinInterval>,
    open: &FxHashMap<u32, Option<i64>>,
    pos: i64,
) -> (block: Ghost<Seq<MinInterval>>)
    requires
        map_hashes_alike(open),
    ensures
        final(out)@ == old(out)@ + block@,
        is_listing(block@, closed_pieces(open@, pos)),
{
    broadcast use group_hash_axioms;

    let ghost before = out@;
    let ghost mut block: Seq<MinInterval> = Seq::empty();
    let keys = keys_of(open);
    let mut q: usize = 0;
    while q < keys.len()
        invariant
            q <= keys.len(),
            map_hashes_alike(open),
            is_listing(keys@, open@.dom()),
            out@ == before + block,
            block.no_duplicates(),
            forall|p: MinInterval| #[trigger]
                block.contains(p) <==> (closed_pieces(open@, pos).contains(p) && exists|j: int|
                    0 <= j < q && p.idx == #[trigger] keys[j]),
        decreases keys.len() - q,
    {
        let row = keys[q];
        assert(keys@.to_set().contains(row));
        let held = open.get(&row);
        assert(held is Some);
        let ghost was = block;
        let ghost mut pushed = false;
        let ghost mut piece = MinInterval { start: 0, end: 0, idx: 0 };
        match *held.unwrap() {
            Some(start_pos) => {
                if start_pos < pos {
                    let p = MinInterval { start: start_pos, end: pos, idx: row };
                    out.push(p);
                    proof {
                        if was.contains(p) {
                            let j = choose|j: int| 0 <= j < q && p.idx == #[trigger] keys[j];
                            assert(keys[j] == keys[q as int]);
                        }
                        block = was.push(p);
                        pushed = true;
                        piece = p;
                        assert(out@ =~= before + block);
                    }
                }
            },
            None => {},
        }
        proof {
            assert forall|p: MinInterval| #[trigger]
                block.contains(p) <==> (closed_pieces(open@, pos).contains(p) && exists|j: int|
                    0 <= j < q + 1 && p.idx == #[trigger] keys[j]) by {
                let named = exists|j: int| 0 <= j < q && p.idx == #[trigger] keys[j];
                let named_now = exists|j: int| 0 <= j < q + 1 && p.idx == #[trigger] keys[j];
                if named {
                    let j = choose|j: int| 0 <= j < q && p.idx == #[trigger] keys[j];
                    assert(0 <= j < q + 1 && p.idx == keys[j]);
                }
                if p.idx == row {
                    assert(0 <= q < q + 1 && p.idx == keys[q as int]);
                }
                if named_now {
                    let j = choose|j: int| 0 <= j < q + 1 && p.idx == #[trigger] keys[j];
                    if j < q {
                        assert(named);
                    }
                }
                if block.contains(p) {
                    let k = choose|k: int| 0 <= k < block.len() && block[k] == p;
                    if k < was.len() {
                        assert(was[k] == p);
                        assert(was.contains(p));
                    }
                }
                if was.contains(p) {
                    let k = choose|k: int| 0 <= k < was.len() && was[k] == p;
                    assert(block[k] == p);
                }
                if pushed && p == piece {
                    assert(block[block.len() - 1] == p);
                }
            }
        }
        q += 1;
    }
    proof {
        let target = closed_pieces(open@, pos);
        assert forall|p: MinInterval| block.to_set().contains(p) <==> target.contains(p) by {
            if target.contains(p) {
                assert(open@.dom().contains(p.idx));
                assert(keys@.to_set().contains(p.idx));
                let j = choose|j: int| 0 <= j < keys.len() && keys[j] == p.idx;
                assert(p.idx == keys[j]);
            }
        }
        assert(block.to_set() =~= target);
    }
    Ghost(block)
}

/// Stops every capture.
fn close_all(open: &mut FxHashMap<u32, Option<i64>>)
    requires
        map_hashes_alike(old(open)),
    ensures
        map_hashes_alike(final(open)),
        final(open)@ == all_closed(old(open)@),
{
    broadcast use group_hash_axioms;

    let ghost was = open@;
    let keys = keys_of(open);
    let mut q: usize = 0;
    while q < keys.len()
        invariant
            q <= keys.len(),
            map_hashes_alike(open),
            is_listing(keys@, was.dom()),
            open@.dom() == was.dom(),
            forall|k: u32| #[trigger]
                was.contains_key(k) ==> open@[k] == (if keys@.take(q as int).contains(k) {
                    None
                } else {
                    was[k]
                }),
        decreases keys.len() - q,
    {
        let row = keys[q];
        assert(keys@.to_set().contains(row));
        open.insert(row, None);
        proof {
            assert(open@.dom() =~= was.dom());
            let done = keys@.take(q as int);
            let now = keys@.take(q + 1);
            assert forall|k: u32| #[trigger] now.contains(k) <==> (done.contains(k) || k == row) by {
                if done.contains(k) {
                    let j = choose|j: int| 0 <= j < done.len() && done[j] == k;
                    assert(now[j] == k);
                }
                if k == row {
                    assert(now[q as int] == k);
                }
                if now.contains(k) {
                    let j = choose|j: int| 0 <= j < now.len() && now[j] == k;
                    if j < q {
                        assert(done[j] == k);
                    }
                }
            }
        }
        q += 1;
    }
    proof {
        assert(keys@.take(keys.len() as int) =~= keys@);
        assert forall|k: u32| #[trigger] was.contains_key(k) implies open@[k] == None::<i64> by {
            assert(keys@.to_set().contains(k));
        }
        assert(open@ =~= all_closed(was));
    }
}

/// Lets every row that captures nothing capture from `pos` on.
fn reopen_all(open: &mut FxHashMap<u32, Option<i64>>, pos: i64)
    requires
        map_hashes_alike(old(open)),
    ensures
        map_hashes_alike(final(open)),
        final(open)@ == all_reopened(old(open)@, pos),
{
    broadcast use group_hash_axioms;

    let ghost was = open@;
    let keys = keys_of(open);
    let mut q: usize = 0;
    while q < keys.len()
        invariant
            q <= keys.len(),
            map_hashes_alike(open),
            is_listing(keys@, was.dom()),
            open@.dom() == was.dom(),
            forall|k: u32| #[trigger]
                was.contains_key(k) ==> open@[k] == (if keys@.take(q as int).contains(k)
                    && was[k] is None {
                    Some(pos)
                } else {
                    was[k]
                }),
        decreases keys.len() - q,
    {
        let row = keys[q];
        assert(keys@.to_set().contains(row));
        let ghost unseen = !keys@.take(q as int).contains(row);
        proof {
            if keys@.take(q as int).contains(row) {
                let j = choose|j: int| 0 <= j < q && keys@.take(q as int)[j] == row;
                assert(keys[j] == keys[q as int]);
            }
        }
        let held = open.get(&row);
        assert(held is Some);
        let idle = held.unwrap().is_none();
        assert(idle == (was[row] is None));
        if idle {
            open.insert(row, Some(pos));
        }
        proof {
            assert(open@.dom() =~= was.dom());
            let done = keys@.take(q as int);
            let now = keys@.take(q + 1);
            assert forall|k: u32| #[trigger] now.contains(k) <==> (done.contains(k) || k == row) by {
                if done.contains(k) {
                    let j = choose|j: int| 0 <= j < done.len() && done[j] == k;
                    assert(now[j] == k);
                }
                if k == row {
                    assert(now[q as int] == k);
                }
                if now.contains(k) {
                    let j = choose|j: int| 0 <= j < now.len() && now[j] == k;
                    if j < q {
                        assert(done[j] == k);
                    }
                }
            }
        }
        q += 1;
    }
    proof {
        assert(keys@.take(keys.len() as int) =~= keys@);
        assert forall|k: u32| #[trigger] was.contains_key(k) implies open@[k] == (if was[k]
            is None {
            Some(pos)
        } else {
            was[k]
        }) by {
            assert(keys@.to_set().contains(k));
        }
        assert(open@ =~= all_reopened(was, pos));
    }
}

/// The pieces of the intervals of the first table that no interval of the
/// second table covers, as three columns: row, start and end, by row and,
/// for one row, from left to right. Where either table is empty, the first
/// table is returned as it is.
pub fn sweep_line_subtract(
    chrs1: &[GroupType],
    starts1: &[PositionType],
    ends1: &[PositionType],
    chrs2: &[GroupType],
    starts2: &[PositionType],
    ends2: &[PositionType],
) -> (out: (Vec<u32>, Vec<PositionType>, Vec<PositionType>))
    requires
        chrs1.len() == starts1.len(),
        chrs1.len() == ends1.len(),
        chrs1.len() <= u32::MAX,
        chrs2.len() == starts2.len(),
        chrs2.len() == ends2.len(),
        chrs2.len() <= u32::MAX,
    ensures
        chrs1.len() == 0 || chrs2.len() == 0 ==> {
            &&& out.0@ == Seq::new(chrs1.len() as nat, |i: int| i as u32)
            &&& out.1@ == starts1@
            &&& out.2@ == ends1@
        },
        chrs1.len() > 0 && chrs2.len() > 0 ==> exists|found: Seq<MinInterval>|
            {
                &&& lists_sets(
                    found,
                    piece_sets(
                        sorted_events(
                            pair_events(chrs1@, starts1@, ends1@, chrs2@, starts2@, ends2@, 0),
                        ),
                    ),
                )
                &&& out.0@ == Seq::new(found.len(), |k: int| by_row(found)[k].idx)
                &&& out.1@ == Seq::new(found.len(), |k: int| by_row(found)[k].start)
                &&& out.2@ == Seq::new(found.len(), |k: int| by_row(found)[k].end)
            },
        out.0.len() == out.1.len() && out.0.len() == out.2.len(),
        plain_tables(chrs1@, starts1@, ends1@, chrs2@, starts2@, ends2@).proper() ==> forall|
            p: MinInterval,
        | #[trigger]
            names_piece(out.0@, out.1@, out.2@, p) <==> plain_tables(
                chrs1@,
                starts1@,
                ends1@,
                chrs2@,
                starts2@,
                ends2@,
            ).is_remainder(p),
        plain_tables(chrs1@, starts1@, ends1@, chrs2@, starts2@, ends2@).proper()
            ==> names_in_row_order(out.0@, out.1@, out.2@),
{
    broadcast use group_hash_axioms;

    let mut out_idxs: Vec<u32> = Vec::new();
    let mut out_starts: Vec<i64> = Vec::new();
    let mut out_ends: Vec<i64> = Vec::new();
    if chrs1.len() == 0 || chrs2.len() == 0 {
        let mut i: usize = 0;
        while i < chrs1.len()
            invariant
                i <= chrs1.len(),
                chrs1.len() == starts1.len(),
                chrs1.len() == ends1.len(),
                chrs1.len() <= u32::MAX,
                out_idxs.len() == i,
                out_starts.len() == i,
                out_ends.len() == i,
                forall|k: int| 0 <= k < i ==> #[trigger] out_idxs[k] == k as u32,
                forall|k: int| 0 <= k < i ==> #[trigger] out_starts[k] == starts1[k],
                forall|k: int| 0 <= k < i ==> #[trigger] out_ends[k] == ends1[k],
            decreases chrs1.len() - i,
        {
            out_idxs.push(i as u32);
            out_starts.push(starts1[i]);
            out_ends.push(ends1[i]);
            i += 1;
        }
        assert(out_idxs@ =~= Seq::new(chrs1.len() as nat, |i: int| i as u32));
        assert(out_starts@ =~= starts1@);
        assert(out_ends@ =~= ends1@);
        proof {
            let tb = plain_tables(chrs1@, starts1@, ends1@, chrs2@, starts2@, ends2@);
            if tb.proper() {
                assert forall|p: MinInterval| #[trigger]
                    names_piece(out_idxs@, out_starts@, out_ends@, p) <==> tb.is_remainder(p) by {
                    if names_piece(out_idxs@, out_starts@, out_ends@, p) {
                        let k = choose|k: int|
                            0 <= k < out_idxs@.len() && out_idxs@[k] == p.idx && out_starts@[k]
                                == p.start && out_ends@[k] == p.end;
                        assert(starts1[k] < ends1[k]);
                    }
                    if tb.is_remainder(p) {
                        let k = p.idx as int;
                        assert(out_idxs@[k] == p.idx && out_starts@[k] == p.start && out_ends@[k]
                            == p.end);
                    }
                }
            }
        }
        return (out_idxs, out_starts, out_ends);
    }
    let events = build_sorted_events_idxs(chrs1, starts1, ends1, chrs2, starts2, ends2, 0);
    let ghost sets = piece_sets(events@);
    let mut found: Vec<MinInterval> = Vec::new();
    let mut active2_count: i64 = 0;
    let mut active1 = new_row_map::<Option<i64>>();
    assert(active1@ =~= Map::empty());
    let ghost mut cuts: Seq<int> = seq![0int];
    let mut t: usize = 0;
    while t < events.len()
        invariant
            t <= events.len(),
            events.len() <= 4 * u32::MAX,
            sets == piece_sets(events@),
            map_hashes_alike(&active1),
            active1@ == captures(events@, t as int),
            active2_count == second_open(events@, t as int),
            cuts.len() == t + 1,
            cuts[0] == 0,
            cuts[t as int] == found.len(),
            forall|s: int| 0 <= s < t ==> #[trigger] block_lists(found@, cuts, s, sets[s]),
        decreases events.len() - t,
    {
        let e = events[t];
        proof {
            lemma_second_open_bounds(events@, t as int);
            lemma_second_open_bounds(events@, t + 1);
        }
        if t > 0 && e.chr != events[t - 1].chr {
            active1.clear();
            active2_count = 0;
        }
        assert(active1@ == captures_met(events@, t as int));
        assert(active2_count == second_open_met(events@, t as int));
        let pos = e.pos;
        let ghost before = found@;
        let ghost mut block: Seq<MinInterval> = Seq::empty();
        if e.first_set {
            if e.is_start {
                if active2_count == 0 {
                    active1.insert(e.idx, Some(pos));
                } else {
                    active1.insert(e.idx, None);
                }
                assert(block.to_set() =~= Set::empty());
            } else {
                let held = active1.get(&e.idx);
                let mut emitted = false;
                match held {
                    Some(capture) => {
                        match *capture {
                            Some(start_pos) => {
                                if start_pos < pos {
                                    let p = MinInterval { start: start_pos, end: pos, idx: e.idx };
                                    found.push(p);
                                    emitted = true;
                                    proof {
                                        block = seq![p];
                                        assert(block[0] == p);
                                        assert forall|x: MinInterval|
                                            block.to_set().contains(x) <==> x == p by {
                                            if block.to_set().contains(x) {
                                                let j = choose|j: int|
                                                    0 <= j < block.len() && block[j] == x;
                                                assert(j == 0);
                                            }
                                        }
                                        assert(block.to_set() =~= set![p]);
                                    }
                                }
                            },
                            None => {},
                        }
                    },
                    None => {},
                }
                if !emitted {
                    assert(block.to_set() =~= Set::empty());
                }
                active1.remove(&e.idx);
            }
        } else {
            if e.is_start {
                active2_count += 1;
                if active2_count == 1 {
                    let b = push_closed_pieces(&mut found, &active1, pos);
                    proof {
                        block = b@;
                    }
                    close_all(&mut active1);
                } else {
                    assert(block.to_set() =~= Set::empty());
                }
            } else {
                active2_count -= 1;
                if active2_count == 0 {
                    reopen_all(&mut active1, pos);
                }
                assert(block.to_set() =~= Set::empty());
            }
        }
        proof {
            assert(found@ =~= before + block);
            assert(sets[t as int] == pieces_at(events@, t as int));
            assert(is_listing(block, sets[t as int]));
            lemma_next_listed(before, cuts, block, sets, t as int);
            cuts = cuts.push(found.len() as int);
        }
        t += 1;
    }
    assert(lists_in_turn(found@, cuts, sets));
    let mut keys: Vec<(i64, i64, i64)> = Vec::new();
    let mut i: usize = 0;
    while i < found.len()
        invariant
            i <= found.len(),
            keys.len() == i,
            forall|k: int| 0 <= k < i ==> #[trigger] keys[k] == (found[k].idx as i64, 0i64, 0i64),
        decreases found.len() - i,
    {
        keys.push((found[i].idx as i64, 0, 0));
        i += 1;
    }
    assert(keys@ =~= Seq::new(found.len() as nat, |k: int| (found[k].idx as i64, 0i64, 0i64)));
    let sorted = sort_rows(&found, &keys);
    let mut k: usize = 0;
    while k < sorted.len()
        invariant
            k <= sorted.len(),
            out_idxs.len() == k,
            out_starts.len() == k,
            out_ends.len() == k,
            forall|j: int| 0 <= j < k ==> #[trigger] out_idxs[j] == sorted[j].idx,
            forall|j: int| 0 <= j < k ==> #[trigger] out_starts[j] == sorted[j].start,
            forall|j: int| 0 <= j < k ==> #[trigger] out_ends[j] == sorted[j].end,
        decreases sorted.len() - k,
    {
        out_idxs.push(sorted[k].idx);
        out_starts.push(sorted[k].start);
        out_ends.push(sorted[k].end);
        k += 1;
    }
    proof {
        assert(sorted@ == by_row(found@));
        assert(out_idxs@ =~= Seq::new(found@.len(), |k: int| by_row(found@)[k].idx));
        assert(out_starts@ =~= Seq::new(found@.len(), |k: int| by_row(found@)[k].start));
        assert(out_ends@ =~= Seq::new(found@.len(), |k: int| by_row(found@)[k].end));
        assert(lists_sets(found@, sets));
        let tb = plain_tables(chrs1@, starts1@, ends1@, chrs2@, starts2@, ends2@);
        if tb.proper() {
            assert(shift(starts1@, -0) =~= starts1@);
            assert(shift(ends1@, 0) =~= ends1@);
            assert(tb.events() == pair_events(chrs1@, starts1@, ends1@, chrs2@, starts2@, ends2@, 0));
            lemma_subtract_leaves_remainders(tb, found@);
            lemma_subtract_in_order(tb, found@);
            assert forall|a: int, b: int| 0 <= a < b < out_idxs@.len() implies (
            #[trigger] out_idxs@[a]) <= (#[trigger] out_idxs@[b]) && (out_idxs@[a] == out_idxs@[b]
                ==> out_ends@[a] <= out_starts@[b]) by {
                assert(sorted@[a].idx <= sorted@[b].idx);
            }
            let keys = Seq::new(found@.len(), |k: int| (found@[k].idx as i64, 0i64, 0i64));
            assert(keys.len() == found.len());
            lemma_reorder_members(found@, keys);
            lemma_reorder_keeps_all(found@, keys);
            assert forall|p: MinInterval| #[trigger]
                names_piece(out_idxs@, out_starts@, out_ends@, p) <==> tb.is_remainder(p) by {
                if names_piece(out_idxs@, out_starts@, out_ends@, p) {
                    let k = choose|k: int|
                        0 <= k < out_idxs@.len() && out_idxs@[k] == p.idx && out_starts@[k]
                            == p.start && out_ends@[k] == p.end;
                    assert(sorted@[k] == p);
                    assert(found@.contains(sorted@[k]));
                }
                if found@.contains(p) {
                    let q = choose|q: int| 0 <= q < found@.len() && found@[q] == p;
                    assert(sorted@.contains(found@[q]));
                    let k = choose|k: int| 0 <= k < sorted@.len() && sorted@[k] == p;
                    assert(out_idxs@[k] == p.idx && out_starts@[k] == p.start && out_ends@[k]
                        == p.end);
                }
            }
        }
    }
    (out_idxs, out_starts, out_ends)
}

} // verus!
