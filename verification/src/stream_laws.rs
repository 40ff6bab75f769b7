//! What the merge of the four streams gives, said without the merge: the
//! events of both tables in sweep order, as sorting them gives them.

use crate::overlap_laws::{lemma_layout, lemma_sweep_finds_overlaps, PairTables};
use crate::overlaps::{
    event_of, four_way_merge, goes_first, head_of, is_sweep_output, merged_from, winner_of_four,
    winner_of_two, WhichList,
};
use crate::radix::{
    lemma_reorder_keeps_all, lemma_reorder_members, lemma_stable_order,
    lemma_stable_order_unique, row_lt, stable_order,
};
use crate::ruranges_structs::{Event, MinEvent, OverlapPair};
use crate::sorts::{event_key, min_event_key, position_events, sorted_min_events};
use vstd::prelude::*;

verus! {

/// One of the four streams of two tables: the starts or the ends of the
/// rows of a table, by group and position.
pub open spec fn stream(tb: PairTables, which: WhichList) -> Seq<MinEvent> {
    match which {
        WhichList::StartSet1 => sorted_min_events(position_events(tb.chrs, tb.starts)),
        WhichList::EndSet1 => sorted_min_events(position_events(tb.chrs, tb.ends)),
        WhichList::StartSet2 => sorted_min_events(position_events(tb.chrs2, tb.starts2)),
        WhichList::EndSet2 => sorted_min_events(position_events(tb.chrs2, tb.ends2)),
    }
}

/// The four streams of two tables merged into one sequence of events.
pub open spec fn merged_sweep(tb: PairTables) -> Seq<Event> {
    four_way_merge(
        stream(tb, WhichList::StartSet1),
        stream(tb, WhichList::EndSet1),
        stream(tb, WhichList::StartSet2),
        stream(tb, WhichList::EndSet2),
    )
}

/// The place among the events of the tables, as they are built, of the
/// event that an item of a stream stands for.
pub open spec fn row_of(tb: PairTables, which: WhichList, ev: MinEvent) -> int {
    match which {
        WhichList::StartSet1 => tb.start1(ev.idx as int),
        WhichList::EndSet1 => tb.end1(ev.idx as int),
        WhichList::StartSet2 => tb.start2(ev.idx as int),
        WhichList::EndSet2 => tb.end2(ev.idx as int),
    }
}

/// The place of the item at the head of a stream.
pub open spec fn head_row(tb: PairTables, h: (WhichList, MinEvent)) -> int {
    row_of(tb, h.0, h.1)
}

/// Event `r` is that of an item of stream `which` at or behind place `from`.
pub open spec fn waits_in(tb: PairTables, which: WhichList, from: int, r: int) -> bool {
    exists|q: int|
        from <= q < stream(tb, which).len() && #[trigger] row_of(tb, which, stream(tb, which)[q])
            == r
}

/// Event `r` is that of an item that one of the streams still holds.
pub open spec fn waits(tb: PairTables, i1: int, i2: int, i3: int, i4: int, r: int) -> bool {
    waits_in(tb, WhichList::StartSet1, i1, r) || waits_in(tb, WhichList::StartSet2, i2, r)
        || waits_in(tb, WhichList::EndSet1, i3, r) || waits_in(tb, WhichList::EndSet2, i4, r)
}

/// The places of the next `n` events that the merge gives.
pub open spec fn merged_rows(tb: PairTables, i1: int, i2: int, i3: int, i4: int, n: nat) -> Seq<
    int,
>
    decreases n,
{
    if n == 0 {
        Seq::empty()
    } else {
        match winner_of_four(
            head_of(stream(tb, WhichList::StartSet1), i1, WhichList::StartSet1),
            head_of(stream(tb, WhichList::StartSet2), i2, WhichList::StartSet2),
            head_of(stream(tb, WhichList::EndSet1), i3, WhichList::EndSet1),
            head_of(stream(tb, WhichList::EndSet2), i4, WhichList::EndSet2),
        ) {
            None => Seq::empty(),
            Some((which, ev)) => seq![row_of(tb, which, ev)] + merged_rows(
                tb,
                if which == WhichList::StartSet1 { i1 + 1 } else { i1 },
                if which == WhichList::StartSet2 { i2 + 1 } else { i2 },
                if which == WhichList::EndSet1 { i3 + 1 } else { i3 },
                if which == WhichList::EndSet2 { i4 + 1 } else { i4 },
                (n - 1) as nat,
            ),
        }
    }
}

/// How many items stream `which` holds: one for each row of its table.
pub open spec fn stream_len(tb: PairTables, which: WhichList) -> int {
    if which.of_first_set() {
        tb.chrs.len() as int
    } else {
        tb.chrs2.len() as int
    }
}

/// Event `r` belongs to stream `which`.
pub open spec fn is_of_stream(tb: PairTables, which: WhichList, r: int) -> bool {
    let n1 = tb.chrs.len() as int;
    match which {
        WhichList::StartSet1 => 0 <= r < 2 * n1 && r % 2 == 0,
        WhichList::EndSet1 => 0 <= r < 2 * n1 && r % 2 != 0,
        WhichList::StartSet2 => 2 * n1 <= r < tb.events().len() && (r - 2 * n1) % 2 == 0,
        WhichList::EndSet2 => 2 * n1 <= r < tb.events().len() && (r - 2 * n1) % 2 != 0,
    }
}

/// What a stream holds: one item for each row of its table, each standing
/// for the event of its row, in the order in which sorting puts these events.
pub proof fn lemma_stream(tb: PairTables, which: WhichList)
    requires
        tb.proper(),
    ensures
        stream(tb, which).len() == stream_len(tb, which),
        forall|q: int|
            0 <= q < stream(tb, which).len() ==> {
                let r = #[trigger] row_of(tb, which, stream(tb, which)[q]);
                &&& is_of_stream(tb, which, r)
                &&& tb.events()[r] == event_of(which, stream(tb, which)[q])
            },
        forall|q1: int, q2: int|
            0 <= q1 < q2 < stream(tb, which).len() ==> row_lt(
                tb.keys(),
                #[trigger] row_of(tb, which, stream(tb, which)[q1]),
                #[trigger] row_of(tb, which, stream(tb, which)[q2]),
            ),
        forall|r: int| is_of_stream(tb, which, r) ==> #[trigger] waits_in(tb, which, 0, r),
{
    lemma_layout(tb);
    let n1 = tb.chrs.len() as int;
    let chrs = if which.of_first_set() { tb.chrs } else { tb.chrs2 };
    let pos = match which {
        WhichList::StartSet1 => tb.starts,
        WhichList::EndSet1 => tb.ends,
        WhichList::StartSet2 => tb.starts2,
        WhichList::EndSet2 => tb.ends2,
    };
    let items = position_events(chrs, pos);
    let low = Seq::new(items.len(), |r: int| min_event_key(items[r]));
    let order = stable_order(low);
    let list = stream(tb, which);
    assert(list == sorted_min_events(items));
    lemma_stable_order(low);
    lemma_reorder_members(items, low);
    lemma_reorder_keeps_all(items, low);
    let keys = tb.keys();
    assert forall|q: int| 0 <= q < list.len() implies {
        let r = #[trigger] row_of(tb, which, list[q]);
        &&& is_of_stream(tb, which, r)
        &&& tb.events()[r] == event_of(which, list[q])
        &&& list[q].idx == order[q]
        &&& keys[r] == (chrs[order[q] as int], pos[order[q] as int], if which.opens() {
            1i64
        } else {
            0i64
        })
    } by {
        let i = order[q] as int;
        assert(list[q] == items[i]);
        let r = row_of(tb, which, list[q]);
        assert(keys[r] == event_key(tb.events()[r]));
        match which {
            WhichList::StartSet1 => {
                assert(r == tb.start1(i));
            },
            WhichList::EndSet1 => {
                assert(r == tb.end1(i));
            },
            WhichList::StartSet2 => {
                assert(r == tb.start2(i));
                assert((2 * n1 + 2 * i - 2 * n1) % 2 == 0);
            },
            WhichList::EndSet2 => {
                assert(r == tb.end2(i));
                assert((2 * n1 + 2 * i + 1 - 2 * n1) % 2 != 0);
            },
        }
    }
    assert forall|q1: int, q2: int| 0 <= q1 < q2 < list.len() implies row_lt(
        keys,
        #[trigger] row_of(tb, which, list[q1]),
        #[trigger] row_of(tb, which, list[q2]),
    ) by {
        assert(row_lt(low, order[q1] as int, order[q2] as int));
        assert(low[order[q1] as int] == min_event_key(items[order[q1] as int]));
        assert(low[order[q2] as int] == min_event_key(items[order[q2] as int]));
    }
    assert forall|r: int| is_of_stream(tb, which, r) implies #[trigger] waits_in(
        tb,
        which,
        0,
        r,
    ) by {
        let i = match which {
            WhichList::StartSet1 => r / 2,
            WhichList::EndSet1 => r / 2,
            WhichList::StartSet2 => (r - 2 * n1) / 2,
            WhichList::EndSet2 => (r - 2 * n1) / 2,
        };
        assert(0 <= i < chrs.len());
        assert(list.contains(items[i]));
        let q = choose|q: int| 0 <= q < list.len() && list[q] == items[i];
        assert(row_of(tb, which, list[q]) == r);
    }
}

/// The two heads may be held against each other: they are at the heads of
/// the starts and the ends of one table, or the first is of the first
/// table and the second of the second.
pub open spec fn may_meet(a: WhichList, b: WhichList) -> bool {
    ||| a == WhichList::StartSet1 && b == WhichList::EndSet1
    ||| a == WhichList::StartSet2 && b == WhichList::EndSet2
    ||| a.of_first_set() && !b.of_first_set()
}

/// The item `h` stands for an event of the tables.
pub open spec fn stands_for_event(tb: PairTables, h: (WhichList, MinEvent)) -> bool {
    is_of_stream(tb, h.0, head_row(tb, h)) && tb.events()[head_row(tb, h)] == event_of(h.0, h.1)
}

/// The event of `a` is that of `b` or comes before it.
pub open spec fn not_behind(tb: PairTables, a: (WhichList, MinEvent), b: (WhichList, MinEvent)) -> bool {
    head_row(tb, a) == head_row(tb, b) || row_lt(tb.keys(), head_row(tb, a), head_row(tb, b))
}

/// The merge takes, of two heads, the one whose event sorting puts first.
proof fn lemma_winner_of_two(
    tb: PairTables,
    a: Option<(WhichList, MinEvent)>,
    b: Option<(WhichList, MinEvent)>,
)
    requires
        tb.proper(),
        a is Some ==> stands_for_event(tb, a->0),
        b is Some ==> stands_for_event(tb, b->0),
        a is Some && b is Some ==> may_meet((a->0).0, (b->0).0),
    ensures
        winner_of_two(a, b) == a || winner_of_two(a, b) == b,
        a is Some || b is Some ==> winner_of_two(a, b) is Some,
        a is Some ==> not_behind(tb, winner_of_two(a, b)->0, a->0),
        b is Some ==> not_behind(tb, winner_of_two(a, b)->0, b->0),
{
    lemma_layout(tb);
    let keys = tb.keys();
    if a is Some && b is Some {
        let x = a->0;
        let y = b->0;
        assert(keys[head_row(tb, x)] == event_key(tb.events()[head_row(tb, x)]));
        assert(keys[head_row(tb, y)] == event_key(tb.events()[head_row(tb, y)]));
        assert(goes_first(x, y) == row_lt(keys, head_row(tb, x), head_row(tb, y)));
        assert(head_row(tb, x) != head_row(tb, y));
        if !goes_first(x, y) {
            assert(row_lt(keys, head_row(tb, y), head_row(tb, x)));
        }
    }
}

/// What comes before an event comes before what that event comes before.
proof fn lemma_not_behind_chain(
    tb: PairTables,
    a: (WhichList, MinEvent),
    b: (WhichList, MinEvent),
    r: int,
)
    requires
        not_behind(tb, a, b),
        head_row(tb, b) == r || row_lt(tb.keys(), head_row(tb, b), r),
    ensures
        head_row(tb, a) == r || row_lt(tb.keys(), head_row(tb, a), r),
{
}

/// The head of a stream, if it has one, stands for an event, and every
/// item that the stream still holds is that head or comes behind it.
proof fn lemma_head(tb: PairTables, which: WhichList, i: int)
    requires
        tb.proper(),
        0 <= i <= stream(tb, which).len(),
    ensures
        head_of(stream(tb, which), i, which) is Some ==> stands_for_event(
            tb,
            head_of(stream(tb, which), i, which)->0,
        ) && (head_of(stream(tb, which), i, which)->0).0 == which,
        head_of(stream(tb, which), i, which) is None ==> forall|r: int|
            !#[trigger] waits_in(tb, which, i, r),
        forall|r: int| #[trigger]
            waits_in(tb, which, i, r) ==> head_of(stream(tb, which), i, which) is Some && (head_row(
                tb,
                head_of(stream(tb, which), i, which)->0,
            ) == r || (row_lt(
                tb.keys(),
                head_row(tb, head_of(stream(tb, which), i, which)->0),
                r,
            ) && waits_in(tb, which, i + 1, r))),
        forall|r: int| #[trigger]
            waits_in(tb, which, i + 1, r) ==> waits_in(tb, which, i, r) && row_lt(
                tb.keys(),
                head_row(tb, head_of(stream(tb, which), i, which)->0),
                r,
            ),
{
    lemma_stream(tb, which);
    let list = stream(tb, which);
    assert forall|r: int| #[trigger] waits_in(tb, which, i, r) implies head_of(list, i, which)
        is Some && (head_row(tb, head_of(list, i, which)->0) == r || (row_lt(
        tb.keys(),
        head_row(tb, head_of(list, i, which)->0),
        r,
    ) && waits_in(tb, which, i + 1, r))) by {
        let q = choose|q: int| i <= q < list.len() && #[trigger] row_of(tb, which, list[q]) == r;
        if q > i {
            assert(row_lt(tb.keys(), row_of(tb, which, list[i]), row_of(tb, which, list[q])));
            assert(i + 1 <= q < list.len() && row_of(tb, which, list[q]) == r);
        }
    }
    assert forall|r: int| #[trigger] waits_in(tb, which, i + 1, r) implies waits_in(
        tb,
        which,
        i,
        r,
    ) && row_lt(tb.keys(), head_row(tb, head_of(list, i, which)->0), r) by {
        let q = choose|q: int|
            i + 1 <= q < list.len() && #[trigger] row_of(tb, which, list[q]) == r;
        assert(i <= q < list.len() && row_of(tb, which, list[q]) == r);
        assert(row_lt(tb.keys(), row_of(tb, which, list[i]), row_of(tb, which, list[q])));
    }
}

/// An event belongs to one stream only.
proof fn lemma_one_stream(tb: PairTables, a: WhichList, b: WhichList, i: int, j: int, r: int)
    requires
        tb.proper(),
        0 <= i <= stream(tb, a).len(),
        0 <= j <= stream(tb, b).len(),
        waits_in(tb, a, i, r),
        waits_in(tb, b, j, r),
    ensures
        a == b,
{
    lemma_stream(tb, a);
    lemma_stream(tb, b);
    let qa = choose|q: int|
        i <= q < stream(tb, a).len() && #[trigger] row_of(tb, a, stream(tb, a)[q]) == r;
    let qb = choose|q: int|
        j <= q < stream(tb, b).len() && #[trigger] row_of(tb, b, stream(tb, b)[q]) == r;
    assert(is_of_stream(tb, a, r));
    assert(is_of_stream(tb, b, r));
}

/// What the merge gives from given places on: the events of the items that
/// the streams still hold, each once, in the order in which sorting puts them.
proof fn lemma_merged_rows(tb: PairTables, i1: int, i2: int, i3: int, i4: int, n: nat)
    requires
        tb.proper(),
        0 <= i1 <= tb.chrs.len(),
        0 <= i2 <= tb.chrs2.len(),
        0 <= i3 <= tb.chrs.len(),
        0 <= i4 <= tb.chrs2.len(),
        n == (tb.chrs.len() - i1) + (tb.chrs2.len() - i2) + (tb.chrs.len() - i3) + (
        tb.chrs2.len() - i4),
    ensures
        merged_rows(tb, i1, i2, i3, i4, n).len() == n,
        merged_from(
            stream(tb, WhichList::StartSet1),
            stream(tb, WhichList::EndSet1),
            stream(tb, WhichList::StartSet2),
            stream(tb, WhichList::EndSet2),
            i1,
            i2,
            i3,
            i4,
            n,
        ).len() == n,
        forall|k: int|
            0 <= k < n ==> {
                let r = #[trigger] merged_rows(tb, i1, i2, i3, i4, n)[k];
                &&& 0 <= r < tb.events().len()
                &&& waits(tb, i1, i2, i3, i4, r)
                &&& merged_from(
                    stream(tb, WhichList::StartSet1),
                    stream(tb, WhichList::EndSet1),
                    stream(tb, WhichList::StartSet2),
                    stream(tb, WhichList::EndSet2),
                    i1,
                    i2,
                    i3,
                    i4,
                    n,
                )[k] == tb.events()[r]
            },
        forall|a: int, b: int|
            0 <= a < b < n ==> row_lt(
                tb.keys(),
                #[trigger] merged_rows(tb, i1, i2, i3, i4, n)[a],
                #[trigger] merged_rows(tb, i1, i2, i3, i4, n)[b],
            ),
        forall|r: int| #[trigger]
            waits(tb, i1, i2, i3, i4, r) ==> merged_rows(tb, i1, i2, i3, i4, n).contains(r),
    decreases n,
{
    let s1 = WhichList::StartSet1;
    let s2 = WhichList::StartSet2;
    let e1 = WhichList::EndSet1;
    let e2 = WhichList::EndSet2;
    lemma_stream(tb, s1);
    lemma_stream(tb, s2);
    lemma_stream(tb, e1);
    lemma_stream(tb, e2);
    lemma_head(tb, s1, i1);
    lemma_head(tb, s2, i2);
    lemma_head(tb, e1, i3);
    lemma_head(tb, e2, i4);
    let h1 = head_of(stream(tb, s1), i1, s1);
    let h2 = head_of(stream(tb, s2), i2, s2);
    let h3 = head_of(stream(tb, e1), i3, e1);
    let h4 = head_of(stream(tb, e2), i4, e2);
    let rows = merged_rows(tb, i1, i2, i3, i4, n);
    let events = merged_from(
        stream(tb, s1),
        stream(tb, e1),
        stream(tb, s2),
        stream(tb, e2),
        i1,
        i2,
        i3,
        i4,
        n,
    );
    if n > 0 {
        let w1 = winner_of_two(h1, h3);
        let w2 = winner_of_two(h2, h4);
        let w = winner_of_two(w1, w2);
        lemma_winner_of_two(tb, h1, h3);
        lemma_winner_of_two(tb, h2, h4);
        lemma_winner_of_two(tb, w1, w2);
        assert(w == winner_of_four(h1, h2, h3, h4));
        assert(w is Some);
        let which = (w->0).0;
        let ev = (w->0).1;
        let r0 = row_of(tb, which, ev);
        let j1 = if which == s1 { i1 + 1 } else { i1 };
        let j2 = if which == s2 { i2 + 1 } else { i2 };
        let j3 = if which == e1 { i3 + 1 } else { i3 };
        let j4 = if which == e2 { i4 + 1 } else { i4 };
        lemma_merged_rows(tb, j1, j2, j3, j4, (n - 1) as nat);
        let rest = merged_rows(tb, j1, j2, j3, j4, (n - 1) as nat);
        let rest_events = merged_from(
            stream(tb, s1),
            stream(tb, e1),
            stream(tb, s2),
            stream(tb, e2),
            j1,
            j2,
            j3,
            j4,
            (n - 1) as nat,
        );
        assert(rows == seq![r0] + rest);
        assert(events == seq![event_of(which, ev)] + rest_events);
        // the winner comes before everything else that waits
        assert forall|r: int| #[trigger] waits(tb, j1, j2, j3, j4, r) implies waits(
            tb,
            i1,
            i2,
            i3,
            i4,
            r,
        ) && row_lt(tb.keys(), r0, r) by {
            if waits_in(tb, s1, j1, r) {
                lemma_not_behind_chain(tb, w1->0, h1->0, r);
                lemma_not_behind_chain(tb, w->0, w1->0, r);
                if which != s1 && r0 == r {
                    lemma_one_stream(tb, which, s1, 0, 0, r);
                }
            } else if waits_in(tb, s2, j2, r) {
                lemma_not_behind_chain(tb, w2->0, h2->0, r);
                lemma_not_behind_chain(tb, w->0, w2->0, r);
                if which != s2 && r0 == r {
                    lemma_one_stream(tb, which, s2, 0, 0, r);
                }
            } else if waits_in(tb, e1, j3, r) {
                lemma_not_behind_chain(tb, w1->0, h3->0, r);
                lemma_not_behind_chain(tb, w->0, w1->0, r);
                if which != e1 && r0 == r {
                    lemma_one_stream(tb, which, e1, 0, 0, r);
                }
            } else {
                lemma_not_behind_chain(tb, w2->0, h4->0, r);
                lemma_not_behind_chain(tb, w->0, w2->0, r);
                if which != e2 && r0 == r {
                    lemma_one_stream(tb, which, e2, 0, 0, r);
                }
            }
        }
        assert(waits(tb, i1, i2, i3, i4, r0));
        assert forall|k: int| 0 <= k < n implies {
            let r = #[trigger] rows[k];
            &&& 0 <= r < tb.events().len()
            &&& waits(tb, i1, i2, i3, i4, r)
            &&& events[k] == tb.events()[r]
        } by {
            if k > 0 {
                assert(rows[k] == rest[k - 1]);
                assert(events[k] == rest_events[k - 1]);
            }
        }
        assert forall|a: int, b: int| 0 <= a < b < n implies row_lt(
            tb.keys(),
            #[trigger] rows[a],
            #[trigger] rows[b],
        ) by {
            assert(rows[b] == rest[b - 1]);
            if a > 0 {
                assert(rows[a] == rest[a - 1]);
            }
        }
        assert forall|r: int| #[trigger] waits(tb, i1, i2, i3, i4, r) implies rows.contains(
            r,
        ) by {
            if r == r0 {
                assert(rows[0] == r);
            } else {
                assert(waits(tb, j1, j2, j3, j4, r));
                assert(rest.contains(r));
                let k = choose|k: int| 0 <= k < rest.len() && rest[k] == r;
                assert(rows[k + 1] == r);
            }
        }
    }
}

/// The merge is the sort: the four streams of two tables, merged, are the
/// events of the tables in sweep order.
pub proof fn lemma_merge_is_sweep(tb: PairTables)
    requires
        tb.proper(),
    ensures
        merged_sweep(tb) == tb.sweep(),
{
    lemma_layout(tb);
    let s1 = WhichList::StartSet1;
    let s2 = WhichList::StartSet2;
    let e1 = WhichList::EndSet1;
    let e2 = WhichList::EndSet2;
    lemma_stream(tb, s1);
    lemma_stream(tb, s2);
    lemma_stream(tb, e1);
    lemma_stream(tb, e2);
    let total = (2 * tb.chrs.len() + 2 * tb.chrs2.len()) as nat;
    lemma_merged_rows(tb, 0, 0, 0, 0, total);
    let rows = merged_rows(tb, 0, 0, 0, 0, total);
    let merged = merged_sweep(tb);
    let keys = tb.keys();
    let order = Seq::new(total, |k: int| rows[k] as usize);
    assert forall|r: usize| r < keys.len() implies #[trigger] order.contains(r) by {
        let which = if r < 2 * tb.chrs.len() {
            if r % 2 == 0 {
                s1
            } else {
                e1
            }
        } else if (r - 2 * tb.chrs.len()) % 2 == 0 {
            s2
        } else {
            e2
        };
        assert(is_of_stream(tb, which, r as int));
        assert(waits_in(tb, which, 0, r as int));
        assert(waits(tb, 0, 0, 0, 0, r as int));
        assert(rows.contains(r as int));
        let k = choose|k: int| 0 <= k < rows.len() && rows[k] == r as int;
        assert(order[k] == r);
    }
    assert forall|a: int, b: int| 0 <= a < b < order.len() implies row_lt(
        keys,
        #[trigger] order[a] as int,
        #[trigger] order[b] as int,
    ) by {
        assert(row_lt(keys, rows[a], rows[b]));
    }
    lemma_stable_order_unique(order, keys);
    assert(merged =~= tb.sweep()) by {
        assert forall|k: int| 0 <= k < total implies merged[k] == tb.sweep()[k] by {
            assert(merged[k] == tb.events()[rows[k]]);
            assert(order[k] == rows[k]);
        }
    }
}

/// The sweep over the four streams is right: for tables of proper
/// intervals, whatever it gives holds the pair of a row of the first table
/// and a row of the second exactly if the two overlap, and holds no pair
/// twice.
pub proof fn lemma_streams_find_overlaps(tb: PairTables, out: Seq<OverlapPair>)
    requires
        tb.proper(),
        is_sweep_output(merged_sweep(tb), out),
    ensures
        forall|p: OverlapPair| #[trigger]
            out.contains(p) <==> (p.idx < tb.chrs.len() && p.idx2 < tb.chrs2.len() && tb.overlap(
                p.idx as int,
                p.idx2 as int,
            )),
        out.no_duplicates(),
{
    lemma_merge_is_sweep(tb);
    lemma_sweep_finds_overlaps(tb, out);
}

} // verus!
