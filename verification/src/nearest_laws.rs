//! What the scans for neighbours find, said without the scans: for lists in
//! the order of groups and positions, the hits of an item are the items of
//! its group at the nearest positions to one side of it.

use crate::nearest::{
    advance, left_hits, lies_before, pointer, reach, right_hits, scan_left, scan_right,
};
use crate::radix::{
    lemma_reorder_keeps_all, lemma_reorder_members, lemma_stable_order, row_lt, stable_order,
};
use crate::ruranges_structs::{MinEvent, Nearest};
use crate::sorts::{min_event_key, position_events, sorted_min_events};
use vstd::prelude::*;
use vstd::set_lib::lemma_len_subset;

verus! {

/// Groups ascend along `xs`, and positions ascend within a group.
pub open spec fn in_order(xs: Seq<MinEvent>) -> bool {
    forall|a: int, b: int|
        0 <= a < b < xs.len() ==> !lies_before(#[trigger] xs[b], #[trigger] xs[a])
}

/// The positions at which items of group `g` lie.
pub open spec fn positions_of(others: Seq<MinEvent>, g: i64) -> Set<i64> {
    Set::new(
        |p: i64|
            exists|q: int|
                0 <= q < others.len() && (#[trigger] others[q]).chr == g && others[q].pos == p,
    )
}

/// The members of `occurs` from `lo` up to but not including `hi`.
pub open spec fn values_within(occurs: Set<i64>, lo: int, hi: int) -> Set<i64> {
    Set::new(|p: i64| occurs.contains(p) && lo <= p < hi)
}

/// Item `q` of `others` is a hit to the right of `e`, and `h` records it:
/// the item lies in the group of `e` at or behind it, fewer than `k`
/// positions of the group lie from `e` up to it, and its distance is one
/// more than the difference of the positions.
pub open spec fn right_hit_at(others: Seq<MinEvent>, e: MinEvent, k: nat, q: int, h: Nearest) -> bool {
    &&& others[q].chr == e.chr
    &&& e.pos <= others[q].pos
    &&& values_within(positions_of(others, e.chr), e.pos as int, others[q].pos as int).len() < k
    &&& h == (Nearest { distance: reach(e.pos, others[q].pos), idx: e.idx, idx2: others[q].idx })
}

/// Item `q` of `others` is a hit to the left of `e`, and `h` records it:
/// the item lies in the group of `e` before it, fewer than `k` positions of
/// the group lie behind it and before `e`, and its distance is one more
/// than the difference of the positions.
pub open spec fn left_hit_at(others: Seq<MinEvent>, e: MinEvent, k: nat, q: int, h: Nearest) -> bool {
    &&& others[q].chr == e.chr
    &&& others[q].pos < e.pos
    &&& values_within(positions_of(others, e.chr), others[q].pos + 1, e.pos as int).len() < k
    &&& h == (Nearest { distance: reach(others[q].pos, e.pos), idx: e.idx, idx2: others[q].idx })
}

/// `h` records an item of `others` at one of the `k` nearest positions at
/// or behind `e`.
pub open spec fn is_right_hit(others: Seq<MinEvent>, e: MinEvent, k: nat, h: Nearest) -> bool {
    exists|q: int| 0 <= q < others.len() && #[trigger] right_hit_at(others, e, k, q, h)
}

/// `h` records an item of `others` at one of the `k` nearest positions
/// before `e`.
pub open spec fn is_left_hit(others: Seq<MinEvent>, e: MinEvent, k: nat, h: Nearest) -> bool {
    exists|q: int| 0 <= q < others.len() && #[trigger] left_hit_at(others, e, k, q, h)
}

/// The positions of a group are finitely many.
pub proof fn lemma_positions_finite(others: Seq<MinEvent>, g: i64)
    ensures
        positions_of(others, g).finite(),
{
    let all = others.map_values(|e: MinEvent| e.pos);
    vstd::seq_lib::seq_to_set_is_finite(all);
    assert forall|p: i64| positions_of(others, g).contains(p) implies all.to_set().contains(p) by {
        let q = choose|q: int|
            0 <= q < others.len() && (#[trigger] others[q]).chr == g && others[q].pos == p;
        assert(all[q] == p);
    }
    lemma_len_subset(positions_of(others, g), all.to_set());
}

/// A wider stretch holds at least as many members.
pub proof fn lemma_within_grows(occurs: Set<i64>, lo1: int, hi1: int, lo2: int, hi2: int)
    requires
        occurs.finite(),
        lo2 <= lo1,
        hi1 <= hi2,
    ensures
        values_within(occurs, lo1, hi1).finite(),
        values_within(occurs, lo2, hi2).finite(),
        values_within(occurs, lo1, hi1).len() <= values_within(occurs, lo2, hi2).len(),
{
    lemma_len_subset(values_within(occurs, lo2, hi2), occurs);
    lemma_len_subset(values_within(occurs, lo1, hi1), values_within(occurs, lo2, hi2));
}

/// A stretch that gains the one member `v` holds one more.
pub proof fn lemma_within_one_more(
    occurs: Set<i64>,
    lo1: int,
    hi1: int,
    lo2: int,
    hi2: int,
    v: i64,
)
    requires
        occurs.finite(),
        occurs.contains(v),
        !(lo1 <= v < hi1),
        forall|p: i64|
            occurs.contains(p) ==> ((lo2 <= p < hi2) <==> ((lo1 <= p < hi1) || p == v)),
    ensures
        values_within(occurs, lo2, hi2).len() == values_within(occurs, lo1, hi1).len() + 1,
{
    lemma_len_subset(values_within(occurs, lo1, hi1), occurs);
    assert(values_within(occurs, lo2, hi2) =~= values_within(occurs, lo1, hi1).insert(v));
}

/// Two stretches with the same members hold as many.
pub proof fn lemma_within_same(occurs: Set<i64>, lo1: int, hi1: int, lo2: int, hi2: int)
    requires
        forall|p: i64| occurs.contains(p) ==> ((lo2 <= p < hi2) <==> (lo1 <= p < hi1)),
    ensures
        values_within(occurs, lo2, hi2) == values_within(occurs, lo1, hi1),
{
    assert(values_within(occurs, lo2, hi2) =~= values_within(occurs, lo1, hi1));
}

/// `j` parts `others` at `e`: what stands before place `j` lies before `e`,
/// and nothing else does.
pub open spec fn parts_at(others: Seq<MinEvent>, j: int, e: MinEvent) -> bool {
    &&& 0 <= j <= others.len()
    &&& forall|q: int| 0 <= q < j ==> lies_before(#[trigger] others[q], e)
    &&& forall|q: int| j <= q < others.len() ==> !lies_before(#[trigger] others[q], e)
}

/// The pointer, advanced from a place before which everything lies before
/// `e`, parts a list in order at `e`.
proof fn lemma_advance_parts(others: Seq<MinEvent>, j: int, e: MinEvent)
    requires
        in_order(others),
        0 <= j <= others.len(),
        forall|q: int| 0 <= q < j ==> lies_before(#[trigger] others[q], e),
    ensures
        parts_at(others, advance(others, j, e), e),
    decreases others.len() - j,
{
    if j < others.len() && lies_before(others[j], e) {
        assert forall|q: int| 0 <= q < j + 1 implies lies_before(#[trigger] others[q], e) by {}
        lemma_advance_parts(others, j + 1, e);
    } else {
        assert forall|q: int| j <= q < others.len() implies !lies_before(
            #[trigger] others[q],
            e,
        ) by {
            if q > j {
                assert(!lies_before(others[q], others[j]));
            }
        }
    }
}

/// For lists in order, the pointer of each row parts the other list at it.
pub proof fn lemma_pointer_parts(rows: Seq<MinEvent>, others: Seq<MinEvent>, t: int)
    requires
        in_order(rows),
        in_order(others),
        0 <= t < rows.len(),
    ensures
        parts_at(others, pointer(rows, others, t + 1), rows[t]),
    decreases t,
{
    let before = pointer(rows, others, t);
    if t > 0 {
        lemma_pointer_parts(rows, others, t - 1);
        assert(!lies_before(rows[t], rows[t - 1]));
        assert forall|q: int| 0 <= q < before implies lies_before(
            #[trigger] others[q],
            rows[t],
        ) by {
            assert(lies_before(others[q], rows[t - 1]));
        }
    }
    lemma_advance_parts(others, before, rows[t]);
}

/// What a scan to the right holds from place `from` on.
proof fn lemma_scan_right(
    others: Seq<MinEvent>,
    j: int,
    from: int,
    e: MinEvent,
    k: nat,
    seen: nat,
    last: Option<i64>,
)
    requires
        in_order(others),
        parts_at(others, j, e),
        j <= from <= others.len(),
        forall|q: int| j <= q < from ==> (#[trigger] others[q]).chr == e.chr,
        from == j ==> last is None && seen == 0,
        from > j ==> last == Some(others[from - 1].pos) && seen <= k && seen == values_within(
            positions_of(others, e.chr),
            e.pos as int,
            others[from - 1].pos + 1,
        ).len(),
    ensures
        forall|h: Nearest| #[trigger]
            scan_right(others, from, e, k, seen, last).contains(h) <==> exists|q: int|
                from <= q < others.len() && #[trigger] right_hit_at(others, e, k, q, h),
    decreases others.len() - from,
{
    let occurs = positions_of(others, e.chr);
    lemma_positions_finite(others, e.chr);
    let out = scan_right(others, from, e, k, seen, last);
    let lo = e.pos as int;
    if from >= others.len() {
    } else if others[from].chr != e.chr {
        assert(!lies_before(others[from], e));
        assert forall|q: int| from <= q < others.len() implies (#[trigger] others[q]).chr
            != e.chr by {
            if q > from {
                assert(!lies_before(others[q], others[from]));
            }
        }
    } else {
        let s = others[from];
        assert(!lies_before(s, e));
        let hi = if last is None { lo } else { last->0 + 1 };
        let fresh = last is None || s.pos != last->0;
        let seen_now = if fresh { seen + 1 } else { seen };
        assert(occurs.contains(s.pos));
        if from > j {
            assert(!lies_before(others[from], others[from - 1]));
            assert(others[from - 1].chr == e.chr);
        }
        // how the positions of the group lie about this place
        assert forall|p: i64| occurs.contains(p) implies !(hi <= p < s.pos) && (p < lo || p < hi
            || p >= s.pos) by {
            let q = choose|q: int|
                0 <= q < others.len() && (#[trigger] others[q]).chr == e.chr && others[q].pos
                    == p;
            if q < j {
                assert(lies_before(others[q], e));
            } else if q < from {
                if q < from - 1 {
                    assert(!lies_before(others[from - 1], others[q]));
                }
            } else if q > from {
                assert(!lies_before(others[q], others[from]));
            }
        }
        assert(seen == values_within(occurs, lo, hi).len()) by {
            if last is None {
                assert(values_within(occurs, lo, hi) =~= Set::<i64>::empty());
            }
        }
        let below = values_within(occurs, lo, s.pos as int);
        if fresh {
            lemma_within_same(occurs, lo, hi, lo, s.pos as int);
            lemma_within_one_more(occurs, lo, s.pos as int, lo, s.pos + 1, s.pos);
        } else {
            lemma_within_one_more(occurs, lo, s.pos as int, lo, s.pos + 1, s.pos);
        }
        if fresh && seen_now > k {
            assert forall|q: int, h: Nearest| from <= q < others.len() implies !#[trigger] right_hit_at(
                others,
                e,
                k,
                q,
                h,
            ) by {
                if q > from {
                    assert(!lies_before(others[q], others[from]));
                }
                if others[q].chr == e.chr {
                    lemma_within_grows(occurs, lo, s.pos as int, lo, others[q].pos as int);
                }
            }
        } else {
            let hit = Nearest { distance: reach(e.pos, s.pos), idx: e.idx, idx2: s.idx };
            let rest = scan_right(others, from + 1, e, k, seen_now, Some(s.pos));
            assert(out == seq![hit] + rest);
            assert forall|q: int| j <= q < from + 1 implies (#[trigger] others[q]).chr
                == e.chr by {}
            lemma_scan_right(others, j, from + 1, e, k, seen_now, Some(s.pos));
            assert(right_hit_at(others, e, k, from, hit));
            assert forall|h: Nearest| #[trigger]
                out.contains(h) <==> exists|q: int|
                    from <= q < others.len() && #[trigger] right_hit_at(others, e, k, q, h) by {
                if out.contains(h) {
                    let at = choose|at: int| 0 <= at < out.len() && out[at] == h;
                    if at == 0 {
                        assert(right_hit_at(others, e, k, from, h));
                    } else {
                        assert(rest[at - 1] == h);
                        assert(rest.contains(h));
                        let q = choose|q: int|
                            from + 1 <= q < others.len() && #[trigger] right_hit_at(
                                others,
                                e,
                                k,
                                q,
                                h,
                            );
                        assert(from <= q < others.len() && right_hit_at(others, e, k, q, h));
                    }
                }
                if exists|q: int|
                    from <= q < others.len() && #[trigger] right_hit_at(others, e, k, q, h) {
                    let q = choose|q: int|
                        from <= q < others.len() && #[trigger] right_hit_at(others, e, k, q, h);
                    if q == from {
                        assert(out[0] == h);
                    } else {
                        assert(from + 1 <= q < others.len() && right_hit_at(others, e, k, q, h));
                        assert(rest.contains(h));
                        let at = choose|at: int| 0 <= at < rest.len() && rest[at] == h;
                        assert(out[at + 1] == h);
                    }
                }
            }
        }
    }
}

/// What a scan to the left holds from place `from` down.
proof fn lemma_scan_left(
    others: Seq<MinEvent>,
    j: int,
    from: int,
    e: MinEvent,
    k: nat,
    seen: nat,
    last: Option<i64>,
)
    requires
        in_order(others),
        parts_at(others, j, e),
        -1 <= from < j,
        forall|q: int| from < q < j ==> (#[trigger] others[q]).chr == e.chr,
        from == j - 1 ==> last is None && seen == 0,
        from < j - 1 ==> last == Some(others[from + 1].pos) && seen <= k && seen == values_within(
            positions_of(others, e.chr),
            others[from + 1].pos as int,
            e.pos as int,
        ).len(),
    ensures
        forall|h: Nearest| #[trigger]
            scan_left(others, from, e, k, seen, last).contains(h) <==> exists|q: int|
                0 <= q <= from && #[trigger] left_hit_at(others, e, k, q, h),
    decreases from + 1,
{
    let occurs = positions_of(others, e.chr);
    lemma_positions_finite(others, e.chr);
    let out = scan_left(others, from, e, k, seen, last);
    let hi = e.pos as int;
    if from < 0 {
    } else if others[from].chr != e.chr {
        assert(lies_before(others[from], e));
        assert forall|q: int| 0 <= q <= from implies (#[trigger] others[q]).chr != e.chr by {
            if q < from {
                assert(!lies_before(others[from], others[q]));
            }
        }
    } else {
        let s = others[from];
        assert(lies_before(s, e));
        let lo = if last is None { hi } else { last->0 as int };
        let fresh = last is None || s.pos != last->0;
        let seen_now = if fresh { seen + 1 } else { seen };
        assert(occurs.contains(s.pos));
        if from < j - 1 {
            assert(!lies_before(others[from + 1], others[from]));
            assert(others[from + 1].chr == e.chr);
            assert(lies_before(others[from + 1], e));
        }
        // how the positions of the group lie about this place
        assert forall|p: i64| occurs.contains(p) implies !(s.pos < p < lo) by {
            let q = choose|q: int|
                0 <= q < others.len() && (#[trigger] others[q]).chr == e.chr && others[q].pos
                    == p;
            if q >= j {
                assert(!lies_before(others[q], e));
            } else if q > from {
                if q > from + 1 {
                    assert(!lies_before(others[q], others[from + 1]));
                }
            } else if q < from {
                assert(!lies_before(others[from], others[q]));
            }
        }
        assert(seen == values_within(occurs, lo, hi).len()) by {
            if last is None {
                assert(values_within(occurs, lo, hi) =~= Set::<i64>::empty());
            }
        }
        if fresh {
            lemma_within_same(occurs, lo, hi, s.pos + 1, hi);
            lemma_within_one_more(occurs, s.pos + 1, hi, s.pos as int, hi, s.pos);
        } else {
            lemma_within_one_more(occurs, s.pos + 1, hi, s.pos as int, hi, s.pos);
        }
        if fresh && seen_now > k {
            assert forall|q: int, h: Nearest| 0 <= q <= from implies !#[trigger] left_hit_at(
                others,
                e,
                k,
                q,
                h,
            ) by {
                if q < from {
                    assert(!lies_before(others[from], others[q]));
                }
                if others[q].chr == e.chr {
                    lemma_within_grows(occurs, s.pos + 1, hi, others[q].pos + 1, hi);
                }
            }
        } else {
            let hit = Nearest { distance: reach(s.pos, e.pos), idx: e.idx, idx2: s.idx };
            let rest = scan_left(others, from - 1, e, k, seen_now, Some(s.pos));
            assert(out == seq![hit] + rest);
            assert forall|q: int| from - 1 < q < j implies (#[trigger] others[q]).chr
                == e.chr by {}
            lemma_scan_left(others, j, from - 1, e, k, seen_now, Some(s.pos));
            assert(left_hit_at(others, e, k, from, hit));
            assert forall|h: Nearest| #[trigger]
                out.contains(h) <==> exists|q: int|
                    0 <= q <= from && #[trigger] left_hit_at(others, e, k, q, h) by {
                if out.contains(h) {
                    let at = choose|at: int| 0 <= at < out.len() && out[at] == h;
                    if at == 0 {
                        assert(left_hit_at(others, e, k, from, h));
                    } else {
                        assert(rest[at - 1] == h);
                        assert(rest.contains(h));
                        let q = choose|q: int|
                            0 <= q <= from - 1 && #[trigger] left_hit_at(others, e, k, q, h);
                        assert(0 <= q <= from && left_hit_at(others, e, k, q, h));
                    }
                }
                if exists|q: int| 0 <= q <= from && #[trigger] left_hit_at(others, e, k, q, h) {
                    let q = choose|q: int|
                        0 <= q <= from && #[trigger] left_hit_at(others, e, k, q, h);
                    if q == from {
                        assert(out[0] == h);
                    } else {
                        assert(0 <= q <= from - 1 && left_hit_at(others, e, k, q, h));
                        assert(rest.contains(h));
                        let at = choose|at: int| 0 <= at < rest.len() && rest[at] == h;
                        assert(out[at + 1] == h);
                    }
                }
            }
        }
    }
}

/// The hits of one row to its right are the items at the `k` nearest
/// positions at or behind it.
pub proof fn lemma_right_hits_of_row(
    rows: Seq<MinEvent>,
    others: Seq<MinEvent>,
    k: nat,
    t: int,
)
    requires
        in_order(rows),
        in_order(others),
        0 <= t < rows.len(),
    ensures
        forall|h: Nearest| #[trigger]
            scan_right(others, pointer(rows, others, t + 1), rows[t], k, 0, None).contains(h)
                <==> is_right_hit(others, rows[t], k, h),
{
    let j = pointer(rows, others, t + 1);
    let e = rows[t];
    lemma_pointer_parts(rows, others, t);
    lemma_scan_right(others, j, j, e, k, 0, None);
    assert forall|h: Nearest| #[trigger]
        scan_right(others, j, e, k, 0, None).contains(h) <==> is_right_hit(others, e, k, h) by {
        if is_right_hit(others, e, k, h) {
            let q = choose|q: int| 0 <= q < others.len() && #[trigger] right_hit_at(others, e, k, q, h);
            if q < j {
                assert(lies_before(others[q], e));
            }
            assert(j <= q < others.len() && right_hit_at(others, e, k, q, h));
        }
        if scan_right(others, j, e, k, 0, None).contains(h) {
            let q = choose|q: int| j <= q < others.len() && #[trigger] right_hit_at(others, e, k, q, h);
            assert(0 <= q < others.len() && right_hit_at(others, e, k, q, h));
        }
    }
}

/// The hits of one row to its left are the items at the `k` nearest
/// positions before it.
pub proof fn lemma_left_hits_of_row(
    rows: Seq<MinEvent>,
    others: Seq<MinEvent>,
    k: nat,
    t: int,
)
    requires
        in_order(rows),
        in_order(others),
        0 <= t < rows.len(),
    ensures
        forall|h: Nearest| #[trigger]
            scan_left(others, pointer(rows, others, t + 1) - 1, rows[t], k, 0, None).contains(h)
                <==> is_left_hit(others, rows[t], k, h),
{
    let j = pointer(rows, others, t + 1);
    let e = rows[t];
    lemma_pointer_parts(rows, others, t);
    lemma_scan_left(others, j, j - 1, e, k, 0, None);
    assert forall|h: Nearest| #[trigger]
        scan_left(others, j - 1, e, k, 0, None).contains(h) <==> is_left_hit(others, e, k, h) by {
        if is_left_hit(others, e, k, h) {
            let q = choose|q: int| 0 <= q < others.len() && #[trigger] left_hit_at(others, e, k, q, h);
            if q >= j {
                assert(!lies_before(others[q], e));
            }
            assert(0 <= q <= j - 1 && left_hit_at(others, e, k, q, h));
        }
        if scan_left(others, j - 1, e, k, 0, None).contains(h) {
            let q = choose|q: int| 0 <= q <= j - 1 && #[trigger] left_hit_at(others, e, k, q, h);
            assert(0 <= q < others.len() && left_hit_at(others, e, k, q, h));
        }
    }
}

/// `found` holds the hits to the right of each of `rows`, and nothing else.
pub open spec fn holds_right_hits(
    rows: Seq<MinEvent>,
    others: Seq<MinEvent>,
    k: nat,
    found: Seq<Nearest>,
) -> bool {
    forall|h: Nearest| #[trigger]
        found.contains(h) <==> exists|t: int|
            0 <= t < rows.len() && #[trigger] is_right_hit(others, rows[t], k, h)
}

/// `found` holds the hits to the left of each of `rows`, and nothing else.
pub open spec fn holds_left_hits(
    rows: Seq<MinEvent>,
    others: Seq<MinEvent>,
    k: nat,
    found: Seq<Nearest>,
) -> bool {
    forall|h: Nearest| #[trigger]
        found.contains(h) <==> exists|t: int|
            0 <= t < rows.len() && #[trigger] is_left_hit(others, rows[t], k, h)
}

/// What the first `n` rows find to their right.
proof fn lemma_right_hits_upto(rows: Seq<MinEvent>, others: Seq<MinEvent>, k: nat, n: int)
    requires
        in_order(rows),
        in_order(others),
        0 <= n <= rows.len(),
    ensures
        forall|h: Nearest| #[trigger]
            right_hits(rows, others, k, n).contains(h) <==> exists|t: int|
                0 <= t < n && #[trigger] is_right_hit(others, rows[t], k, h),
    decreases n,
{
    if n > 0 {
        lemma_right_hits_upto(rows, others, k, n - 1);
        lemma_right_hits_of_row(rows, others, k, n - 1);
        let before = right_hits(rows, others, k, n - 1);
        let block = scan_right(others, pointer(rows, others, n), rows[n - 1], k, 0, None);
        let same = scan_right(others, pointer(rows, others, n - 1 + 1), rows[n - 1], k, 0, None);
        assert(same == block);
        let now = right_hits(rows, others, k, n);
        assert(now == before + block);
        assert forall|h: Nearest| #[trigger]
            now.contains(h) <==> exists|t: int|
                0 <= t < n && #[trigger] is_right_hit(others, rows[t], k, h) by {
            if now.contains(h) {
                let at = choose|at: int| 0 <= at < now.len() && now[at] == h;
                if at < before.len() {
                    assert(before[at] == h);
                    assert(before.contains(h));
                    let t = choose|t: int|
                        0 <= t < n - 1 && #[trigger] is_right_hit(others, rows[t], k, h);
                    assert(0 <= t < n && is_right_hit(others, rows[t], k, h));
                } else {
                    assert(block[at - before.len()] == h);
                    assert(block.contains(h));
                    assert(same.contains(h));
                    assert(is_right_hit(others, rows[n - 1], k, h));
                }
            }
            if exists|t: int| 0 <= t < n && #[trigger] is_right_hit(others, rows[t], k, h) {
                let t = choose|t: int|
                    0 <= t < n && #[trigger] is_right_hit(others, rows[t], k, h);
                if t < n - 1 {
                    assert(before.contains(h));
                    let at = choose|at: int| 0 <= at < before.len() && before[at] == h;
                    assert(now[at] == h);
                } else {
                    assert(same.contains(h));
                    assert(block.contains(h));
                    let at = choose|at: int| 0 <= at < block.len() && block[at] == h;
                    assert(now[before.len() + at] == h);
                }
            }
        }
    }
}

/// What the first `n` rows find to their left.
proof fn lemma_left_hits_upto(rows: Seq<MinEvent>, others: Seq<MinEvent>, k: nat, n: int)
    requires
        in_order(rows),
        in_order(others),
        0 <= n <= rows.len(),
    ensures
        forall|h: Nearest| #[trigger]
            left_hits(rows, others, k, n).contains(h) <==> exists|t: int|
                0 <= t < n && #[trigger] is_left_hit(others, rows[t], k, h),
    decreases n,
{
    if n > 0 {
        lemma_left_hits_upto(rows, others, k, n - 1);
        lemma_left_hits_of_row(rows, others, k, n - 1);
        let before = left_hits(rows, others, k, n - 1);
        let block = scan_left(others, pointer(rows, others, n) - 1, rows[n - 1], k, 0, None);
        let same = scan_left(others, pointer(rows, others, n - 1 + 1) - 1, rows[n - 1], k, 0, None);
        assert(same == block);
        let now = left_hits(rows, others, k, n);
        assert(now == before + block);
        assert forall|h: Nearest| #[trigger]
            now.contains(h) <==> exists|t: int|
                0 <= t < n && #[trigger] is_left_hit(others, rows[t], k, h) by {
            if now.contains(h) {
                let at = choose|at: int| 0 <= at < now.len() && now[at] == h;
                if at < before.len() {
                    assert(before[at] == h);
                    assert(before.contains(h));
                    let t = choose|t: int|
                        0 <= t < n - 1 && #[trigger] is_left_hit(others, rows[t], k, h);
                    assert(0 <= t < n && is_left_hit(others, rows[t], k, h));
                } else {
                    assert(block[at - before.len()] == h);
                    assert(block.contains(h));
                    assert(same.contains(h));
                    assert(is_left_hit(others, rows[n - 1], k, h));
                }
            }
            if exists|t: int| 0 <= t < n && #[trigger] is_left_hit(others, rows[t], k, h) {
                let t = choose|t: int| 0 <= t < n && #[trigger] is_left_hit(others, rows[t], k, h);
                if t < n - 1 {
                    assert(before.contains(h));
                    let at = choose|at: int| 0 <= at < before.len() && before[at] == h;
                    assert(now[at] == h);
                } else {
                    assert(same.contains(h));
                    assert(block.contains(h));
                    let at = choose|at: int| 0 <= at < block.len() && block[at] == h;
                    assert(now[before.len() + at] == h);
                }
            }
        }
    }
}

/// The scan to the right is right: for lists in the order of groups and
/// positions, what it finds are, for each row, the items of its group at
/// the `k` nearest positions at or behind it, each at a distance of the
/// difference of the positions and one.
pub proof fn lemma_right_hits(rows: Seq<MinEvent>, others: Seq<MinEvent>, k: nat)
    requires
        in_order(rows),
        in_order(others),
    ensures
        holds_right_hits(rows, others, k, right_hits(rows, others, k, rows.len() as int)),
{
    lemma_right_hits_upto(rows, others, k, rows.len() as int);
}

/// The scan to the left is right: for lists in the order of groups and
/// positions, what it finds are, for each row, the items of its group at
/// the `k` nearest positions before it, each at a distance of the
/// difference of the positions and one.
pub proof fn lemma_left_hits(rows: Seq<MinEvent>, others: Seq<MinEvent>, k: nat)
    requires
        in_order(rows),
        in_order(others),
    ensures
        holds_left_hits(rows, others, k, left_hits(rows, others, k, rows.len() as int)),
{
    lemma_left_hits_upto(rows, others, k, rows.len() as int);
}

/// Positions sorted by group and position are in that order.
pub proof fn lemma_positions_in_order(events: Seq<MinEvent>)
    requires
        events.len() <= usize::MAX,
    ensures
        in_order(sorted_min_events(events)),
{
    let keys = Seq::new(events.len(), |r: int| min_event_key(events[r]));
    lemma_stable_order(keys);
    let order = stable_order(keys);
    let xs = sorted_min_events(events);
    assert forall|a: int, b: int| 0 <= a < b < xs.len() implies !lies_before(
        #[trigger] xs[b],
        #[trigger] xs[a],
    ) by {
        assert(row_lt(keys, order[a] as int, order[b] as int));
    }
}

/// The positions at which rows of group `g` of a table lie.
pub open spec fn group_positions(chrs: Seq<i64>, pos: Seq<i64>, g: i64) -> Set<i64> {
    Set::new(|p: i64| exists|j: int| 0 <= j < chrs.len() && #[trigger] chrs[j] == g && pos[j] == p)
}

/// Row `j` of the second table lies to the right of row `i` of the first,
/// and `h` records it: the rows lie in one group, row `j` at or behind row
/// `i`, fewer than `k` positions of the group lie from row `i` up to it,
/// and the distance is one more than the difference of the positions.
pub open spec fn lies_right_of(
    chrs: Seq<i64>,
    pos: Seq<i64>,
    chrs2: Seq<i64>,
    pos2: Seq<i64>,
    k: nat,
    i: int,
    j: int,
    h: Nearest,
) -> bool {
    &&& chrs2[j] == chrs[i]
    &&& pos[i] <= pos2[j]
    &&& values_within(group_positions(chrs2, pos2, chrs[i]), pos[i] as int, pos2[j] as int).len()
        < k
    &&& h == (Nearest { distance: reach(pos[i], pos2[j]), idx: i as u32, idx2: j as u32 })
}

/// Row `j` of the second table lies to the left of row `i` of the first,
/// and `h` records it: the rows lie in one group, row `j` before row `i`,
/// fewer than `k` positions of the group lie behind it and before row `i`,
/// and the distance is one more than the difference of the positions.
pub open spec fn lies_left_of(
    chrs: Seq<i64>,
    pos: Seq<i64>,
    chrs2: Seq<i64>,
    pos2: Seq<i64>,
    k: nat,
    i: int,
    j: int,
    h: Nearest,
) -> bool {
    &&& chrs2[j] == chrs[i]
    &&& pos2[j] < pos[i]
    &&& values_within(group_positions(chrs2, pos2, chrs[i]), pos2[j] + 1, pos[i] as int).len() < k
    &&& h == (Nearest { distance: reach(pos2[j], pos[i]), idx: i as u32, idx2: j as u32 })
}

/// `found` holds, for each row of the first table, the rows of the second
/// at the `k` nearest positions at or behind it, and nothing else.
pub open spec fn holds_right_neighbours(
    chrs: Seq<i64>,
    pos: Seq<i64>,
    chrs2: Seq<i64>,
    pos2: Seq<i64>,
    k: nat,
    found: Seq<Nearest>,
) -> bool {
    forall|h: Nearest| #[trigger]
        found.contains(h) <==> exists|i: int, j: int|
            0 <= i < chrs.len() && 0 <= j < chrs2.len() && #[trigger] lies_right_of(
                chrs,
                pos,
                chrs2,
                pos2,
                k,
                i,
                j,
                h,
            )
}

/// `found` holds, for each row of the first table, the rows of the second
/// at the `k` nearest positions before it, and nothing else.
pub open spec fn holds_left_neighbours(
    chrs: Seq<i64>,
    pos: Seq<i64>,
    chrs2: Seq<i64>,
    pos2: Seq<i64>,
    k: nat,
    found: Seq<Nearest>,
) -> bool {
    forall|h: Nearest| #[trigger]
        found.contains(h) <==> exists|i: int, j: int|
            0 <= i < chrs.len() && 0 <= j < chrs2.len() && #[trigger] lies_left_of(
                chrs,
                pos,
                chrs2,
                pos2,
                k,
                i,
                j,
                h,
            )
}

/// The positions of a table in order are its rows: each item is the
/// position of the row it names, and each row is there.
pub proof fn lemma_positions_are_rows(chrs: Seq<i64>, pos: Seq<i64>)
    requires
        chrs.len() == pos.len(),
        chrs.len() <= u32::MAX,
    ensures
        in_order(sorted_min_events(position_events(chrs, pos))),
        forall|t: int|
            0 <= t < sorted_min_events(position_events(chrs, pos)).len() ==> {
                let e = #[trigger] sorted_min_events(position_events(chrs, pos))[t];
                e.idx < chrs.len() && e.chr == chrs[e.idx as int] && e.pos == pos[e.idx as int]
            },
        forall|i: int|
            0 <= i < chrs.len() ==> sorted_min_events(position_events(chrs, pos)).contains(
                #[trigger] position_events(chrs, pos)[i],
            ),
        forall|g: i64|
            #![trigger group_positions(chrs, pos, g)]
            positions_of(sorted_min_events(position_events(chrs, pos)), g) == group_positions(
                chrs,
                pos,
                g,
            ),
{
    let events = position_events(chrs, pos);
    let keys = Seq::new(events.len(), |r: int| min_event_key(events[r]));
    let xs = sorted_min_events(events);
    lemma_positions_in_order(events);
    lemma_stable_order(keys);
    lemma_reorder_members(events, keys);
    lemma_reorder_keeps_all(events, keys);
    let order = stable_order(keys);
    assert forall|t: int| 0 <= t < xs.len() implies {
        let e = #[trigger] xs[t];
        e.idx < chrs.len() && e.chr == chrs[e.idx as int] && e.pos == pos[e.idx as int]
    } by {
        assert(xs[t] == events[order[t] as int]);
    }
    assert forall|g: i64|
        #![trigger group_positions(chrs, pos, g)]
        positions_of(xs, g) == group_positions(chrs, pos, g) by {
        assert forall|p: i64| positions_of(xs, g).contains(p) <==> group_positions(
            chrs,
            pos,
            g,
        ).contains(p) by {
            if positions_of(xs, g).contains(p) {
                let q = choose|q: int|
                    0 <= q < xs.len() && (#[trigger] xs[q]).chr == g && xs[q].pos == p;
                let j = xs[q].idx as int;
                assert(chrs[j] == g && pos[j] == p);
            }
            if group_positions(chrs, pos, g).contains(p) {
                let j = choose|j: int| 0 <= j < chrs.len() && #[trigger] chrs[j] == g && pos[j] == p;
                assert(xs.contains(events[j]));
                let q = choose|q: int| 0 <= q < xs.len() && xs[q] == events[j];
                assert(xs[q].chr == g && xs[q].pos == p);
            }
        }
        assert(positions_of(xs, g) =~= group_positions(chrs, pos, g));
    }
}

/// What the scan to the right finds, said of the rows of two tables: for
/// each row of the first table the rows of the second at the `k` nearest
/// positions at or behind it.
pub proof fn lemma_right_neighbours(
    chrs: Seq<i64>,
    pos: Seq<i64>,
    chrs2: Seq<i64>,
    pos2: Seq<i64>,
    k: nat,
    found: Seq<Nearest>,
)
    requires
        chrs.len() == pos.len(),
        chrs.len() <= u32::MAX,
        chrs2.len() == pos2.len(),
        chrs2.len() <= u32::MAX,
        holds_right_hits(
            sorted_min_events(position_events(chrs, pos)),
            sorted_min_events(position_events(chrs2, pos2)),
            k,
            found,
        ),
    ensures
        holds_right_neighbours(chrs, pos, chrs2, pos2, k, found),
{
    let rows = sorted_min_events(position_events(chrs, pos));
    let others = sorted_min_events(position_events(chrs2, pos2));
    lemma_positions_are_rows(chrs, pos);
    lemma_positions_are_rows(chrs2, pos2);
    assert forall|h: Nearest| #[trigger]
        found.contains(h) <==> exists|i: int, j: int|
            0 <= i < chrs.len() && 0 <= j < chrs2.len() && #[trigger] lies_right_of(
                chrs,
                pos,
                chrs2,
                pos2,
                k,
                i,
                j,
                h,
            ) by {
        if found.contains(h) {
            let t = choose|t: int|
                0 <= t < rows.len() && #[trigger] is_right_hit(others, rows[t], k, h);
            let e = rows[t];
            let q = choose|q: int|
                0 <= q < others.len() && #[trigger] right_hit_at(others, e, k, q, h);
            let i = e.idx as int;
            let j = others[q].idx as int;
            assert(positions_of(others, e.chr) == group_positions(chrs2, pos2, e.chr));
            assert(lies_right_of(chrs, pos, chrs2, pos2, k, i, j, h));
        }
        if exists|i: int, j: int|
            0 <= i < chrs.len() && 0 <= j < chrs2.len() && #[trigger] lies_right_of(
                chrs,
                pos,
                chrs2,
                pos2,
                k,
                i,
                j,
                h,
            ) {
            let (i, j) = choose|i: int, j: int|
                0 <= i < chrs.len() && 0 <= j < chrs2.len() && #[trigger] lies_right_of(
                    chrs,
                    pos,
                    chrs2,
                    pos2,
                    k,
                    i,
                    j,
                    h,
                );
            let e = position_events(chrs, pos)[i];
            let s = position_events(chrs2, pos2)[j];
            assert(rows.contains(e));
            assert(others.contains(s));
            let t = choose|t: int| 0 <= t < rows.len() && rows[t] == e;
            let q = choose|q: int| 0 <= q < others.len() && others[q] == s;
            assert(positions_of(others, e.chr) == group_positions(chrs2, pos2, e.chr));
            assert(right_hit_at(others, rows[t], k, q, h));
            assert(is_right_hit(others, rows[t], k, h));
        }
    }
}

/// What the scan to the left finds, said of the rows of two tables: for
/// each row of the first table the rows of the second at the `k` nearest
/// positions before it.
pub proof fn lemma_left_neighbours(
    chrs: Seq<i64>,
    pos: Seq<i64>,
    chrs2: Seq<i64>,
    pos2: Seq<i64>,
    k: nat,
    found: Seq<Nearest>,
)
    requires
        chrs.len() == pos.len(),
        chrs.len() <= u32::MAX,
        chrs2.len() == pos2.len(),
        chrs2.len() <= u32::MAX,
        holds_left_hits(
            sorted_min_events(position_events(chrs, pos)),
            sorted_min_events(position_events(chrs2, pos2)),
            k,
            found,
        ),
    ensures
        holds_left_neighbours(chrs, pos, chrs2, pos2, k, found),
{
    let rows = sorted_min_events(position_events(chrs, pos));
    let others = sorted_min_events(position_events(chrs2, pos2));
    lemma_positions_are_rows(chrs, pos);
    lemma_positions_are_rows(chrs2, pos2);
    assert forall|h: Nearest| #[trigger]
        found.contains(h) <==> exists|i: int, j: int|
            0 <= i < chrs.len() && 0 <= j < chrs2.len() && #[trigger] lies_left_of(
                chrs,
                pos,
                chrs2,
                pos2,
                k,
                i,
                j,
                h,
            ) by {
        if found.contains(h) {
            let t = choose|t: int|
                0 <= t < rows.len() && #[trigger] is_left_hit(others, rows[t], k, h);
            let e = rows[t];
            let q = choose|q: int|
                0 <= q < others.len() && #[trigger] left_hit_at(others, e, k, q, h);
            let i = e.idx as int;
            let j = others[q].idx as int;
            assert(positions_of(others, e.chr) == group_positions(chrs2, pos2, e.chr));
            assert(lies_left_of(chrs, pos, chrs2, pos2, k, i, j, h));
        }
        if exists|i: int, j: int|
            0 <= i < chrs.len() && 0 <= j < chrs2.len() && #[trigger] lies_left_of(
                chrs,
                pos,
                chrs2,
                pos2,
                k,
                i,
                j,
                h,
            ) {
            let (i, j) = choose|i: int, j: int|
                0 <= i < chrs.len() && 0 <= j < chrs2.len() && #[trigger] lies_left_of(
                    chrs,
                    pos,
                    chrs2,
                    pos2,
                    k,
                    i,
                    j,
                    h,
                );
            let e = position_events(chrs, pos)[i];
            let s = position_events(chrs2, pos2)[j];
            assert(rows.contains(e));
            assert(others.contains(s));
            let t = choose|t: int| 0 <= t < rows.len() && rows[t] == e;
            let q = choose|q: int| 0 <= q < others.len() && others[q] == s;
            assert(positions_of(others, e.chr) == group_positions(chrs2, pos2, e.chr));
            assert(left_hit_at(others, rows[t], k, q, h));
            assert(is_left_hit(others, rows[t], k, h));
        }
    }
}

} // verus!
