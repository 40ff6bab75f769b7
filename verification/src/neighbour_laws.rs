//! What the merge of the neighbours keeps, said without the merge: of what
//! three lists offer to a row, the items at the least distances.

use crate::nearest::{
    at_distance_zero, by_row_then_distance, distance_run, head_distance, kept_from, kept_of_row,
    least_head_row, least_of_three, merged_neighbours, nearest_key, pair_run, row_run,
};
use crate::nearest_laws::{
    lemma_within_grows, lemma_within_one_more, lemma_within_same, values_within,
};
use crate::overlaps::by_left_row;
use crate::radix::{
    key_le, lemma_reorder_keeps_all, lemma_reorder_members, lemma_stable_order, row_lt,
    stable_order,
};
use crate::ruranges_structs::{Nearest, OverlapPair};
use vstd::prelude::*;
use vstd::set_lib::lemma_len_subset;

verus! {

/// Distances ascend along `items`.
pub open spec fn distances_ascend(items: Seq<Nearest>) -> bool {
    forall|a: int, b: int|
        0 <= a < b < items.len() ==> (#[trigger] items[a]).distance <= (
        #[trigger] items[b]).distance
}

/// Rows ascend along `items`, and distances ascend within a row.
pub open spec fn rows_in_order(items: Seq<Nearest>) -> bool {
    forall|a: int, b: int|
        0 <= a < b < items.len() ==> (#[trigger] items[a]).idx < (#[trigger] items[b]).idx || (
        items[a].idx == items[b].idx && items[a].distance <= items[b].distance)
}

/// Rows ascend along `pairs`.
pub open spec fn pairs_in_order(pairs: Seq<OverlapPair>) -> bool {
    forall|a: int, b: int|
        0 <= a < b < pairs.len() ==> (#[trigger] pairs[a]).idx <= (#[trigger] pairs[b]).idx
}

/// `x` stands in `items` at or behind place `from`.
pub open spec fn in_tail(items: Seq<Nearest>, from: int, x: Nearest) -> bool {
    exists|q: int| from <= q < items.len() && #[trigger] items[q] == x
}

/// The distances of the items.
pub open spec fn distances(items: Seq<Nearest>) -> Set<i64> {
    Set::new(|d: i64| exists|q: int| 0 <= q < items.len() && (#[trigger] items[q]).distance == d)
}

/// The distances of the items of three lists.
pub open spec fn three_distances(o: Seq<Nearest>, l: Seq<Nearest>, r: Seq<Nearest>) -> Set<i64> {
    distances(o).union(distances(l)).union(distances(r))
}

/// An item of row `row` at distance `d` stands in `items`.
pub open spec fn has_at(items: Seq<Nearest>, row: u32, d: i64) -> bool {
    exists|q: int|
        0 <= q < items.len() && (#[trigger] items[q]).idx == row && items[q].distance == d
}

/// The distances at which the three lists offer neighbours to row `row`.
pub open spec fn row_distances(o: Seq<Nearest>, l: Seq<Nearest>, r: Seq<Nearest>, row: u32) -> Set<
    i64,
> {
    Set::new(|d: i64| has_at(o, row, d) || has_at(l, row, d) || has_at(r, row, d))
}

/// `x` is at one of the `k` least distances among `occurs`, and not at the
/// largest distance there is, which stands for no neighbour.
pub open spec fn among_least(occurs: Set<i64>, k: nat, x: Nearest) -> bool {
    x.distance < i64::MAX && values_within(occurs, i64::MIN as int, x.distance as int).len() < k
}

proof fn lemma_distances_finite(items: Seq<Nearest>)
    ensures
        distances(items).finite(),
{
    let all = items.map_values(|x: Nearest| x.distance);
    vstd::seq_lib::seq_to_set_is_finite(all);
    assert forall|d: i64| distances(items).contains(d) implies all.to_set().contains(d) by {
        let q = choose|q: int| 0 <= q < items.len() && (#[trigger] items[q]).distance == d;
        assert(all[q] == d);
    }
    lemma_len_subset(distances(items), all.to_set());
}

proof fn lemma_in_both<T>(a: Seq<T>, b: Seq<T>, x: T)
    ensures
        (a + b).contains(x) <==> (a.contains(x) || b.contains(x)),
{
    let ab = a + b;
    if ab.contains(x) {
        let q = choose|q: int| 0 <= q < ab.len() && ab[q] == x;
        if q < a.len() {
            assert(a[q] == x);
        } else {
            assert(b[q - a.len()] == x);
        }
    }
    if a.contains(x) {
        let q = choose|q: int| 0 <= q < a.len() && a[q] == x;
        assert(ab[q] == x);
    }
    if b.contains(x) {
        let q = choose|q: int| 0 <= q < b.len() && b[q] == x;
        assert(ab[a.len() + q] == x);
    }
}

/// A run of one distance: its items have that distance, and the item behind
/// it, if there is one, has another.
proof fn lemma_distance_run(items: Seq<Nearest>, from: int, d: i64)
    requires
        0 <= from <= items.len(),
    ensures
        from + distance_run(items, from, d) <= items.len(),
        forall|q: int|
            from <= q < from + distance_run(items, from, d) ==> (#[trigger] items[q]).distance == d,
        from + distance_run(items, from, d) < items.len() ==> items[from + distance_run(
            items,
            from,
            d,
        )].distance != d,
    decreases items.len() - from,
{
    if from < items.len() && items[from].distance == d {
        lemma_distance_run(items, from + 1, d);
    }
}

/// A run of one row: its items belong to that row, and the item behind it,
/// if there is one, belongs to another.
proof fn lemma_row_run(items: Seq<Nearest>, from: int, row: u32)
    requires
        0 <= from <= items.len(),
    ensures
        from + row_run(items, from, row) <= items.len(),
        forall|q: int| from <= q < from + row_run(items, from, row) ==> (#[trigger] items[q]).idx
            == row,
        from + row_run(items, from, row) < items.len() ==> items[from + row_run(
            items,
            from,
            row,
        )].idx != row,
    decreases items.len() - from,
{
    if from < items.len() && items[from].idx == row {
        lemma_row_run(items, from + 1, row);
    }
}

proof fn lemma_pair_run(pairs: Seq<OverlapPair>, from: int, row: u32)
    requires
        0 <= from <= pairs.len(),
    ensures
        pair_run(pairs, from, row) == row_run(at_distance_zero(pairs), from, row),
    decreases pairs.len() - from,
{
    if from < pairs.len() && pairs[from].idx == row {
        lemma_pair_run(pairs, from + 1, row);
    }
}

/// The places `oi`, `lj` and `rr` part the three lists at the distance
/// `f`: what stands before them is nearer than `f`, and nothing else is.
pub open spec fn parted_at_distance(
    o: Seq<Nearest>,
    l: Seq<Nearest>,
    r: Seq<Nearest>,
    oi: int,
    lj: int,
    rr: int,
    f: int,
) -> bool {
    &&& 0 <= oi <= o.len()
    &&& 0 <= lj <= l.len()
    &&& 0 <= rr <= r.len()
    &&& forall|q: int| 0 <= q < oi ==> (#[trigger] o[q]).distance < f
    &&& forall|q: int| oi <= q < o.len() ==> (#[trigger] o[q]).distance >= f
    &&& forall|q: int| 0 <= q < lj ==> (#[trigger] l[q]).distance < f
    &&& forall|q: int| lj <= q < l.len() ==> (#[trigger] l[q]).distance >= f
    &&& forall|q: int| 0 <= q < rr ==> (#[trigger] r[q]).distance < f
    &&& forall|q: int| rr <= q < r.len() ==> (#[trigger] r[q]).distance >= f
}

/// What one row keeps of its three lists from given places on: the items
/// that stand there at the `k` least distances of the row.
proof fn lemma_kept_of_row(
    o: Seq<Nearest>,
    l: Seq<Nearest>,
    r: Seq<Nearest>,
    oi: int,
    lj: int,
    rr: int,
    used: Set<i64>,
    distinct: nat,
    k: nat,
    f: int,
)
    requires
        distances_ascend(o),
        distances_ascend(l),
        distances_ascend(r),
        parted_at_distance(o, l, r, oi, lj, rr, f),
        forall|u: i64| used.contains(u) ==> u < f,
        distinct == values_within(three_distances(o, l, r), i64::MIN as int, f).len(),
    ensures
        forall|x: Nearest| #[trigger]
            kept_of_row(o, l, r, oi, lj, rr, used, distinct, k).contains(x) <==> ((in_tail(o, oi, x)
                || in_tail(l, lj, x) || in_tail(r, rr, x)) && among_least(
                three_distances(o, l, r),
                k,
                x,
            )),
    decreases (o.len() - oi) + (l.len() - lj) + (r.len() - rr),
{
    let occurs = three_distances(o, l, r);
    lemma_distances_finite(o);
    lemma_distances_finite(l);
    lemma_distances_finite(r);
    assert(occurs.finite());
    let low = i64::MIN as int;
    let out = kept_of_row(o, l, r, oi, lj, rr, used, distinct, k);
    let d = least_of_three(head_distance(o, oi), head_distance(l, lj), head_distance(r, rr));
    let co = distance_run(o, oi, d);
    let cl = distance_run(l, lj, d);
    let cr = distance_run(r, rr, d);
    lemma_distance_run(o, oi, d);
    lemma_distance_run(l, lj, d);
    lemma_distance_run(r, rr, d);
    // nothing that is left is nearer than `d`
    assert forall|q: int| oi <= q < o.len() implies (#[trigger] o[q]).distance >= d by {
        if q > oi {
            assert(o[oi].distance <= o[q].distance);
        }
    }
    assert forall|q: int| lj <= q < l.len() implies (#[trigger] l[q]).distance >= d by {
        if q > lj {
            assert(l[lj].distance <= l[q].distance);
        }
    }
    assert forall|q: int| rr <= q < r.len() implies (#[trigger] r[q]).distance >= d by {
        if q > rr {
            assert(r[rr].distance <= r[q].distance);
        }
    }
    if d == i64::MAX {
        assert(out == Seq::<Nearest>::empty());
        assert forall|x: Nearest| #[trigger]
            out.contains(x) <==> ((in_tail(o, oi, x) || in_tail(l, lj, x) || in_tail(r, rr, x))
                && among_least(occurs, k, x)) by {}
    } else {
        // `d` stands at the head of one of the lists
        assert(co + cl + cr > 0 && occurs.contains(d) && d >= f) by {
            if oi < o.len() && o[oi].distance == d {
                assert(distances(o).contains(d));
            } else if lj < l.len() && l[lj].distance == d {
                assert(distances(l).contains(d));
            } else {
                assert(rr < r.len() && r[rr].distance == d);
                assert(distances(r).contains(d));
            }
        }
        assert(!used.contains(d));
        // no distance lies from `f` up to `d`
        assert forall|p: i64| occurs.contains(p) implies !(f <= p < d) by {
            if distances(o).contains(p) {
                let q = choose|q: int| 0 <= q < o.len() && (#[trigger] o[q]).distance == p;
            } else if distances(l).contains(p) {
                let q = choose|q: int| 0 <= q < l.len() && (#[trigger] l[q]).distance == p;
            } else {
                let q = choose|q: int| 0 <= q < r.len() && (#[trigger] r[q]).distance == p;
            }
        }
        lemma_within_same(occurs, low, f, low, d as int);
        if distinct >= k {
            assert(out == Seq::<Nearest>::empty());
            assert forall|x: Nearest| #[trigger]
                out.contains(x) <==> ((in_tail(o, oi, x) || in_tail(l, lj, x) || in_tail(r, rr, x))
                    && among_least(occurs, k, x)) by {
                if in_tail(o, oi, x) || in_tail(l, lj, x) || in_tail(r, rr, x) {
                    assert(x.distance >= d) by {
                        if in_tail(o, oi, x) {
                            let q = choose|q: int| oi <= q < o.len() && #[trigger] o[q] == x;
                        } else if in_tail(l, lj, x) {
                            let q = choose|q: int| lj <= q < l.len() && #[trigger] l[q] == x;
                        } else {
                            let q = choose|q: int| rr <= q < r.len() && #[trigger] r[q] == x;
                        }
                    }
                    lemma_within_grows(occurs, low, d as int, low, x.distance as int);
                }
            }
        } else {
            lemma_within_one_more(occurs, low, d as int, low, d + 1, d);
            let so = o.subrange(oi, oi + co);
            let sl = l.subrange(lj, lj + cl);
            let sr = r.subrange(rr, rr + cr);
            let rest = kept_of_row(
                o,
                l,
                r,
                oi + co,
                lj + cl,
                rr + cr,
                used.insert(d),
                distinct + 1,
                k,
            );
            assert(out == so + sl + sr + rest);
            assert(parted_at_distance(o, l, r, oi + co, lj + cl, rr + cr, d + 1)) by {
                assert forall|q: int| oi + co <= q < o.len() implies (#[trigger] o[q]).distance >= d
                    + 1 by {
                    if q > oi + co {
                        assert(o[oi + co].distance <= o[q].distance);
                    }
                }
                assert forall|q: int| lj + cl <= q < l.len() implies (#[trigger] l[q]).distance >= d
                    + 1 by {
                    if q > lj + cl {
                        assert(l[lj + cl].distance <= l[q].distance);
                    }
                }
                assert forall|q: int| rr + cr <= q < r.len() implies (#[trigger] r[q]).distance >= d
                    + 1 by {
                    if q > rr + cr {
                        assert(r[rr + cr].distance <= r[q].distance);
                    }
                }
            }
            lemma_kept_of_row(
                o,
                l,
                r,
                oi + co,
                lj + cl,
                rr + cr,
                used.insert(d),
                distinct + 1,
                k,
                d + 1,
            );
            assert forall|x: Nearest| #[trigger]
                out.contains(x) <==> ((in_tail(o, oi, x) || in_tail(l, lj, x) || in_tail(r, rr, x))
                    && among_least(occurs, k, x)) by {
                lemma_in_both(so + sl + sr, rest, x);
                lemma_in_both(so + sl, sr, x);
                lemma_in_both(so, sl, x);
                lemma_run_or_tail(o, oi, co as int, d, x);
                lemma_run_or_tail(l, lj, cl as int, d, x);
                lemma_run_or_tail(r, rr, cr as int, d, x);
            }
        }
    }
}

/// An item behind place `from` stands in the run that begins there or
/// behind it, and the items of the run have its distance.
proof fn lemma_run_or_tail(items: Seq<Nearest>, from: int, n: int, d: i64, x: Nearest)
    requires
        0 <= from <= from + n <= items.len(),
        forall|q: int| from <= q < from + n ==> (#[trigger] items[q]).distance == d,
    ensures
        in_tail(items, from, x) <==> (items.subrange(from, from + n).contains(x) || in_tail(
            items,
            from + n,
            x,
        )),
        items.subrange(from, from + n).contains(x) ==> x.distance == d,
{
    let run = items.subrange(from, from + n);
    if in_tail(items, from, x) {
        let q = choose|q: int| from <= q < items.len() && #[trigger] items[q] == x;
        if q < from + n {
            assert(run[q - from] == x);
        } else {
            assert(from + n <= q < items.len() && items[q] == x);
        }
    }
    if run.contains(x) {
        let q = choose|q: int| 0 <= q < run.len() && run[q] == x;
        assert(from <= from + q < items.len() && items[from + q] == x);
    }
    if in_tail(items, from + n, x) {
        let q = choose|q: int| from + n <= q < items.len() && #[trigger] items[q] == x;
        assert(from <= q < items.len() && items[q] == x);
    }
}

/// The places `i`, `j` and `r` part the three lists at row `rf`: what
/// stands before them belongs to rows before `rf`, and nothing else does.
pub open spec fn parted_at_row(
    zero: Seq<Nearest>,
    left: Seq<Nearest>,
    right: Seq<Nearest>,
    i: int,
    j: int,
    r: int,
    rf: int,
) -> bool {
    &&& 0 <= i <= zero.len()
    &&& 0 <= j <= left.len()
    &&& 0 <= r <= right.len()
    &&& forall|q: int| 0 <= q < i ==> (#[trigger] zero[q]).idx < rf
    &&& forall|q: int| i <= q < zero.len() ==> (#[trigger] zero[q]).idx >= rf
    &&& forall|q: int| 0 <= q < j ==> (#[trigger] left[q]).idx < rf
    &&& forall|q: int| j <= q < left.len() ==> (#[trigger] left[q]).idx >= rf
    &&& forall|q: int| 0 <= q < r ==> (#[trigger] right[q]).idx < rf
    &&& forall|q: int| r <= q < right.len() ==> (#[trigger] right[q]).idx >= rf
}

/// The distances of the run of a row are the distances that the list
/// offers to the row.
proof fn lemma_run_distances(items: Seq<Nearest>, from: int, n: int, row: u32, d: i64)
    requires
        0 <= from <= from + n <= items.len(),
        forall|q: int| from <= q < from + n ==> (#[trigger] items[q]).idx == row,
        forall|q: int| 0 <= q < from ==> (#[trigger] items[q]).idx != row,
        forall|q: int| from + n <= q < items.len() ==> (#[trigger] items[q]).idx != row,
    ensures
        distances(items.subrange(from, from + n)).contains(d) <==> has_at(items, row, d),
{
    let run = items.subrange(from, from + n);
    if distances(run).contains(d) {
        let q = choose|q: int| 0 <= q < run.len() && (#[trigger] run[q]).distance == d;
        assert(items[from + q].idx == row && items[from + q].distance == d);
    }
    if has_at(items, row, d) {
        let q = choose|q: int|
            0 <= q < items.len() && (#[trigger] items[q]).idx == row && items[q].distance == d;
        assert(run[q - from].distance == d);
    }
}

/// What is kept of the three lists from given places on: the items that
/// stand there at the `k` least distances of their row.
proof fn lemma_kept_from(
    overlaps: Seq<OverlapPair>,
    left: Seq<Nearest>,
    right: Seq<Nearest>,
    i: int,
    j: int,
    r: int,
    k: nat,
    rf: int,
)
    requires
        pairs_in_order(overlaps),
        rows_in_order(left),
        rows_in_order(right),
        parted_at_row(at_distance_zero(overlaps), left, right, i, j, r, rf),
    ensures
        forall|x: Nearest| #[trigger]
            kept_from(overlaps, left, right, i, j, r, k).contains(x) <==> ((in_tail(
                at_distance_zero(overlaps),
                i,
                x,
            ) || in_tail(left, j, x) || in_tail(right, r, x)) && among_least(
                row_distances(at_distance_zero(overlaps), left, right, x.idx),
                k,
                x,
            )),
    decreases (overlaps.len() - i) + (left.len() - j) + (right.len() - r),
{
    let zero = at_distance_zero(overlaps);
    let out = kept_from(overlaps, left, right, i, j, r, k);
    let row = least_head_row(overlaps, left, right, i, j, r);
    let ci = pair_run(overlaps, i, row);
    let cj = row_run(left, j, row);
    let cr = row_run(right, r, row);
    lemma_pair_run(overlaps, i, row);
    lemma_row_run(zero, i, row);
    lemma_row_run(left, j, row);
    lemma_row_run(right, r, row);
    if ci + cj + cr == 0 {
        assert(i == zero.len() && j == left.len() && r == right.len()) by {
            if i < zero.len() {
                assert(zero[i].idx == overlaps[i].idx);
            }
        }
        assert(out == Seq::<Nearest>::empty());
    } else {
        // the rows that are left are at or behind `row`
        assert(row >= rf) by {
            if i < zero.len() {
                assert(zero[i].idx == overlaps[i].idx);
            }
        }
        assert forall|q: int| i <= q < zero.len() implies (#[trigger] zero[q]).idx >= row by {
            assert(zero[i].idx == overlaps[i].idx);
            assert(zero[q].idx == overlaps[q].idx);
            if q > i {
                assert(overlaps[i].idx <= overlaps[q].idx);
            }
        }
        assert forall|q: int| j <= q < left.len() implies (#[trigger] left[q]).idx >= row by {
            if q > j {
                assert(left[j].idx <= left[q].idx);
            }
        }
        assert forall|q: int| r <= q < right.len() implies (#[trigger] right[q]).idx >= row by {
            if q > r {
                assert(right[r].idx <= right[q].idx);
            }
        }
        assert(parted_at_row(zero, left, right, i + ci, j + cj, r + cr, row + 1)) by {
            assert forall|q: int| i + ci <= q < zero.len() implies (#[trigger] zero[q]).idx >= row
                + 1 by {
                assert(zero[q].idx == overlaps[q].idx);
                assert(zero[i + ci].idx == overlaps[i + ci].idx);
                if q > i + ci {
                    assert(overlaps[i + ci].idx <= overlaps[q].idx);
                }
            }
            assert forall|q: int| j + cj <= q < left.len() implies (#[trigger] left[q]).idx >= row
                + 1 by {
                if q > j + cj {
                    assert(left[j + cj].idx <= left[q].idx);
                }
            }
            assert forall|q: int| r + cr <= q < right.len() implies (#[trigger] right[q]).idx
                >= row + 1 by {
                if q > r + cr {
                    assert(right[r + cr].idx <= right[q].idx);
                }
            }
        }
        let o = at_distance_zero(overlaps.subrange(i, i + ci));
        let l = left.subrange(j, j + cj);
        let rr = right.subrange(r, r + cr);
        assert(o =~= zero.subrange(i, i + ci));
        let block = kept_of_row(o, l, rr, 0, 0, 0, Set::empty(), 0, k);
        let rest = kept_from(overlaps, left, right, i + ci, j + cj, r + cr, k);
        assert(out == block + rest);
        let occurs = three_distances(o, l, rr);
        assert(occurs =~= row_distances(zero, left, right, row)) by {
            assert forall|d: i64| occurs.contains(d) <==> row_distances(
                zero,
                left,
                right,
                row,
            ).contains(d) by {
                lemma_run_distances(zero, i, ci as int, row, d);
                lemma_run_distances(left, j, cj as int, row, d);
                lemma_run_distances(right, r, cr as int, row, d);
            }
        }
        assert(distances_ascend(o));
        assert(distances_ascend(l)) by {
            assert forall|a: int, b: int| 0 <= a < b < l.len() implies (#[trigger] l[a]).distance
                <= (#[trigger] l[b]).distance by {
                assert(left[j + a].idx == row && left[j + b].idx == row);
            }
        }
        assert(distances_ascend(rr)) by {
            assert forall|a: int, b: int| 0 <= a < b < rr.len() implies (#[trigger] rr[a]).distance
                <= (#[trigger] rr[b]).distance by {
                assert(right[r + a].idx == row && right[r + b].idx == row);
            }
        }
        let low = i64::MIN as int;
        assert(values_within(occurs, low, low) =~= Set::<i64>::empty());
        lemma_kept_of_row(o, l, rr, 0, 0, 0, Set::empty(), 0, k, low);
        lemma_kept_from(overlaps, left, right, i + ci, j + cj, r + cr, k, row + 1);
        assert forall|x: Nearest| #[trigger]
            out.contains(x) <==> ((in_tail(zero, i, x) || in_tail(left, j, x) || in_tail(
                right,
                r,
                x,
            )) && among_least(row_distances(zero, left, right, x.idx), k, x)) by {
            lemma_in_both(block, rest, x);
            lemma_row_or_tail(zero, i, ci as int, row, x);
            lemma_row_or_tail(left, j, cj as int, row, x);
            lemma_row_or_tail(right, r, cr as int, row, x);
        }
    }
}

/// An item behind place `from` stands in the run of row `row` that begins
/// there, if it belongs to that row, and behind the run if it does not.
proof fn lemma_row_or_tail(items: Seq<Nearest>, from: int, n: int, row: u32, x: Nearest)
    requires
        0 <= from <= from + n <= items.len(),
        forall|q: int| from <= q < from + n ==> (#[trigger] items[q]).idx == row,
        forall|q: int| from + n <= q < items.len() ==> (#[trigger] items[q]).idx != row,
    ensures
        in_tail(items, from, x) && x.idx == row <==> in_tail(items.subrange(from, from + n), 0, x),
        in_tail(items, from, x) && x.idx != row <==> in_tail(items, from + n, x),
{
    let run = items.subrange(from, from + n);
    if in_tail(items, from, x) {
        let q = choose|q: int| from <= q < items.len() && #[trigger] items[q] == x;
        if q < from + n {
            assert(0 <= q - from < run.len() && run[q - from] == x);
        } else {
            assert(from + n <= q < items.len() && items[q] == x);
        }
    }
    if in_tail(run, 0, x) {
        let q = choose|q: int| 0 <= q < run.len() && #[trigger] run[q] == x;
        assert(from <= from + q < items.len() && items[from + q] == x);
    }
    if in_tail(items, from + n, x) {
        let q = choose|q: int| from + n <= q < items.len() && #[trigger] items[q] == x;
        assert(from <= q < items.len() && items[q] == x);
    }
}

/// `out` keeps the nearest of what three lists offer: it holds an item
/// exactly if one of the lists offers it, an overlap being offered at
/// distance zero, and its distance is one of the `k` least at which the
/// lists offer anything to its row. It is in the order of rows, distances
/// and rows of the other table.
pub open spec fn keeps_nearest(
    overlaps: Seq<OverlapPair>,
    left: Seq<Nearest>,
    right: Seq<Nearest>,
    k: nat,
    out: Seq<Nearest>,
) -> bool {
    &&& forall|x: Nearest| #[trigger]
        out.contains(x) <==> ((at_distance_zero(overlaps).contains(x) || left.contains(x)
            || right.contains(x)) && among_least(
            row_distances(at_distance_zero(overlaps), left, right, x.idx),
            k,
            x,
        ))
    &&& forall|a: int, b: int|
        0 <= a < b < out.len() ==> key_le(
            nearest_key(#[trigger] out[a]),
            nearest_key(#[trigger] out[b]),
        )
}

/// The merge is right: where each of the three lists is in the order of
/// rows, and the neighbours of a row in the order of their distances, what
/// is kept are the items at the `k` least distances of each row.
pub proof fn lemma_merge_keeps_nearest(
    overlaps: Seq<OverlapPair>,
    left: Seq<Nearest>,
    right: Seq<Nearest>,
    k: nat,
)
    requires
        pairs_in_order(overlaps),
        rows_in_order(left),
        rows_in_order(right),
        overlaps.len() + left.len() + right.len() <= usize::MAX,
    ensures
        keeps_nearest(overlaps, left, right, k, merged_neighbours(overlaps, left, right, k)),
{
    lemma_kept_len(overlaps, left, right, 0, 0, 0, k);
    lemma_merged_keeps_nearest(overlaps, left, right, k);
}

/// As `lemma_merge_keeps_nearest`, for lists of which what is kept can be
/// numbered.
pub proof fn lemma_merged_keeps_nearest(
    overlaps: Seq<OverlapPair>,
    left: Seq<Nearest>,
    right: Seq<Nearest>,
    k: nat,
)
    requires
        pairs_in_order(overlaps),
        rows_in_order(left),
        rows_in_order(right),
        kept_from(overlaps, left, right, 0, 0, 0, k).len() <= usize::MAX,
    ensures
        keeps_nearest(overlaps, left, right, k, merged_neighbours(overlaps, left, right, k)),
{
    let zero = at_distance_zero(overlaps);
    let kept = kept_from(overlaps, left, right, 0, 0, 0, k);
    let out = merged_neighbours(overlaps, left, right, k);
    lemma_kept_from(overlaps, left, right, 0, 0, 0, k, 0);
    let keys = Seq::new(kept.len(), |q: int| nearest_key(kept[q]));
    lemma_stable_order(keys);
    lemma_reorder_members(kept, keys);
    lemma_reorder_keeps_all(kept, keys);
    let order = stable_order(keys);
    assert forall|x: Nearest| #[trigger]
        out.contains(x) <==> ((zero.contains(x) || left.contains(x) || right.contains(x))
            && among_least(row_distances(zero, left, right, x.idx), k, x)) by {
        if out.contains(x) {
            let q = choose|q: int| 0 <= q < out.len() && out[q] == x;
            assert(kept.contains(out[q]));
        }
        if kept.contains(x) {
            let q = choose|q: int| 0 <= q < kept.len() && kept[q] == x;
            assert(out.contains(kept[q]));
        }
        lemma_tail_is_all(zero, x);
        lemma_tail_is_all(left, x);
        lemma_tail_is_all(right, x);
    }
    assert forall|a: int, b: int| 0 <= a < b < out.len() implies key_le(
        nearest_key(#[trigger] out[a]),
        nearest_key(#[trigger] out[b]),
    ) by {
        assert(row_lt(keys, order[a] as int, order[b] as int));
    }
}

proof fn lemma_tail_is_all(items: Seq<Nearest>, x: Nearest)
    ensures
        in_tail(items, 0, x) <==> items.contains(x),
{
    if in_tail(items, 0, x) {
        let q = choose|q: int| 0 <= q < items.len() && #[trigger] items[q] == x;
        assert(items[q] == x);
    }
    if items.contains(x) {
        let q = choose|q: int| 0 <= q < items.len() && items[q] == x;
        assert(0 <= q < items.len() && items[q] == x);
    }
}

/// A row keeps no more than its lists hold.
proof fn lemma_kept_of_row_len(
    o: Seq<Nearest>,
    l: Seq<Nearest>,
    r: Seq<Nearest>,
    oi: int,
    lj: int,
    rr: int,
    used: Set<i64>,
    distinct: nat,
    k: nat,
)
    requires
        0 <= oi <= o.len(),
        0 <= lj <= l.len(),
        0 <= rr <= r.len(),
    ensures
        kept_of_row(o, l, r, oi, lj, rr, used, distinct, k).len() <= (o.len() - oi) + (l.len()
            - lj) + (r.len() - rr),
    decreases (o.len() - oi) + (l.len() - lj) + (r.len() - rr),
{
    let d = least_of_three(head_distance(o, oi), head_distance(l, lj), head_distance(r, rr));
    let co = distance_run(o, oi, d);
    let cl = distance_run(l, lj, d);
    let cr = distance_run(r, rr, d);
    lemma_distance_run(o, oi, d);
    lemma_distance_run(l, lj, d);
    lemma_distance_run(r, rr, d);
    if co + cl + cr == 0 || d == i64::MAX {
    } else if !used.contains(d) && distinct >= k {
    } else {
        lemma_kept_of_row_len(
            o,
            l,
            r,
            oi + co,
            lj + cl,
            rr + cr,
            used.insert(d),
            if used.contains(d) { distinct } else { distinct + 1 },
            k,
        );
    }
}

/// No more is kept than the lists hold.
proof fn lemma_kept_len(
    overlaps: Seq<OverlapPair>,
    left: Seq<Nearest>,
    right: Seq<Nearest>,
    i: int,
    j: int,
    r: int,
    k: nat,
)
    requires
        0 <= i <= overlaps.len(),
        0 <= j <= left.len(),
        0 <= r <= right.len(),
    ensures
        kept_from(overlaps, left, right, i, j, r, k).len() <= (overlaps.len() - i) + (left.len()
            - j) + (right.len() - r),
    decreases (overlaps.len() - i) + (left.len() - j) + (right.len() - r),
{
    let row = least_head_row(overlaps, left, right, i, j, r);
    let ci = pair_run(overlaps, i, row);
    let cj = row_run(left, j, row);
    let cr = row_run(right, r, row);
    lemma_pair_run(overlaps, i, row);
    lemma_row_run(at_distance_zero(overlaps), i, row);
    lemma_row_run(left, j, row);
    lemma_row_run(right, r, row);
    if ci + cj + cr > 0 {
        lemma_kept_of_row_len(
            at_distance_zero(overlaps.subrange(i, i + ci)),
            left.subrange(j, j + cj),
            right.subrange(r, r + cr),
            0,
            0,
            0,
            Set::empty(),
            0,
            k,
        );
        lemma_kept_len(overlaps, left, right, i + ci, j + cj, r + cr, k);
    }
}

/// Neighbours sorted by row and distance are in that order, and are the
/// neighbours that were sorted.
pub proof fn lemma_by_row_then_distance(items: Seq<Nearest>)
    requires
        items.len() <= usize::MAX,
    ensures
        rows_in_order(by_row_then_distance(items)),
        forall|x: Nearest| #[trigger] by_row_then_distance(items).contains(x) <==> items.contains(x),
{
    let keys = Seq::new(items.len(), |q: int| (items[q].idx as i64, items[q].distance, 0i64));
    lemma_stable_order(keys);
    lemma_reorder_members(items, keys);
    lemma_reorder_keeps_all(items, keys);
    let order = stable_order(keys);
    let out = by_row_then_distance(items);
    assert forall|a: int, b: int| 0 <= a < b < out.len() implies (#[trigger] out[a]).idx < (
    #[trigger] out[b]).idx || (out[a].idx == out[b].idx && out[a].distance <= out[b].distance) by {
        assert(row_lt(keys, order[a] as int, order[b] as int));
    }
    assert forall|x: Nearest| #[trigger] out.contains(x) <==> items.contains(x) by {
        if out.contains(x) {
            let q = choose|q: int| 0 <= q < out.len() && out[q] == x;
            assert(items.contains(out[q]));
        }
        if items.contains(x) {
            let q = choose|q: int| 0 <= q < items.len() && items[q] == x;
            assert(out.contains(items[q]));
        }
    }
}

/// Pairs sorted by the row of the first table are in the order of these rows.
pub proof fn lemma_by_left_row(pairs: Seq<OverlapPair>)
    requires
        pairs.len() <= usize::MAX,
    ensures
        pairs_in_order(by_left_row(pairs)),
{
    let keys = Seq::new(pairs.len(), |q: int| (pairs[q].idx as i64, 0i64, 0i64));
    lemma_stable_order(keys);
    let order = stable_order(keys);
    let out = by_left_row(pairs);
    assert forall|a: int, b: int| 0 <= a < b < out.len() implies (#[trigger] out[a]).idx <= (
    #[trigger] out[b]).idx by {
        assert(row_lt(keys, order[a] as int, order[b] as int));
    }
}

} // verus!
