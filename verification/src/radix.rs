//! Stable sorting of rows by integer keys, done by radix sort.

use vstd::prelude::*;

verus! {

/// A row number together with the key the row is sorted by. The three parts of
/// the key are compared in turn, the first being the most significant.
#[derive(Debug, Clone, Copy)]
pub struct Keyed {
    pub key: (i64, i64, i64),
    pub row: usize,
}

/// Lexicographic order on keys.
pub open spec fn key_lt(a: (i64, i64, i64), b: (i64, i64, i64)) -> bool {
    a.0 < b.0 || (a.0 == b.0 && (a.1 < b.1 || (a.1 == b.1 && a.2 < b.2)))
}

pub open spec fn key_le(a: (i64, i64, i64), b: (i64, i64, i64)) -> bool {
    key_lt(a, b) || a == b
}

/// Row `r1` comes before row `r2`: its key is smaller, or the keys are equal
/// and `r1` is the earlier row.
pub open spec fn row_lt(keys: Seq<(i64, i64, i64)>, r1: int, r2: int) -> bool {
    key_lt(keys[r1], keys[r2]) || (keys[r1] == keys[r2] && r1 < r2)
}

/// Each row of `order` comes before the rows behind it.
pub open spec fn rows_ascend(order: Seq<usize>, keys: Seq<(i64, i64, i64)>) -> bool {
    forall|a: int, b: int|
        0 <= a < b < order.len() ==> row_lt(keys, #[trigger] order[a] as int, #[trigger] order[b] as int)
}

/// `order` lists every row of `keys` once, by ascending key, rows of equal
/// key in the order in which they stand in `keys`.
pub open spec fn is_stable_order(order: Seq<usize>, keys: Seq<(i64, i64, i64)>) -> bool {
    &&& order.len() == keys.len()
    &&& forall|k: int| 0 <= k < order.len() ==> (#[trigger] order[k]) < keys.len()
    &&& forall|r: usize| r < keys.len() ==> #[trigger] order.contains(r)
    &&& rows_ascend(order, keys)
}

/// `order` with row `r` put behind every row whose key is not greater.
pub open spec fn insert_row(order: Seq<usize>, keys: Seq<(i64, i64, i64)>, r: usize) -> Seq<usize>
    decreases order.len(),
{
    if order.len() == 0 {
        seq![r]
    } else if key_le(keys[order.last() as int], keys[r as int]) {
        order.push(r)
    } else {
        insert_row(order.drop_last(), keys, r).push(order.last())
    }
}

/// The first `n` rows of `keys` in stable ascending order.
pub open spec fn stable_order_upto(keys: Seq<(i64, i64, i64)>, n: nat) -> Seq<usize>
    decreases n,
{
    if n == 0 {
        Seq::empty()
    } else {
        insert_row(stable_order_upto(keys, (n - 1) as nat), keys, (n - 1) as usize)
    }
}

/// The rows of `keys` by ascending key, rows of equal key in the order in
/// which they stand: what a stable sort by key makes of them.
pub open spec fn stable_order(keys: Seq<(i64, i64, i64)>) -> Seq<usize> {
    stable_order_upto(keys, keys.len())
}

/// `rows` rearranged as `order` says.
pub open spec fn reorder<T>(rows: Seq<T>, order: Seq<usize>) -> Seq<T> {
    Seq::new(order.len(), |k: int| rows[order[k] as int])
}

proof fn lemma_insert_row(order: Seq<usize>, keys: Seq<(i64, i64, i64)>, r: usize)
    requires
        rows_ascend(order, keys),
        forall|k: int| 0 <= k < order.len() ==> (#[trigger] order[k]) < r,
    ensures
        insert_row(order, keys, r).len() == order.len() + 1,
        rows_ascend(insert_row(order, keys, r), keys),
        forall|x: usize| #[trigger]
            insert_row(order, keys, r).contains(x) <==> (order.contains(x) || x == r),
    decreases order.len(),
{
    let out = insert_row(order, keys, r);
    if order.len() == 0 {
        assert(out[0] == r);
        assert forall|x: usize| #[trigger] out.contains(x) <==> (order.contains(x) || x == r) by {
            if x == r {
                assert(out[0] == x);
            }
        }
    } else if key_le(keys[order.last() as int], keys[r as int]) {
        assert forall|a: int, b: int| 0 <= a < b < out.len() implies row_lt(
            keys,
            #[trigger] out[a] as int,
            #[trigger] out[b] as int,
        ) by {
            if b == order.len() {
                assert(out[a] == order[a]);
                if a < order.len() - 1 {
                    assert(row_lt(keys, order[a] as int, order[order.len() - 1] as int));
                }
            } else {
                assert(out[a] == order[a] && out[b] == order[b]);
            }
        }
        assert forall|x: usize| #[trigger] out.contains(x) <==> (order.contains(x) || x == r) by {
            if x == r {
                assert(out[order.len() as int] == x);
            }
            if order.contains(x) {
                let k = choose|k: int| 0 <= k < order.len() && order[k] == x;
                assert(out[k] == x);
            }
            if out.contains(x) {
                let k = choose|k: int| 0 <= k < out.len() && out[k] == x;
                if k < order.len() {
                    assert(order[k] == x);
                }
            }
        }
    } else {
        let init = order.drop_last();
        let last = order.last();
        assert forall|a: int, b: int| 0 <= a < b < init.len() implies row_lt(
            keys,
            #[trigger] init[a] as int,
            #[trigger] init[b] as int,
        ) by {
            assert(init[a] == order[a] && init[b] == order[b]);
        }
        assert forall|k: int| 0 <= k < init.len() implies (#[trigger] init[k]) < r by {
            assert(init[k] == order[k]);
        }
        lemma_insert_row(init, keys, r);
        let mid = insert_row(init, keys, r);
        assert(out == mid.push(last));
        assert forall|a: int, b: int| 0 <= a < b < out.len() implies row_lt(
            keys,
            #[trigger] out[a] as int,
            #[trigger] out[b] as int,
        ) by {
            if b == mid.len() {
                assert(out[a] == mid[a]);
                assert(mid.contains(mid[a]));
                if init.contains(mid[a]) {
                    let k = choose|k: int| 0 <= k < init.len() && init[k] == mid[a];
                    assert(order[k] == mid[a]);
                    assert(row_lt(keys, order[k] as int, order[order.len() - 1] as int));
                }
            } else {
                assert(out[a] == mid[a] && out[b] == mid[b]);
            }
        }
        assert forall|x: usize| #[trigger] out.contains(x) <==> (order.contains(x) || x == r) by {
            if x == r {
                assert(mid.contains(x));
                let k = choose|k: int| 0 <= k < mid.len() && mid[k] == x;
                assert(out[k] == x);
            }
            if order.contains(x) {
                let k = choose|k: int| 0 <= k < order.len() && order[k] == x;
                if k < init.len() {
                    assert(init[k] == x);
                    assert(init.contains(x));
                    assert(mid.contains(x));
                    let m = choose|m: int| 0 <= m < mid.len() && mid[m] == x;
                    assert(out[m] == x);
                } else {
                    assert(out[mid.len() as int] == x);
                }
            }
            if out.contains(x) {
                let k = choose|k: int| 0 <= k < out.len() && out[k] == x;
                if k < mid.len() {
                    assert(mid[k] == x);
                    assert(mid.contains(x));
                    if init.contains(x) {
                        let m = choose|m: int| 0 <= m < init.len() && init[m] == x;
                        assert(order[m] == x);
                    }
                } else {
                    assert(order[order.len() - 1] == x);
                }
            }
        }
    }
}

proof fn lemma_stable_order_upto(keys: Seq<(i64, i64, i64)>, n: nat)
    requires
        n <= keys.len(),
        keys.len() <= usize::MAX,
    ensures
        stable_order_upto(keys, n).len() == n,
        rows_ascend(stable_order_upto(keys, n), keys),
        forall|x: usize| #[trigger] stable_order_upto(keys, n).contains(x) <==> x < n,
    decreases n,
{
    if n == 0 {
    } else {
        let prev = stable_order_upto(keys, (n - 1) as nat);
        lemma_stable_order_upto(keys, (n - 1) as nat);
        assert forall|k: int| 0 <= k < prev.len() implies (#[trigger] prev[k]) < (n - 1) as usize by {
            assert(prev.contains(prev[k]));
        }
        lemma_insert_row(prev, keys, (n - 1) as usize);
    }
}

/// The stable order is an order of all rows.
pub proof fn lemma_stable_order(keys: Seq<(i64, i64, i64)>)
    requires
        keys.len() <= usize::MAX,
    ensures
        is_stable_order(stable_order(keys), keys),
{
    lemma_stable_order_upto(keys, keys.len());
    let order = stable_order(keys);
    assert forall|k: int| 0 <= k < order.len() implies (#[trigger] order[k]) < keys.len() by {
        assert(order.contains(order[k]));
    }
}

/// Sorting rearranges: what comes out is as long as what went in, and each
/// item of it went in.
pub proof fn lemma_reorder_members<T>(rows: Seq<T>, keys: Seq<(i64, i64, i64)>)
    requires
        rows.len() == keys.len(),
        keys.len() <= usize::MAX,
    ensures
        reorder(rows, stable_order(keys)).len() == rows.len(),
        forall|k: int|
            0 <= k < rows.len() ==> rows.contains(#[trigger] reorder(rows, stable_order(keys))[k]),
{
    lemma_stable_order(keys);
    let order = stable_order(keys);
    assert forall|k: int| 0 <= k < rows.len() implies rows.contains(
        #[trigger] reorder(rows, order)[k],
    ) by {
        assert(order[k] < keys.len());
        assert(rows[order[k] as int] == reorder(rows, order)[k]);
    }
}

/// Sorting loses nothing: each item that went in comes out.
pub proof fn lemma_reorder_keeps_all<T>(rows: Seq<T>, keys: Seq<(i64, i64, i64)>)
    requires
        rows.len() == keys.len(),
        keys.len() <= usize::MAX,
    ensures
        forall|r: int|
            0 <= r < rows.len() ==> reorder(rows, stable_order(keys)).contains(#[trigger] rows[r]),
{
    lemma_stable_order(keys);
    let order = stable_order(keys);
    assert forall|r: int| 0 <= r < rows.len() implies reorder(rows, order).contains(
        #[trigger] rows[r],
    ) by {
        assert(order.contains(r as usize));
        let k = choose|k: int| 0 <= k < order.len() && order[k] == r as usize;
        assert(reorder(rows, order)[k] == rows[r]);
    }
}

/// Sorting repeats nothing: where no item stood twice, none does afterwards.
pub proof fn lemma_reorder_repeats_nothing<T>(rows: Seq<T>, keys: Seq<(i64, i64, i64)>)
    requires
        rows.len() == keys.len(),
        keys.len() <= usize::MAX,
        rows.no_duplicates(),
    ensures
        reorder(rows, stable_order(keys)).no_duplicates(),
{
    lemma_stable_order(keys);
    let order = stable_order(keys);
    let out = reorder(rows, order);
    assert forall|a: int, b: int| 0 <= a < out.len() && 0 <= b < out.len() && a != b implies out[a]
        != out[b] by {
        if a < b {
            assert(row_lt(keys, order[a] as int, order[b] as int));
        } else {
            assert(row_lt(keys, order[b] as int, order[a] as int));
        }
        assert(order[a] != order[b]);
    }
}

proof fn lemma_orders_agree(
    o1: Seq<usize>,
    o2: Seq<usize>,
    keys: Seq<(i64, i64, i64)>,
    k: int,
)
    requires
        is_stable_order(o1, keys),
        is_stable_order(o2, keys),
        0 <= k <= keys.len(),
    ensures
        forall|j: int| 0 <= j < k ==> o1[j] == o2[j],
    decreases k,
{
    if k > 0 {
        lemma_orders_agree(o1, o2, keys, k - 1);
        let m = k - 1;
        if o1[m] != o2[m] {
            let r1 = o1[m];
            let r2 = o2[m];
            assert(o2.contains(r1));
            let k2 = choose|k2: int| 0 <= k2 < o2.len() && o2[k2] == r1;
            if k2 < m {
                assert(row_lt(keys, o1[k2] as int, o1[m] as int));
            }
            assert(row_lt(keys, o2[m] as int, o2[k2] as int));
            assert(o1.contains(r2));
            let k1 = choose|k1: int| 0 <= k1 < o1.len() && o1[k1] == r2;
            if k1 < m {
                assert(row_lt(keys, o2[k1] as int, o2[m] as int));
            }
            assert(row_lt(keys, o1[m] as int, o1[k1] as int));
        }
    }
}

/// There is one stable order only.
pub proof fn lemma_stable_order_unique(order: Seq<usize>, keys: Seq<(i64, i64, i64)>)
    requires
        is_stable_order(order, keys),
        keys.len() <= usize::MAX,
    ensures
        order == stable_order(keys),
{
    lemma_stable_order(keys);
    lemma_orders_agree(order, stable_order(keys), keys, keys.len() as int);
    assert(order =~= stable_order(keys));
}

/// Sorts by `radsort::sort_by_key` on the `key` field. The sort is stable and
/// orders tuples lexicographically: afterwards the entries are the same, keys
/// ascend, and entries of equal key stand in the order of their rows, which
/// is the order they had before.
#[verifier::external_body]
fn radix_sort_keyed(entries: &mut Vec<Keyed>)
    requires
        forall|k: int| 0 <= k < old(entries).len() ==> (#[trigger] old(entries)[k]).row == k,
    ensures
        final(entries).len() == old(entries).len(),
        final(entries)@.to_multiset() == old(entries)@.to_multiset(),
        forall|a: int, b: int|
            0 <= a < b < final(entries).len() ==> key_le(
                (#[trigger] final(entries)[a]).key,
                (#[trigger] final(entries)[b]).key,
            ),
        forall|a: int, b: int|
            0 <= a < b < final(entries).len() && (#[trigger] final(entries)[a]).key == (
            #[trigger] final(entries)[b]).key ==> final(entries)[a].row < final(entries)[b].row,
{
    radsort::sort_by_key(entries, |e| e.key);
}

/// The rows of `keys` in stable ascending order of key.
pub fn sort_order(keys: &Vec<(i64, i64, i64)>) -> (order: Vec<usize>)
    ensures
        order@ == stable_order(keys@),
        is_stable_order(order@, keys@),
{
    let n = keys.len();
    let mut entries: Vec<Keyed> = Vec::new();
    let mut i: usize = 0;
    while i < n
        invariant
            n == keys.len(),
            i <= n,
            entries.len() == i,
            forall|k: int| 0 <= k < i ==> (#[trigger] entries[k]).row == k && entries[k].key == keys[k],
        decreases n - i,
    {
        entries.push(Keyed { key: keys[i], row: i });
        i += 1;
    }
    let ghost before = entries@;
    radix_sort_keyed(&mut entries);
    let mut order: Vec<usize> = Vec::new();
    let mut j: usize = 0;
    while j < n
        invariant
            n == entries.len(),
            j <= n,
            order.len() == j,
            forall|k: int| 0 <= k < j ==> #[trigger] order[k] == entries[k].row,
        decreases n - j,
    {
        order.push(entries[j].row);
        j += 1;
    }
    proof {
        before.to_multiset_ensures();
        entries@.to_multiset_ensures();
        assert forall|k: int| 0 <= k < n implies (#[trigger] entries[k]).row < n && entries[k].key
            == keys[entries[k].row as int] by {
            assert(entries@.contains(entries[k]));
            assert(entries@.to_multiset().count(entries[k]) > 0);
            assert(before.to_multiset().count(entries[k]) > 0);
            assert(before.contains(entries[k]));
            let r = choose|r: int| 0 <= r < before.len() && before[r] == entries[k];
            assert(before[r].row == r);
        }
        assert forall|r: usize| r < keys.len() implies #[trigger] order@.contains(r) by {
            let x = before[r as int];
            assert(before.contains(x));
            assert(before.to_multiset().count(x) > 0);
            assert(entries@.to_multiset().count(x) > 0);
            assert(entries@.contains(x));
            let k = choose|k: int| 0 <= k < entries.len() && entries[k] == x;
            assert(order[k] == r);
        }
        assert forall|a: int, b: int| 0 <= a < b < order.len() implies row_lt(
            keys@,
            #[trigger] order[a] as int,
            #[trigger] order[b] as int,
        ) by {
            assert(key_le(entries[a].key, entries[b].key));
            assert(entries[a].row == order[a] && entries[b].row == order[b]);
        }
        lemma_stable_order_unique(order@, keys@);
    }
    order
}

/// `rows` in stable ascending order of the keys that stand beside them.
pub fn sort_rows<T: Copy>(rows: &Vec<T>, keys: &Vec<(i64, i64, i64)>) -> (out: Vec<T>)
    requires
        rows.len() == keys.len(),
    ensures
        out@ == reorder(rows@, stable_order(keys@)),
        out.len() == rows.len(),
{
    let order = sort_order(keys);
    apply_order(rows, &order)
}

/// The items of `rows` in the order that `order` gives.
pub fn apply_order<T: Copy>(rows: &Vec<T>, order: &Vec<usize>) -> (out: Vec<T>)
    requires
        forall|k: int| 0 <= k < order.len() ==> (#[trigger] order[k]) < rows.len(),
    ensures
        out@ == reorder(rows@, order@),
{
    let mut out: Vec<T> = Vec::new();
    let mut k: usize = 0;
    while k < order.len()
        invariant
            k <= order.len(),
            out.len() == k,
            forall|j: int| 0 <= j < order.len() ==> (#[trigger] order[j]) < rows.len(),
            forall|j: int| 0 <= j < k ==> #[trigger] out[j] == rows[order[j] as int],
        decreases order.len() - k,
    {
        out.push(rows[order[k]]);
        k += 1;
    }
    assert(out@ =~= reorder(rows@, order@));
    out
}


/// The place of row `r` in `order`.
pub open spec fn place(order: Seq<usize>, r: int) -> int {
    choose|k: int| 0 <= k < order.len() && order[k] == r
}

/// In a stable order every row has one place, and a row stands before
/// another exactly if it comes before it.
pub proof fn lemma_places(order: Seq<usize>, keys: Seq<(i64, i64, i64)>)
    requires
        is_stable_order(order, keys),
        keys.len() <= usize::MAX,
    ensures
        forall|r: int|
            0 <= r < keys.len() ==> 0 <= #[trigger] place(order, r) < order.len() && order[place(
                order,
                r,
            )] == r,
        forall|k: int| 0 <= k < order.len() ==> place(order, #[trigger] order[k] as int) == k,
        forall|r1: int, r2: int|
            0 <= r1 < keys.len() && 0 <= r2 < keys.len() ==> (#[trigger] place(order, r1)
                < #[trigger] place(order, r2) <==> row_lt(keys, r1, r2)),
{
    assert forall|r: int| 0 <= r < keys.len() implies 0 <= #[trigger] place(order, r) < order.len()
        && order[place(order, r)] == r by {
        assert(order.contains(r as usize));
        let k = choose|k: int| 0 <= k < order.len() && order[k] == r as usize;
        assert(0 <= k < order.len() && order[k] == r);
    }
    assert forall|k: int| 0 <= k < order.len() implies place(order, #[trigger] order[k] as int)
        == k by {
        let r = order[k] as int;
        let q = place(order, r);
        assert(0 <= q < order.len() && order[q] == r);
        if q < k {
            assert(row_lt(keys, order[q] as int, order[k] as int));
        }
        if k < q {
            assert(row_lt(keys, order[k] as int, order[q] as int));
        }
    }
    assert forall|r1: int, r2: int| 0 <= r1 < keys.len() && 0 <= r2 < keys.len() implies (
    #[trigger] place(order, r1) < #[trigger] place(order, r2) <==> row_lt(keys, r1, r2)) by {
        let a = place(order, r1);
        let b = place(order, r2);
        if a < b {
            assert(row_lt(keys, order[a] as int, order[b] as int));
        }
        if b < a {
            assert(row_lt(keys, order[b] as int, order[a] as int));
        }
    }
}

} // verus!
