//! Keeping one pair for each row of the first table.

use crate::active::{new_row_set, set_hashes_alike};
use crate::ruranges_structs::OverlapPair;
use vstd::prelude::*;
use vstd::std_specs::hash::*;

verus! {

/// No pair before pair `k` names the same row of the first table.
pub open spec fn first_of_row(s: Seq<OverlapPair>, k: int) -> bool {
    forall|j: int| 0 <= j < k ==> (#[trigger] s[j]).idx != s[k].idx
}

/// No pair behind pair `k` names the same row of the first table.
pub open spec fn last_of_row(s: Seq<OverlapPair>, k: int) -> bool {
    forall|j: int| k < j < s.len() ==> (#[trigger] s[j]).idx != s[k].idx
}

/// The pairs that are the first of their row, in their order.
pub open spec fn firsts(s: Seq<OverlapPair>) -> Seq<OverlapPair>
    decreases s.len(),
{
    if s.len() == 0 {
        s
    } else {
        let init = firsts(s.drop_last());
        if first_of_row(s, s.len() - 1) {
            init.push(s.last())
        } else {
            init
        }
    }
}

/// The pairs that are the last of their row, in their order.
pub open spec fn lasts(s: Seq<OverlapPair>) -> Seq<OverlapPair>
    decreases s.len(),
{
    if s.len() == 0 {
        s
    } else {
        let rest = lasts(s.drop_first());
        if last_of_row(s, 0) {
            seq![s[0]] + rest
        } else {
            rest
        }
    }
}

/// The rows of the first table that the first `k` pairs name.
pub open spec fn rows_before(s: Seq<OverlapPair>, k: int) -> Set<u32> {
    Set::new(|x: u32| exists|j: int| 0 <= j < k && (#[trigger] s[j]).idx == x)
}

/// The rows of the first table that the pairs from `k` on name.
pub open spec fn rows_from(s: Seq<OverlapPair>, k: int) -> Set<u32> {
    Set::new(|x: u32| exists|j: int| k <= j < s.len() && (#[trigger] s[j]).idx == x)
}

/// `out` keeps one pair of each row of `s`: its pairs are pairs of `s`,
/// every row that `s` names it names too, and none twice.
pub open spec fn keeps_one_of_each_row(s: Seq<OverlapPair>, out: Seq<OverlapPair>) -> bool {
    &&& forall|q: int| 0 <= q < out.len() ==> s.contains(#[trigger] out[q])
    &&& forall|k: int|
        0 <= k < s.len() ==> rows_before(out, out.len() as int).contains((#[trigger] s[k]).idx)
    &&& forall|a: int, b: int|
        0 <= a < b < out.len() ==> (#[trigger] out[a]).idx != (#[trigger] out[b]).idx
}

/// The first pairs of the rows are one pair of each row.
pub proof fn lemma_firsts(s: Seq<OverlapPair>)
    ensures
        keeps_one_of_each_row(s, firsts(s)),
    decreases s.len(),
{
    let out = firsts(s);
    if s.len() > 0 {
        let n = s.len() - 1;
        let front = s.drop_last();
        let init = firsts(front);
        lemma_firsts(front);
        assert forall|q: int| 0 <= q < out.len() implies s.contains(#[trigger] out[q]) by {
            if q < init.len() {
                assert(front.contains(init[q]));
                let j = choose|j: int| 0 <= j < front.len() && front[j] == init[q];
                assert(s[j] == out[q]);
            } else {
                assert(s[n] == out[q]);
            }
        }
        assert forall|k: int| 0 <= k < s.len() implies rows_before(
            out,
            out.len() as int,
        ).contains((#[trigger] s[k]).idx) by {
            let k0 = if k < n {
                k
            } else if first_of_row(s, n) {
                n
            } else {
                choose|j: int| 0 <= j < n && (#[trigger] s[j]).idx == s[n].idx
            };
            if k0 < n {
                assert(rows_before(init, init.len() as int).contains(front[k0].idx));
                let q = choose|q: int| 0 <= q < init.len() && (#[trigger] init[q]).idx == front[k0].idx;
                assert(out[q].idx == s[k].idx);
            } else {
                assert(out[init.len() as int].idx == s[k].idx);
            }
        }
        assert forall|a: int, b: int| 0 <= a < b < out.len() implies (#[trigger] out[a]).idx != (
        #[trigger] out[b]).idx by {
            if b < init.len() {
                assert(init[a].idx != init[b].idx);
            } else {
                assert(front.contains(init[a]));
                let j = choose|j: int| 0 <= j < front.len() && front[j] == init[a];
                assert(s[j].idx != s[n].idx);
            }
        }
    }
}

/// The last pairs of the rows are one pair of each row.
pub proof fn lemma_lasts(s: Seq<OverlapPair>)
    ensures
        keeps_one_of_each_row(s, lasts(s)),
    decreases s.len(),
{
    let out = lasts(s);
    if s.len() > 0 {
        let back = s.drop_first();
        let rest = lasts(back);
        lemma_lasts(back);
        let kept = last_of_row(s, 0);
        let off: int = if kept { 1 } else { 0 };
        assert(out =~= (if kept { seq![s[0]] + rest } else { rest }));
        assert forall|q: int| 0 <= q < out.len() implies s.contains(#[trigger] out[q]) by {
            if q >= off {
                assert(out[q] == rest[q - off]);
                assert(back.contains(rest[q - off]));
                let j = choose|j: int| 0 <= j < back.len() && back[j] == rest[q - off];
                assert(s[j + 1] == out[q]);
            } else {
                assert(s[0] == out[q]);
            }
        }
        assert forall|k: int| 0 <= k < s.len() implies rows_before(
            out,
            out.len() as int,
        ).contains((#[trigger] s[k]).idx) by {
            let k0 = if k > 0 {
                k
            } else if kept {
                0
            } else {
                choose|j: int| 0 < j < s.len() && (#[trigger] s[j]).idx == s[0].idx
            };
            if k0 > 0 {
                assert(rows_before(rest, rest.len() as int).contains(back[k0 - 1].idx));
                let q = choose|q: int| 0 <= q < rest.len() && (#[trigger] rest[q]).idx == back[k0
                    - 1].idx;
                assert(out[q + off].idx == s[k].idx);
            } else {
                assert(out[0].idx == s[k].idx);
            }
        }
        assert forall|a: int, b: int| 0 <= a < b < out.len() implies (#[trigger] out[a]).idx != (
        #[trigger] out[b]).idx by {
            if a >= off {
                assert(rest[a - off].idx != rest[b - off].idx);
            } else {
                assert(out[b] == rest[b - 1]);
                assert(back.contains(rest[b - 1]));
                let j = choose|j: int| 0 <= j < back.len() && back[j] == rest[b - 1];
                assert(s[j + 1].idx != s[0].idx);
            }
        }
    }
}

/// Keeps, for each row of the first table, the first pair that names it.
pub fn keep_first_by_idx(pairs: &mut Vec<OverlapPair>)
    ensures
        final(pairs)@ == firsts(old(pairs)@),
{
    broadcast use group_hash_axioms;

    let ghost s = pairs@;
    let mut seen = new_row_set();
    let mut out: Vec<OverlapPair> = Vec::new();
    let mut k: usize = 0;
    assert(s.take(0) =~= Seq::<OverlapPair>::empty());
    assert(seen@ =~= rows_before(s, 0));
    while k < pairs.len()
        invariant
            k <= pairs.len(),
            pairs@ == s,
            set_hashes_alike(&seen),
            seen@ == rows_before(s, k as int),
            out@ == firsts(s.take(k as int)),
        decreases pairs.len() - k,
    {
        let p = pairs[k];
        let fresh = seen.insert(p.idx);
        proof {
            let now = s.take(k + 1);
            assert(now.drop_last() =~= s.take(k as int));
            assert(now.last() == p);
            if fresh {
                assert forall|j: int| 0 <= j < k implies (#[trigger] now[j]).idx != now[k as int].idx by {
                    if now[j].idx == p.idx {
                        assert(s[j].idx == p.idx);
                        assert(rows_before(s, k as int).contains(p.idx));
                    }
                }
            } else {
                let j = choose|j: int| 0 <= j < k && (#[trigger] s[j]).idx == p.idx;
                assert(now[j].idx == now[k as int].idx);
            }
            assert(first_of_row(now, k as int) == fresh);
            assert forall|x: u32| seen@.contains(x) <==> rows_before(s, k + 1).contains(x) by {
                if rows_before(s, k + 1).contains(x) {
                    let j = choose|j: int| 0 <= j < k + 1 && (#[trigger] s[j]).idx == x;
                    if j < k {
                        assert(rows_before(s, k as int).contains(x));
                    }
                }
                if seen@.contains(x) {
                    if x == p.idx {
                        assert(s[k as int].idx == x);
                    } else {
                        assert(rows_before(s, k as int).contains(x));
                        let j = choose|j: int| 0 <= j < k && (#[trigger] s[j]).idx == x;
                        assert(0 <= j < k + 1);
                    }
                }
            }
            assert(seen@ =~= rows_before(s, k + 1));
        }
        if fresh {
            out.push(p);
        }
        k += 1;
    }
    assert(s.take(k as int) =~= s);
    *pairs = out;
}

/// Keeps, for each row of the first table, the last pair that names it.
pub fn keep_last_by_idx(pairs: &mut Vec<OverlapPair>)
    ensures
        final(pairs)@ == lasts(old(pairs)@),
{
    broadcast use group_hash_axioms;

    let ghost s = pairs@;
    let n = pairs.len();
    let mut keep: Vec<bool> = Vec::new();
    let mut z: usize = 0;
    while z < n
        invariant
            z <= n,
            keep.len() == z,
        decreases n - z,
    {
        keep.push(false);
        z += 1;
    }
    let mut seen = new_row_set();
    let mut k: usize = n;
    assert(seen@ =~= rows_from(s, n as int));
    while k > 0
        invariant
            k <= n,
            n == pairs.len(),
            pairs@ == s,
            keep.len() == n,
            set_hashes_alike(&seen),
            seen@ == rows_from(s, k as int),
            forall|j: int| k <= j < n ==> #[trigger] keep[j] == last_of_row(s, j),
        decreases k,
    {
        k -= 1;
        let p = pairs[k];
        let fresh = seen.insert(p.idx);
        proof {
            if fresh {
                assert forall|j: int| k < j < s.len() implies (#[trigger] s[j]).idx != s[k as int].idx by {
                    if s[j].idx == p.idx {
                        assert(rows_from(s, k + 1).contains(p.idx));
                    }
                }
            } else {
                let j = choose|j: int| k + 1 <= j < s.len() && (#[trigger] s[j]).idx == p.idx;
                assert(s[j].idx == s[k as int].idx);
            }
            assert(last_of_row(s, k as int) == fresh);
            assert forall|x: u32| seen@.contains(x) <==> rows_from(s, k as int).contains(x) by {
                if rows_from(s, k as int).contains(x) {
                    let j = choose|j: int| k <= j < s.len() && (#[trigger] s[j]).idx == x;
                    if j > k {
                        assert(rows_from(s, k + 1).contains(x));
                    }
                }
                if seen@.contains(x) {
                    if x == p.idx {
                        assert(s[k as int].idx == x);
                    } else {
                        assert(rows_from(s, k + 1).contains(x));
                        let j = choose|j: int| k + 1 <= j < s.len() && (#[trigger] s[j]).idx == x;
                        assert(k <= j < s.len());
                    }
                }
            }
            assert(seen@ =~= rows_from(s, k as int));
        }
        keep.set(k, fresh);
    }
    let mut out: Vec<OverlapPair> = Vec::new();
    let mut i: usize = 0;
    assert(s.skip(0) =~= s);
    while i < n
        invariant
            i <= n,
            n == pairs.len(),
            pairs@ == s,
            keep.len() == n,
            forall|j: int| 0 <= j < n ==> #[trigger] keep[j] == last_of_row(s, j),
            out@ + lasts(s.skip(i as int)) == lasts(s),
        decreases n - i,
    {
        proof {
            let tail = s.skip(i as int);
            assert(tail.drop_first() =~= s.skip(i + 1));
            assert(tail[0] == s[i as int]);
            if last_of_row(s, i as int) {
                assert forall|j: int| 0 < j < tail.len() implies (#[trigger] tail[j]).idx != tail[0].idx by {
                    assert(tail[j] == s[i + j]);
                }
            } else {
                let j = choose|j: int| i < j < s.len() && (#[trigger] s[j]).idx == s[i as int].idx;
                assert(tail[j - i] == s[j]);
            }
            assert(last_of_row(tail, 0) == last_of_row(s, i as int));
        }
        let ghost before = out@;
        if keep[i] {
            out.push(pairs[i]);
        }
        proof {
            assert(out@ + lasts(s.skip(i + 1)) =~= before + lasts(s.skip(i as int)));
        }
        i += 1;
    }
    assert(out@ + lasts(s.skip(n as int)) =~= out@);
    *pairs = out;
}

} // verus!
