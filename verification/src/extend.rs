//! Extending groups of intervals at their two ends.

use crate::arith::{clamp, sat_add, sat_sub};
use crate::ruranges_structs::{GroupType, PositionType};
use std::collections::HashMap;
use vstd::prelude::*;

verus! {

/// The message for a wrong choice of extensions.
pub open spec fn bad_extension() -> Seq<char> {
    "Must use at least one and not both of ext and ext3 or ext5."@
}

/// Checks the choice of extensions: either one extension for both ends or
/// extensions by end, and not both at once.
pub fn check_ext_options(
    ext: Option<PositionType>,
    ext_3: Option<PositionType>,
    ext_5: Option<PositionType>,
) -> (res: Result<(), &'static str>)
    ensures
        res is Err <==> (ext is Some) == (ext_3 is Some || ext_5 is Some),
        res is Err ==> res->Err_0@ == bad_extension(),
{
    if ext.is_some() == (ext_3.is_some() || ext_5.is_some()) {
        Err("Must use at least one and not both of ext and ext3 or ext5.")
    } else {
        Ok(())
    }
}

/// The row with the least start among the first `t` rows that belong to
/// group `g`, the earliest of several.
pub open spec fn min_row(groups: Seq<i64>, starts: Seq<i64>, g: i64, t: int) -> Option<int>
    decreases t,
{
    if t <= 0 {
        None
    } else {
        let before = min_row(groups, starts, g, t - 1);
        if groups[t - 1] != g {
            before
        } else if before is Some && starts[t - 1] >= starts[before->0] {
            before
        } else {
            Some(t - 1)
        }
    }
}

/// The row with the greatest end among the first `t` rows that belong to
/// group `g`, the earliest of several.
pub open spec fn max_row(groups: Seq<i64>, ends: Seq<i64>, g: i64, t: int) -> Option<int>
    decreases t,
{
    if t <= 0 {
        None
    } else {
        let before = max_row(groups, ends, g, t - 1);
        if groups[t - 1] != g {
            before
        } else if before is Some && ends[t - 1] <= ends[before->0] {
            before
        } else {
            Some(t - 1)
        }
    }
}

/// The start of row `i` once its group is extended: lowered where the row
/// has the least start of its group, by `ext_3` on the negative strand and
/// by `ext_5` on the other.
pub open spec fn extended_start(
    groups: Seq<i64>,
    starts: Seq<i64>,
    negative_strand: Seq<bool>,
    ext_3: i64,
    ext_5: i64,
    i: int,
) -> i64 {
    if min_row(groups, starts, groups[i], groups.len() as int) == Some(i) {
        clamp(starts[i] - (if negative_strand[i] { ext_3 } else { ext_5 }))
    } else {
        starts[i]
    }
}

/// The end of row `i` once its group is extended: raised where the row has
/// the greatest end of its group, by `ext_5` where the row with the least
/// start of the group lies on the negative strand and by `ext_3` where not.
pub open spec fn extended_end(
    groups: Seq<i64>,
    starts: Seq<i64>,
    ends: Seq<i64>,
    negative_strand: Seq<bool>,
    ext_3: i64,
    ext_5: i64,
    i: int,
) -> i64 {
    let n = groups.len() as int;
    if max_row(groups, ends, groups[i], n) == Some(i) {
        let first = min_row(groups, starts, groups[i], n)->0;
        clamp(ends[i] + (if negative_strand[first] { ext_5 } else { ext_3 }))
    } else {
        ends[i]
    }
}

proof fn lemma_extrema(groups: Seq<i64>, starts: Seq<i64>, ends: Seq<i64>, g: i64, t: int)
    requires
        0 <= t <= groups.len(),
    ensures
        min_row(groups, starts, g, t) is Some <==> max_row(groups, ends, g, t) is Some,
        min_row(groups, starts, g, t) is Some ==> 0 <= min_row(groups, starts, g, t)->0 < t
            && groups[min_row(groups, starts, g, t)->0] == g,
        max_row(groups, ends, g, t) is Some ==> 0 <= max_row(groups, ends, g, t)->0 < t
            && groups[max_row(groups, ends, g, t)->0] == g,
        forall|i: int| 0 <= i < t && groups[i] == g ==> min_row(groups, starts, g, t) is Some,
    decreases t,
{
    if t > 0 {
        lemma_extrema(groups, starts, ends, g, t - 1);
    }
}

/// Extends each group at its two ends: the row with the least start of the
/// group begins earlier and the row with the greatest end ends later, on the
/// negative strand by `ext_3` and `ext_5`, on the other by `ext_5` and
/// `ext_3`. The strand of a group is that of its row with the least start.
/// Returns the new starts and the new ends.
pub fn extend_grp(
    group_ids: &[GroupType],
    starts: &[PositionType],
    ends: &[PositionType],
    negative_strand: &[bool],
    ext_3: PositionType,
    ext_5: PositionType,
) -> (out: (Vec<PositionType>, Vec<PositionType>))
    requires
        group_ids.len() == starts.len(),
        starts.len() == ends.len(),
        ends.len() == negative_strand.len(),
    ensures
        out.0@ == Seq::new(
            starts.len() as nat,
            |i: int| extended_start(group_ids@, starts@, negative_strand@, ext_3, ext_5, i),
        ),
        out.1@ == Seq::new(
            starts.len() as nat,
            |i: int| extended_end(group_ids@, starts@, ends@, negative_strand@, ext_3, ext_5, i),
        ),
{
    broadcast use vstd::std_specs::hash::group_hash_axioms;

    let n = starts.len();
    let mut extrema: HashMap<i64, (usize, usize)> = HashMap::new();
    let mut i: usize = 0;
    while i < n
        invariant
            i <= n,
            n == group_ids.len(),
            n == starts.len(),
            n == ends.len(),
            forall|g: i64| #[trigger]
                extrema@.contains_key(g) <==> min_row(group_ids@, starts@, g, i as int) is Some,
            forall|g: i64| #[trigger]
                extrema@.contains_key(g) ==> extrema@[g].0 == min_row(
                    group_ids@,
                    starts@,
                    g,
                    i as int,
                )->0 && extrema@[g].1 == max_row(group_ids@, ends@, g, i as int)->0,
        decreases n - i,
    {
        let g = group_ids[i];
        proof {
            lemma_extrema(group_ids@, starts@, ends@, g, i as int);
        }
        let held = extrema.get(&g);
        let entry = match held {
            Some(pair) => {
                let (min_i, max_i) = *pair;
                (
                    if starts[i] < starts[min_i] { i } else { min_i },
                    if ends[i] > ends[max_i] { i } else { max_i },
                )
            },
            None => (i, i),
        };
        extrema.insert(g, entry);
        proof {
            assert forall|h: i64| #[trigger]
                extrema@.contains_key(h) <==> min_row(group_ids@, starts@, h, i + 1) is Some by {
                lemma_extrema(group_ids@, starts@, ends@, h, i as int);
            }
            assert forall|h: i64| #[trigger] extrema@.contains_key(h) implies extrema@[h].0
                == min_row(group_ids@, starts@, h, i + 1)->0 && extrema@[h].1 == max_row(
                group_ids@,
                ends@,
                h,
                i + 1,
            )->0 by {
                lemma_extrema(group_ids@, starts@, ends@, h, i as int);
            }
        }
        i += 1;
    }
    let mut new_start: Vec<i64> = Vec::new();
    let mut new_end: Vec<i64> = Vec::new();
    let mut r: usize = 0;
    while r < n
        invariant
            r <= n,
            n == group_ids.len(),
            n == starts.len(),
            n == ends.len(),
            n == negative_strand.len(),
            forall|g: i64| #[trigger]
                extrema@.contains_key(g) <==> min_row(group_ids@, starts@, g, n as int) is Some,
            forall|g: i64| #[trigger]
                extrema@.contains_key(g) ==> extrema@[g].0 == min_row(
                    group_ids@,
                    starts@,
                    g,
                    n as int,
                )->0 && extrema@[g].1 == max_row(group_ids@, ends@, g, n as int)->0,
            new_start.len() == r,
            new_end.len() == r,
            forall|q: int|
                0 <= q < r ==> #[trigger] new_start[q] == extended_start(
                    group_ids@,
                    starts@,
                    negative_strand@,
                    ext_3,
                    ext_5,
                    q,
                ),
            forall|q: int|
                0 <= q < r ==> #[trigger] new_end[q] == extended_end(
                    group_ids@,
                    starts@,
                    ends@,
                    negative_strand@,
                    ext_3,
                    ext_5,
                    q,
                ),
        decreases n - r,
    {
        let g = group_ids[r];
        proof {
            lemma_extrema(group_ids@, starts@, ends@, g, n as int);
        }
        let held = extrema.get(&g);
        assert(held is Some);
        let (min_i, max_i) = *held.unwrap();
        let negative = negative_strand[min_i];
        new_start.push(
            if min_i == r {
                sat_sub(starts[r], if negative { ext_3 } else { ext_5 })
            } else {
                starts[r]
            },
        );
        new_end.push(
            if max_i == r {
                sat_add(ends[r], if negative { ext_5 } else { ext_3 })
            } else {
                ends[r]
            },
        );
        r += 1;
    }
    proof {
        assert(new_start@ =~= Seq::new(
            starts.len() as nat,
            |i: int| extended_start(group_ids@, starts@, negative_strand@, ext_3, ext_5, i),
        ));
        assert(new_end@ =~= Seq::new(
            starts.len() as nat,
            |i: int| extended_end(group_ids@, starts@, ends@, negative_strand@, ext_3, ext_5, i),
        ));
    }
    (new_start, new_end)
}

} // verus!
