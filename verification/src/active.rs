//! Sets and maps of active rows, hashed with the Fx hasher.

use rustc_hash::{FxBuildHasher, FxHashMap, FxHashSet};
use vstd::prelude::*;
use vstd::std_specs::hash::*;
use vstd::std_specs::iter::IteratorSpec;

verus! {

#[verifier::external_type_specification]
#[verifier::external_body]
pub struct ExFxBuildHasher(FxBuildHasher);

/// The hasher of `s` hashes equal keys alike, which is what the set
/// operations of the standard library rest on.
pub open spec fn set_hashes_alike<K>(s: &FxHashSet<K>) -> bool {
    builds_valid_hashers::<FxBuildHasher>()
}

/// The hasher of `m` hashes equal keys alike, which is what the map
/// operations of the standard library rest on.
pub open spec fn map_hashes_alike<K, V>(m: &FxHashMap<K, V>) -> bool {
    builds_valid_hashers::<FxBuildHasher>()
}

/// `FxHashSet::default()`: an empty set. `FxBuildHasher` holds no state and no
/// seed, and every hasher it builds starts from zero, so equal keys always
/// hash alike.
#[verifier::external_body]
pub(crate) fn new_row_set() -> (s: FxHashSet<u32>)
    ensures
        s@ == Set::<u32>::empty(),
        set_hashes_alike(&s),
{
    FxHashSet::default()
}

/// `FxHashMap::default()`: an empty map, whose hasher hashes equal keys alike
/// for the reason given at `new_row_set`.
#[verifier::external_body]
pub(crate) fn new_row_map<V>() -> (rows: FxHashMap<u32, V>)
    ensures
        rows@.dom() == Set::<u32>::empty(),
        map_hashes_alike(&rows),
{
    FxHashMap::default()
}

/// `FxHashMap::get` on a table of group lengths: the length of `group`, if
/// the table has one.
#[verifier::external_body]
pub(crate) fn group_length(lengths: &FxHashMap<i64, i64>, group: i64) -> (len: Option<i64>)
    ensures
        len == (if lengths@.contains_key(group) {
            Some(lengths@[group])
        } else {
            None
        }),
{
    lengths.get(&group).copied()
}

/// `s` lists the members of `set`, each once.
pub open spec fn is_listing<T>(s: Seq<T>, set: Set<T>) -> bool {
    s.no_duplicates() && s.to_set() == set
}

/// The rows of `s`, each once, in the order the set hands them out.
pub(crate) fn rows_of(s: &FxHashSet<u32>) -> (v: Vec<u32>)
    requires
        set_hashes_alike(s),
    ensures
        is_listing(v@, s@),
{
    broadcast use group_hash_axioms;

    let mut v: Vec<u32> = Vec::new();
    for x in it: s.iter()
        invariant
            it.seq() == spec_hash_keys_iter(s).remaining(),
            v@ == it.seq().take(it.index() as int).unref(),
    {
        v.push(*x);
    }
    proof {
        let all = spec_hash_keys_iter(s).remaining();
        assert(all.take(all.len() as int) =~= all);
    }
    v
}

/// The keys of `m`, each once, in the order the map hands them out.
pub(crate) fn keys_of<V>(m: &FxHashMap<u32, V>) -> (v: Vec<u32>)
    requires
        map_hashes_alike(m),
    ensures
        is_listing(v@, m@.dom()),
{
    broadcast use group_hash_axioms;

    let mut v: Vec<u32> = Vec::new();
    for x in it: m.keys()
        invariant
            it.seq() == spec_keys_iter(m).remaining(),
            v@ == it.seq().take(it.index() as int).unref(),
    {
        v.push(*x);
    }
    proof {
        let all = spec_keys_iter(m).remaining();
        assert(all.take(all.len() as int) =~= all);
    }
    v
}


/// The part of `out` between the cuts `s` and `s + 1` lists `set`.
pub open spec fn block_lists<T>(out: Seq<T>, cuts: Seq<int>, s: int, set: Set<T>) -> bool {
    &&& 0 <= cuts[s] <= cuts[s + 1] <= out.len()
    &&& is_listing(out.subrange(cuts[s], cuts[s + 1]), set)
}

/// `out` lists the sets one after the other, set `s` between the cuts `s`
/// and `s + 1`.
pub open spec fn lists_in_turn<T>(out: Seq<T>, cuts: Seq<int>, sets: Seq<Set<T>>) -> bool {
    &&& cuts.len() == sets.len() + 1
    &&& cuts[0] == 0
    &&& cuts[sets.len() as int] == out.len()
    &&& forall|s: int| 0 <= s < sets.len() ==> #[trigger] block_lists(out, cuts, s, sets[s])
}

/// `out` lists the sets one after the other, the members of each set in any
/// order and each once.
pub open spec fn lists_sets<T>(out: Seq<T>, sets: Seq<Set<T>>) -> bool {
    exists|cuts: Seq<int>| lists_in_turn(out, cuts, sets)
}

/// A listing of the first `t` sets is, with a listing of set `t` behind it,
/// a listing of the first `t + 1` sets.
pub proof fn lemma_next_listed<T>(
    before: Seq<T>,
    cuts: Seq<int>,
    block: Seq<T>,
    sets: Seq<Set<T>>,
    t: int,
)
    requires
        0 <= t < sets.len(),
        cuts.len() == t + 1,
        cuts[t] == before.len(),
        forall|s: int| 0 <= s < t ==> #[trigger] block_lists(before, cuts, s, sets[s]),
        is_listing(block, sets[t]),
    ensures
        forall|s: int|
            0 <= s < t + 1 ==> #[trigger] block_lists(
                before + block,
                cuts.push((before + block).len() as int),
                s,
                sets[s],
            ),
{
    let out = before + block;
    let new_cuts = cuts.push(out.len() as int);
    assert forall|s: int| 0 <= s < t + 1 implies #[trigger] block_lists(
        out,
        new_cuts,
        s,
        sets[s],
    ) by {
        if s < t {
            assert(block_lists(before, cuts, s, sets[s]));
            assert(new_cuts[s] == cuts[s] && new_cuts[s + 1] == cuts[s + 1]);
            assert(out.subrange(new_cuts[s], new_cuts[s + 1]) =~= before.subrange(
                cuts[s],
                cuts[s + 1],
            ));
        } else {
            assert(out.subrange(new_cuts[t], new_cuts[t + 1]) =~= block);
        }
    }
}

} // verus!
