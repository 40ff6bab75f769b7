//! Clustering: every row gets the number of the run of coverage it lies in.

use crate::cluster_laws::{lemma_clusters_are_numbered, numbers_clusters};
use crate::coverage_laws::proper_rows;
use crate::overlaps::{cap_u32, group_changes};
use crate::ruranges_structs::{Event, GroupType, PositionType};
use crate::sorts::{build_sorted_events_single_collection, single_collection_events, sorted_events};
use vstd::prelude::*;

verus! {

/// Where the sweep stands: the number of the cluster that the next start
/// joins, and how many intervals are open.
pub struct Clustering {
    pub cluster: nat,
    pub open: int,
}

/// The clustering once the first `t` events are done. A change of group and
/// an end that leaves nothing open each begin another cluster.
pub open spec fn clustering(events: Seq<Event>, t: int) -> Clustering
    decreases t, 0nat,
{
    if t <= 0 {
        Clustering { cluster: 0, open: 0 }
    } else {
        let e = events[t - 1];
        let met = clustering_met(events, t - 1);
        if e.is_start {
            Clustering { cluster: met.cluster, open: met.open + 1 }
        } else if met.open - 1 == 0 {
            Clustering { cluster: met.cluster + 1, open: 0 }
        } else {
            Clustering { cluster: met.cluster, open: met.open - 1 }
        }
    }
}

/// The clustering that event `t` finds.
pub open spec fn clustering_met(events: Seq<Event>, t: int) -> Clustering
    decreases t, 1nat,
{
    if t <= 0 {
        Clustering { cluster: 0, open: 0 }
    } else if group_changes(events, t) {
        Clustering { cluster: clustering(events, t).cluster + 1, open: 0 }
    } else {
        clustering(events, t)
    }
}

/// The rows whose start is among the first `t` events, each with its
/// cluster, in sweep order.
pub open spec fn clustered(events: Seq<Event>, t: int) -> Seq<(u32, u32)>
    decreases t,
{
    if t <= 0 {
        Seq::empty()
    } else if events[t - 1].is_start {
        clustered(events, t - 1).push(
            (cap_u32(clustering_met(events, t - 1).cluster), events[t - 1].idx),
        )
    } else {
        clustered(events, t - 1)
    }
}

/// Each row of a table with the number of its cluster, in sweep order.
pub open spec fn clusters(chrs: Seq<i64>, starts: Seq<i64>, ends: Seq<i64>, slack: i64) -> Seq<
    (u32, u32),
> {
    clustered(
        sorted_events(single_collection_events(chrs, starts, ends, slack)),
        2 * chrs.len() as int,
    )
}

proof fn lemma_clustering_bounds(events: Seq<Event>, t: int)
    requires
        0 <= t,
    ensures
        -t <= clustering(events, t).open <= t,
        clustering(events, t).cluster <= 2 * t,
        -t <= clustering_met(events, t).open <= t,
        clustering_met(events, t).cluster <= 2 * t + 1,
    decreases t,
{
    if t > 0 {
        lemma_clustering_bounds(events, t - 1);
    }
}

/// Numbers the runs of coverage and gives each row the number of its run:
/// first the numbers, then the rows, both in sweep order. Intervals of one
/// group lie in one cluster where less than `slack` lies between them.
///
/// For a table of proper intervals every row is numbered, the numbers never
/// fall, rows of one group whose widened intervals overlap bear one number,
/// and rows of different groups bear different numbers.
pub fn sweep_line_cluster(
    chrs: &[GroupType],
    starts: &[PositionType],
    ends: &[PositionType],
    slack: PositionType,
) -> (out: (Vec<u32>, Vec<u32>))
    requires
        chrs.len() == starts.len(),
        chrs.len() == ends.len(),
        chrs.len() <= u32::MAX,
    ensures
        out.0@ == Seq::new(
            clusters(chrs@, starts@, ends@, slack).len(),
            |k: int| clusters(chrs@, starts@, ends@, slack)[k].0,
        ),
        out.1@ == Seq::new(
            clusters(chrs@, starts@, ends@, slack).len(),
            |k: int| clusters(chrs@, starts@, ends@, slack)[k].1,
        ),
        proper_rows(chrs@, starts@, ends@, slack) ==> numbers_clusters(
            chrs@,
            starts@,
            ends@,
            slack,
            out.0@,
            out.1@,
        ),
{
    let mut indices: Vec<u32> = Vec::new();
    let mut cluster_ids: Vec<u32> = Vec::new();
    let events = build_sorted_events_single_collection(chrs, starts, ends, slack);
    let mut current_cluster: u64 = 0;
    let mut active_intervals: i64 = 0;
    let mut t: usize = 0;
    while t < events.len()
        invariant
            t <= events.len(),
            events.len() <= 2 * u32::MAX,
            current_cluster == clustering(events@, t as int).cluster,
            active_intervals == clustering(events@, t as int).open,
            indices.len() == clustered(events@, t as int).len(),
            cluster_ids.len() == indices.len(),
            forall|k: int|
                0 <= k < indices.len() ==> #[trigger] cluster_ids[k] == clustered(
                    events@,
                    t as int,
                )[k].0,
            forall|k: int|
                0 <= k < indices.len() ==> #[trigger] indices[k] == clustered(
                    events@,
                    t as int,
                )[k].1,
        decreases events.len() - t,
    {
        let e = events[t];
        proof {
            lemma_clustering_bounds(events@, t as int);
            lemma_clustering_bounds(events@, t + 1);
        }
        if t > 0 && e.chr != events[t - 1].chr {
            current_cluster += 1;
            active_intervals = 0;
        }
        if e.is_start {
            indices.push(e.idx);
            cluster_ids.push(
                if current_cluster > u32::MAX as u64 {
                    u32::MAX
                } else {
                    current_cluster as u32
                },
            );
            active_intervals += 1;
        } else {
            active_intervals -= 1;
            if active_intervals == 0 {
                current_cluster += 1;
            }
        }
        t += 1;
    }
    proof {
        let all = clusters(chrs@, starts@, ends@, slack);
        assert(all == clustered(events@, events.len() as int));
        assert(cluster_ids@ =~= Seq::new(all.len(), |k: int| all[k].0));
        assert(indices@ =~= Seq::new(all.len(), |k: int| all[k].1));
        if proper_rows(chrs@, starts@, ends@, slack) {
            lemma_clusters_are_numbered(chrs@, starts@, ends@, slack);
        }
    }
    (cluster_ids, indices)
}

} // verus!
