//! Set algebra on genomic intervals given as parallel columns: overlap and
//! nearest-neighbour joins, merging, clustering, complements, subtraction and
//! disjoint subsets, all built on one sweep over sorted endpoint events.
//!
//! Each operation states what it returns over a model of its sweep. The
//! modules whose names end in `_laws` say the same without the sweep, over
//! the intervals alone, and prove that the two agree.

pub mod active;
pub mod arith;
pub mod boundary;
pub mod boundary_laws;
pub mod cluster;
pub mod cluster_laws;
pub mod complement;
pub mod complement_laws;
pub mod complement_single;
pub mod containment_laws;
pub mod coverage_laws;
pub mod extend;
pub mod group_cumsum;
pub mod helpers;
pub mod io;
pub mod map_to_global;
pub mod max_disjoint;
pub mod merge;
pub mod multiprocessing;
pub mod nearest;
pub mod nearest_laws;
pub mod neighbour_laws;
pub mod outside_bounds;
pub mod overlap_laws;
pub mod overlaps;
pub mod radix;
pub mod ruranges_structs;
pub mod sorts;
pub mod spliced_subsequence;
pub mod split;
pub mod split_laws;
pub mod stream_laws;
pub mod subtract;
pub mod subtract_laws;
pub mod tile;
