//! Cutting sorted positions into parts that a caller may work on side by
//! side. No part ends within a group.

use crate::ruranges_structs::MinEvent;
use vstd::prelude::*;

verus! {

/// The places where a group ends within two lists of positions.
#[derive(Debug, Clone, Copy, PartialEq, Eq, Structural)]
pub struct ChrBound {
    pub chr: i64,
    pub start1: usize,
    pub end1: usize,
    pub start2: usize,
    pub end2: usize,
}

/// A part of each of two lists: `start1..end1` of the first and
/// `start2..end2` of the second.
#[derive(Debug, Clone, Copy, PartialEq, Eq, Structural)]
pub struct PartitionIndex {
    pub start1: usize,
    pub end1: usize,
    pub start2: usize,
    pub end2: usize,
}

/// The places `start_idx..end_idx` that the positions of group `chr` take.
#[derive(Debug, Clone, Copy, PartialEq, Eq, Structural)]
pub struct ChromRange {
    pub chr: i64,
    pub start_idx: usize,
    pub end_idx: usize,
}

/// Item `i` is in another group than the item before it.
pub open spec fn starts_group(data: Seq<MinEvent>, i: int) -> bool {
    0 < i < data.len() && data[i].chr != data[i - 1].chr
}

/// The places below `t` at which a group begins, but for place zero.
pub open spec fn group_starts(data: Seq<MinEvent>, t: int) -> Seq<usize>
    decreases t,
{
    if t <= 1 {
        Seq::empty()
    } else if starts_group(data, t - 1) {
        group_starts(data, t - 1).push((t - 1) as usize)
    } else {
        group_starts(data, t - 1)
    }
}

/// Zero, the places at which a group begins, and the number of items.
pub open spec fn boundaries_of(data: Seq<MinEvent>) -> Seq<usize> {
    seq![0usize] + group_starts(data, data.len() as int) + seq![data.len() as usize]
}

/// The places at which the groups of `data` begin, from zero on, and the
/// number of items at the end. Two zeros where there are no items.
pub fn find_chr_boundaries_minevents(data: &[MinEvent]) -> (boundaries: Vec<usize>)
    ensures
        boundaries@ == boundaries_of(data@),
{
    let mut boundaries: Vec<usize> = Vec::new();
    boundaries.push(0);
    let mut i: usize = 1;
    while i < data.len()
        invariant
            1 <= i,
            i <= data.len() || data.len() == 0,
            data.len() == 0 ==> i == 1,
            boundaries@ == seq![0usize] + group_starts(data@, i as int),
        decreases data.len() - i,
    {
        if data[i].chr != data[i - 1].chr {
            boundaries.push(i);
        }
        proof {
            assert(boundaries@ =~= seq![0usize] + group_starts(data@, i + 1));
        }
        i += 1;
    }
    proof {
        assert(group_starts(data@, 1) =~= group_starts(data@, 0));
        assert(boundaries@ =~= seq![0usize] + group_starts(data@, data.len() as int));
    }
    boundaries.push(data.len());
    proof {
        assert(boundaries@ =~= boundaries_of(data@));
    }
    boundaries
}

/// As `find_chr_boundaries_minevents`, but nothing where there are no items.
pub fn find_chr_boundaries(data: &[MinEvent]) -> (boundaries: Vec<usize>)
    ensures
        data.len() == 0 ==> boundaries@.len() == 0,
        data.len() > 0 ==> boundaries@ == boundaries_of(data@),
{
    if data.len() == 0 {
        return Vec::new();
    }
    find_chr_boundaries_minevents(data)
}

/// The blocks between the first `t + 1` boundaries: for each two
/// neighbouring boundaries that are apart, the group of the item at the
/// first of them, and the two boundaries.
pub open spec fn blocks_upto(data: Seq<MinEvent>, boundaries: Seq<usize>, t: int) -> Seq<
    (i64, usize, usize),
>
    decreases t,
{
    if t <= 0 {
        Seq::empty()
    } else if boundaries[t - 1] < boundaries[t] {
        blocks_upto(data, boundaries, t - 1).push(
            (data[boundaries[t - 1] as int].chr, boundaries[t - 1], boundaries[t]),
        )
    } else {
        blocks_upto(data, boundaries, t - 1)
    }
}

/// The blocks that the boundaries cut `data` into, each with the group of
/// its first item.
pub fn build_chr_blocks(data: &[MinEvent], boundaries: &[usize]) -> (blocks: Vec<
    (i64, usize, usize),
>)
    requires
        forall|w: int|
            0 <= w < boundaries.len() - 1 && boundaries[w] < boundaries[w + 1] ==> (
            #[trigger] boundaries[w]) < data.len(),
    ensures
        blocks@ == blocks_upto(data@, boundaries@, boundaries.len() - 1),
{
    let mut blocks: Vec<(i64, usize, usize)> = Vec::new();
    let mut w: usize = 1;
    while w < boundaries.len()
        invariant
            1 <= w,
            w <= boundaries.len() || boundaries.len() == 0,
            boundaries.len() == 0 ==> w == 1,
            forall|v: int|
                0 <= v < boundaries.len() - 1 && boundaries[v] < boundaries[v + 1] ==> (
                #[trigger] boundaries[v]) < data.len(),
            blocks@ == blocks_upto(data@, boundaries@, w - 1),
        decreases boundaries.len() - w,
    {
        let start = boundaries[w - 1];
        let end = boundaries[w];
        if start < end {
            let chrom = data[start].chr;
            blocks.push((chrom, start, end));
        }
        w += 1;
    }
    proof {
        if boundaries.len() == 0 {
            assert(blocks_upto(data@, boundaries@, -1) =~= blocks_upto(data@, boundaries@, 0));
        }
    }
    blocks
}

/// The first item of the group that item `t` belongs to.
pub open spec fn range_first(events: Seq<MinEvent>, t: int) -> int
    decreases t,
{
    if t <= 0 || starts_group(events, t) {
        t
    } else {
        range_first(events, t - 1)
    }
}

/// The ranges of the groups that end within the first `t` items.
pub open spec fn ranges_upto(events: Seq<MinEvent>, t: int) -> Seq<ChromRange>
    decreases t,
{
    if t <= 0 {
        Seq::empty()
    } else if t == events.len() || starts_group(events, t) {
        ranges_upto(events, t - 1).push(
            ChromRange {
                chr: events[t - 1].chr,
                start_idx: range_first(events, t - 1) as usize,
                end_idx: t as usize,
            },
        )
    } else {
        ranges_upto(events, t - 1)
    }
}

/// `ranges` lie side by side from place zero up to place `n`, and none is empty.
pub open spec fn tiles(ranges: Seq<ChromRange>, n: int) -> bool {
    &&& forall|c: int| 0 <= c < ranges.len() ==> (#[trigger] ranges[c]).start_idx < ranges[c].end_idx
    &&& forall|c: int|
        0 < c < ranges.len() ==> (#[trigger] ranges[c]).start_idx == ranges[c - 1].end_idx
    &&& ranges.len() > 0 ==> ranges[0].start_idx == 0 && ranges[ranges.len() - 1].end_idx == n
    &&& ranges.len() == 0 ==> n == 0
}

proof fn lemma_range_first_bounds(events: Seq<MinEvent>, t: int)
    requires
        0 <= t,
    ensures
        0 <= range_first(events, t) <= t,
    decreases t,
{
    if t > 0 && !starts_group(events, t) {
        lemma_range_first_bounds(events, t - 1);
    }
}

/// The ranges of the groups of `events`: each maximal run of items of one
/// group, in their order.
pub fn group_by_chromosome(events: &[MinEvent]) -> (ranges: Vec<ChromRange>)
    ensures
        ranges@ == ranges_upto(events@, events.len() as int),
        tiles(ranges@, events.len() as int),
{
    let mut ranges: Vec<ChromRange> = Vec::new();
    if events.len() == 0 {
        return ranges;
    }
    let mut current_chr = events[0].chr;
    let mut current_start: usize = 0;
    let mut i: usize = 1;
    while i < events.len()
        invariant
            1 <= i <= events.len(),
            current_start == range_first(events@, i - 1),
            current_start < i,
            current_chr == events[i - 1].chr,
            ranges@ == ranges_upto(events@, i - 1),
            tiles(ranges@, current_start as int),
        decreases events.len() - i,
    {
        proof {
            lemma_range_first_bounds(events@, i as int);
        }
        if events[i].chr != current_chr {
            ranges.push(ChromRange { chr: current_chr, start_idx: current_start, end_idx: i });
            current_chr = events[i].chr;
            current_start = i;
        }
        i += 1;
    }
    ranges.push(ChromRange { chr: current_chr, start_idx: current_start, end_idx: events.len() });
    ranges
}

/// How many items a part should hold: the number of items divided by the
/// number of parts, rounded up.
pub open spec fn chunk_size(total: int, num_partitions: int) -> int {
    if total % num_partitions == 0 {
        total / num_partitions
    } else {
        total / num_partitions + 1
    }
}

/// Where the packing of groups into parts stands.
pub struct Packing {
    /// Where the part that is being filled begins.
    pub start: usize,
    /// How many items it holds.
    pub filled: int,
    /// How many parts have been begun.
    pub count: int,
    /// The parts that are done.
    pub parts: Seq<(usize, usize)>,
}

/// Whether a part is closed before range `c` is taken: another part may
/// still be begun, the part holds something, and with the range it would hold
/// more than `target`.
pub open spec fn cuts_before(prev: Packing, range: ChromRange, target: int, num: int) -> bool {
    prev.count < num && prev.filled > 0 && prev.filled + (range.end_idx - range.start_idx) > target
}

/// The packing once the first `t` ranges are taken. The last range closes
/// the last part.
pub open spec fn packing(ranges: Seq<ChromRange>, target: int, num: int, t: int) -> Packing
    decreases t,
{
    if t <= 0 {
        Packing { start: ranges[0].start_idx, filled: 0, count: 1, parts: Seq::empty() }
    } else {
        let prev = packing(ranges, target, num, t - 1);
        let range = ranges[t - 1];
        let cut = cuts_before(prev, range, target, num);
        let start = if cut { range.start_idx } else { prev.start };
        let parts = if cut { prev.parts.push((prev.start, range.start_idx)) } else { prev.parts };
        Packing {
            start,
            filled: (if cut { 0 } else { prev.filled }) + (range.end_idx - range.start_idx),
            count: if cut { prev.count + 1 } else { prev.count },
            parts: if t == ranges.len() { parts.push((start, range.end_idx)) } else { parts },
        }
    }
}

/// `parts` with copies of its last part behind it up to the length `num`.
pub open spec fn padded(parts: Seq<(usize, usize)>, num: int) -> Seq<(usize, usize)> {
    Seq::new(
        num as nat,
        |p: int| if p < parts.len() { parts[p] } else { parts[parts.len() - 1] },
    )
}

/// The parts that `partition_chrom_ranges` cuts `events` into.
pub open spec fn parts_of(events: Seq<MinEvent>, num_partitions: int) -> Seq<(usize, usize)> {
    if num_partitions <= 0 {
        Seq::empty()
    } else if events.len() == 0 {
        Seq::new(num_partitions as nat, |p: int| (0usize, 0usize))
    } else {
        let ranges = ranges_upto(events, events.len() as int);
        padded(
            packing(
                ranges,
                chunk_size(events.len() as int, num_partitions),
                num_partitions,
                ranges.len() as int,
            ).parts,
            num_partitions,
        )
    }
}

proof fn lemma_packing(ranges: Seq<ChromRange>, n: int, target: int, num: int, t: int)
    requires
        tiles(ranges, n),
        0 <= t <= ranges.len(),
        ranges.len() > 0,
        num >= 1,
    ensures
        ({
            let p = packing(ranges, target, num, t);
            &&& 1 <= p.count <= num
            &&& 0 <= p.filled
            &&& t > 0 ==> p.start + p.filled == ranges[t - 1].end_idx
            &&& t < ranges.len() ==> p.start + p.filled == ranges[t].start_idx
            &&& t == ranges.len() ==> p.start + p.filled == n
            &&& t < ranges.len() ==> p.parts.len() == p.count - 1
            &&& t == ranges.len() ==> p.parts.len() == p.count
        }),
    decreases t,
{
    if t > 0 {
        lemma_packing(ranges, n, target, num, t - 1);
        assert(ranges[t - 1].start_idx < ranges[t - 1].end_idx);
        if t < ranges.len() {
            assert(ranges[t].start_idx == ranges[t - 1].end_idx);
        }
    }
}

/// Cuts `events`, which are in the order of their groups, into
/// `num_partitions` parts of places `start..end`. Groups are packed into a
/// part until the next group would bring it over the number of items divided
/// by the number of parts, rounded up; the last part takes what is left.
/// Where the groups give fewer parts, the last part is repeated. Without
/// events every part is empty, and without parts there is nothing.
pub fn partition_chrom_ranges(events: &[MinEvent], num_partitions: usize) -> (partitions: Vec<
    (usize, usize),
>)
    ensures
        partitions@ == parts_of(events@, num_partitions as int),
        partitions.len() == num_partitions,
{
    let mut partitions: Vec<(usize, usize)> = Vec::new();
    if events.len() == 0 {
        let mut p: usize = 0;
        while p < num_partitions
            invariant
                p <= num_partitions,
                partitions.len() == p,
                forall|q: int| 0 <= q < p ==> #[trigger] partitions[q] == (0usize, 0usize),
            decreases num_partitions - p,
        {
            partitions.push((0, 0));
            p += 1;
        }
        assert(partitions@ =~= parts_of(events@, num_partitions as int));
        return partitions;
    }
    if num_partitions == 0 {
        return partitions;
    }
    let chrom_ranges = group_by_chromosome(events);
    let total_len = events.len();
    let quotient = total_len / num_partitions;
    let target_chunk_size = if total_len % num_partitions == 0 {
        quotient
    } else {
        assert(quotient < total_len) by (nonlinear_arith)
            requires
                quotient == total_len / num_partitions,
                total_len % num_partitions != 0,
                num_partitions >= 1,
                total_len >= 1,
        ;
        quotient + 1
    };
    let ghost ranges = chrom_ranges@;
    let ghost target = target_chunk_size as int;
    let ghost num = num_partitions as int;
    let mut current_start = chrom_ranges[0].start_idx;
    let mut accumulated: usize = 0;
    let mut partition_count: usize = 1;
    let mut i: usize = 0;
    while i < chrom_ranges.len()
        invariant
            i <= chrom_ranges.len(),
            ranges == chrom_ranges@,
            ranges.len() > 0,
            tiles(ranges, total_len as int),
            num == num_partitions,
            num >= 1,
            target == target_chunk_size,
            current_start == packing(ranges, target, num, i as int).start,
            accumulated == packing(ranges, target, num, i as int).filled,
            partition_count == packing(ranges, target, num, i as int).count,
            partitions@ == packing(ranges, target, num, i as int).parts,
        decreases chrom_ranges.len() - i,
    {
        let chr_range = chrom_ranges[i];
        proof {
            lemma_packing(ranges, total_len as int, target, num, i as int);
            lemma_packing(ranges, total_len as int, target, num, i + 1);
            assert(ranges[i as int].start_idx < ranges[i as int].end_idx);
        }
        let chr_range_size = chr_range.end_idx - chr_range.start_idx;
        let tentative_new_size = accumulated + chr_range_size;
        if partition_count < num_partitions && accumulated > 0 && tentative_new_size
            > target_chunk_size {
            partitions.push((current_start, chr_range.start_idx));
            partition_count += 1;
            current_start = chr_range.start_idx;
            accumulated = 0;
        }
        accumulated += chr_range_size;
        if i == chrom_ranges.len() - 1 {
            partitions.push((current_start, chr_range.end_idx));
        }
        i += 1;
    }
    proof {
        lemma_packing(ranges, total_len as int, target, num, ranges.len() as int);
    }
    let ghost done = partitions@;
    while partitions.len() < num_partitions
        invariant
            done.len() >= 1,
            done.len() <= partitions.len(),
            partitions.len() <= num_partitions || done.len() == partitions.len(),
            forall|p: int|
                0 <= p < partitions.len() ==> #[trigger] partitions[p] == (if p < done.len() {
                    done[p]
                } else {
                    done[done.len() - 1]
                }),
        decreases num_partitions - partitions.len(),
    {
        let last = partitions[partitions.len() - 1];
        partitions.push(last);
    }
    assert(partitions@ =~= parts_of(events@, num_partitions as int));
    partitions
}

/// The parts of two lists, part by part.
pub open spec fn zipped_parts(a: Seq<(usize, usize)>, b: Seq<(usize, usize)>) -> Seq<
    PartitionIndex,
> {
    Seq::new(
        a.len(),
        |p: int| PartitionIndex { start1: a[p].0, end1: a[p].1, start2: b[p].0, end2: b[p].1 },
    )
}

/// Cuts each of two lists of positions into `num_partitions` parts as
/// `partition_chrom_ranges` does, and pairs the parts.
pub fn partition_two_arrays(
    sorted_starts: &[MinEvent],
    sorted_starts2: &[MinEvent],
    num_partitions: usize,
) -> (parts: Vec<PartitionIndex>)
    ensures
        parts.len() == num_partitions,
        parts@ == zipped_parts(
            parts_of(sorted_starts@, num_partitions as int),
            parts_of(sorted_starts2@, num_partitions as int),
        ),
{
    let parts1 = partition_chrom_ranges(sorted_starts, num_partitions);
    let parts2 = partition_chrom_ranges(sorted_starts2, num_partitions);
    let mut parts: Vec<PartitionIndex> = Vec::new();
    let mut p: usize = 0;
    while p < num_partitions
        invariant
            p <= num_partitions,
            parts1.len() == num_partitions,
            parts2.len() == num_partitions,
            parts.len() == p,
            forall|q: int|
                0 <= q < p ==> #[trigger] parts[q] == (PartitionIndex {
                    start1: parts1[q].0,
                    end1: parts1[q].1,
                    start2: parts2[q].0,
                    end2: parts2[q].1,
                }),
        decreases num_partitions - p,
    {
        let (start1, end1) = parts1[p];
        let (start2, end2) = parts2[p];
        parts.push(PartitionIndex { start1, end1, start2, end2 });
        p += 1;
    }
    assert(parts@ =~= zipped_parts(parts1@, parts2@));
    parts
}

} // verus!
