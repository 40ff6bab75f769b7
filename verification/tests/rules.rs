use ruranges::io::{alignment_end, includes_strand, is_reverse_strand, rows_in_chunk, CigarOp};
use ruranges::map_to_global::{map_to_genome, map_to_global};
use ruranges::merge::sweep_line_merge;
use ruranges::multiprocessing::{
    build_chr_blocks, find_chr_boundaries, find_chr_boundaries_minevents, group_by_chromosome,
    ChromRange,
};
use ruranges::outside_bounds::group_lengths;
use ruranges::overlaps::{merge_four, sweep_counts, sweep_pairs};
use ruranges::ruranges_structs::{Event, MinEvent, OverlapPair};

#[test]
fn ends_of_alignments() {
    let cigar = [
        CigarOp::SoftClip(5),
        CigarOp::Match(10),
        CigarOp::Ins(3),
        CigarOp::Del(2),
        CigarOp::RefSkip(100),
        CigarOp::Equal(4),
        CigarOp::Diff(1),
        CigarOp::Pad(7),
        CigarOp::HardClip(9),
    ];
    assert_eq!(alignment_end(1000, &cigar), 1117);
    assert_eq!(alignment_end(1000, &[]), 1000);
    assert_eq!(alignment_end(i64::MAX - 3, &[CigarOp::Match(10)]), i64::MAX);
}

#[test]
fn strands_and_columns() {
    assert!(is_reverse_strand("-"));
    assert!(!is_reverse_strand("+"));
    assert!(!is_reverse_strand("."));
    assert!(!is_reverse_strand("--"));
    assert!(!is_reverse_strand(""));
    assert!(includes_strand(6));
    assert!(includes_strand(12));
    assert!(!includes_strand(5));
}

#[test]
fn wanted_rows_of_a_chunk() {
    let wanted = [1u32, 3, 10, 11, 25];
    // the chunk holds the rows 0..10
    assert_eq!(rows_in_chunk(&wanted, 0, 0, 10), (vec![1, 3], 2));
    // the next holds the rows 10..20
    assert_eq!(rows_in_chunk(&wanted, 2, 10, 10), (vec![0, 1], 4));
    assert_eq!(rows_in_chunk(&wanted, 4, 20, 10), (vec![5], 5));
    assert_eq!(rows_in_chunk(&wanted, 5, 30, 10), (vec![], 5));
    // rows before the chunk are passed over
    assert_eq!(rows_in_chunk(&wanted, 0, 10, 10), (vec![0, 1], 4));
    assert_eq!(rows_in_chunk(&wanted, 0, 10, 0), (vec![], 2));
}

#[test]
fn lengths_of_groups() {
    assert_eq!(group_lengths(&[2, 1, 2], &[1, 2], &[100, 200]), Ok(vec![200, 100, 200]));
    // the last length given for a group counts
    assert_eq!(group_lengths(&[1], &[1, 1], &[100, 300]), Ok(vec![300]));
    assert_eq!(group_lengths(&[1, 7, 8], &[1, 2], &[100, 200]), Err(7));
    assert_eq!(group_lengths(&[], &[], &[]), Ok(vec![]));
}

#[test]
fn chromosomes_of_pieces() {
    let genome = map_to_genome(
        &[1, 1, 2],
        &[0, 100, 0],
        &[100, 200, 50],
        &[7, 7, 8],
        &[1000, 2000, 500],
        &[1100, 2100, 550],
        &[true, true, false],
        &[1, 2, 3],
        &[50, 10, 0],
        &[150, 20, 5],
        &[true, true, true],
    );
    assert_eq!(genome.0, vec![0, 0, 1]);
    assert_eq!(genome.1, vec![7, 7, 8]);
    assert_eq!(genome.2, vec![1050, 2000, 530]);
    assert_eq!(genome.3, vec![1100, 2050, 540]);
    assert_eq!(genome.4, vec![true, true, false]);
    let none = map_to_global(&[], &[], &[], &[5], &[0], &[10], &[], &[], &[], &[], &[true]);
    assert_eq!(none, (vec![], vec![], vec![], vec![]));
}

#[test]
fn boundaries_and_blocks_of_groups() {
    let e = |chr: i64, pos: i64, idx: u32| MinEvent { chr, pos, idx };
    let data = vec![e(1, 0, 0), e(1, 5, 1), e(3, 0, 2), e(4, 1, 3), e(4, 2, 4)];
    assert_eq!(find_chr_boundaries_minevents(&data), vec![0, 2, 3, 5]);
    assert_eq!(find_chr_boundaries(&data), vec![0, 2, 3, 5]);
    assert_eq!(find_chr_boundaries_minevents(&[]), vec![0, 0]);
    assert_eq!(find_chr_boundaries(&[]), Vec::<usize>::new());
    assert_eq!(build_chr_blocks(&data, &[0, 2, 3, 5]), vec![(1, 0, 2), (3, 2, 3), (4, 3, 5)]);
    assert_eq!(build_chr_blocks(&data, &[0, 0, 2, 2]), vec![(1, 0, 2)]);
    assert_eq!(build_chr_blocks(&[], &[0, 0]), vec![]);
    let r = |chr: i64, start_idx: usize, end_idx: usize| ChromRange { chr, start_idx, end_idx };
    assert_eq!(group_by_chromosome(&data), vec![r(1, 0, 2), r(3, 2, 3), r(4, 3, 5)]);
    assert_eq!(group_by_chromosome(&[]), vec![]);
}

#[test]
fn sweeps_over_given_events() {
    let ev = |pos: i64, is_start: bool, first_set: bool, idx: u32| Event {
        chr: 1,
        pos,
        is_start,
        first_set,
        idx,
    };
    let events = vec![
        ev(0, true, true, 0),
        ev(5, true, false, 0),
        ev(7, true, true, 1),
        ev(8, false, false, 0),
        ev(9, false, true, 1),
        ev(10, false, true, 0),
    ];
    let p = |idx: u32, idx2: u32| OverlapPair { idx, idx2 };
    assert_eq!(sweep_pairs(&events), vec![p(0, 0), p(1, 0)]);
    assert_eq!(sweep_counts(&events, 3), vec![1, 1, 0]);
    // another group begins with nothing open
    let mut two = events.clone();
    two.push(Event { chr: 2, pos: 0, is_start: true, first_set: true, idx: 2 });
    two.push(Event { chr: 2, pos: 0, is_start: true, first_set: false, idx: 1 });
    assert_eq!(sweep_pairs(&two), vec![p(0, 0), p(1, 0), p(2, 1)]);
    let m = |chr: i64, pos: i64, idx: u32| MinEvent { chr, pos, idx };
    let merged = merge_four(&[m(1, 0, 0)], &[m(1, 10, 0)], &[m(1, 10, 0)], &[m(1, 20, 0)]);
    let places: Vec<(i64, bool, bool)> =
        merged.iter().map(|e| (e.pos, e.is_start, e.first_set)).collect();
    assert_eq!(
        places,
        vec![(0, true, true), (10, false, true), (10, true, false), (20, false, false)]
    );
}

#[test]
fn merge_of_nothing_and_of_touching_rows() {
    assert_eq!(sweep_line_merge(&[], &[], &[], 0), (vec![], vec![], vec![], vec![]));
    // rows that touch are not joined: the end sorts before the start
    let (_, s, e, c) = sweep_line_merge(&[1, 1], &[0, 10], &[10, 20], 0);
    assert_eq!((s, e, c), (vec![0, 10], vec![10, 20], vec![1, 1]));
    let (_, s, e, c) = sweep_line_merge(&[1, 1], &[0, 10], &[10, 20], 1);
    assert_eq!((s, e, c), (vec![0], vec![20], vec![2]));
}
