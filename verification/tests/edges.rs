use ruranges::boundary::sweep_line_boundary;
use ruranges::cluster::sweep_line_cluster;
use ruranges::complement::sweep_line_non_overlaps;
use ruranges::extend::{check_ext_options, extend_grp};
use ruranges::helpers::{keep_first_by_idx, keep_last_by_idx};
use ruranges::nearest::{
    merge_three_way_by_index_distance, nearest, nearest_intervals_to_the_left,
    nearest_intervals_to_the_right, Direction,
};
use ruranges::outside_bounds::outside_bounds;
use ruranges::overlaps::{
    compute_sorted_events, count_overlaps, overlaps, pick_winner_of_four,
    pick_winner_of_two_choose_first_if_equal, sweep_line_overlaps_overlap_pair,
    sweep_line_overlaps_set1, WhichList,
};
use ruranges::ruranges_structs::{MinEvent, Nearest, OverlapPair, OverlapType};
use ruranges::split::sweep_line_split;
use std::str::FromStr;

fn sorted_pairs(out: (Vec<u32>, Vec<u32>)) -> Vec<(u32, u32)> {
    let mut p: Vec<(u32, u32)> = out.0.into_iter().zip(out.1.into_iter()).collect();
    p.sort();
    p
}

#[test]
fn touching_intervals_do_not_overlap() {
    let got = overlaps(&[1], &[0], &[10], &[1], &[10], &[20], 0, OverlapType::All, false, false);
    assert_eq!(sorted_pairs(got), vec![]);
    let near = overlaps(&[1], &[0], &[10], &[1], &[10], &[20], 1, OverlapType::All, false, false);
    assert_eq!(sorted_pairs(near), vec![(0, 0)]);
    let other_group =
        overlaps(&[1], &[0], &[10], &[2], &[0], &[10], 0, OverlapType::All, false, false);
    assert_eq!(sorted_pairs(other_group), vec![]);
}

#[test]
fn overlaps_with_an_empty_table() {
    let none: [i64; 0] = [];
    let got =
        overlaps(&[1], &[0], &[10], &none, &none, &none, 0, OverlapType::All, true, false);
    assert_eq!(got, (vec![], vec![]));
    let got = overlaps(&none, &none, &none, &[1], &[0], &[10], 0, OverlapType::First, true, true);
    assert_eq!(got, (vec![], vec![]));
    assert_eq!(count_overlaps(&[1, 1], &[0, 5], &[10, 6], &none, &none, &none, 0), vec![0, 0]);
    assert_eq!(
        sweep_line_overlaps_set1(&[1], &[0], &[10], &none, &none, &none, 0),
        Vec::<u32>::new()
    );
    assert_eq!(
        sweep_line_non_overlaps(&[1], &[0], &[10], &none, &none, &none, 0),
        Vec::<u32>::new()
    );
    assert_eq!(
        sweep_line_non_overlaps(&none, &none, &none, &[1], &[0], &[10], 0),
        Vec::<u32>::new()
    );
}

#[test]
fn first_and_last_pair_of_each_row() {
    // row 0 overlaps the rows 0, 1 and 2 of the second table, which start
    // in this order; row 1 overlaps row 2 only
    let a = (&[1i64, 1][..], &[0i64, 50][..], &[40i64, 60][..]);
    let b = (&[1i64, 1, 1][..], &[5i64, 10, 30][..], &[8i64, 20, 55][..]);
    let all = overlaps(a.0, a.1, a.2, b.0, b.1, b.2, 0, OverlapType::All, true, false);
    assert_eq!(all, (vec![0, 0, 0, 1], vec![0, 1, 2, 2]));
    let first = overlaps(a.0, a.1, a.2, b.0, b.1, b.2, 0, OverlapType::First, false, false);
    assert_eq!(first, (vec![0, 1], vec![0, 2]));
    let last = overlaps(a.0, a.1, a.2, b.0, b.1, b.2, 0, OverlapType::Last, false, false);
    assert_eq!(last, (vec![0, 1], vec![2, 2]));
}

#[test]
fn contained_pairs_only() {
    // 10..20 lies within 0..30 and within 10..20, not within 12..40
    let got = overlaps(
        &[1],
        &[10],
        &[20],
        &[1, 1, 1],
        &[0, 10, 12],
        &[30, 20, 40],
        0,
        OverlapType::All,
        true,
        true,
    );
    assert_eq!(sorted_pairs(got), vec![(0, 0), (0, 1)]);
}

#[test]
fn rows_without_overlap() {
    let got = sweep_line_non_overlaps(
        &[1, 1, 1, 2],
        &[0, 20, 40, 0],
        &[10, 30, 50, 10],
        &[1, 1],
        &[5, 45],
        &[8, 46],
        0,
    );
    assert_eq!(got, vec![1, 3]);
    // rows of the second table close without a trace on rows of the first
    let got = sweep_line_non_overlaps(&[1], &[0], &[100], &[1], &[10], &[20], 0);
    assert_eq!(got, Vec::<u32>::new());
}

#[test]
fn keep_first_and_last() {
    let p = |idx: u32, idx2: u32| OverlapPair { idx, idx2 };
    let mut firsts = vec![p(3, 0), p(1, 1), p(3, 2), p(1, 3), p(2, 4)];
    keep_first_by_idx(&mut firsts);
    assert_eq!(firsts, vec![p(3, 0), p(1, 1), p(2, 4)]);
    let mut lasts = vec![p(3, 0), p(1, 1), p(3, 2), p(1, 3), p(2, 4)];
    keep_last_by_idx(&mut lasts);
    assert_eq!(lasts, vec![p(3, 2), p(1, 3), p(2, 4)]);
    let mut none: Vec<OverlapPair> = Vec::new();
    keep_first_by_idx(&mut none);
    keep_last_by_idx(&mut none);
    assert_eq!(none, vec![]);
}

#[test]
fn nearest_with_no_neighbours_asked_for() {
    let got = nearest(&[1], &[0], &[10], &[1, 1], &[12, 20], &[15, 25], 0, 0, true, Direction::Any);
    assert_eq!(got, (vec![], vec![], vec![]));
}

#[test]
fn nearest_in_both_directions() {
    // row 0 is 100..110; to its left end rows at 90 and 95, to its right
    // start rows at 110 and 130; row 4 of the second table overlaps it
    let got = nearest(
        &[1],
        &[100],
        &[110],
        &[1, 1, 1, 1, 1],
        &[80, 85, 110, 130, 105],
        &[90, 95, 120, 140, 108],
        0,
        2,
        true,
        Direction::Any,
    );
    // distances: overlap 0; right: 110 - 110 + 1 = 1; left: 100 - 95 + 1 = 6
    // and 100 - 108 + 1 for the overlapping row is not to the left
    assert_eq!(got.0, vec![0, 0]);
    assert_eq!(got.1, vec![4, 2]);
    assert_eq!(got.2, vec![0, 1]);
    let back = nearest(
        &[1],
        &[100],
        &[110],
        &[1, 1, 1, 1],
        &[80, 85, 110, 130],
        &[90, 95, 120, 140],
        0,
        2,
        false,
        Direction::Backward,
    );
    assert_eq!(back, (vec![0, 0], vec![1, 0], vec![6, 11]));
    let fwd = nearest(
        &[1],
        &[100],
        &[110],
        &[1, 1, 1, 1],
        &[80, 85, 110, 130],
        &[90, 95, 120, 140],
        0,
        5,
        false,
        Direction::Forward,
    );
    assert_eq!(fwd, (vec![0, 0], vec![2, 3], vec![1, 21]));
    let other = nearest(&[1], &[0], &[10], &[2], &[20], &[30], 0, 3, true, Direction::Any);
    assert_eq!(other, (vec![], vec![], vec![]));
}

#[test]
fn scans_to_the_right_and_to_the_left() {
    let e = |chr: i64, pos: i64, idx: u32| MinEvent { chr, pos, idx };
    let ends = vec![e(1, 10, 0), e(1, 30, 1), e(2, 5, 2)];
    let starts2 = vec![e(1, 12, 0), e(1, 12, 1), e(1, 20, 2), e(1, 40, 3), e(2, 1, 4)];
    let right = nearest_intervals_to_the_right(ends.clone(), starts2.clone(), 2);
    let n = |distance: i64, idx: u32, idx2: u32| Nearest { distance, idx, idx2 };
    assert_eq!(right, vec![n(3, 0, 0), n(3, 0, 1), n(11, 0, 2), n(11, 1, 3)]);
    let left = nearest_intervals_to_the_left(ends, starts2, 1);
    assert_eq!(left, vec![n(11, 1, 2), n(5, 2, 4)]);
}

#[test]
fn three_way_merge_keeps_k_distances() {
    let p = |idx: u32, idx2: u32| OverlapPair { idx, idx2 };
    let n = |distance: i64, idx: u32, idx2: u32| Nearest { distance, idx, idx2 };
    let overlaps = vec![p(0, 7), p(2, 1)];
    let left = vec![n(3, 0, 5), n(9, 0, 6), n(4, 1, 5)];
    let right = vec![n(3, 0, 8), n(5, 0, 9), n(2, 1, 8), n(4, 1, 9)];
    let got = merge_three_way_by_index_distance(&overlaps, &left, &right, 2);
    assert_eq!(got.0, vec![0, 0, 0, 1, 1, 1, 2]);
    assert_eq!(got.1, vec![7, 5, 8, 8, 5, 9, 1]);
    assert_eq!(got.2, vec![0, 3, 3, 2, 4, 4, 0]);
    let none = merge_three_way_by_index_distance(&overlaps, &left, &right, 0);
    assert_eq!(none, (vec![], vec![], vec![]));
}

#[test]
fn four_way_sweep_and_its_winners() {
    let e = |chr: i64, pos: i64, idx: u32| MinEvent { chr, pos, idx };
    let a = Some((WhichList::StartSet1, e(1, 10, 0)));
    let b = Some((WhichList::EndSet2, e(1, 10, 1)));
    // an end goes before a start at the same place
    assert_eq!(pick_winner_of_two_choose_first_if_equal(a, b), b);
    assert_eq!(pick_winner_of_two_choose_first_if_equal(b, a), b);
    assert_eq!(pick_winner_of_two_choose_first_if_equal(a, None), a);
    assert_eq!(pick_winner_of_two_choose_first_if_equal(None, None), None);
    let c = Some((WhichList::StartSet2, e(0, 99, 2)));
    assert_eq!(pick_winner_of_four(a, c, None, b), c);
    assert!(WhichList::StartSet2.is_start());
    assert!(!WhichList::EndSet1.is_start());
    let (s1, e1) = compute_sorted_events(&[1, 1], &[20, 0], &[30, 10], 0, false);
    assert_eq!(s1, vec![e(1, 0, 1), e(1, 20, 0)]);
    assert_eq!(e1, vec![e(1, 10, 1), e(1, 30, 0)]);
    let (s2, e2) = compute_sorted_events(&[1], &[5], &[25], 0, false);
    let mut got = sweep_line_overlaps_overlap_pair(&s1, &e1, &s2, &e2);
    got.sort_by_key(|p| (p.idx, p.idx2));
    assert_eq!(got, vec![OverlapPair { idx: 0, idx2: 0 }, OverlapPair { idx: 1, idx2: 0 }]);
    let (si, ei) = compute_sorted_events(&[1, 1], &[20, 0], &[30, 10], 0, true);
    assert_eq!(si, vec![e(1, -30, 0), e(1, -10, 1)]);
    assert_eq!(ei, vec![e(1, -20, 0), e(1, 0, 1)]);
}

#[test]
fn clusters_across_groups() {
    let (ids, rows) = sweep_line_cluster(&[2, 1, 1, 2, 1], &[0, 0, 5, 3, 30], &[4, 10, 6, 9, 40], 0);
    assert_eq!(rows, vec![1, 2, 4, 0, 3]);
    assert_eq!(ids, vec![0, 0, 1, 3, 3]);
    let (ids, rows) = sweep_line_cluster(&[], &[], &[], 0);
    assert_eq!((ids, rows), (vec![], vec![]));
}

#[test]
fn boundaries_of_groups() {
    let got = sweep_line_boundary(&[2, 1, 1, 2, 1], &[0, 0, 5, 3, 30], &[4, 10, 6, 9, 40]);
    assert_eq!(got, (vec![4, 3], vec![0, 0], vec![40, 9], vec![6, 4]));
    let none = sweep_line_boundary(&[], &[], &[]);
    assert_eq!(none, (vec![], vec![], vec![], vec![]));
}

#[test]
fn split_at_every_endpoint() {
    let got = sweep_line_split(&[1, 1, 1], &[0, 5, 20], &[10, 15, 25], 0, false);
    assert_eq!(got, (vec![0, 1, 0, 2], vec![0, 5, 10, 20], vec![5, 10, 15, 25]));
    let with_gaps = sweep_line_split(&[1, 1, 1], &[0, 5, 20], &[10, 15, 25], 0, true);
    assert_eq!(
        with_gaps,
        (vec![0, 1, 0, 1, 2], vec![0, 5, 10, 15, 20], vec![5, 10, 15, 20, 25])
    );
    let none = sweep_line_split(&[], &[], &[], 0, true);
    assert_eq!(none, (vec![], vec![], vec![]));
}

#[test]
fn extending_groups() {
    let got = extend_grp(
        &[1, 1, 2, 2],
        &[10, 30, 100, 50],
        &[20, 40, 110, 60],
        &[false, false, true, true],
        3,
        5,
    );
    // group 1 lies on the positive strand: its start moves by 5, its end by 3;
    // group 2 on the negative: its start moves by 3, its end by 5
    assert_eq!(got, (vec![5, 30, 100, 47], vec![20, 43, 115, 60]));
    assert_eq!(check_ext_options(Some(1), None, None), Ok(()));
    assert_eq!(check_ext_options(None, Some(1), None), Ok(()));
    assert_eq!(check_ext_options(None, None, Some(1)), Ok(()));
    assert_eq!(
        check_ext_options(Some(1), Some(1), None),
        Err("Must use at least one and not both of ext and ext3 or ext5.")
    );
    assert_eq!(
        check_ext_options(None, None, None),
        Err("Must use at least one and not both of ext and ext3 or ext5.")
    );
}

#[test]
fn bounds_of_groups() {
    let groups = [1i64, 1, 1, 1];
    let starts = [-5i64, 10, 90, 120];
    let ends = [5i64, 20, 110, 130];
    let lens = [100i64, 100, 100, 100];
    assert_eq!(
        outside_bounds(&groups, &starts, &ends, &lens, false, false),
        Ok((vec![1], vec![10], vec![20]))
    );
    assert_eq!(
        outside_bounds(&groups, &starts, &ends, &lens, false, true),
        Ok((vec![0, 1], vec![-5, 10], vec![5, 20]))
    );
    assert_eq!(
        outside_bounds(&groups, &starts, &ends, &lens, true, false),
        Ok((vec![0, 1, 2], vec![0, 10, 90], vec![5, 20, 100]))
    );
    assert_eq!(
        outside_bounds(&groups, &starts, &ends, &lens, true, true),
        Ok((vec![0, 1, 2], vec![-5, 10, 90], vec![5, 20, 100]))
    );
    assert_eq!(
        outside_bounds(&groups, &starts, &ends, &lens[..3], true, true),
        Err("All input slices must have the same length".to_string())
    );
}

#[test]
fn words_for_choices() {
    assert_eq!(OverlapType::from_str("all"), Ok(OverlapType::All));
    assert_eq!(OverlapType::from_str("First"), Ok(OverlapType::First));
    assert_eq!(OverlapType::from_str("LAST"), Ok(OverlapType::Last));
    assert_eq!(OverlapType::from_str("every"), Err("Invalid direction string"));
    assert_eq!(OverlapType::from_lowercase("ALL"), Err("Invalid direction string"));
    assert_eq!(Direction::from_str("Forward"), Ok(Direction::Forward));
    assert_eq!(Direction::from_str("backward"), Ok(Direction::Backward));
    assert_eq!(Direction::from_str("ANY"), Ok(Direction::Any));
    assert_eq!(Direction::from_str(""), Err("Invalid direction string"));
}
