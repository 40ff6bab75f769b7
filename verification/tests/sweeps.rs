use ruranges::cluster::sweep_line_cluster;
use ruranges::merge::sweep_line_merge;
use ruranges::nearest::{nearest, Direction};
use ruranges::overlaps::{count_overlaps, overlaps};
use ruranges::ruranges_structs::OverlapType;
use ruranges::subtract::sweep_line_subtract;

fn pairs(out: (Vec<u32>, Vec<u32>)) -> Vec<(u32, u32)> {
    let mut p: Vec<(u32, u32)> = out.0.into_iter().zip(out.1.into_iter()).collect();
    p.sort();
    p
}

#[test]
fn overlaps_of_two_rows_with_one() {
    let got = overlaps(
        &[1, 1],
        &[0, 20],
        &[10, 30],
        &[1],
        &[5],
        &[25],
        0,
        OverlapType::All,
        false,
        false,
    );
    assert_eq!(pairs(got), vec![(0, 0), (1, 0)]);
}

#[test]
fn subtract_clips_and_consumes() {
    let got = sweep_line_subtract(&[1, 1], &[0, 20], &[10, 30], &[1], &[5], &[25]);
    assert_eq!(got, (vec![0, 1], vec![0, 25], vec![5, 30]));
    let inner = sweep_line_subtract(&[1, 1], &[0, 20], &[10, 24], &[1], &[5], &[25]);
    assert_eq!(inner, (vec![0], vec![0], vec![5]));
}

#[test]
fn nearest_forward_keeps_ties() {
    let got = nearest(
        &[1],
        &[0],
        &[10],
        &[1, 1, 1],
        &[12, 12, 20],
        &[15, 16, 25],
        0,
        1,
        false,
        Direction::Forward,
    );
    assert_eq!(got, (vec![0, 0], vec![0, 1], vec![3, 3]));
}

#[test]
fn merge_and_cluster_of_three() {
    let merged = sweep_line_merge(&[1, 1, 1], &[0, 5, 20], &[10, 15, 25], 0);
    assert_eq!(merged.1, vec![0, 20]);
    assert_eq!(merged.2, vec![15, 25]);
    assert_eq!(merged.3, vec![2, 1]);
    assert_eq!(merged.0, vec![1, 2]);
    let (ids, rows) = sweep_line_cluster(&[1, 1, 1], &[0, 5, 20], &[10, 15, 25], 0);
    assert_eq!(rows, vec![0, 1, 2]);
    assert_eq!(ids, vec![0, 0, 1]);
}

#[test]
fn counts_match_pairs() {
    let counts = count_overlaps(&[1, 1, 2], &[0, 20, 0], &[10, 30, 5], &[1, 1], &[5, 8], &[25, 9], 0);
    assert_eq!(counts, vec![2, 1, 0]);
}
