use ruranges::complement_single::sweep_line_complement;
use ruranges::max_disjoint::max_disjoint;
use ruranges::merge::sweep_line_merge;
use ruranges::overlaps::{count_overlaps, overlaps};
use ruranges::ruranges_structs::OverlapType;
use ruranges::subtract::sweep_line_subtract;
use rustc_hash::FxHashMap;

fn sorted_pairs(out: (Vec<u32>, Vec<u32>)) -> Vec<(u32, u32)> {
    let mut p: Vec<(u32, u32)> = out.0.into_iter().zip(out.1.into_iter()).collect();
    p.sort();
    p
}

const A_CHR: [i64; 5] = [1, 1, 1, 2, 2];
const A_START: [i64; 5] = [0, 8, 30, 0, 50];
const A_END: [i64; 5] = [10, 20, 40, 5, 60];
const B_CHR: [i64; 4] = [1, 1, 2, 3];
const B_START: [i64; 4] = [9, 40, 4, 0];
const B_END: [i64; 4] = [31, 45, 51, 100];

#[test]
fn overlaps_are_symmetric() {
    for slack in [0i64, 1, 3] {
        let there = sorted_pairs(overlaps(
            &A_CHR, &A_START, &A_END, &B_CHR, &B_START, &B_END, slack, OverlapType::All, false,
            false,
        ));
        let back = sorted_pairs(overlaps(
            &B_CHR, &B_START, &B_END, &A_CHR, &A_START, &A_END, slack, OverlapType::All, false,
            false,
        ));
        let mut swapped: Vec<(u32, u32)> = back.into_iter().map(|(j, i)| (i, j)).collect();
        swapped.sort();
        assert_eq!(there, swapped);
    }
    let plain = sorted_pairs(overlaps(
        &A_CHR, &A_START, &A_END, &B_CHR, &B_START, &B_END, 0, OverlapType::All, false, false,
    ));
    assert_eq!(plain, vec![(0, 0), (1, 0), (2, 0), (3, 2), (4, 2)]);
}

#[test]
fn coordinates_below_zero_overlap_like_any_others() {
    let there = sorted_pairs(overlaps(
        &[1], &[-10], &[5], &[1], &[-8], &[-2], 0, OverlapType::All, false, false,
    ));
    assert_eq!(there, vec![(0, 0)]);
    let back = sorted_pairs(overlaps(
        &[1], &[-8], &[-2], &[1], &[-10], &[5], 0, OverlapType::All, false, false,
    ));
    assert_eq!(back, vec![(0, 0)]);
    let inner = overlaps(&[1], &[-5], &[-2], &[1], &[-4], &[-3], 0, OverlapType::All, true, false);
    assert_eq!(inner, (vec![0], vec![0]));
    // a start that the slack carries below zero stays below zero
    let near = overlaps(&[1], &[2], &[4], &[1], &[-3], &[-1], 4, OverlapType::All, true, false);
    assert_eq!(near, (vec![0], vec![0]));
    let far = overlaps(&[1], &[2], &[4], &[1], &[-3], &[-1], 3, OverlapType::All, true, false);
    assert_eq!(far, (vec![], vec![]));
    assert_eq!(count_overlaps(&[1], &[-5], &[-2], &[1], &[-4], &[-3], 0), vec![1]);
}

#[test]
fn counts_are_numbers_of_overlapping_rows() {
    for slack in [0i64, 1, 5] {
        let counts = count_overlaps(&A_CHR, &A_START, &A_END, &B_CHR, &B_START, &B_END, slack);
        for i in 0..A_CHR.len() {
            let lo = A_START[i] - slack;
            let hi = A_END[i] + slack;
            let expected = (0..B_CHR.len())
                .filter(|&j| A_CHR[i] == B_CHR[j] && lo < B_END[j] && B_START[j] < hi)
                .count() as u32;
            assert_eq!(counts[i], expected, "row {} with slack {}", i, slack);
        }
    }
    assert_eq!(
        count_overlaps(&A_CHR, &A_START, &A_END, &B_CHR, &B_START, &B_END, 0),
        vec![1, 1, 1, 1, 1]
    );
    // with slack 1 the interval 30..40 of row 2 reaches the interval 40..45
    assert_eq!(
        count_overlaps(&A_CHR, &A_START, &A_END, &B_CHR, &B_START, &B_END, 1),
        vec![1, 1, 2, 1, 1]
    );
}

#[test]
fn merge_keeps_coverage() {
    let chrs = [1i64, 1, 1, 1, 2, 2];
    let starts = [0i64, 5, 15, 40, 3, 4];
    let ends = [10i64, 15, 20, 50, 9, 6];
    let (rows, run_starts, run_ends, counts) = sweep_line_merge(&chrs, &starts, &ends, 0);
    assert_eq!(run_starts, vec![0, 15, 40, 3]);
    assert_eq!(run_ends, vec![15, 20, 50, 9]);
    assert_eq!(counts, vec![2, 1, 1, 2]);
    assert_eq!(rows, vec![1, 2, 3, 0 + 4]);
    for g in [1i64, 2] {
        for x in -2i64..60 {
            let covered = (0..chrs.len()).any(|i| chrs[i] == g && starts[i] <= x && x < ends[i]);
            let in_runs = (0..rows.len())
                .filter(|&k| chrs[rows[k] as usize] == g && run_starts[k] <= x && x < run_ends[k])
                .count();
            assert_eq!(in_runs, if covered { 1 } else { 0 }, "group {} position {}", g, x);
        }
    }
}

#[test]
fn merge_joins_across_gaps_smaller_than_slack() {
    let (_, s, e, c) = sweep_line_merge(&[1, 1, 1], &[0, 12, 30], &[10, 20, 40], 5);
    assert_eq!((s, e, c), (vec![0, 30], vec![20, 40], vec![2, 1]));
    // a gap of exactly the slack is not bridged
    let (_, s, e, _) = sweep_line_merge(&[1, 1], &[0, 15], &[10, 20], 5);
    assert_eq!((s, e), (vec![0, 15], vec![10, 20]));
}

#[test]
fn gaps_and_intervals_tile_the_groups() {
    let chrs = [1i64, 1, 1, 2, 2];
    let starts = [5i64, 8, 30, 0, 50];
    let ends = [10i64, 20, 40, 5, 60];
    let mut lengths: FxHashMap<i64, i64> = FxHashMap::default();
    lengths.insert(1, 100);
    lengths.insert(2, 60);
    let (g_chr, g_start, g_end, g_idx) =
        sweep_line_complement(&chrs, &starts, &ends, 0, &lengths, true);
    assert_eq!(g_chr, vec![1, 1, 1, 2, 2]);
    assert_eq!(g_start, vec![0, 20, 40, 5, 60]);
    assert_eq!(g_end, vec![5, 30, 100, 50, 60]);
    assert_eq!(g_idx, vec![0, 0, 0, 3, 3]);
    for g in [1i64, 2] {
        for x in 0..lengths[&g] {
            let covered = (0..chrs.len()).any(|i| chrs[i] == g && starts[i] <= x && x < ends[i]);
            let in_gaps = (0..g_chr.len())
                .filter(|&k| g_chr[k] == g && g_start[k] <= x && x < g_end[k])
                .count();
            assert_eq!(in_gaps, if covered { 0 } else { 1 }, "group {} position {}", g, x);
        }
    }
}

#[test]
fn complement_without_first_stretch_and_without_length() {
    let mut lengths: FxHashMap<i64, i64> = FxHashMap::default();
    lengths.insert(1, 100);
    // group 2 has no length: nothing is reported behind its last interval
    let got = sweep_line_complement(&[1, 1, 2], &[5, 30, 7], &[10, 40, 9], 0, &lengths, false);
    assert_eq!(got, (vec![1, 1], vec![10, 40], vec![30, 100], vec![0, 0]));
    let none: FxHashMap<i64, i64> = FxHashMap::default();
    let empty = sweep_line_complement(&[], &[], &[], 0, &none, true);
    assert_eq!(empty, (vec![], vec![], vec![], vec![]));
}

#[test]
fn subtracting_nothing_changes_nothing() {
    let got = sweep_line_subtract(&A_CHR, &A_START, &A_END, &[], &[], &[]);
    assert_eq!(got, (vec![0, 1, 2, 3, 4], A_START.to_vec(), A_END.to_vec()));
    let nothing = sweep_line_subtract(&[], &[], &[], &B_CHR, &B_START, &B_END);
    assert_eq!(nothing, (vec![], vec![], vec![]));
}

#[test]
fn subtract_cuts_rows_into_pieces() {
    // 0..100 without 10..20, 15..30 and 50..60, and a row of another group
    let got = sweep_line_subtract(
        &[1, 2],
        &[0, 0],
        &[100, 10],
        &[1, 1, 1],
        &[10, 15, 50],
        &[20, 30, 60],
    );
    assert_eq!(got, (vec![0, 0, 0, 1], vec![0, 30, 60, 0], vec![10, 50, 100, 10]));
}

fn lie_apart(starts: &[i64], ends: &[i64], slack: i64, i: usize, j: usize) -> bool {
    starts[j] > ends[i] + slack || starts[i] > ends[j] + slack
}

#[test]
fn max_disjoint_rows_lie_apart_and_are_the_most() {
    let groups = [1i64, 1, 1, 1, 1, 2, 2, 1, 1, 2];
    let starts = [0i64, 2, 11, 12, 30, 0, 1, 21, 4, 6];
    let ends = [10i64, 4, 20, 14, 35, 5, 3, 29, 9, 8];
    for slack in [0i64, 1, 2] {
        let chosen = max_disjoint(&groups, &starts, &ends, slack);
        for a in 0..chosen.len() {
            for b in 0..chosen.len() {
                let (i, j) = (chosen[a] as usize, chosen[b] as usize);
                if a != b && groups[i] == groups[j] {
                    assert!(lie_apart(&starts, &ends, slack, i, j));
                }
            }
        }
        let mut sorted = chosen.clone();
        sorted.sort();
        assert_eq!(sorted, chosen);
    }
    assert_eq!(max_disjoint(&groups, &starts, &ends, 0), vec![0, 2, 4, 5, 7, 9]);
    // no set of rows that lie apart within their groups is larger than the
    // six rows chosen: try them all
    let mut best = 0;
    for mask in 0u32..(1 << groups.len()) {
        let set: Vec<usize> = (0..groups.len()).filter(|&b| mask & (1 << b) != 0).collect();
        let ok = set.iter().all(|&i| {
            set.iter().all(|&j| i == j || groups[i] != groups[j] || lie_apart(&starts, &ends, 0, i, j))
        });
        if ok && set.len() > best {
            best = set.len();
        }
    }
    assert_eq!(best, 6);
}
