use ruranges::boundary::sweep_line_boundary;
use ruranges::cluster::sweep_line_cluster;
use ruranges::complement_single::sweep_line_complement;
use ruranges::merge::sweep_line_merge;
use ruranges::nearest::{
    merge_three_way_by_index_distance, nearest, nearest_intervals_to_the_left,
    nearest_intervals_to_the_right, Direction,
};
use ruranges::overlaps::overlaps;
use ruranges::ruranges_structs::{MinEvent, Nearest, OverlapPair, OverlapType};
use ruranges::split::sweep_line_split;
use ruranges::subtract::sweep_line_subtract;
use rustc_hash::FxHashMap;
use std::collections::BTreeSet;

const CHRS: [i64; 8] = [1, 1, 2, 1, 2, 1, 3, 1];
const STARTS: [i64; 8] = [0, 8, -5, 30, 2, 12, 7, 41];
const ENDS: [i64; 8] = [10, 12, 1, 40, 9, 20, 8, 50];

#[test]
fn clusters_follow_overlaps_and_groups() {
    for slack in [0i64, 1, 2, 10] {
        let (ids, rows) = sweep_line_cluster(&CHRS, &STARTS, &ENDS, slack);
        assert_eq!(ids.len(), rows.len());
        let mut seen: Vec<u32> = rows.clone();
        seen.sort();
        assert_eq!(seen, (0..CHRS.len() as u32).collect::<Vec<u32>>());
        for k in 1..ids.len() {
            assert!(ids[k - 1] <= ids[k]);
        }
        for a in 0..rows.len() {
            for b in 0..rows.len() {
                let (i, j) = (rows[a] as usize, rows[b] as usize);
                if CHRS[i] != CHRS[j] {
                    assert_ne!(ids[a], ids[b]);
                } else if STARTS[i] < ENDS[j] + slack && STARTS[j] < ENDS[i] + slack {
                    assert_eq!(ids[a], ids[b], "rows {} and {} with slack {}", i, j, slack);
                }
                if CHRS[i] == CHRS[j] && a < b {
                    let joined = (STARTS[i] + 1..=STARTS[j]).all(|x| {
                        (0..CHRS.len())
                            .any(|r| CHRS[r] == CHRS[i] && STARTS[r] < x && x < ENDS[r] + slack)
                    });
                    assert_eq!(ids[a] == ids[b], joined, "rows {} and {} with slack {}", i, j, slack);
                }
            }
        }
    }
    let (ids, rows) = sweep_line_cluster(&CHRS, &STARTS, &ENDS, 0);
    assert_eq!(rows, vec![0, 1, 5, 3, 7, 2, 4, 6]);
    assert_eq!(ids, vec![0, 0, 1, 2, 3, 5, 6, 8]);
    let (ids, rows) = sweep_line_cluster(&CHRS, &STARTS, &ENDS, 1);
    assert_eq!(rows, vec![0, 1, 5, 3, 7, 2, 4, 6]);
    assert_eq!(ids, vec![0, 0, 0, 1, 2, 4, 5, 7]);
}

#[test]
fn runs_have_a_length_and_lie_apart() {
    for slack in [0i64, 1, 2, 10] {
        let (rows, run_starts, run_ends, _) = sweep_line_merge(&CHRS, &STARTS, &ENDS, slack);
        for k in 0..rows.len() {
            assert!(run_starts[k] < run_ends[k]);
            for later in k + 1..rows.len() {
                if CHRS[rows[k] as usize] == CHRS[rows[later] as usize] {
                    assert!(run_ends[k] <= run_starts[later]);
                }
            }
        }
    }
    let (_, run_starts, run_ends, counts) = sweep_line_merge(&CHRS, &STARTS, &ENDS, 1);
    assert_eq!(run_starts, vec![0, 30, 41, -5, 2, 7]);
    assert_eq!(run_ends, vec![20, 40, 50, 1, 9, 8]);
    assert_eq!(counts, vec![3, 1, 1, 1, 1, 1]);
}

#[test]
fn gaps_of_a_group_lie_apart() {
    let chrs = [1i64, 1, 1, 2, 2, 1];
    let starts = [5i64, 8, 30, 0, 50, 31];
    let ends = [10i64, 20, 40, 5, 60, 33];
    let mut lengths: FxHashMap<i64, i64> = FxHashMap::default();
    lengths.insert(1, 100);
    lengths.insert(2, 80);
    for slack in [0i64, 3] {
        let (g_chr, g_start, g_end, _) =
            sweep_line_complement(&chrs, &starts, &ends, slack, &lengths, true);
        for k in 0..g_chr.len() {
            for later in k + 1..g_chr.len() {
                if g_chr[k] == g_chr[later] {
                    assert!(g_end[k] <= g_start[later]);
                }
            }
        }
    }
    let got = sweep_line_complement(&chrs, &starts, &ends, 3, &lengths, true);
    assert_eq!(got.0, vec![1, 1, 1, 2, 2]);
    assert_eq!(got.1, vec![0, 23, 43, 8, 63]);
    assert_eq!(got.2, vec![5, 30, 100, 50, 80]);
}

#[test]
fn no_pair_is_named_twice() {
    let chrs2 = [1i64, 1, 2, 1, 2];
    let starts2 = [-2i64, 9, -6, 9, 0];
    let ends2 = [9i64, 35, 3, 35, 4];
    for slack in [0i64, 2] {
        for sort_output in [false, true] {
            let (left, right) = overlaps(
                &CHRS, &STARTS, &ENDS, &chrs2, &starts2, &ends2, slack, OverlapType::All,
                sort_output, false,
            );
            let named: BTreeSet<(u32, u32)> =
                left.iter().copied().zip(right.iter().copied()).collect();
            assert_eq!(named.len(), left.len());
            for i in 0..CHRS.len() {
                for j in 0..chrs2.len() {
                    let meet = CHRS[i] == chrs2[j]
                        && STARTS[i] - slack < ends2[j]
                        && starts2[j] < ENDS[i] + slack;
                    assert_eq!(named.contains(&(i as u32, j as u32)), meet);
                }
            }
        }
    }
}

fn ev(chr: i64, pos: i64, idx: u32) -> MinEvent {
    MinEvent { chr, pos, idx }
}

fn rows_in_order() -> Vec<MinEvent> {
    vec![ev(1, -4, 3), ev(1, 10, 0), ev(1, 10, 4), ev(1, 30, 1), ev(2, 5, 2), ev(4, 0, 5)]
}

fn others_in_order() -> Vec<MinEvent> {
    vec![
        ev(1, -9, 6),
        ev(1, -4, 7),
        ev(1, 12, 0),
        ev(1, 12, 1),
        ev(1, 20, 2),
        ev(1, 40, 3),
        ev(2, 1, 4),
        ev(2, 5, 8),
        ev(3, 0, 5),
    ]
}

#[test]
fn hits_to_the_right_are_at_the_nearest_positions() {
    let rows = rows_in_order();
    let others = others_in_order();
    for k in 0usize..5 {
        let mut got = nearest_intervals_to_the_right(rows.clone(), others.clone(), k);
        let mut expected: Vec<Nearest> = Vec::new();
        for e in &rows {
            for s in &others {
                let between: BTreeSet<i64> = others
                    .iter()
                    .filter(|o| o.chr == e.chr && e.pos <= o.pos && o.pos < s.pos)
                    .map(|o| o.pos)
                    .collect();
                if s.chr == e.chr && e.pos <= s.pos && between.len() < k {
                    expected.push(Nearest { distance: s.pos - e.pos + 1, idx: e.idx, idx2: s.idx });
                }
            }
        }
        got.sort_by_key(|n| (n.idx, n.idx2, n.distance));
        expected.sort_by_key(|n| (n.idx, n.idx2, n.distance));
        assert_eq!(got, expected, "k = {}", k);
    }
}

#[test]
fn hits_to_the_left_are_at_the_nearest_positions() {
    let rows = rows_in_order();
    let others = others_in_order();
    for k in 0usize..5 {
        let mut got = nearest_intervals_to_the_left(rows.clone(), others.clone(), k);
        let mut expected: Vec<Nearest> = Vec::new();
        for e in &rows {
            for s in &others {
                let between: BTreeSet<i64> = others
                    .iter()
                    .filter(|o| o.chr == e.chr && s.pos < o.pos && o.pos < e.pos)
                    .map(|o| o.pos)
                    .collect();
                if s.chr == e.chr && s.pos < e.pos && between.len() < k {
                    expected.push(Nearest { distance: e.pos - s.pos + 1, idx: e.idx, idx2: s.idx });
                }
            }
        }
        got.sort_by_key(|n| (n.idx, n.idx2, n.distance));
        expected.sort_by_key(|n| (n.idx, n.idx2, n.distance));
        assert_eq!(got, expected, "k = {}", k);
    }
}

#[test]
fn the_merge_keeps_the_least_distances_of_each_row() {
    let p = |idx: u32, idx2: u32| OverlapPair { idx, idx2 };
    let n = |distance: i64, idx: u32, idx2: u32| Nearest { distance, idx, idx2 };
    let overlaps = vec![p(0, 7), p(0, 2), p(2, 1), p(5, 0)];
    let left = vec![n(3, 0, 5), n(9, 0, 6), n(4, 1, 5), n(1, 3, 4), n(1, 3, 6), n(8, 3, 0)];
    let right = vec![n(3, 0, 8), n(5, 0, 9), n(2, 1, 8), n(4, 1, 9), n(6, 3, 9), n(i64::MAX, 4, 1)];
    let mut offered: Vec<Nearest> = overlaps.iter().map(|o| n(0, o.idx, o.idx2)).collect();
    offered.extend(left.iter().copied());
    offered.extend(right.iter().copied());
    for k in 0usize..5 {
        let got = merge_three_way_by_index_distance(&overlaps, &left, &right, k);
        let mut expected: Vec<(u32, i64, u32)> = Vec::new();
        for x in &offered {
            let nearer: BTreeSet<i64> = offered
                .iter()
                .filter(|y| y.idx == x.idx && y.distance < x.distance)
                .map(|y| y.distance)
                .collect();
            if x.distance < i64::MAX && nearer.len() < k {
                expected.push((x.idx, x.distance, x.idx2));
            }
        }
        expected.sort();
        let listed: Vec<(u32, i64, u32)> =
            (0..got.0.len()).map(|q| (got.0[q], got.2[q], got.1[q])).collect();
        assert_eq!(listed, expected, "k = {}", k);
    }
}

#[test]
fn nearest_returns_the_least_distances_of_each_row() {
    let chrs2 = [1i64, 1, 2, 1, 2, 1, 1, 3];
    let starts2 = [-2i64, 9, -6, 9, 12, 20, 60, 8];
    let ends2 = [-1i64, 35, 3, 11, 14, 22, 70, 9];
    for slack in [0i64, 2] {
        for include_overlaps in [false, true] {
            for direction in [Direction::Forward, Direction::Backward, Direction::Any] {
                for k in 0usize..4 {
                    let mut offered: Vec<(u32, i64, u32)> = Vec::new();
                    for i in 0..CHRS.len() {
                        let (lo, hi) = (STARTS[i] - slack, ENDS[i] + slack);
                        for j in 0..chrs2.len() {
                            if chrs2[j] != CHRS[i] {
                                continue;
                            }
                            if include_overlaps && lo < ends2[j] && starts2[j] < hi {
                                offered.push((i as u32, 0, j as u32));
                            }
                            let nearer_ends: BTreeSet<i64> = (0..chrs2.len())
                                .filter(|&o| chrs2[o] == CHRS[i] && ends2[j] < ends2[o] && ends2[o] < lo)
                                .map(|o| ends2[o])
                                .collect();
                            if direction != Direction::Forward && ends2[j] < lo && nearer_ends.len() < k {
                                offered.push((i as u32, lo - ends2[j] + 1, j as u32));
                            }
                            let nearer_starts: BTreeSet<i64> = (0..chrs2.len())
                                .filter(|&o| {
                                    chrs2[o] == CHRS[i] && hi <= starts2[o] && starts2[o] < starts2[j]
                                })
                                .map(|o| starts2[o])
                                .collect();
                            if direction != Direction::Backward
                                && hi <= starts2[j]
                                && nearer_starts.len() < k
                            {
                                offered.push((i as u32, starts2[j] - hi + 1, j as u32));
                            }
                        }
                    }
                    let mut expected: Vec<(u32, i64, u32)> = offered
                        .iter()
                        .copied()
                        .filter(|x| {
                            let nearer: BTreeSet<i64> = offered
                                .iter()
                                .filter(|y| y.0 == x.0 && y.1 < x.1)
                                .map(|y| y.1)
                                .collect();
                            nearer.len() < k
                        })
                        .collect();
                    expected.sort();
                    let got = nearest(
                        &CHRS, &STARTS, &ENDS, &chrs2, &starts2, &ends2, slack, k,
                        include_overlaps, direction,
                    );
                    let listed: Vec<(u32, i64, u32)> =
                        (0..got.0.len()).map(|q| (got.0[q], got.2[q], got.1[q])).collect();
                    assert_eq!(
                        listed, expected,
                        "slack {} overlaps {} direction {:?} k {}",
                        slack, include_overlaps, direction, k
                    );
                }
            }
        }
    }
}

#[test]
fn contained_pairs_and_one_partner_for_each_row() {
    let chrs2 = [1i64, 1, 2, 1, 2, 3];
    let starts2 = [-2i64, 9, -6, 5, 0, 7];
    let ends2 = [13i64, 35, 3, 55, 4, 8];
    for slack in [0i64, 1] {
        for contained in [false, true] {
            let is_pair = |i: usize, j: usize| {
                let (lo, hi) = (STARTS[i] - slack, ENDS[i] + slack);
                CHRS[i] == chrs2[j]
                    && if contained {
                        starts2[j] <= lo && hi <= ends2[j]
                    } else {
                        lo < ends2[j] && starts2[j] < hi
                    }
            };
            let (left, right) = overlaps(
                &CHRS, &STARTS, &ENDS, &chrs2, &starts2, &ends2, slack, OverlapType::All, true,
                contained,
            );
            let mut expected: Vec<(u32, u32)> = Vec::new();
            for i in 0..CHRS.len() {
                for j in 0..chrs2.len() {
                    if is_pair(i, j) {
                        expected.push((i as u32, j as u32));
                    }
                }
            }
            let mut named: Vec<(u32, u32)> =
                left.iter().copied().zip(right.iter().copied()).collect();
            named.sort();
            assert_eq!(named, expected, "slack {} contained {}", slack, contained);
            for overlap_type in [OverlapType::First, OverlapType::Last] {
                let (left, right) = overlaps(
                    &CHRS, &STARTS, &ENDS, &chrs2, &starts2, &ends2, slack, overlap_type, false,
                    contained,
                );
                let with_partner: Vec<u32> = (0..CHRS.len())
                    .filter(|&i| (0..chrs2.len()).any(|j| is_pair(i, j)))
                    .map(|i| i as u32)
                    .collect();
                assert_eq!(left, with_partner);
                for k in 0..left.len() {
                    assert!(is_pair(left[k] as usize, right[k] as usize));
                }
            }
        }
    }
    let within = overlaps(
        &CHRS, &STARTS, &ENDS, &chrs2, &starts2, &ends2, 0, OverlapType::All, true, true,
    );
    let mut within: Vec<(u32, u32)> = within.0.into_iter().zip(within.1).collect();
    within.sort();
    assert_eq!(
        within,
        vec![(0, 0), (1, 0), (1, 3), (2, 2), (3, 3), (5, 1), (5, 3), (6, 5), (7, 3)]
    );
}

#[test]
fn one_span_for_each_group() {
    let (rows, span_starts, span_ends, counts) = sweep_line_boundary(&CHRS, &STARTS, &ENDS);
    assert_eq!(rows, vec![7, 4, 6]);
    assert_eq!(span_starts, vec![0, -5, 7]);
    assert_eq!(span_ends, vec![50, 9, 8]);
    assert_eq!(counts, vec![10, 4, 2]);
    for k in 0..rows.len() {
        let g = CHRS[rows[k] as usize];
        let of_group: Vec<usize> = (0..CHRS.len()).filter(|&i| CHRS[i] == g).collect();
        assert_eq!(span_starts[k], of_group.iter().map(|&i| STARTS[i]).min().unwrap());
        assert_eq!(span_ends[k], of_group.iter().map(|&i| ENDS[i]).max().unwrap());
        assert_eq!(counts[k] as usize, 2 * of_group.len());
        if k > 0 {
            assert!(CHRS[rows[k - 1] as usize] < g);
        }
    }
}

#[test]
fn pieces_cut_what_is_covered() {
    for slack in [0i64, 1, 3] {
        for between in [false, true] {
            let (rows, p_starts, p_ends) = sweep_line_split(&CHRS, &STARTS, &ENDS, slack, between);
            for k in 0..rows.len() {
                let g = CHRS[rows[k] as usize];
                assert!(p_starts[k] < p_ends[k]);
                for i in 0..CHRS.len() {
                    if CHRS[i] == g {
                        assert!(!(p_starts[k] < STARTS[i] && STARTS[i] < p_ends[k]));
                        assert!(!(p_starts[k] < ENDS[i] + slack && ENDS[i] + slack < p_ends[k]));
                    }
                }
                for later in k + 1..rows.len() {
                    if CHRS[rows[later] as usize] == g {
                        assert!(p_ends[k] <= p_starts[later]);
                    }
                }
            }
            for g in [1i64, 2, 3] {
                for x in -8i64..60 {
                    let is_covered = (0..CHRS.len())
                        .any(|i| CHRS[i] == g && STARTS[i] <= x && x < ENDS[i] + slack);
                    let in_pieces = (0..rows.len())
                        .filter(|&k| CHRS[rows[k] as usize] == g && p_starts[k] <= x && x < p_ends[k])
                        .count();
                    if is_covered {
                        assert_eq!(in_pieces, 1);
                    } else if !between {
                        assert_eq!(in_pieces, 0);
                    }
                }
            }
        }
    }
    let plain = sweep_line_split(&CHRS, &STARTS, &ENDS, 0, false);
    assert_eq!(plain.1, vec![0, 8, 10, 12, 30, 41, -5, 2, 7]);
    assert_eq!(plain.2, vec![8, 10, 12, 20, 40, 50, 1, 9, 8]);
    let all = sweep_line_split(&CHRS, &STARTS, &ENDS, 0, true);
    assert_eq!(all.1, vec![0, 8, 10, 12, 20, 30, 40, 41, -5, 1, 2, 7]);
    assert_eq!(all.2, vec![8, 10, 12, 20, 30, 40, 41, 50, 1, 2, 9, 8]);
}

#[test]
fn what_is_left_of_a_row_comes_from_left_to_right() {
    let chrs2 = [1i64, 1, 1, 2, 1, 1, 3];
    let starts2 = [45i64, 2, 9, -1, 14, 33, 0];
    let ends2 = [47i64, 4, 11, 0, 16, 35, 7];
    let (rows, left_starts, left_ends) =
        sweep_line_subtract(&CHRS, &STARTS, &ENDS, &chrs2, &starts2, &ends2);
    assert_eq!(rows, vec![0, 0, 1, 1, 2, 2, 3, 3, 4, 5, 5, 6, 7, 7]);
    assert_eq!(left_starts, vec![0, 4, 8, 11, -5, 0, 30, 35, 2, 12, 16, 7, 41, 47]);
    assert_eq!(left_ends, vec![2, 9, 9, 12, -1, 1, 33, 40, 9, 14, 20, 8, 45, 50]);
    for k in 1..rows.len() {
        assert!(rows[k - 1] <= rows[k]);
        if rows[k - 1] == rows[k] {
            assert!(left_ends[k - 1] <= left_starts[k]);
        }
    }
}

#[test]
fn gaps_behind_the_first_interval() {
    let chrs = [1i64, 1, 1, 2, 2, 1];
    let starts = [5i64, 8, 30, 0, 50, 31];
    let ends = [10i64, 20, 40, 5, 60, 33];
    let mut lengths: FxHashMap<i64, i64> = FxHashMap::default();
    lengths.insert(1, 100);
    lengths.insert(2, 80);
    for slack in [0i64, 3] {
        let (g_chr, g_start, g_end, _) =
            sweep_line_complement(&chrs, &starts, &ends, slack, &lengths, false);
        for g in [1i64, 2] {
            for x in 0..lengths[&g] {
                let is_covered = (0..chrs.len())
                    .any(|i| chrs[i] == g && starts[i] <= x && x < ends[i] + slack);
                let is_begun = (0..chrs.len()).any(|i| chrs[i] == g && starts[i] <= x);
                let in_gaps = (0..g_chr.len())
                    .filter(|&k| g_chr[k] == g && g_start[k] <= x && x < g_end[k])
                    .count();
                assert_eq!(in_gaps, if !is_covered && is_begun { 1 } else { 0 });
            }
        }
    }
    let got = sweep_line_complement(&chrs, &starts, &ends, 0, &lengths, false);
    assert_eq!(got.0, vec![1, 1, 2, 2]);
    assert_eq!(got.1, vec![20, 40, 5, 60]);
    assert_eq!(got.2, vec![30, 100, 50, 80]);
}
