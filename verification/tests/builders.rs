use ruranges::arith::{sat_abs, sat_add, sat_neg, sat_sub};
use ruranges::radix::{apply_order, sort_order, sort_rows};
use ruranges::ruranges_structs::{Event, GenericEvent, Interval, MaxEvent, MinEvent};
use ruranges::sorts::{
    build_intervals, build_sequence_intervals, build_sorted_events,
    build_sorted_events_from_intervals, build_sorted_events_idxs,
    build_sorted_events_single_collection,
    build_sorted_events_single_collection_separate_outputs, build_sorted_events_single_position,
    build_sorted_events_with_starts_ends, build_sorted_groups, build_sorted_intervals,
    build_sorted_maxevents_with_starts_ends, build_sorted_sequence_intervals,
    build_sorted_subsequence_intervals, build_subsequence_intervals, sort_order_idx,
};

#[test]
fn arithmetic_saturates() {
    assert_eq!(sat_add(i64::MAX, 1), i64::MAX);
    assert_eq!(sat_add(i64::MIN, -1), i64::MIN);
    assert_eq!(sat_add(3, 4), 7);
    assert_eq!(sat_sub(i64::MIN, 1), i64::MIN);
    assert_eq!(sat_sub(i64::MAX, -1), i64::MAX);
    assert_eq!(sat_sub(3, 4), -1);
    assert_eq!(sat_neg(i64::MIN), i64::MAX);
    assert_eq!(sat_neg(5), -5);
    assert_eq!(sat_abs(i64::MIN), i64::MAX);
    assert_eq!(sat_abs(-5), 5);
    assert_eq!(sat_abs(5), 5);
}

#[test]
fn sorting_is_stable_and_by_all_parts_of_the_key() {
    let keys = vec![(2, 0, 0), (1, 5, 1), (1, 5, 0), (1, -7, 9), (2, 0, 0), (i64::MIN, 0, 0)];
    assert_eq!(sort_order(&keys), vec![5, 3, 2, 1, 0, 4]);
    assert_eq!(sort_order(&Vec::new()), Vec::<usize>::new());
    let rows = vec!['a', 'b', 'c', 'd', 'e', 'f'];
    assert_eq!(sort_rows(&rows, &keys), vec!['f', 'd', 'c', 'b', 'a', 'e']);
    assert_eq!(apply_order(&rows, &vec![1, 1, 0]), vec!['b', 'b', 'a']);
}

#[test]
fn ends_sort_before_starts() {
    let got = build_sorted_events_single_collection(&[1, 1], &[10, 0], &[20, 10], 0);
    let ev = |pos: i64, is_start: bool, idx: u32| Event {
        chr: 1,
        pos,
        is_start,
        first_set: true,
        idx,
    };
    assert_eq!(got, vec![ev(0, true, 1), ev(10, false, 1), ev(10, true, 0), ev(20, false, 0)]);
    let wide = build_sorted_events_single_collection(&[1, 1], &[10, 0], &[20, 10], 1);
    assert_eq!(wide, vec![ev(0, true, 1), ev(10, true, 0), ev(11, false, 1), ev(21, false, 0)]);
    let top = build_sorted_events_single_collection(&[1], &[0], &[i64::MAX - 1], 5);
    assert_eq!(top, vec![ev(0, true, 0), ev(i64::MAX, false, 0)]);
}

#[test]
fn events_of_two_tables() {
    let got = build_sorted_events(&[1], &[3], &[10], &[1], &[0], &[3], 5);
    let ev = |pos: i64, is_start: bool, first_set: bool| GenericEvent {
        chr: 1,
        pos,
        is_start,
        first_set,
        idx: 0,
    };
    // the slack 5 carries the start 3 to -2
    assert_eq!(
        got,
        vec![ev(-2, true, true), ev(0, true, false), ev(3, false, false), ev(15, false, true)]
    );
    let plain = build_sorted_events_idxs(&[1], &[3], &[10], &[1], &[0], &[3], 5);
    let pv = |pos: i64, is_start: bool, first_set: bool| Event {
        chr: 1,
        pos,
        is_start,
        first_set,
        idx: 0,
    };
    assert_eq!(
        plain,
        vec![pv(-2, true, true), pv(0, true, false), pv(3, false, false), pv(15, false, true)]
    );
    let max = build_sorted_maxevents_with_starts_ends(&[1], &[3], &[10], &[1], &[0], &[3], 5);
    let mv = |pos: i64, start: i64, end: i64, is_start: bool, first_set: bool| MaxEvent {
        chr: 1,
        pos,
        start,
        end,
        is_start,
        first_set,
        idx: 0,
    };
    assert_eq!(
        max,
        vec![
            mv(-2, -2, 15, true, true),
            mv(0, 0, 3, true, false),
            mv(3, 0, 3, false, false),
            mv(15, -2, 15, false, true)
        ]
    );
}

#[test]
fn positions_and_groups() {
    let m = |chr: i64, pos: i64, idx: u32| MinEvent { chr, pos, idx };
    let got = build_sorted_events_single_collection_separate_outputs(&[2, 1, 1], &[5, 9, 3], 1);
    assert_eq!(got, vec![m(1, 2, 2), m(1, 8, 1), m(2, 4, 0)]);
    assert_eq!(build_sorted_events_with_starts_ends(&[2, 1, 1], &[5, 9, 3], 1), got);
    assert_eq!(build_sorted_groups(&[3, 1, 3, 2, 1]), vec![1, 4, 3, 0, 2]);
    let single = build_sorted_events_single_position(&[1, 1], &[5, 9], false, false, true, 2);
    let ev = |pos: i64, idx: u32| Event { chr: 1, pos, is_start: false, first_set: false, idx };
    assert_eq!(single, vec![ev(-11, 1), ev(-7, 0)]);
}

#[test]
fn intervals_in_order() {
    let iv = |group: i64, start: i64, end: i64, idx: u32| Interval { group, start, end, idx };
    let built = build_intervals(&[1, 1], &[10, 0], &[20, 5], Some(&[true, false]), 1);
    assert_eq!(built, vec![iv(1, -9, -21, 0), iv(1, -1, 6, 1)]);
    let sorted = build_sorted_intervals(&[2, 1, 1, 1], &[0, 7, 7, 3], &[1, 9, 8, 4], None, 0, true);
    assert_eq!(sorted, vec![iv(1, 3, 4, 3), iv(1, 7, 8, 2), iv(1, 7, 9, 1), iv(2, 0, 1, 0)]);
    let by_start =
        build_sorted_intervals(&[2, 1, 1, 1], &[0, 7, 7, 3], &[1, 9, 8, 4], None, 0, false);
    assert_eq!(by_start, vec![iv(1, 3, 4, 3), iv(1, 7, 9, 1), iv(1, 7, 8, 2), iv(2, 0, 1, 0)]);
    assert_eq!(sort_order_idx(&[2, 1, 1, 1], &[0, 7, 7, 3], &[1, 9, 8, 4], None), vec![3, 2, 1, 0]);
    let events = build_sorted_events_from_intervals(&[iv(2, 0, 5, 4)], &[iv(1, 5, 9, 7)]);
    let ev = |chr: i64, pos: i64, is_start: bool, first_set: bool, idx: u32| Event {
        chr,
        pos,
        is_start,
        first_set,
        idx,
    };
    assert_eq!(
        events,
        vec![
            ev(2, 0, true, true, 4),
            ev(2, 5, false, true, 4),
            ev(1, 5, true, false, 7),
            ev(1, 9, false, false, 7)
        ]
    );
}

#[test]
fn exons_in_order_of_transcription() {
    let rows = build_subsequence_intervals(&[1, 1], &[10, 30], &[20, 40], &[false, false]);
    assert_eq!((rows[0].start, rows[0].end, rows[0].forward_strand), (-10, -20, false));
    let sorted = build_sorted_subsequence_intervals(&[1, 1], &[10, 30], &[20, 40], &[false, false]);
    assert_eq!(sorted.iter().map(|r| r.idx).collect::<Vec<u32>>(), vec![1, 0]);
    let seq = build_sequence_intervals(&[1, 1], &[10, 30], &[20, 40], &[7, 8], &[false, true], false);
    assert_eq!((seq[0].start, seq[0].end, seq[0].idx), (-10, -20, 7));
    assert_eq!((seq[1].start, seq[1].end, seq[1].idx), (30, 40, 8));
    let forced =
        build_sorted_sequence_intervals(&[1, 1], &[30, 10], &[40, 20], &[7, 8], &[false, true], true);
    assert_eq!(forced.iter().map(|r| r.idx).collect::<Vec<i64>>(), vec![8, 7]);
}
