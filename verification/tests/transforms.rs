use ruranges::group_cumsum::sweep_line_cumsum;
use ruranges::map_to_global::map_to_global;
use ruranges::spliced_subsequence::{global_shift, spliced_subseq, spliced_subseq_multi};
use ruranges::tile::{ceil_to, floor_to, tile, tile_grouped, window_grouped};

#[test]
fn cumulative_lengths_by_group() {
    let got = sweep_line_cumsum(&[1, 1, 2], &[10, 0, 5], &[20, 5, 9], &[true, true, true], false);
    assert_eq!(got, (vec![1, 0, 2], vec![0, 5, 0], vec![5, 15, 4]));
    let sorted = sweep_line_cumsum(&[1, 1, 2], &[10, 0, 5], &[20, 5, 9], &[true, true, true], true);
    assert_eq!(sorted, (vec![0, 1, 2], vec![5, 0, 0], vec![15, 5, 4]));
    // on the reverse strand the row with the greatest start comes first
    let back = sweep_line_cumsum(&[1, 1], &[0, 10], &[5, 20], &[false, false], false);
    assert_eq!(back, (vec![1, 0], vec![0, 10], vec![10, 15]));
}

#[test]
fn grid_boundaries() {
    assert_eq!(floor_to(250, 100), 200);
    assert_eq!(floor_to(200, 100), 200);
    assert_eq!(floor_to(-1, 100), -100);
    assert_eq!(floor_to(-100, 100), -100);
    assert_eq!(floor_to(-101, 100), -200);
    assert_eq!(ceil_to(250, 100), 300);
    assert_eq!(ceil_to(300, 100), 300);
    assert_eq!(ceil_to(-120, 100), -100);
    assert_eq!(ceil_to(0, 7), 0);
}

#[test]
fn tiles_of_intervals() {
    let got = tile(&[99, 100, 7, 5], &[100, 250, 7, 3], &[false, false, false, false], 100);
    assert_eq!(got.0, vec![0, 100, 200]);
    assert_eq!(got.1, vec![100, 200, 300]);
    assert_eq!(got.2, vec![0, 1, 1]);
    assert_eq!(got.3, vec![1, 100, 50]);
    let fractions: Vec<f64> = got.3.iter().map(|&c| c as f64 / 100.0).collect();
    assert_eq!(fractions, vec![0.01, 1.0, 0.5]);
    let below = tile(&[-150], &[-20], &[false], 100);
    assert_eq!(below, (vec![-200, -100], vec![-100, 0], vec![0, 0], vec![50, 80]));
    let back = tile(&[100, -250], &[250, -120], &[true, true], 100);
    assert_eq!(back.0, vec![200, 100, -200, -300]);
    assert_eq!(back.1, vec![300, 200, -100, -200]);
    assert_eq!(back.2, vec![0, 0, 1, 1]);
    assert_eq!(back.3, vec![50, 100, 80, 50]);
    let grouped = tile_grouped(&[1, 2], &[99, 100], &[100, 250], &[false, false], 100);
    assert_eq!(grouped, (vec![0, 100, 200], vec![100, 200, 300], vec![0, 1, 1], vec![1, 100, 50]));
}

#[test]
fn windows_run_over_from_row_to_row() {
    let got = window_grouped(&[1, 1], &[0, 100], &[25, 130], &[false, false], 10);
    assert_eq!(got.0, vec![0, 10, 20, 100, 105, 115, 125]);
    assert_eq!(got.1, vec![10, 20, 25, 105, 115, 125, 130]);
    assert_eq!(got.2, vec![0, 0, 0, 1, 1, 1, 1]);
    // another group begins with a fresh window
    let two = window_grouped(&[1, 2], &[0, 100], &[25, 130], &[false, false], 10);
    assert_eq!(two.0, vec![0, 10, 20, 100, 110, 120]);
    assert_eq!(two.1, vec![10, 20, 25, 110, 120, 130]);
}

#[test]
fn windows_on_the_negative_strand_end_complete() {
    let got = window_grouped(&[1, 1], &[0, 100], &[25, 130], &[true, true], 10);
    assert_eq!(got.0, vec![15, 5, 0, 120, 110, 100]);
    assert_eq!(got.1, vec![25, 15, 5, 130, 120, 110]);
    assert_eq!(got.2, vec![0, 0, 0, 1, 1, 1]);
    let short = window_grouped(&[1, 1, 1], &[0, 100, 7], &[3, 130, 7], &[true, true, true], 10);
    // 33 positions in all: a short window of 3 comes first, three whole ones follow
    assert_eq!(short.0, vec![0, 120, 110, 100]);
    assert_eq!(short.1, vec![3, 130, 120, 110]);
    assert_eq!(short.2, vec![0, 1, 1, 1]);
    let odd = window_grouped(&[1, 1], &[0, 100], &[4, 130], &[true, true], 10);
    // 34 positions in all: 4, then 10, 10 and 10
    assert_eq!(odd.0, vec![0, 120, 110, 100]);
    let cut = window_grouped(&[1, 1], &[0, 100], &[2, 115], &[true, true], 10);
    // 17 positions in all: the short window of 7 takes the first row and
    // five positions of the second
    assert_eq!(cut.0, vec![0, 105, 100]);
    assert_eq!(cut.1, vec![2, 115, 105]);
    let mixed = window_grouped(&[1, 1, 1], &[0, 50, 100], &[15, 65, 105], &[false, true, false], 10);
    assert_eq!(mixed.0, vec![0, 10, 55, 50, 100]);
    assert_eq!(mixed.1, vec![10, 15, 65, 55, 105]);
    assert_eq!(mixed.2, vec![0, 0, 1, 1, 2]);
}

#[test]
fn stretches_of_transcripts_on_the_genome() {
    let got = map_to_global(
        &[1, 1, 2],
        &[0, 100, 0],
        &[100, 200, 50],
        &[1, 2, 3],
        &[50, 10, 0],
        &[150, 20, 5],
        &[7, 7, 8],
        &[1000, 2000, 500],
        &[1100, 2100, 550],
        &[true, true, false],
        &[true, true, true],
    );
    assert_eq!(got.0, vec![0, 0, 1]);
    assert_eq!(got.1, vec![1050, 2000, 530]);
    assert_eq!(got.2, vec![1100, 2050, 540]);
    assert_eq!(got.3, vec![true, true, false]);
    // two queries of one transcript, the second behind the first
    let two = map_to_global(
        &[1, 1],
        &[0, 100],
        &[100, 200],
        &[1, 1],
        &[10, 120],
        &[20, 130],
        &[7, 7],
        &[1000, 2000],
        &[1100, 2100],
        &[true, true],
        &[false, false],
    );
    assert_eq!(two, (vec![0, 1], vec![1010, 2020], vec![1020, 2030], vec![false, false]));
}

#[test]
fn stretches_cut_out_of_transcripts() {
    let chrs = [1i64, 1, 1];
    let starts = [100i64, 300, 500];
    let ends = [200i64, 400, 600];
    let fwd = [true, true, true];
    let got = spliced_subseq(&chrs, &starts, &ends, &fwd, 50, Some(250), false);
    assert_eq!(got, (vec![0, 1, 2], vec![150, 300, 500], vec![200, 400, 550], vec![true, true, true]));
    let tail = spliced_subseq(&chrs, &starts, &ends, &fwd, -100, None, false);
    assert_eq!(tail, (vec![2], vec![500], vec![600], vec![true]));
    let back = spliced_subseq(&[1, 1], &[100, 300], &[200, 400], &[false, false], 0, Some(150), false);
    assert_eq!(back, (vec![0, 1], vec![150, 300], vec![200, 400], vec![true, true]));
    // the exons keep the order of the reverse strand, and each is cut from its right
    let forced = spliced_subseq(&[1, 1], &[100, 300], &[200, 400], &[false, false], 0, Some(150), true);
    assert_eq!(forced, (vec![0, 1], vec![100, 300], vec![150, 400], vec![false, false]));
    assert_eq!(global_shift(&[5, -50], &[50, -7]), 50);
    assert_eq!(global_shift(&[5], &[50]), 0);
    let low = spliced_subseq(&[1], &[-50], &[50], &[true], 10, Some(30), false);
    assert_eq!(low, (vec![0], vec![-40], vec![-20], vec![true]));
}

#[test]
fn stretches_by_transcript() {
    // transcript 1 keeps the stretch 0..50, transcript 2 the stretch 10..20
    let got = spliced_subseq_multi(
        &[1, 2, 1],
        &[100, 1000, 300],
        &[200, 1100, 400],
        &[true, true, true],
        &[0, 10, 999],
        &[Some(50), Some(20), None],
        false,
    );
    assert_eq!(got, (vec![0, 1], vec![100, 1010], vec![150, 1020], vec![true, true]));
}
