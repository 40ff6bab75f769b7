use ruranges::multiprocessing::{partition_chrom_ranges, partition_two_arrays, PartitionIndex};
use ruranges::ruranges_structs::MinEvent;

#[test]
fn test_partition_two_arrays() {
    // Two groups in each list: five positions of group 1 and four of group
    // 2 in the first, three and three in the second.
    let ev1 = vec![
        MinEvent { chr: 1, pos: 10, idx: 0 },
        MinEvent { chr: 1, pos: 20, idx: 1 },
        MinEvent { chr: 1, pos: 30, idx: 2 },
        MinEvent { chr: 1, pos: 40, idx: 3 },
        MinEvent { chr: 1, pos: 50, idx: 4 },
        MinEvent { chr: 2, pos: 10, idx: 5 },
        MinEvent { chr: 2, pos: 20, idx: 6 },
        MinEvent { chr: 2, pos: 30, idx: 7 },
        MinEvent { chr: 2, pos: 40, idx: 8 },
    ];
    let ev2 = vec![
        MinEvent { chr: 1, pos: 15, idx: 0 },
        MinEvent { chr: 1, pos: 25, idx: 1 },
        MinEvent { chr: 1, pos: 35, idx: 2 },
        MinEvent { chr: 2, pos: 5, idx: 3 },
        MinEvent { chr: 2, pos: 15, idx: 4 },
        MinEvent { chr: 2, pos: 25, idx: 5 },
    ];

    let results = partition_two_arrays(&ev1, &ev2, 3);

    for (i, part) in results.iter().enumerate() {
        println!("Partition {}: {:?}", i, part);
    }

    assert_eq!(results.len(), 3);
}

#[test]
fn partition_cuts_at_group_boundaries() {
    let ev = vec![
        MinEvent { chr: 1, pos: 10, idx: 0 },
        MinEvent { chr: 1, pos: 20, idx: 1 },
        MinEvent { chr: 1, pos: 30, idx: 2 },
        MinEvent { chr: 2, pos: 10, idx: 3 },
        MinEvent { chr: 2, pos: 20, idx: 4 },
        MinEvent { chr: 3, pos: 10, idx: 5 },
    ];
    // Six positions in two parts: three each at most, so group 1 fills the
    // first part and the rest goes to the second.
    assert_eq!(partition_chrom_ranges(&ev, 2), vec![(0, 3), (3, 6)]);
    // Four parts are asked for, three groups exist: the last part repeats.
    assert_eq!(partition_chrom_ranges(&ev, 4), vec![(0, 3), (3, 5), (5, 6), (5, 6)]);
    assert_eq!(partition_chrom_ranges(&ev, 1), vec![(0, 6)]);
}

#[test]
fn partition_of_nothing() {
    let none: Vec<MinEvent> = Vec::new();
    assert_eq!(partition_chrom_ranges(&none, 3), vec![(0, 0), (0, 0), (0, 0)]);
    let ev = vec![MinEvent { chr: 1, pos: 10, idx: 0 }];
    assert_eq!(partition_chrom_ranges(&ev, 0), Vec::<(usize, usize)>::new());
    assert_eq!(
        partition_two_arrays(&ev, &none, 1),
        vec![PartitionIndex { start1: 0, end1: 1, start2: 0, end2: 0 }]
    );
}
