use geng::nauty::partition_nest::partition::Partition;
use geng::nauty::partition_nest::PartitionNest;
use geng::nauty::NAUTY_INFINITY;

const LAB: &[usize] = &[4, 6, 2, 0, 8, 7, 5, 9, 3, 1];
const PTN: &[usize] = &[
    NAUTY_INFINITY,
    3,
    NAUTY_INFINITY,
    1,
    2,
    NAUTY_INFINITY,
    NAUTY_INFINITY,
    0,
    2,
    0,
];

fn nest() -> PartitionNest {
    PartitionNest::new(Vec::from(LAB), Vec::from(PTN))
}

fn cells(nest: &PartitionNest, level: usize) -> Vec<Vec<usize>> {
    nest.partition_vec(level).iter().map(|c| c.to_vec()).collect()
}

#[test]
fn test_partition_level_0() {
    assert_eq!(cells(&nest(), 0), vec![vec![4, 6, 2, 0, 8, 7, 5, 9], vec![3, 1]]);
}

#[test]
fn test_partition_level_1() {
    assert_eq!(cells(&nest(), 1), vec![vec![4, 6, 2, 0], vec![8, 7, 5, 9], vec![3, 1]]);
}

#[test]
fn test_partition_level_2() {
    assert_eq!(
        cells(&nest(), 2),
        vec![vec![4, 6, 2, 0], vec![8], vec![7, 5, 9], vec![3], vec![1]]
    );
}

#[test]
fn test_partition_level_3() {
    assert_eq!(
        cells(&nest(), 3),
        vec![vec![4, 6], vec![2, 0], vec![8], vec![7, 5, 9], vec![3], vec![1]]
    );
}

#[test]
fn test_partition_string() {
    assert_eq!(nest().partition_string(3), "4, 6 | 2, 0 | 8 | 7, 5, 9 | 3 | 1");
}

#[test]
fn test_split2_cases() {
    let cases: &[(usize, usize, usize)] = &[
        (0, 0, 7),
        (0, 1, 7),
        (0, 7, 7),
        (0, 8, 9),
        (0, 9, 9),
        (1, 0, 3),
        (1, 3, 3),
        (1, 4, 7),
        (1, 7, 7),
        (1, 8, 9),
        (1, 9, 9),
        (2, 0, 3),
        (2, 3, 3),
        (2, 4, 4),
        (2, 5, 7),
        (2, 7, 7),
        (2, 8, 8),
        (2, 9, 9),
        (3, 0, 1),
        (3, 1, 1),
        (3, 2, 3),
        (3, 3, 3),
        (3, 4, 4),
        (3, 5, 7),
        (3, 7, 7),
        (3, 8, 8),
        (3, 9, 9),
    ];
    for &(level, split1, split2) in cases {
        assert_eq!(nest().cell_end(split1, level), split2);
    }
}

#[test]
fn test_debug() {
    assert_eq!(
        nest().debug_string(),
        "".to_owned()
            + "PartitionNest { lab: [4, 6, 2, 0, 8, 7, 5, 9, 3, 1], ptn: [2000000002, 3, 2000000002, 1, 2, 2000000002, 2000000002, 0, 2, 0] }\n"
            + "0:  4, 6, 2, 0, 8, 7, 5, 9 | 3, 1\n"
            + "1:  4, 6, 2, 0 | 8, 7, 5, 9 | 3, 1\n"
            + "2:  4, 6, 2, 0 | 8 | 7, 5, 9 | 3 | 1\n"
            + "3:  4, 6 | 2, 0 | 8 | 7, 5, 9 | 3 | 1\n"
    );
}

#[test]
fn test_unpartioned_4() {
    assert_eq!(
        PartitionNest::new(
            vec![0, 1, 2, 3],
            vec![NAUTY_INFINITY, NAUTY_INFINITY, NAUTY_INFINITY, 0]
        )
        .debug_string(),
        "".to_owned()
            + "PartitionNest { lab: [0, 1, 2, 3], ptn: [2000000002, 2000000002, 2000000002, 0] }\n"
            + "0:  0, 1, 2, 3\n"
    );
}

#[test]
fn test_partition_inplace_orig() {
    let mut partition = Partition::new(
        PartitionNest::new(vec![0, 2, 1], vec![2, NAUTY_INFINITY, 0]),
        2,
    );
    assert_eq!(partition.numcells(), 2);
    let gptr = geng::nauty::bitset::BitSet::zeros(3);
    {
        let mut cells_mut = partition.cells_mut();
        let mut cell = cells_mut.nth(1).unwrap();
        let true_count = cell.partition_in_place_orig(&gptr);
        assert_eq!(true_count, 0);
    }
    assert_eq!(partition.numcells(), 2);
    assert_eq!(partition.nest.lab_slice(), &[0, 1, 2]);
    assert_eq!(partition.nest.ptn_at(0), 2);
    assert_eq!(partition.nest.ptn_at(1), NAUTY_INFINITY);
    assert_eq!(partition.nest.ptn_at(2), 0);
}

#[test]
fn test_max_level_and_numcells() {
    let n = nest();
    assert_eq!(n.max_level(), 3);
    assert_eq!(n.numcells(0), 2);
    assert_eq!(n.numcells(1), 3);
    assert_eq!(n.numcells(2), 5);
    assert_eq!(n.numcells(3), 6);
    assert_eq!(n.numcells(7), 6);
    assert_eq!(n.max_level_numcells(), 6);
}

#[test]
fn test_is_sane() {
    let n = nest();
    n.assert_is_sane();
    assert_eq!(n.lab_len(), 10);
}

#[test]
fn test_swap_and_get() {
    let mut n = nest();
    n.swap(0, 9);
    assert_eq!(n.get(0), 1);
    assert_eq!(n.get(9), 4);
}
