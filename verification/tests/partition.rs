use geng::nauty::partition_nest::partition::Partition;
use geng::nauty::partition_nest::PartitionNest;
use geng::nauty::NAUTY_INFINITY;

const LAB: &[usize] = &[4, 6, 2, 0, 8, 7, 5, 9, 3, 1];
const PTN: &[usize] = &[4, 3, 4, 1, 2, 4, 4, 0, 2, 0];

#[test]
fn test_is_discrete_4() {
    let partition4 = Partition::new(PartitionNest::new(LAB.to_vec(), PTN.to_vec()), 4);
    assert!(partition4.is_discrete());
    assert_eq!(partition4.numcells(), partition4.len());
    assert_eq!(partition4.string(), "4 | 6 | 2 | 0 | 8 | 7 | 5 | 9 | 3 | 1");
}

#[test]
fn test_is_not_discrete_3() {
    let partition3 = Partition::new(PartitionNest::new(LAB.to_vec(), PTN.to_vec()), 3);
    assert!(!partition3.is_discrete());
    assert_eq!(partition3.numcells(), 6);
    assert_eq!(partition3.string(), "4, 6 | 2, 0 | 8 | 7, 5, 9 | 3 | 1");
}

#[test]
fn test_cells_of_partition_3() {
    let partition3 = Partition::new(PartitionNest::new(LAB.to_vec(), PTN.to_vec()), 3);
    let mut it = partition3.cells();
    let mut starts = vec![];
    while let Some(c) = it.next() {
        starts.push((c.first_lab_index, c.cell_lab.to_vec()));
    }
    assert_eq!(
        starts,
        vec![
            (0, vec![4, 6]),
            (2, vec![2, 0]),
            (4, vec![8]),
            (5, vec![7, 5, 9]),
            (8, vec![3]),
            (9, vec![1]),
        ]
    );
    assert_eq!(partition3.non_singleton_starts(), vec![0, 2, 5]);
}

#[test]
fn test_cell_end_and_is_cell_end() {
    let partition3 = Partition::new(PartitionNest::new(LAB.to_vec(), PTN.to_vec()), 3);
    assert_eq!(partition3.cell_end(5), 7);
    assert!(partition3.is_cell_end(7));
    assert!(!partition3.is_cell_end(6));
}

#[test]
fn test_get_splitters() {
    let partition3 = Partition::new(PartitionNest::new(LAB.to_vec(), PTN.to_vec()), 3);
    let set = partition3.get_splitters(5);
    assert_eq!(
        set.to_bools(),
        vec![false, false, false, false, false, true, false, true, false, true]
    );
    let cell = partition3.get_cell(5);
    assert_eq!(cell.len(), 3);
    assert_eq!(cell.get_splitters().to_bools(), set.to_bools());
}

#[test]
fn test_split_counts_a_cell() {
    let mut partition = Partition::new(
        PartitionNest::new(vec![0, 1, 2], vec![NAUTY_INFINITY, NAUTY_INFINITY, 0]),
        1,
    );
    assert_eq!(partition.numcells(), 1);
    partition.split(2);
    assert_eq!(partition.nest.get(2), 1);
    assert_eq!(partition.nest.get(1), 1);
    assert_eq!(partition.nest.ptn_at(1), NAUTY_INFINITY);
    assert_eq!(partition.nest.ptn_at(0), NAUTY_INFINITY);
    assert_eq!(*partition.numcells_mut(), 2);
}

#[test]
fn test_best_cell() {
    // edges (0, 4), (0, 5), (1, 5)
    let g = geng::nauty::Graph::from_closure(6, |i, j, _n| {
        let (a, b) = if i < j { (i, j) } else { (j, i) };
        (a, b) == (0, 4) || (a, b) == (0, 5) || (a, b) == (1, 5)
    });
    let nest = PartitionNest::new(
        [2, 3, 1, 4, 5, 0].to_vec(),
        [NAUTY_INFINITY, 0, NAUTY_INFINITY, 0, NAUTY_INFINITY, 0].to_vec(),
    );
    let partition = Partition::new(nest, 1);
    assert_eq!(partition.bestcell(&g).first_lab_index, 2);
}

#[test]
fn test_get_cell_at_a_cell_start() {
    let partition3 = Partition::new(PartitionNest::new(LAB.to_vec(), PTN.to_vec()), 3);
    let cell = partition3.get_cell(4);
    assert_eq!(cell.first_lab_index, 4);
    assert_eq!(cell.len(), 1);
    assert_eq!(cell.get(0), 8);
}

#[test]
fn test_get_cell_inside_a_cell() {
    let partition = Partition::new(
        PartitionNest::new(vec![0, 1, 2], vec![NAUTY_INFINITY, NAUTY_INFINITY, 0]),
        1,
    );
    let cell = partition.get_cell(1);
    assert_eq!(cell.len(), 2);
}
