use geng::nauty::bitset::BitSet;
use geng::nauty::partition_nest::partition::cell_mut::partition_in_place;
use geng::nauty::partition_nest::PartitionNest;
use geng::nauty::NAUTY_INFINITY;

#[test]
fn test() {
    let nest = PartitionNest::new(
        vec![0, 3, 4, 2, 1, 6, 5],
        vec![
            2,
            NAUTY_INFINITY,
            2,
            NAUTY_INFINITY,
            NAUTY_INFINITY,
            NAUTY_INFINITY,
            0,
        ],
    );
    let mut partition = nest.partition(2);
    assert_eq!(partition.numcells(), 3);
    {
        let mut cells_mut = partition.cells_mut();
        let mut cell_mut = cells_mut.nth(2).unwrap();
        let f = |vertex: &usize| if [1, 6].contains(vertex) { 1 } else { 0 };
        cell_mut.split_from_fn(f);
    }
    assert_eq!(partition.numcells(), 4);
    assert!(
        partition.nest
            == PartitionNest::new(
                vec![0, 3, 4, 2, 5, 1, 6],
                vec![2, NAUTY_INFINITY, 2, NAUTY_INFINITY, 2, NAUTY_INFINITY, 0],
            )
    );
}

#[test]
fn test_split_from_fn_constant_keeps_cell() {
    let nest = PartitionNest::new(vec![2, 0, 1], vec![NAUTY_INFINITY, NAUTY_INFINITY, 0]);
    let mut partition = nest.partition(0);
    {
        let mut cell = partition.get_cell_mut(0);
        cell.split_from_fn(|_v: &usize| 7);
    }
    assert_eq!(partition.nest.lab_slice(), &[2, 0, 1]);
    assert_eq!(partition.numcells(), 1);
}

#[test]
fn test_split_from_fn_three_keys() {
    let nest = PartitionNest::new(
        vec![5, 4, 3, 2, 1, 0],
        vec![NAUTY_INFINITY, NAUTY_INFINITY, NAUTY_INFINITY, NAUTY_INFINITY, NAUTY_INFINITY, 0],
    );
    let mut partition = nest.partition(0);
    {
        let mut cell = partition.get_cell_mut(0);
        cell.split_from_fn(|v: &usize| v % 3);
    }
    // keys: 5->2, 4->1, 3->0, 2->2, 1->1, 0->0; stable by key
    assert_eq!(partition.nest.lab_slice(), &[3, 0, 4, 1, 5, 2]);
    assert_eq!(partition.nest.ptn_at(1), 0);
    assert_eq!(partition.nest.ptn_at(3), 0);
    assert_eq!(partition.nest.ptn_at(5), 0);
    assert_eq!(partition.nest.ptn_at(0), NAUTY_INFINITY);
    assert_eq!(partition.numcells(), 3);
}

#[test]
fn test_partition_in_place_std() {
    let mut a = [1usize, 2, 3, 4, 5, 6, 7];
    let i = partition_in_place(&mut a, |n: &usize| n % 2 == 0);
    assert_eq!(i, 3);
    assert!(a[..i].iter().all(|n| n % 2 == 0));
    assert!(a[i..].iter().all(|n| n % 2 == 1));
    let mut sorted = a.to_vec();
    sorted.sort();
    assert_eq!(sorted, vec![1, 2, 3, 4, 5, 6, 7]);
}

#[test]
fn test_partition_in_place_std_on_cell() {
    let nest = PartitionNest::new(vec![0, 1, 2, 3], vec![NAUTY_INFINITY, NAUTY_INFINITY, NAUTY_INFINITY, 0]);
    let mut partition = nest.partition(0);
    let set = BitSet::from_bools(&vec![false, true, false, true]);
    {
        let mut cell = partition.get_cell_mut(0);
        assert_eq!(cell.len(), 4);
        let r = cell.partition_in_place_std(&set);
        assert_eq!(r, 2);
    }
    let lab = partition.nest.lab_slice().to_vec();
    assert!(set.contains(lab[0]) && set.contains(lab[1]));
    assert!(!set.contains(lab[2]) && !set.contains(lab[3]));
}

#[test]
fn test_split_trivial_and_swap() {
    let nest = PartitionNest::new(vec![0, 1, 2], vec![NAUTY_INFINITY, NAUTY_INFINITY, 0]);
    let mut partition = nest.partition(0);
    {
        let mut cell = partition.get_cell_mut(0);
        cell.swap(0, 2);
        assert_eq!(cell.partition_index(1), 1);
        cell.split_trivial(0);
    }
    assert_eq!(partition.nest.lab_slice(), &[2, 1, 0]);
    assert_eq!(partition.nest.ptn_at(0), 0);
    assert_eq!(partition.numcells(), 2);
}
