use geng::naugraph::{refine, refine_nest};
use geng::nauty::partition_nest::partition::Partition;
use geng::nauty::partition_nest::PartitionNest;
use geng::nauty::bitset::BitSet;
use geng::nauty::graphs::cycle;
use geng::nauty::{u32_to_bitvec, Graph, NAUTY_INFINITY};

fn bits(v: &[u8]) -> BitSet {
    BitSet::from_bools(&v.iter().map(|&b| b == 1).collect())
}

fn create_complete(n: usize) -> Graph {
    Graph(
        (0..n)
            .map(|i| BitSet::from_bools(&(0..n).map(|j| j != i).collect()))
            .collect(),
    )
}

fn circulant(n: usize, offsets: &[usize]) -> Graph {
    Graph(
        (0..n)
            .map(|i| {
                BitSet::from_bools(
                    &(0..n)
                        .map(|j| offsets.iter().any(|&o| (i + o) % n == j))
                        .collect(),
                )
            })
            .collect(),
    )
}

fn pentagram() -> Graph {
    circulant(5, &[2, 3])
}

#[allow(clippy::too_many_arguments)]
fn check(
    mut g: Graph,
    lab: &[usize],
    ptn: &[usize],
    level: usize,
    numcells_before: usize,
    count: &[usize],
    mut active: BitSet,
    mut code: usize,
    expected_lab: &[usize],
    expected_ptn: &[usize],
    expected_numcells_after: usize,
    expected_count: &[usize],
    expected_active: BitSet,
    expected_code: usize,
) {
    let mut lab = lab.to_vec();
    let mut ptn = ptn.to_vec();
    let mut count = count.to_vec();
    let mut numcells = numcells_before;
    refine(
        &mut g,
        &mut lab,
        &mut ptn,
        level,
        &mut numcells,
        &mut count,
        &mut active,
        &mut code,
    );
    assert_eq!(lab, expected_lab);
    assert_eq!(ptn, expected_ptn);
    assert_eq!(numcells, expected_numcells_after);
    assert_eq!(count, expected_count);
    assert_eq!(active.to_bools(), expected_active.to_bools());
    assert_eq!(code, expected_code);
}

#[test]
fn refine_cycle3_0_2_1() {
    check(cycle(3), &[0, 2, 1], &[2, NAUTY_INFINITY, 0], 2, 2, &[1, 0], bits(&[1, 0, 0]), 1431812424,
        &[0, 2, 1], &[2, NAUTY_INFINITY, 0], 2, &[1, 0], bits(&[0, 0, 0]), 4);
}

#[test]
fn refine_cycle3_1_0_2() {
    check(cycle(3), &[1, 0, 2], &[2, NAUTY_INFINITY, 0], 2, 2, &[0, 2], bits(&[1, 0, 0]), 1431812424,
        &[1, 0, 2], &[2, NAUTY_INFINITY, 0], 2, &[0, 2], bits(&[0, 0, 0]), 4);
}

#[test]
fn refine_no_edge3_1_0_2() {
    check(Graph::no_edge(3), &[1, 0, 2], &[2, NAUTY_INFINITY, 0], 2, 2, &[0, 2], bits(&[1, 0, 0]), 1431812424,
        &[1, 2, 0], &[2, NAUTY_INFINITY, 0], 2, &[0, 2], bits(&[0, 0, 0]), 4);
}

#[test]
fn refine_no_edge3_0_2_1() {
    check(Graph::no_edge(3), &[0, 2, 1], &[2, NAUTY_INFINITY, 0], 2, 2, &[1, 0], bits(&[1, 0, 0]), 21845,
        &[0, 1, 2], &[2, NAUTY_INFINITY, 0], 2, &[1, 0], bits(&[0, 0, 0]), 4);
}

#[test]
fn refine_no_edge4_0_3_2_1() {
    check(Graph::no_edge(4), &[0, 3, 2, 1], &[2, NAUTY_INFINITY, NAUTY_INFINITY, 0], 2, 2, &[1, 0],
        bits(&[1, 0, 0, 0]), 21845, &[0, 2, 1, 3], &[2, NAUTY_INFINITY, NAUTY_INFINITY, 0], 2, &[1, 0],
        bits(&[0, 0, 0, 0]), 4);
}

#[test]
fn refine_complete4() {
    check(create_complete(4), &[1, 0, 2, 3], &[2, 3, NAUTY_INFINITY, 0], 3, 3, &[0, 2, 1],
        u32_to_bitvec(1073741824, 4), 1431812424, &[1, 0, 2, 3], &[2, 3, NAUTY_INFINITY, 0], 3,
        &[0, 2, 1], bits(&[0, 0, 0, 0]), 64);
}

#[test]
fn refine_no_edge4_level3_1_0_2_3() {
    check(Graph::no_edge(4), &[1, 0, 2, 3], &[2, NAUTY_INFINITY, NAUTY_INFINITY, 0], 3, 2, &[0, 2],
        u32_to_bitvec(2147483648, 4), 1431812424, &[1, 2, 3, 0], &[2, NAUTY_INFINITY, NAUTY_INFINITY, 0], 2,
        &[0, 2], bits(&[0, 0, 0, 0]), 4);
}

#[test]
fn refine_no_edge4_0_2_1_3() {
    check(Graph::no_edge(4), &[0, 2, 1, 3], &[2, 3, NAUTY_INFINITY, 0], 3, 3, &[0, 1, 3],
        u32_to_bitvec(1073741824, 4), 1431812424, &[0, 2, 3, 1], &[2, 3, NAUTY_INFINITY, 0], 3,
        &[0, 1, 3], bits(&[0, 0, 0, 0]), 64);
}

#[test]
fn refine_no_edge4_0_1_2_3() {
    check(Graph::no_edge(4), &[0, 1, 2, 3], &[2, 3, NAUTY_INFINITY, 0], 3, 3, &[1, 0, 2],
        u32_to_bitvec(1073741824, 4), 21845, &[0, 1, 3, 2], &[2, 3, NAUTY_INFINITY, 0], 3,
        &[1, 0, 2], bits(&[0, 0, 0, 0]), 64);
}

#[test]
fn refine_no_edge4_1_0_2_3_level3() {
    check(Graph::no_edge(4), &[1, 0, 2, 3], &[2, 3, NAUTY_INFINITY, 0], 3, 3, &[0, 2, 1],
        u32_to_bitvec(1073741824, 4), 1431812424, &[1, 0, 3, 2], &[2, 3, NAUTY_INFINITY, 0], 3,
        &[0, 2, 1], bits(&[0, 0, 0, 0]), 64);
}

#[test]
fn refine_path_splits_by_degree() {
    // path 0-1-2-3 unpartitioned: the ends (degree 1) and the middle
    // vertices (degree 2) are told apart
    let g = geng::nauty::graphs::path(4);
    let mut lab = vec![0, 1, 2, 3];
    let mut ptn = vec![NAUTY_INFINITY, NAUTY_INFINITY, NAUTY_INFINITY, 0];
    let mut numcells = 1;
    let mut count = vec![0; 4];
    let mut active = bits(&[1, 0, 0, 0]);
    let mut code = 0;
    let mut g2 = g;
    refine(&mut g2, &mut lab, &mut ptn, 0, &mut numcells, &mut count, &mut active, &mut code);
    assert_eq!(numcells, 2);
    let mut first: Vec<usize> = lab[..2].to_vec();
    first.sort();
    assert_eq!(first, vec![0, 3]);
    assert_eq!(ptn[1], 0);
    assert!(code < 0o77777);
}

#[test]
fn refine_keeps_labels_a_permutation() {
    // the splitting of a cell whose first vertex does not have the fewest
    // neighbours in the splitting cell moves that vertex too
    for n in 3..7 {
        let mut g = geng::nauty::graphs::star(n);
        let mut lab: Vec<usize> = (0..n).collect();
        let mut ptn = vec![NAUTY_INFINITY; n];
        ptn[n - 1] = 0;
        let mut numcells = 1;
        let mut count = vec![0; n];
        let mut flags = vec![0u8; n];
        flags[0] = 1;
        let mut active = bits(&flags);
        let mut code = 0;
        refine(&mut g, &mut lab, &mut ptn, 0, &mut numcells, &mut count, &mut active, &mut code);
        let mut sorted = lab.clone();
        sorted.sort();
        assert_eq!(sorted, (0..n).collect::<Vec<usize>>());
        assert_eq!(numcells, 2);
    }
}

#[test]
fn refine_lengthens_short_count() {
    let mut g = geng::nauty::graphs::path(4);
    let mut lab = vec![0, 1, 2, 3];
    let mut ptn = vec![NAUTY_INFINITY, NAUTY_INFINITY, NAUTY_INFINITY, 0];
    let mut numcells = 1;
    let mut count: Vec<usize> = vec![];
    let mut active = bits(&[1, 0, 0, 0]);
    let mut code = 0;
    refine(&mut g, &mut lab, &mut ptn, 0, &mut numcells, &mut count, &mut active, &mut code);
    assert_eq!(count.len(), 4);
    assert_eq!(numcells, 2);
}

#[test]
fn refine_nest_no_edge4_0_1_2_3() {
    let mut g = Graph::no_edge(4);
    let mut partition = Partition::new(
        PartitionNest::new(vec![0, 1, 2, 3], vec![2, 3, NAUTY_INFINITY, 0]),
        3,
    );
    let mut count = vec![1, 0, 2];
    let mut active = u32_to_bitvec(1073741824, 4);
    let mut code = 21845;
    refine_nest(&mut g, &mut partition, &mut count, &mut active, &mut code);
    assert_eq!(partition.nest.lab_slice(), &[0, 1, 3, 2]);
    let ptn: Vec<usize> = (0..4).map(|i| partition.nest.ptn_at(i)).collect();
    assert_eq!(ptn, vec![2, 3, NAUTY_INFINITY, 0]);
    assert_eq!(partition.nest.numcells(3), 3);
    assert_eq!(count, vec![1, 0, 2]);
    assert_eq!(active.to_bools(), vec![false; 4]);
    assert_eq!(code, 64);
}

#[test]
fn refine_nest_pentagram_splits_like_refine() {
    let mut g1 = pentagram();
    let mut lab = vec![0, 4, 3, 2, 1];
    let mut ptn = vec![2, NAUTY_INFINITY, NAUTY_INFINITY, NAUTY_INFINITY, 0];
    let mut numcells = 2;
    let mut count1 = vec![3, 2, 1, 0, 4];
    let mut active1 = u32_to_bitvec(2147483648, 5);
    let mut code1 = 21845;
    refine(&mut g1, &mut lab, &mut ptn, 2, &mut numcells, &mut count1, &mut active1, &mut code1);

    let mut g2 = pentagram();
    let mut partition = Partition::new(
        PartitionNest::new(vec![0, 4, 3, 2, 1], vec![2, NAUTY_INFINITY, NAUTY_INFINITY, NAUTY_INFINITY, 0]),
        2,
    );
    let mut count2 = vec![3, 2, 1, 0, 4];
    let mut active2 = u32_to_bitvec(2147483648, 5);
    let mut code2 = 21845;
    refine_nest(&mut g2, &mut partition, &mut count2, &mut active2, &mut code2);
    assert_eq!(partition.nest.lab_slice(), &lab[..]);
    let ptn2: Vec<usize> = (0..5).map(|i| partition.nest.ptn_at(i)).collect();
    assert_eq!(ptn2, ptn);
    assert_eq!(partition.nest.numcells(2), numcells);
    assert_eq!(count2, count1);
    assert_eq!(active2.to_bools(), active1.to_bools());
    assert_eq!(code2, code1);
    assert_eq!(lab, vec![0, 2, 3, 1, 4]);
    assert_eq!(code1, 27427);
}

#[test]
fn refine_offsets7_3_4() {
    check(circulant(7, &[3, 4]), &[0, 3, 4, 2, 1, 6, 5],
        &[2, NAUTY_INFINITY, 2, NAUTY_INFINITY, NAUTY_INFINITY, NAUTY_INFINITY, 0], 2, 3,
        &[5, 0, 0, 0, 1, 1, 0], bits(&[0, 1, 0, 0, 0, 0, 0]), 21845, &[0, 3, 4, 2, 5, 1, 6],
        &[2, NAUTY_INFINITY, 2, NAUTY_INFINITY, 2, NAUTY_INFINITY, 0], 4, &[5, 1, 1, 1, 1, 0, 0],
        bits(&[0; 7]), 27483);
}

#[test]
fn refine_pentagram_1_0_3_2_4() {
    check(pentagram(), &[1, 0, 3, 2, 4], &[2, NAUTY_INFINITY, NAUTY_INFINITY, NAUTY_INFINITY, 0], 2, 2,
        &[0, 4, 3, 2, 1], u32_to_bitvec(2147483648, 5), 1431812424, &[1, 4, 3, 2, 0],
        &[2, NAUTY_INFINITY, 2, NAUTY_INFINITY, 0], 3, &[0, 1, 1, 1, 1], bits(&[0; 5]), 27427);
}

#[test]
fn refine_pentagram_0_4_3_2_1() {
    check(pentagram(), &[0, 4, 3, 2, 1], &[2, NAUTY_INFINITY, NAUTY_INFINITY, NAUTY_INFINITY, 0], 2, 2,
        &[3, 2, 1, 0, 4], u32_to_bitvec(2147483648, 5), 21845, &[0, 2, 3, 1, 4],
        &[2, NAUTY_INFINITY, 2, NAUTY_INFINITY, 0], 3, &[3, 1, 1, 1, 1], bits(&[0; 5]), 27427);
}

#[test]
fn refine_pentagram_level3() {
    check(pentagram(), &[0, 2, 3, 1, 4], &[3, 3, 2, NAUTY_INFINITY, 0], 3, 4, &[3, 1, 1],
        u32_to_bitvec(1073741824, 5), 21845, &[0, 2, 3, 4, 1], &[3, 3, 2, 3, 0], 5, &[3, 1, 1],
        u32_to_bitvec(134217728, 5), 27417);
}

#[allow(clippy::too_many_arguments)]
fn check_nest(
    mut g: Graph,
    lab: &[usize],
    ptn: &[usize],
    level: usize,
    expected_numcells_before: usize,
    count: &[usize],
    mut active: BitSet,
    mut code: usize,
    expected_lab: &[usize],
    expected_ptn: &[usize],
    expected_numcells_after: usize,
    expected_active: BitSet,
    expected_code: usize,
) {
    let mut partition = Partition::new(PartitionNest::new(lab.to_vec(), ptn.to_vec()), level);
    assert_eq!(partition.numcells(), expected_numcells_before);
    let mut count = count.to_vec();
    refine_nest(&mut g, &mut partition, &mut count, &mut active, &mut code);
    let expected = Partition::new(
        PartitionNest::new(expected_lab.to_vec(), expected_ptn.to_vec()),
        level,
    );
    assert!(partition == expected);
    assert_eq!(partition.numcells(), expected_numcells_after);
    assert_eq!(active.to_bools(), expected_active.to_bools());
    assert_eq!(code, expected_code);
}

#[test]
fn nest_offsets7_3_4() {
    check_nest(circulant(7, &[3, 4]), &[0, 3, 4, 2, 1, 6, 5],
        &[2, NAUTY_INFINITY, 2, NAUTY_INFINITY, NAUTY_INFINITY, NAUTY_INFINITY, 0], 2, 3,
        &[5, 0, 0, 0, 1, 1, 0], bits(&[0, 1, 0, 0, 0, 0, 0]), 21845, &[0, 3, 4, 2, 5, 1, 6],
        &[2, NAUTY_INFINITY, 2, NAUTY_INFINITY, 2, NAUTY_INFINITY, 0], 4, bits(&[0; 7]), 27483);
}

#[test]
fn nest_pentagram_1_0_3_2_4() {
    check_nest(pentagram(), &[1, 0, 3, 2, 4], &[2, NAUTY_INFINITY, NAUTY_INFINITY, NAUTY_INFINITY, 0], 2, 2,
        &[0, 4, 3, 2, 1], u32_to_bitvec(2147483648, 5), 1431812424, &[1, 4, 3, 2, 0],
        &[2, NAUTY_INFINITY, 2, NAUTY_INFINITY, 0], 3, bits(&[0; 5]), 27427);
}

#[test]
fn nest_pentagram_0_4_3_2_1() {
    check_nest(pentagram(), &[0, 4, 3, 2, 1], &[2, NAUTY_INFINITY, NAUTY_INFINITY, NAUTY_INFINITY, 0], 2, 2,
        &[3, 2, 1, 0, 4], u32_to_bitvec(2147483648, 5), 21845, &[0, 2, 3, 1, 4],
        &[2, NAUTY_INFINITY, 2, NAUTY_INFINITY, 0], 3, bits(&[0; 5]), 27427);
}

#[test]
fn nest_cycle3_0_2_1() {
    check_nest(cycle(3), &[0, 2, 1], &[2, NAUTY_INFINITY, 0], 2, 2, &[1, 0], bits(&[1, 0, 0]), 1431812424,
        &[0, 2, 1], &[2, NAUTY_INFINITY, 0], 2, bits(&[0, 0, 0]), 4);
}

#[test]
fn nest_cycle3_1_0_2() {
    check_nest(cycle(3), &[1, 0, 2], &[2, NAUTY_INFINITY, 0], 2, 2, &[0, 2], bits(&[1, 0, 0]), 1431812424,
        &[1, 0, 2], &[2, NAUTY_INFINITY, 0], 2, bits(&[0, 0, 0]), 4);
}

#[test]
fn nest_no_edge3_1_0_2() {
    check_nest(Graph::no_edge(3), &[1, 0, 2], &[2, NAUTY_INFINITY, 0], 2, 2, &[0, 2], bits(&[1, 0, 0]),
        1431812424, &[1, 2, 0], &[2, NAUTY_INFINITY, 0], 2, bits(&[0, 0, 0]), 4);
}

#[test]
fn nest_no_edge3_0_2_1() {
    check_nest(Graph::no_edge(3), &[0, 2, 1], &[2, NAUTY_INFINITY, 0], 2, 2, &[1, 0], bits(&[1, 0, 0]), 21845,
        &[0, 1, 2], &[2, NAUTY_INFINITY, 0], 2, bits(&[0, 0, 0]), 4);
}

#[test]
fn nest_no_edge4_0_3_2_1() {
    check_nest(Graph::no_edge(4), &[0, 3, 2, 1], &[2, NAUTY_INFINITY, NAUTY_INFINITY, 0], 2, 2, &[1, 0],
        bits(&[1, 0, 0, 0]), 21845, &[0, 2, 1, 3], &[2, NAUTY_INFINITY, NAUTY_INFINITY, 0], 2,
        bits(&[0, 0, 0, 0]), 4);
}

#[test]
fn nest_pentagram_level3() {
    check_nest(pentagram(), &[0, 2, 3, 1, 4], &[3, 3, 2, NAUTY_INFINITY, 0], 3, 4, &[3, 1, 1],
        u32_to_bitvec(1073741824, 5), 21845, &[0, 2, 3, 4, 1], &[3, 3, 2, 3, 0], 5,
        u32_to_bitvec(134217728, 5), 27417);
}

#[test]
fn nest_complete4() {
    check_nest(create_complete(4), &[1, 0, 2, 3], &[2, 3, NAUTY_INFINITY, 0], 3, 3, &[0, 2, 1],
        u32_to_bitvec(1073741824, 4), 1431812424, &[1, 0, 2, 3], &[2, 3, NAUTY_INFINITY, 0], 3,
        bits(&[0, 0, 0, 0]), 64);
}

#[test]
fn nest_no_edge4_1_0_2_3_level3() {
    check_nest(Graph::no_edge(4), &[1, 0, 2, 3], &[2, 3, NAUTY_INFINITY, 0], 3, 3, &[0, 2, 1],
        u32_to_bitvec(1073741824, 4), 1431812424, &[1, 0, 3, 2], &[2, 3, NAUTY_INFINITY, 0], 3,
        bits(&[0, 0, 0, 0]), 64);
}

#[test]
fn nest_no_edge4_4_3() {
    check_nest(Graph::no_edge(4), &[1, 0, 2, 3], &[2, NAUTY_INFINITY, NAUTY_INFINITY, 0], 3, 2, &[0, 2],
        u32_to_bitvec(2147483648, 4), 1431812424, &[1, 2, 3, 0], &[2, NAUTY_INFINITY, NAUTY_INFINITY, 0], 2,
        bits(&[0, 0, 0, 0]), 4);
}

#[test]
fn nest_no_edge4_0_2_1_3() {
    check_nest(Graph::no_edge(4), &[0, 2, 1, 3], &[2, 3, NAUTY_INFINITY, 0], 3, 3, &[0, 1, 3],
        u32_to_bitvec(1073741824, 4), 1431812424, &[0, 2, 3, 1], &[2, 3, NAUTY_INFINITY, 0], 3,
        bits(&[0, 0, 0, 0]), 64);
}

#[test]
fn nest_no_edge4_0_1_2_3() {
    check_nest(Graph::no_edge(4), &[0, 1, 2, 3], &[2, 3, NAUTY_INFINITY, 0], 3, 3, &[1, 0, 2],
        u32_to_bitvec(1073741824, 4), 21845, &[0, 1, 3, 2], &[2, 3, NAUTY_INFINITY, 0], 3,
        bits(&[0, 0, 0, 0]), 64);
}

#[test]
fn doref_nest_refines_and_clears_qinvar() {
    let mut g = pentagram();
    let mut partition = Partition::new(
        PartitionNest::new(vec![0, 4, 3, 2, 1], vec![2, NAUTY_INFINITY, NAUTY_INFINITY, NAUTY_INFINITY, 0]),
        2,
    );
    let mut qinvar = 7;
    let mut count = vec![3, 2, 1, 0, 4];
    let mut active = u32_to_bitvec(2147483648, 5);
    let mut code = 21845;
    geng::nautil::doref_nest(&mut g, &mut partition, &mut qinvar, &mut count, &mut active, &mut code);
    assert_eq!(qinvar, 0);
    assert_eq!(partition.nest.lab_slice(), &[0, 2, 3, 1, 4]);
    assert_eq!(code, 27427);
}
