use geng::nautil::SetWordNautilTrait;
use geng::nauty::bitset::BitSet;
use geng::nauty::graphs;
use geng::nauty::{nauty, u32_to_bitvec, Graph, NAUTY_INFINITY};

fn graph(rows: &[&[u8]]) -> Graph {
    Graph(
        rows.iter()
            .map(|r| BitSet::from_bools(&r.iter().map(|&b| b == 1).collect()))
            .collect(),
    )
}

fn to_matrix(g: &Graph) -> String {
    g.0.iter()
        .map(|row| {
            row.to_bools()
                .iter()
                .map(|&b| if b { "1" } else { "0" })
                .collect::<Vec<_>>()
                .join(" ")
        })
        .collect::<Vec<_>>()
        .join("\n")
}

//  2---0---4---3---1
fn create_example() -> Graph {
    graph(&[
        &[0, 0, 1, 0, 1],
        &[0, 0, 0, 1, 0],
        &[1, 0, 0, 0, 0],
        &[0, 1, 0, 0, 1],
        &[1, 0, 0, 1, 0],
    ])
}

//  2---0   4---3---1
fn create_disconnected() -> Graph {
    graph(&[
        &[0, 0, 1, 0, 0],
        &[0, 0, 0, 1, 0],
        &[1, 0, 0, 0, 0],
        &[0, 1, 0, 0, 1],
        &[0, 0, 0, 1, 0],
    ])
}

fn create_diamond() -> Graph {
    graph(&[&[0, 1, 1, 1], &[1, 0, 1, 0], &[1, 1, 0, 1], &[1, 0, 1, 0]])
}

fn create_complete(n: usize) -> Graph {
    Graph(
        (0..n)
            .map(|i| BitSet::from_bools(&(0..n).map(|j| j != i).collect()))
            .collect(),
    )
}

fn create_g4g_not_biconnected() -> Graph {
    graph(&[
        &[0, 1, 1, 1, 0],
        &[1, 0, 1, 0, 0],
        &[1, 1, 0, 0, 0],
        &[1, 0, 0, 0, 1],
        &[0, 0, 0, 1, 0],
    ])
}

fn create_g4g_biconnected() -> Graph {
    graph(&[
        &[0, 1, 1, 1, 0],
        &[1, 0, 1, 0, 0],
        &[1, 1, 0, 0, 1],
        &[1, 0, 0, 0, 1],
        &[0, 0, 1, 1, 0],
    ])
}

fn create_d_7dc() -> Graph {
    graph(&[
        &[0, 1, 1, 1, 0],
        &[1, 0, 1, 1, 0],
        &[1, 1, 0, 0, 0],
        &[1, 1, 0, 0, 1],
        &[0, 0, 0, 1, 0],
    ])
}

fn create_without_loop() -> Graph {
    graph(&[&[0, 1, 1, 1], &[1, 0, 0, 0], &[1, 0, 0, 0], &[1, 0, 0, 0]])
}

#[test]
fn nauty_test_to_graph6() {
    let g6 = create_example().to_graph6();
    assert_eq!(g6.bytes().collect::<Vec<_>>(), [68, 81, 99, 10]);
    assert_eq!(g6, "DQc\n");
}

#[test]
fn test_test_to_graph6() {
    let g6 = create_example().to_graph6();
    assert_eq!(g6.bytes().collect::<Vec<_>>(), [68, 81, 99, 10]);
    assert_eq!(g6, "DQc\n");
}

#[test]
fn nauty_test_from_graph6() {
    assert_eq!(create_example(), Graph::from_graph6("DQc".to_owned()).unwrap());
    assert_eq!(create_example(), Graph::from_graph6("DQc\n".to_owned()).unwrap());
}

#[test]
fn test_test_from_graph6() {
    assert_eq!(create_example(), Graph::from_graph6("DQc".to_owned()).unwrap());
    assert_eq!(create_example(), Graph::from_graph6("DQc\n".to_owned()).unwrap());
}

#[test]
fn from_graph6_rejects_short_body() {
    assert!(Graph::from_graph6("DQ".to_owned()).is_err());
    assert!(Graph::from_graph6("".to_owned()).is_err());
}

#[test]
fn graph6_round_trip_of_wheel() {
    let g = graphs::wheel(6);
    let text = g.to_graph6();
    assert_eq!(Graph::from_graph6(text).unwrap(), g);
}

#[test]
fn nauty_test_example_is_connected() {
    assert!(create_example().isconnected());
}

#[test]
fn test_test_example_is_connected() {
    assert!(create_example().isconnected());
}

#[test]
fn nauty_test_disconnected() {
    assert!(!create_disconnected().isconnected());
}

#[test]
fn test_test_disconnected() {
    assert!(!create_disconnected().isconnected());
}

#[test]
fn nauty_test_disconnected_isbiconnected() {
    assert!(!create_disconnected().isbiconnected());
}

#[test]
fn test_test_disconnected_isbiconnected() {
    assert!(!create_disconnected().isbiconnected());
}

#[test]
fn nauty_test_example_isbiconnected() {
    assert!(!create_example().isbiconnected());
}

#[test]
fn test_test_example_isbiconnected() {
    assert!(!create_example().isbiconnected());
}

#[test]
fn test_is_biconnected_cases() {
    assert!(graphs::cycle(6).isbiconnected());
    assert!(create_diamond().isbiconnected());
    assert!(create_complete(4).isbiconnected());
    assert!(create_g4g_biconnected().isbiconnected());
}

#[test]
fn test_is_not_biconnected_cases() {
    assert!(!graphs::path(4).isbiconnected());
    assert!(!create_g4g_not_biconnected().isbiconnected());
    assert!(!create_d_7dc().isbiconnected());
}

#[test]
fn nauty_test_diamond_isbiconnected() {
    assert!(create_diamond().isbiconnected());
}

#[test]
fn test_test_diamond_isbiconnected() {
    assert!(create_diamond().isbiconnected());
}

#[test]
fn nauty_test_tetraedron_isbiconnected() {
    assert!(create_complete(4).isbiconnected());
}

#[test]
fn test_test_tetraedron_isbiconnected() {
    assert!(create_complete(4).isbiconnected());
}

#[test]
fn nauty_test_g4g_not_isbiconnected() {
    assert!(!create_g4g_not_biconnected().isbiconnected());
}

#[test]
fn test_test_g4g_not_isbiconnected() {
    assert!(!create_g4g_not_biconnected().isbiconnected());
}

#[test]
fn nauty_test_without_loop_not_isbiconnected() {
    assert!(!create_without_loop().isbiconnected());
}

#[test]
fn test_test_without_loop_not_isbiconnected() {
    assert!(!create_without_loop().isbiconnected());
}

#[test]
fn nauty_test_create_from_u32() {
    let actual = Graph::from_u32(&[1610612736, 2684354560, 3221225472]);
    let expected = graph(&[&[0, 1, 1], &[1, 0, 1], &[1, 1, 0]]);
    assert_eq!(actual, expected);
}

#[test]
fn test_test_create_from_u32() {
    let actual = Graph::from_u32(&[1610612736, 2684354560, 3221225472]);
    let expected = graph(&[&[0, 1, 1], &[1, 0, 1], &[1, 1, 0]]);
    assert_eq!(actual, expected);
}

#[test]
fn u32_to_bitvec_takes_leading_bits() {
    assert_eq!(u32_to_bitvec(2147483648, 4).to_bools(), vec![true, false, false, false]);
    assert_eq!(u32_to_bitvec(1073741824, 3).to_bools(), vec![false, true, false]);
}

#[test]
fn test_complete_bipartite() {
    assert_eq!(
        to_matrix(&graphs::complete_bipartite(2, 3)),
        "0 0 1 1 1\n0 0 1 1 1\n1 1 0 0 0\n1 1 0 0 0\n1 1 0 0 0"
    );
}

#[test]
fn test_complete_tripartite() {
    assert_eq!(
        to_matrix(&graphs::complete_tripartite(2, 2, 2)),
        "0 0 1 1 1 1\n0 0 1 1 1 1\n1 1 0 0 1 1\n1 1 0 0 1 1\n1 1 1 1 0 0\n1 1 1 1 0 0"
    );
}

#[test]
fn test_complete_k_partite() {
    assert_eq!(
        to_matrix(&graphs::complete_k_partite(&[2, 2, 2, 2])),
        "0 0 1 1 1 1 1 1\n0 0 1 1 1 1 1 1\n1 1 0 0 1 1 1 1\n1 1 0 0 1 1 1 1\n1 1 1 1 0 0 1 1\n1 1 1 1 0 0 1 1\n1 1 1 1 1 1 0 0\n1 1 1 1 1 1 0 0"
    );
}

#[test]
fn test_wheel() {
    assert_eq!(
        to_matrix(&graphs::wheel(6)),
        "0 1 1 1 1 1\n1 0 1 0 0 1\n1 1 0 1 0 0\n1 0 1 0 1 0\n1 0 0 1 0 1\n1 1 0 0 1 0"
    );
}

#[test]
fn cycle_path_star_complete_shapes() {
    assert_eq!(to_matrix(&graphs::cycle(4)), "0 1 0 1\n1 0 1 0\n0 1 0 1\n1 0 1 0");
    assert_eq!(to_matrix(&graphs::path(4)), "0 1 0 0\n1 0 1 0\n0 1 0 1\n0 0 1 0");
    assert_eq!(to_matrix(&graphs::star(4)), "0 1 1 1\n1 0 0 0\n1 0 0 0\n1 0 0 0");
    assert_eq!(to_matrix(&graphs::complete(3)), "0 1 1\n1 0 1\n1 1 0");
}

#[test]
fn one_and_no_edge() {
    assert_eq!(to_matrix(&Graph::one()), "0");
    assert_eq!(to_matrix(&Graph::no_edge(2)), "0 0\n0 0");
}

#[test]
fn test_is_autom() {
    assert!(geng::naugraph::is_autom(&graphs::cycle(4), &[1, 2, 3, 0]));
    assert!(!geng::naugraph::is_autom(&graphs::cycle(4), &[1, 0, 2, 3]));
}

#[test]
fn mash_and_cleanup_values() {
    assert_eq!(geng::naugraph::mash(0, 0), 0o65435);
    assert_eq!(geng::naugraph::mash(0o65435, 5), 5);
    assert_eq!(geng::naugraph::cleanup(0o77777 + 3), 3);
}

#[test]
fn next_element_from_start() {
    let s = BitSet::from_bools(&vec![false, false, true, false, true]);
    assert_eq!(s.next_element(None), Some(2));
    let e = BitSet::zeros(3);
    assert_eq!(e.next_element(None), None);
}

#[test]
fn test_nauty_unit_partition() {
    let g = Graph::no_edge(3);
    let mut lab = [5, 5, 5, 9];
    let mut ptn = [7, 7, 7, 7];
    let mut orbits = Vec::new();
    assert_eq!(nauty(&g, &mut lab, &mut ptn, &mut orbits, true), Ok(()));
    assert_eq!(lab, [0, 1, 2, 9]);
    assert_eq!(ptn, [NAUTY_INFINITY, NAUTY_INFINITY, 0, 7]);
    assert_eq!(orbits, vec![0, 0, 0]);
}

#[test]
fn test_nauty_given_partition() {
    let g = Graph::no_edge(3);
    let mut lab = [2, 0, 1];
    let mut ptn = [3, 0, 4, 8];
    let mut orbits = Vec::new();
    assert_eq!(nauty(&g, &mut lab, &mut ptn, &mut orbits, false), Ok(()));
    assert_eq!(lab, [2, 0, 1]);
    assert_eq!(ptn, [NAUTY_INFINITY, 0, 0, 8]);
    assert_eq!(orbits, vec![0, 1, 0]);
}

fn from_edges(n: usize, edges: &[(usize, usize)]) -> Graph {
    let mut g = Graph::no_edge(n);
    for &(a, b) in edges {
        g.set_adj(a, b, true);
        g.set_adj(b, a, true);
    }
    g
}

#[test]
fn test_isbiconnected_two_hubs() {
    // vertices 0 and 1 are joined to every other vertex: no single vertex
    // disconnects the rest
    let g = from_edges(5, &[(0, 1), (0, 2), (0, 3), (0, 4), (1, 2), (1, 3), (1, 4)]);
    assert!(g.isbiconnected());
}

#[test]
fn test_isbiconnected_articulation_point() {
    // two triangles sharing vertex 1
    let g = from_edges(5, &[(0, 1), (0, 2), (1, 2), (1, 3), (1, 4), (3, 4)]);
    assert!(g.isconnected());
    assert!(!g.isbiconnected());
}

#[test]
fn test_isbiconnected_small() {
    assert!(!from_edges(2, &[(0, 1)]).isbiconnected());
    assert!(!from_edges(3, &[(0, 1), (1, 2)]).isbiconnected());
    assert!(from_edges(3, &[(0, 1), (1, 2), (0, 2)]).isbiconnected());
}

#[test]
fn test_is_autom_more() {
    assert!(geng::naugraph::is_autom(&graphs::path(4), &[3, 2, 1, 0]));
    assert!(!geng::naugraph::is_autom(&graphs::path(4), &[1, 0, 2, 3]));
    assert!(geng::naugraph::is_autom(&graphs::star(5), &[0, 2, 1, 4, 3]));
    assert!(!geng::naugraph::is_autom(&graphs::star(5), &[1, 0, 2, 3, 4]));
    assert!(geng::naugraph::is_autom(&graphs::complete(4), &[2, 3, 0, 1]));
}

#[test]
fn next_element_after_a_position() {
    let s = BitSet::from_bools(&vec![false, true, false, true, false, true, false, false]);
    assert_eq!(s.next_element(None), Some(1));
    assert_eq!(s.next_element(Some(0)), Some(1));
    assert_eq!(s.next_element(Some(1)), Some(3));
    assert_eq!(s.next_element(Some(2)), Some(3));
    assert_eq!(s.next_element(Some(5)), None);
    assert_eq!(s.next_element(Some(7)), None);
}

#[test]
fn test_nauty_orbits_of_a_path() {
    let g = from_edges(4, &[(0, 1), (1, 2), (2, 3)]);
    let mut lab = [0, 0, 0, 0];
    let mut ptn = [0, 0, 0, 0];
    let mut orbits = Vec::new();
    assert_eq!(nauty(&g, &mut lab, &mut ptn, &mut orbits, true), Ok(()));
    assert_eq!(orbits, vec![0, 1, 1, 0]);
}

#[test]
fn test_nauty_orbits_of_a_cycle_with_colours() {
    let g = graphs::cycle(4);
    let mut lab = [0, 1, 2, 3];
    let mut orbits = Vec::new();
    let mut ptn = [NAUTY_INFINITY, NAUTY_INFINITY, NAUTY_INFINITY, 0];
    assert_eq!(nauty(&g, &mut lab, &mut ptn, &mut orbits, false), Ok(()));
    assert_eq!(orbits, vec![0, 0, 0, 0]);
    let mut lab = [0, 1, 2, 3];
    let mut ptn = [0, NAUTY_INFINITY, NAUTY_INFINITY, 0];
    assert_eq!(nauty(&g, &mut lab, &mut ptn, &mut orbits, false), Ok(()));
    assert_eq!(orbits, vec![0, 1, 2, 1]);
}

#[test]
fn test_nauty_orbits_of_a_star() {
    let g = from_edges(4, &[(0, 1), (0, 2), (0, 3)]);
    let mut lab = [0, 0, 0, 0];
    let mut ptn = [0, 0, 0, 0];
    let mut orbits = Vec::new();
    assert_eq!(nauty(&g, &mut lab, &mut ptn, &mut orbits, true), Ok(()));
    assert_eq!(orbits, vec![0, 1, 1, 1]);
}
