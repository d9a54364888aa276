use geng::geng::Extender;
use geng::level_data::{LevelData, SetCard};

// The x-sets over two vertices, by size: {}, {0}, {1}, {0, 1}.
fn level_two(xorb: Vec<usize>) -> LevelData {
    let mut ld = LevelData::default();
    ld.xstart = vec![0, 1, 3, 4, 4];
    ld.x_set_card = vec![
        SetCard { card: 0, set: 0 },
        SetCard { card: 1, set: 1 },
        SetCard { card: 1, set: 2 },
        SetCard { card: 2, set: 3 },
    ];
    ld.xorb = xorb;
    ld
}

fn extender(maxn: usize, mindeg: usize, xorb: Vec<usize>) -> Extender {
    Extender {
        maxn,
        mindeg,
        connec: 0,
        nodes: vec![0; 4],
        data: vec![LevelData::default(), LevelData::default(), level_two(xorb)],
    }
}

#[test]
fn test_genextend_raises_xlb() {
    // an edge 0-1: both vertices have the top degree 1, so a new vertex of
    // degree 1 would make one of them exceed it; xlb goes up to 2
    let mut e = extender(3, 1, vec![0, 1, 1, 3]);
    let r = e.genextend(2, &[1, 1], false, 1, 2);
    assert_eq!(r, vec![(3, false)]);
    assert_eq!(e.nodes, vec![0, 0, 1, 0]);
}

#[test]
fn test_genextend_critical_and_top_vertices() {
    // vertex 0 has degree 0 and must reach mindeg 1; vertex 1 has the top
    // degree 1 and cannot be joined by a new vertex of degree 1
    let mut e = extender(3, 1, vec![0, 1, 2, 3]);
    let r = e.genextend(2, &[0, 1], true, 0, 2);
    assert_eq!(r, vec![(1, false), (3, false)]);
}

#[test]
fn test_genextend_flags_new_top_degree() {
    let mut e = extender(3, 0, vec![0, 1, 2, 3]);
    let r = e.genextend(2, &[0, 0], true, 0, 2);
    assert_eq!(r, vec![(0, false), (1, false), (2, false), (3, true)]);
}

#[test]
fn test_genextend_orbit_representatives_only() {
    let mut e = extender(3, 0, vec![0, 1, 1, 3]);
    let r = e.genextend(2, &[0, 0], false, 0, 2);
    assert_eq!(r, vec![(0, false), (1, false), (3, true)]);
}

#[test]
fn test_genextend_not_last_level() {
    let mut e = extender(4, 0, vec![0, 1, 2, 3]);
    let r = e.genextend(2, &[0, 0], true, 0, 2);
    assert!(r.is_empty());
    assert_eq!(e.nodes, vec![0, 0, 1, 0]);
}

#[test]
fn test_genextend_crossed_bounds() {
    let mut e = extender(3, 2, vec![0, 1, 2, 3]);
    let r = e.genextend(2, &[0, 0], true, 0, 1);
    assert!(r.is_empty());
    assert_eq!(e.nodes, vec![0, 0, 1, 0]);
}

fn options(maxn: u64) -> geng::cli::GengCli {
    geng::cli::GengCli {
        nautyformat: false,
        nooutput: false,
        graph6: false,
        sparse6: false,
        trianglefree: false,
        squarefree: false,
        bipartite: false,
        verbose: false,
        canonise: false,
        yformat: false,
        header: false,
        savemem: false,
        connec1: false,
        connec2: false,
        quiet: false,
        secret: false,
        safe: false,
        mindeg: None,
        maxdeg: None,
        multiplicity: None,
        splitlevinc: None,
        maxe: None,
        maxn,
    }
}

#[test]
fn test_bounds_defaults() {
    let b = options(5).bounds();
    assert_eq!(b.maxe, 10);
    assert_eq!(b.mindeg, 0);
    assert_eq!(b.maxdeg, 4);
    assert_eq!(b.connec, 0);
}

#[test]
fn test_bounds_connected_and_given_degrees() {
    let mut o = options(5);
    o.connec1 = true;
    o.maxdeg = Some(3);
    let b = o.bounds();
    assert_eq!(b.mindeg, 1);
    assert_eq!(b.maxdeg, 3);
    assert_eq!(b.connec, 1);
    o.connec2 = true;
    o.maxe = Some(3);
    let b = o.bounds();
    assert_eq!(b.maxe, 3);
    assert_eq!(b.mindeg, 2);
    assert_eq!(b.maxdeg, 4);
    assert_eq!(b.connec, 2);
    let mut two = options(2);
    two.connec2 = true;
    assert_eq!(two.bounds().mindeg, 0);
}

#[test]
fn test_sparse_run() {
    let mut o = options(5);
    assert!(!o.sparse_run(10, 0));
    assert!(!o.bipartite && !o.squarefree && !o.savemem);
    assert!(o.sparse_run(4, 1));
    assert!(o.bipartite && o.squarefree && !o.savemem);
    let mut big = options(29);
    assert!(big.sparse_run(406, 0));
    assert!(big.savemem && !big.bipartite);
    let mut tf = options(5);
    tf.trianglefree = true;
    assert!(tf.sparse_run(10, 0));
}
