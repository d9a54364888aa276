use geng::env::Env;
use geng::level_data::{arith, LevelData, MAXN};

#[test]
fn test_arith() {
    let a: usize = usize::MAX / 2;
    let b: usize = 4;
    let c: usize = 4;
    let d = arith(a, b, c);
    assert_eq!(d, a);
}

#[test]
fn test_arith_exact_values() {
    assert_eq!(arith(10, 3, 4), 7);
    assert_eq!(arith(6, 5, 3), 10);
    assert_eq!(arith(1, 7, 1), 7);
}

#[test]
fn test_make_unrestricted() {
    let data = LevelData::make(false, 5, 4);
    assert_eq!(data.len(), 5);
    assert_eq!(data[0].xlb, 0);
    for (n, d) in data.iter().enumerate().skip(1) {
        assert_eq!(d.xlb, usize::MAX);
        assert_eq!(d.xub, 0);
        assert!(d.xorb.is_empty());
        // every set below 2^n, in order of (cardinality, set)
        assert_eq!(d.x_set_card.len(), 1 << n);
        for i in 0..d.x_set_card.len() {
            assert_eq!(d.xcard(i), d.xset(i).count_ones() as usize);
            assert_eq!(d.xinv[d.xset(i)], Some(i));
            if i > 0 {
                assert!((d.xcard(i - 1), d.xset(i - 1)) < (d.xcard(i), d.xset(i)));
            }
        }
    }
}

#[test]
fn test_make_level_tables() {
    let data = LevelData::make(false, 3, 2);
    let d = &data[2];
    let sets: Vec<(usize, usize)> = d.x_set_card.iter().map(|s| (s.card, s.set)).collect();
    assert_eq!(sets, vec![(0, 0), (1, 1), (1, 2), (2, 3)]);
    assert_eq!(d.xinv, vec![Some(0), Some(1), Some(2), Some(3)]);
    let mut xstart = vec![0; MAXN + 1];
    xstart[1] = 1;
    xstart[2] = 3;
    xstart[3] = 4;
    assert_eq!(d.xstart, xstart);
    let d1 = &data[1];
    let sets1: Vec<(usize, usize)> = d1.x_set_card.iter().map(|s| (s.card, s.set)).collect();
    assert_eq!(sets1, vec![(0, 0), (1, 1)]);
}

#[test]
fn test_make_degree_bound() {
    let data = LevelData::make(false, 3, 1);
    let d = &data[2];
    let sets: Vec<(usize, usize)> = d.x_set_card.iter().map(|s| (s.card, s.set)).collect();
    assert_eq!(sets, vec![(0, 0), (1, 1), (1, 2)]);
    assert_eq!(d.xinv, vec![Some(0), Some(1), Some(2), None]);
    let mut xstart = vec![0; MAXN + 1];
    xstart[1] = 1;
    xstart[2] = 3;
    assert_eq!(d.xstart, xstart);
}

#[test]
fn test_make_restricted() {
    let data = LevelData::make(true, 5, 2);
    assert_eq!(data.len(), 5);
    assert_eq!(data[0].xlb, 0);
    for d in &data[1..] {
        assert_eq!(d.xlb, usize::MAX);
        assert!(d.x_set_card.is_empty());
        assert_eq!(d.xstart, vec![0; MAXN + 1]);
    }
}

#[test]
fn test_xbnds() {
    let env = Env { maxn: 2, maxe: 1, mine: 0, maxdeg: 1 };
    let mut d = LevelData::default();
    d.xbnds(&env, 1, 0, 0);
    assert_eq!(d.xlb, 0);
    assert_eq!(d.xub, 1);
}

#[test]
fn test_xbnds_degree_limit() {
    // extending a level of 2 vertices and 1 edge, up to 4 vertices, at most
    // degree 2 and 3 edges
    let env = Env { maxn: 4, maxe: 3, mine: 0, maxdeg: 2 };
    let mut d = LevelData::default();
    d.xbnds(&env, 2, 1, 1);
    assert_eq!(d.xlb, 2);
    assert_eq!(d.xub, 1);
}
