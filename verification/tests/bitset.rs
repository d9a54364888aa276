use geng::nauty::bitset::{BitSet, SetTrait};

#[test]
fn test_bitvec() {
    let bv = BitSet::from_bools(&vec![true, false, false]);
    assert!(bv.contains(0));
    assert!(!bv.contains(1));
    assert!(!bv.contains(2));
}

#[test]
fn add_and_remove_one() {
    let mut s = BitSet::zeros(5);
    s.add_one(3);
    assert_eq!(s.to_bools(), vec![false, false, false, true, false]);
    s.remove_one(3);
    assert_eq!(s.to_bools(), vec![false; 5]);
}

#[test]
fn bit_mask_shifts() {
    let s = BitSet::from_bools(&vec![true, true, false, true]);
    assert_eq!(s.bit_mask(1).to_bools(), vec![false, true, true, false]);
    assert_eq!(s.masked(1).to_bools(), vec![false, true, false, false]);
}

#[test]
fn ones_iter_in_order() {
    let s = BitSet::from_bools(&vec![false, true, false, true, true]);
    let mut it = s.ones_iter();
    let mut got = vec![];
    while let Some(i) = it.next() {
        got.push(i);
    }
    assert_eq!(got, vec![1, 3, 4]);
}

#[test]
fn xbit_is_power_of_two() {
    assert_eq!(geng::geng::xbit(0), 1);
    assert_eq!(geng::geng::xbit(5), 32);
}
