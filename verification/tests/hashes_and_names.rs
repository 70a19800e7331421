use nomtrie::bits::{pow2_u64, BS};
use nomtrie::keys::{my_hash, my_hash_n, ProgPt};
use nomtrie::names::{name_fork, name_of_str, name_of_usize, name_pair, name_unit, Name};

#[test]
fn my_hash_is_deterministic() {
    assert_eq!(my_hash(&7u64), my_hash(&7u64));
    assert_eq!(my_hash(&0u64), my_hash(&0u64));
    assert_ne!(my_hash(&7u64), my_hash(&8u64));
}

#[test]
fn my_hash_matches_single_repetition() {
    assert_eq!(my_hash_n(&7u64, 1), my_hash(&7u64));
    assert_eq!(my_hash_n(&7u64, 3), my_hash_n(&7u64, 3));
    assert_ne!(my_hash_n(&7u64, 2), my_hash_n(&7u64, 3));
}

#[test]
fn usize_and_u64_keys_hash_alike() {
    assert_eq!(my_hash(&7usize), my_hash(&7u64));
}

#[test]
fn pair_keys_hash_both_parts() {
    assert_ne!(my_hash(&(1u64, 2u64)), my_hash(&(2u64, 1u64)));
    assert_eq!(my_hash(&(1u64, 2u64)), my_hash(&(1u64, 2u64)));
}

#[test]
fn forked_names_never_collide() {
    let (a, b) = name_fork(name_unit());
    assert_ne!(a, b);
    let (a2, _) = name_fork(name_unit());
    assert_eq!(a, a2);
    let (c, d) = name_fork(name_of_str("left"));
    let (e, f) = name_fork(name_of_str("right"));
    assert_ne!(c, e);
    assert_ne!(d, f);
}

#[test]
fn name_constructors_are_distinct() {
    assert_ne!(name_of_usize(1), name_of_usize(2));
    assert_ne!(name_unit(), name_of_usize(0));
    let p = name_pair(name_of_usize(1), name_of_usize(2));
    let q = name_pair(name_of_usize(2), name_of_usize(1));
    assert_ne!(p, q);
    let cloned: Name = p.clone();
    assert_eq!(p, cloned);
}

#[test]
fn prog_pt_identifies_by_symbol() {
    let a = ProgPt { symbol: "alpha" };
    let b = ProgPt { symbol: "alpha" };
    let c = ProgPt { symbol: "beta" };
    assert_eq!(a, b.clone());
    assert_ne!(a, c);
}

#[test]
fn bitstring_paths_extend_bit_by_bit() {
    let z = BS::zero();
    let left = BS::prepend(0, z);
    let right = BS::prepend(1, z);
    assert_eq!(left.length, 1);
    assert_eq!(left.value, 0);
    assert_eq!(right.length, 1);
    assert_eq!(right.value, 1);
    let rl = BS::prepend(0, right);
    let rr = BS::prepend(1, right);
    assert_eq!(rl.value, 1);
    assert_eq!(rr.value, 3);
}

#[test]
fn powers_of_two() {
    assert_eq!(pow2_u64(0), 1);
    assert_eq!(pow2_u64(5), 32);
    assert_eq!(pow2_u64(30), 1 << 30);
}
