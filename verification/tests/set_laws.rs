use nomtrie::mapset::{set_add, set_empty, set_mem, TrieSet};
use nomtrie::trie::Trie;
use nomtrie::Meta;

fn set_of(elems: &[u64]) -> TrieSet<u64> {
    let mut s = set_empty();
    for &e in elems {
        s = set_add(s, e);
    }
    s
}

#[test]
fn add_is_idempotent() {
    let once = set_of(&[5]);
    let twice = set_of(&[5, 5]);
    assert!(Trie::trie_eq(&once, &twice));
}

#[test]
fn add_is_idempotent_in_larger_set() {
    let once = set_of(&[5, 9, 2]);
    let twice = set_of(&[5, 9, 2, 9]);
    assert!(Trie::trie_eq(&once, &twice));
}

#[test]
fn order_of_additions_is_irrelevant() {
    let perms: [[u64; 3]; 6] = [
        [7, 1, 8],
        [7, 8, 1],
        [1, 7, 8],
        [1, 8, 7],
        [8, 7, 1],
        [8, 1, 7],
    ];
    let first = set_of(&perms[0]);
    for p in &perms[1..] {
        let other = set_of(p);
        assert!(Trie::trie_eq(&first, &other));
    }
}

#[test]
fn membership_follows_additions() {
    let s = set_of(&[1, 7, 8]);
    assert!(set_mem(&s, &1));
    assert!(set_mem(&s, &7));
    assert!(set_mem(&s, &8));
    assert!(!set_mem(&s, &0));
    assert!(!set_mem(&s, &100));
}

#[test]
fn empty_laws() {
    let e: TrieSet<u64> = set_empty();
    assert!(Trie::is_empty(&e));
    assert!(!set_mem(&e, &0));
    assert!(!set_mem(&e, &42));
    let s = set_add(e, 3);
    assert!(!Trie::is_empty(&s));
}

#[test]
fn end_to_end_scenario() {
    let mut s1 = set_empty();
    for e in [7u64, 1, 8] {
        s1 = set_add(s1, e);
    }
    assert!(set_mem(&s1, &7));
    assert!(set_mem(&s1, &1));
    assert!(set_mem(&s1, &8));
    assert!(!set_mem(&s1, &0));
    let mut s2 = set_empty();
    for e in [8u64, 7, 1] {
        s2 = set_add(s2, e);
    }
    assert!(Trie::trie_eq(&s1, &s2));
}

#[test]
fn unequal_sets_compare_unequal() {
    let s1 = set_of(&[1, 2]);
    let s2 = set_of(&[1, 3]);
    assert!(!Trie::trie_eq(&s1, &s2));
    let s3 = set_of(&[1]);
    assert!(!Trie::trie_eq(&s1, &s3));
}

#[test]
fn clone_preserves_structure() {
    let s = set_of(&[4, 11, 23]);
    let c = s.clone();
    assert!(Trie::trie_eq(&s, &c));
    assert!(set_mem(&c, &11));
}

#[test]
fn persistence_under_further_additions() {
    let s = set_of(&[10, 20]);
    let bigger = set_add(s.clone(), 30);
    assert!(set_mem(&s, &10));
    assert!(!set_mem(&s, &30));
    assert!(set_mem(&bigger, &30));
}

#[test]
fn singleton_holds_exactly_its_element() {
    let s: TrieSet<u64> = Trie::singleton(
        Meta { min_depth: 1 },
        nomtrie::names::name_of_usize(9),
        (77, ()),
    );
    assert!(set_mem(&s, &77));
    assert!(!set_mem(&s, &7));
}

#[test]
fn deep_min_depth_still_works() {
    let mut s: TrieSet<u64> = Trie::empty(Meta { min_depth: 12 });
    for e in [3u64, 5, 3, 9] {
        s = set_add(s, e);
    }
    assert!(set_mem(&s, &3));
    assert!(set_mem(&s, &5));
    assert!(set_mem(&s, &9));
    assert!(!set_mem(&s, &4));
}

#[test]
fn min_depth_clamped_beyond_range() {
    let meta = Meta { min_depth: 99 };
    assert_eq!(meta.clamped().min_depth, nomtrie::MAX_LEN);
    let mut s: TrieSet<u64> = Trie::empty(meta);
    s = set_add(s, 6);
    assert!(set_mem(&s, &6));
}

#[test]
fn many_elements() {
    let mut s = set_empty();
    for e in 0u64..200 {
        s = set_add(s, e * 3);
    }
    for e in 0u64..200 {
        assert!(set_mem(&s, &(e * 3)));
    }
    assert!(!set_mem(&s, &1));
    assert!(!set_mem(&s, &599));
}

#[test]
fn min_depth_at_the_limit() {
    let mut s: TrieSet<u64> = Trie::empty(Meta { min_depth: nomtrie::MAX_LEN });
    s = set_add(s, 1);
    s = set_add(s, 2);
    assert!(set_mem(&s, &1));
    assert!(set_mem(&s, &2));
    assert!(!set_mem(&s, &3));
}

#[test]
fn different_min_depths_build_different_structures() {
    let s1: TrieSet<u64> = set_add(Trie::empty(Meta { min_depth: 1 }), 5);
    let s2: TrieSet<u64> = set_add(Trie::empty(Meta { min_depth: 2 }), 5);
    assert!(!Trie::trie_eq(&s1, &s2));
}

#[test]
fn find_descends_by_the_keys_hash() {
    let s = set_of(&[21, 34, 55]);
    let h = nomtrie::keys::my_hash(&34u64);
    let hit = Trie::find(&s, &34, h);
    assert_eq!(hit, Some((34, ())));
    let h0 = nomtrie::keys::my_hash(&0u64);
    assert_eq!(Trie::find(&s, &0, h0), None);
}
