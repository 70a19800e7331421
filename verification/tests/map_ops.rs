use nomtrie::mapset::{map_empty, map_find, map_fold, map_update, TrieMap};
use nomtrie::trie::Trie;

#[test]
fn round_trip_new_key() {
    let m: TrieMap<u64, u64> = map_empty();
    let m = map_update(m, 4, 40);
    assert_eq!(map_find(&m, &4), Some(40));
}

#[test]
fn round_trip_overwrites() {
    let m: TrieMap<u64, u64> = map_empty();
    let m = map_update(m, 4, 40);
    let m = map_update(m, 4, 44);
    assert_eq!(map_find(&m, &4), Some(44));
}

#[test]
fn other_keys_unchanged() {
    let m: TrieMap<u64, u64> = map_empty();
    let m = map_update(m, 4, 40);
    let m = map_update(m, 9, 90);
    let before = map_find(&m, &4);
    let m2 = map_update(m, 12, 120);
    assert_eq!(map_find(&m2, &4), before);
    assert_eq!(map_find(&m2, &9), Some(90));
    assert_eq!(map_find(&m2, &7), None);
}

#[test]
fn absent_key_is_none() {
    let m: TrieMap<u64, u64> = map_empty();
    assert_eq!(map_find(&m, &123), None);
    let m = map_update(m, 1, 2);
    assert_eq!(map_find(&m, &2), None);
}

#[test]
fn map_equality_ignores_update_order() {
    let m1 = map_update(map_update(map_empty::<u64, u64>(), 1, 10), 2, 20);
    let m2 = map_update(map_update(map_empty::<u64, u64>(), 2, 20), 1, 10);
    assert!(Trie::trie_eq(&m1, &m2));
}

#[test]
fn map_fold_sums_entries() {
    let m = map_update(map_update(map_update(map_empty::<u64, u64>(), 1, 10), 2, 20), 3, 30);
    let sum = map_fold(&m, 0u64, &|entry: (u64, u64), acc: u64| acc + entry.0 + entry.1);
    assert_eq!(sum, 66);
}

#[test]
fn map_with_unit_values_acts_as_set() {
    let m: TrieMap<u64, ()> = map_update(map_empty(), 5, ());
    assert_eq!(map_find(&m, &5), Some(()));
    assert_eq!(map_find(&m, &6), None);
}

#[test]
fn pair_keys() {
    let m: TrieMap<(u64, u64), u64> = map_update(map_empty(), (1, 2), 12);
    let m = map_update(m, (2, 1), 21);
    assert_eq!(map_find(&m, &(1, 2)), Some(12));
    assert_eq!(map_find(&m, &(2, 1)), Some(21));
    assert_eq!(map_find(&m, &(1, 1)), None);
}

#[test]
fn overwriting_is_structurally_clean() {
    let direct = map_update(map_empty::<u64, u64>(), 8, 2);
    let rebound = map_update(map_update(map_empty::<u64, u64>(), 8, 1), 8, 2);
    assert!(Trie::trie_eq(&direct, &rebound));
}

#[test]
fn empty_map_is_empty() {
    let m: TrieMap<u64, u64> = map_empty();
    assert!(Trie::is_empty(&m));
    let m = map_update(m, 0, 0);
    assert!(!Trie::is_empty(&m));
}
