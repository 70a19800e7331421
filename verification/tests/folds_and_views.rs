use nomtrie::bits::BS;
use nomtrie::fold::{
    eager_trie_of_trie, trie_fold, trie_fold_seq, trie_fold_seq_nm, trie_fold_up, trie_of_list,
    list_of_trie, list_of_trieset,
};
use nomtrie::mapset::{set_add, set_empty, set_mem, TrieSet};
use nomtrie::names::Name;
use nomtrie::trie::Trie;
use nomtrie::Meta;

fn set_of(elems: &[u64]) -> TrieSet<u64> {
    let mut s = set_empty();
    for &e in elems {
        s = set_add(s, e);
    }
    s
}

#[test]
fn fold_sums_every_element_once() {
    let s = set_of(&[1, 2, 3, 4]);
    let sum = trie_fold(&s, 0u64, &|x: (u64, ()), acc: u64| acc + x.0);
    assert_eq!(sum, 10);
}

#[test]
fn fold_counts_leaves() {
    let s = set_of(&[10, 20, 30]);
    let n = trie_fold(&s, 0u64, &|_x: (u64, ()), acc: u64| acc + 1);
    assert_eq!(n, 3);
}

#[test]
fn fold_seq_collects_in_a_fixed_order() {
    let s = set_of(&[6, 7, 8]);
    let collected = trie_fold_seq(
        &s,
        Vec::new(),
        &|x: (u64, ()), mut acc: Vec<u64>| {
            acc.push(x.0);
            acc
        },
        &|acc: Vec<u64>| acc,
        &|_n: Name, acc: Vec<u64>| acc,
    );
    let direct = list_of_trieset(&s);
    assert_eq!(collected, direct);
    let mut sorted = collected.clone();
    sorted.sort();
    assert_eq!(sorted, vec![6, 7, 8]);
}

#[test]
fn fold_seq_nm_sees_enclosing_names() {
    let s = set_of(&[5]);
    let leaf_ctxs = trie_fold_seq_nm(
        &s,
        Vec::new(),
        None,
        &|ctx: Option<Name>, x: (u64, ()), mut acc: Vec<(Option<Name>, u64)>| {
            acc.push((ctx, x.0));
            acc
        },
        &|acc| acc,
        &|_n: Name, acc| acc,
    );
    assert_eq!(leaf_ctxs.len(), 1);
    assert_eq!(leaf_ctxs[0].1, 5);
    // the leaf sits under the re-rooting name laid down by the addition
    assert!(leaf_ctxs[0].0.is_some());
}

#[test]
fn fold_up_rebuild_equals_original() {
    let s = set_of(&[3, 14, 15, 92, 65]);
    let copy = eager_trie_of_trie(&s);
    assert!(Trie::trie_eq(&s, &copy));
    assert!(set_mem(&copy, &92));
}

#[test]
fn fold_up_measures_minimum_leaf_depth() {
    let depth = 4u64;
    let mut s: TrieSet<u64> = Trie::empty(Meta { min_depth: depth });
    for e in [1u64, 2, 3] {
        s = set_add(s, e);
    }
    let min_leaf_depth = trie_fold_up(
        &s,
        &|_bs: BS| u64::MAX,
        &|bs: BS, _x: (u64, ())| bs.length,
        &|_bs: BS, a: u64, b: u64| a.min(b),
        &|_m: Meta, r: u64| r,
        &|_n: Name, r: u64| r,
    );
    assert!(min_leaf_depth >= depth);
}

#[test]
fn list_of_trie_lists_every_element() {
    let s = set_of(&[9, 4, 7]);
    let mut keys: Vec<u64> = list_of_trie(&s).into_iter().map(|p| p.0).collect();
    keys.sort();
    assert_eq!(keys, vec![4, 7, 9]);
}

#[test]
fn trie_of_list_round_trip() {
    let t: Trie<(u64, ())> = trie_of_list(vec![(1, ()), (2, ()), (3, ())]);
    assert!(set_mem(&t, &1));
    assert!(set_mem(&t, &2));
    assert!(set_mem(&t, &3));
    assert!(!set_mem(&t, &4));
    let mut keys = list_of_trieset(&t);
    keys.sort();
    assert_eq!(keys, vec![1, 2, 3]);
}

#[test]
fn elim_ref_classifies_the_outer_node() {
    let s = set_of(&[2]);
    // a freshly built trie is a named articulation over the root
    let kind = Trie::elim_ref(
        &s,
        |_bs| "nil",
        |_bs, _x: &(u64, ())| "leaf",
        |_bs, _l, _r| "bin",
        |_m, _t| "root",
        |_n, _t| "name",
    );
    assert_eq!(kind, "name");
}

#[test]
fn elim_reaches_the_root_below_the_articulations() {
    let s = set_of(&[2]);
    let kind = Trie::elim(
        s,
        |_bs| "nil",
        |_bs, _x: (u64, ())| "leaf",
        |_bs, _l, _r| "bin",
        |_m, _t| "root",
        |_n, t| {
            Trie::elim(
                t,
                |_bs| "nil",
                |_bs, _x: (u64, ())| "leaf",
                |_bs, _l, _r| "bin",
                |_m, _t| "root",
                |_n, _t| "name",
            )
        },
    );
    assert_eq!(kind, "root");
}

#[test]
fn elim_arg_threads_its_argument() {
    let s = set_of(&[2]);
    let out = Trie::elim_arg(
        s,
        41u64,
        |_bs, a| a + 1,
        |_bs, _x: (u64, ()), a| a + 2,
        |_bs, _l, _r, a| a + 3,
        |_m, _t, a| a + 4,
        |_n, _t, a| a + 5,
    );
    assert_eq!(out, 46);
}

#[test]
fn split_atomic_moves_a_leaf_one_level_down() {
    let bs = BS::zero();
    let leaf: Trie<(u64, ())> = Trie::leaf(bs, (33, ()));
    let split = Trie::split_atomic(leaf);
    match &split {
        Trie::Bin(top, l, r) => {
            assert_eq!(top.length, 0);
            let one_is_leaf = matches!(&**l, Trie::Leaf(_, _)) ^ matches!(&**r, Trie::Leaf(_, _));
            assert!(one_is_leaf);
        },
        _ => panic!("split of a leaf must branch"),
    }
    let nil: Trie<(u64, ())> = Trie::nil(bs);
    assert!(matches!(Trie::split_atomic(nil), Trie::Nil(_)));
}
