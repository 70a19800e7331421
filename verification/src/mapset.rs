use vstd::prelude::*;
use crate::Meta;
use crate::keys::{TrieKey, TrieElt, my_hash};
use crate::names::{Name, name_unit};
use crate::trie::{Trie, inserted, occupied, fits_set};

verus! {

/// A set of keys: a trie whose elements carry no payload.
pub type TrieSet<K> = Trie<(K, ())>;

/// A finite map: a trie of key-value entries, placed by the key alone.
pub type TrieMap<D, C> = Trie<(D, C)>;

/// The empty set, with one forced branch level.
pub fn set_empty<K: TrieKey>() -> (s: TrieSet<K>)
    ensures
        s.entry_wf(),
        s.elems() == Set::<(K, ())>::empty(),
        s.meta_of() == (Meta { min_depth: 1 }),
{
    Trie::empty(Meta { min_depth: 1 })
}

/// Add `x` to the set. Adding an element that is already present
/// returns a structurally equal set.
pub fn set_add<K: TrieKey>(set: TrieSet<K>, x: K) -> (r: TrieSet<K>)
    requires
        set.entry_wf(),
    ensures
        r.entry_wf(),
        r.meta_of() == set.meta_of(),
        set.fits((x, ())) ==> r.elems() == inserted(set.elems(), (x, ())),
        !set.fits((x, ())) ==> r.elems() == set.elems(),
{
    Trie::extend(name_unit(), set, (x, ()))
}

/// Is `x` in the set? Exact: true just when `x` was added.
pub fn set_mem<K: TrieKey>(set: &TrieSet<K>, x: &K) -> (r: bool)
    requires
        set.query_wf(),
    ensures
        r == set.elems().contains((*x, ())),
{
    let h = my_hash(x);
    let found = Trie::find(set, x, h);
    proof {
        if found is Some {
            assert(found->0 == (*x, ()));
        } else {
            assert(((*x, ())).key() == *x);
        }
    }
    found.is_some()
}

/// The empty map, with one forced branch level.
pub fn map_empty<D: TrieKey, C: TrieKey>() -> (m: TrieMap<D, C>)
    ensures
        m.entry_wf(),
        m.elems() == Set::<(D, C)>::empty(),
        m.meta_of() == (Meta { min_depth: 1 }),
{
    Trie::empty(Meta { min_depth: 1 })
}

/// Bind `d` to `c`. A binding already present for `d` is replaced.
pub fn map_update<D: TrieKey, C: TrieKey>(map: TrieMap<D, C>, d: D, c: C) -> (r: TrieMap<D, C>)
    requires
        map.entry_wf(),
    ensures
        r.entry_wf(),
        r.meta_of() == map.meta_of(),
        map.fits((d, c)) ==> r.elems() == inserted(map.elems(), (d, c)),
        !map.fits((d, c)) ==> r.elems() == map.elems(),
{
    Trie::extend(name_unit(), map, (d, c))
}

/// Look up the value bound to `d`, if any.
pub fn map_find<D: TrieKey, C: TrieKey>(map: &TrieMap<D, C>, d: &D) -> (r: Option<C>)
    requires
        map.query_wf(),
    ensures
        match r {
            Some(c) => map.elems().contains((*d, c)),
            None => forall|c: C| !(#[trigger] map.elems().contains((*d, c))),
        },
{
    let h = my_hash(d);
    let found = Trie::find(map, d, h);
    match found {
        Some(entry) => {
            let (_, c) = entry;
            Some(c)
        },
        None => {
            proof {
                assert forall|c: C| !(#[trigger] map.elems().contains((*d, c))) by {
                    if map.elems().contains((*d, c)) {
                        assert(((*d, c)).key() == *d);
                    }
                }
            }
            None
        },
    }
}

/// Reduce a map to one value, one entry at a time, in trie order.
pub fn map_fold<D: TrieKey, C: TrieKey, Res, F: Fn((D, C), Res) -> Res>(
    map: &TrieMap<D, C>,
    res: Res,
    f: &F,
) -> (out: Res)
    requires
        forall|e: (D, C), acc: Res| #[trigger] call_requires(*f, (e, acc)),
    ensures
        crate::fold::folds(*f, map.leaves(), res, out),
{
    crate::fold::trie_fold(map, res, f)
}

/// The set after a sequence of additions, oldest first.
pub open spec fn set_after<K: TrieKey>(q: Seq<K>) -> Set<(K, ())>
    decreases q.len(),
{
    if q.len() == 0 {
        Set::empty()
    } else {
        inserted(set_after(q.drop_last()), (q.last(), ()))
    }
}

/// Membership is exactly the history of additions: after any finite
/// sequence of additions, a key is in the set if and only if it was
/// added at some point.
pub proof fn lemma_membership_correctness<K: TrieKey>(q: Seq<K>, x: K)
    ensures
        set_after(q).contains((x, ())) <==> q.contains(x),
    decreases q.len(),
{
    if q.len() > 0 {
        lemma_membership_correctness(q.drop_last(), x);
        if x == q.last() {
            assert(set_after(q).contains((x, ())));
            assert(q.contains(x)) by {
                assert(q[q.len() - 1] == x);
            }
        } else {
            assert(set_after(q).contains((x, ())) == set_after(q.drop_last()).contains(
                (x, ()),
            ));
            assert(q.contains(x) == q.drop_last().contains(x)) by {
                if q.contains(x) {
                    let i = choose|i: int| 0 <= i < q.len() && q[i] == x;
                    assert(q.drop_last()[i] == x);
                }
                if q.drop_last().contains(x) {
                    let i = choose|i: int| 0 <= i < q.len() - 1 && q.drop_last()[i] == x;
                    assert(q[i] == x);
                }
            }
        }
    }
}

/// The empty laws: a fresh set is empty, holds no key, and is no
/// longer empty once anything is added.
pub proof fn lemma_empty_laws<K: TrieKey>(e: TrieSet<K>, s: TrieSet<K>, x: K)
    requires
        e.elems() == Set::<(K, ())>::empty(),
        s.elems() == inserted(e.elems(), (x, ())),
    ensures
        !occupied(e.elems()),
        occupied(s.elems()),
        forall|k: K| !(#[trigger] e.elems().contains((k, ()))),
        forall|y: (K, ())| fits_set(e.elems(), y),
{
    assert(s.elems().contains((x, ())));
}

/// The round trip for maps: after binding `k` to `v`, looking up `k`
/// yields exactly `v`, and the bindings of every other key are left
/// as they were.
pub proof fn lemma_map_round_trip<D: TrieKey, C: TrieKey>(
    m: TrieMap<D, C>,
    m2: TrieMap<D, C>,
    k: D,
    v: C,
    k2: D,
)
    requires
        m2.elems() == inserted(m.elems(), (k, v)),
        k2 != k,
    ensures
        m2.elems().contains((k, v)),
        forall|y: (D, C)| #[trigger] m2.elems().contains(y) && y.key() == k ==> y == (k, v),
        forall|c: C| m2.elems().contains((k2, c)) == m.elems().contains((k2, c)),
{
    assert forall|c: C| m2.elems().contains((k2, c)) == m.elems().contains((k2, c)) by {
        assert(((k2, c)).key() == k2);
    }
}

} // verus!
