use vstd::prelude::*;
use vstd::arithmetic::power2::*;
use crate::MAX_LEN;
use crate::keys::TrieElt;
use crate::trie::{Trie, has_two, occupied, inserted, lemma_elems_on_path};

verus! {

broadcast use vstd::arithmetic::power2::lemma_pow2_pos;

/// The shape of a well-formed body is determined by its element set:
/// two bodies over the same elements, rooted at the same place with
/// the same minimum depth, strip to the same bare structure. This is
/// what makes the trie an honest set: insertion order and caching
/// wrappers leave no trace.
pub proof fn lemma_body_canonical<X: TrieElt>(t1: &Trie<X>, t2: &Trie<X>, d: nat, v: nat, md: nat)
    requires
        t1.body_wf(d, v, md),
        t2.body_wf(d, v, md),
        t1.elems() == t2.elems(),
    ensures
        t1.strip() == t2.strip(),
    decreases MAX_LEN - d, t1.wrappers() + t2.wrappers(), 1nat,
{
    match t1 {
        Trie::Name(_, inner) => {
            assert(t1.strip() == (**inner).strip());
            assert(t1.elems() == (**inner).elems());
            assert(t1.wrappers() == 1 + (**inner).wrappers());
            lemma_body_canonical(&**inner, t2, d, v, md);
        },
        Trie::Art(inner) => {
            assert(t1.strip() == (**inner).strip());
            assert(t1.elems() == (**inner).elems());
            assert(t1.wrappers() == 1 + (**inner).wrappers());
            lemma_body_canonical(&**inner, t2, d, v, md);
        },
        _ => {
            match t2 {
                Trie::Name(_, inner) => {
                    assert(t2.strip() == (**inner).strip());
                    assert(t2.elems() == (**inner).elems());
                    assert(t2.wrappers() == 1 + (**inner).wrappers());
                    lemma_body_canonical(t1, &**inner, d, v, md);
                },
                Trie::Art(inner) => {
                    assert(t2.strip() == (**inner).strip());
                    assert(t2.elems() == (**inner).elems());
                    assert(t2.wrappers() == 1 + (**inner).wrappers());
                    lemma_body_canonical(t1, &**inner, d, v, md);
                },
                _ => {
                    lemma_body_canonical_structural(t1, t2, d, v, md);
                },
            }
        },
    }
}

/// The structural base case: neither side begins with a wrapper.
proof fn lemma_body_canonical_structural<X: TrieElt>(
    t1: &Trie<X>,
    t2: &Trie<X>,
    d: nat,
    v: nat,
    md: nat,
)
    requires
        t1.body_wf(d, v, md),
        t2.body_wf(d, v, md),
        t1.elems() == t2.elems(),
        !(*t1 is Name) && !(*t1 is Art),
        !(*t2 is Name) && !(*t2 is Art),
    ensures
        t1.strip() == t2.strip(),
    decreases MAX_LEN - d, 0nat, 0nat,
{
    match t1 {
        Trie::Nil(_) => {
            match t2 {
                Trie::Nil(_) => {},
                Trie::Leaf(_, x) => {
                    assert(t2.elems().contains(*x));
                    assert(false);
                },
                Trie::Bin(_, _, _) => {
                    if d >= md {
                        assert(has_two(t2.elems()));
                        let (a, b) = choose|a: X, b: X|
                            a != b && t2.elems().contains(a) && t2.elems().contains(b);
                        assert(t1.elems().contains(a));
                        assert(false);
                    } else {
                        assert(occupied(t2.elems()));
                        let a = choose|a: X| t2.elems().contains(a);
                        assert(t1.elems().contains(a));
                        assert(false);
                    }
                },
                _ => {},
            }
        },
        Trie::Leaf(_, x1) => {
            match t2 {
                Trie::Nil(_) => {
                    assert(t1.elems().contains(*x1));
                    assert(t2.elems().contains(*x1));
                    assert(false);
                },
                Trie::Leaf(_, x2) => {
                    assert(t1.elems().contains(*x2));
                    assert(*x2 == *x1);
                },
                Trie::Bin(_, _, _) => {
                    assert(has_two(t2.elems()));
                    let (a, b) = choose|a: X, b: X|
                        a != b && t2.elems().contains(a) && t2.elems().contains(b);
                    assert(t1.elems().contains(a));
                    assert(t1.elems().contains(b));
                    assert(false);
                },
                _ => {},
            }
        },
        Trie::Bin(_, l1, r1) => {
            match t2 {
                Trie::Nil(_) => {
                    if d >= md {
                        assert(has_two(t1.elems()));
                        let (a, b) = choose|a: X, b: X|
                            a != b && t1.elems().contains(a) && t1.elems().contains(b);
                        assert(t2.elems().contains(a));
                        assert(false);
                    } else {
                        assert(occupied(t1.elems()));
                        let a = choose|a: X| t1.elems().contains(a);
                        assert(t2.elems().contains(a));
                        assert(false);
                    }
                },
                Trie::Leaf(_, _) => {
                    assert(has_two(t1.elems()));
                    let (a, b) = choose|a: X, b: X|
                        a != b && t1.elems().contains(a) && t1.elems().contains(b);
                    assert(t2.elems().contains(a));
                    assert(t2.elems().contains(b));
                    assert(false);
                },
                Trie::Bin(_, l2, r2) => {
                    lemma_elems_on_path(&**l1, d + 1, v, md);
                    lemma_elems_on_path(&**r1, d + 1, v + pow2(d), md);
                    lemma_elems_on_path(&**l2, d + 1, v, md);
                    lemma_elems_on_path(&**r2, d + 1, v + pow2(d), md);
                    assert(t1.elems() == (**l1).elems().union((**r1).elems()));
                    assert(t2.elems() == (**l2).elems().union((**r2).elems()));
                    assert forall|y: X| #[trigger] (**l1).elems().contains(y) implies (
                    **l2).elems().contains(y) by {
                        assert(t2.elems().contains(y));
                        if (**r2).elems().contains(y) {
                            assert(false);
                        }
                    }
                    assert forall|y: X| #[trigger] (**l2).elems().contains(y) implies (
                    **l1).elems().contains(y) by {
                        assert(t1.elems().contains(y));
                        if (**r1).elems().contains(y) {
                            assert(false);
                        }
                    }
                    assert forall|y: X| #[trigger] (**r1).elems().contains(y) implies (
                    **r2).elems().contains(y) by {
                        assert(t2.elems().contains(y));
                        if (**l2).elems().contains(y) {
                            assert(false);
                        }
                    }
                    assert forall|y: X| #[trigger] (**r2).elems().contains(y) implies (
                    **r1).elems().contains(y) by {
                        assert(t1.elems().contains(y));
                        if (**l1).elems().contains(y) {
                            assert(false);
                        }
                    }
                    assert((**l1).elems() =~= (**l2).elems());
                    assert((**r1).elems() =~= (**r2).elems());
                    lemma_body_canonical(&**l1, &**l2, d + 1, v, md);
                    lemma_body_canonical(&**r1, &**r2, d + 1, v + pow2(d), md);
                },
                _ => {},
            }
        },
        _ => {},
    }
}


/// Two queryable tries over the same configuration and the same
/// element set strip to the same bare structure: equality of tries,
/// compared through `strip`, agrees with set semantics and is
/// insensitive to insertion order and to caching wrappers.
pub proof fn lemma_structural_extensionality<X: TrieElt>(t1: &Trie<X>, t2: &Trie<X>)
    requires
        t1.query_wf(),
        t2.query_wf(),
        t1.meta_of() == t2.meta_of(),
        t1.elems() == t2.elems(),
    ensures
        t1.strip() == t2.strip(),
    decreases t1.wrappers() + t2.wrappers(),
{
    match t1 {
        Trie::Name(_, inner) => {
            assert(t1.strip() == (**inner).strip());
            assert(t1.elems() == (**inner).elems());
            assert(t1.meta_of() == (**inner).meta_of());
            assert(t1.wrappers() == 1 + (**inner).wrappers());
            lemma_structural_extensionality(&**inner, t2);
        },
        Trie::Art(inner) => {
            assert(t1.strip() == (**inner).strip());
            assert(t1.elems() == (**inner).elems());
            assert(t1.meta_of() == (**inner).meta_of());
            assert(t1.wrappers() == 1 + (**inner).wrappers());
            lemma_structural_extensionality(&**inner, t2);
        },
        Trie::Root(m1, b1) => {
            match t2 {
                Trie::Name(_, inner) => {
                    assert(t2.strip() == (**inner).strip());
                    assert(t2.elems() == (**inner).elems());
                    assert(t2.meta_of() == (**inner).meta_of());
                    assert(t2.wrappers() == 1 + (**inner).wrappers());
                    lemma_structural_extensionality(t1, &**inner);
                },
                Trie::Art(inner) => {
                    assert(t2.strip() == (**inner).strip());
                    assert(t2.elems() == (**inner).elems());
                    assert(t2.meta_of() == (**inner).meta_of());
                    assert(t2.wrappers() == 1 + (**inner).wrappers());
                    lemma_structural_extensionality(t1, &**inner);
                },
                Trie::Root(m2, b2) => {
                    assert(*m1 == t1.meta_of());
                    assert(*m2 == t2.meta_of());
                    lemma_body_canonical(&**b1, &**b2, 0, 0, m1.min_depth as nat);
                },
                _ => {},
            }
        },
        _ => {},
    }
}

/// Storing an element twice is the same as storing it once.
pub proof fn lemma_inserted_idempotent<X: TrieElt>(s: Set<X>, x: X)
    ensures
        inserted(inserted(s, x), x) == inserted(s, x),
{
    assert(inserted(inserted(s, x), x) =~= inserted(s, x));
}

/// Elements with distinct keys may be stored in either order.
pub proof fn lemma_inserted_commutes<X: TrieElt>(s: Set<X>, x: X, y: X)
    requires
        x.key() != y.key(),
    ensures
        inserted(inserted(s, x), y) == inserted(inserted(s, y), x),
{
    assert(inserted(inserted(s, x), y) =~= inserted(inserted(s, y), x));
}

/// Idempotence of insertion, at the level of whole trie values: any
/// trie satisfying the contract of adding `x` twice to `s` strips to
/// the same structure as one satisfying the contract of adding `x`
/// once.
pub proof fn lemma_add_idempotent<X: TrieElt>(s: Trie<X>, x: X, once: Trie<X>, twice: Trie<X>)
    requires
        s.entry_wf(),
        once.entry_wf(),
        twice.entry_wf(),
        once.meta_of() == s.meta_of(),
        twice.meta_of() == once.meta_of(),
        once.elems() == inserted(s.elems(), x),
        twice.elems() == inserted(once.elems(), x),
    ensures
        twice.strip() == once.strip(),
{
    lemma_inserted_idempotent(s.elems(), x);
    crate::trie::lemma_rooted_query(&once);
    crate::trie::lemma_rooted_query(&twice);
    lemma_structural_extensionality(&twice, &once);
}

/// Order independence, at the level of whole trie values: two tries
/// with one configuration that hold one element set strip to one
/// structure, whatever order their elements went in and wherever
/// names and articulations sit.
pub proof fn lemma_order_independent<X: TrieElt>(t1: &Trie<X>, t2: &Trie<X>)
    requires
        t1.entry_wf(),
        t2.entry_wf(),
        t1.meta_of() == t2.meta_of(),
        t1.elems() == t2.elems(),
    ensures
        t1.strip() == t2.strip(),
{
    crate::trie::lemma_rooted_query(t1);
    crate::trie::lemma_rooted_query(t2);
    lemma_structural_extensionality(t1, t2);
}

impl<X: TrieElt> Trie<X> {
    /// Decide structural equality of two tries modulo caching: the
    /// result says whether the two strip to the same bare structure.
    pub fn trie_eq(a: &Self, b: &Self) -> (r: bool)
        ensures
            r == (a.strip() == b.strip()),
        decreases a.size() + b.size(),
    {
        match a {
            Trie::Name(_, t) => {
                proof {
                    assert(a.size() == 1 + (**t).size());
                }
                Self::trie_eq(&**t, b)
            },
            Trie::Art(t) => {
                proof {
                    assert(a.size() == 1 + (**t).size());
                }
                Self::trie_eq(&**t, b)
            },
            _ => {
                match b {
                    Trie::Name(_, t) => {
                        proof {
                            assert(b.size() == 1 + (**t).size());
                        }
                        Self::trie_eq(a, &**t)
                    },
                    Trie::Art(t) => {
                        proof {
                            assert(b.size() == 1 + (**t).size());
                        }
                        Self::trie_eq(a, &**t)
                    },
                    _ => Self::trie_eq_structural(a, b),
                }
            },
        }
    }

    /// Structural comparison once neither side begins with a wrapper.
    fn trie_eq_structural(a: &Self, b: &Self) -> (r: bool)
        requires
            !(*a is Name) && !(*a is Art),
            !(*b is Name) && !(*b is Art),
        ensures
            r == (a.strip() == b.strip()),
        decreases a.size() + b.size(), 0nat,
    {
        match (a, b) {
            (Trie::Nil(bs1), Trie::Nil(bs2)) => bs1.length == bs2.length && bs1.value
                == bs2.value,
            (Trie::Leaf(bs1, x1), Trie::Leaf(bs2, x2)) => bs1.length == bs2.length && bs1.value
                == bs2.value && x1.eq_elt(x2),
            (Trie::Bin(bs1, l1, r1), Trie::Bin(bs2, l2, r2)) => {
                proof {
                    assert(a.size() == 1 + (**l1).size() + (**r1).size());
                    assert(b.size() == 1 + (**l2).size() + (**r2).size());
                }
                let same_l = Self::trie_eq(&**l1, &**l2);
                let same_r = Self::trie_eq(&**r1, &**r2);
                bs1.length == bs2.length && bs1.value == bs2.value && same_l && same_r
            },
            (Trie::Root(m1, t1), Trie::Root(m2, t2)) => {
                proof {
                    assert(a.size() == 1 + (**t1).size());
                    assert(b.size() == 1 + (**t2).size());
                }
                let same = Self::trie_eq(&**t1, &**t2);
                m1.min_depth == m2.min_depth && same
            },
            _ => {
                proof {
                    assert(a.strip() != b.strip());
                }
                false
            },
        }
    }
}


/// The concrete order-independence of three additions: with pairwise
/// distinct keys, every order of storing `a`, `b` and `c` yields the
/// same element set, so by extensionality the same structure.
pub proof fn lemma_three_insert_orders<X: TrieElt>(s: Set<X>, a: X, b: X, c: X)
    requires
        a.key() != b.key(),
        a.key() != c.key(),
        b.key() != c.key(),
    ensures
        inserted(inserted(inserted(s, a), b), c) == inserted(inserted(inserted(s, a), c), b),
        inserted(inserted(inserted(s, a), b), c) == inserted(inserted(inserted(s, b), a), c),
        inserted(inserted(inserted(s, a), b), c) == inserted(inserted(inserted(s, b), c), a),
        inserted(inserted(inserted(s, a), b), c) == inserted(inserted(inserted(s, c), a), b),
        inserted(inserted(inserted(s, a), b), c) == inserted(inserted(inserted(s, c), b), a),
{
    lemma_inserted_commutes(s, a, b);
    lemma_inserted_commutes(s, a, c);
    lemma_inserted_commutes(s, b, c);
    lemma_inserted_commutes(inserted(s, a), b, c);
    lemma_inserted_commutes(inserted(s, b), a, c);
    lemma_inserted_commutes(inserted(s, c), a, b);
}


/// Stripping wrappers does not change the stored elements.
pub proof fn lemma_strip_preserves_elems<X: TrieElt>(t: &Trie<X>)
    ensures
        t.strip().elems() == t.elems(),
    decreases *t,
{
    match t {
        Trie::Bin(_, l, r) => {
            lemma_strip_preserves_elems(&**l);
            lemma_strip_preserves_elems(&**r);
            assert(t.strip().elems() =~= t.elems());
        },
        Trie::Root(_, inner) => {
            lemma_strip_preserves_elems(&**inner);
        },
        Trie::Name(_, inner) => {
            lemma_strip_preserves_elems(&**inner);
        },
        Trie::Art(a) => {
            lemma_strip_preserves_elems(&**a);
        },
        _ => {},
    }
}

/// Equality of tries agrees with set semantics: two queryable tries
/// with one configuration strip to the same structure exactly when
/// they hold the same elements.
pub proof fn lemma_equality_is_set_equality<X: TrieElt>(t1: &Trie<X>, t2: &Trie<X>)
    requires
        t1.query_wf(),
        t2.query_wf(),
        t1.meta_of() == t2.meta_of(),
    ensures
        (t1.strip() == t2.strip()) <==> (t1.elems() == t2.elems()),
{
    if t1.elems() == t2.elems() {
        lemma_structural_extensionality(t1, t2);
    }
    if t1.strip() == t2.strip() {
        lemma_strip_preserves_elems(t1);
        lemma_strip_preserves_elems(t2);
    }
}

} // verus!
