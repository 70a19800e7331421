use vstd::prelude::*;
use vstd::arithmetic::power2::*;
use vstd::arithmetic::div_mod::{lemma_small_mod, lemma_mod_add_multiples_vanish};
use std::rc::Rc;
use crate::MAX_LEN;
use crate::Meta;
use crate::bits::{BS, pow2_u64, lemma_mod_prefix_agree, lemma_path_step, lemma_trunc_eq_iff};
use crate::names::{Name, name_fork, name_of_str};
use crate::keys::{TrieKey, TrieElt, key_hash, elt_hash};

verus! {

broadcast use vstd::arithmetic::power2::lemma_pow2_pos;

/// A probabilistically balanced binary hash trie. An element is
/// addressed by the low-order bits of its key's hash, one bit per
/// branch level. `Root` marks the top of a trie and carries its
/// configuration; `Name` tags a subtree with a stable identity; `Art`
/// is a shared, reference-counted handle to a subtree, the cell an
/// incremental engine would own. `Name` and `Art` are transparent to
/// every query and fold.
#[derive(Debug, Hash, PartialEq, Eq)]
pub enum Trie<X> {
    Nil(BS),
    Leaf(BS, X),
    Bin(BS, Box<Trie<X>>, Box<Trie<X>>),
    Root(Meta, Box<Trie<X>>),
    Name(Name, Box<Trie<X>>),
    Art(Rc<Trie<X>>),
}

/// Does the set hold anything at all?
pub open spec fn occupied<X>(s: Set<X>) -> bool {
    exists|a: X| s.contains(a)
}

/// Does the set hold two different values?
pub open spec fn has_two<X>(s: Set<X>) -> bool {
    exists|a: X, b: X| a != b && s.contains(a) && s.contains(b)
}

/// The elements of the set whose key differs from `k`.
pub open spec fn remove_key<X: TrieElt>(s: Set<X>, k: X::Key) -> Set<X> {
    s.filter(|y: X| y.key() != k)
}

/// The set after storing `x`: any element with `x`'s key gives way to `x`.
pub open spec fn inserted<X: TrieElt>(s: Set<X>, x: X) -> Set<X> {
    remove_key(s, x.key()).insert(x)
}

impl<X: TrieElt> Trie<X> {
    /// The set of elements stored in this (sub)trie.
    pub open spec fn elems(self) -> Set<X>
        decreases self,
    {
        match self {
            Trie::Nil(_) => Set::empty(),
            Trie::Leaf(_, x) => Set::empty().insert(x),
            Trie::Bin(_, l, r) => (*l).elems().union((*r).elems()),
            Trie::Root(_, t) => (*t).elems(),
            Trie::Name(_, t) => (*t).elems(),
            Trie::Art(a) => (*a).elems(),
        }
    }

    /// The same trie with every `Name` and `Art` wrapper removed: the
    /// bare structure two tries are compared by, so that equality is
    /// insensitive to where caching wrappers happen to sit.
    pub open spec fn strip(self) -> Trie<X>
        decreases self,
    {
        match self {
            Trie::Nil(bs) => Trie::Nil(bs),
            Trie::Leaf(bs, x) => Trie::Leaf(bs, x),
            Trie::Bin(bs, l, r) => Trie::Bin(
                bs,
                Box::new((*l).strip()),
                Box::new((*r).strip()),
            ),
            Trie::Root(m, t) => Trie::Root(m, Box::new((*t).strip())),
            Trie::Name(_, t) => (*t).strip(),
            Trie::Art(a) => (*a).strip(),
        }
    }

    /// How many `Name`/`Art` wrappers sit on top of the first
    /// structural node.
    pub open spec fn wrappers(self) -> nat
        decreases self,
    {
        match self {
            Trie::Name(_, t) => 1 + (*t).wrappers(),
            Trie::Art(a) => 1 + (*a).wrappers(),
            _ => 0,
        }
    }

    /// Node count, wrappers included.
    pub open spec fn size(self) -> nat
        decreases self,
    {
        match self {
            Trie::Nil(_) => 1,
            Trie::Leaf(_, _) => 1,
            Trie::Bin(_, l, r) => 1 + (*l).size() + (*r).size(),
            Trie::Root(_, t) => 1 + (*t).size(),
            Trie::Name(_, t) => 1 + (*t).size(),
            Trie::Art(a) => 1 + (*a).size(),
        }
    }

    /// Well-formedness of the structure below a `Root`, for a node at
    /// depth `d` on path value `v` in a trie with minimum depth `md`:
    /// every node records its own path; a leaf sits no shallower than
    /// `md`, no deeper than `MAX_LEN`, and on the path its key's hash
    /// prescribes; a branch below the forced region holds at least two
    /// elements and one in the forced region holds at least one, so
    /// the shape is canonical for the element set.
    pub open spec fn body_wf(self, d: nat, v: nat, md: nat) -> bool
        decreases self,
    {
        match self {
            Trie::Nil(bs) => bs.wf() && bs.length == d && bs.value == v,
            Trie::Leaf(bs, x) => {
                &&& bs.wf()
                &&& bs.length == d
                &&& bs.value == v
                &&& md <= d
                &&& (elt_hash(x) as nat) % pow2(d) == v
            },
            Trie::Bin(bs, l, r) => {
                &&& bs.wf()
                &&& bs.length == d
                &&& bs.value == v
                &&& d < MAX_LEN
                &&& (*l).body_wf(d + 1, v, md)
                &&& (*r).body_wf(d + 1, v + pow2(d), md)
                &&& if d >= md {
                    has_two(self.elems())
                } else {
                    occupied(self.elems())
                }
            },
            Trie::Root(_, _) => false,
            Trie::Name(_, t) => (*t).body_wf(d, v, md),
            Trie::Art(a) => (*a).body_wf(d, v, md),
        }
    }

    /// A rooted trie: a `Root` over a well-formed body, possibly under
    /// further `Name`-over-`Art` pairs.
    pub open spec fn rooted_wf(self) -> bool
        decreases self,
    {
        match self {
            Trie::Root(m, t) => m.wf() && (*t).body_wf(0, 0, m.min_depth as nat),
            Trie::Name(_, t) => match *t {
                Trie::Art(a) => (*a).rooted_wf(),
                _ => false,
            },
            _ => false,
        }
    }

    /// The canonical shape of a whole trie value as `empty` and
    /// `extend` hand it out: a named articulation over a rooted trie.
    /// This is the invariant `extend` demands at its entry.
    pub open spec fn entry_wf(self) -> bool {
        match self {
            Trie::Name(_, t) => match *t {
                Trie::Art(a) => (*a).rooted_wf(),
                _ => false,
            },
            _ => false,
        }
    }

    /// A shape queries accept: a `Root` over a well-formed body under
    /// any pile of wrappers.
    pub open spec fn query_wf(self) -> bool
        decreases self,
    {
        match self {
            Trie::Root(m, t) => m.wf() && (*t).body_wf(0, 0, m.min_depth as nat),
            Trie::Name(_, t) => (*t).query_wf(),
            Trie::Art(a) => (*a).query_wf(),
            _ => false,
        }
    }

    /// The configuration carried by the trie's `Root`.
    pub open spec fn meta_of(self) -> Meta
        decreases self,
    {
        match self {
            Trie::Root(m, _) => m,
            Trie::Name(_, t) => (*t).meta_of(),
            Trie::Art(a) => (*a).meta_of(),
            _ => vstd::pervasive::arbitrary(),
        }
    }

    /// Every branch anywhere below holds at least one element. This is
    /// all `is_empty` needs to be exact.
    pub open spec fn bins_occupied(self) -> bool
        decreases self,
    {
        match self {
            Trie::Nil(_) => true,
            Trie::Leaf(_, _) => true,
            Trie::Bin(_, l, r) => occupied(self.elems()) && (*l).bins_occupied()
                && (*r).bins_occupied(),
            Trie::Root(_, t) => (*t).bins_occupied(),
            Trie::Name(_, t) => (*t).bins_occupied(),
            Trie::Art(a) => (*a).bins_occupied(),
        }
    }

    /// No element already stored shares all `MAX_LEN` placement bits
    /// with `x`'s key unless it has the very same key: inserting `x`
    /// then finds a free slot before the hash bits run out.
    pub open spec fn fits(self, x: X) -> bool {
        fits_set(self.elems(), x)
    }
}

/// No element of `s` shares all `MAX_LEN` placement bits with `x`'s
/// key unless it has the very same key.
pub open spec fn fits_set<X: TrieElt>(s: Set<X>, x: X) -> bool {
    forall|y: X| #[trigger] s.contains(y) ==> y.key() == x.key() || (elt_hash(y) as nat) % pow2(
        MAX_LEN as nat,
    ) != (elt_hash(x) as nat) % pow2(MAX_LEN as nat)
}

impl<X: TrieElt> Clone for Trie<X> {
    /// A deep copy equal to the original; articulated subtrees are
    /// copied out of their shared cells.
    fn clone(&self) -> (r: Self)
        ensures
            r == *self,
        decreases *self,
    {
        match self {
            Trie::Nil(bs) => Trie::Nil(*bs),
            Trie::Leaf(bs, x) => Trie::Leaf(*bs, x.dup()),
            Trie::Bin(bs, l, r) => Trie::Bin(
                *bs,
                Box::new((&**l).clone()),
                Box::new((&**r).clone()),
            ),
            Trie::Root(m, t) => Trie::Root(*m, Box::new((&**t).clone())),
            Trie::Name(n, t) => Trie::Name(n.clone(), Box::new((&**t).clone())),
            Trie::Art(a) => Trie::Art(Rc::new((&**a).clone())),
        }
    }
}

impl<X: TrieElt> Trie<X> {
    /// The canonical empty node at path `bs`.
    pub fn nil(bs: BS) -> (t: Self)
        ensures
            t == Trie::<X>::Nil(bs),
    {
        Trie::Nil(bs)
    }

    /// A node holding exactly the element `x`.
    pub fn leaf(bs: BS, x: X) -> (t: Self)
        ensures
            t == Trie::Leaf(bs, x),
    {
        Trie::Leaf(bs, x)
    }

    /// A branch owning the two subtrees `l` and `r`.
    pub fn bin(bs: BS, l: Self, r: Self) -> (t: Self)
        ensures
            t == Trie::Bin(bs, Box::new(l), Box::new(r)),
    {
        Trie::Bin(bs, Box::new(l), Box::new(r))
    }

    /// Wrap `t` as the authoritative top of a trie configured by `meta`.
    pub fn root(meta: Meta, t: Self) -> (r: Self)
        ensures
            r == Trie::Root(meta, Box::new(t)),
    {
        Trie::Root(meta, Box::new(t))
    }

    /// Tag the subtree `t` with the stable identity `nm`.
    pub fn name(nm: Name, t: Self) -> (r: Self)
        ensures
            r == Trie::Name(nm, Box::new(t)),
    {
        Trie::Name(nm, Box::new(t))
    }

    /// Wrap a shared, cached subtree handle as a trie node.
    pub fn art(a: Rc<Self>) -> (r: Self)
        ensures
            r == Trie::Art(a),
    {
        Trie::Art(a)
    }

    /// Place an already-computed subtree in a fresh shared cell.
    pub fn put(t: Self) -> (a: Rc<Self>)
        ensures
            *a == t,
    {
        Rc::new(t)
    }

    /// Resolve a shared cell to its value, taking it out of the cell
    /// when this handle is the last one and copying it otherwise.
    pub fn force(a: Rc<Self>) -> (t: Self)
        ensures
            t == *a,
    {
        match Rc::try_unwrap(a) {
            Ok(t) => t,
            Err(rc) => (&*rc).clone(),
        }
    }
}

/// Elements stored under a node all lie on that node's path: the low
/// `d` bits of their placement hash spell out `v`.
pub proof fn lemma_elems_on_path<X: TrieElt>(t: &Trie<X>, d: nat, v: nat, md: nat)
    requires
        t.body_wf(d, v, md),
    ensures
        forall|y: X| #[trigger] t.elems().contains(y) ==> (elt_hash(y) as nat) % pow2(d) == v,
    decreases t,
{
    match t {
        Trie::Bin(_, l, r) => {
            lemma_elems_on_path(&**l, d + 1, v, md);
            lemma_elems_on_path(&**r, d + 1, v + pow2(d), md);
            lemma_pow2_adds(d, 1);
            lemma2_to64();
            lemma_pow2_pos(d);
            lemma_pow2_pos(d + 1);
            lemma_pow2_strictly_increases(d, d + 1);
            assert forall|y: X| #[trigger] t.elems().contains(y) implies (elt_hash(y) as nat)
                % pow2(d) == v by {
                if (*l).elems().contains(y) {
                    lemma_small_mod(v, pow2(d + 1));
                    lemma_mod_prefix_agree(elt_hash(y) as nat, v, d, d + 1);
                    lemma_small_mod(v, pow2(d));
                } else {
                    assert((*r).elems().contains(y));
                    lemma_small_mod(v + pow2(d), pow2(d + 1));
                    lemma_mod_prefix_agree(elt_hash(y) as nat, v + pow2(d), d, d + 1);
                    lemma_mod_add_multiples_vanish(v as int, pow2(d) as int);
                    lemma_small_mod(v, pow2(d));
                }
            }
        },
        Trie::Name(_, inner) => {
            lemma_elems_on_path(&**inner, d, v, md);
            assert forall|y: X| #[trigger] t.elems().contains(y) implies (elt_hash(y) as nat)
                % pow2(d) == v by {
                assert((**inner).elems().contains(y));
            }
        },
        Trie::Art(a) => {
            lemma_elems_on_path(&**a, d, v, md);
            assert forall|y: X| #[trigger] t.elems().contains(y) implies (elt_hash(y) as nat)
                % pow2(d) == v by {
                assert((**a).elems().contains(y));
            }
        },
        _ => {},
    }
}

/// Every branch of a well-formed body holds an element.
pub proof fn lemma_body_bins_occupied<X: TrieElt>(t: &Trie<X>, d: nat, v: nat, md: nat)
    requires
        t.body_wf(d, v, md),
    ensures
        t.bins_occupied(),
    decreases *t,
{
    match t {
        Trie::Bin(_, l, r) => {
            lemma_body_bins_occupied(&**l, d + 1, v, md);
            lemma_body_bins_occupied(&**r, d + 1, v + pow2(d), md);
        },
        Trie::Name(_, inner) => {
            lemma_body_bins_occupied(&**inner, d, v, md);
        },
        Trie::Art(a) => {
            lemma_body_bins_occupied(&**a, d, v, md);
        },
        _ => {},
    }
}

/// A queryable trie has occupied branches throughout.
pub proof fn lemma_query_bins_occupied<X: TrieElt>(t: &Trie<X>)
    requires
        t.query_wf(),
    ensures
        t.bins_occupied(),
    decreases *t,
{
    match t {
        Trie::Root(m, inner) => {
            lemma_body_bins_occupied(&**inner, 0, 0, m.min_depth as nat);
        },
        Trie::Name(_, inner) => {
            lemma_query_bins_occupied(&**inner);
        },
        Trie::Art(a) => {
            lemma_query_bins_occupied(&**a);
        },
        _ => {},
    }
}

/// The rooted shapes `empty` and `extend` produce are queryable.
pub proof fn lemma_rooted_query<X: TrieElt>(t: &Trie<X>)
    requires
        t.rooted_wf() || t.entry_wf(),
    ensures
        t.query_wf(),
    decreases *t,
{
    match t {
        Trie::Name(_, inner) => {
            match &**inner {
                Trie::Art(a) => {
                    lemma_rooted_query(&**a);
                    assert((**a).query_wf());
                    assert((**inner).query_wf());
                },
                _ => {},
            }
        },
        _ => {},
    }
}

impl<X: TrieElt> Trie<X> {
    /// Is the trie empty? True exactly when no element is stored.
    pub fn is_empty(trie: &Self) -> (r: bool)
        requires
            trie.query_wf() || trie.bins_occupied(),
        ensures
            r == !occupied(trie.elems()),
    {
        proof {
            if trie.query_wf() {
                lemma_query_bins_occupied(trie);
            }
        }
        Self::is_empty_at(trie)
    }

    /// Emptiness below any node whose branches are all occupied.
    fn is_empty_at(trie: &Self) -> (r: bool)
        requires
            trie.bins_occupied(),
        ensures
            r == !occupied(trie.elems()),
        decreases *trie,
    {
        match trie {
            Trie::Nil(_) => true,
            Trie::Leaf(_, x) => {
                proof {
                    assert(trie.elems().contains(*x));
                }
                false
            },
            Trie::Bin(_, _, _) => false,
            Trie::Root(_, t) => Self::is_empty_at(&**t),
            Trie::Name(_, t) => {
                let r = Self::is_empty_at(&**t);
                proof {
                    if !r {
                        let y = choose|y: X| (**t).elems().contains(y);
                        assert(trie.elems().contains(y));
                    } else {
                        assert forall|y: X| !trie.elems().contains(y) by {
                            assert(!(**t).elems().contains(y));
                        }
                    }
                }
                r
            },
            Trie::Art(a) => {
                let r = Self::is_empty_at(&**a);
                proof {
                    if !r {
                        let y = choose|y: X| (**a).elems().contains(y);
                        assert(trie.elems().contains(y));
                    } else {
                        assert forall|y: X| !trie.elems().contains(y) by {
                            assert(!(**a).elems().contains(y));
                        }
                    }
                }
                r
            },
        }
    }

    /// Look up the element whose key is `k`, descending by the
    /// low-order bits of `i`, which must be `k`'s placement hash.
    /// Returns the stored element with key `k` if there is one.
    pub fn find(trie: &Self, k: &X::Key, i: u64) -> (r: Option<X>)
        requires
            trie.query_wf(),
            i == key_hash(*k),
        ensures
            match r {
                Some(x) => trie.elems().contains(x) && x.key() == *k,
                None => forall|y: X| #[trigger] trie.elems().contains(y) ==> y.key() != *k,
            },
        decreases *trie,
    {
        match trie {
            Trie::Root(m, t) => {
                proof {
                    lemma2_to64();
                    vstd::arithmetic::div_mod::lemma_div_basics(key_hash(*k) as int);
                }
                let res = Self::find_body(&**t, k, i, Ghost(0), Ghost(0), Ghost(
                    m.min_depth as nat,
                ));
                proof {
                    if res is None {
                        assert forall|y: X| #[trigger] trie.elems().contains(y) implies y.key()
                            != *k by {
                            assert((**t).elems().contains(y));
                        }
                    }
                }
                res
            },
            Trie::Name(_, t) => {
                let res = Self::find(&**t, k, i);
                proof {
                    if res is None {
                        assert forall|y: X| #[trigger] trie.elems().contains(y) implies y.key()
                            != *k by {
                            assert((**t).elems().contains(y));
                        }
                    }
                }
                res
            },
            Trie::Art(a) => {
                let res = Self::find(&**a, k, i);
                proof {
                    if res is None {
                        assert forall|y: X| #[trigger] trie.elems().contains(y) implies y.key()
                            != *k by {
                            assert((**a).elems().contains(y));
                        }
                    }
                }
                res
            },
            _ => {
                proof {
                    assert(false);
                }
                vstd::pervasive::unreached()
            },
        }
    }

    /// Look up `k` below the root, at depth `d` on `k`'s hash path `v`.
    fn find_body(
        t: &Self,
        k: &X::Key,
        i: u64,
        Ghost(d): Ghost<nat>,
        Ghost(v): Ghost<nat>,
        Ghost(md): Ghost<nat>,
    ) -> (r: Option<X>)
        requires
            t.body_wf(d, v, md),
            v == (key_hash(*k) as nat) % pow2(d),
            i as nat == (key_hash(*k) as nat) / pow2(d),
        ensures
            match r {
                Some(x) => t.elems().contains(x) && x.key() == *k,
                None => forall|y: X| #[trigger] t.elems().contains(y) ==> y.key() != *k,
            },
        decreases *t,
    {
        let ghost h = key_hash(*k) as nat;
        match t {
            Trie::Nil(_) => None,
            Trie::Leaf(_, x) => {
                if x.borrow_key().key_eq(k) {
                    Some(x.dup())
                } else {
                    None
                }
            },
            Trie::Bin(_, l, r) => {
                proof {
                    lemma_path_step(h, d);
                    lemma_pow2_pos(d);
                    lemma_pow2_pos(d + 1);
                    lemma_elems_on_path(&**r, d + 1, v + pow2(d), md);
                    lemma_elems_on_path(&**l, d + 1, v, md);
                }
                if i % 2 == 0 {
                    let res = Self::find_body(&**l, k, i / 2, Ghost(d + 1), Ghost(v), Ghost(md));
                    proof {
                        if res is None {
                            assert forall|y: X| #[trigger] t.elems().contains(y) implies y.key()
                                != *k by {
                                if !(**l).elems().contains(y) {
                                    assert((**r).elems().contains(y));
                                    assert((elt_hash(y) as nat) % pow2(d + 1) == v + pow2(d));
                                    assert(h % pow2(d + 1) == v);
                                }
                            }
                        }
                    }
                    res
                } else {
                    let res = Self::find_body(
                        &**r,
                        k,
                        i / 2,
                        Ghost(d + 1),
                        Ghost(v + pow2(d)),
                        Ghost(md),
                    );
                    proof {
                        if res is None {
                            assert forall|y: X| #[trigger] t.elems().contains(y) implies y.key()
                                != *k by {
                                if !(**r).elems().contains(y) {
                                    assert((**l).elems().contains(y));
                                    assert((elt_hash(y) as nat) % pow2(d + 1) == v);
                                    assert(h % pow2(d + 1) == v + pow2(d));
                                }
                            }
                        }
                    }
                    res
                }
            },
            Trie::Name(_, inner) => {
                let res = Self::find_body(&**inner, k, i, Ghost(d), Ghost(v), Ghost(md));
                proof {
                    if res is None {
                        assert forall|y: X| #[trigger] t.elems().contains(y) implies y.key()
                            != *k by {
                            assert((**inner).elems().contains(y));
                        }
                    }
                }
                res
            },
            Trie::Art(a) => {
                let res = Self::find_body(&**a, k, i, Ghost(d), Ghost(v), Ghost(md));
                proof {
                    if res is None {
                        assert forall|y: X| #[trigger] t.elems().contains(y) implies y.key()
                            != *k by {
                            assert((**a).elems().contains(y));
                        }
                    }
                }
                res
            },
            Trie::Root(_, _) => {
                proof {
                    assert(false);
                }
                vstd::pervasive::unreached()
            },
        }
    }
}

/// Distinct elements of a well-formed body carry distinct keys: the
/// structure stores at most one element per key.
pub proof fn lemma_distinct_keys<X: TrieElt>(t: &Trie<X>, d: nat, v: nat, md: nat)
    requires
        t.body_wf(d, v, md),
    ensures
        forall|a: X, b: X|
            t.elems().contains(a) && t.elems().contains(b) && a != b ==> a.key() != b.key(),
    decreases *t,
{
    match t {
        Trie::Bin(_, l, r) => {
            lemma_distinct_keys(&**l, d + 1, v, md);
            lemma_distinct_keys(&**r, d + 1, v + pow2(d), md);
            lemma_elems_on_path(&**l, d + 1, v, md);
            lemma_elems_on_path(&**r, d + 1, v + pow2(d), md);
            assert forall|a: X, b: X|
                t.elems().contains(a) && t.elems().contains(b) && a != b implies a.key()
                != b.key() by {
                if (**l).elems().contains(a) && (**r).elems().contains(b) {
                    assert((elt_hash(a) as nat) % pow2(d + 1) == v);
                    assert((elt_hash(b) as nat) % pow2(d + 1) == v + pow2(d));
                } else if (**r).elems().contains(a) && (**l).elems().contains(b) {
                    assert((elt_hash(a) as nat) % pow2(d + 1) == v + pow2(d));
                    assert((elt_hash(b) as nat) % pow2(d + 1) == v);
                }
            }
        },
        Trie::Name(_, inner) => {
            lemma_distinct_keys(&**inner, d, v, md);
            assert forall|a: X, b: X|
                t.elems().contains(a) && t.elems().contains(b) && a != b implies a.key()
                != b.key() by {
                assert((**inner).elems().contains(a));
                assert((**inner).elems().contains(b));
            }
        },
        Trie::Art(inner) => {
            lemma_distinct_keys(&**inner, d, v, md);
            assert forall|a: X, b: X|
                t.elems().contains(a) && t.elems().contains(b) && a != b implies a.key()
                != b.key() by {
                assert((**inner).elems().contains(a));
                assert((**inner).elems().contains(b));
            }
        },
        _ => {},
    }
}

impl<X: TrieElt> Trie<X> {
    /// Separate two elements with distinct keys whose hashes agree on
    /// the path so far, building the chain of branches down to the
    /// first hash bit where they part ways.
    fn split_pair(
        bs: BS,
        e: X,
        eh: u64,
        x: X,
        xh: u64,
        Ghost(d): Ghost<nat>,
        Ghost(v): Ghost<nat>,
        Ghost(md): Ghost<nat>,
    ) -> (r: Self)
        requires
            bs.wf(),
            bs.length == d,
            bs.value == v,
            md <= d,
            e.key() != x.key(),
            eh as nat == (elt_hash(e) as nat) / pow2(d),
            xh as nat == (elt_hash(x) as nat) / pow2(d),
            (elt_hash(e) as nat) % pow2(d) == v,
            (elt_hash(x) as nat) % pow2(d) == v,
            (elt_hash(e) as nat) % pow2(MAX_LEN as nat) != (elt_hash(x) as nat) % pow2(
                MAX_LEN as nat,
            ),
        ensures
            r.body_wf(d, v, md),
            r.elems() =~= Set::empty().insert(e).insert(x),
        decreases MAX_LEN - d,
    {
        let ghost he = elt_hash(e) as nat;
        let ghost hx = elt_hash(x) as nat;
        proof {
            if d >= MAX_LEN {
                lemma_mod_prefix_agree(he, hx, MAX_LEN as nat, d);
            }
            lemma_path_step(he, d);
            lemma_path_step(hx, d);
        }
        let b_e = eh % 2;
        let b_x = xh % 2;
        let bs0 = BS::prepend(0, bs);
        let bs1 = BS::prepend(1, bs);
        if b_e == b_x {
            proof {
                if (d + 1) as nat > MAX_LEN as nat {
                    assert(false);
                }
            }
            if b_e == 0 {
                let inner = Self::split_pair(
                    bs0,
                    e,
                    eh / 2,
                    x,
                    xh / 2,
                    Ghost(d + 1),
                    Ghost(v),
                    Ghost(md),
                );
                let res = Trie::Bin(bs, Box::new(inner), Box::new(Trie::Nil(bs1)));
                proof {
                    assert(res.elems() == inner.elems().union(Trie::<X>::Nil(bs1).elems()));
                    assert(Trie::<X>::Nil(bs1).elems() =~= Set::<X>::empty());
                    assert(inner.elems() =~= Set::empty().insert(e).insert(x));
                    assert(res.elems() =~= Set::empty().insert(e).insert(x));
                    assert(has_two(res.elems())) by {
                        assert(res.elems().contains(e) && res.elems().contains(x));
                    }
                    assert(Trie::<X>::Nil(bs1).body_wf(d + 1, v + pow2(d), md));
                    assert(res.body_wf(d, v, md));
                }
                res
            } else {
                let inner = Self::split_pair(
                    bs1,
                    e,
                    eh / 2,
                    x,
                    xh / 2,
                    Ghost(d + 1),
                    Ghost(v + pow2(d)),
                    Ghost(md),
                );
                let res = Trie::Bin(bs, Box::new(Trie::Nil(bs0)), Box::new(inner));
                proof {
                    assert(res.elems() == Trie::<X>::Nil(bs0).elems().union(inner.elems()));
                    assert(Trie::<X>::Nil(bs0).elems() =~= Set::<X>::empty());
                    assert(res.elems() =~= Set::empty().insert(e).insert(x));
                    assert(has_two(res.elems())) by {
                        assert(res.elems().contains(e) && res.elems().contains(x));
                    }
                    assert(Trie::<X>::Nil(bs0).body_wf(d + 1, v, md));
                    assert(res.body_wf(d, v, md));
                }
                res
            }
        } else {
            let res = if b_e == 0 {
                let r0 = Trie::Bin(bs, Box::new(Trie::Leaf(bs0, e)), Box::new(Trie::Leaf(bs1, x)));
                proof {
                    assert(r0.elems() == Trie::<X>::Leaf(bs0, e).elems().union(
                        Trie::<X>::Leaf(bs1, x).elems(),
                    ));
                }
                r0
            } else {
                let r1 = Trie::Bin(bs, Box::new(Trie::Leaf(bs0, x)), Box::new(Trie::Leaf(bs1, e)));
                proof {
                    assert(r1.elems() == Trie::<X>::Leaf(bs0, x).elems().union(
                        Trie::<X>::Leaf(bs1, e).elems(),
                    ));
                }
                r1
            };
            proof {
                assert(res.elems() =~= Set::empty().insert(e).insert(x));
                assert(has_two(res.elems())) by {
                    assert(res.elems().contains(e) && res.elems().contains(x));
                }
                if b_e == 0 {
                    assert(Trie::<X>::Leaf(bs0, e).body_wf(d + 1, v, md));
                    assert(Trie::<X>::Leaf(bs1, x).body_wf(d + 1, v + pow2(d), md));
                } else {
                    assert(Trie::<X>::Leaf(bs0, x).body_wf(d + 1, v, md));
                    assert(Trie::<X>::Leaf(bs1, e).body_wf(d + 1, v + pow2(d), md));
                }
                assert(res.body_wf(d, v, md));
            }
            res
        }
    }
}


impl<X: TrieElt> Trie<X> {
    /// Place `elt` into the body `trie`, a subtree at depth `d` on
    /// path `v`, consuming one low-order bit of `hash` per branch
    /// level: branches are forced down to the configured minimum
    /// depth, a leaf with the same key is replaced, a leaf with a
    /// different key is split along the two hashes, and a stored
    /// element whose usable hash bits all collide with `elt`'s leaves
    /// the trie unchanged.
    fn mfn(
        meta: Meta,
        trie: Self,
        bs: BS,
        elt: X,
        hash: u64,
        Ghost(d): Ghost<nat>,
        Ghost(v): Ghost<nat>,
        Ghost(md): Ghost<nat>,
    ) -> (r: Self)
        requires
            meta.wf(),
            md == meta.min_depth as nat,
            trie.body_wf(d, v, md),
            bs.wf(),
            bs.length == d,
            bs.value == v,
            v == (elt_hash(elt) as nat) % pow2(d),
            hash as nat == (elt_hash(elt) as nat) / pow2(d),
        ensures
            r.body_wf(d, v, md),
            trie.fits(elt) ==> r.elems() == inserted(trie.elems(), elt),
            !trie.fits(elt) ==> r.elems() == trie.elems(),
        decreases MAX_LEN - d, trie.wrappers(),
    {
        let ghost h = elt_hash(elt) as nat;
        let ghost told = trie;
        match trie {
            Trie::Nil(_) => {
                if bs.length < meta.min_depth {
                    proof {
                        lemma_path_step(h, d);
                    }
                    let bs0 = BS::prepend(0, bs);
                    let bs1 = BS::prepend(1, bs);
                    if hash % 2 == 0 {
                        let child = Self::mfn(
                            meta,
                            Trie::Nil(bs0),
                            bs0,
                            elt,
                            hash / 2,
                            Ghost(d + 1),
                            Ghost(v),
                            Ghost(md),
                        );
                        let res = Trie::Bin(bs, Box::new(child), Box::new(Trie::Nil(bs1)));
                        proof {
                            assert(fits_set(Trie::<X>::Nil(bs0).elems(), elt));
                            assert(told.fits(elt));
                            assert(res.elems() == child.elems().union(
                                Trie::<X>::Nil(bs1).elems(),
                            ));
                            assert(res.elems() =~= inserted(told.elems(), elt));
                            assert(Trie::<X>::Nil(bs1).body_wf(d + 1, v + pow2(d), md));
                            assert(occupied(res.elems())) by {
                                assert(res.elems().contains(elt));
                            }
                            assert(res.body_wf(d, v, md));
                        }
                        res
                    } else {
                        let child = Self::mfn(
                            meta,
                            Trie::Nil(bs1),
                            bs1,
                            elt,
                            hash / 2,
                            Ghost(d + 1),
                            Ghost(v + pow2(d)),
                            Ghost(md),
                        );
                        let res = Trie::Bin(bs, Box::new(Trie::Nil(bs0)), Box::new(child));
                        proof {
                            assert(fits_set(Trie::<X>::Nil(bs1).elems(), elt));
                            assert(told.fits(elt));
                            assert(res.elems() == Trie::<X>::Nil(bs0).elems().union(
                                child.elems(),
                            ));
                            assert(res.elems() =~= inserted(told.elems(), elt));
                            assert(Trie::<X>::Nil(bs0).body_wf(d + 1, v, md));
                            assert(occupied(res.elems())) by {
                                assert(res.elems().contains(elt));
                            }
                            assert(res.body_wf(d, v, md));
                        }
                        res
                    }
                } else {
                    let res = Trie::Leaf(bs, elt);
                    proof {
                        assert(told.fits(elt));
                        assert(res.body_wf(d, v, md));
                        assert(res.elems() =~= inserted(told.elems(), elt));
                    }
                    res
                }
            },
            Trie::Leaf(_, e) => {
                let ghost eg = e;
                if e.borrow_key().key_eq(elt.borrow_key()) {
                    let res = Trie::Leaf(bs, elt);
                    proof {
                        assert(told.fits(elt)) by {
                            assert(forall|y: X| #[trigger] told.elems().contains(y) ==> y == eg);
                        }
                        assert(res.elems() =~= inserted(told.elems(), elt));
                        assert(res.body_wf(d, v, md));
                    }
                    res
                } else {
                    let p = pow2_u64(bs.length);
                    let he_full = crate::keys::my_hash(e.borrow_key());
                    let he = he_full / p;
                    let q = pow2_u64(MAX_LEN - bs.length);
                    proof {
                        lemma_trunc_eq_iff(elt_hash(eg) as nat, h, d, MAX_LEN as nat);
                    }
                    if he % q == hash % q {
                        let res = Trie::Leaf(bs, e);
                        proof {
                            assert(!told.fits(elt)) by {
                                assert(told.elems().contains(eg));
                            }
                            assert(res.elems() == told.elems());
                            assert(res.body_wf(d, v, md));
                        }
                        res
                    } else {
                        let res = Self::split_pair(
                            bs,
                            e,
                            he,
                            elt,
                            hash,
                            Ghost(d),
                            Ghost(v),
                            Ghost(md),
                        );
                        proof {
                            assert(told.fits(elt)) by {
                                assert(forall|y: X| #[trigger] told.elems().contains(y) ==> y
                                    == eg);
                            }
                            assert(res.elems() =~= inserted(told.elems(), elt));
                        }
                        res
                    }
                }
            },
            Trie::Bin(_, l, r0) => {
                let ghost lg = *l;
                let ghost rg = *r0;
                proof {
                    lemma_path_step(h, d);
                    lemma_elems_on_path(&*l, d + 1, v, md);
                    lemma_elems_on_path(&*r0, d + 1, v + pow2(d), md);
                    lemma_distinct_keys(&*l, d + 1, v, md);
                    lemma_distinct_keys(&*r0, d + 1, v + pow2(d), md);
                    assert(told.elems() == lg.elems().union(rg.elems()));
                }
                if hash % 2 == 0 {
                    proof {
                        assert forall|y: X| #[trigger] rg.elems().contains(y) implies y.key()
                            != elt.key() && (elt_hash(y) as nat) % pow2(MAX_LEN as nat) != h
                            % pow2(MAX_LEN as nat) by {
                            assert((elt_hash(y) as nat) % pow2(d + 1) == v + pow2(d));
                            assert(h % pow2(d + 1) == v);
                            if (elt_hash(y) as nat) % pow2(MAX_LEN as nat) == h % pow2(
                                MAX_LEN as nat,
                            ) {
                                lemma_mod_prefix_agree(
                                    elt_hash(y) as nat,
                                    h,
                                    d + 1,
                                    MAX_LEN as nat,
                                );
                            }
                            if y.key() == elt.key() {
                                assert(elt_hash(y) == elt_hash(elt));
                            }
                        }
                        assert(told.fits(elt) == lg.fits(elt)) by {
                            if lg.fits(elt) {
                                assert forall|y: X| #[trigger] told.elems().contains(y) implies
                                    y.key() == elt.key() || (elt_hash(y) as nat) % pow2(
                                    MAX_LEN as nat,
                                ) != h % pow2(MAX_LEN as nat) by {
                                    if lg.elems().contains(y) {
                                    } else {
                                        assert(rg.elems().contains(y));
                                    }
                                }
                            }
                            if told.fits(elt) {
                                assert forall|y: X| #[trigger] lg.elems().contains(y) implies
                                    y.key() == elt.key() || (elt_hash(y) as nat) % pow2(
                                    MAX_LEN as nat,
                                ) != h % pow2(MAX_LEN as nat) by {
                                    assert(told.elems().contains(y));
                                }
                            }
                        }
                    }
                    let bs0 = BS::prepend(0, bs);
                    let lres = Self::mfn(
                        meta,
                        *l,
                        bs0,
                        elt,
                        hash / 2,
                        Ghost(d + 1),
                        Ghost(v),
                        Ghost(md),
                    );
                    let res = Trie::Bin(bs, Box::new(lres), r0);
                    proof {
                        assert(res.elems() == lres.elems().union(rg.elems()));
                        if told.fits(elt) {
                            assert(res.elems() =~= inserted(told.elems(), elt)) by {
                                assert(lres.elems() == inserted(lg.elems(), elt));
                            }
                            assert(res.elems().contains(elt)) by {
                                assert(lres.elems().contains(elt));
                            }
                            if d >= md {
                                assert(has_two(told.elems()));
                                let (a, b) = choose|a: X, b: X|
                                    a != b && told.elems().contains(a) && told.elems().contains(
                                        b,
                                    );
                                if a.key() == elt.key() {
                                    assert(b.key() != elt.key());
                                    assert(res.elems().contains(b));
                                    assert(has_two(res.elems())) by {
                                        assert(res.elems().contains(b) && res.elems().contains(
                                            elt,
                                        ) && b != elt);
                                    }
                                } else {
                                    assert(res.elems().contains(a));
                                    assert(has_two(res.elems())) by {
                                        assert(res.elems().contains(a) && res.elems().contains(
                                            elt,
                                        ) && a != elt);
                                    }
                                }
                            } else {
                                assert(occupied(res.elems())) by {
                                    assert(res.elems().contains(elt));
                                }
                            }
                        } else {
                            assert(res.elems() =~= told.elems()) by {
                                assert(lres.elems() == lg.elems());
                            }
                            if d >= md {
                                assert(has_two(told.elems()));
                                assert(has_two(res.elems()));
                            } else {
                                assert(occupied(told.elems()));
                                assert(occupied(res.elems()));
                            }
                        }
                        assert(res.body_wf(d, v, md));
                    }
                    res
                } else {
                    proof {
                        assert forall|y: X| #[trigger] lg.elems().contains(y) implies y.key()
                            != elt.key() && (elt_hash(y) as nat) % pow2(MAX_LEN as nat) != h
                            % pow2(MAX_LEN as nat) by {
                            assert((elt_hash(y) as nat) % pow2(d + 1) == v);
                            assert(h % pow2(d + 1) == v + pow2(d));
                            if (elt_hash(y) as nat) % pow2(MAX_LEN as nat) == h % pow2(
                                MAX_LEN as nat,
                            ) {
                                lemma_mod_prefix_agree(
                                    elt_hash(y) as nat,
                                    h,
                                    d + 1,
                                    MAX_LEN as nat,
                                );
                            }
                            if y.key() == elt.key() {
                                assert(elt_hash(y) == elt_hash(elt));
                            }
                        }
                        assert(told.fits(elt) == rg.fits(elt)) by {
                            if rg.fits(elt) {
                                assert forall|y: X| #[trigger] told.elems().contains(y) implies
                                    y.key() == elt.key() || (elt_hash(y) as nat) % pow2(
                                    MAX_LEN as nat,
                                ) != h % pow2(MAX_LEN as nat) by {
                                    if rg.elems().contains(y) {
                                    } else {
                                        assert(lg.elems().contains(y));
                                    }
                                }
                            }
                            if told.fits(elt) {
                                assert forall|y: X| #[trigger] rg.elems().contains(y) implies
                                    y.key() == elt.key() || (elt_hash(y) as nat) % pow2(
                                    MAX_LEN as nat,
                                ) != h % pow2(MAX_LEN as nat) by {
                                    assert(told.elems().contains(y));
                                }
                            }
                        }
                    }
                    let bs1 = BS::prepend(1, bs);
                    let rres = Self::mfn(
                        meta,
                        *r0,
                        bs1,
                        elt,
                        hash / 2,
                        Ghost(d + 1),
                        Ghost(v + pow2(d)),
                        Ghost(md),
                    );
                    let res = Trie::Bin(bs, l, Box::new(rres));
                    proof {
                        assert(res.elems() == lg.elems().union(rres.elems()));
                        if told.fits(elt) {
                            assert(res.elems() =~= inserted(told.elems(), elt)) by {
                                assert(rres.elems() == inserted(rg.elems(), elt));
                            }
                            assert(res.elems().contains(elt)) by {
                                assert(rres.elems().contains(elt));
                            }
                            if d >= md {
                                assert(has_two(told.elems()));
                                let (a, b) = choose|a: X, b: X|
                                    a != b && told.elems().contains(a) && told.elems().contains(
                                        b,
                                    );
                                if a.key() == elt.key() {
                                    assert(b.key() != elt.key());
                                    assert(res.elems().contains(b));
                                    assert(has_two(res.elems())) by {
                                        assert(res.elems().contains(b) && res.elems().contains(
                                            elt,
                                        ) && b != elt);
                                    }
                                } else {
                                    assert(res.elems().contains(a));
                                    assert(has_two(res.elems())) by {
                                        assert(res.elems().contains(a) && res.elems().contains(
                                            elt,
                                        ) && a != elt);
                                    }
                                }
                            } else {
                                assert(occupied(res.elems())) by {
                                    assert(res.elems().contains(elt));
                                }
                            }
                        } else {
                            assert(res.elems() =~= told.elems()) by {
                                assert(rres.elems() == rg.elems());
                            }
                            if d >= md {
                                assert(has_two(told.elems()));
                                assert(has_two(res.elems()));
                            } else {
                                assert(occupied(told.elems()));
                                assert(occupied(res.elems()));
                            }
                        }
                        assert(res.body_wf(d, v, md));
                    }
                    res
                }
            },
            Trie::Name(_, t) => {
                let ghost tg = *t;
                let res = Self::mfn(meta, *t, bs, elt, hash, Ghost(d), Ghost(v), Ghost(md));
                proof {
                    assert(told.elems() == tg.elems());
                }
                res
            },
            Trie::Art(a) => {
                let forced = Self::force(a);
                let ghost tg = forced;
                let res = Self::mfn(meta, forced, bs, elt, hash, Ghost(d), Ghost(v), Ghost(md));
                proof {
                    assert(told.elems() == tg.elems());
                }
                res
            },
            Trie::Root(_, _) => {
                proof {
                    assert(false);
                }
                vstd::pervasive::unreached()
            },
        }
    }
}


impl<X: TrieElt> Trie<X> {
    /// Walk the named articulations down to the `Root`, place `elt`
    /// into the body, and rewrap the result as a fresh `Root` whose
    /// body sits in a newly named cell, so an engine can cache this
    /// edit independently of the rest of the trie.
    fn root_mfn(nm: Name, trie: Self, elt: X) -> (r: Self)
        requires
            trie.rooted_wf(),
        ensures
            r.rooted_wf(),
            r.meta_of() == trie.meta_of(),
            trie.fits(elt) ==> r.elems() == inserted(trie.elems(), elt),
            !trie.fits(elt) ==> r.elems() == trie.elems(),
        decreases trie.wrappers(),
    {
        let ghost told = trie;
        match trie {
            Trie::Root(meta, t) => {
                let ghost tg = *t;
                let bs0 = BS::zero();
                let hash = crate::keys::my_hash(elt.borrow_key());
                proof {
                    lemma2_to64();
                    vstd::arithmetic::div_mod::lemma_div_basics(elt_hash(elt) as int);
                }
                let body = Self::mfn(
                    meta,
                    *t,
                    bs0,
                    elt,
                    hash,
                    Ghost(0),
                    Ghost(0),
                    Ghost(meta.min_depth as nat),
                );
                let ghost bg = body;
                let cell = Rc::new(body);
                let art_node = Trie::Art(cell);
                let ghost ag = art_node;
                let named = Trie::Name(nm, Box::new(art_node));
                let ghost ng = named;
                let res = Trie::Root(meta, Box::new(named));
                proof {
                    assert(ag.elems() == bg.elems());
                    assert(ng.elems() == ag.elems());
                    assert(res.elems() == ng.elems());
                    assert(told.elems() == tg.elems());
                    assert(ag.body_wf(0, 0, meta.min_depth as nat));
                    assert(ng.body_wf(0, 0, meta.min_depth as nat));
                    assert(res.rooted_wf());
                    assert(res.meta_of() == meta);
                }
                res
            },
            Trie::Name(_, t) => {
                let ghost ib = *t;
                match *t {
                    Trie::Art(a) => {
                        let inner = Self::force(a);
                        let ghost av = inner;
                        proof {
                            assert(told.elems() == ib.elems());
                            assert(ib.elems() == av.elems());
                            assert(told.wrappers() == 1 + ib.wrappers());
                            assert(ib.wrappers() == 1 + av.wrappers());
                            assert(told.meta_of() == ib.meta_of());
                            assert(ib.meta_of() == av.meta_of());
                        }

                        let res = Self::root_mfn(nm, inner, elt);
                        res
                    },
                    _ => {
                        proof {
                            assert(false);
                        }
                        vstd::pervasive::unreached()
                    },
                }
            },
            _ => {
                proof {
                    assert(false);
                }
                vstd::pervasive::unreached()
            },
        }
    }

    /// Add `elt` to the trie, returning the new trie value; the old
    /// value's subtrees are reused where the edit does not touch them.
    /// The name `nm` is forked into the identity of the new outer
    /// cell and the identity of the re-rooted body, so no two edits
    /// share an identity. An element whose key is already present
    /// replaces the stored element; one whose usable hash bits all
    /// collide with a different stored key leaves the contents
    /// unchanged.
    pub fn extend(nm: Name, trie: Self, elt: X) -> (r: Self)
        requires
            trie.entry_wf(),
        ensures
            r.entry_wf(),
            r.meta_of() == trie.meta_of(),
            trie.fits(elt) ==> r.elems() == inserted(trie.elems(), elt),
            !trie.fits(elt) ==> r.elems() == trie.elems(),
    {
        let ghost told = trie;
        let (n1, n2) = name_fork(nm);
        proof {
            assert(trie.rooted_wf());
        }
        let rooted = Self::root_mfn(n2, trie, elt);
        let ghost rg = rooted;
        let cell = Rc::new(rooted);
        let art_node = Trie::Art(cell);
        let ghost ag = art_node;
        let res = Trie::Name(n1, Box::new(art_node));
        proof {
            assert(ag.elems() == rg.elems());
            assert(res.elems() == ag.elems());
            assert(ag.meta_of() == rg.meta_of());
            assert(res.meta_of() == ag.meta_of());
            assert(res.entry_wf());
        }
        res
    }

    /// A fresh empty trie configured by `meta`, its minimum depth
    /// clamped to the addressable range. The empty body sits in its
    /// own named cell under a named root cell, so an engine can
    /// recognise the empty trie as a reusable unit.
    pub fn empty(meta: Meta) -> (t: Self)
        ensures
            t.entry_wf(),
            t.elems() == Set::<X>::empty(),
            t.meta_of() == meta.clamp(),
    {
        let m = meta.clamped();
        let nm = name_of_str("trie_empty");
        let (n1, n2) = name_fork(nm);
        let bs0 = BS::zero();
        let nil_node: Trie<X> = Trie::Nil(bs0);
        let ghost nng = nil_node;
        let nil_cell: Rc<Trie<X>> = Rc::new(nil_node);
        let nil_art = Trie::Art(nil_cell);
        let ghost nag = nil_art;
        let body = Trie::Name(n2, Box::new(nil_art));
        let ghost bg = body;
        let rooted = Trie::Root(m, Box::new(body));
        let ghost rg = rooted;
        let root_cell: Rc<Trie<X>> = Rc::new(rooted);
        let root_art = Trie::Art(root_cell);
        let ghost rag = root_art;
        let res = Trie::Name(n1, Box::new(root_art));
        proof {
            assert(nng.elems() =~= Set::<X>::empty());
            assert(nag.elems() == nng.elems());
            assert(bg.elems() == nag.elems());
            assert(rg.elems() == bg.elems());
            assert(rag.elems() == rg.elems());
            assert(res.elems() == rag.elems());
            assert(nng.body_wf(0, 0, m.min_depth as nat));
            assert(nag.body_wf(0, 0, m.min_depth as nat));
            assert(bg.body_wf(0, 0, m.min_depth as nat));
            assert(rg.rooted_wf());
            assert(res.entry_wf());
            assert(rag.meta_of() == rg.meta_of());
            assert(res.meta_of() == rag.meta_of());
        }
        res
    }

    /// The trie holding exactly `elt`.
    pub fn singleton(meta: Meta, nm: Name, elt: X) -> (t: Self)
        ensures
            t.entry_wf(),
            t.elems() == Set::<X>::empty().insert(elt),
            t.meta_of() == meta.clamp(),
    {
        let e = Self::empty(meta);
        let ghost eg = e;
        let res = Self::extend(nm, e, elt);
        proof {
            assert(eg.fits(elt));
            assert(res.elems() =~= Set::<X>::empty().insert(elt));
        }
        res
    }
}


impl<X: TrieElt> Trie<X> {
    /// Every leaf anywhere below sits at depth `n` or deeper.
    pub open spec fn leaf_depths_at_least(self, n: nat) -> bool
        decreases self,
    {
        match self {
            Trie::Nil(_) => true,
            Trie::Leaf(bs, _) => bs.length >= n,
            Trie::Bin(_, l, r) => (*l).leaf_depths_at_least(n) && (*r).leaf_depths_at_least(n),
            Trie::Root(_, t) => (*t).leaf_depths_at_least(n),
            Trie::Name(_, t) => (*t).leaf_depths_at_least(n),
            Trie::Art(a) => (*a).leaf_depths_at_least(n),
        }
    }
}

/// In a well-formed body no leaf sits above the minimum depth.
pub proof fn lemma_body_min_depth<X: TrieElt>(t: &Trie<X>, d: nat, v: nat, md: nat)
    requires
        t.body_wf(d, v, md),
    ensures
        t.leaf_depths_at_least(md),
    decreases *t,
{
    match t {
        Trie::Bin(_, l, r) => {
            lemma_body_min_depth(&**l, d + 1, v, md);
            lemma_body_min_depth(&**r, d + 1, v + pow2(d), md);
        },
        Trie::Name(_, inner) => {
            lemma_body_min_depth(&**inner, d, v, md);
        },
        Trie::Art(a) => {
            lemma_body_min_depth(&**a, d, v, md);
        },
        _ => {},
    }
}

/// The minimum-depth invariant: in any trie a query accepts, every
/// leaf's path is at least as long as the configured minimum depth.
pub proof fn lemma_min_depth<X: TrieElt>(t: &Trie<X>, n: nat)
    requires
        t.query_wf(),
        n == t.meta_of().min_depth as nat,
    ensures
        t.leaf_depths_at_least(n),
    decreases *t,
{
    match t {
        Trie::Root(m, inner) => {
            lemma_body_min_depth(&**inner, 0, 0, m.min_depth as nat);
        },
        Trie::Name(_, inner) => {
            assert(t.meta_of() == (**inner).meta_of());
            lemma_min_depth(&**inner, n);
        },
        Trie::Art(a) => {
            assert(t.meta_of() == (**a).meta_of());
            lemma_min_depth(&**a, n);
        },
        _ => {},
    }
}

} // verus!
