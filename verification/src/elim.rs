use vstd::prelude::*;
use vstd::arithmetic::power2::pow2;
use crate::{Meta, MAX_LEN};
use crate::bits::{BS, pow2_u64};
use crate::keys::{TrieElt, elt_hash};
use crate::names::Name;
use crate::trie::Trie;

verus! {

broadcast use vstd::arithmetic::power2::lemma_pow2_pos;


impl<X: TrieElt> Trie<X> {
    /// The first node that is not an articulation: what every
    /// structural visitor dispatches on, so that no handler ever sees
    /// an `Art`.
    pub open spec fn forced(self) -> Trie<X>
        decreases self,
    {
        match self {
            Trie::Art(a) => (*a).forced(),
            _ => self,
        }
    }

    /// Dispatch on the structure of `t`, forcing articulations first:
    /// exactly one handler runs, on the forced node's parts.
    pub fn elim<Res, NilC: FnOnce(BS) -> Res, LeafC: FnOnce(BS, X) -> Res, BinC: FnOnce(
        BS,
        Self,
        Self,
    ) -> Res, RootC: FnOnce(Meta, Self) -> Res, NameC: FnOnce(Name, Self) -> Res>(
        t: Self,
        nil: NilC,
        leaf: LeafC,
        bin: BinC,
        root: RootC,
        name: NameC,
    ) -> (out: Res)
        requires
            forall|bs: BS| #[trigger] call_requires(nil, (bs,)),
            forall|bs: BS, x: X| #[trigger] call_requires(leaf, (bs, x)),
            forall|bs: BS, l: Self, r: Self| #[trigger] call_requires(bin, (bs, l, r)),
            forall|m: Meta, i: Self| #[trigger] call_requires(root, (m, i)),
            forall|n: Name, i: Self| #[trigger] call_requires(name, (n, i)),
        ensures
            match t.forced() {
                Trie::Nil(bs) => call_ensures(nil, (bs,), out),
                Trie::Leaf(bs, x) => call_ensures(leaf, (bs, x), out),
                Trie::Bin(bs, l, r) => call_ensures(bin, (bs, *l, *r), out),
                Trie::Root(m, i) => call_ensures(root, (m, *i), out),
                Trie::Name(n, i) => call_ensures(name, (n, *i), out),
                Trie::Art(_) => false,
            },
        decreases t.wrappers(),
    {
        let ghost told = t;
        match t {
            Trie::Nil(bs) => nil(bs),
            Trie::Leaf(bs, x) => leaf(bs, x),
            Trie::Bin(bs, l, r) => bin(bs, *l, *r),
            Trie::Root(m, i) => root(m, *i),
            Trie::Name(n, i) => name(n, *i),
            Trie::Art(a) => {
                let inner = Self::force(a);
                let ghost ig = inner;
                proof {
                    assert(told.wrappers() == 1 + ig.wrappers());
                    assert(told.forced() == ig.forced());
                }
                Self::elim(inner, nil, leaf, bin, root, name)
            },
        }
    }

    /// As `elim`, threading one caller-supplied value into whichever
    /// handler runs.
    pub fn elim_arg<Arg, Res, NilC: FnOnce(BS, Arg) -> Res, LeafC: FnOnce(
        BS,
        X,
        Arg,
    ) -> Res, BinC: FnOnce(BS, Self, Self, Arg) -> Res, RootC: FnOnce(
        Meta,
        Self,
        Arg,
    ) -> Res, NameC: FnOnce(Name, Self, Arg) -> Res>(
        t: Self,
        arg: Arg,
        nil: NilC,
        leaf: LeafC,
        bin: BinC,
        root: RootC,
        name: NameC,
    ) -> (out: Res)
        requires
            forall|bs: BS, a: Arg| #[trigger] call_requires(nil, (bs, a)),
            forall|bs: BS, x: X, a: Arg| #[trigger] call_requires(leaf, (bs, x, a)),
            forall|bs: BS, l: Self, r: Self, a: Arg| #[trigger] call_requires(
                bin,
                (bs, l, r, a),
            ),
            forall|m: Meta, i: Self, a: Arg| #[trigger] call_requires(root, (m, i, a)),
            forall|n: Name, i: Self, a: Arg| #[trigger] call_requires(name, (n, i, a)),
        ensures
            match t.forced() {
                Trie::Nil(bs) => call_ensures(nil, (bs, arg), out),
                Trie::Leaf(bs, x) => call_ensures(leaf, (bs, x, arg), out),
                Trie::Bin(bs, l, r) => call_ensures(bin, (bs, *l, *r, arg), out),
                Trie::Root(m, i) => call_ensures(root, (m, *i, arg), out),
                Trie::Name(n, i) => call_ensures(name, (n, *i, arg), out),
                Trie::Art(_) => false,
            },
        decreases t.wrappers(),
    {
        let ghost told = t;
        match t {
            Trie::Nil(bs) => nil(bs, arg),
            Trie::Leaf(bs, x) => leaf(bs, x, arg),
            Trie::Bin(bs, l, r) => bin(bs, *l, *r, arg),
            Trie::Root(m, i) => root(m, *i, arg),
            Trie::Name(n, i) => name(n, *i, arg),
            Trie::Art(a) => {
                let inner = Self::force(a);
                let ghost ig = inner;
                proof {
                    assert(told.wrappers() == 1 + ig.wrappers());
                    assert(told.forced() == ig.forced());
                }
                Self::elim_arg(inner, arg, nil, leaf, bin, root, name)
            },
        }
    }

    /// As `elim`, but borrowing: the handlers see references into the
    /// trie and nothing is consumed.
    pub fn elim_ref<'a, Res, NilC: FnOnce(&'a BS) -> Res, LeafC: FnOnce(
        &'a BS,
        &'a X,
    ) -> Res, BinC: FnOnce(&'a BS, &'a Self, &'a Self) -> Res, RootC: FnOnce(
        &'a Meta,
        &'a Self,
    ) -> Res, NameC: FnOnce(&'a Name, &'a Self) -> Res>(
        t: &'a Self,
        nil: NilC,
        leaf: LeafC,
        bin: BinC,
        root: RootC,
        name: NameC,
    ) -> (out: Res)
        requires
            forall|bs: &BS| #[trigger] call_requires(nil, (bs,)),
            forall|bs: &BS, x: &X| #[trigger] call_requires(leaf, (bs, x)),
            forall|bs: &BS, l: &Self, r: &Self| #[trigger] call_requires(bin, (bs, l, r)),
            forall|m: &Meta, i: &Self| #[trigger] call_requires(root, (m, i)),
            forall|n: &Name, i: &Self| #[trigger] call_requires(name, (n, i)),
        ensures
            match t.forced() {
                Trie::Nil(bs) => exists|p: &BS| *p == bs && #[trigger] call_ensures(
                    nil,
                    (p,),
                    out,
                ),
                Trie::Leaf(bs, x) => exists|p: &BS, q: &X|
                    *p == bs && *q == x && #[trigger] call_ensures(leaf, (p, q), out),
                Trie::Bin(bs, l, r) => exists|p: &BS, ql: &Self, qr: &Self|
                    *p == bs && *ql == *l && *qr == *r && #[trigger] call_ensures(
                        bin,
                        (p, ql, qr),
                        out,
                    ),
                Trie::Root(m, i) => exists|p: &Meta, q: &Self|
                    *p == m && *q == *i && #[trigger] call_ensures(root, (p, q), out),
                Trie::Name(n, i) => exists|p: &Name, q: &Self|
                    *p == n && *q == *i && #[trigger] call_ensures(name, (p, q), out),
                Trie::Art(_) => false,
            },
        decreases t.wrappers(),
    {
        match t {
            Trie::Nil(bs) => nil(bs),
            Trie::Leaf(bs, x) => leaf(bs, x),
            Trie::Bin(bs, l, r) => bin(bs, &**l, &**r),
            Trie::Root(m, i) => root(m, &**i),
            Trie::Name(n, i) => name(n, &**i),
            Trie::Art(a) => {
                proof {
                    assert(t.wrappers() == 1 + (**a).wrappers());
                    assert(t.forced() == (**a).forced());
                }
                Self::elim_ref(&**a, nil, leaf, bin, root, name)
            },
        }
    }

    /// Split a single leaf into a branch, the stored element moving to
    /// the side its own hash picks; empty and branch nodes pass
    /// through untouched. Only these three shapes are accepted:
    /// callers normalise names and articulations away first.
    pub fn split_atomic(t: Self) -> (r: Self)
        requires
            !(t is Root) && !(t is Name) && !(t is Art),
            t is Leaf ==> t->Leaf_0.wf() && t->Leaf_0.length < MAX_LEN,
        ensures
            r.elems() == t.elems(),
            t is Nil || t is Bin ==> r == t,
            t is Leaf ==> {
                let bs = t->Leaf_0;
                let x = t->Leaf_1;
                let bit = ((elt_hash(x) as nat) / pow2(bs.length as nat)) % 2;
                r == if bit == 1 {
                    Trie::Bin(
                        bs,
                        Box::new(Trie::<X>::Nil(BS { length: (bs.length + 1) as u64, value: bs.value })),
                        Box::new(Trie::Leaf(
                            BS {
                                length: (bs.length + 1) as u64,
                                value: (bs.value + pow2(bs.length as nat)) as u64,
                            },
                            x,
                        )),
                    )
                } else {
                    Trie::Bin(
                        bs,
                        Box::new(Trie::Leaf(
                            BS { length: (bs.length + 1) as u64, value: bs.value },
                            x,
                        )),
                        Box::new(Trie::<X>::Nil(
                            BS {
                                length: (bs.length + 1) as u64,
                                value: (bs.value + pow2(bs.length as nat)) as u64,
                            },
                        )),
                    )
                }
            },
    {
        match t {
            Trie::Leaf(bs, x) => {
                let ghost xg = x;
                let h = crate::keys::my_hash(x.borrow_key());
                let p = pow2_u64(bs.length);
                let bs0 = BS::prepend(0, bs);
                let bs1 = BS::prepend(1, bs);
                proof {
                    vstd::arithmetic::mul::lemma_mul_basics(pow2(bs.length as nat) as int);
                    assert(bs0.value == bs.value);
                    assert(bs1.value == bs.value + pow2(bs.length as nat));
                }
                let res = if (h / p) % 2 == 1 {
                    let lf = Trie::Leaf(bs1, x);
                    let ghost lg = lf;
                    let n0 = Trie::Nil(bs0);
                    let ghost ng = n0;
                    let r1 = Trie::Bin(bs, Box::new(n0), Box::new(lf));
                    proof {
                        assert(r1.elems() == ng.elems().union(lg.elems()));
                        assert(r1.elems() =~= t.elems());
                    }
                    r1
                } else {
                    let lf = Trie::Leaf(bs0, x);
                    let ghost lg = lf;
                    let n1 = Trie::Nil(bs1);
                    let ghost ng = n1;
                    let r0 = Trie::Bin(bs, Box::new(lf), Box::new(n1));
                    proof {
                        assert(r0.elems() == lg.elems().union(ng.elems()));
                        assert(r0.elems() =~= t.elems());
                    }
                    r0
                };
                res
            },
            _ => t,
        }
    }
}

} // verus!
