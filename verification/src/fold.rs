use vstd::prelude::*;
use crate::Meta;
use crate::bits::BS;
use crate::keys::{TrieKey, TrieElt};
use crate::names::Name;
use crate::trie::{Trie, inserted, fits_set};

verus! {

impl<X: TrieElt> Trie<X> {
    /// The stored elements in left-to-right order.
    pub open spec fn leaves(self) -> Seq<X>
        decreases self,
    {
        match self {
            Trie::Nil(_) => Seq::empty(),
            Trie::Leaf(_, x) => seq![x],
            Trie::Bin(_, l, r) => (*l).leaves() + (*r).leaves(),
            Trie::Root(_, t) => (*t).leaves(),
            Trie::Name(_, t) => (*t).leaves(),
            Trie::Art(a) => (*a).leaves(),
        }
    }
}

/// `out` is a possible result of running `f` over the elements of
/// `s` in order, starting from `init`.
pub open spec fn folds<X, Res, F: Fn(X, Res) -> Res>(f: F, s: Seq<X>, init: Res, out: Res) -> bool
    decreases s.len(),
{
    if s.len() == 0 {
        out == init
    } else {
        exists|mid: Res|
            #[trigger] call_ensures(f, (s[0], init), mid) && folds(f, s.skip(1), mid, out)
    }
}

/// Runs of `f` over two stretches chain into a run over their
/// concatenation.
pub proof fn lemma_folds_concat<X, Res, F: Fn(X, Res) -> Res>(
    f: F,
    s1: Seq<X>,
    s2: Seq<X>,
    a: Res,
    m: Res,
    b: Res,
)
    requires
        folds(f, s1, a, m),
        folds(f, s2, m, b),
    ensures
        folds(f, s1 + s2, a, b),
    decreases s1.len(),
{
    if s1.len() == 0 {
        assert(s1 + s2 =~= s2);
    } else {
        let mid = choose|mid: Res|
            #[trigger] call_ensures(f, (s1[0], a), mid) && folds(f, s1.skip(1), mid, m);
        lemma_folds_concat(f, s1.skip(1), s2, mid, m, b);
        assert(s1.skip(1) + s2 =~= (s1 + s2).skip(1));
        assert((s1 + s2)[0] == s1[0]);
    }
}

/// Reduce the trie to one value: visit every stored element once, in
/// order, threading the accumulator through `f`. Names, articulations
/// and the root are transparent.
pub fn trie_fold<X: TrieElt, Res, F: Fn(X, Res) -> Res>(t: &Trie<X>, res: Res, f: &F) -> (out:
    Res)
    requires
        forall|x: X, acc: Res| #[trigger] call_requires(*f, (x, acc)),
    ensures
        folds(*f, t.leaves(), res, out),
    decreases *t,
{
    match t {
        Trie::Nil(_) => {
            proof {
                assert(t.leaves() =~= Seq::<X>::empty());
            }
            res
        },
        Trie::Leaf(_, x) => {
            let ghost init = res;
            let out = f(x.dup(), res);
            proof {
                assert(t.leaves() == seq![*x]);
                assert(t.leaves().skip(1) =~= Seq::<X>::empty());
                assert(call_ensures(*f, (t.leaves()[0], init), out));
                assert(folds(*f, t.leaves().skip(1), out, out));
            }
            out
        },
        Trie::Bin(_, l, r) => {
            let mid = trie_fold(&**l, res, f);
            let out = trie_fold(&**r, mid, f);
            proof {
                lemma_folds_concat(*f, (**l).leaves(), (**r).leaves(), res, mid, out);
                assert(t.leaves() == (**l).leaves() + (**r).leaves());
            }
            out
        },
        Trie::Root(_, inner) => {
            let out = trie_fold(&**inner, res, f);
            proof {
                assert(t.leaves() == (**inner).leaves());
            }
            out
        },
        Trie::Name(_, inner) => {
            let out = trie_fold(&**inner, res, f);
            proof {
                assert(t.leaves() == (**inner).leaves());
            }
            out
        },
        Trie::Art(a) => {
            let out = trie_fold(&**a, res, f);
            proof {
                assert(t.leaves() == (**a).leaves());
            }
            out
        },
    }
}


/// Gather the elements below `t`, in order, onto the end of `v`.
fn collect_into<X: TrieElt>(t: &Trie<X>, v: &mut Vec<X>)
    ensures
        final(v)@ == old(v)@ + t.leaves(),
    decreases *t,
{
    match t {
        Trie::Nil(_) => {
            proof {
                assert(old(v)@ + t.leaves() =~= old(v)@);
            }
        },
        Trie::Leaf(_, x) => {
            v.push(x.dup());
            proof {
                assert(v@ =~= old(v)@ + t.leaves());
            }
        },
        Trie::Bin(_, l, r) => {
            collect_into(&**l, v);
            collect_into(&**r, v);
            proof {
                assert(v@ =~= old(v)@ + t.leaves());
            }
        },
        Trie::Root(_, inner) => {
            collect_into(&**inner, v);
            proof {
                assert(t.leaves() == (**inner).leaves());
            }
        },
        Trie::Name(_, inner) => {
            collect_into(&**inner, v);
            proof {
                assert(t.leaves() == (**inner).leaves());
            }
        },
        Trie::Art(a) => {
            collect_into(&**a, v);
            proof {
                assert(t.leaves() == (**a).leaves());
            }
        },
    }
}

/// The stored elements as one flat list, in left-to-right order.
pub fn list_of_trie<X: TrieElt>(t: &Trie<X>) -> (v: Vec<X>)
    ensures
        v@ == t.leaves(),
{
    let mut v: Vec<X> = Vec::new();
    collect_into(t, &mut v);
    proof {
        assert(v@ =~= t.leaves());
    }
    v
}

/// The keys of a set as one flat list, in left-to-right order.
pub fn list_of_trieset<K: TrieKey>(set: &Trie<(K, ())>) -> (v: Vec<K>)
    ensures
        v@ == set.leaves().map_values(|y: (K, ())| y.0),
{
    let entries = list_of_trie(set);
    let mut v: Vec<K> = Vec::new();
    let mut i: usize = 0;
    while i < entries.len()
        invariant
            i <= entries.len(),
            entries@ == set.leaves(),
            v@ == entries@.take(i as int).map_values(|y: (K, ())| y.0),
        decreases entries.len() - i,
    {
        let (k, _) = &entries[i];
        v.push(k.dup());
        proof {
            assert(entries@.take(i + 1 as int).drop_last() =~= entries@.take(i as int));
            assert(entries@.take(i + 1 as int).map_values(|y: (K, ())| y.0) =~= entries@.take(
                i as int,
            ).map_values(|y: (K, ())| y.0).push(entries@[i as int].0));
        }
        i = i + 1;
    }
    proof {
        assert(entries@.take(entries@.len() as int) =~= entries@);
    }
    v
}

/// The set over which additions in `q`, oldest first, have run.
pub open spec fn inserted_all<X: TrieElt>(s: Set<X>, q: Seq<X>) -> Set<X>
    decreases q.len(),
{
    if q.len() == 0 {
        s
    } else {
        inserted(inserted_all(s, q.drop_last()), q.last())
    }
}

/// Whether every addition in `q`, run oldest first over `s`, finds
/// free hash bits.
pub open spec fn all_fit<X: TrieElt>(s: Set<X>, q: Seq<X>) -> bool
    decreases q.len(),
{
    if q.len() == 0 {
        true
    } else {
        all_fit(s, q.drop_last()) && fits_set(inserted_all(s, q.drop_last()), q.last())
    }
}

/// Build a trie from a list of elements, adding them in order into a
/// fresh trie with one forced branch level.
pub fn trie_of_list<X: TrieElt>(v: Vec<X>) -> (t: Trie<X>)
    ensures
        t.entry_wf(),
        t.meta_of() == (Meta { min_depth: 1 }),
        all_fit(Set::<X>::empty(), v@) ==> t.elems() == inserted_all(Set::<X>::empty(), v@),
{
    let mut t: Trie<X> = Trie::empty(Meta { min_depth: 1 });
    let mut i: usize = 0;
    let ghost q = v@;
    let mut rest = v;
    while i < rest.len()
        invariant
            i <= rest.len(),
            rest@ == q,
            t.entry_wf(),
            t.meta_of() == (Meta { min_depth: 1 }),
            all_fit(Set::<X>::empty(), q.take(i as int)) ==> t.elems() == inserted_all(
                Set::<X>::empty(),
                q.take(i as int),
            ),
        decreases rest.len() - i,
    {
        let x = rest[i].dup();
        let ghost tg = t;
        t = Trie::extend(crate::names::name_unit(), t, x);
        proof {
            assert(q.take(i + 1 as int).drop_last() =~= q.take(i as int));
            assert(q.take(i + 1 as int).last() == q[i as int]);
        }
        i = i + 1;
    }
    proof {
        assert(q.take(q.len() as int) =~= q);
    }
    t
}


/// `out` is a possible result of the ordered reduction of `t`: leaves
/// feed `leaf`, the gap between a branch's sides feeds `bin`, and the
/// result under a named node feeds `name` with that node's identity.
pub open spec fn seq_folds<X, Res, FL: Fn(X, Res) -> Res, FB: Fn(Res) -> Res, FN: Fn(
    Name,
    Res,
) -> Res>(t: Trie<X>, leaf: FL, bin: FB, name: FN, init: Res, out: Res) -> bool
    decreases t,
{
    match t {
        Trie::Nil(_) => out == init,
        Trie::Leaf(_, x) => call_ensures(leaf, (x, init), out),
        Trie::Bin(_, l, r) => exists|m1: Res, m2: Res|
            seq_folds(*l, leaf, bin, name, init, m1) && #[trigger] call_ensures(bin, (m1,), m2)
                && seq_folds(*r, leaf, bin, name, m2, out),
        Trie::Root(_, inner) => seq_folds(*inner, leaf, bin, name, init, out),
        Trie::Name(n, inner) => exists|m: Res|
            seq_folds(*inner, leaf, bin, name, init, m) && #[trigger] call_ensures(
                name,
                (n, m),
                out,
            ),
        Trie::Art(a) => seq_folds(*a, leaf, bin, name, init, out),
    }
}

/// Reduce the trie strictly left to right, with explicit hooks at
/// branches and at named nodes.
pub fn trie_fold_seq<X: TrieElt, Res, FL: Fn(X, Res) -> Res, FB: Fn(Res) -> Res, FN: Fn(
    Name,
    Res,
) -> Res>(t: &Trie<X>, res: Res, leaf: &FL, bin: &FB, name: &FN) -> (out: Res)
    requires
        forall|x: X, acc: Res| #[trigger] call_requires(*leaf, (x, acc)),
        forall|acc: Res| #[trigger] call_requires(*bin, (acc,)),
        forall|n: Name, acc: Res| #[trigger] call_requires(*name, (n, acc)),
    ensures
        seq_folds(*t, *leaf, *bin, *name, res, out),
    decreases *t,
{
    match t {
        Trie::Nil(_) => res,
        Trie::Leaf(_, x) => leaf(x.dup(), res),
        Trie::Bin(_, l, r) => {
            let ghost init = res;
            let m1 = trie_fold_seq(&**l, res, leaf, bin, name);
            let m2 = bin(m1);
            let out = trie_fold_seq(&**r, m2, leaf, bin, name);
            proof {
                assert(seq_folds(**l, *leaf, *bin, *name, init, m1) && call_ensures(
                    *bin,
                    (m1,),
                    m2,
                ) && seq_folds(**r, *leaf, *bin, *name, m2, out));
            }
            out
        },
        Trie::Root(_, inner) => trie_fold_seq(&**inner, res, leaf, bin, name),
        Trie::Name(n, inner) => {
            let ghost init = res;
            let m = trie_fold_seq(&**inner, res, leaf, bin, name);
            let out = name(n.clone(), m);
            proof {
                assert(seq_folds(**inner, *leaf, *bin, *name, init, m) && call_ensures(
                    *name,
                    (*n, m),
                    out,
                ));
            }
            out
        },
        Trie::Art(a) => trie_fold_seq(&**a, res, leaf, bin, name),
    }
}

/// As `seq_folds`, but the leaf hook also receives the identity of
/// the nearest enclosing named node, if any.
pub open spec fn seq_folds_nm<X, Res, FL: Fn(Option<Name>, X, Res) -> Res, FB: Fn(
    Res,
) -> Res, FN: Fn(Name, Res) -> Res>(
    t: Trie<X>,
    ctx: Option<Name>,
    leaf: FL,
    bin: FB,
    name: FN,
    init: Res,
    out: Res,
) -> bool
    decreases t,
{
    match t {
        Trie::Nil(_) => out == init,
        Trie::Leaf(_, x) => call_ensures(leaf, (ctx, x, init), out),
        Trie::Bin(_, l, r) => exists|m1: Res, m2: Res|
            seq_folds_nm(*l, ctx, leaf, bin, name, init, m1) && #[trigger] call_ensures(
                bin,
                (m1,),
                m2,
            ) && seq_folds_nm(*r, ctx, leaf, bin, name, m2, out),
        Trie::Root(_, inner) => seq_folds_nm(*inner, ctx, leaf, bin, name, init, out),
        Trie::Name(n, inner) => exists|m: Res|
            seq_folds_nm(*inner, Some(n), leaf, bin, name, init, m) && #[trigger] call_ensures(
                name,
                (n, m),
                out,
            ),
        Trie::Art(a) => seq_folds_nm(*a, ctx, leaf, bin, name, init, out),
    }
}

/// Reduce the trie left to right while threading the identity of the
/// nearest enclosing named node down to each leaf.
pub fn trie_fold_seq_nm<X: TrieElt, Res, FL: Fn(Option<Name>, X, Res) -> Res, FB: Fn(
    Res,
) -> Res, FN: Fn(Name, Res) -> Res>(
    t: &Trie<X>,
    res: Res,
    nm: Option<Name>,
    leaf: &FL,
    bin: &FB,
    name: &FN,
) -> (out: Res)
    requires
        forall|c: Option<Name>, x: X, acc: Res| #[trigger] call_requires(*leaf, (c, x, acc)),
        forall|acc: Res| #[trigger] call_requires(*bin, (acc,)),
        forall|n: Name, acc: Res| #[trigger] call_requires(*name, (n, acc)),
    ensures
        seq_folds_nm(*t, nm, *leaf, *bin, *name, res, out),
    decreases *t,
{
    match t {
        Trie::Nil(_) => res,
        Trie::Leaf(_, x) => leaf(nm, x.dup(), res),
        Trie::Bin(_, l, r) => {
            let ghost init = res;
            let ghost ctx = nm;
            let nm2 = clone_opt_name(&nm);
            let m1 = trie_fold_seq_nm(&**l, res, nm2, leaf, bin, name);
            let m2 = bin(m1);
            let out = trie_fold_seq_nm(&**r, m2, nm, leaf, bin, name);
            proof {
                assert(seq_folds_nm(**l, ctx, *leaf, *bin, *name, init, m1) && call_ensures(
                    *bin,
                    (m1,),
                    m2,
                ) && seq_folds_nm(**r, ctx, *leaf, *bin, *name, m2, out));
            }
            out
        },
        Trie::Root(_, inner) => trie_fold_seq_nm(&**inner, res, nm, leaf, bin, name),
        Trie::Name(n, inner) => {
            let ghost init = res;
            let m = trie_fold_seq_nm(&**inner, res, Some(n.clone()), leaf, bin, name);
            let out = name(n.clone(), m);
            proof {
                assert(seq_folds_nm(**inner, Some(*n), *leaf, *bin, *name, init, m)
                    && call_ensures(*name, (*n, m), out));
            }
            out
        },
        Trie::Art(a) => trie_fold_seq_nm(&**a, res, nm, leaf, bin, name),
    }
}

/// Copy an optional name.
fn clone_opt_name(nm: &Option<Name>) -> (r: Option<Name>)
    ensures
        r == *nm,
{
    match nm {
        Some(n) => Some(n.clone()),
        None => None,
    }
}


/// `out` is a possible result of rebuilding `t` bottom up, one hook
/// per structural case; articulations are forced silently.
pub open spec fn up_folds<X, Res, FNil: Fn(BS) -> Res, FLeaf: Fn(BS, X) -> Res, FBin: Fn(
    BS,
    Res,
    Res,
) -> Res, FRoot: Fn(Meta, Res) -> Res, FName: Fn(Name, Res) -> Res>(
    t: Trie<X>,
    nil: FNil,
    leaf: FLeaf,
    bin: FBin,
    root: FRoot,
    name: FName,
    out: Res,
) -> bool
    decreases t,
{
    match t {
        Trie::Nil(bs) => call_ensures(nil, (bs,), out),
        Trie::Leaf(bs, x) => call_ensures(leaf, (bs, x), out),
        Trie::Bin(bs, l, r) => exists|r1: Res, r2: Res|
            up_folds(*l, nil, leaf, bin, root, name, r1) && up_folds(
                *r,
                nil,
                leaf,
                bin,
                root,
                name,
                r2,
            ) && #[trigger] call_ensures(bin, (bs, r1, r2), out),
        Trie::Root(m, inner) => exists|r1: Res|
            up_folds(*inner, nil, leaf, bin, root, name, r1) && #[trigger] call_ensures(
                root,
                (m, r1),
                out,
            ),
        Trie::Name(n, inner) => exists|r1: Res|
            up_folds(*inner, nil, leaf, bin, root, name, r1) && #[trigger] call_ensures(
                name,
                (n, r1),
                out,
            ),
        Trie::Art(a) => up_folds(*a, nil, leaf, bin, root, name, out),
    }
}

/// Rebuild the trie bottom up: each structural case is handed to its
/// hook, and articulations are forced without a trace.
pub fn trie_fold_up<X: TrieElt, Res, FNil: Fn(BS) -> Res, FLeaf: Fn(BS, X) -> Res, FBin: Fn(
    BS,
    Res,
    Res,
) -> Res, FRoot: Fn(Meta, Res) -> Res, FName: Fn(Name, Res) -> Res>(
    t: &Trie<X>,
    nil: &FNil,
    leaf: &FLeaf,
    bin: &FBin,
    root: &FRoot,
    name: &FName,
) -> (out: Res)
    requires
        forall|bs: BS| #[trigger] call_requires(*nil, (bs,)),
        forall|bs: BS, x: X| #[trigger] call_requires(*leaf, (bs, x)),
        forall|bs: BS, r1: Res, r2: Res| #[trigger] call_requires(*bin, (bs, r1, r2)),
        forall|m: Meta, r1: Res| #[trigger] call_requires(*root, (m, r1)),
        forall|n: Name, r1: Res| #[trigger] call_requires(*name, (n, r1)),
    ensures
        up_folds(*t, *nil, *leaf, *bin, *root, *name, out),
    decreases *t,
{
    match t {
        Trie::Nil(bs) => nil(*bs),
        Trie::Leaf(bs, x) => leaf(*bs, x.dup()),
        Trie::Bin(bs, l, r) => {
            let r1 = trie_fold_up(&**l, nil, leaf, bin, root, name);
            let r2 = trie_fold_up(&**r, nil, leaf, bin, root, name);
            let out = bin(*bs, r1, r2);
            proof {
                assert(up_folds(**l, *nil, *leaf, *bin, *root, *name, r1) && up_folds(
                    **r,
                    *nil,
                    *leaf,
                    *bin,
                    *root,
                    *name,
                    r2,
                ) && call_ensures(*bin, (*bs, r1, r2), out));
            }
            out
        },
        Trie::Root(m, inner) => {
            let r1 = trie_fold_up(&**inner, nil, leaf, bin, root, name);
            let out = root(*m, r1);
            proof {
                assert(up_folds(**inner, *nil, *leaf, *bin, *root, *name, r1) && call_ensures(
                    *root,
                    (*m, r1),
                    out,
                ));
            }
            out
        },
        Trie::Name(n, inner) => {
            let r1 = trie_fold_up(&**inner, nil, leaf, bin, root, name);
            let out = name(n.clone(), r1);
            proof {
                assert(up_folds(**inner, *nil, *leaf, *bin, *root, *name, r1) && call_ensures(
                    *name,
                    (*n, r1),
                    out,
                ));
            }
            out
        },
        Trie::Art(a) => trie_fold_up(&**a, nil, leaf, bin, root, name),
    }
}


impl<X: TrieElt> Trie<X> {
    /// The same trie with every articulation replaced by the value it
    /// holds; names and structure are kept.
    pub open spec fn unart(self) -> Trie<X>
        decreases self,
    {
        match self {
            Trie::Nil(bs) => Trie::Nil(bs),
            Trie::Leaf(bs, x) => Trie::Leaf(bs, x),
            Trie::Bin(bs, l, r) => Trie::Bin(
                bs,
                Box::new((*l).unart()),
                Box::new((*r).unart()),
            ),
            Trie::Root(m, t) => Trie::Root(m, Box::new((*t).unart())),
            Trie::Name(n, t) => Trie::Name(n, Box::new((*t).unart())),
            Trie::Art(a) => (*a).unart(),
        }
    }

    /// No articulation occurs anywhere in the trie.
    pub open spec fn no_arts(self) -> bool
        decreases self,
    {
        match self {
            Trie::Nil(_) => true,
            Trie::Leaf(_, _) => true,
            Trie::Bin(_, l, r) => (*l).no_arts() && (*r).no_arts(),
            Trie::Root(_, t) => (*t).no_arts(),
            Trie::Name(_, t) => (*t).no_arts(),
            Trie::Art(_) => false,
        }
    }
}

/// Forcing articulations away changes neither the bare structure nor
/// the elements, and leaves no articulation behind.
pub proof fn lemma_unart_preserves<X: TrieElt>(t: &Trie<X>)
    ensures
        t.unart().strip() == t.strip(),
        t.unart().no_arts(),
        t.unart().elems() == t.elems(),
    decreases *t,
{
    match t {
        Trie::Bin(_, l, r) => {
            lemma_unart_preserves(&**l);
            lemma_unart_preserves(&**r);
            assert(t.unart().elems() =~= t.elems());
        },
        Trie::Root(_, inner) => {
            lemma_unart_preserves(&**inner);
        },
        Trie::Name(_, inner) => {
            lemma_unart_preserves(&**inner);
        },
        Trie::Art(a) => {
            lemma_unart_preserves(&**a);
        },
        _ => {},
    }
}

/// A bottom-up rebuild whose hooks are exactly the bare constructors
/// yields exactly the de-articulated trie.
pub proof fn lemma_up_folds_rebuild<X: TrieElt, FNil: Fn(BS) -> Trie<X>, FLeaf: Fn(
    BS,
    X,
) -> Trie<X>, FBin: Fn(BS, Trie<X>, Trie<X>) -> Trie<X>, FRoot: Fn(Meta, Trie<X>) -> Trie<
    X>, FName: Fn(Name, Trie<X>) -> Trie<X>>(
    t: &Trie<X>,
    nil: FNil,
    leaf: FLeaf,
    bin: FBin,
    root: FRoot,
    name: FName,
    out: Trie<X>,
)
    requires
        forall|bs: BS, o: Trie<X>| #[trigger] call_ensures(nil, (bs,), o) ==> o == Trie::<X>::Nil(
            bs,
        ),
        forall|bs: BS, x: X, o: Trie<X>| #[trigger] call_ensures(leaf, (bs, x), o) ==> o
            == Trie::<X>::Leaf(bs, x),
        forall|bs: BS, r1: Trie<X>, r2: Trie<X>, o: Trie<X>| #[trigger] call_ensures(
            bin,
            (bs, r1, r2),
            o,
        ) ==> o == Trie::<X>::Bin(bs, Box::new(r1), Box::new(r2)),
        forall|m: Meta, r1: Trie<X>, o: Trie<X>| #[trigger] call_ensures(root, (m, r1), o) ==> o
            == Trie::<X>::Root(m, Box::new(r1)),
        forall|n: Name, r1: Trie<X>, o: Trie<X>| #[trigger] call_ensures(name, (n, r1), o) ==> o
            == Trie::<X>::Name(n, Box::new(r1)),
        up_folds(*t, nil, leaf, bin, root, name, out),
    ensures
        out == t.unart(),
    decreases *t,
{
    match t {
        Trie::Bin(_, l, r) => {
            let (r1, r2) = choose|r1: Trie<X>, r2: Trie<X>|
                up_folds(**l, nil, leaf, bin, root, name, r1) && up_folds(
                    **r,
                    nil,
                    leaf,
                    bin,
                    root,
                    name,
                    r2,
                ) && #[trigger] call_ensures(bin, (top_path(t), r1, r2), out);
            lemma_up_folds_rebuild(&**l, nil, leaf, bin, root, name, r1);
            lemma_up_folds_rebuild(&**r, nil, leaf, bin, root, name, r2);
        },
        Trie::Root(m, inner) => {
            let r1 = choose|r1: Trie<X>|
                up_folds(**inner, nil, leaf, bin, root, name, r1) && #[trigger] call_ensures(
                    root,
                    (*m, r1),
                    out,
                );
            lemma_up_folds_rebuild(&**inner, nil, leaf, bin, root, name, r1);
        },
        Trie::Name(n, inner) => {
            let r1 = choose|r1: Trie<X>|
                up_folds(**inner, nil, leaf, bin, root, name, r1) && #[trigger] call_ensures(
                    name,
                    (*n, r1),
                    out,
                );
            lemma_up_folds_rebuild(&**inner, nil, leaf, bin, root, name, r1);
        },
        Trie::Art(a) => {
            lemma_up_folds_rebuild(&**a, nil, leaf, bin, root, name, out);
        },
        _ => {},
    }
}

/// The path stored at a structural node.
pub open spec fn top_path<X: TrieElt>(t: &Trie<X>) -> BS {
    match *t {
        Trie::Nil(bs) => bs,
        Trie::Leaf(bs, _) => bs,
        Trie::Bin(bs, _, _) => bs,
        _ => vstd::pervasive::arbitrary(),
    }
}

/// A copy of the trie with the same structure but no articulations:
/// caching never changes what a trie holds, so the copy strips to the
/// same bare structure and carries the same elements. Useful for
/// comparing tries produced under different caching strategies.
pub fn eager_trie_of_trie<X: TrieElt>(t: &Trie<X>) -> (r: Trie<X>)
    ensures
        r == t.unart(),
        r.strip() == t.strip(),
        r.no_arts(),
        r.elems() == t.elems(),
{
    let nil_c = |bs: BS| -> (o: Trie<X>)
        ensures
            o == Trie::<X>::Nil(bs),
        { Trie::Nil(bs) };
    let leaf_c = |bs: BS, x: X| -> (o: Trie<X>)
        ensures
            o == Trie::<X>::Leaf(bs, x),
        { Trie::Leaf(bs, x) };
    let bin_c = |bs: BS, r1: Trie<X>, r2: Trie<X>| -> (o: Trie<X>)
        ensures
            o == Trie::<X>::Bin(bs, Box::new(r1), Box::new(r2)),
        { Trie::Bin(bs, Box::new(r1), Box::new(r2)) };
    let root_c = |m: Meta, r1: Trie<X>| -> (o: Trie<X>)
        ensures
            o == Trie::<X>::Root(m, Box::new(r1)),
        { Trie::Root(m, Box::new(r1)) };
    let name_c = |n: Name, r1: Trie<X>| -> (o: Trie<X>)
        ensures
            o == Trie::<X>::Name(n, Box::new(r1)),
        { Trie::Name(n, Box::new(r1)) };
    let r = trie_fold_up(t, &nil_c, &leaf_c, &bin_c, &root_c, &name_c);
    proof {
        lemma_up_folds_rebuild(t, nil_c, leaf_c, bin_c, root_c, name_c, r);
        lemma_unart_preserves(t);
    }
    r
}


} // verus!
