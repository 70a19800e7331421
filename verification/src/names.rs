use vstd::prelude::*;

verus! {

/// A stable identity attached to a subtree, so that an incremental
/// engine can recognise an unchanged subcomputation across edits and
/// reuse its cached result. Names are plain first-class data here:
/// every way of making one yields a distinct value, which is what a
/// collision-free identity discipline needs.
#[derive(Debug, Hash, PartialEq, Eq)]
pub enum Name {
    Unit,
    OfStr(&'static str),
    OfUsize(usize),
    Pair(Box<Name>, Box<Name>),
    ForkL(Box<Name>),
    ForkR(Box<Name>),
}

impl Clone for Name {
    fn clone(&self) -> (r: Self)
        ensures
            r == *self,
        decreases *self,
    {
        match self {
            Name::Unit => Name::Unit,
            Name::OfStr(s) => Name::OfStr(s),
            Name::OfUsize(u) => Name::OfUsize(*u),
            Name::Pair(a, b) => Name::Pair(Box::new((&**a).clone()), Box::new((&**b).clone())),
            Name::ForkL(a) => Name::ForkL(Box::new((&**a).clone())),
            Name::ForkR(a) => Name::ForkR(Box::new((&**a).clone())),
        }
    }
}

/// The unit name.
pub fn name_unit() -> (n: Name)
    ensures
        n == Name::Unit,
{
    Name::Unit
}

/// A name drawn from a string constant.
pub fn name_of_str(s: &'static str) -> (n: Name)
    ensures
        n == Name::OfStr(s),
{
    Name::OfStr(s)
}

/// A name drawn from a number.
pub fn name_of_usize(u: usize) -> (n: Name)
    ensures
        n == Name::OfUsize(u),
{
    Name::OfUsize(u)
}

/// Combine two names into one.
pub fn name_pair(a: Name, b: Name) -> (n: Name)
    ensures
        n == Name::Pair(Box::new(a), Box::new(b)),
{
    Name::Pair(Box::new(a), Box::new(b))
}

/// Derive two child names from one. The contract pins the results
/// exactly, so forking is deterministic: equal inputs always yield the
/// same two outputs.
pub fn name_fork(n: Name) -> (r: (Name, Name))
    ensures
        r.0 == Name::ForkL(Box::new(n)),
        r.1 == Name::ForkR(Box::new(n)),
{
    let n2 = n.clone();
    (Name::ForkL(Box::new(n)), Name::ForkR(Box::new(n2)))
}

/// Forked names never collide: the two children of a fork differ from
/// each other, and children of distinct parents are themselves
/// distinct, so no two unrelated call sites can produce the same name.
pub proof fn lemma_fork_collision_free(m: Name, n: Name)
    ensures
        Name::ForkL(Box::new(m)) != Name::ForkR(Box::new(n)),
        m != n ==> Name::ForkL(Box::new(m)) != Name::ForkL(Box::new(n)),
        m != n ==> Name::ForkR(Box::new(m)) != Name::ForkR(Box::new(n)),
{
}

} // verus!
