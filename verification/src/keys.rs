use vstd::prelude::*;
use std::collections::hash_map::DefaultHasher;
use std::hash::Hasher;
use vstd::std_specs::hash::DefaultHasherAdditionalSpecFns;
use vstd::bytes::{u64_to_le_bytes, spec_u64_to_le_bytes};

verus! {

/// A value that can serve as a placement key: it feeds a well-defined
/// byte stream to the standard hasher, can be compared, and can be
/// copied without loss. `key_bytes` is the sequence of write calls the
/// key contributes, so the hash of a key is a function of the key alone.
pub trait TrieKey: Sized {
    /// The hasher writes this key contributes, one inner sequence per write.
    spec fn key_bytes(&self) -> Seq<Seq<u8>>;

    /// Feed the key to a hasher.
    fn write_key(&self, hasher: &mut DefaultHasher)
        ensures
            final(hasher)@ == old(hasher)@ + self.key_bytes(),
    ;

    /// Decide equality of two keys.
    fn key_eq(&self, other: &Self) -> (r: bool)
        ensures
            r == (*self == *other),
    ;

    /// Copy the key without loss.
    fn dup(&self) -> (r: Self)
        ensures
            r == *self,
    ;
}

/// The placement hash of a key: what the standard hasher returns after
/// the key's writes.
pub open spec fn key_hash<K: TrieKey>(k: K) -> u64 {
    DefaultHasher::spec_finish(k.key_bytes())
}

/// Hash a key, as a fresh run of the standard hasher over its writes.
pub fn my_hash<K: TrieKey>(obj: &K) -> (h: u64)
    ensures
        h == key_hash(*obj),
{
    let mut hasher = DefaultHasher::new();
    obj.write_key(&mut hasher);
    proof {
        assert(hasher@ =~= obj.key_bytes());
    }
    hasher.finish()
}

/// The writes of `n` back-to-back runs of a key's writes.
pub open spec fn repeat_bytes(b: Seq<Seq<u8>>, n: nat) -> Seq<Seq<u8>>
    decreases n,
{
    if n == 0 {
        Seq::empty()
    } else {
        repeat_bytes(b, (n - 1) as nat) + b
    }
}

/// Hash a key fed to one hasher `n` times over.
pub fn my_hash_n<K: TrieKey>(obj: &K, n: usize) -> (h: u64)
    ensures
        h == DefaultHasher::spec_finish(repeat_bytes(obj.key_bytes(), n as nat)),
{
    let mut hasher = DefaultHasher::new();
    let mut i: usize = 0;
    proof {
        assert(hasher@ =~= repeat_bytes(obj.key_bytes(), 0));
    }
    while i < n
        invariant
            i <= n,
            hasher@ == repeat_bytes(obj.key_bytes(), i as nat),
        decreases n - i,
    {
        obj.write_key(&mut hasher);
        i = i + 1;
    }
    hasher.finish()
}

impl TrieKey for u64 {
    open spec fn key_bytes(&self) -> Seq<Seq<u8>> {
        seq![spec_u64_to_le_bytes(*self)]
    }

    fn write_key(&self, hasher: &mut DefaultHasher) {
        let bytes = u64_to_le_bytes(*self);
        hasher.write(bytes.as_slice());
        proof {
            assert(hasher@ =~= old(hasher)@ + self.key_bytes());
        }
    }

    fn key_eq(&self, other: &Self) -> (r: bool) {
        *self == *other
    }

    fn dup(&self) -> (r: Self) {
        *self
    }
}

impl TrieKey for usize {
    open spec fn key_bytes(&self) -> Seq<Seq<u8>> {
        seq![spec_u64_to_le_bytes(*self as u64)]
    }

    fn write_key(&self, hasher: &mut DefaultHasher) {
        let bytes = u64_to_le_bytes(*self as u64);
        hasher.write(bytes.as_slice());
        proof {
            assert(hasher@ =~= old(hasher)@ + self.key_bytes());
        }
    }

    fn key_eq(&self, other: &Self) -> (r: bool) {
        *self == *other
    }

    fn dup(&self) -> (r: Self) {
        *self
    }
}

impl TrieKey for () {
    open spec fn key_bytes(&self) -> Seq<Seq<u8>> {
        Seq::empty()
    }

    fn write_key(&self, hasher: &mut DefaultHasher) {
        proof {
            assert(hasher@ =~= old(hasher)@ + self.key_bytes());
        }
    }

    fn key_eq(&self, other: &Self) -> (r: bool) {
        true
    }

    fn dup(&self) -> (r: Self) {
    }
}

impl<A: TrieKey, B: TrieKey> TrieKey for (A, B) {
    open spec fn key_bytes(&self) -> Seq<Seq<u8>> {
        self.0.key_bytes() + self.1.key_bytes()
    }

    fn write_key(&self, hasher: &mut DefaultHasher) {
        self.0.write_key(hasher);
        self.1.write_key(hasher);
        proof {
            assert(hasher@ =~= old(hasher)@ + self.key_bytes());
        }
    }

    fn key_eq(&self, other: &Self) -> (r: bool) {
        let r = self.0.key_eq(&other.0) && self.1.key_eq(&other.1);
        proof {
            assert((*self == *other) == (self.0 == other.0 && self.1 == other.1));
        }
        r
    }

    fn dup(&self) -> (r: Self) {
        (self.0.dup(), self.1.dup())
    }
}

/// An element stored in a trie: a value carrying a placement key. For
/// a map entry `(k, v)` the key is `k`; for a set element the key is
/// the element itself.
pub trait TrieElt: Sized {
    type Key: TrieKey;

    /// The placement key of this element.
    spec fn key(&self) -> Self::Key;

    /// Borrow the placement key.
    fn borrow_key<'a>(&'a self) -> (k: &'a Self::Key)
        ensures
            *k == self.key(),
    ;

    /// Copy the element without loss.
    fn dup(&self) -> (r: Self)
        ensures
            r == *self,
    ;

    /// Decide equality of two whole elements.
    fn eq_elt(&self, other: &Self) -> (r: bool)
        ensures
            r == (*self == *other),
    ;
}

/// The placement hash of an element: the hash of its key.
pub open spec fn elt_hash<X: TrieElt>(x: X) -> u64 {
    key_hash(x.key())
}

impl<K: TrieKey, V: TrieKey> TrieElt for (K, V) {
    type Key = K;

    open spec fn key(&self) -> K {
        self.0
    }

    fn borrow_key<'a>(&'a self) -> (k: &'a K) {
        &self.0
    }

    fn dup(&self) -> (r: Self) {
        (self.0.dup(), self.1.dup())
    }

    fn eq_elt(&self, other: &Self) -> (r: bool) {
        let r = self.0.key_eq(&other.0) && self.1.key_eq(&other.1);
        proof {
            assert((*self == *other) == (self.0 == other.0 && self.1 == other.1));
        }
        r
    }
}

impl TrieElt for u64 {
    type Key = u64;

    open spec fn key(&self) -> u64 {
        *self
    }

    fn borrow_key<'a>(&'a self) -> (k: &'a u64) {
        self
    }

    fn dup(&self) -> (r: Self) {
        *self
    }

    fn eq_elt(&self, other: &Self) -> (r: bool) {
        *self == *other
    }
}

impl TrieElt for usize {
    type Key = usize;

    open spec fn key(&self) -> usize {
        *self
    }

    fn borrow_key<'a>(&'a self) -> (k: &'a usize) {
        self
    }

    fn dup(&self) -> (r: Self) {
        *self
    }

    fn eq_elt(&self, other: &Self) -> (r: bool) {
        *self == *other
    }
}

/// Identifies a function by a static symbol, standing in for function
/// pointers where those cannot be hashed or compared themselves.
#[derive(Debug, Hash, PartialEq, Eq, Clone, Copy)]
pub struct ProgPt {
    pub symbol: &'static str,
}

} // verus!
