use vstd::prelude::*;
use vstd::arithmetic::power2::*;
use vstd::arithmetic::div_mod::*;
use crate::MAX_LEN;

verus! {

broadcast use vstd::arithmetic::power2::lemma_pow2_pos;

/// A trie address: the sequence of branch choices leading from the root
/// down to a node, packed as `length` low-order bits of `value`.
/// Bit `i` of `value` is the branch taken at depth `i`.
#[derive(Clone, Copy, Debug, Hash, PartialEq, Eq, Structural)]
pub struct BS {
    pub length: u64,
    pub value: u64,
}

impl BS {
    /// A path is addressable when it fits in the hash bits the placement
    /// scheme consumes and carries no bits beyond its length.
    pub open spec fn wf(self) -> bool {
        &&& self.length <= MAX_LEN
        &&& (self.value as nat) < pow2(self.length as nat)
    }

    /// The empty path at the top of a trie.
    pub fn zero() -> (bs: BS)
        ensures
            bs.length == 0,
            bs.value == 0,
            bs.wf(),
    {
        proof {
            lemma_pow2_pos(0);
            reveal(pow2);
            reveal(vstd::arithmetic::power::pow);
        }
        BS { length: 0, value: 0 }
    }

    /// Extend a path by one branch choice `b` (0 = left, 1 = right).
    pub fn prepend(b: u64, bs: BS) -> (r: BS)
        requires
            b <= 1,
            bs.wf(),
            bs.length < MAX_LEN,
        ensures
            r.length == bs.length + 1,
            r.value == bs.value + b * pow2(bs.length as nat),
            r.wf(),
    {
        let p = pow2_u64(bs.length);
        proof {
            lemma_pow2_adds(bs.length as nat, 1);
            lemma2_to64();
            lemma_pow2_strictly_increases(bs.length as nat, (bs.length + 1) as nat);
            lemma_pow2_strictly_increases((bs.length + 1) as nat, 64);
        }
        BS { length: bs.length + 1, value: bs.value + b * p }
    }
}

/// Two raised to the power `e`, as a machine word.
pub fn pow2_u64(e: u64) -> (r: u64)
    requires
        e < 64,
    ensures
        r as nat == pow2(e as nat),
{
    let mut r: u64 = 1;
    let mut i: u64 = 0;
    proof {
        lemma_pow2_pos(0);
        reveal(pow2);
        reveal(vstd::arithmetic::power::pow);
    }
    while i < e
        invariant
            i <= e,
            e < 64,
            r as nat == pow2(i as nat),
        decreases e - i,
    {
        proof {
            lemma_pow2_adds(i as nat, 1);
            lemma2_to64();
            lemma_pow2_strictly_increases((i + 1) as nat, 64);
        }
        r = r * 2;
        i = i + 1;
    }
    r
}

/// Splitting a number at bit `d`: the low `d + 1` bits are the low `d`
/// bits plus bit `d` in its place.
pub proof fn lemma_bit_split(h: nat, d: nat)
    ensures
        h % pow2(d + 1) == h % pow2(d) + pow2(d) * ((h / pow2(d)) % 2),
{
    lemma_pow2_pos(d);
    lemma_pow2_adds(d, 1);
    lemma2_to64();
    lemma_mod_breakdown(h as int, pow2(d) as int, 2);
}

/// One descent step: the bit at depth `d` decides whether the low
/// `d + 1` bits extend the path value by nothing or by `pow2(d)`, and
/// dropping that bit divides the remaining hash by two.
#[verifier::rlimit(100)]
pub proof fn lemma_path_step(h: nat, d: nat)
    ensures
        (h / pow2(d)) % 2 == 0 || (h / pow2(d)) % 2 == 1,
        (h / pow2(d)) % 2 == 0 ==> h % pow2(d + 1) == h % pow2(d),
        (h / pow2(d)) % 2 == 1 ==> h % pow2(d + 1) == h % pow2(d) + pow2(d),
        (h / pow2(d)) / 2 == h / pow2(d + 1),
{
    lemma_bit_split(h, d);
    lemma_div_div(h, d);
    let b = (h / pow2(d)) % 2;
    assert(h % pow2(d + 1) == h % pow2(d) + pow2(d) * b);
    if b == 0 {
        assert(pow2(d) * b == 0) by (nonlinear_arith)
            requires
                b == 0,
        ;
        assert(h % pow2(d + 1) == h % pow2(d));
    } else {
        assert(b == 1);
        assert(pow2(d) * b == pow2(d)) by (nonlinear_arith)
            requires
                b == 1,
        ;
        assert(h % pow2(d + 1) == h % pow2(d) + pow2(d));
    }
}

/// Discarding one more low bit is dividing by two once more.
pub proof fn lemma_div_div(h: nat, d: nat)
    ensures
        (h / pow2(d)) / 2 == h / pow2(d + 1),
{
    lemma_pow2_pos(d);
    lemma_pow2_adds(d, 1);
    lemma2_to64();
    lemma_div_denominator(h as int, pow2(d) as int, 2);
}

/// With the low `d` bits already in agreement, two numbers agree on
/// their low `m` bits exactly when the next `m - d` bits agree too.
pub proof fn lemma_trunc_eq_iff(a: nat, b: nat, d: nat, m: nat)
    requires
        d <= m,
        a % pow2(d) == b % pow2(d),
    ensures
        (a % pow2(m) == b % pow2(m)) <==> ((a / pow2(d)) % pow2((m - d) as nat) == (b / pow2(d))
            % pow2((m - d) as nat)),
{
    let e = (m - d) as nat;
    lemma_pow2_pos(d);
    lemma_pow2_pos(e);
    lemma_pow2_adds(d, e);
    lemma_mod_breakdown(a as int, pow2(d) as int, pow2(e) as int);
    lemma_mod_breakdown(b as int, pow2(d) as int, pow2(e) as int);
    assert(pow2(m) == pow2(d) * pow2(e));
    assert(a % (pow2(d) * pow2(e)) == pow2(d) * ((a / pow2(d)) % pow2(e)) + a % pow2(d));
    assert(b % (pow2(d) * pow2(e)) == pow2(d) * ((b / pow2(d)) % pow2(e)) + b % pow2(d));
    assert(a % pow2(m) == a % (pow2(d) * pow2(e)));
    assert(b % pow2(m) == b % (pow2(d) * pow2(e)));
    if a % pow2(m) == b % pow2(m) {
        vstd::arithmetic::mul::lemma_mul_equality_converse(
            pow2(d) as int,
            ((a / pow2(d)) % pow2(e)) as int,
            ((b / pow2(d)) % pow2(e)) as int,
        );
    }
    if (a / pow2(d)) % pow2(e) == (b / pow2(d)) % pow2(e) {
        assert(pow2(d) * ((a / pow2(d)) % pow2(e)) == pow2(d) * ((b / pow2(d)) % pow2(e)));
        assert(a % pow2(m) == b % pow2(m));
    }
}

/// Agreement modulo `pow2(m)` implies agreement modulo any `pow2(d)` with `d <= m`.
pub proof fn lemma_mod_prefix_agree(a: nat, b: nat, d: nat, m: nat)
    requires
        d <= m,
        a % pow2(m) == b % pow2(m),
    ensures
        a % pow2(d) == b % pow2(d),
{
    lemma_pow2_pos(d);
    lemma_pow2_pos((m - d) as nat);
    lemma_pow2_adds(d, (m - d) as nat);
    lemma_mod_mod(a as int, pow2(d) as int, pow2((m - d) as nat) as int);
    lemma_mod_mod(b as int, pow2(d) as int, pow2((m - d) as nat) as int);
}

} // verus!
