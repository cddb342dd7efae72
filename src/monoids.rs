use vstd::prelude::*;
use vstd::arithmetic::div_mod::{lemma_add_mod_noop, lemma_mul_mod_noop_right, lemma_mod_bound};
use crate::algebra::{Monoid, Action};
use crate::fenwick_tree::{HasInverse, commutative};

verus! {

/// 2^64: arithmetic on `u64` wraps around this modulus.
pub open spec fn modulus() -> int {
    0x1_0000_0000_0000_0000
}

proof fn lemma_mod_left(x: int, y: int)
    requires
        x >= 0,
        y >= 0,
    ensures
        ((x % modulus()) + y) % modulus() == (x + y) % modulus(),
        (y + (x % modulus())) % modulus() == (y + x) % modulus(),
{
    lemma_add_mod_noop(x, y, modulus());
    lemma_add_mod_noop(x % modulus(), y, modulus());
    lemma_mod_bound(x, modulus());
    lemma_mod_bound(y, modulus());
    assert((x % modulus()) % modulus() == x % modulus()) by {
        lemma_add_mod_noop(x % modulus(), 0, modulus());
    }
    lemma_add_mod_noop(y, x, modulus());
    lemma_add_mod_noop(y, x % modulus(), modulus());
}

proof fn lemma_wrapping_add(x: u64, y: u64)
    ensures
        x.wrapping_add(y) == (x + y) % modulus(),
{
}

proof fn lemma_wrapping_mul(x: u64, y: u64)
    ensures
        x.wrapping_mul(y) == (x * y) % modulus(),
{
}

/// Integers modulo 2^64 under addition.
#[derive(Clone, Copy, Debug, PartialEq, Eq)]
pub struct Sum(pub u64);

impl Monoid for Sum {
    open spec fn identity() -> Self {
        Sum(0)
    }

    open spec fn combine(a: Self, b: Self) -> Self {
        Sum(((a.0 + b.0) % modulus()) as u64)
    }

    proof fn lemma_left_identity(x: Self) {
    }

    proof fn lemma_right_identity(x: Self) {
    }

    proof fn lemma_associative(x: Self, y: Self, z: Self) {
        lemma_mod_left(x.0 + y.0, z.0 as int);
        lemma_mod_left(y.0 + z.0, x.0 as int);
    }

    proof fn lemma_clone_equal(x: Self, y: Self) {
    }

    fn id() -> (r: Self) {
        Sum(0)
    }

    fn op(&self, other: &Self) -> (r: Self) {
        proof {
            lemma_wrapping_add(self.0, other.0);
        }
        Sum(self.0.wrapping_add(other.0))
    }
}

impl HasInverse for Sum {
    open spec fn inverse(x: Self) -> Self {
        Sum(((modulus() - x.0) % modulus()) as u64)
    }

    proof fn lemma_inverse(x: Self) {
    }

    fn inv(&self) -> (r: Self) {
        Sum(0u64.wrapping_sub(self.0))
    }
}

/// Addition modulo 2^64 does not depend on the order of its operands.
pub proof fn lemma_sum_commutative()
    ensures
        commutative::<Sum>(),
{
}

/// `u64` under minimum, with `u64::MAX` as the identity.
#[derive(Clone, Copy, Debug, PartialEq, Eq)]
pub struct Min(pub u64);

impl Monoid for Min {
    open spec fn identity() -> Self {
        Min(u64::MAX)
    }

    open spec fn combine(a: Self, b: Self) -> Self {
        if a.0 <= b.0 {
            a
        } else {
            b
        }
    }

    proof fn lemma_left_identity(x: Self) {
    }

    proof fn lemma_right_identity(x: Self) {
    }

    proof fn lemma_associative(x: Self, y: Self, z: Self) {
    }

    proof fn lemma_clone_equal(x: Self, y: Self) {
    }

    fn id() -> (r: Self) {
        Min(u64::MAX)
    }

    fn op(&self, other: &Self) -> (r: Self) {
        if self.0 <= other.0 {
            *self
        } else {
            *other
        }
    }
}

/// `u64` under maximum, with `0` as the identity.
#[derive(Clone, Copy, Debug, PartialEq, Eq)]
pub struct Max(pub u64);

impl Monoid for Max {
    open spec fn identity() -> Self {
        Max(0)
    }

    open spec fn combine(a: Self, b: Self) -> Self {
        if a.0 >= b.0 {
            a
        } else {
            b
        }
    }

    proof fn lemma_left_identity(x: Self) {
    }

    proof fn lemma_right_identity(x: Self) {
    }

    proof fn lemma_associative(x: Self, y: Self, z: Self) {
    }

    proof fn lemma_clone_equal(x: Self, y: Self) {
    }

    fn id() -> (r: Self) {
        Max(0)
    }

    fn op(&self, other: &Self) -> (r: Self) {
        if self.0 >= other.0 {
            *self
        } else {
            *other
        }
    }
}

/// Pairs of `u64` under the lexicographic minimum, with `(u64::MAX, u64::MAX)` as
/// the identity.
#[derive(Clone, Copy, Debug, PartialEq, Eq)]
pub struct LexMin(pub u64, pub u64);

/// `a` comes no later than `b` in lexicographic order.
pub open spec fn lex_le(a: LexMin, b: LexMin) -> bool {
    a.0 < b.0 || (a.0 == b.0 && a.1 <= b.1)
}

impl Monoid for LexMin {
    open spec fn identity() -> Self {
        LexMin(u64::MAX, u64::MAX)
    }

    open spec fn combine(a: Self, b: Self) -> Self {
        if lex_le(a, b) {
            a
        } else {
            b
        }
    }

    proof fn lemma_left_identity(x: Self) {
    }

    proof fn lemma_right_identity(x: Self) {
    }

    proof fn lemma_associative(x: Self, y: Self, z: Self) {
    }

    proof fn lemma_clone_equal(x: Self, y: Self) {
    }

    fn id() -> (r: Self) {
        LexMin(u64::MAX, u64::MAX)
    }

    fn op(&self, other: &Self) -> (r: Self) {
        if self.0 < other.0 || (self.0 == other.0 && self.1 <= other.1) {
            *self
        } else {
            *other
        }
    }
}

/// The sum of a run of elements together with the run's length, both modulo 2^64.
#[derive(Clone, Copy, Debug, PartialEq, Eq)]
pub struct SumLen {
    pub sum: u64,
    pub len: u64,
}

impl SumLen {
    /// One element of value `x`.
    pub fn single(x: u64) -> (r: Self)
        ensures
            r == (SumLen { sum: x, len: 1 }),
    {
        SumLen { sum: x, len: 1 }
    }
}

impl Monoid for SumLen {
    open spec fn identity() -> Self {
        SumLen { sum: 0, len: 0 }
    }

    open spec fn combine(a: Self, b: Self) -> Self {
        SumLen {
            sum: ((a.sum + b.sum) % modulus()) as u64,
            len: ((a.len + b.len) % modulus()) as u64,
        }
    }

    proof fn lemma_left_identity(x: Self) {
    }

    proof fn lemma_right_identity(x: Self) {
    }

    proof fn lemma_associative(x: Self, y: Self, z: Self) {
        lemma_mod_left(x.sum + y.sum, z.sum as int);
        lemma_mod_left(y.sum + z.sum, x.sum as int);
        lemma_mod_left(x.len + y.len, z.len as int);
        lemma_mod_left(y.len + z.len, x.len as int);
    }

    proof fn lemma_clone_equal(x: Self, y: Self) {
    }

    fn id() -> (r: Self) {
        SumLen { sum: 0, len: 0 }
    }

    fn op(&self, other: &Self) -> (r: Self) {
        proof {
            lemma_wrapping_add(self.sum, other.sum);
            lemma_wrapping_add(self.len, other.len);
        }
        SumLen { sum: self.sum.wrapping_add(other.sum), len: self.len.wrapping_add(other.len) }
    }
}

/// Adds a constant, modulo 2^64, to every element of a run; composes by addition.
#[derive(Clone, Copy, Debug, PartialEq, Eq)]
pub struct Add(pub u64);

impl Monoid for Add {
    open spec fn identity() -> Self {
        Add(0)
    }

    open spec fn combine(a: Self, b: Self) -> Self {
        Add(((a.0 + b.0) % modulus()) as u64)
    }

    proof fn lemma_left_identity(x: Self) {
    }

    proof fn lemma_right_identity(x: Self) {
    }

    proof fn lemma_associative(x: Self, y: Self, z: Self) {
        lemma_mod_left(x.0 + y.0, z.0 as int);
        lemma_mod_left(y.0 + z.0, x.0 as int);
    }

    proof fn lemma_clone_equal(x: Self, y: Self) {
    }

    fn id() -> (r: Self) {
        Add(0)
    }

    fn op(&self, other: &Self) -> (r: Self) {
        proof {
            lemma_wrapping_add(self.0, other.0);
        }
        Add(self.0.wrapping_add(other.0))
    }
}

impl Action<SumLen> for Add {
    open spec fn action(f: Self, s: SumLen) -> SumLen {
        SumLen { sum: ((s.sum + f.0 * s.len) % modulus()) as u64, len: s.len }
    }

    proof fn lemma_identity_action(s: SumLen) {
    }

    proof fn lemma_compose_action(f: Self, g: Self, s: SumLen) {
        let m = modulus();
        let (a, b, x, n) = (f.0 as int, g.0 as int, s.sum as int, s.len as int);
        // ((x + ((a + b) % m) * n) % m) == (((x + b * n) % m) + a * n) % m
        lemma_mul_mod_noop_right(n, a + b, m);
        assert(((a + b) % m) * n == n * ((a + b) % m)) by (nonlinear_arith);
        assert((a + b) * n == n * (a + b)) by (nonlinear_arith);
        assert(n * (a + b) == a * n + b * n) by (nonlinear_arith);
        assert(n * ((a + b) % m) >= 0) by (nonlinear_arith)
            requires
                n >= 0,
                (a + b) % m >= 0,
        ;
        assert(a * n >= 0 && b * n >= 0) by (nonlinear_arith)
            requires
                n >= 0,
                a >= 0,
                b >= 0,
        ;
        lemma_mod_left(n * ((a + b) % m), x);
        lemma_mod_left(n * (a + b), x);
        lemma_mod_left(x + b * n, a * n);
    }

    proof fn lemma_action_distributes(f: Self, a: SumLen, b: SumLen) {
        let m = modulus();
        let (c, sa, sb, la, lb) = (f.0 as int, a.sum as int, b.sum as int, a.len as int, b.len as int);
        lemma_mul_mod_noop_right(c, la + lb, m);
        assert(c * (la + lb) == c * la + c * lb) by (nonlinear_arith);
        assert(c * la >= 0 && c * lb >= 0 && c * ((la + lb) % m) >= 0) by (nonlinear_arith)
            requires
                c >= 0,
                la >= 0,
                lb >= 0,
                (la + lb) % m >= 0,
        ;
        lemma_mod_left(sa + sb, c * ((la + lb) % m));
        lemma_mod_left(c * ((la + lb) % m), sa + sb);
        lemma_mod_left(c * (la + lb), sa + sb);
        lemma_mod_left(sa + c * la, sb + c * lb);
        lemma_mod_left(sb + c * lb, (sa + c * la) % m);
    }

    fn act(&self, s: &SumLen) -> (r: SumLen) {
        proof {
            lemma_wrapping_mul(self.0, s.len);
            lemma_wrapping_add(s.sum, (self.0 * s.len % modulus()) as u64);
            lemma_mod_left(self.0 * s.len, s.sum as int);
            assert(self.0 * s.len >= 0) by (nonlinear_arith);
        }
        SumLen { sum: s.sum.wrapping_add(self.0.wrapping_mul(s.len)), len: s.len }
    }
}

} // verus!
