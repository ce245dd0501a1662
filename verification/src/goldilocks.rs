//! The Goldilocks field, of modulus `2^64 - 2^32 + 1`.
use vstd::prelude::*;
use vstd::arithmetic::div_mod::*;
use crate::field::{inverts, PrimeField};

verus! {

/// The modulus of the Goldilocks field.
pub const GOLDILOCKS: u64 = 0xffff_ffff_0000_0001;

/// An element of the Goldilocks field, held as its residue.
#[derive(Clone, Copy, Debug, PartialEq, Eq, Structural)]
pub struct Goldilocks {
    value: u64,
}

impl Goldilocks {
    #[verifier::type_invariant]
    spec fn inv(self) -> bool {
        self.value < GOLDILOCKS
    }

    /// The element that `x` stands for.
    pub fn new(x: u64) -> (r: Self)
        ensures
            r.residue() == x as int % GOLDILOCKS as int,
    {
        Goldilocks { value: x % GOLDILOCKS }
    }

    /// The residue of the element.
    pub fn value(&self) -> (r: u64)
        ensures
            r == self.residue(),
    {
        proof {
            use_type_invariant(self);
        }
        self.value
    }
}

/// One step of the extended Euclidean algorithm keeps `s * a` congruent to the
/// remainder that `s` belongs to.
proof fn lemma_euclid_step(a: int, m: int, r0: int, r1: int, s0: int, s1: int, q: int)
    requires
        m > 0,
        (s0 * a) % m == r0 % m,
        (s1 * a) % m == r1 % m,
    ensures
        ((s0 - q * s1) * a) % m == (r0 - q * r1) % m,
{
    assert((s0 - q * s1) * a == s0 * a - q * (s1 * a)) by (nonlinear_arith);
    lemma_mul_mod_noop_right(q, s1 * a, m);
    lemma_mul_mod_noop_right(q, r1, m);
    lemma_sub_mod_noop(s0 * a, q * (s1 * a), m);
    lemma_sub_mod_noop(r0, q * r1, m);
}

/// A number that divides both `a` and the modulus `m` is one wherever `a` has
/// an inverse.
proof fn lemma_common_divisor(a: int, m: int, g: int, u: int, v: int, y: int)
    requires
        m > 1,
        g > 0,
        m == u * g,
        a == v * g,
        inverts(y, a, m),
    ensures
        g == 1,
{
    lemma_fundamental_div_mod(y * a, m);
    let k = (y * a) / m;
    assert(g * (y * v - k * u) == y * (v * g) - (u * g) * k) by (nonlinear_arith);
    let w = y * v - k * u;
    assert(g * w == 1);
    assert(g == 1) by (nonlinear_arith)
        requires
            g > 0,
            g * w == 1,
    ;
}

impl PrimeField for Goldilocks {
    open spec fn modulus() -> int {
        GOLDILOCKS as int
    }

    closed spec fn residue(self) -> int {
        self.value as int % GOLDILOCKS as int
    }

    proof fn residue_bounds(self) {
    }

    fn zero() -> (r: Self) {
        Goldilocks { value: 0 }
    }

    fn one() -> (r: Self) {
        Goldilocks { value: 1 }
    }

    fn plus(self, other: Self) -> (r: Self) {
        let sum: u128 = self.value as u128 + other.value as u128;
        Goldilocks { value: (sum % GOLDILOCKS as u128) as u64 }
    }

    fn minus(self, other: Self) -> (r: Self) {
        proof {
            use_type_invariant(&self);
            use_type_invariant(&other);
        }
        let sum: u128 = self.value as u128 + (GOLDILOCKS - other.value) as u128;
        Goldilocks { value: (sum % GOLDILOCKS as u128) as u64 }
    }

    fn times(self, other: Self) -> (r: Self) {
        proof {
            use_type_invariant(&self);
            use_type_invariant(&other);
            lemma_small_mod(self.value as nat, GOLDILOCKS as nat);
            lemma_small_mod(other.value as nat, GOLDILOCKS as nat);
            assert(self.value as int * other.value as int <= u64::MAX * u64::MAX)
                by (nonlinear_arith)
                requires
                    0 <= self.value as int <= u64::MAX,
                    0 <= other.value as int <= u64::MAX,
            ;
            lemma_mod_twice(self.value as int * other.value as int, GOLDILOCKS as int);
        }
        let product: u128 = self.value as u128 * other.value as u128;
        Goldilocks { value: (product % GOLDILOCKS as u128) as u64 }
    }

    fn from_u64(x: u64) -> (r: Self) {
        Goldilocks { value: x % GOLDILOCKS }
    }

    fn from_i64(x: i64) -> (r: Self) {
        if x >= 0 {
            Goldilocks { value: x as u64 % GOLDILOCKS }
        } else {
            Goldilocks { value: (GOLDILOCKS as i128 + x as i128) as u64 }
        }
    }

    fn half() -> (r: Self) {
        let r = Goldilocks { value: 0x7fff_ffff_8000_0001 };
        proof {
            lemma_fundamental_div_mod_converse(2 * r.value as int, GOLDILOCKS as int, 1, 1);
        }
        r
    }

    fn inverse(self) -> (r: Option<Self>) {
        proof {
            use_type_invariant(&self);
        }
        let ghost m = GOLDILOCKS as int;
        let ghost a = self.value as int;
        let mut r0: u64 = GOLDILOCKS;
        let mut r1: u64 = self.value;
        let mut s0 = Self::zero();
        let mut s1 = Self::one();
        let ghost mut u0: int = 1;
        let ghost mut u1: int = 0;
        let ghost mut v0: int = 0;
        let ghost mut v1: int = 1;
        proof {
            lemma_mod_self_0(m);
            lemma_small_mod(0, m as nat);
            lemma_small_mod(1, m as nat);
        }
        while r1 != 0
            invariant
                m == GOLDILOCKS,
                0 <= a < m,
                r0 > 0,
                (s0.residue() * a) % m == r0 as int % m,
                (s1.residue() * a) % m == r1 as int % m,
                m == u0 * r0 + u1 * r1,
                a == v0 * r0 + v1 * r1,
            decreases r1,
        {
            let q: u64 = r0 / r1;
            let r2: u64 = r0 % r1;
            proof {
                lemma_fundamental_div_mod(r0 as int, r1 as int);
                assert(r1 as int * q as int == q as int * r1 as int) by (nonlinear_arith);
            }
            let s2 = s0.minus(Self::from_u64(q).times(s1));
            proof {
                let t = s0.residue() - q * s1.residue();
                assert(s2.residue() == t % m) by {
                    lemma_mul_mod_noop_left(q as int, s1.residue(), m);
                    lemma_sub_mod_noop_right(s0.residue(), q * s1.residue(), m);
                }
                lemma_euclid_step(a, m, r0 as int, r1 as int, s0.residue(), s1.residue(), q as int);
                lemma_mul_mod_noop_left(t, a, m);
                assert((u0 * q + u1) * r1 + u0 * r2 == u0 * (q * r1 + r2) + u1 * r1)
                    by (nonlinear_arith);
                assert((v0 * q + v1) * r1 + v0 * r2 == v0 * (q * r1 + r2) + v1 * r1)
                    by (nonlinear_arith);
                let u2 = u0 * q + u1;
                let v2 = v0 * q + v1;
                u1 = u0;
                u0 = u2;
                v1 = v0;
                v0 = v2;
            }
            r0 = r1;
            r1 = r2;
            s0 = s1;
            s1 = s2;
        }
        proof {
            assert(u1 * 0 == 0 && v1 * 0 == 0);
            lemma_small_mod(a as nat, m as nat);
        }
        if r0 == 1 {
            proof {
                lemma_small_mod(1, m as nat);
            }
            Some(s0)
        } else {
            proof {
                assert forall|y: int| !inverts(y, a, m) by {
                    if inverts(y, a, m) {
                        lemma_common_divisor(a, m, r0 as int, u0, v0, y);
                    }
                }
            }
            None
        }
    }

    fn is_same(self, other: Self) -> (r: bool) {
        proof {
            use_type_invariant(&self);
            use_type_invariant(&other);
        }
        self.value == other.value
    }
}

} // verus!
