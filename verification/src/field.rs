//! The prime scalar field underlying the commitment scheme.
//!
//! A `Scalar` is an element of the field of integers modulo `MODULUS`
//! (a Mersenne prime), stored in canonical reduced form. All contracts
//! speak about the mathematical residues through the spec functions
//! `fadd`, `fsub` and `fmul`.

use vstd::prelude::*;
use vstd::arithmetic::div_mod::{
    lemma_add_mod_noop, lemma_mod_bound, lemma_mod_twice, lemma_mul_mod_noop_general,
    lemma_small_mod, lemma_sub_mod_noop,
};

verus! {

/// The field modulus, a prime.
pub const MODULUS: u64 = 2147483647;

/// The modulus as a mathematical integer.
pub open spec fn p() -> int {
    MODULUS as int
}

/// Field addition of residues.
pub open spec fn fadd(a: int, b: int) -> int {
    (a + b) % p()
}

/// Field subtraction of residues.
pub open spec fn fsub(a: int, b: int) -> int {
    (a - b) % p()
}

/// Field multiplication of residues.
pub open spec fn fmul(a: int, b: int) -> int {
    (a * b) % p()
}

/// Whether an integer is a canonical residue.
pub open spec fn in_field(a: int) -> bool {
    0 <= a < p()
}

/// An element of the prime field, kept in canonical reduced form.
#[derive(Clone, Copy, PartialEq, Eq, Structural, Debug)]
pub struct Scalar {
    pub v: u64,
}

impl View for Scalar {
    type V = int;

    open spec fn view(&self) -> int {
        self.v as int
    }
}

impl Scalar {
    /// Canonical-form invariant.
    pub open spec fn wf(&self) -> bool {
        in_field(self@)
    }

    /// The additive identity.
    pub fn zero() -> (r: Scalar)
        ensures
            r.wf(),
            r@ == 0,
    {
        Scalar { v: 0 }
    }

    /// The multiplicative identity.
    pub fn one() -> (r: Scalar)
        ensures
            r.wf(),
            r@ == 1,
    {
        Scalar { v: 1 }
    }

    /// Reduces an arbitrary machine integer into the field.
    pub fn from_u64(x: u64) -> (r: Scalar)
        ensures
            r.wf(),
            r@ == x as int % p(),
    {
        proof {
            lemma_mod_bound(x as int, p());
        }
        Scalar { v: x % MODULUS }
    }

    /// Field addition.
    pub fn add(&self, rhs: &Scalar) -> (r: Scalar)
        requires
            self.wf(),
            rhs.wf(),
        ensures
            r.wf(),
            r@ == fadd(self@, rhs@),
    {
        proof {
            lemma_mod_bound(self@ + rhs@, p());
        }
        Scalar { v: (self.v + rhs.v) % MODULUS }
    }

    /// Field subtraction.
    pub fn sub(&self, rhs: &Scalar) -> (r: Scalar)
        requires
            self.wf(),
            rhs.wf(),
        ensures
            r.wf(),
            r@ == fsub(self@, rhs@),
    {
        proof {
            lemma_mod_bound(self@ + p() - rhs@, p());
            lemma_mod_sum_shift(self@ - rhs@);
        }
        Scalar { v: (self.v + MODULUS - rhs.v) % MODULUS }
    }

    /// Field multiplication.
    pub fn mul(&self, rhs: &Scalar) -> (r: Scalar)
        requires
            self.wf(),
            rhs.wf(),
        ensures
            r.wf(),
            r@ == fmul(self@, rhs@),
    {
        proof {
            assert(self@ * rhs@ < 0x4000000000000000) by (nonlinear_arith)
                requires
                    0 <= self@ < p(),
                    0 <= rhs@ < p(),
            ;
            lemma_mod_bound(self@ * rhs@, p());
        }
        Scalar { v: (self.v * rhs.v) % MODULUS }
    }
}

/// Adding one full period to an integer does not change its residue.
proof fn lemma_mod_sum_shift(x: int)
    ensures
        (x + p()) % p() == x % p(),
{
    lemma_add_mod_noop(x, p(), p());
    vstd::arithmetic::div_mod::lemma_mod_self_0(p());
    lemma_mod_twice(x, p());
}

/// A residue already in canonical form is its own remainder.
pub proof fn lemma_in_field_mod(a: int)
    requires
        in_field(a),
    ensures
        a % p() == a,
{
    lemma_small_mod(a as nat, MODULUS as nat);
}

/// Every field operation yields a canonical residue.
pub proof fn lemma_field_ops_in_field(a: int, b: int)
    ensures
        in_field(fadd(a, b)),
        in_field(fsub(a, b)),
        in_field(fmul(a, b)),
{
    lemma_mod_bound(a + b, p());
    lemma_mod_bound(a - b, p());
    lemma_mod_bound(a * b, p());
}

/// Taking the remainder of a field-operation result again changes nothing.
pub proof fn lemma_fop_mod(a: int, b: int)
    ensures
        fadd(a, b) % p() == fadd(a, b),
        fsub(a, b) % p() == fsub(a, b),
        fmul(a, b) % p() == fmul(a, b),
{
    lemma_mod_twice(a + b, p());
    lemma_mod_twice(a - b, p());
    lemma_mod_twice(a * b, p());
}

/// Addition respects congruence of its operands.
pub proof fn lemma_fadd_cong(a1: int, a2: int, b1: int, b2: int)
    requires
        a1 % p() == a2 % p(),
        b1 % p() == b2 % p(),
    ensures
        fadd(a1, b1) == fadd(a2, b2),
{
    lemma_add_mod_noop(a1, b1, p());
    lemma_add_mod_noop(a2, b2, p());
}

/// Subtraction respects congruence of its operands.
pub proof fn lemma_fsub_cong(a1: int, a2: int, b1: int, b2: int)
    requires
        a1 % p() == a2 % p(),
        b1 % p() == b2 % p(),
    ensures
        fsub(a1, b1) == fsub(a2, b2),
{
    lemma_sub_mod_noop(a1, b1, p());
    lemma_sub_mod_noop(a2, b2, p());
}

/// Subtracting an addend recovers a canonical residue.
pub proof fn lemma_fsub_cancel(a: int, b: int)
    requires
        in_field(a),
    ensures
        fsub(fadd(a, b), b) == a,
{
    lemma_mod_twice(a + b, p());
    lemma_fsub_cong(fadd(a, b), a + b, b, b);
    lemma_in_field_mod(a);
}

/// Rebuilding a residue from its negated addend and the shifted sum.
pub proof fn lemma_fadd_sub_cancel(a: int, b: int)
    requires
        in_field(a),
    ensures
        fadd(fsub(0, b), fadd(a, b)) == a,
{
    lemma_mod_twice(0 - b, p());
    lemma_mod_twice(a + b, p());
    lemma_fadd_cong(fsub(0, b), 0 - b, fadd(a, b), a + b);
    lemma_in_field_mod(a);
}

/// Multiplication respects congruence of its operands.
pub proof fn lemma_fmul_cong(a1: int, a2: int, b1: int, b2: int)
    requires
        a1 % p() == a2 % p(),
        b1 % p() == b2 % p(),
    ensures
        fmul(a1, b1) == fmul(a2, b2),
{
    lemma_mul_mod_noop_general(a1, b1, p());
    lemma_mul_mod_noop_general(a2, b2, p());
}

} // verus!
