//! Evaluation queries and the identity handles of the polynomials they
//! reference.
//!
//! Queries do not own their polynomials: a query names its polynomial by
//! position in the caller-owned polynomial slice that accompanies one
//! proof construction. That position doubles as the identity token of the
//! commitment handle: two handles compare equal exactly when they name
//! the same polynomial instance, never by comparing coefficients.

use vstd::prelude::*;
use crate::field::Scalar;
use crate::poly::{eval_at, Polynomial};

verus! {

/// A domain-relative offset carried through for caller bookkeeping; the
/// batching arithmetic never reads it.
#[derive(Clone, Copy, PartialEq, Eq, Structural, Debug)]
pub struct Rotation {
    pub offset: i32,
}

/// Identity handle of a polynomial instance: equality is identity of the
/// referenced instance, not equality of coefficient values.
#[derive(Clone, Copy, PartialEq, Eq, Structural, Debug)]
pub struct PolynomialPointer {
    pub index: usize,
}

/// One claimed evaluation: the polynomial at position `poly` of the
/// caller's slice is claimed to take its value at `point`.
#[derive(Clone, Copy, PartialEq, Eq, Structural, Debug)]
pub struct ProverQuery {
    pub poly: usize,
    pub point: Scalar,
    pub rotation: Rotation,
}

impl ProverQuery {
    /// The query is consistent with the accompanying polynomial slice.
    pub open spec fn wf(&self, num_polys: nat) -> bool {
        &&& self.point.wf()
        &&& (self.poly as nat) < num_polys
    }

    /// The point at which the referenced polynomial is claimed to
    /// evaluate.
    pub fn get_point(&self) -> (r: Scalar)
        ensures
            r == self.point,
    {
        self.point
    }

    /// The rotation tag this query was derived from.
    pub fn get_rotation(&self) -> (r: Rotation)
        ensures
            r == self.rotation,
    {
        self.rotation
    }

    /// The claimed evaluation, computed from the referenced polynomial at
    /// `get_point` by Horner evaluation.
    pub fn get_eval(&self, polys: &Vec<Polynomial>) -> (r: Scalar)
        requires
            self.wf(polys@.len()),
            polys@[self.poly as int].wf(),
        ensures
            r.wf(),
            r@ == eval_at(polys@[self.poly as int]@, self.point@),
    {
        polys[self.poly].eval(&self.point)
    }

    /// The identity handle of the referenced polynomial instance.
    pub fn get_commitment(&self) -> (r: PolynomialPointer)
        ensures
            r == self.commitment(),
    {
        PolynomialPointer { index: self.poly }
    }

    /// The handle `get_commitment` returns.
    pub open spec fn commitment(&self) -> PolynomialPointer {
        PolynomialPointer { index: self.poly }
    }
}

/// Commitment handles compare by instance identity alone: two queries
/// report equal handles exactly when they reference the same polynomial
/// position, whatever points they query and whatever coefficients the
/// polynomials hold.
pub proof fn lemma_commitment_handle_identity(a: ProverQuery, b: ProverQuery)
    ensures
        (a.commitment() == b.commitment()) <==> a.poly == b.poly,
{
}

} // verus!
