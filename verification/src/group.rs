//! The target group of the commitment scheme, modelled additively: a
//! group element is carried as a canonical residue, with a distinguished
//! identity element. Curve coordinate representations are outside this
//! library's concern; only identity, equality and the linear structure
//! that `commit` relies on are modelled.

use vstd::prelude::*;
use crate::field::{in_field, Scalar};

verus! {

/// An element of the commitment group.
#[derive(Clone, Copy, PartialEq, Eq, Structural, Debug)]
pub struct GroupElement {
    pub v: u64,
}

impl View for GroupElement {
    type V = int;

    open spec fn view(&self) -> int {
        self.v as int
    }
}

impl GroupElement {
    /// Canonical-form invariant.
    pub open spec fn wf(&self) -> bool {
        in_field(self@)
    }

    /// The group identity.
    pub fn identity() -> (r: GroupElement)
        ensures
            r.wf(),
            r@ == 0,
    {
        GroupElement { v: 0 }
    }

    /// Wraps a scalar residue as a group element.
    pub fn from_scalar(s: &Scalar) -> (r: GroupElement)
        requires
            s.wf(),
        ensures
            r.wf(),
            r@ == s@,
    {
        GroupElement { v: s.v }
    }
}

} // verus!
