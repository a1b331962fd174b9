//! The commitment-scheme handle: the domain size `n` and the commitment
//! operation, a multi-scalar combination of the coefficients against the
//! scheme's fixed bases.

use vstd::prelude::*;
use crate::field::{fadd, fmul, Scalar};
use crate::group::GroupElement;
use crate::poly::Polynomial;

verus! {

/// The multi-scalar combination of coefficients `c` against bases `b`.
pub open spec fn msm(c: Seq<int>, b: Seq<int>) -> int
    decreases c.len(),
{
    if c.len() == 0 {
        0
    } else {
        fadd(
            fmul(c[0], b[0]),
            msm(c.subrange(1, c.len() as int), b.subrange(1, b.len() as int)),
        )
    }
}

/// One step of the combination over aligned subranges.
pub proof fn lemma_msm_step(c: Seq<int>, b: Seq<int>, j: int)
    requires
        0 <= j < c.len(),
        c.len() <= b.len(),
    ensures
        msm(c.subrange(j, c.len() as int), b.subrange(j, b.len() as int)) == fadd(
            fmul(c[j], b[j]),
            msm(c.subrange(j + 1, c.len() as int), b.subrange(j + 1, b.len() as int)),
        ),
{
    let cn = c.len() as int;
    let bn = b.len() as int;
    let s = c.subrange(j, cn);
    let t = b.subrange(j, bn);
    assert(s.len() > 0);
    assert(s[0] == c[j]);
    assert(t[0] == b[j]);
    assert(s.subrange(1, s.len() as int) =~= c.subrange(j + 1, cn));
    assert(t.subrange(1, t.len() as int) =~= b.subrange(j + 1, bn));
}

/// The commitment scheme's parameters: the domain size and one fixed
/// base per coefficient slot.
#[derive(Clone, Debug)]
pub struct Params {
    pub n: usize,
    pub bases: Vec<Scalar>,
}

impl Params {
    /// The bases cover the domain and are canonical residues.
    pub open spec fn wf(&self) -> bool {
        &&& self.bases@.len() == self.n as int
        &&& forall|i: int| 0 <= i < self.bases@.len() ==> (#[trigger] self.bases@[i]).wf()
    }

    /// The sequence of base residues.
    pub open spec fn bases_view(&self) -> Seq<int> {
        self.bases@.map_values(|s: Scalar| s@)
    }

    /// Builds parameters from explicit bases; the domain size is the
    /// number of bases.
    pub fn from_bases(bases: Vec<Scalar>) -> (r: Params)
        requires
            forall|i: int| 0 <= i < bases@.len() ==> (#[trigger] bases@[i]).wf(),
        ensures
            r.wf(),
            r.n as int == bases@.len(),
            r.bases_view() =~= bases@.map_values(|s: Scalar| s@),
    {
        let n = bases.len();
        Params { n, bases }
    }

    /// Commits to a polynomial: the multi-scalar combination of its
    /// coefficients against the scheme's bases.
    pub fn commit(&self, poly: &Polynomial) -> (r: GroupElement)
        requires
            self.wf(),
            poly.wf(),
            poly@.len() <= self.n as int,
        ensures
            r.wf(),
            r@ == msm(poly@, self.bases_view()),
    {
        let ghost c = poly@;
        let ghost b = self.bases_view();
        let m = poly.coeffs.len();
        let mut acc = Scalar::zero();
        let mut i: usize = m;
        proof {
            assert(c.subrange(m as int, m as int).len() == 0);
        }
        while i > 0
            invariant
                i <= m,
                m == c.len(),
                c == poly@,
                b == self.bases_view(),
                c.len() <= b.len(),
                self.wf(),
                poly.wf(),
                acc.wf(),
                acc@ == msm(c.subrange(i as int, m as int), b.subrange(i as int, b.len() as int)),
            decreases i,
        {
            i = i - 1;
            proof {
                assert(poly.coeffs@[i as int]@ == c[i as int]);
                assert(self.bases@[i as int]@ == b[i as int]);
            }
            let term = poly.coeffs[i].mul(&self.bases[i]);
            acc = term.add(&acc);
            proof {
                lemma_msm_step(c, b, i as int);
            }
        }
        proof {
            assert(c.subrange(0, m as int) =~= c);
            assert(b.subrange(0, b.len() as int) =~= b);
        }
        GroupElement::from_scalar(&acc)
    }
}

} // verus!
