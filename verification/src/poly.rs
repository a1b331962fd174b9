//! Polynomials in coefficient form over the scalar field, with Horner
//! evaluation and exact division by a linear factor (Kate / Ruffini
//! synthetic division).
//!
//! A polynomial is an ordered sequence of coefficients, lowest degree
//! first; its mathematical model is the sequence of coefficient residues.

use vstd::prelude::*;
use crate::field::{
    fadd, fmul, fsub, in_field, lemma_fadd_cong, lemma_fadd_sub_cancel, lemma_field_ops_in_field,
    lemma_fmul_cong, lemma_fop_mod, lemma_fsub_cancel, lemma_fsub_cong, lemma_in_field_mod, p,
    Scalar,
};
use vstd::arithmetic::div_mod::lemma_mod_twice;

verus! {

/// Whether every coefficient is a canonical residue.
pub open spec fn coeffs_in_field(c: Seq<int>) -> bool {
    forall|i: int| 0 <= i < c.len() ==> in_field(#[trigger] c[i])
}

/// The value of the polynomial with coefficients `c` at the point `z`.
pub open spec fn eval_at(c: Seq<int>, z: int) -> int
    decreases c.len(),
{
    if c.len() == 0 {
        0
    } else {
        fadd(c[0], fmul(z, eval_at(c.subrange(1, c.len() as int), z)))
    }
}

/// The quotient of dividing the polynomial `q` by the linear factor
/// `X - z`: coefficient `i` of the quotient is the Horner evaluation of
/// the coefficients above position `i`.
pub open spec fn kate_quotient(q: Seq<int>, z: int) -> Seq<int> {
    Seq::new((q.len() - 1) as nat, |i: int| eval_at(q.subrange(i + 1, q.len() as int), z))
}

/// The coefficients of the product `(X - z) * W(X)`, one entry longer
/// than `w`.
pub open spec fn mul_by_linear(w: Seq<int>, z: int) -> Seq<int> {
    Seq::new((w.len() + 1) as nat, |i: int|
        if i == 0 && w.len() == 0 {
            0
        } else if i == 0 {
            fsub(0, fmul(z, w[0]))
        } else if i == w.len() {
            w[i - 1] % p()
        } else {
            fsub(w[i - 1], fmul(z, w[i]))
        })
}

/// `c` with the constant `e` added to its constant coefficient.
pub open spec fn add_constant(c: Seq<int>, e: int) -> Seq<int> {
    Seq::new(c.len(), |i: int| if i == 0 { fadd(c[0], e) } else { c[i] })
}

/// `c` with the constant `e` subtracted from its constant coefficient.
pub open spec fn sub_constant(c: Seq<int>, e: int) -> Seq<int> {
    Seq::new(c.len(), |i: int| if i == 0 { fsub(c[0], e) } else { c[i] })
}

/// The all-zero coefficient sequence of length `n`.
pub open spec fn zero_coeffs(n: nat) -> Seq<int> {
    Seq::new(n, |i: int| 0)
}

/// Horner evaluation always lands in the field.
pub proof fn lemma_eval_in_field(c: Seq<int>, z: int)
    ensures
        in_field(eval_at(c, z)),
    decreases c.len(),
{
    if c.len() == 0 {
    } else {
        lemma_field_ops_in_field(c[0], fmul(z, eval_at(c.subrange(1, c.len() as int), z)));
    }
}

/// One Horner step: evaluating a tail subrange peels off its first
/// coefficient.
pub proof fn lemma_eval_subrange_step(q: Seq<int>, z: int, j: int)
    requires
        0 <= j < q.len(),
    ensures
        eval_at(q.subrange(j, q.len() as int), z) == fadd(
            q[j],
            fmul(z, eval_at(q.subrange(j + 1, q.len() as int), z)),
        ),
{
    let n = q.len() as int;
    let s = q.subrange(j, n);
    assert(s.len() > 0);
    assert(s[0] == q[j]);
    assert(s.subrange(1, s.len() as int) =~= q.subrange(j + 1, n));
}

/// Each quotient coefficient satisfies the synthetic-division recurrence.
proof fn lemma_kate_entry(q: Seq<int>, z: int, j: int)
    requires
        q.len() >= 1,
        0 <= j < q.len() - 1,
    ensures
        j < q.len() - 2 ==> kate_quotient(q, z)[j] == fadd(
            q[j + 1],
            fmul(z, kate_quotient(q, z)[j + 1]),
        ),
        j == q.len() - 2 ==> kate_quotient(q, z)[j] == q[j + 1] % p(),
{
    let n = q.len() as int;
    lemma_eval_subrange_step(q, z, j + 1);
    if j == n - 2 {
        assert(q.subrange(j + 2, n).len() == 0);
        assert(eval_at(q.subrange(j + 2, n), z) == 0);
        assert(fmul(z, 0) == 0) by {
            lemma_in_field_mod(0);
        }
        assert(fadd(q[j + 1], 0) == q[j + 1] % p());
    }
}

/// Dividing by `X - z` and multiplying back recovers the dividend, once
/// the remainder (the dividend's value at `z`) is restored in the
/// constant coefficient.
pub proof fn lemma_kate_recompose(q: Seq<int>, z: int)
    requires
        coeffs_in_field(q),
        q.len() >= 1,
    ensures
        add_constant(mul_by_linear(kate_quotient(q, z), z), eval_at(q, z)) =~= q,
{
    let n = q.len() as int;
    let w = kate_quotient(q, z);
    let prod = mul_by_linear(w, z);
    let rem = eval_at(q, z);
    let out = add_constant(prod, rem);
    assert(out.len() == n);
    assert forall|i: int| 0 <= i < n implies out[i] == q[i] by {
        assert forall|j: int| 0 <= j < n - 1 implies in_field(#[trigger] w[j]) by {
            lemma_eval_in_field(q.subrange(j + 1, n), z);
        }
        if n == 1 {
            // The quotient is empty and the remainder is the lone coefficient.
            assert(q.subrange(1, n).len() == 0);
            assert(eval_at(q.subrange(1, n), z) == 0);
            assert(fmul(z, 0) == 0) by {
                lemma_in_field_mod(0);
            }
            assert(rem == fadd(q[0], 0));
            lemma_in_field_mod(q[0]);
            assert(fadd(0, rem) == rem % p()) by {
                lemma_fop_mod(q[0], 0);
            }
        } else if i == 0 {
            // rem == q[0] + z*w[0] in the field, so q[0] == -z*w[0] + rem.
            assert(q.subrange(0, n) =~= q);
            lemma_eval_subrange_step(q, z, 0);
            assert(rem == fadd(q[0], fmul(z, w[0])));
            lemma_fadd_sub_cancel(q[0], fmul(z, w[0]));
        } else if i == n - 1 {
            lemma_kate_entry(q, z, i - 1);
            if i - 1 < n - 2 {
            } else {
                assert(w[i - 1] == q[i] % p());
                lemma_in_field_mod(q[i]);
                assert(prod[i] == w[i - 1] % p());
                lemma_in_field_mod(q[i] % p());
            }
        } else {
            // w[i-1] == q[i] + z*w[i], so the product coefficient
            // w[i-1] - z*w[i] is exactly q[i].
            lemma_kate_entry(q, z, i - 1);
            assert(w[i - 1] == fadd(q[i], fmul(z, w[i])));
            lemma_fsub_cancel(q[i], fmul(z, w[i]));
        }
    }
}

/// Exact-division identity: when the dividend vanishes at `z`, the
/// quotient times `X - z` is the dividend itself.
pub proof fn lemma_kate_exact(q: Seq<int>, z: int)
    requires
        coeffs_in_field(q),
        q.len() >= 1,
        eval_at(q, z) == 0,
    ensures
        mul_by_linear(kate_quotient(q, z), z) =~= q,
{
    lemma_kate_recompose(q, z);
    let w = kate_quotient(q, z);
    let prod = mul_by_linear(w, z);
    assert forall|i: int| 0 <= i < q.len() implies prod[i] == q[i] by {
        assert(add_constant(prod, 0)[i] == q[i]);
        if i == 0 {
            if w.len() == 0 {
                assert(prod[0] == 0);
                assert(fadd(0, 0) == 0) by {
                    lemma_in_field_mod(0);
                }
            } else {
                lemma_field_ops_in_field(0 - fmul(z, w[0]), 0);
                assert(prod[0] == fsub(0, fmul(z, w[0])));
                lemma_fop_mod(0, fmul(z, w[0]));
                assert(fadd(prod[0], 0) == prod[0]) by {
                    lemma_in_field_mod(prod[0]);
                }
            }
        }
    }
}

/// A constant added to the constant coefficient passes through Horner
/// evaluation.
proof fn lemma_eval_add_constant(b: Seq<int>, e: int, x: int)
    requires
        b.len() >= 1,
    ensures
        eval_at(add_constant(b, e), x) == (eval_at(b, x) + e) % p(),
{
    let n = b.len() as int;
    let s = add_constant(b, e);
    assert(s.subrange(1, n) =~= b.subrange(1, n));
    let e1 = eval_at(b.subrange(1, n), x);
    lemma_mod_twice(b[0] + e, p());
    lemma_mod_twice(x * e1, p());
    lemma_fadd_cong(s[0], b[0] + e, fmul(x, e1), x * e1);
    assert(eval_at(s, x) == fadd(b[0] + e, x * e1));
    lemma_fadd_cong(b[0], b[0], fmul(x, e1), x * e1);
    assert(eval_at(b, x) == fadd(b[0], x * e1));
    lemma_mod_twice(b[0] + x * e1, p());
    lemma_fadd_cong(eval_at(b, x), b[0] + x * e1, e, e);
}

/// Evaluating the product `(X - z) * W(X)` at any point gives the
/// product of the factors' values: the coefficient identity of the
/// exact division can be checked by re-evaluating both sides anywhere.
pub proof fn lemma_eval_mul_by_linear(w: Seq<int>, z: int, x: int)
    ensures
        eval_at(mul_by_linear(w, z), x) == fmul(eval_at(w, x), fsub(x, z)),
    decreases w.len(),
{
    let m = mul_by_linear(w, z);
    if w.len() == 0 {
        assert(m.len() == 1);
        assert(m[0] == 0);
        assert(m.subrange(1, 1).len() == 0);
        assert(eval_at(m.subrange(1, 1), x) == 0);
        lemma_in_field_mod(0);
        assert(fmul(x, 0) == 0);
        assert(eval_at(m, x) == fadd(0, 0));
        assert(fmul(0, fsub(x, z)) == 0);
    } else {
        let nw = w.len() as int;
        let w0 = w[0];
        let wt = w.subrange(1, nw);
        lemma_eval_mul_by_linear(wt, z, x);
        let mt = mul_by_linear(wt, z);
        assert(m.subrange(1, m.len() as int) =~= add_constant(mt, w0)) by {
            assert forall|i: int| 0 <= i < mt.len() implies m[i + 1] == add_constant(mt, w0)[i] by {
                if i == 0 {
                    if w.len() == 1 {
                        // Top coefficient against the lone constant shift.
                        assert(mt[0] == 0);
                        assert(m[1] == w0 % p());
                        assert(fadd(0, w0) == w0 % p());
                    } else {
                        assert(mt[0] == fsub(0, fmul(z, w[1])));
                        assert(m[1] == fsub(w0, fmul(z, w[1])));
                        lemma_mod_twice(0 - fmul(z, w[1]), p());
                        lemma_fadd_cong(mt[0], 0 - fmul(z, w[1]), w0, w0);
                        assert(fadd(0 - fmul(z, w[1]), w0) == fsub(w0, fmul(z, w[1])));
                    }
                } else if i == mt.len() - 1 {
                    assert(m[i + 1] == w[i] % p());
                    assert(mt[i] == wt[i - 1] % p());
                } else {
                    assert(m[i + 1] == fsub(w[i], fmul(z, w[i + 1])));
                    assert(mt[i] == fsub(wt[i - 1], fmul(z, wt[i])));
                }
            }
        }
        lemma_eval_add_constant(mt, w0, x);
        let et = eval_at(mt, x);
        let ew = eval_at(wt, x);
        // et is the product of the tail's value and the linear factor.
        lemma_mod_twice(x - z, p());
        lemma_fmul_cong(ew, ew, fsub(x, z), x - z);
        assert(et == (ew * (x - z)) % p());
        // Flatten the left-hand side.
        lemma_mod_twice(z * w0, p());
        lemma_fsub_cong(0, 0, fmul(z, w0), z * w0);
        assert(m[0] == fsub(0, z * w0));
        lemma_mod_twice(ew * (x - z), p());
        lemma_fadd_cong(et, ew * (x - z), w0, w0);
        assert((et + w0) % p() == (ew * (x - z) + w0) % p()) by {
            lemma_mod_twice(et + w0, p());
        }
        lemma_mod_twice(ew * (x - z) + w0, p());
        lemma_fmul_cong(x, x, (et + w0) % p(), ew * (x - z) + w0);
        lemma_mod_twice(0 - z * w0, p());
        lemma_mod_twice(x * (ew * (x - z) + w0), p());
        lemma_fadd_cong(
            fsub(0, z * w0),
            0 - z * w0,
            fmul(x, (et + w0) % p()),
            x * (ew * (x - z) + w0),
        );
        assert(eval_at(m, x) == fadd(0 - z * w0, x * (ew * (x - z) + w0)));
        // Flatten the right-hand side.
        lemma_mod_twice(x * ew, p());
        lemma_fadd_cong(w0, w0, fmul(x, ew), x * ew);
        assert(eval_at(w, x) == fadd(w0, x * ew));
        lemma_mod_twice(w0 + x * ew, p());
        lemma_fmul_cong(eval_at(w, x), w0 + x * ew, fsub(x, z), x - z);
        assert(fmul(eval_at(w, x), fsub(x, z)) == fmul(w0 + x * ew, x - z));
        assert(0 - z * w0 + x * (ew * (x - z) + w0) == (w0 + x * ew) * (x - z))
            by (nonlinear_arith);
    }
}

/// A polynomial over the scalar field, in coefficient form, lowest
/// degree first.
#[derive(Clone, Debug)]
pub struct Polynomial {
    pub coeffs: Vec<Scalar>,
}

impl View for Polynomial {
    type V = Seq<int>;

    open spec fn view(&self) -> Seq<int> {
        self.coeffs@.map_values(|s: Scalar| s@)
    }
}

impl Polynomial {
    /// All coefficients are canonical residues.
    pub open spec fn wf(&self) -> bool {
        coeffs_in_field(self@)
    }

    /// Builds a polynomial from explicit coefficients.
    pub fn from_coeffs(coeffs: Vec<Scalar>) -> (r: Polynomial)
        requires
            forall|i: int| 0 <= i < coeffs@.len() ==> (#[trigger] coeffs@[i]).wf(),
        ensures
            r.wf(),
            r@.len() == coeffs@.len(),
            forall|i: int| 0 <= i < coeffs@.len() ==> r@[i] == coeffs@[i]@,
    {
        Polynomial { coeffs }
    }

    /// The all-zero polynomial of length `n`.
    pub fn zero(n: usize) -> (r: Polynomial)
        ensures
            r.wf(),
            r@ =~= zero_coeffs(n as nat),
    {
        let mut coeffs: Vec<Scalar> = Vec::new();
        let mut i: usize = 0;
        while i < n
            invariant
                i <= n,
                coeffs@.len() == i,
                forall|j: int| 0 <= j < i ==> coeffs@[j]@ == 0 && (#[trigger] coeffs@[j]).wf(),
            decreases n - i,
        {
            coeffs.push(Scalar::zero());
            i = i + 1;
        }
        Polynomial { coeffs }
    }

    /// Number of coefficients.
    pub fn len(&self) -> (r: usize)
        ensures
            r == self@.len(),
    {
        self.coeffs.len()
    }

    /// The coefficient at position `i`.
    pub fn coeff(&self, i: usize) -> (r: Scalar)
        requires
            i < self@.len(),
        ensures
            r@ == self@[i as int],
            self.wf() ==> r.wf(),
    {
        self.coeffs[i]
    }

    /// Evaluates the polynomial at `z` by Horner's rule, highest
    /// coefficient first.
    pub fn eval(&self, z: &Scalar) -> (r: Scalar)
        requires
            self.wf(),
            z.wf(),
        ensures
            r.wf(),
            r@ == eval_at(self@, z@),
    {
        let n = self.coeffs.len();
        let mut acc = Scalar::zero();
        let mut i: usize = n;
        proof {
            assert(self@.subrange(n as int, n as int) =~= Seq::<int>::empty());
        }
        while i > 0
            invariant
                i <= n,
                n == self@.len(),
                self.wf(),
                z.wf(),
                acc.wf(),
                acc@ == eval_at(self@.subrange(i as int, n as int), z@),
            decreases i,
        {
            i = i - 1;
            let c = self.coeffs[i];
            proof {
                assert(c@ == self@[i as int]);
            }
            let next = z.mul(&acc).add(&c);
            proof {
                lemma_eval_subrange_step(self@, z@, i as int);
                assert(fadd(fmul(z@, acc@), c@) == fadd(c@, fmul(z@, acc@)));
            }
            acc = next;
        }
        proof {
            assert(self@.subrange(0, n as int) =~= self@);
        }
        acc
    }

    /// Scales this polynomial by `v` and adds `rhs` pointwise: the Horner
    /// accumulation step of the batching algorithm.
    pub fn scale_add(&self, v: &Scalar, rhs: &Polynomial) -> (r: Polynomial)
        requires
            self.wf(),
            rhs.wf(),
            v.wf(),
            self@.len() == rhs@.len(),
        ensures
            r.wf(),
            r@ =~= Seq::new(self@.len(), |i: int| fadd(fmul(self@[i], v@), rhs@[i])),
    {
        let n = self.coeffs.len();
        let mut coeffs: Vec<Scalar> = Vec::new();
        let mut i: usize = 0;
        while i < n
            invariant
                i <= n,
                n == self@.len(),
                n == rhs@.len(),
                self.wf(),
                rhs.wf(),
                v.wf(),
                coeffs@.len() == i,
                forall|j: int| 0 <= j < i ==> (#[trigger] coeffs@[j])@ == fadd(
                    fmul(self@[j], v@),
                    rhs@[j],
                ) && coeffs@[j].wf(),
            decreases n - i,
        {
            proof {
                assert(self.coeffs@[i as int]@ == self@[i as int]);
                assert(rhs.coeffs@[i as int]@ == rhs@[i as int]);
            }
            let c = self.coeffs[i].mul(v).add(&rhs.coeffs[i]);
            coeffs.push(c);
            i = i + 1;
        }
        Polynomial { coeffs }
    }

    /// Subtracts the constant `e` from the constant coefficient, forming
    /// the numerator polynomial whose value at the batching point is zero.
    pub fn sub_from_constant_term(&self, e: &Scalar) -> (r: Polynomial)
        requires
            self.wf(),
            e.wf(),
            self@.len() >= 1,
        ensures
            r.wf(),
            r@ =~= sub_constant(self@, e@),
    {
        let n = self.coeffs.len();
        let mut coeffs: Vec<Scalar> = Vec::new();
        let mut i: usize = 0;
        while i < n
            invariant
                i <= n,
                n == self@.len(),
                self.wf(),
                e.wf(),
                coeffs@.len() == i,
                forall|j: int| 0 <= j < i ==> (#[trigger] coeffs@[j])@ == sub_constant(self@, e@)[j]
                    && coeffs@[j].wf(),
            decreases n - i,
        {
            proof {
                assert(self.coeffs@[i as int]@ == self@[i as int]);
            }
            let c = if i == 0 {
                self.coeffs[0].sub(e)
            } else {
                self.coeffs[i]
            };
            coeffs.push(c);
            i = i + 1;
        }
        Polynomial { coeffs }
    }
}

/// Divides `a` by the linear factor `X - b`, returning the quotient and
/// the remainder; the remainder is `a`'s value at `b`, and is the
/// additive identity exactly when `a` vanishes at `b`.
pub fn kate_division_with_remainder(a: &Vec<Scalar>, b: &Scalar) -> (r: (Vec<Scalar>, Scalar))
    requires
        a@.len() >= 1,
        forall|i: int| 0 <= i < a@.len() ==> (#[trigger] a@[i]).wf(),
        b.wf(),
    ensures
        r.0@.map_values(|s: Scalar| s@) =~= kate_quotient(a@.map_values(|s: Scalar| s@), b@),
        r.1@ == eval_at(a@.map_values(|s: Scalar| s@), b@),
        r.1.wf(),
        forall|i: int| 0 <= i < r.0@.len() ==> (#[trigger] r.0@[i]).wf(),
{
    let n = a.len();
    let ghost q = a@.map_values(|s: Scalar| s@);
    let mut w: Vec<Scalar> = Vec::new();
    let mut k: usize = 0;
    while k < n - 1
        invariant
            k <= n - 1,
            n == a@.len(),
            w@.len() == k,
            forall|j: int| 0 <= j < k ==> (#[trigger] w@[j]).wf(),
        decreases n - 1 - k,
    {
        w.push(Scalar::zero());
        k = k + 1;
    }
    let mut acc = Scalar::zero();
    let mut i: usize = n;
    proof {
        assert(q.subrange(n as int, n as int) =~= Seq::<int>::empty());
    }
    while i > 1
        invariant
            1 <= i <= n,
            n == a@.len(),
            n >= 1,
            q == a@.map_values(|s: Scalar| s@),
            forall|j: int| 0 <= j < n ==> (#[trigger] a@[j]).wf(),
            b.wf(),
            acc.wf(),
            acc@ == eval_at(q.subrange(i as int, n as int), b@),
            w@.len() == n - 1,
            forall|j: int| 0 <= j < n - 1 ==> (#[trigger] w@[j]).wf(),
            forall|j: int| i - 1 <= j < n - 1 ==> (#[trigger] w@[j])@ == eval_at(
                q.subrange(j + 1, n as int),
                b@,
            ),
        decreases i,
    {
        i = i - 1;
        let c = a[i];
        proof {
            assert(c@ == q[i as int]);
        }
        let next = b.mul(&acc).add(&c);
        proof {
            lemma_eval_subrange_step(q, b@, i as int);
            assert(fadd(fmul(b@, acc@), c@) == fadd(c@, fmul(b@, acc@)));
        }
        acc = next;
        w.set(i - 1, acc);
    }
    let c0 = a[0];
    proof {
        assert(c0@ == q[0]);
    }
    let rem = b.mul(&acc).add(&c0);
    proof {
        lemma_eval_subrange_step(q, b@, 0);
        assert(q.subrange(0, n as int) =~= q);
        assert(fadd(fmul(b@, acc@), c0@) == fadd(c0@, fmul(b@, acc@)));
    }
    (w, rem)
}

/// Divides `a` by `X - b`, keeping only the quotient, as the witness
/// construction does once the remainder is known to vanish.
pub fn kate_division(a: &Vec<Scalar>, b: &Scalar) -> (r: Vec<Scalar>)
    requires
        a@.len() >= 1,
        forall|i: int| 0 <= i < a@.len() ==> (#[trigger] a@[i]).wf(),
        b.wf(),
    ensures
        r@.map_values(|s: Scalar| s@) =~= kate_quotient(a@.map_values(|s: Scalar| s@), b@),
        forall|i: int| 0 <= i < r@.len() ==> (#[trigger] r@[i]).wf(),
{
    let (w, _rem) = kate_division_with_remainder(a, b);
    w
}

} // verus!
