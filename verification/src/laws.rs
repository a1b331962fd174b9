//! The protocol's algebraic laws, stated over the same spec functions
//! the executable contracts use and proved once and for all.

use vstd::prelude::*;
use crate::field::{
    fadd, fmul, fsub, lemma_fadd_cong, lemma_fmul_cong, lemma_in_field_mod, p,
};
use crate::poly::{
    coeffs_in_field, eval_at, kate_quotient, lemma_eval_in_field, lemma_eval_mul_by_linear,
    lemma_kate_exact, mul_by_linear, sub_constant, zero_coeffs, Polynomial,
};
use crate::prover::{
    axpy, batched_coeffs, batched_eval, lemma_batched_len, lemma_numerator_in_field,
    lemma_numerator_vanishes, numerator_at, polys_wf, proof_points, queries_wf, witness_at,
};
use crate::query::ProverQuery;
use crate::params::Params;
use vstd::arithmetic::div_mod::lemma_mod_twice;

verus! {

/// Exact division, for every group: the witness polynomial times the
/// linear factor of the group's point recomposes the batched numerator
/// coefficient for coefficient; equivalently, the division's remainder
/// is the additive identity.
pub proof fn lemma_witness_exact_division(
    polys: Seq<Polynomial>,
    qs: Seq<ProverQuery>,
    v: int,
    n: nat,
    z: int,
)
    requires
        polys_wf(polys, n),
        queries_wf(qs, polys.len()),
        n >= 1,
    ensures
        mul_by_linear(witness_at(polys, qs, v, n, z), z) =~= numerator_at(polys, qs, v, n, z),
        eval_at(numerator_at(polys, qs, v, n, z), z) == 0,
{
    lemma_batched_len(polys, qs, v, n);
    lemma_numerator_in_field(polys, qs, v, n, z);
    lemma_numerator_vanishes(polys, qs, v, n, z);
    lemma_kate_exact(numerator_at(polys, qs, v, n, z), z);
}

/// The exact-division identity restated by evaluation: at every point
/// `x`, the batched numerator's value is the witness's value times the
/// value of the linear factor.
pub proof fn lemma_witness_identity_at_every_point(
    polys: Seq<Polynomial>,
    qs: Seq<ProverQuery>,
    v: int,
    n: nat,
    z: int,
    x: int,
)
    requires
        polys_wf(polys, n),
        queries_wf(qs, polys.len()),
        n >= 1,
    ensures
        eval_at(numerator_at(polys, qs, v, n, z), x) == fmul(
            eval_at(witness_at(polys, qs, v, n, z), x),
            fsub(x, z),
        ),
{
    lemma_witness_exact_division(polys, qs, v, n, z);
    lemma_eval_mul_by_linear(witness_at(polys, qs, v, n, z), z, x);
}

/// For a group of exactly one query the batched numerator is the
/// query's polynomial minus its evaluation, so the witness satisfies
/// `poly(X) - eval == W(X) * (X - z)` as an exact coefficient identity.
pub proof fn lemma_single_query_witness(polys: Seq<Polynomial>, q: ProverQuery, v: int, n: nat)
    requires
        polys_wf(polys, n),
        q.wf(polys.len()),
        n >= 1,
    ensures
        ({
            let pol = polys[q.poly as int]@;
            let e = eval_at(pol, q.point@);
            &&& numerator_at(polys, seq![q], v, n, q.point@) =~= sub_constant(pol, e)
            &&& mul_by_linear(witness_at(polys, seq![q], v, n, q.point@), q.point@)
                =~= sub_constant(pol, e)
        }),
{
    let qs = seq![q];
    let pol = polys[q.poly as int]@;
    let z = q.point@;
    let e = eval_at(pol, z);
    assert(qs.drop_last().len() == 0);
    assert(qs.last() == q);
    let b = batched_coeffs(polys, qs, v, n);
    assert(batched_coeffs(polys, qs.drop_last(), v, n) == zero_coeffs(n));
    assert(batched_eval(polys, qs.drop_last(), v, z) == 0);
    assert(b == axpy(zero_coeffs(n), v, pol));
    assert(pol.len() == n);
    assert(coeffs_in_field(pol));
    assert(b =~= pol) by {
        assert forall|i: int| 0 <= i < n implies b[i] == pol[i] by {
            lemma_in_field_mod(0);
            assert(fmul(0, v) == 0);
            assert(fadd(0, pol[i]) == pol[i] % p());
            lemma_in_field_mod(pol[i]);
        }
    }
    let be = batched_eval(polys, qs, v, z);
    assert(be == fadd(fmul(0, v), e));
    assert(be == e) by {
        lemma_in_field_mod(0);
        assert(fmul(0, v) == 0);
        lemma_eval_in_field(pol, z);
        lemma_in_field_mod(e);
    }
    assert(numerator_at(polys, qs, v, n, z) == sub_constant(pol, e));
    assert(queries_wf(qs, polys.len()));
    lemma_witness_exact_division(polys, qs, v, n, z);
}

/// The `k`-th power of the challenge in the field.
pub open spec fn fpow(v: int, k: nat) -> int
    decreases k,
{
    if k == 0 {
        1
    } else {
        fmul(v, fpow(v, (k - 1) as nat))
    }
}

/// Horner accumulation of a value list in the challenge `v`, in list
/// order.
pub open spec fn horner_fold(s: Seq<int>, v: int) -> int
    decreases s.len(),
{
    if s.len() == 0 {
        0
    } else {
        fadd(fmul(horner_fold(s.drop_last(), v), v), s.last())
    }
}

/// The explicit weighted sum `sum of v^(k-1-i) * s[i]` over a list of
/// `k` values.
pub open spec fn power_sum(s: Seq<int>, v: int) -> int
    decreases s.len(),
{
    if s.len() == 0 {
        0
    } else {
        fadd(
            fmul(fpow(v, (s.len() - 1) as nat), s[0]),
            power_sum(s.subrange(1, s.len() as int), v),
        )
    }
}

/// The evaluations the queries of a list claim at `z`, in query order.
pub open spec fn evals_of(polys: Seq<Polynomial>, qs: Seq<ProverQuery>, z: int) -> Seq<int> {
    qs.map_values(|q: ProverQuery| eval_at(polys[q.poly as int]@, z))
}

/// The `c`-th coefficients of the queries' polynomials, in query order.
pub open spec fn coords_of(polys: Seq<Polynomial>, qs: Seq<ProverQuery>, c: int) -> Seq<int> {
    qs.map_values(|q: ProverQuery| polys[q.poly as int]@[c])
}

/// Prepending a value to a Horner fold weighs it by one more power of
/// the challenge.
proof fn lemma_horner_prepend(x: int, t: Seq<int>, v: int)
    ensures
        horner_fold(seq![x] + t, v) == fadd(fmul(fpow(v, t.len()), x), horner_fold(t, v)),
    decreases t.len(),
{
    let s = seq![x] + t;
    if t.len() == 0 {
        assert(s.len() == 1);
        assert(s.last() == x);
        assert(s.drop_last().len() == 0);
        assert(horner_fold(s.drop_last(), v) == 0);
        lemma_in_field_mod(0);
        assert(fmul(0, v) == 0);
        assert(horner_fold(s, v) == fadd(0, x));
        assert(fadd(0, x) == fadd(x, 0));
        lemma_mod_twice(x, p());
        lemma_fadd_cong(x, fmul(1, x), 0, 0);
        assert(fpow(v, 0) == 1);
        assert(horner_fold(t, v) == 0);
    } else {
        let u = t.drop_last();
        let y = t.last();
        assert(s.drop_last() =~= seq![x] + u);
        assert(s.last() == y);
        lemma_horner_prepend(x, u, v);
        let pw = fpow(v, u.len());
        let hu = horner_fold(u, v);
        // Flatten the unfolded left-hand side.
        lemma_mod_twice(pw * x, p());
        lemma_fadd_cong(fmul(pw, x), pw * x, hu, hu);
        lemma_mod_twice(pw * x + hu, p());
        lemma_fmul_cong(fadd(pw * x, hu), pw * x + hu, v, v);
        lemma_mod_twice((pw * x + hu) * v, p());
        lemma_fadd_cong(fmul(fadd(fmul(pw, x), hu), v), (pw * x + hu) * v, y, y);
        assert(horner_fold(s, v) == fadd((pw * x + hu) * v, y));
        // Flatten the right-hand side.
        assert(fpow(v, t.len()) == fmul(v, pw));
        lemma_mod_twice(v * pw, p());
        lemma_fmul_cong(fmul(v, pw), v * pw, x, x);
        lemma_mod_twice(hu * v, p());
        lemma_fadd_cong(fmul(hu, v), hu * v, y, y);
        lemma_mod_twice((v * pw) * x, p());
        lemma_mod_twice(hu * v + y, p());
        lemma_fadd_cong(
            fmul(fpow(v, t.len()), x),
            (v * pw) * x,
            horner_fold(t, v),
            hu * v + y,
        );
        assert((pw * x + hu) * v + y == (v * pw) * x + (hu * v + y)) by (nonlinear_arith);
    }
}

/// The Horner fold equals the explicit weighted sum of powers of the
/// challenge.
pub proof fn lemma_horner_is_power_sum(s: Seq<int>, v: int)
    ensures
        horner_fold(s, v) == power_sum(s, v),
    decreases s.len(),
{
    if s.len() == 0 {
    } else {
        let t = s.subrange(1, s.len() as int);
        assert(s =~= seq![s[0]] + t);
        lemma_horner_prepend(s[0], t, v);
        lemma_horner_is_power_sum(t, v);
    }
}

/// The batched evaluation is the Horner fold of the queries'
/// evaluations.
proof fn lemma_batched_eval_is_horner(polys: Seq<Polynomial>, qs: Seq<ProverQuery>, v: int, z: int)
    ensures
        batched_eval(polys, qs, v, z) == horner_fold(evals_of(polys, qs, z), v),
    decreases qs.len(),
{
    let es = evals_of(polys, qs, z);
    if qs.len() == 0 {
        assert(es.len() == 0);
    } else {
        let t = qs.drop_last();
        lemma_batched_eval_is_horner(polys, t, v, z);
        assert(evals_of(polys, t, z) =~= es.drop_last());
        assert(es.last() == eval_at(polys[qs.last().poly as int]@, z));
    }
}

/// Each coefficient of the batched polynomial is the Horner fold of the
/// queries' coefficients at that position.
proof fn lemma_batched_coeffs_is_horner(
    polys: Seq<Polynomial>,
    qs: Seq<ProverQuery>,
    v: int,
    n: nat,
    c: int,
)
    requires
        0 <= c < n,
    ensures
        batched_coeffs(polys, qs, v, n)[c] == horner_fold(coords_of(polys, qs, c), v),
    decreases qs.len(),
{
    let cs = coords_of(polys, qs, c);
    if qs.len() == 0 {
        assert(cs.len() == 0);
    } else {
        let t = qs.drop_last();
        lemma_batched_coeffs_is_horner(polys, t, v, n, c);
        lemma_batched_len(polys, t, v, n);
        assert(coords_of(polys, t, c) =~= cs.drop_last());
        assert(cs.last() == polys[qs.last().poly as int]@[c]);
    }
}

/// Batching by Horner accumulation agrees with the non-batched
/// reference computation: the batched polynomial's coefficients and the
/// batched evaluation are the explicit weighted sums in the powers of
/// the challenge, so the group's witness is the quotient of exactly
/// that reference combination.
pub proof fn lemma_batched_matches_power_sum(
    polys: Seq<Polynomial>,
    qs: Seq<ProverQuery>,
    v: int,
    n: nat,
    z: int,
)
    ensures
        batched_eval(polys, qs, v, z) == power_sum(evals_of(polys, qs, z), v),
        forall|c: int| 0 <= c < n ==> batched_coeffs(polys, qs, v, n)[c] == power_sum(
            coords_of(polys, qs, c),
            v,
        ),
        witness_at(polys, qs, v, n, z) == kate_quotient(
            sub_constant(
                Seq::new(n, |c: int| power_sum(coords_of(polys, qs, c), v)),
                power_sum(evals_of(polys, qs, z), v),
            ),
            z,
        ),
{
    lemma_batched_eval_is_horner(polys, qs, v, z);
    lemma_horner_is_power_sum(evals_of(polys, qs, z), v);
    assert forall|c: int| 0 <= c < n implies batched_coeffs(polys, qs, v, n)[c] == power_sum(
        coords_of(polys, qs, c),
        v,
    ) by {
        lemma_batched_coeffs_is_horner(polys, qs, v, n, c);
        lemma_horner_is_power_sum(coords_of(polys, qs, c), v);
    }
    lemma_batched_len(polys, qs, v, n);
    assert(batched_coeffs(polys, qs, v, n) =~= Seq::new(
        n,
        |c: int| power_sum(coords_of(polys, qs, c), v),
    ));
}

/// Determinism: whatever scheduling produced the witness commitments,
/// two proof constructions over equal transcript states, equal queries,
/// an equal challenge and equal parameters append identical point
/// streams.
pub proof fn lemma_proof_determinism(
    params: Params,
    polys: Seq<Polynomial>,
    queries: Seq<ProverQuery>,
    v: int,
    before1: Seq<int>,
    before2: Seq<int>,
    after1: Seq<int>,
    after2: Seq<int>,
)
    requires
        before1 == before2,
        after1 == before1 + proof_points(params, polys, queries, v),
        after2 == before2 + proof_points(params, polys, queries, v),
    ensures
        after1 == after2,
{
}

} // verus!
