//! The batched-opening prover.
//!
//! Queries are grouped by evaluation point, preserving first-seen order;
//! each group is combined into one polynomial by Horner accumulation in
//! the challenge, shifted so it vanishes at the group's point, divided
//! exactly by the linear factor of that point, and committed. One witness
//! commitment per group is written to the transcript, in group order.

use rayon::iter::IntoParallelRefIterator;
use rayon::iter::ParallelIterator;
use vstd::prelude::*;
use crate::field::{
    fadd, fmul, in_field, lemma_fadd_cong, lemma_field_ops_in_field, lemma_fmul_cong,
    lemma_in_field_mod, p, Scalar,
};
use crate::group::GroupElement;
use crate::params::{msm, Params};
use crate::poly::{
    coeffs_in_field, eval_at, kate_division, kate_quotient, sub_constant, zero_coeffs, Polynomial,
};
use crate::query::ProverQuery;
use crate::transcript::{TranscriptError, TranscriptWrite};
use vstd::arithmetic::div_mod::lemma_mod_twice;

verus! {

/// Every polynomial of the slice is well formed and sized to the domain.
pub open spec fn polys_wf(polys: Seq<Polynomial>, n: nat) -> bool {
    forall|i: int| 0 <= i < polys.len() ==> (#[trigger] polys[i]).wf() && polys[i]@.len() == n
}

/// Every query is consistent with a polynomial slice of `num_polys`
/// entries.
pub open spec fn queries_wf(qs: Seq<ProverQuery>, num_polys: nat) -> bool {
    forall|i: int| 0 <= i < qs.len() ==> (#[trigger] qs[i]).wf(num_polys)
}

/// One point-group: the queries of one evaluation point, in first-seen
/// order.
pub struct CommitmentData {
    pub point: Scalar,
    pub queries: Vec<ProverQuery>,
}

impl CommitmentData {
    /// The grouping invariant: a well-formed group holds at least the
    /// point it is keyed by, and all its queries carry exactly that point.
    pub open spec fn wf(&self, num_polys: nat) -> bool {
        &&& self.point.wf()
        &&& queries_wf(self.queries@, num_polys)
        &&& forall|i: int|
            0 <= i < self.queries@.len() ==> (#[trigger] self.queries@[i]).point == self.point
    }
}

/// One Horner accumulation step on coefficient vectors: `acc * v + rhs`,
/// pointwise.
pub open spec fn axpy(acc: Seq<int>, v: int, rhs: Seq<int>) -> Seq<int> {
    Seq::new(acc.len(), |i: int| fadd(fmul(acc[i], v), rhs[i]))
}

/// The batched polynomial of a query list: the Horner combination, in
/// the challenge `v`, of the referenced polynomials, in query order.
pub open spec fn batched_coeffs(
    polys: Seq<Polynomial>,
    qs: Seq<ProverQuery>,
    v: int,
    n: nat,
) -> Seq<int>
    decreases qs.len(),
{
    if qs.len() == 0 {
        zero_coeffs(n)
    } else {
        axpy(batched_coeffs(polys, qs.drop_last(), v, n), v, polys[qs.last().poly as int]@)
    }
}

/// The batched evaluation of a query list at `z`: the same Horner
/// combination applied to the queries' evaluations.
pub open spec fn batched_eval(
    polys: Seq<Polynomial>,
    qs: Seq<ProverQuery>,
    v: int,
    z: int,
) -> int
    decreases qs.len(),
{
    if qs.len() == 0 {
        0
    } else {
        fadd(
            fmul(batched_eval(polys, qs.drop_last(), v, z), v),
            eval_at(polys[qs.last().poly as int]@, z),
        )
    }
}

/// The numerator of a group: the batched polynomial shifted so that its
/// value at `z` is zero.
pub open spec fn numerator_at(
    polys: Seq<Polynomial>,
    qs: Seq<ProverQuery>,
    v: int,
    n: nat,
    z: int,
) -> Seq<int> {
    sub_constant(batched_coeffs(polys, qs, v, n), batched_eval(polys, qs, v, z))
}

/// The witness polynomial of a group: the exact quotient of the
/// numerator by `X - z`.
pub open spec fn witness_at(
    polys: Seq<Polynomial>,
    qs: Seq<ProverQuery>,
    v: int,
    n: nat,
    z: int,
) -> Seq<int> {
    kate_quotient(numerator_at(polys, qs, v, n, z), z)
}

/// The witness commitment of a group.
pub open spec fn witness_point_at(
    params: Params,
    polys: Seq<Polynomial>,
    qs: Seq<ProverQuery>,
    v: int,
    z: int,
) -> int {
    msm(witness_at(polys, qs, v, params.n as nat, z), params.bases_view())
}

/// The batched polynomial always has exactly `n` coefficients.
pub proof fn lemma_batched_len(polys: Seq<Polynomial>, qs: Seq<ProverQuery>, v: int, n: nat)
    ensures
        batched_coeffs(polys, qs, v, n).len() == n,
    decreases qs.len(),
{
    if qs.len() == 0 {
    } else {
        lemma_batched_len(polys, qs.drop_last(), v, n);
    }
}

/// The batched polynomial's coefficients are canonical residues.
pub proof fn lemma_batched_in_field(polys: Seq<Polynomial>, qs: Seq<ProverQuery>, v: int, n: nat)
    ensures
        coeffs_in_field(batched_coeffs(polys, qs, v, n)),
    decreases qs.len(),
{
    let b = batched_coeffs(polys, qs, v, n);
    if qs.len() == 0 {
        assert forall|i: int| 0 <= i < b.len() implies in_field(#[trigger] b[i]) by {}
    } else {
        let t = batched_coeffs(polys, qs.drop_last(), v, n);
        assert forall|i: int| 0 <= i < b.len() implies in_field(#[trigger] b[i]) by {
            lemma_field_ops_in_field(fmul(t[i], v), polys[qs.last().poly as int]@[i]);
        }
    }
}

/// Horner evaluation of the all-zero polynomial is zero.
proof fn lemma_eval_zero(n: nat, z: int)
    ensures
        eval_at(zero_coeffs(n), z) == 0,
    decreases n,
{
    if n == 0 {
    } else {
        let c = zero_coeffs(n);
        assert(c.subrange(1, n as int) =~= zero_coeffs((n - 1) as nat));
        lemma_eval_zero((n - 1) as nat, z);
        lemma_in_field_mod(0);
        assert(fmul(z, 0) == 0);
        assert(fadd(0, 0) == 0);
    }
}

/// Evaluation is linear over one Horner accumulation step.
proof fn lemma_eval_axpy(a: Seq<int>, v: int, rhs: Seq<int>, z: int)
    requires
        a.len() == rhs.len(),
    ensures
        eval_at(axpy(a, v, rhs), z) == fadd(fmul(eval_at(a, z), v), eval_at(rhs, z)),
    decreases a.len(),
{
    let c = axpy(a, v, rhs);
    if a.len() == 0 {
        lemma_in_field_mod(0);
        assert(fmul(0, v) == 0);
        assert(fadd(0, 0) == 0);
    } else {
        let n = a.len() as int;
        let a1 = a.subrange(1, n);
        let r1 = rhs.subrange(1, n);
        assert(c.subrange(1, n) =~= axpy(a1, v, r1));
        lemma_eval_axpy(a1, v, r1, z);
        let ea = eval_at(a1, z);
        let eb = eval_at(r1, z);
        let a0 = a[0];
        let b0 = rhs[0];
        // Flatten the left-hand side to a single remainder.
        lemma_mod_twice(a0 * v, p());
        lemma_fadd_cong(fmul(a0, v), a0 * v, b0, b0);
        lemma_mod_twice(ea * v, p());
        lemma_fadd_cong(fmul(ea, v), ea * v, eb, eb);
        lemma_mod_twice(ea * v + eb, p());
        lemma_fmul_cong(z, z, fadd(ea * v, eb), ea * v + eb);
        lemma_mod_twice(a0 * v + b0, p());
        lemma_mod_twice(z * (ea * v + eb), p());
        lemma_fadd_cong(fadd(a0 * v, b0), a0 * v + b0, fmul(z, ea * v + eb), z * (ea * v + eb));
        assert(eval_at(c, z) == fadd(a0 * v + b0, z * (ea * v + eb)));
        // Flatten the right-hand side the same way.
        lemma_mod_twice(z * ea, p());
        lemma_fadd_cong(fmul(z, ea), z * ea, a0, a0);
        lemma_mod_twice(a0 + z * ea, p());
        lemma_fmul_cong(fadd(a0, z * ea), a0 + z * ea, v, v);
        lemma_mod_twice(z * eb, p());
        lemma_fadd_cong(fmul(z, eb), z * eb, b0, b0);
        lemma_mod_twice((a0 + z * ea) * v, p());
        lemma_mod_twice(b0 + z * eb, p());
        lemma_fadd_cong(
            fmul(fadd(a0, fmul(z, ea)), v),
            (a0 + z * ea) * v,
            fadd(b0, fmul(z, eb)),
            b0 + z * eb,
        );
        assert(fadd(fmul(eval_at(a, z), v), eval_at(rhs, z)) == fadd(
            (a0 + z * ea) * v,
            b0 + z * eb,
        ));
        assert(a0 * v + b0 + (z * (ea * v + eb)) == (a0 + z * ea) * v + (b0 + z * eb))
            by (nonlinear_arith);
    }
}

/// The batched evaluation is exactly the batched polynomial's value.
pub proof fn lemma_batched_eval_is_eval(
    polys: Seq<Polynomial>,
    qs: Seq<ProverQuery>,
    v: int,
    n: nat,
    z: int,
)
    requires
        polys_wf(polys, n),
        queries_wf(qs, polys.len()),
    ensures
        eval_at(batched_coeffs(polys, qs, v, n), z) == batched_eval(polys, qs, v, z),
    decreases qs.len(),
{
    if qs.len() == 0 {
        lemma_eval_zero(n, z);
    } else {
        let t = qs.drop_last();
        assert(queries_wf(t, polys.len())) by {
            assert(forall|i: int| 0 <= i < t.len() ==> t[i] == qs[i]);
        }
        lemma_batched_eval_is_eval(polys, t, v, n, z);
        lemma_batched_len(polys, t, v, n);
        let b = batched_coeffs(polys, t, v, n);
        let pl = polys[qs.last().poly as int]@;
        assert(qs.last().wf(polys.len()));
        assert(pl.len() == n);
        lemma_eval_axpy(b, v, pl, z);
    }
}

/// The value of a constant-shifted polynomial: the shift passes through
/// Horner evaluation.
proof fn lemma_eval_sub_constant(b: Seq<int>, e: int, z: int)
    requires
        b.len() >= 1,
    ensures
        eval_at(sub_constant(b, e), z) == (eval_at(b, z) - e) % p(),
{
    let n = b.len() as int;
    let s = sub_constant(b, e);
    assert(s.subrange(1, n) =~= b.subrange(1, n));
    let e1 = eval_at(b.subrange(1, n), z);
    // s's value: (b[0] - e) + z * e1, flattened.
    lemma_mod_twice(b[0] - e, p());
    lemma_mod_twice(z * e1, p());
    lemma_fadd_cong(fmul(z, e1), z * e1, s[0], b[0] - e);
    assert(eval_at(s, z) == fadd(b[0] - e, z * e1));
    // b's value: b[0] + z * e1, flattened, then shifted by e.
    lemma_fadd_cong(fmul(z, e1), z * e1, b[0], b[0]);
    lemma_mod_twice(b[0] + z * e1, p());
    assert(eval_at(b, z) % p() == (b[0] + z * e1) % p()) by {
        lemma_mod_twice(b[0] + z * e1, p());
    }
    assert((eval_at(b, z) - e) % p() == (b[0] + z * e1 - e) % p()) by {
        vstd::arithmetic::div_mod::lemma_sub_mod_noop(eval_at(b, z), e, p());
        vstd::arithmetic::div_mod::lemma_sub_mod_noop(b[0] + z * e1, e, p());
    }
}

/// The group numerator vanishes at the group's point: the remainder of
/// the exact division is the additive identity.
pub proof fn lemma_numerator_vanishes(
    polys: Seq<Polynomial>,
    qs: Seq<ProverQuery>,
    v: int,
    n: nat,
    z: int,
)
    requires
        polys_wf(polys, n),
        queries_wf(qs, polys.len()),
        n >= 1,
    ensures
        eval_at(numerator_at(polys, qs, v, n, z), z) == 0,
{
    let b = batched_coeffs(polys, qs, v, n);
    let e = batched_eval(polys, qs, v, z);
    lemma_batched_len(polys, qs, v, n);
    lemma_batched_eval_is_eval(polys, qs, v, n, z);
    lemma_eval_sub_constant(b, e, z);
    assert((e - e) % p() == 0) by {
        lemma_in_field_mod(0);
    }
}

/// The numerator's coefficients are canonical residues.
pub proof fn lemma_numerator_in_field(
    polys: Seq<Polynomial>,
    qs: Seq<ProverQuery>,
    v: int,
    n: nat,
    z: int,
)
    ensures
        coeffs_in_field(numerator_at(polys, qs, v, n, z)),
{
    let b = batched_coeffs(polys, qs, v, n);
    let e = batched_eval(polys, qs, v, z);
    let s = sub_constant(b, e);
    lemma_batched_in_field(polys, qs, v, n);
    assert forall|i: int| 0 <= i < s.len() implies in_field(#[trigger] s[i]) by {
        if i == 0 {
            lemma_field_ops_in_field(b[0], e);
        }
    }
}

/// Computes one group's witness commitment: batch the group's queries by
/// Horner accumulation in `v`, shift by the batched evaluation, divide
/// exactly by `X - z`, and commit to the quotient.
pub fn group_witness_commitment(
    params: &Params,
    polys: &Vec<Polynomial>,
    v: &Scalar,
    group: &CommitmentData,
) -> (r: GroupElement)
    requires
        params.wf(),
        params.n >= 1,
        polys_wf(polys@, params.n as nat),
        v.wf(),
        group.wf(polys@.len()),
    ensures
        r.wf(),
        r@ == witness_point_at(*params, polys@, group.queries@, v@, group.point@),
{
    let ghost n = params.n as nat;
    let nn = params.n;
    let z = group.point;
    let mut poly_batch = Polynomial::zero(nn);
    let mut eval_batch = Scalar::zero();
    let num_queries = group.queries.len();
    let mut j: usize = 0;
    proof {
        assert(group.queries@.subrange(0, 0).len() == 0);
        assert(poly_batch@ =~= batched_coeffs(polys@, group.queries@.subrange(0, 0), v@, n));
    }
    while j < num_queries
        invariant
            j <= num_queries,
            num_queries == group.queries@.len(),
            params.wf(),
            params.n >= 1,
            n == params.n as nat,
            nn == params.n,
            polys_wf(polys@, n),
            v.wf(),
            group.wf(polys@.len()),
            z == group.point,
            poly_batch.wf(),
            poly_batch@.len() == n,
            poly_batch@ == batched_coeffs(polys@, group.queries@.subrange(0, j as int), v@, n),
            eval_batch.wf(),
            eval_batch@ == batched_eval(polys@, group.queries@.subrange(0, j as int), v@, z@),
        decreases num_queries - j,
    {
        let query = group.queries[j];
        proof {
            assert(group.queries@[j as int].wf(polys@.len()));
            assert(polys@[query.poly as int].wf());
        }
        let poly = &polys[query.poly];
        let eval = query.get_eval(polys);
        let next_poly = poly_batch.scale_add(v, poly);
        let next_eval = eval_batch.mul(v).add(&eval);
        proof {
            let prefix = group.queries@.subrange(0, j as int);
            let ext = group.queries@.subrange(0, j + 1);
            assert(ext.drop_last() =~= prefix);
            assert(ext.last() == query);
            assert(next_poly@ =~= axpy(poly_batch@, v@, polys@[query.poly as int]@));
            // The query's own point is the group's point.
            assert(query.point == group.point);
        }
        poly_batch = next_poly;
        eval_batch = next_eval;
        j = j + 1;
    }
    proof {
        assert(group.queries@.subrange(0, num_queries as int) =~= group.queries@);
    }
    let numerator = poly_batch.sub_from_constant_term(&eval_batch);
    proof {
        assert(numerator@ == numerator_at(polys@, group.queries@, v@, n, z@));
        assert forall|i: int| 0 <= i < numerator.coeffs@.len() implies (#[trigger] numerator
            .coeffs@[i]).wf() by {
            assert(numerator.coeffs@[i]@ == numerator@[i]);
        }
    }
    let witness_coeffs = kate_division(&numerator.coeffs, &z);
    let witness_poly = Polynomial::from_coeffs(witness_coeffs);
    proof {
        assert(numerator.coeffs@.map_values(|s: Scalar| s@) == numerator@);
        assert(witness_poly@ =~= witness_at(polys@, group.queries@, v@, n, z@));
    }
    params.commit(&witness_poly)
}

/// The distinct evaluation points of a query list, in first-seen order.
pub open spec fn first_points(qs: Seq<ProverQuery>) -> Seq<Scalar>
    decreases qs.len(),
{
    if qs.len() == 0 {
        Seq::empty()
    } else {
        let prefix = first_points(qs.drop_last());
        if prefix.contains(qs.last().point) {
            prefix
        } else {
            prefix.push(qs.last().point)
        }
    }
}

/// The queries of one evaluation point, in first-seen order.
pub open spec fn queries_at(qs: Seq<ProverQuery>, z: Scalar) -> Seq<ProverQuery> {
    qs.filter(|q: ProverQuery| q.point == z)
}

/// Whatever a filter keeps was already in the sequence.
proof fn lemma_filter_subset(s: Seq<ProverQuery>, pred: spec_fn(ProverQuery) -> bool)
    ensures
        forall|i: int| 0 <= i < s.filter(pred).len() ==> s.contains(#[trigger] s.filter(pred)[i]),
    decreases s.len(),
{
    reveal(Seq::filter);
    if s.len() == 0 {
    } else {
        let t = s.drop_last();
        lemma_filter_subset(t, pred);
        let f = s.filter(pred);
        assert forall|i: int| 0 <= i < f.len() implies s.contains(f[i]) by {
            if pred(s.last()) && i == f.len() - 1 {
                assert(f[i] == s.last());
                assert(s[s.len() - 1] == s.last());
            } else {
                assert(f[i] == t.filter(pred)[i]);
                assert(t.contains(t.filter(pred)[i]));
                let j = choose|j: int| 0 <= j < t.len() && t[j] == f[i];
                assert(s[j] == f[i]);
            }
        }
    }
}

/// A point-group holds well-formed queries, all carrying its point.
pub proof fn lemma_point_group_wf(qs: Seq<ProverQuery>, z: Scalar, num_polys: nat)
    requires
        queries_wf(qs, num_polys),
    ensures
        queries_wf(queries_at(qs, z), num_polys),
        forall|i: int| 0 <= i < queries_at(qs, z).len() ==> (#[trigger] queries_at(qs, z)[i]).point
            == z,
{
    let pred = |q: ProverQuery| q.point == z;
    let f = qs.filter(pred);
    lemma_filter_subset(qs, pred);
    assert forall|i: int| 0 <= i < f.len() implies (#[trigger] f[i]).wf(num_polys) && f[i].point
        == z by {
        qs.lemma_filter_pred(pred, i);
        assert(qs.contains(f[i]));
        let j = choose|j: int| 0 <= j < qs.len() && qs[j] == f[i];
        assert(qs[j].wf(num_polys));
    }
}

/// Every first-seen point is carried by some query.
pub proof fn lemma_first_points_occur(qs: Seq<ProverQuery>, z: Scalar)
    requires
        first_points(qs).contains(z),
    ensures
        exists|j: int| 0 <= j < qs.len() && (#[trigger] qs[j]).point == z,
    decreases qs.len(),
{
    let t = qs.drop_last();
    let fp = first_points(t);
    if fp.contains(z) {
        lemma_first_points_occur(t, z);
        let j = choose|j: int| 0 <= j < t.len() && (#[trigger] t[j]).point == z;
        assert(qs[j].point == z);
    } else {
        let fpq = first_points(qs);
        let k = choose|k: int| 0 <= k < fpq.len() && fpq[k] == z;
        if k < fp.len() {
            assert(fp[k] == z);
        }
        assert(qs[qs.len() - 1].point == z);
    }
}

/// A point-group keyed by a first-seen point is never empty.
pub proof fn lemma_point_group_nonempty(qs: Seq<ProverQuery>, z: Scalar)
    requires
        first_points(qs).contains(z),
    ensures
        queries_at(qs, z).len() >= 1,
{
    lemma_first_points_occur(qs, z);
    let j = choose|j: int| 0 <= j < qs.len() && (#[trigger] qs[j]).point == z;
    let pred = |q: ProverQuery| q.point == z;
    qs.lemma_filter_contains(pred, j);
}

/// First-seen points are pairwise distinct.
pub proof fn lemma_first_points_distinct(qs: Seq<ProverQuery>)
    ensures
        forall|i: int, j: int|
            0 <= i < j < first_points(qs).len() ==> first_points(qs)[i] != first_points(qs)[j],
    decreases qs.len(),
{
    if qs.len() == 0 {
    } else {
        let t = qs.drop_last();
        lemma_first_points_distinct(t);
        let fp = first_points(t);
        let fpq = first_points(qs);
        if !fp.contains(qs.last().point) {
            assert forall|i: int, j: int| 0 <= i < j < fpq.len() implies fpq[i] != fpq[j] by {
                if j == fpq.len() - 1 {
                    assert(fpq[j] == qs.last().point);
                    if fpq[i] == fpq[j] {
                        assert(fp[i] == qs.last().point);
                        assert(fp.contains(qs.last().point));
                    }
                }
            }
        }
    }
}

/// Groups an arbitrary-order query list into point-groups: one group per
/// distinct point, points in first-seen order, and each group holding
/// exactly the queries of its point in first-seen order.
pub fn construct_intermediate_sets(queries: &Vec<ProverQuery>) -> (r: Vec<CommitmentData>)
    ensures
        r@.len() == first_points(queries@).len(),
        forall|i: int| 0 <= i < r@.len() ==> (#[trigger] r@[i]).point == first_points(queries@)[i]
            && r@[i].queries@ == queries_at(queries@, first_points(queries@)[i]),
        forall|i: int| 0 <= i < r@.len() ==> (#[trigger] r@[i]).queries@.len() >= 1,
        forall|i: int, j: int| 0 <= i < j < r@.len() ==> r@[i].point != r@[j].point,
{
    let num_queries = queries.len();
    let ghost all = queries@;
    // First pass: the distinct points, in first-seen order.
    let mut points: Vec<Scalar> = Vec::new();
    let mut i: usize = 0;
    proof {
        assert(all.subrange(0, 0).len() == 0);
        assert(points@ =~= first_points(all.subrange(0, 0)));
    }
    while i < num_queries
        invariant
            i <= num_queries,
            num_queries == all.len(),
            all == queries@,
            points@ == first_points(all.subrange(0, i as int)),
        decreases num_queries - i,
    {
        let q = queries[i];
        let num_points = points.len();
        let mut found = false;
        let mut k: usize = 0;
        while k < num_points
            invariant
                k <= num_points,
                num_points == points@.len(),
                found <==> exists|t: int| 0 <= t < k && points@[t] == q.point,
            decreases num_points - k,
        {
            if points[k] == q.point {
                found = true;
            }
            k = k + 1;
        }
        proof {
            let prefix = all.subrange(0, i as int);
            let ext = all.subrange(0, i + 1);
            assert(ext.drop_last() =~= prefix);
            assert(ext.last() == q);
            assert(found <==> first_points(prefix).contains(q.point));
        }
        if !found {
            points.push(q.point);
        }
        i = i + 1;
    }
    proof {
        assert(all.subrange(0, num_queries as int) =~= all);
    }
    // Second pass: collect each point's queries, in first-seen order.
    let mut r: Vec<CommitmentData> = Vec::new();
    let mut gi: usize = 0;
    while gi < points.len()
        invariant
            gi <= points@.len(),
            points@ == first_points(all),
            all == queries@,
            num_queries == all.len(),
            r@.len() == gi,
            forall|t: int| 0 <= t < gi ==> (#[trigger] r@[t]).point == points@[t]
                && r@[t].queries@ == queries_at(all, points@[t]),
        decreases points@.len() - gi,
    {
        let z = points[gi];
        let mut qs: Vec<ProverQuery> = Vec::new();
        let mut j: usize = 0;
        proof {
            reveal(Seq::filter);
            assert(all.subrange(0, 0).len() == 0);
            assert(qs@ =~= queries_at(all.subrange(0, 0), z));
        }
        while j < num_queries
            invariant
                j <= num_queries,
                num_queries == all.len(),
                all == queries@,
                z == points@[gi as int],
                gi < points@.len(),
                points@ == first_points(all),
                qs@ == queries_at(all.subrange(0, j as int), z),
            decreases num_queries - j,
        {
            let q = queries[j];
            proof {
                reveal(Seq::filter);
                let prefix = all.subrange(0, j as int);
                let ext = all.subrange(0, j + 1);
                assert(ext.drop_last() =~= prefix);
                assert(ext.last() == q);
            }
            if q.get_point() == z {
                qs.push(q);
            }
            j = j + 1;
        }
        proof {
            assert(all.subrange(0, num_queries as int) =~= all);
        }
        r.push(CommitmentData { point: z, queries: qs });
        gi = gi + 1;
    }
    proof {
        lemma_first_points_distinct(all);
        assert forall|i: int| 0 <= i < r@.len() implies (#[trigger] r@[i]).queries@.len() >= 1 by {
            let fp = first_points(all);
            assert(fp[i] == r@[i].point);
            assert(fp.contains(fp[i]));
            lemma_point_group_nonempty(all, fp[i]);
        }
    }
    r
}

/// The witness commitments of all groups, one per group, in group order.
///
/// Relies on rayon's `par_iter`, `map` and `collect`: an indexed parallel
/// map over a vector collects its results in input order, one result per
/// input element, each computed by the verified per-group function;
/// scheduling affects only timing, never placement. The groups are
/// independent and `commit` is a pure function of its arguments, so the
/// commitments may run concurrently without serialization.
#[verifier::external_body]
fn parallel_witness_commitments(
    params: &Params,
    polys: &Vec<Polynomial>,
    v: &Scalar,
    groups: &Vec<CommitmentData>,
) -> (r: Vec<GroupElement>)
    requires
        params.wf(),
        params.n >= 1,
        polys_wf(polys@, params.n as nat),
        v.wf(),
        forall|i: int| 0 <= i < groups@.len() ==> (#[trigger] groups@[i]).wf(polys@.len()),
    ensures
        r@.len() == groups@.len(),
        forall|i: int| 0 <= i < groups@.len() ==> (#[trigger] r@[i]).wf() && r@[i]@
            == witness_point_at(
            *params,
            polys@,
            groups@[i].queries@,
            v@,
            groups@[i].point@,
        ),
{
    groups.par_iter().map(|g| group_witness_commitment(params, polys, v, g)).collect()
}

/// The sequence of witness-commitment residues a proof writes: one per
/// distinct point, in first-seen order, each committing to its group's
/// witness polynomial under the challenge `v`.
pub open spec fn proof_points(
    params: Params,
    polys: Seq<Polynomial>,
    queries: Seq<ProverQuery>,
    v: int,
) -> Seq<int> {
    first_points(queries).map_values(
        |z: Scalar| witness_point_at(params, polys, queries_at(queries, z), v, z@),
    )
}

/// Produces the batched opening proof: squeezes the challenge, groups
/// the queries by point, computes each group's witness commitment in
/// parallel, and writes the commitments to the transcript in group
/// order. Fails only when the transcript's sink fails, leaving the
/// points already written in place.
///
/// The precondition rules out malformed input: every polynomial has
/// exactly the domain size and every query names a polynomial of the
/// slice. An empty query list is accepted and writes nothing.
pub fn create_proof<T: TranscriptWrite>(
    params: &Params,
    transcript: &mut T,
    polys: &Vec<Polynomial>,
    queries: &Vec<ProverQuery>,
) -> (r: Result<(), TranscriptError>)
    requires
        params.wf(),
        params.n >= 1,
        polys_wf(polys@, params.n as nat),
        queries_wf(queries@, polys@.len()),
    ensures
        ({
            let pts = proof_points(*params, polys@, queries@, old(transcript).next_challenge());
            &&& (r is Ok ==> final(transcript).written() =~= old(transcript).written() + pts)
            &&& (r is Err ==> exists|k: int|
                0 <= k < pts.len() && final(transcript).written() =~= old(transcript).written()
                    + #[trigger] pts.take(k))
        }),
{
    let v = transcript.squeeze_challenge_scalar();
    let commitment_data = construct_intermediate_sets(queries);
    proof {
        let fp = first_points(queries@);
        assert forall|i: int| 0 <= i < commitment_data@.len() implies (
        #[trigger] commitment_data@[i]).wf(polys@.len()) by {
            let z = commitment_data@[i].point;
            assert(fp[i] == z);
            assert(fp.contains(z));
            lemma_first_points_occur(queries@, z);
            let j = choose|j: int| 0 <= j < queries@.len() && (#[trigger] queries@[j]).point == z;
            assert(queries@[j].wf(polys@.len()));
            lemma_point_group_wf(queries@, z, polys@.len());
        }
    }
    let ws = parallel_witness_commitments(params, polys, &v, &commitment_data);
    let ghost pts = proof_points(*params, polys@, queries@, old(transcript).next_challenge());
    proof {
        assert(pts.len() == commitment_data@.len());
        assert forall|i: int| 0 <= i < ws@.len() implies (#[trigger] ws@[i]).wf() && ws@[i]@
            == pts[i] by {
            let z = first_points(queries@)[i];
            assert(commitment_data@[i].point == z);
            assert(commitment_data@[i].queries@ == queries_at(queries@, z));
        }
        assert(pts.take(0) =~= Seq::<int>::empty());
        assert(transcript.written() =~= old(transcript).written() + pts.take(0));
    }
    let num_groups = ws.len();
    let mut idx: usize = 0;
    let mut failure: Option<TranscriptError> = None;
    while idx < num_groups && failure.is_none()
        invariant
            idx <= num_groups,
            num_groups == ws@.len(),
            ws@.len() == pts.len(),
            forall|i: int| 0 <= i < ws@.len() ==> (#[trigger] ws@[i]).wf() && ws@[i]@ == pts[i],
            transcript.written() =~= old(transcript).written() + pts.take(idx as int),
            failure is Some ==> idx < num_groups,
        decreases num_groups - idx, (if failure is None { 1int } else { 0int }),
    {
        let w = ws[idx];
        let res = transcript.write_point(&w);
        match res {
            Ok(()) => {
                proof {
                    assert(pts.take(idx + 1) =~= pts.take(idx as int).push(pts[idx as int]));
                    assert(transcript.written() =~= old(transcript).written() + pts.take(idx + 1));
                }
                idx = idx + 1;
            },
            Err(e) => {
                failure = Some(e);
            },
        }
    }
    match failure {
        None => {
            proof {
                assert(pts.take(pts.len() as int) =~= pts);
            }
            Ok(())
        },
        Some(e) => {
            proof {
                assert((idx as int) < pts.len() && transcript.written() =~= old(
                    transcript,
                ).written() + pts.take(idx as int));
            }
            Err(e)
        },
    }
}

} // verus!

