use multiopen::field::{Scalar, MODULUS};
use multiopen::group::GroupElement;
use multiopen::params::Params;
use multiopen::poly::{kate_division, kate_division_with_remainder, Polynomial};
use multiopen::prover::{construct_intermediate_sets, create_proof, group_witness_commitment};
use multiopen::query::{ProverQuery, Rotation};
use multiopen::transcript::{BufferTranscript, TranscriptWrite};

fn s(x: u64) -> Scalar {
    Scalar::from_u64(x)
}

fn poly_of(vals: &[u64]) -> Polynomial {
    let coeffs: Vec<Scalar> = vals.iter().map(|&x| s(x)).collect();
    Polynomial::from_coeffs(coeffs)
}

fn query(poly: usize, point: u64, rotation: i32) -> ProverQuery {
    ProverQuery { poly, point: s(point), rotation: Rotation { offset: rotation } }
}

fn test_params() -> Params {
    Params::from_bases(vec![s(1), s(2), s(4), s(8)])
}

#[test]
fn field_arithmetic_basics() {
    assert_eq!(s(3).add(&s(4)), s(7));
    assert_eq!(s(3).sub(&s(4)), s(MODULUS - 1));
    assert_eq!(s(3).mul(&s(4)), s(12));
    assert_eq!(s(MODULUS - 1).add(&s(1)), s(0));
    assert_eq!(s(MODULUS), s(0));
    assert_eq!(Scalar::zero(), s(0));
    assert_eq!(Scalar::one(), s(1));
}

#[test]
fn horner_evaluation_exact_value() {
    let f = poly_of(&[1, 2, 3, 4]);
    // 1 + 2*2 + 3*4 + 4*8
    assert_eq!(f.eval(&s(2)), s(49));
    let g = poly_of(&[5, 6, 7, 8]);
    // 5 + 6*2 + 7*4 + 8*8
    assert_eq!(g.eval(&s(2)), s(109));
    let empty = poly_of(&[]);
    assert_eq!(empty.eval(&s(5)), s(0));
}

#[test]
fn kate_division_exact_quotient() {
    // (f1 - f1(2)) / (X - 2) computed by synthetic division.
    let f = poly_of(&[1, 2, 3, 4]);
    let e = f.eval(&s(2));
    let shifted = f.sub_from_constant_term(&e);
    let w = kate_division(&shifted.coeffs, &s(2));
    assert_eq!(w.len(), 3);
    assert_eq!(w[0], s(24));
    assert_eq!(w[1], s(11));
    assert_eq!(w[2], s(4));
}

#[test]
fn kate_division_remainder_is_zero_for_true_evaluation() {
    let f = poly_of(&[1, 2, 3, 4]);
    let e = f.eval(&s(2));
    let shifted = f.sub_from_constant_term(&e);
    let (_, rem) = kate_division_with_remainder(&shifted.coeffs, &s(2));
    assert_eq!(rem, Scalar::zero());
}

#[test]
fn kate_division_detects_wrong_evaluation() {
    // Injecting a deliberately wrong claimed evaluation leaves a
    // non-zero remainder.
    let f = poly_of(&[1, 2, 3, 4]);
    let wrong = s(50);
    let shifted = f.sub_from_constant_term(&wrong);
    let (_, rem) = kate_division_with_remainder(&shifted.coeffs, &s(2));
    assert_ne!(rem, Scalar::zero());
    assert_eq!(rem, s(MODULUS - 1));
}

#[test]
fn single_query_witness_identity_at_many_points() {
    // poly(X) - eval == W(X) * (X - z), checked by evaluating both
    // sides at a spread of points.
    let f = poly_of(&[3, 1, 4, 1]);
    let z = s(5);
    let e = f.eval(&z);
    let shifted = f.sub_from_constant_term(&e);
    let w = Polynomial::from_coeffs(kate_division(&shifted.coeffs, &z));
    for x in [0u64, 1, 2, 7, 11, 12345, 987654321] {
        let xs = s(x);
        let lhs = f.eval(&xs).sub(&e);
        let rhs = w.eval(&xs).mul(&xs.sub(&z));
        assert_eq!(lhs, rhs);
    }
}

#[test]
fn batched_witness_matches_reference_computation() {
    // For two queries at the same point, the batched witness equals the
    // witness of the directly-computed combination v*f1 + f2.
    let f1 = poly_of(&[1, 2, 3, 4]);
    let f2 = poly_of(&[5, 6, 7, 8]);
    let v = s(7);
    let z = s(2);
    let polys = vec![f1, f2];
    let group = multiopen::prover::CommitmentData {
        point: z,
        queries: vec![query(0, 2, 0), query(1, 2, 0)],
    };
    let params = test_params();
    let batched = group_witness_commitment(&params, &polys, &v, &group);

    // Reference: combine first, then divide.
    let combined = polys[0].scale_add(&v, &polys[1]);
    let e = polys[0].eval(&z).mul(&v).add(&polys[1].eval(&z));
    let shifted = combined.sub_from_constant_term(&e);
    let w = Polynomial::from_coeffs(kate_division(&shifted.coeffs, &z));
    let reference = params.commit(&w);
    assert_eq!(batched, reference);
}

#[test]
fn query_order_changes_the_witness() {
    // Horner accumulation is order-dependent: swapping two value-distinct
    // queries changes the witness commitment when v is not the identity.
    let f1 = poly_of(&[1, 2, 3, 4]);
    let f2 = poly_of(&[5, 6, 7, 8]);
    let v = s(7);
    let z = s(2);
    let polys = vec![f1, f2];
    let params = test_params();
    let forward = multiopen::prover::CommitmentData {
        point: z,
        queries: vec![query(0, 2, 0), query(1, 2, 0)],
    };
    let swapped = multiopen::prover::CommitmentData {
        point: z,
        queries: vec![query(1, 2, 0), query(0, 2, 0)],
    };
    let a = group_witness_commitment(&params, &polys, &v, &forward);
    let b = group_witness_commitment(&params, &polys, &v, &swapped);
    assert_ne!(a, b);
}

#[test]
fn commitment_handles_compare_by_instance() {
    // Same polynomial instance at different points: equal handles.
    let q1 = query(0, 2, 0);
    let q2 = query(0, 9, 1);
    assert_eq!(q1.get_commitment(), q2.get_commitment());
    // Value-equal but distinct instances: unequal handles, even though
    // the coefficient vectors match.
    let q3 = query(1, 2, 0);
    assert_ne!(q1.get_commitment(), q3.get_commitment());
    assert_eq!(q1.get_point(), s(2));
    assert_eq!(q2.get_rotation(), Rotation { offset: 1 });
}

#[test]
fn grouping_preserves_first_seen_order() {
    let queries = vec![query(0, 2, 0), query(1, 9, 0), query(1, 2, 0)];
    let groups = construct_intermediate_sets(&queries);
    assert_eq!(groups.len(), 2);
    assert_eq!(groups[0].point, s(2));
    assert_eq!(groups[0].queries.len(), 2);
    assert_eq!(groups[0].queries[0].poly, 0);
    assert_eq!(groups[0].queries[1].poly, 1);
    assert_eq!(groups[1].point, s(9));
    assert_eq!(groups[1].queries.len(), 1);
    assert_eq!(groups[1].queries[0].poly, 1);
}

#[test]
fn transcript_squeeze_and_write() {
    let mut t = BufferTranscript::new(s(42));
    let c = t.squeeze_challenge_scalar();
    assert_eq!(c, s(42));
    assert!(t.write_point(&GroupElement::identity()).is_ok());
    assert_eq!(t.points_written().len(), 1);
    assert_eq!(t.points_written()[0], GroupElement::identity());
}

#[test]
fn end_to_end_two_polynomials_one_point() {
    // Domain size 4, f1 = [1,2,3,4], f2 = [5,6,7,8], both queried at
    // z = 2 and challenge fixed to 7: the accumulation runs in group
    // order, so the combination is v*f1 + f2, and exactly one witness
    // commitment is written.
    let params = test_params();
    let polys = vec![poly_of(&[1, 2, 3, 4]), poly_of(&[5, 6, 7, 8])];
    let queries = vec![query(0, 2, 0), query(1, 2, 0)];
    let mut transcript = BufferTranscript::new(s(7));
    let result = create_proof(&params, &mut transcript, &polys, &queries);
    assert!(result.is_ok());
    assert_eq!(transcript.points_written().len(), 1);

    // The combination v*f1 + f2 = [12, 20, 28, 36] evaluates to 452 at
    // z = 2; its witness is [220, 100, 36]; committed against bases
    // [1, 2, 4, 8] that is 220 + 200 + 144 = 564.
    assert_eq!(transcript.points_written()[0], GroupElement::from_scalar(&s(564)));

    // The witness identity holds at a spread of points.
    let combined = polys[0].scale_add(&s(7), &polys[1]);
    let e = combined.eval(&s(2));
    assert_eq!(e, s(452));
    let shifted = combined.sub_from_constant_term(&e);
    let w = Polynomial::from_coeffs(kate_division(&shifted.coeffs, &s(2)));
    assert_eq!(w.len(), 3);
    for x in [0u64, 1, 3, 10, 65537] {
        let xs = s(x);
        let lhs = combined.eval(&xs).sub(&e);
        let rhs = w.eval(&xs).mul(&xs.sub(&s(2)));
        assert_eq!(lhs, rhs);
    }
}

#[test]
fn two_runs_write_identical_streams() {
    // Determinism: identical queries, challenge and parameters produce
    // identical transcript output, whatever the worker scheduling did.
    let params = test_params();
    let polys = vec![poly_of(&[1, 2, 3, 4]), poly_of(&[5, 6, 7, 8]), poly_of(&[9, 9, 9, 9])];
    let queries = vec![
        query(0, 2, 0),
        query(1, 2, 0),
        query(2, 5, 0),
        query(0, 5, -1),
        query(1, 11, 0),
    ];
    let mut t1 = BufferTranscript::new(s(33));
    let mut t2 = BufferTranscript::new(s(33));
    assert!(create_proof(&params, &mut t1, &polys, &queries).is_ok());
    assert!(create_proof(&params, &mut t2, &polys, &queries).is_ok());
    assert_eq!(t1.points_written(), t2.points_written());
    // Three distinct points, three witness commitments, in first-seen
    // order.
    assert_eq!(t1.points_written().len(), 3);
}

#[test]
fn single_query_proof_writes_one_commitment() {
    let params = test_params();
    let polys = vec![poly_of(&[3, 1, 4, 1])];
    let queries = vec![query(0, 5, 0)];
    let mut transcript = BufferTranscript::new(s(99));
    assert!(create_proof(&params, &mut transcript, &polys, &queries).is_ok());
    assert_eq!(transcript.points_written().len(), 1);
    // The witness for a single query does not depend on the challenge.
    let mut other = BufferTranscript::new(s(1));
    assert!(create_proof(&params, &mut other, &polys, &queries).is_ok());
    assert_eq!(transcript.points_written(), other.points_written());
}

#[test]
fn empty_query_set_writes_nothing() {
    let params = test_params();
    let polys: Vec<Polynomial> = Vec::new();
    let queries: Vec<ProverQuery> = Vec::new();
    assert!(construct_intermediate_sets(&queries).is_empty());
    let mut transcript = BufferTranscript::new(s(5));
    assert!(create_proof(&params, &mut transcript, &polys, &queries).is_ok());
    assert!(transcript.points_written().is_empty());
}

#[test]
fn squeezing_twice_advances_the_challenge() {
    let mut t = BufferTranscript::new(s(42));
    let c1 = t.squeeze_challenge_scalar();
    let c2 = t.squeeze_challenge_scalar();
    assert_ne!(c1, c2);
    // The advance is deterministic: a second transcript with the same
    // seed draws the same challenges.
    let mut u = BufferTranscript::new(s(42));
    assert_eq!(u.squeeze_challenge_scalar(), c1);
    assert_eq!(u.squeeze_challenge_scalar(), c2);
}

#[test]
fn commit_is_the_expected_combination() {
    let params = test_params();
    let w = poly_of(&[24, 11, 4]);
    // 24*1 + 11*2 + 4*4
    assert_eq!(params.commit(&w), GroupElement::from_scalar(&s(62)));
}
