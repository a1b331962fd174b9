//! The Fiat-Shamir transcript interface the prover writes to.
//!
//! The prover needs two capabilities: drawing one challenge scalar, and
//! appending witness commitments to the proof stream. How challenges are
//! derived and how points are serialized belongs to the surrounding
//! proof-system tooling; the trait only fixes what the prover may assume
//! of any implementation.

use vstd::prelude::*;
use crate::field::{lemma_in_field_mod, p, Scalar};
use crate::group::GroupElement;

verus! {

/// Failure of the underlying proof sink while appending a point.
#[derive(Clone, Copy, PartialEq, Eq, Structural, Debug)]
pub struct TranscriptError {}

/// A transcript the prover can draw a challenge from and write witness
/// commitments to.
pub trait TranscriptWrite: Sized {
    /// The residues of the points written so far, in order.
    spec fn written(&self) -> Seq<int>;

    /// The challenge the next squeeze returns, a function of the
    /// transcript state alone.
    spec fn next_challenge(&self) -> int;

    /// Draws one challenge scalar deterministically from the transcript
    /// state; the written stream is unchanged.
    fn squeeze_challenge_scalar(&mut self) -> (c: Scalar)
        ensures
            c.wf(),
            c@ == old(self).next_challenge(),
            final(self).written() == old(self).written(),
    ;

    /// Appends one point to the proof stream. On failure of the
    /// underlying sink nothing is recorded for this point; points
    /// already written remain written.
    fn write_point(&mut self, point: &GroupElement) -> (r: Result<(), TranscriptError>)
        requires
            point.wf(),
        ensures
            r is Ok ==> final(self).written() =~= old(self).written().push(point@),
            r is Err ==> final(self).written() == old(self).written(),
    ;
}

/// An in-memory transcript: points are collected in a buffer, and
/// challenges are drawn from a running state seeded by the caller.
pub struct BufferTranscript {
    pub challenge: Scalar,
    pub points: Vec<GroupElement>,
}

impl BufferTranscript {
    /// A fresh transcript whose first squeeze returns `seed`.
    pub fn new(seed: Scalar) -> (r: BufferTranscript)
        requires
            seed.wf(),
        ensures
            r.written() == Seq::<int>::empty(),
            r.next_challenge() == seed@,
    {
        let r = BufferTranscript { challenge: seed, points: Vec::new() };
        proof {
            assert(r.points@.map_values(|g: GroupElement| g@) =~= Seq::<int>::empty());
            lemma_in_field_mod(seed@);
        }
        r
    }

    /// The points written so far.
    pub fn points_written(&self) -> (r: &Vec<GroupElement>)
        ensures
            r@.map_values(|g: GroupElement| g@) == self.written(),
    {
        &self.points
    }
}

impl TranscriptWrite for BufferTranscript {
    open spec fn written(&self) -> Seq<int> {
        self.points@.map_values(|g: GroupElement| g@)
    }

    open spec fn next_challenge(&self) -> int {
        self.challenge@ % p()
    }

    fn squeeze_challenge_scalar(&mut self) -> (c: Scalar)
        ensures
            c.wf(),
            c@ == old(self).next_challenge(),
            final(self).written() == old(self).written(),
    {
        let c = Scalar::from_u64(self.challenge.v);
        // Advance the state so a further squeeze yields a fresh challenge.
        self.challenge = c.mul(&c).add(&Scalar::one());
        c
    }

    fn write_point(&mut self, point: &GroupElement) -> (r: Result<(), TranscriptError>)
        ensures
            r is Ok ==> final(self).written() =~= old(self).written().push(point@),
            r is Err ==> final(self).written() == old(self).written(),
    {
        self.points.push(*point);
        proof {
            assert(self.points@ =~= old(self).points@.push(*point));
        }
        Ok(())
    }
}

} // verus!
