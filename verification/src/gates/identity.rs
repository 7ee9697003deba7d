//! The identity gate.

use crate::amplitude::Amplitude;
use crate::cmatrix::{identity_rows, CMatrix};
use crate::gates::{
    lemma_mat_slice_image, lemma_slice_image_pair, slice_image, Cost, Gate, Unitary,
};
use vstd::arithmetic::power2::lemma2_to64;
use vstd::prelude::*;

verus! {

/// The identity gate.
///
/// It leaves the qubit on which it acts unchanged.
#[derive(Clone, Copy, Debug, PartialEq, Eq)]
pub struct I {}

/// The image of a pair of amplitudes: the pair itself.
pub open spec fn identity_pair<A>(f: Seq<A>) -> Seq<A> {
    f
}

/// A slice is its own image under the identity.
pub proof fn lemma_identity_image<A>(s: Seq<A>)
    requires
        s.len() % 2 == 0,
    ensures
        slice_image(|f: Seq<A>| identity_pair(f), 2, s) == s,
{
    let t = |f: Seq<A>| identity_pair(f);
    assert forall|idx: int| 0 <= idx < s.len() implies slice_image(t, 2, s)[idx] == s[idx] by {
        lemma_slice_image_pair(t, s, idx);
    }
    assert(slice_image(t, 2, s) =~= s);
}

impl I {
    /// Create a new identity gate.
    pub fn new() -> Self {
        I {  }
    }
}

impl Gate for I {
    open spec fn spec_nr_affected_bits(&self) -> nat {
        1
    }

    fn cost(&self) -> (c: Cost)
        ensures
            c == Cost::Free,
    {
        Cost::Free
    }

    fn description(&self) -> (d: &str)
        ensures
            d@ == "I"@,
    {
        "I"
    }

    fn nr_affected_bits(&self) -> (k: usize)
        ensures
            k == 1,
    {
        1
    }
}

impl<A: Amplitude> Unitary<A> for I {
    open spec fn spec_matrix(&self) -> Seq<Seq<A>> {
        identity_rows::<A>(2)
    }

    open spec fn spec_transform(&self, fiber: Seq<A>) -> Seq<A> {
        identity_pair(fiber)
    }

    fn matrix(&self) -> (m: CMatrix<A>) {
        proof {
            lemma2_to64();
        }
        CMatrix::eye(2)
    }

    fn apply_slice(&self, state: &mut [A])
        ensures
            final(state)@ == old(state)@,
    {
        proof {
            lemma2_to64();
            lemma_identity_image(state@);
            assert(state@ =~= slice_image(|f: Seq<A>| self.spec_transform(f), 2, state@));
        }
    }

    fn apply_mat_slice(&self, state: &mut [A], nr_cols: usize)
        ensures
            final(state)@ == old(state)@,
    {
        proof {
            lemma2_to64();
            lemma_mat_slice_image(|f: Seq<A>| self.spec_transform(f), 2, state@, nr_cols as nat);
            lemma_identity_image(state@);
            assert(state@ =~= slice_image(|f: Seq<A>| self.spec_transform(f), 2, state@));
        }
    }
}

} // verus!
