//! The Hadamard gate.

use crate::amplitude::Amplitude;
use crate::cmatrix::CMatrix;
use crate::gates::{
    lemma_mat_slice_image, lemma_slice_image_pair, slice_image, Cost, Gate, Unitary,
};
use vstd::arithmetic::power2::lemma2_to64;
use vstd::prelude::*;

verus! {

/// The Hadamard gate.
///
/// It maps the zero state to the symmetric combination of the zero and the
/// one state, and the one state to the antisymmetric combination.
#[derive(Clone, Copy, Debug, PartialEq, Eq)]
pub struct H {}

/// The image of the pair `(s0, s1)`: `((s0 + s1) / sqrt 2, (s0 - s1) / sqrt 2)`.
pub open spec fn hadamard_pair<A: Amplitude>(f: Seq<A>) -> Seq<A> {
    seq![
        f[0].spec_plus(f[1]).spec_times(A::spec_hsqrt2()),
        f[0].spec_minus(f[1]).spec_times(A::spec_hsqrt2()),
    ]
}

/// The matrix of the Hadamard gate.
pub open spec fn hadamard_matrix<A: Amplitude>() -> Seq<Seq<A>> {
    seq![
        seq![A::spec_hsqrt2(), A::spec_hsqrt2()],
        seq![A::spec_hsqrt2(), A::spec_hsqrt2().spec_negate()],
    ]
}

impl H {
    /// Create a new Hadamard gate.
    pub fn new() -> Self {
        H {  }
    }

    /// Replaces each pair `(s0, s1)` of amplitudes, `s0` in the first half of
    /// `state` and `s1` at the same place in the second, by
    /// `((s0 + s1) / sqrt 2, (s0 - s1) / sqrt 2)`.
    pub fn transform<A: Amplitude>(state: &mut [A])
        requires
            old(state)@.len() % 2 == 0,
        ensures
            final(state)@ == slice_image(|f: Seq<A>| hadamard_pair(f), 2, old(state)@),
            final(state)@.len() == old(state)@.len(),
            forall|j: int|
                0 <= j < old(state)@.len() / 2 ==> #[trigger] final(state)@[j] == old(
                    state,
                )@[j].spec_plus(old(state)@[j + old(state)@.len() / 2]).spec_times(
                    A::spec_hsqrt2(),
                ),
            forall|j: int|
                old(state)@.len() / 2 <= j < old(state)@.len() ==> #[trigger] final(state)@[j]
                    == old(state)@[j - old(state)@.len() / 2].spec_minus(old(state)@[j]).spec_times(
                    A::spec_hsqrt2(),
                ),
    {
        let n = state.len() / 2;
        let h = A::hsqrt2();
        let mut j: usize = 0;
        while j < n
            invariant
                j <= n,
                h == A::spec_hsqrt2(),
                state@.len() == old(state)@.len(),
                state@.len() == 2 * n,
                forall|t: int|
                    0 <= t < j ==> state@[t] == old(state)@[t].spec_plus(
                        old(state)@[t + n],
                    ).spec_times(h),
                forall|t: int| j <= t < n ==> state@[t] == old(state)@[t],
                forall|u: int|
                    n <= u < n + j ==> state@[u] == old(state)@[u - n].spec_minus(
                        old(state)@[u],
                    ).spec_times(h),
                forall|u: int| n + j <= u < 2 * n ==> state@[u] == old(state)@[u],
            decreases n - j,
        {
            let s0 = state[j];
            let s1 = state[j + n];
            state[j] = s0.plus(s1).times(h);
            state[j + n] = s0.minus(s1).times(h);
            j += 1;
        }
        proof {
            let t = |f: Seq<A>| hadamard_pair(f);
            let image = slice_image(t, 2, old(state)@);
            assert forall|idx: int| 0 <= idx < state@.len() implies state@[idx] == image[idx] by {
                lemma_slice_image_pair(t, old(state)@, idx);
            }
            assert(state@ =~= image);
        }
    }

    /// The cost of a Hadamard gate: that of the two-angle rotation that
    /// realizes it.
    pub fn cost() -> (c: Cost)
        ensures
            c == Cost::U2,
    {
        Cost::U2
    }
}

impl Gate for H {
    open spec fn spec_nr_affected_bits(&self) -> nat {
        1
    }

    fn cost(&self) -> (c: Cost)
        ensures
            c == Cost::U2,
    {
        Self::cost()
    }

    fn description(&self) -> (d: &str)
        ensures
            d@ == "H"@,
    {
        "H"
    }

    fn nr_affected_bits(&self) -> (k: usize)
        ensures
            k == 1,
    {
        1
    }
}

impl<A: Amplitude> Unitary<A> for H {
    open spec fn spec_matrix(&self) -> Seq<Seq<A>> {
        hadamard_matrix::<A>()
    }

    open spec fn spec_transform(&self, fiber: Seq<A>) -> Seq<A> {
        hadamard_pair(fiber)
    }

    fn matrix(&self) -> (m: CMatrix<A>) {
        let x = A::hsqrt2();
        proof {
            lemma2_to64();
        }
        let r = CMatrix::new(2, 2, vec![x, x, x, x.negate()]);
        match r {
            Ok(m) => {
                proof {
                    CMatrix::lemma_two_by_two(m);
                }
                m
            },
            Err(_) => vstd::pervasive::unreached(),
        }
    }

    fn apply_slice(&self, state: &mut [A]) {
        proof {
            lemma2_to64();
        }
        Self::transform(state);
        proof {
            assert(state@ =~= slice_image(
                |f: Seq<A>| self.spec_transform(f),
                2,
                old(state)@,
            ));
        }
    }

    fn apply_mat_slice(&self, state: &mut [A], nr_cols: usize) {
        proof {
            lemma2_to64();
            lemma_mat_slice_image(
                |f: Seq<A>| self.spec_transform(f),
                2,
                old(state)@,
                nr_cols as nat,
            );
        }
        Self::transform(state);
        proof {
            assert(state@ =~= slice_image(
                |f: Seq<A>| self.spec_transform(f),
                2,
                old(state)@,
            ));
        }
    }
}

} // verus!
