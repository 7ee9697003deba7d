//! The phase gate `S` and its conjugate.

use crate::amplitude::Amplitude;
use crate::cmatrix::CMatrix;
use crate::gates::{
    lemma_mat_slice_image, lemma_same_kernel, lemma_slice_image_pair, mat_slice_image,
    slice_image, Cost, Gate, Unitary,
};
use vstd::arithmetic::power2::lemma2_to64;
use vstd::prelude::*;

verus! {

/// The Clifford `S` gate.
///
/// It rotates the state over a quarter turn around the `z` axis of the Bloch
/// sphere, and is the square root of the `Z` gate.
#[derive(Clone, Copy, Debug, PartialEq, Eq)]
pub struct S {}

/// The conjugate of the Clifford `S` gate.
///
/// It rotates the state over a quarter turn around the `z` axis of the Bloch
/// sphere, in the direction opposite to that of `S`.
#[derive(Clone, Copy, Debug, PartialEq, Eq)]
pub struct Sdg {}

/// The image of the pair `(s0, s1)` when the second amplitude is multiplied
/// by `factor`: `(s0, s1 * factor)`.
pub open spec fn phase_pair<A: Amplitude>(f: Seq<A>, factor: A) -> Seq<A> {
    seq![f[0], f[1].spec_times(factor)]
}

/// The matrix with diagonal `(1, factor)`.
pub open spec fn phase_matrix<A: Amplitude>(factor: A) -> Seq<Seq<A>> {
    seq![seq![A::spec_one(), A::spec_zero()], seq![A::spec_zero(), factor]]
}

/// Multiplies by `factor` every amplitude of `state` from position `start` on.
fn scale_tail<A: Amplitude>(state: &mut [A], start: usize, factor: A)
    requires
        start <= old(state)@.len(),
    ensures
        final(state)@.len() == old(state)@.len(),
        forall|idx: int| 0 <= idx < start ==> final(state)@[idx] == old(state)@[idx],
        forall|idx: int|
            start <= idx < old(state)@.len() ==> final(state)@[idx] == old(state)@[idx].spec_times(
                factor,
            ),
{
    let len = state.len();
    let mut j: usize = start;
    while j < len
        invariant
            start <= j <= len,
            len == state@.len(),
            state@.len() == old(state)@.len(),
            forall|idx: int| 0 <= idx < start ==> state@[idx] == old(state)@[idx],
            forall|idx: int| start <= idx < j ==> state@[idx] == old(state)@[idx].spec_times(factor),
            forall|idx: int| j <= idx < len ==> state@[idx] == old(state)@[idx],
        decreases len - j,
    {
        let a = state[j];
        state[j] = a.times(factor);
        j += 1;
    }
}

/// Multiplies the second half of `state` by `factor`.
fn phase_slice<A: Amplitude>(state: &mut [A], factor: A)
    requires
        old(state)@.len() % 2 == 0,
    ensures
        final(state)@ == slice_image(|f: Seq<A>| phase_pair(f, factor), 2, old(state)@),
        final(state)@.len() == old(state)@.len(),
        forall|j: int|
            0 <= j < old(state)@.len() / 2 ==> #[trigger] final(state)@[j] == old(state)@[j],
        forall|j: int|
            old(state)@.len() / 2 <= j < old(state)@.len() ==> #[trigger] final(state)@[j] == old(
                state,
            )@[j].spec_times(factor),
{
    let n = state.len() / 2;
    scale_tail(state, n, factor);
    proof {
        let t = |f: Seq<A>| phase_pair(f, factor);
        let image = slice_image(t, 2, old(state)@);
        assert forall|idx: int| 0 <= idx < state@.len() implies state@[idx] == image[idx] by {
            lemma_slice_image_pair(t, old(state)@, idx);
        }
        assert(state@ =~= image);
    }
}

/// Multiplies the lower half of the rows of the matrix with `nr_cols` columns
/// whose entries, row by row, are `state` by `factor`.
fn phase_mat_slice<A: Amplitude>(state: &mut [A], nr_cols: usize, factor: A)
    requires
        nr_cols > 0,
        old(state)@.len() % (nr_cols as nat) == 0,
        (old(state)@.len() / (nr_cols as nat)) % 2 == 0,
    ensures
        final(state)@ == mat_slice_image(
            |f: Seq<A>| phase_pair(f, factor),
            2,
            old(state)@,
            nr_cols as nat,
        ),
        final(state)@.len() == old(state)@.len(),
        forall|j: int|
            0 <= j < old(state)@.len() / 2 ==> #[trigger] final(state)@[j] == old(state)@[j],
        forall|j: int|
            old(state)@.len() / 2 <= j < old(state)@.len() ==> #[trigger] final(state)@[j] == old(
                state,
            )@[j].spec_times(factor),
{
    let rows = state.len() / nr_cols;
    let n = rows / 2;
    proof {
        lemma_mat_slice_image(|f: Seq<A>| phase_pair(f, factor), 2, state@, nr_cols as nat);
    }
    let start = n * nr_cols;
    scale_tail(state, start, factor);
    proof {
        let t = |f: Seq<A>| phase_pair(f, factor);
        let image = slice_image(t, 2, old(state)@);
        assert forall|idx: int| 0 <= idx < state@.len() implies state@[idx] == image[idx] by {
            lemma_slice_image_pair(t, old(state)@, idx);
        }
        assert(state@ =~= image);
    }
}

impl S {
    /// Create a new `S` gate.
    pub fn new() -> Self {
        S {  }
    }
}

impl Gate for S {
    open spec fn spec_nr_affected_bits(&self) -> nat {
        1
    }

    fn cost(&self) -> (c: Cost)
        ensures
            c == Cost::U1,
    {
        Cost::U1
    }

    fn description(&self) -> (d: &str)
        ensures
            d@ == "S"@,
    {
        "S"
    }

    fn nr_affected_bits(&self) -> (k: usize)
        ensures
            k == 1,
    {
        1
    }
}

impl<A: Amplitude> Unitary<A> for S {
    open spec fn spec_matrix(&self) -> Seq<Seq<A>> {
        phase_matrix(A::spec_i())
    }

    open spec fn spec_transform(&self, fiber: Seq<A>) -> Seq<A> {
        phase_pair(fiber, A::spec_i())
    }

    fn matrix(&self) -> (m: CMatrix<A>) {
        let z = A::zero();
        let o = A::one();
        let i = A::i();
        proof {
            lemma2_to64();
        }
        match CMatrix::new(2, 2, vec![o, z, z, i]) {
            Ok(m) => {
                proof {
                    CMatrix::lemma_two_by_two(m);
                }
                m
            },
            Err(_) => vstd::pervasive::unreached(),
        }
    }

    fn apply_slice(&self, state: &mut [A])
        ensures
            forall|j: int|
                0 <= j < old(state)@.len() / 2 ==> #[trigger] final(state)@[j] == old(state)@[j],
            forall|j: int|
                old(state)@.len() / 2 <= j < old(state)@.len() ==> #[trigger] final(state)@[j]
                    == old(state)@[j].spec_times(A::spec_i()),
    {
        proof {
            lemma2_to64();
        }
        phase_slice(state, A::i());
        proof {
            lemma_same_kernel(
                |f: Seq<A>| phase_pair(f, A::spec_i()),
                |f: Seq<A>| self.spec_transform(f),
                2,
                old(state)@,
                1,
            );
        }
    }

    fn apply_mat_slice(&self, state: &mut [A], nr_cols: usize)
        ensures
            forall|j: int|
                0 <= j < old(state)@.len() / 2 ==> #[trigger] final(state)@[j] == old(state)@[j],
            forall|j: int|
                old(state)@.len() / 2 <= j < old(state)@.len() ==> #[trigger] final(state)@[j]
                    == old(state)@[j].spec_times(A::spec_i()),
    {
        proof {
            lemma2_to64();
        }
        phase_mat_slice(state, nr_cols, A::i());
        proof {
            lemma_same_kernel(
                |f: Seq<A>| phase_pair(f, A::spec_i()),
                |f: Seq<A>| self.spec_transform(f),
                2,
                old(state)@,
                nr_cols as nat,
            );
        }
    }
}

impl Sdg {
    /// Create a new conjugate `S` gate.
    pub fn new() -> Self {
        Sdg {  }
    }
}

impl Gate for Sdg {
    open spec fn spec_nr_affected_bits(&self) -> nat {
        1
    }

    fn cost(&self) -> (c: Cost)
        ensures
            c == Cost::U1,
    {
        Cost::U1
    }

    fn description(&self) -> (d: &str)
        ensures
            d@ == "S†"@,
    {
        "S†"
    }

    fn nr_affected_bits(&self) -> (k: usize)
        ensures
            k == 1,
    {
        1
    }
}

impl<A: Amplitude> Unitary<A> for Sdg {
    open spec fn spec_matrix(&self) -> Seq<Seq<A>> {
        phase_matrix(A::spec_i().spec_negate())
    }

    open spec fn spec_transform(&self, fiber: Seq<A>) -> Seq<A> {
        phase_pair(fiber, A::spec_i().spec_negate())
    }

    fn matrix(&self) -> (m: CMatrix<A>) {
        let z = A::zero();
        let o = A::one();
        let i = A::i();
        proof {
            lemma2_to64();
        }
        match CMatrix::new(2, 2, vec![o, z, z, i.negate()]) {
            Ok(m) => {
                proof {
                    CMatrix::lemma_two_by_two(m);
                }
                m
            },
            Err(_) => vstd::pervasive::unreached(),
        }
    }

    fn apply_slice(&self, state: &mut [A])
        ensures
            forall|j: int|
                0 <= j < old(state)@.len() / 2 ==> #[trigger] final(state)@[j] == old(state)@[j],
            forall|j: int|
                old(state)@.len() / 2 <= j < old(state)@.len() ==> #[trigger] final(state)@[j]
                    == old(state)@[j].spec_times(A::spec_i().spec_negate()),
    {
        proof {
            lemma2_to64();
        }
        phase_slice(state, A::i().negate());
        proof {
            lemma_same_kernel(
                |f: Seq<A>| phase_pair(f, A::spec_i().spec_negate()),
                |f: Seq<A>| self.spec_transform(f),
                2,
                old(state)@,
                1,
            );
        }
    }

    fn apply_mat_slice(&self, state: &mut [A], nr_cols: usize)
        ensures
            forall|j: int|
                0 <= j < old(state)@.len() / 2 ==> #[trigger] final(state)@[j] == old(state)@[j],
            forall|j: int|
                old(state)@.len() / 2 <= j < old(state)@.len() ==> #[trigger] final(state)@[j]
                    == old(state)@[j].spec_times(A::spec_i().spec_negate()),
    {
        proof {
            lemma2_to64();
        }
        phase_mat_slice(state, nr_cols, A::i().negate());
        proof {
            lemma_same_kernel(
                |f: Seq<A>| phase_pair(f, A::spec_i().spec_negate()),
                |f: Seq<A>| self.spec_transform(f),
                2,
                old(state)@,
                nr_cols as nat,
            );
        }
    }
}

} // verus!
