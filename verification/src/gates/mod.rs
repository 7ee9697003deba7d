//! Gates: what every gate reports about itself, and how a gate acts on a
//! slice of amplitudes.
//!
//! A gate on `k` qubits couples the amplitudes of a slice in groups of
//! `2^k`. Seen as a matrix with `2^k` rows, stored row by row, the slice is
//! transformed column by column: each column is one *fiber*, and a gate
//! replaces it by its image under a fixed map on sequences of length `2^k`.
//! For one qubit the fiber through position `j` of the first half is the pair
//! of amplitudes at `j` and `j + len / 2`.

pub mod dense;
pub mod hadamard;
pub mod identity;
pub mod s;

pub use dense::MatrixGate;
pub use hadamard::H;
pub use identity::I;
pub use s::{Sdg, S};

use crate::amplitude::Amplitude;
use crate::cmatrix::CMatrix;
use vstd::arithmetic::div_mod::{
    lemma_basic_div, lemma_fundamental_div_mod, lemma_fundamental_div_mod_converse,
    lemma_mod_bound, lemma_small_mod,
};
use vstd::arithmetic::power2::{lemma_pow2_strictly_increases, lemma_pow2_unfold, pow2};
use vstd::prelude::*;

verus! {

/// The resource estimate of a gate, named by the canonical gate whose cost it
/// shares. Only the relation between gates is fixed here; the numbers are the
/// caller's.
#[derive(Clone, Copy, Debug, PartialEq, Eq, Structural)]
pub enum Cost {
    /// Nothing: no work is done.
    Free,
    /// The cost of a member of the one-angle family of phase gates.
    U1,
    /// The cost of a member of the two-angle family of single-qubit rotations.
    U2,
}

/// The number of amplitudes that a gate on `k` qubits couples, `2^k`, if it
/// can be the length of a slice.
pub fn dimension(k: usize) -> (r: Option<usize>)
    ensures
        r is Some <==> pow2(k as nat) <= usize::MAX,
        r matches Some(d) ==> d == pow2(k as nat),
{
    let mut d: usize = 1;
    let mut t: usize = 0;
    proof {
        vstd::arithmetic::power2::lemma2_to64();
    }
    while t < k
        invariant
            t <= k,
            d == pow2(t as nat),
        decreases k - t,
    {
        proof {
            lemma_pow2_unfold((t + 1) as nat);
        }
        if d > usize::MAX / 2 {
            proof {
                if t + 1 < k {
                    lemma_pow2_strictly_increases((t + 1) as nat, k as nat);
                }
            }
            return None;
        }
        d = 2 * d;
        t += 1;
    }
    Some(d)
}

/// What a gate reports about itself, whatever the amplitude type.
pub trait Gate {
    /// The number of qubits acted on.
    spec fn spec_nr_affected_bits(&self) -> nat;

    /// The resource estimate.
    fn cost(&self) -> Cost;

    /// The display name.
    fn description(&self) -> &str;

    /// The number of qubits acted on.
    fn nr_affected_bits(&self) -> (k: usize)
        ensures
            k == self.spec_nr_affected_bits(),
    ;
}

/// The fiber of `s` through position `j`: with `s` seen as a matrix of `d`
/// rows, the column `j`.
pub open spec fn fiber_of<A>(s: Seq<A>, d: nat, j: int) -> Seq<A> {
    Seq::new(d, |c: int| s[c * (s.len() / d) + j])
}

/// The slice in which every fiber of `s` is replaced by its image under `t`.
pub open spec fn slice_image<A>(t: spec_fn(Seq<A>) -> Seq<A>, d: nat, s: Seq<A>) -> Seq<A> {
    Seq::new(
        s.len(),
        |idx: int| t(fiber_of(s, d, idx % ((s.len() / d) as int)))[idx / ((s.len() / d) as int)],
    )
}

/// Column `c` of the matrix with `nr_cols` columns whose entries, row by row,
/// are `s`.
pub open spec fn column_of<A>(s: Seq<A>, nr_cols: nat, c: int) -> Seq<A> {
    Seq::new(s.len() / nr_cols, |r: int| s[r * nr_cols + c])
}

/// The matrix, row by row, in which every column of `s` is replaced by its
/// image as a slice.
pub open spec fn mat_slice_image<A>(
    t: spec_fn(Seq<A>) -> Seq<A>,
    d: nat,
    s: Seq<A>,
    nr_cols: nat,
) -> Seq<A> {
    Seq::new(
        s.len(),
        |idx: int|
            slice_image(t, d, column_of(s, nr_cols, idx % (nr_cols as int)))[idx / (
            nr_cols as int)],
    )
}

/// The action of a gate on amplitudes of type `A`.
pub trait Unitary<A: Amplitude>: Gate {
    /// The matrix in the standard basis, row by row; the first
    /// affected qubit is the most significant bit of the row index.
    spec fn spec_matrix(&self) -> Seq<Seq<A>>;

    /// The image of one fiber, as the in-place kernel computes it.
    spec fn spec_transform(&self, fiber: Seq<A>) -> Seq<A>;

    /// The matrix in the standard basis.
    fn matrix(&self) -> (m: CMatrix<A>)
        ensures
            m@ == self.spec_matrix(),
            m.spec_rows() == pow2(self.spec_nr_affected_bits()),
            m.spec_cols() == pow2(self.spec_nr_affected_bits()),
    ;

    /// Transforms `state` in place, acting on the leading qubits of
    /// the slice.
    fn apply_slice(&self, state: &mut [A])
        requires
            old(state)@.len() % pow2(self.spec_nr_affected_bits()) == 0,
        ensures
            final(state)@ == slice_image(
                |f: Seq<A>| self.spec_transform(f),
                pow2(self.spec_nr_affected_bits()),
                old(state)@,
            ),
    ;

    /// Transforms in place every column of the matrix with `nr_cols` columns
    /// whose entries, row by row, are `state`: one state per column, acted on
    /// at the leading qubits of each.
    fn apply_mat_slice(&self, state: &mut [A], nr_cols: usize)
        requires
            nr_cols > 0,
            old(state)@.len() % (nr_cols as nat) == 0,
            (old(state)@.len() / (nr_cols as nat)) % pow2(self.spec_nr_affected_bits()) == 0,
        ensures
            final(state)@ == mat_slice_image(
                |f: Seq<A>| self.spec_transform(f),
                pow2(self.spec_nr_affected_bits()),
                old(state)@,
                nr_cols as nat,
            ),
    ;
}

/// The map on fibers that the kernels of `gate` compute.
pub open spec fn kernel_of<A: Amplitude, G: Unitary<A>>(gate: &G) -> spec_fn(Seq<A>) -> Seq<A> {
    |f: Seq<A>| gate.spec_transform(f)
}

/// For a one-qubit gate, the entry of the image at `idx` is computed from the
/// pair of amplitudes that `idx` belongs to.
pub proof fn lemma_slice_image_pair<A>(t: spec_fn(Seq<A>) -> Seq<A>, s: Seq<A>, idx: int)
    requires
        s.len() % 2 == 0,
        0 <= idx < s.len(),
    ensures
        idx < s.len() / 2 ==> slice_image(t, 2, s)[idx] == t(
            seq![s[idx], s[idx + s.len() / 2]],
        )[0],
        idx >= s.len() / 2 ==> slice_image(t, 2, s)[idx] == t(
            seq![s[idx - s.len() / 2], s[idx]],
        )[1],
{
    let n = (s.len() / 2) as int;
    if idx < n {
        lemma_small_mod(idx as nat, n as nat);
        lemma_basic_div(idx, n);
        assert(fiber_of(s, 2, idx) =~= seq![s[idx], s[idx + n]]);
    } else {
        lemma_fundamental_div_mod_converse(idx, n, 1, idx - n);
        assert(fiber_of(s, 2, idx - n) =~= seq![s[idx - n], s[idx]]);
    }
}

/// Images under two maps that agree on every fiber are the same.
pub proof fn lemma_same_kernel<A>(
    t1: spec_fn(Seq<A>) -> Seq<A>,
    t2: spec_fn(Seq<A>) -> Seq<A>,
    d: nat,
    s: Seq<A>,
    nr_cols: nat,
)
    requires
        forall|f: Seq<A>| #[trigger] t1(f) == t2(f),
    ensures
        slice_image(t1, d, s) == slice_image(t2, d, s),
        mat_slice_image(t1, d, s, nr_cols) == mat_slice_image(t2, d, s, nr_cols),
{
    assert(slice_image(t1, d, s) =~= slice_image(t2, d, s));
    assert forall|idx: int| 0 <= idx < s.len() implies mat_slice_image(t1, d, s, nr_cols)[idx]
        == mat_slice_image(t2, d, s, nr_cols)[idx] by {
        let col = column_of(s, nr_cols, idx % (nr_cols as int));
        assert(slice_image(t1, d, col) =~= slice_image(t2, d, col));
    }
    assert(mat_slice_image(t1, d, s, nr_cols) =~= mat_slice_image(t2, d, s, nr_cols));
}

/// Transforming the columns of a matrix stored row by row is transforming
/// its entries as one slice.
pub proof fn lemma_mat_slice_image<A>(
    t: spec_fn(Seq<A>) -> Seq<A>,
    d: nat,
    s: Seq<A>,
    nr_cols: nat,
)
    requires
        nr_cols > 0,
        d > 0,
        s.len() % nr_cols == 0,
        (s.len() / nr_cols) % d == 0,
    ensures
        s.len() % d == 0,
        s.len() / d == (s.len() / nr_cols / d) * nr_cols,
        mat_slice_image(t, d, s, nr_cols) == slice_image(t, d, s),
{
    let len = s.len() as int;
    let cols = nr_cols as int;
    let rows = len / cols;
    let mr = rows / (d as int);
    let m = mr * cols;
    lemma_fundamental_div_mod(len, cols);
    lemma_fundamental_div_mod(rows, d as int);
    assert(len == (d as int) * m) by (nonlinear_arith)
        requires
            len == cols * rows,
            rows == (d as int) * mr,
            m == mr * cols,
    ;
    assert(0 <= m) by (nonlinear_arith)
        requires
            m == mr * cols,
            0 <= mr,
            0 <= cols,
    ;
    lemma_fundamental_div_mod_converse(len, d as int, m, 0);
    assert forall|idx: int| 0 <= idx < len implies mat_slice_image(t, d, s, nr_cols)[idx]
        == slice_image(t, d, s)[idx] by {
        let r = idx / cols;
        let c = idx % cols;
        lemma_fundamental_div_mod(idx, cols);
        lemma_mod_bound(idx, cols);
        assert(0 <= r < rows) by (nonlinear_arith)
            requires
                idx == cols * r + c,
                0 <= c < cols,
                0 <= idx < len,
                len == cols * rows,
        ;
        let q = r / (d as int);
        let col = column_of(s, nr_cols, c);
        assert(col.len() == rows);
        assert(mr > 0) by (nonlinear_arith)
            requires
                rows == (d as int) * mr,
                rows > 0,
                d > 0,
        ;
        let rho = r % mr;
        let qq = r / mr;
        lemma_fundamental_div_mod(r, mr);
        lemma_mod_bound(r, mr);
        let rest = rho * cols + c;
        assert(0 <= rest < m && idx == m * qq + rest) by (nonlinear_arith)
            requires
                rest == rho * cols + c,
                0 <= rho < mr,
                0 <= c < cols,
                m == mr * cols,
                idx == cols * r + c,
                r == mr * qq + rho,
        ;
        lemma_fundamental_div_mod_converse(idx, m, qq, rest);
        let f_col = fiber_of(col, d, rho);
        let f_flat = fiber_of(s, d, rest);
        assert(f_col =~= f_flat) by {
            assert forall|k: int| 0 <= k < d implies f_col[k] == f_flat[k] by {
                assert(0 <= k * mr + rho < rows && (k * mr + rho) * cols + c == k * m + rest)
                    by (nonlinear_arith)
                    requires
                        0 <= k < d,
                        0 <= rho < mr,
                        rows == (d as int) * mr,
                        m == mr * cols,
                        rest == rho * cols + c,
                ;
            }
        }
    }
    assert(mat_slice_image(t, d, s, nr_cols) =~= slice_image(t, d, s));
}

} // verus!
