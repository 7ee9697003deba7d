//! The dense fallback: a gate applied as the product of its matrix with
//! every fiber.

use crate::amplitude::Amplitude;
use crate::cmatrix::CMatrix;
use crate::error::Error;
use crate::fiber::{gather, hits, scatter};
use crate::gates::{
    dimension, fiber_of, lemma_mat_slice_image, slice_image, Cost, Gate, Unitary,
};
use vstd::arithmetic::div_mod::{
    lemma_fundamental_div_mod, lemma_fundamental_div_mod_converse, lemma_mod_bound,
};
use vstd::arithmetic::power2::{lemma_pow2_pos, pow2};
use vstd::prelude::*;

verus! {

/// The sum of the first `n` products `row[c] * f[c]`, added up from the left,
/// starting from zero.
pub open spec fn row_dot<A: Amplitude>(row: Seq<A>, f: Seq<A>, n: nat) -> A
    decreases n,
{
    if n == 0 {
        A::spec_zero()
    } else {
        row_dot(row, f, (n - 1) as nat).spec_plus(row[n - 1].spec_times(f[n - 1]))
    }
}

/// The product of a matrix, given by its rows, with the column vector `f`.
pub open spec fn dense_transform<A: Amplitude>(matrix: Seq<Seq<A>>, f: Seq<A>) -> Seq<A> {
    Seq::new(matrix.len(), |r: int| row_dot(matrix[r], f, f.len()))
}

/// The map on fibers that the dense fallback computes from a matrix.
pub open spec fn dense_kernel<A: Amplitude>(matrix: Seq<Seq<A>>) -> spec_fn(Seq<A>) -> Seq<A> {
    |f: Seq<A>| dense_transform(matrix, f)
}

/// The product of `matrix` with the column vector `fiber`.
pub fn dense_product<A: Amplitude>(matrix: &CMatrix<A>, fiber: &[A]) -> (out: Vec<A>)
    requires
        fiber@.len() == matrix.spec_cols(),
    ensures
        out@ == dense_transform(matrix@, fiber@),
{
    let rows = matrix.rows();
    let cols = matrix.cols();
    let mut out: Vec<A> = Vec::new();
    let mut r: usize = 0;
    while r < rows
        invariant
            r <= rows,
            rows == matrix.spec_rows(),
            cols == matrix.spec_cols(),
            fiber@.len() == cols,
            out@.len() == r,
            forall|q: int| 0 <= q < r ==> out@[q] == row_dot(matrix@[q], fiber@, cols as nat),
        decreases rows - r,
    {
        let mut acc = A::zero();
        let mut c: usize = 0;
        while c < cols
            invariant
                r < rows,
                c <= cols,
                rows == matrix.spec_rows(),
                cols == matrix.spec_cols(),
                fiber@.len() == cols,
                acc == row_dot(matrix@[r as int], fiber@, c as nat),
            decreases cols - c,
        {
            acc = acc.plus(matrix.get(r, c).times(fiber[c]));
            c += 1;
        }
        out.push(acc);
        r += 1;
    }
    proof {
        assert(out@ =~= dense_transform(matrix@, fiber@));
    }
    out
}

/// Position `c * m + j` lies in row `c` and column `j` of a matrix with `m`
/// columns, stored row by row.
proof fn lemma_row_and_column(c: int, m: int, j: int)
    requires
        0 <= c,
        0 <= j < m,
    ensures
        (c * m + j) / m == c,
        (c * m + j) % m == j,
        0 <= c * m <= c * m + j,
{
    assert(c * m == m * c) by (nonlinear_arith);
    assert(0 <= c * m) by (nonlinear_arith)
        requires
            0 <= c,
            0 <= m,
    ;
    lemma_fundamental_div_mod_converse(c * m + j, m, c, j);
}

/// The distances `0, m, 2 * m, ..` from the first row of a matrix with `m`
/// columns to each of its `d` rows.
fn row_offsets(d: usize, m: usize) -> (offsets: Vec<usize>)
    requires
        d * m <= usize::MAX,
    ensures
        offsets@.len() == d,
        forall|c: int| 0 <= c < d ==> #[trigger] offsets@[c] == c * m,
{
    let mut offsets: Vec<usize> = Vec::new();
    let mut c: usize = 0;
    while c < d
        invariant
            c <= d,
            d * m <= usize::MAX,
            offsets@.len() == c,
            forall|b: int| 0 <= b < c ==> #[trigger] offsets@[b] == b * m,
        decreases d - c,
    {
        proof {
            assert(c * m <= d * m) by (nonlinear_arith)
                requires
                    c <= d,
                    0 <= m,
            ;
        }
        offsets.push(c * m);
        c += 1;
    }
    offsets
}

/// Replaces every fiber of `state` by the product of `matrix` with it.
///
/// `state` is read as a matrix with as many rows as `matrix` has, stored row
/// by row; its columns are the fibers.
pub fn dense_apply_slice<A: Amplitude>(matrix: &CMatrix<A>, state: &mut [A])
    requires
        matrix.spec_rows() == matrix.spec_cols(),
        matrix.spec_rows() > 0,
        old(state)@.len() % matrix.spec_rows() == 0,
    ensures
        final(state)@ == slice_image(dense_kernel(matrix@), matrix.spec_rows(), old(state)@),
{
    let d = matrix.rows();
    let len = state.len();
    let m = len / d;
    proof {
        lemma_fundamental_div_mod(len as int, d as int);
    }
    let offsets = row_offsets(d, m);
    let ghost t = dense_kernel(matrix@);
    let ghost image = slice_image(t, d as nat, old(state)@);
    let mut j: usize = 0;
    while j < m
        invariant
            j <= m,
            d == matrix.spec_rows(),
            d == matrix.spec_cols(),
            d > 0,
            len == d * m,
            len == state@.len(),
            state@.len() == old(state)@.len(),
            m == old(state)@.len() / (d as nat),
            offsets@.len() == d,
            forall|c: int| 0 <= c < d ==> #[trigger] offsets@[c] == c * m,
            t == dense_kernel(matrix@),
            image == slice_image(t, d as nat, old(state)@),
            forall|idx: int|
                0 <= idx < len ==> state@[idx] == (if idx % (m as int) < j {
                    image[idx]
                } else {
                    old(state)@[idx]
                }),
        decreases m - j,
    {
        proof {
            assert forall|c: int| 0 <= c < offsets@.len() implies 0 <= j + #[trigger] offsets@[c]
                < len by {
                lemma_row_and_column(c, m as int, j as int);
                assert(c * m + j < d * m) by (nonlinear_arith)
                    requires
                        0 <= c < d,
                        0 <= j < m,
                {
                    assert((c + 1) * m <= d * m);
                }
            }
            assert forall|a: int, b: int|
                0 <= a < offsets@.len() && 0 <= b < offsets@.len() && a != b implies offsets@[a]
                != offsets@[b] by {
                lemma_row_and_column(a, m as int, j as int);
                lemma_row_and_column(b, m as int, j as int);
            }
        }
        let fiber = gather(state, j, offsets.as_slice());
        let out = dense_product(matrix, fiber.as_slice());
        let ghost before = state@;
        scatter(state, j, offsets.as_slice(), out.as_slice());
        proof {
            assert(fiber@ =~= fiber_of(old(state)@, d as nat, j as int)) by {
                assert forall|c: int| 0 <= c < d implies fiber@[c] == old(state)@[c * m + j] by {
                    lemma_row_and_column(c, m as int, j as int);
                    assert(offsets@[c] == c * m);
                    assert(c * m + j < d * m) by (nonlinear_arith)
                        requires
                            0 <= c < d,
                            0 <= j < m,
                    {
                        assert((c + 1) * m <= d * m);
                    }
                }
            }
            assert forall|idx: int| 0 <= idx < len implies state@[idx] == (if idx % (m as int) < j
                + 1 {
                image[idx]
            } else {
                old(state)@[idx]
            }) by {
                let c = idx / (m as int);
                lemma_fundamental_div_mod(idx, m as int);
                lemma_mod_bound(idx, m as int);
                if idx % (m as int) == j {
                    assert(0 <= c < d) by (nonlinear_arith)
                        requires
                            idx == m * c + j,
                            0 <= idx < d * m,
                            0 <= j < m,
                    ;
                    assert(m * c == c * m) by (nonlinear_arith);
                    assert(offsets@[c] == c * m);
                    assert(idx == j + offsets@[c]);
                    assert(state@[idx] == out@[c]);
                } else {
                    if hits(j as int, offsets@, d as int, idx) {
                        let b = choose|b: int| 0 <= b < d && j + #[trigger] offsets@[b] == idx;
                        lemma_row_and_column(b, m as int, j as int);
                    }
                    assert(state@[idx] == before[idx]);
                }
            }
        }
        j += 1;
    }
    proof {
        assert(state@ =~= image);
    }
}

/// A gate given by its matrix and applied through the dense fallback.
#[derive(Debug)]
pub struct MatrixGate<A> {
    name: String,
    price: Cost,
    nr_bits: usize,
    matrix: CMatrix<A>,
}

impl<A> MatrixGate<A> {
    #[verifier::type_invariant]
    spec fn well_formed(self) -> bool {
        &&& self.matrix.spec_rows() == pow2(self.nr_bits as nat)
        &&& self.matrix.spec_cols() == pow2(self.nr_bits as nat)
    }
}

impl<A: Amplitude> MatrixGate<A> {
    /// The display name given at construction.
    pub closed spec fn spec_name(self) -> Seq<char> {
        self.name@
    }

    /// The resource estimate given at construction.
    pub closed spec fn spec_cost(self) -> Cost {
        self.price
    }

    /// The number of qubits acted on.
    pub closed spec fn spec_bits(self) -> nat {
        self.nr_bits as nat
    }

    /// The matrix given at construction, row by row.
    pub closed spec fn spec_rows(self) -> Seq<Seq<A>> {
        self.matrix@
    }

    /// A gate on `nr_bits` qubits with the given matrix; `ShapeMismatch`
    /// unless the matrix has `2^nr_bits` rows and as many columns.
    pub fn new(name: String, cost: Cost, nr_bits: usize, matrix: CMatrix<A>) -> (r: Result<
        Self,
        Error,
    >)
        ensures
            r is Ok <==> matrix.spec_rows() == pow2(nr_bits as nat) && matrix.spec_cols() == pow2(
                nr_bits as nat,
            ),
            r is Err ==> r == Err::<Self, Error>(Error::ShapeMismatch),
            r matches Ok(g) ==> g.spec_name() == name@ && g.spec_cost() == cost && g.spec_bits()
                == nr_bits && g.spec_rows() == matrix@,
    {
        let rows = matrix.rows();
        let cols = matrix.cols();
        match dimension(nr_bits) {
            Some(d) => {
                if rows == d && cols == d {
                    Ok(MatrixGate { name, price: cost, nr_bits, matrix })
                } else {
                    Err(Error::ShapeMismatch)
                }
            },
            None => Err(Error::ShapeMismatch),
        }
    }
}

impl<A: Amplitude> Gate for MatrixGate<A> {
    closed spec fn spec_nr_affected_bits(&self) -> nat {
        self.nr_bits as nat
    }

    fn cost(&self) -> (c: Cost)
        ensures
            c == self.spec_cost(),
    {
        self.price
    }

    fn description(&self) -> (d: &str)
        ensures
            d@ == self.spec_name(),
    {
        self.name.as_str()
    }

    fn nr_affected_bits(&self) -> (k: usize)
        ensures
            k == self.spec_bits(),
    {
        self.nr_bits
    }
}

impl<A: Amplitude> Unitary<A> for MatrixGate<A> {
    closed spec fn spec_matrix(&self) -> Seq<Seq<A>> {
        self.matrix@
    }

    open spec fn spec_transform(&self, fiber: Seq<A>) -> Seq<A> {
        dense_transform(self.spec_matrix(), fiber)
    }

    fn matrix(&self) -> (m: CMatrix<A>)
        ensures
            m@ == self.spec_rows(),
    {
        proof {
            use_type_invariant(self);
        }
        self.matrix.clone()
    }

    fn apply_slice(&self, state: &mut [A]) {
        proof {
            use_type_invariant(self);
            lemma_pow2_pos(self.nr_bits as nat);
        }
        dense_apply_slice(&self.matrix, state);
        proof {
            crate::gates::lemma_same_kernel(
                dense_kernel(self.matrix@),
                |f: Seq<A>| self.spec_transform(f),
                pow2(self.nr_bits as nat),
                old(state)@,
                1,
            );
        }
    }

    fn apply_mat_slice(&self, state: &mut [A], nr_cols: usize) {
        proof {
            use_type_invariant(self);
            lemma_pow2_pos(self.nr_bits as nat);
            lemma_mat_slice_image(
                |f: Seq<A>| self.spec_transform(f),
                pow2(self.nr_bits as nat),
                old(state)@,
                nr_cols as nat,
            );
        }
        dense_apply_slice(&self.matrix, state);
        proof {
            crate::gates::lemma_same_kernel(
                dense_kernel(self.matrix@),
                |f: Seq<A>| self.spec_transform(f),
                pow2(self.nr_bits as nat),
                old(state)@,
                1,
            );
        }
    }
}

} // verus!
