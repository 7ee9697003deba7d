//! Dense matrices of amplitudes, stored row by row.

use crate::amplitude::Amplitude;
use crate::error::Error;
use vstd::prelude::*;

verus! {

/// The rows of the `rows` by `cols` matrix whose entries, row by row, are `flat`.
pub open spec fn rows_of<A>(flat: Seq<A>, rows: nat, cols: nat) -> Seq<Seq<A>> {
    Seq::new(rows, |r: int| Seq::new(cols, |c: int| flat[r * cols + c]))
}

/// The rows of the identity matrix of dimension `n`.
pub open spec fn identity_rows<A: Amplitude>(n: nat) -> Seq<Seq<A>> {
    Seq::new(
        n,
        |r: int|
            Seq::new(
                n,
                |c: int|
                    if r == c {
                        A::spec_one()
                    } else {
                        A::spec_zero()
                    },
            ),
    )
}

/// Adds `src` to `dst`, entry by entry; `ShapeMismatch`, and nothing done,
/// unless both have the same length.
pub fn add_assign<A: Amplitude>(dst: &mut [A], src: &[A]) -> (r: Result<(), Error>)
    ensures
        r is Ok <==> old(dst)@.len() == src@.len(),
        r is Err ==> r == Err::<(), Error>(Error::ShapeMismatch) && final(dst)@ == old(dst)@,
        r is Ok ==> final(dst)@.len() == old(dst)@.len() && forall|j: int|
            0 <= j < src@.len() ==> #[trigger] final(dst)@[j] == old(dst)@[j].spec_plus(src@[j]),
{
    let n = dst.len();
    if src.len() != n {
        return Err(Error::ShapeMismatch);
    }
    let mut j: usize = 0;
    while j < n
        invariant
            j <= n,
            n == dst@.len(),
            n == src@.len(),
            dst@.len() == old(dst)@.len(),
            forall|t: int| 0 <= t < j ==> #[trigger] dst@[t] == old(dst)@[t].spec_plus(src@[t]),
            forall|t: int| j <= t < n ==> #[trigger] dst@[t] == old(dst)@[t],
        decreases n - j,
    {
        let a = dst[j];
        dst[j] = a.plus(src[j]);
        j += 1;
    }
    Ok(())
}

/// Subtracts `src` from `dst`, entry by entry; `ShapeMismatch`, and nothing
/// done, unless both have the same length.
pub fn sub_assign<A: Amplitude>(dst: &mut [A], src: &[A]) -> (r: Result<(), Error>)
    ensures
        r is Ok <==> old(dst)@.len() == src@.len(),
        r is Err ==> r == Err::<(), Error>(Error::ShapeMismatch) && final(dst)@ == old(dst)@,
        r is Ok ==> final(dst)@.len() == old(dst)@.len() && forall|j: int|
            0 <= j < src@.len() ==> #[trigger] final(dst)@[j] == old(dst)@[j].spec_minus(src@[j]),
{
    let n = dst.len();
    if src.len() != n {
        return Err(Error::ShapeMismatch);
    }
    let mut j: usize = 0;
    while j < n
        invariant
            j <= n,
            n == dst@.len(),
            n == src@.len(),
            dst@.len() == old(dst)@.len(),
            forall|t: int| 0 <= t < j ==> #[trigger] dst@[t] == old(dst)@[t].spec_minus(src@[t]),
            forall|t: int| j <= t < n ==> #[trigger] dst@[t] == old(dst)@[t],
        decreases n - j,
    {
        let a = dst[j];
        dst[j] = a.minus(src[j]);
        j += 1;
    }
    Ok(())
}

/// Multiplies every entry of `dst` by `factor`.
pub fn scale<A: Amplitude>(dst: &mut [A], factor: A)
    ensures
        final(dst)@.len() == old(dst)@.len(),
        forall|j: int|
            0 <= j < old(dst)@.len() ==> #[trigger] final(dst)@[j] == old(dst)@[j].spec_times(
                factor,
            ),
{
    let n = dst.len();
    let mut j: usize = 0;
    while j < n
        invariant
            j <= n,
            n == dst@.len(),
            dst@.len() == old(dst)@.len(),
            forall|t: int| 0 <= t < j ==> #[trigger] dst@[t] == old(dst)@[t].spec_times(factor),
            forall|t: int| j <= t < n ==> #[trigger] dst@[t] == old(dst)@[t],
        decreases n - j,
    {
        let a = dst[j];
        dst[j] = a.times(factor);
        j += 1;
    }
}

/// A dense matrix. Its view is the sequence of its rows.
#[derive(Debug, PartialEq)]
pub struct CMatrix<A> {
    nr_rows: usize,
    nr_cols: usize,
    data: Vec<A>,
}

impl<A> View for CMatrix<A> {
    type V = Seq<Seq<A>>;

    open spec fn view(&self) -> Seq<Seq<A>> {
        rows_of(self.spec_flat(), self.spec_rows(), self.spec_cols())
    }
}

impl<A> CMatrix<A> {
    #[verifier::type_invariant]
    spec fn well_formed(self) -> bool {
        self.data@.len() == self.nr_rows * self.nr_cols
    }

    /// The number of rows.
    pub closed spec fn spec_rows(self) -> nat {
        self.nr_rows as nat
    }

    /// The number of columns.
    pub closed spec fn spec_cols(self) -> nat {
        self.nr_cols as nat
    }

    /// The entries, row by row.
    pub closed spec fn spec_flat(self) -> Seq<A> {
        self.data@
    }

    /// The matrix of the given dimensions whose entries, row by row, are
    /// `data`; `ShapeMismatch` unless `data` holds exactly `rows * cols` entries.
    pub fn new(rows: usize, cols: usize, data: Vec<A>) -> (r: Result<Self, Error>)
        ensures
            r is Ok <==> data@.len() == rows * cols,
            r is Err ==> r == Err::<Self, Error>(Error::ShapeMismatch),
            r matches Ok(m) ==> m.spec_rows() == rows && m.spec_cols() == cols && m.spec_flat()
                == data@,
    {
        let len = data.len();
        match rows.checked_mul(cols) {
            Some(n) => {
                if n == len {
                    Ok(CMatrix { nr_rows: rows, nr_cols: cols, data })
                } else {
                    Err(Error::ShapeMismatch)
                }
            },
            None => Err(Error::ShapeMismatch),
        }
    }

    /// The number of rows.
    pub fn rows(&self) -> (n: usize)
        ensures
            n == self.spec_rows(),
    {
        self.nr_rows
    }

    /// The number of columns.
    pub fn cols(&self) -> (n: usize)
        ensures
            n == self.spec_cols(),
    {
        self.nr_cols
    }

    /// The number of entries, `rows * cols`.
    pub fn len(&self) -> (n: usize)
        ensures
            n == self.spec_rows() * self.spec_cols(),
            n == self.spec_flat().len(),
    {
        proof {
            use_type_invariant(self);
        }
        self.data.len()
    }

    /// The entries, row by row; the matrix is given up.
    pub fn into_flat(self) -> (data: Vec<A>)
        ensures
            data@ == self.spec_flat(),
            data@.len() == self.spec_rows() * self.spec_cols(),
    {
        proof {
            use_type_invariant(&self);
        }
        self.data
    }

    /// Puts `a` in row `r` and column `c`, and changes nothing else.
    pub fn set(&mut self, r: usize, c: usize, a: A)
        requires
            r < old(self).spec_rows(),
            c < old(self).spec_cols(),
        ensures
            final(self).spec_rows() == old(self).spec_rows(),
            final(self).spec_cols() == old(self).spec_cols(),
            final(self).spec_flat() == old(self).spec_flat().update(
                r * old(self).spec_cols() + c,
                a,
            ),
    {
        let len = self.data.len();
        proof {
            use_type_invariant(&*self);
            lemma_entry_index(r as int, c as int, self.nr_rows as int, self.nr_cols as int);
        }
        self.data[r * self.nr_cols + c] = a;
    }

    /// The entries of row `r`, without copying.
    pub fn row(&self, r: usize) -> (s: &[A])
        requires
            r < self.spec_rows(),
        ensures
            s@ == self@[r as int],
    {
        let len = self.data.len();
        proof {
            use_type_invariant(self);
            lemma_entry_index(r as int, 0, self.nr_rows as int, self.nr_cols as int + 1);
            assert((r + 1) * self.nr_cols <= self.nr_rows * self.nr_cols) by (nonlinear_arith)
                requires
                    r < self.nr_rows,
            ;
            assert((r + 1) * self.nr_cols == r * self.nr_cols + self.nr_cols) by (nonlinear_arith);
            assert(0 <= r * self.nr_cols) by (nonlinear_arith);
        }
        let start = r * self.nr_cols;
        let s = vstd::slice::slice_subrange(self.data.as_slice(), start, start + self.nr_cols);
        proof {
            assert(s@ =~= self@[r as int]);
        }
        s
    }

    /// The entries, row by row, without copying.
    pub fn as_slice(&self) -> (s: &[A])
        ensures
            s@ == self.spec_flat(),
            s@.len() == self.spec_rows() * self.spec_cols(),
    {
        proof {
            use_type_invariant(self);
        }
        self.data.as_slice()
    }
}

impl<A> CMatrix<A> {
    /// The rows of a matrix with two rows and two columns.
    pub proof fn lemma_two_by_two(m: Self)
        requires
            m.spec_rows() == 2,
            m.spec_cols() == 2,
            m.spec_flat().len() == 4,
        ensures
            m@ == seq![
                seq![m.spec_flat()[0], m.spec_flat()[1]],
                seq![m.spec_flat()[2], m.spec_flat()[3]],
            ],
    {
        let rows = seq![
            seq![m.spec_flat()[0], m.spec_flat()[1]],
            seq![m.spec_flat()[2], m.spec_flat()[3]],
        ];
        assert(m@[0] =~= rows[0]);
        assert(m@[1] =~= rows[1]);
        assert(m@ =~= rows);
    }
}

impl<A: Copy> Clone for CMatrix<A> {
    fn clone(&self) -> (m: Self)
        ensures
            m.spec_rows() == self.spec_rows(),
            m.spec_cols() == self.spec_cols(),
            m.spec_flat() == self.spec_flat(),
            m@ == self@,
    {
        proof {
            use_type_invariant(self);
        }
        let n = self.data.len();
        let mut data: Vec<A> = Vec::new();
        let mut j: usize = 0;
        while j < n
            invariant
                j <= n,
                n == self.data@.len(),
                data@.len() == j,
                forall|t: int| 0 <= t < j ==> data@[t] == self.data@[t],
            decreases n - j,
        {
            data.push(self.data[j]);
            j += 1;
        }
        proof {
            assert(data@ =~= self.data@);
        }
        CMatrix { nr_rows: self.nr_rows, nr_cols: self.nr_cols, data }
    }
}

impl<A: Copy> CMatrix<A> {
    /// The entry in row `r` and column `c`.
    pub fn get(&self, r: usize, c: usize) -> (a: A)
        requires
            r < self.spec_rows(),
            c < self.spec_cols(),
        ensures
            a == self@[r as int][c as int],
    {
        let len = self.data.len();
        proof {
            use_type_invariant(self);
            lemma_entry_index(r as int, c as int, self.nr_rows as int, self.nr_cols as int);
        }
        self.data[r * self.nr_cols + c]
    }
}

impl<A: Amplitude> CMatrix<A> {
    /// Adds `rhs` to this matrix, entry by entry; `ShapeMismatch`, and nothing
    /// done, unless both have the same numbers of rows and of columns.
    pub fn add_assign(&mut self, rhs: &CMatrix<A>) -> (r: Result<(), Error>)
        ensures
            r is Ok <==> old(self).spec_rows() == rhs.spec_rows() && old(self).spec_cols()
                == rhs.spec_cols(),
            r is Err ==> r == Err::<(), Error>(Error::ShapeMismatch) && *final(self) == *old(self),
            final(self).spec_rows() == old(self).spec_rows(),
            final(self).spec_cols() == old(self).spec_cols(),
            r is Ok ==> final(self).spec_flat().len() == old(self).spec_flat().len() && forall|
                j: int,
            |
                0 <= j < old(self).spec_flat().len() ==> #[trigger] final(self).spec_flat()[j]
                    == old(self).spec_flat()[j].spec_plus(rhs.spec_flat()[j]),
    {
        if self.nr_rows != rhs.nr_rows || self.nr_cols != rhs.nr_cols {
            return Err(Error::ShapeMismatch);
        }
        proof {
            use_type_invariant(&*self);
            use_type_invariant(rhs);
        }
        let n = self.data.len();
        let mut j: usize = 0;
        while j < n
            invariant
                j <= n,
                n == self.data@.len(),
                n == rhs.data@.len(),
                self.nr_rows == old(self).nr_rows,
                self.nr_cols == old(self).nr_cols,
                self.data@.len() == old(self).data@.len(),
                n == self.nr_rows * self.nr_cols,
                forall|t: int|
                    0 <= t < j ==> #[trigger] self.data@[t] == old(self).data@[t].spec_plus(
                        rhs.data@[t],
                    ),
                forall|t: int| j <= t < n ==> #[trigger] self.data@[t] == old(self).data@[t],
            decreases n - j,
        {
            let a = self.data[j];
            self.data[j] = a.plus(rhs.data[j]);
            j += 1;
        }
        Ok(())
    }

    /// Subtracts `rhs` from this matrix, entry by entry; `ShapeMismatch`, and
    /// nothing done, unless both have the same numbers of rows and of columns.
    pub fn sub_assign(&mut self, rhs: &CMatrix<A>) -> (r: Result<(), Error>)
        ensures
            r is Ok <==> old(self).spec_rows() == rhs.spec_rows() && old(self).spec_cols()
                == rhs.spec_cols(),
            r is Err ==> r == Err::<(), Error>(Error::ShapeMismatch) && *final(self) == *old(self),
            final(self).spec_rows() == old(self).spec_rows(),
            final(self).spec_cols() == old(self).spec_cols(),
            r is Ok ==> final(self).spec_flat().len() == old(self).spec_flat().len() && forall|
                j: int,
            |
                0 <= j < old(self).spec_flat().len() ==> #[trigger] final(self).spec_flat()[j]
                    == old(self).spec_flat()[j].spec_minus(rhs.spec_flat()[j]),
    {
        if self.nr_rows != rhs.nr_rows || self.nr_cols != rhs.nr_cols {
            return Err(Error::ShapeMismatch);
        }
        proof {
            use_type_invariant(&*self);
            use_type_invariant(rhs);
        }
        let n = self.data.len();
        let mut j: usize = 0;
        while j < n
            invariant
                j <= n,
                n == self.data@.len(),
                n == rhs.data@.len(),
                self.nr_rows == old(self).nr_rows,
                self.nr_cols == old(self).nr_cols,
                self.data@.len() == old(self).data@.len(),
                n == self.nr_rows * self.nr_cols,
                forall|t: int|
                    0 <= t < j ==> #[trigger] self.data@[t] == old(self).data@[t].spec_minus(
                        rhs.data@[t],
                    ),
                forall|t: int| j <= t < n ==> #[trigger] self.data@[t] == old(self).data@[t],
            decreases n - j,
        {
            let a = self.data[j];
            self.data[j] = a.minus(rhs.data[j]);
            j += 1;
        }
        Ok(())
    }

    /// Multiplies every entry of this matrix by `factor`.
    pub fn scale(&mut self, factor: A)
        ensures
            final(self).spec_rows() == old(self).spec_rows(),
            final(self).spec_cols() == old(self).spec_cols(),
            final(self).spec_flat().len() == old(self).spec_flat().len(),
            forall|j: int|
                0 <= j < old(self).spec_flat().len() ==> #[trigger] final(self).spec_flat()[j]
                    == old(self).spec_flat()[j].spec_times(factor),
    {
        proof {
            use_type_invariant(&*self);
        }
        let n = self.data.len();
        let mut j: usize = 0;
        while j < n
            invariant
                j <= n,
                n == self.data@.len(),
                self.nr_rows == old(self).nr_rows,
                self.nr_cols == old(self).nr_cols,
                self.data@.len() == old(self).data@.len(),
                n == self.nr_rows * self.nr_cols,
                forall|t: int|
                    0 <= t < j ==> #[trigger] self.data@[t] == old(self).data@[t].spec_times(
                        factor,
                    ),
                forall|t: int| j <= t < n ==> #[trigger] self.data@[t] == old(self).data@[t],
            decreases n - j,
        {
            let a = self.data[j];
            self.data[j] = a.times(factor);
            j += 1;
        }
    }

    /// The identity matrix of dimension `n`.
    pub fn eye(n: usize) -> (m: Self)
        requires
            n * n <= usize::MAX,
        ensures
            m.spec_rows() == n,
            m.spec_cols() == n,
            m@ == identity_rows::<A>(n as nat),
    {
        let mut data: Vec<A> = Vec::new();
        let mut r: usize = 0;
        while r < n
            invariant
                r <= n,
                n * n <= usize::MAX,
                data@.len() == r * n,
                forall|i: int, j: int|
                    0 <= i < r && 0 <= j < n ==> #[trigger] data@[i * n + j] == (if i == j {
                        A::spec_one()
                    } else {
                        A::spec_zero()
                    }),
            decreases n - r,
        {
            let mut c: usize = 0;
            while c < n
                invariant
                    r < n,
                    c <= n,
                    n * n <= usize::MAX,
                    data@.len() == r * n + c,
                    forall|i: int, j: int|
                        0 <= i < r && 0 <= j < n ==> #[trigger] data@[i * n + j] == (if i == j {
                            A::spec_one()
                        } else {
                            A::spec_zero()
                        }),
                    forall|j: int|
                        0 <= j < c ==> #[trigger] data@[r * n + j] == (if r as int == j {
                            A::spec_one()
                        } else {
                            A::spec_zero()
                        }),
                decreases n - c,
            {
                let ghost before = data@;
                data.push(
                    if r == c {
                        A::one()
                    } else {
                        A::zero()
                    },
                );
                proof {
                    assert forall|i: int, j: int| 0 <= i < r && 0 <= j < n implies #[trigger] data@[i
                        * n + j] == (if i == j {
                        A::spec_one()
                    } else {
                        A::spec_zero()
                    }) by {
                        lemma_entry_index(i, j, r as int, n as int);
                        assert(data@[i * n + j] == before[i * n + j]);
                    }
                }
                c += 1;
            }
            proof {
                assert(r * n + n == (r + 1) * n) by (nonlinear_arith);
                assert forall|i: int, j: int| 0 <= i < r + 1 && 0 <= j < n implies #[trigger] data@[i
                    * n + j] == (if i == j {
                    A::spec_one()
                } else {
                    A::spec_zero()
                }) by {
                }
            }
            r += 1;
        }
        let m = CMatrix { nr_rows: n, nr_cols: n, data };
        proof {
            assert(m@ =~= identity_rows::<A>(n as nat)) by {
                assert forall|i: int| 0 <= i < n implies #[trigger] m@[i] =~= identity_rows::<A>(
                    n as nat,
                )[i] by {
                    assert forall|j: int| 0 <= j < n implies m@[i][j] == identity_rows::<A>(
                        n as nat,
                    )[i][j] by {
                        assert(m@[i][j] == m.data@[i * n + j]);
                    }
                }
            }
        }
        m
    }
}

/// The flat index of an entry lies inside the flat sequence.
pub proof fn lemma_entry_index(r: int, c: int, rows: int, cols: int)
    requires
        0 <= r < rows,
        0 <= c < cols,
    ensures
        0 <= r * cols + c < rows * cols,
{
    assert(r * cols + c < rows * cols) by (nonlinear_arith)
        requires
            0 <= r < rows,
            0 <= c < cols,
    {
        assert((r + 1) * cols <= rows * cols);
    }
    assert(0 <= r * cols) by (nonlinear_arith)
        requires
            0 <= r,
            0 <= cols,
    ;
}

} // verus!
