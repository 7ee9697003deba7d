//! Batches: one state per column of a matrix stored row by row.
//!
//! The lines of the rows of the matrix are lines of its entries, with every
//! stride multiplied by the number of columns.

use crate::gates::column_of;
use crate::lines::{
    bit_at, fiber_offset, gate_image, lemma_compose, lemma_decompose, local_index, origin_of,
    state_fiber, valid_strides,
};
use crate::qustate::fibers::as_ints;
use vstd::arithmetic::div_mod::{
    lemma_div_denominator, lemma_fundamental_div_mod, lemma_fundamental_div_mod_converse,
    lemma_mod_bound,
};
use vstd::arithmetic::power2::pow2;
use vstd::prelude::*;

verus! {

/// The strides `ws` of the rows of a matrix with `cols` columns, as strides
/// of its entries stored row by row.
pub open spec fn scaled(ws: Seq<int>, cols: int) -> Seq<int> {
    Seq::new(ws.len(), |t: int| ws[t] * cols)
}

/// The matrix, row by row, in which the image of every column of `s`
/// takes the place of the column.
pub open spec fn mat_gate_image<A>(
    t: spec_fn(Seq<A>) -> Seq<A>,
    ws: Seq<int>,
    s: Seq<A>,
    nr_cols: nat,
) -> Seq<A> {
    Seq::new(
        s.len(),
        |idx: int|
            gate_image(t, ws, column_of(s, nr_cols, idx % (nr_cols as int)))[idx / (
            nr_cols as int)],
    )
}

/// The lines but the last of scaled strides are the scaled lines but the last.
proof fn lemma_scaled_drop_last(ws: Seq<int>, cols: int)
    requires
        ws.len() > 0,
    ensures
        scaled(ws, cols).drop_last() == scaled(ws.drop_last(), cols),
        scaled(ws, cols).last() == ws.last() * cols,
{
    assert(scaled(ws, cols).drop_last() =~= scaled(ws.drop_last(), cols));
}

/// The qubit of an entry on a line of the matrix is the qubit of its row.
proof fn lemma_scaled_bit(idx: int, w: int, cols: int)
    requires
        0 <= idx,
        0 < w,
        0 < cols,
    ensures
        bit_at(idx, w * cols) == bit_at(idx / cols, w),
{
    lemma_div_denominator(idx, cols, w);
    assert(cols * w == w * cols) by (nonlinear_arith);
}

/// The local index of an entry is the local index of its row.
proof fn lemma_scaled_local_index(ws: Seq<int>, cols: int, idx: int)
    requires
        0 <= idx,
        0 < cols,
        forall|t: int| 0 <= t < ws.len() ==> #[trigger] ws[t] > 0,
    ensures
        local_index(scaled(ws, cols), idx) == local_index(ws, idx / cols),
    decreases ws.len(),
{
    if ws.len() > 0 {
        lemma_scaled_drop_last(ws, cols);
        let rest = ws.drop_last();
        assert forall|t: int| 0 <= t < rest.len() implies #[trigger] rest[t] > 0 by {
            assert(rest[t] == ws[t]);
        }
        lemma_scaled_local_index(rest, cols, idx);
        assert(ws.last() == ws[ws.len() - 1]);
        lemma_scaled_bit(idx, ws.last(), cols);
    }
}

/// The offsets of a fiber of entries are the offsets of the fiber of rows,
/// in rows.
proof fn lemma_scaled_offset(ws: Seq<int>, cols: int, c: int)
    ensures
        fiber_offset(scaled(ws, cols), c) == fiber_offset(ws, c) * cols,
    decreases ws.len(),
{
    if ws.len() > 0 {
        lemma_scaled_drop_last(ws, cols);
        lemma_scaled_offset(ws.drop_last(), cols, c / 2);
        let a = fiber_offset(ws.drop_last(), c / 2);
        let b = c % 2;
        let w = ws.last();
        assert((a + b * w) * cols == a * cols + b * (w * cols)) by (nonlinear_arith);
    } else {
        assert(0 * cols == 0);
    }
}

/// Strides of different lines of the rows, scaled, are strides of different
/// lines of the entries.
pub(crate) proof fn lemma_scaled_valid(ws: Seq<int>, rows: int, cols: int)
    requires
        valid_strides(ws, rows),
        0 < cols,
    ensures
        valid_strides(scaled(ws, cols), rows * cols),
{
    let flat = scaled(ws, cols);
    assert forall|t: int| 0 <= t < flat.len() implies #[trigger] flat[t] > 0 && (rows * cols) % (2
        * flat[t]) == 0 by {
        let w = ws[t];
        assert(w > 0 && rows % (2 * w) == 0);
        lemma_fundamental_div_mod(rows, 2 * w);
        let n = rows / (2 * w);
        assert(w * cols > 0) by (nonlinear_arith)
            requires
                w > 0,
                cols > 0,
        ;
        assert(rows * cols == n * (2 * (w * cols)) + 0) by (nonlinear_arith)
            requires
                rows == (2 * w) * n,
        ;
        lemma_fundamental_div_mod_converse(rows * cols, 2 * (w * cols), n, 0);
    }
    assert forall|a: int, b: int|
        0 <= a < flat.len() && 0 <= b < flat.len() && a != b implies crate::lines::independent(
        #[trigger] flat[a],
        #[trigger] flat[b],
    ) by {
        let w = ws[a];
        let v = ws[b];
        assert(crate::lines::independent(w, v));
        assert(w * cols > 0 && v * cols > 0) by (nonlinear_arith)
            requires
                w > 0,
                v > 0,
                cols > 0,
        ;
        if w % (2 * v) == 0 {
            lemma_fundamental_div_mod(w, 2 * v);
            let e = w / (2 * v);
            assert(w * cols == e * (2 * (v * cols)) + 0) by (nonlinear_arith)
                requires
                    w == (2 * v) * e,
            ;
            lemma_fundamental_div_mod_converse(w * cols, 2 * (v * cols), e, 0);
        } else {
            lemma_fundamental_div_mod(v, 2 * w);
            let e = v / (2 * w);
            assert(v * cols == e * (2 * (w * cols)) + 0) by (nonlinear_arith)
                requires
                    v == (2 * w) * e,
            ;
            lemma_fundamental_div_mod_converse(v * cols, 2 * (w * cols), e, 0);
        }
    }
}

/// Applying a gate to lines of every column of a matrix stored row by row is
/// applying it to the scaled lines of the entries.
pub proof fn lemma_mat_gate_image<A>(
    t: spec_fn(Seq<A>) -> Seq<A>,
    ws: Seq<int>,
    s: Seq<A>,
    nr_cols: nat,
)
    requires
        nr_cols > 0,
        s.len() % nr_cols == 0,
        valid_strides(ws, (s.len() / nr_cols) as int),
    ensures
        mat_gate_image(t, ws, s, nr_cols) == gate_image(t, scaled(ws, nr_cols as int), s),
{
    let len = s.len() as int;
    let cols = nr_cols as int;
    let rows = len / cols;
    let flat = scaled(ws, cols);
    lemma_fundamental_div_mod(len, cols);
    assert(rows * cols == len) by (nonlinear_arith)
        requires
            len == cols * rows,
    ;
    assert forall|idx: int| 0 <= idx < len implies mat_gate_image(t, ws, s, nr_cols)[idx]
        == gate_image(t, flat, s)[idx] by {
        let r = idx / cols;
        let c = idx % cols;
        lemma_fundamental_div_mod(idx, cols);
        lemma_mod_bound(idx, cols);
        assert(0 <= r < rows) by (nonlinear_arith)
            requires
                idx == cols * r + c,
                0 <= c < cols,
                0 <= idx < len,
                len == cols * rows,
        ;
        let col = column_of(s, nr_cols, c);
        assert(col.len() == rows);
        lemma_scaled_local_index(ws, cols, idx);
        let k = local_index(ws, r);
        lemma_scaled_offset(ws, cols, k);
        lemma_decompose(ws, rows, r);
        let o = origin_of(ws, r);
        let of = origin_of(flat, idx);
        assert(of == o * cols + c) by (nonlinear_arith)
            requires
                of == idx - fiber_offset(ws, k) * cols,
                o == r - fiber_offset(ws, k),
                idx == cols * r + c,
        ;
        assert(state_fiber(col, ws, o) =~= state_fiber(s, flat, of)) by {
            assert(flat.len() == ws.len());
            assert forall|e: int| 0 <= e < pow2(ws.len()) implies state_fiber(col, ws, o)[e]
                == state_fiber(s, flat, of)[e] by {
                lemma_compose(ws, rows, o, e);
                lemma_scaled_offset(ws, cols, e);
                let x = o + fiber_offset(ws, e);
                assert(x * cols + c == of + fiber_offset(ws, e) * cols) by (nonlinear_arith)
                    requires
                        x == o + fiber_offset(ws, e),
                        of == o * cols + c,
                ;
            }
        }
    }
    assert(mat_gate_image(t, ws, s, nr_cols) =~= gate_image(t, flat, s));
}

/// The strides of the entries of a matrix with `nr_cols` columns, from the
/// strides of its rows.
pub(crate) fn scale_strides(ws: &[usize], nr_cols: usize, rows: usize) -> (flat: Vec<usize>)
    requires
        nr_cols > 0,
        rows > 0,
        rows * nr_cols <= usize::MAX,
        valid_strides(as_ints(ws@), rows as int),
    ensures
        as_ints(flat@) == scaled(as_ints(ws@), nr_cols as int),
{
    let k = ws.len();
    let mut flat: Vec<usize> = Vec::new();
    let mut t: usize = 0;
    while t < k
        invariant
            t <= k,
            k == ws@.len(),
            nr_cols > 0,
            rows > 0,
            rows * nr_cols <= usize::MAX,
            valid_strides(as_ints(ws@), rows as int),
            flat@.len() == t,
            forall|u: int| 0 <= u < t ==> #[trigger] flat@[u] == ws@[u] * nr_cols,
        decreases k - t,
    {
        let w = ws[t];
        proof {
            let all = as_ints(ws@);
            assert(all[t as int] == w);
            assert(all[t as int] > 0 && (rows as int) % (2 * all[t as int]) == 0);
            lemma_fundamental_div_mod(rows as int, 2 * w);
            let n = rows as int / (2 * w);
            assert(w <= rows) by (nonlinear_arith)
                requires
                    rows == (2 * w) * n,
                    w > 0,
                    rows > 0,
            ;
            assert(w * nr_cols <= rows * nr_cols) by (nonlinear_arith)
                requires
                    w <= rows,
                    nr_cols > 0,
            ;
        }
        flat.push(w * nr_cols);
        t += 1;
    }
    proof {
        assert(as_ints(flat@) =~= scaled(as_ints(ws@), nr_cols as int));
    }
    flat
}

} // verus!
