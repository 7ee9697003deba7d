//! One line: a gate on one qubit, applied block by block.
//!
//! The positions that agree in all qubits before the line form a block of
//! twice the stride; a gate on the line acts on each block as on a slice.

use crate::amplitude::Amplitude;
use crate::gates::{
    kernel_of, lemma_mat_slice_image, lemma_same_kernel, lemma_slice_image_pair, slice_image,
    Unitary,
};
use crate::lines::{bit_at, fiber_offset, gate_image, local_index, origin_of, state_fiber};
use vstd::arithmetic::div_mod::{lemma_fundamental_div_mod, lemma_fundamental_div_mod_converse};
use vstd::arithmetic::power2::{lemma2_to64, lemma_pow2_pos, pow2};
use vstd::prelude::*;

verus! {

/// Applies `gate` to the `block` amplitudes of `state` from `start` on, and
/// leaves the others alone.
fn apply_block<A: Amplitude, G: Unitary<A>>(gate: &G, state: &mut [A], start: usize, block: usize)
    requires
        start + block <= old(state)@.len(),
        (block as nat) % pow2(gate.spec_nr_affected_bits()) == 0,
    ensures
        final(state)@.len() == old(state)@.len(),
        forall|j: int| 0 <= j < start ==> final(state)@[j] == old(state)@[j],
        forall|j: int| start + block <= j < old(state)@.len() ==> final(state)@[j] == old(state)@[j],
        forall|j: int|
            start <= j < start + block ==> final(state)@[j] == slice_image(
                kernel_of(gate),
                pow2(gate.spec_nr_affected_bits()),
                old(state)@.subrange(start as int, start + block),
            )[j - start],
{
    let (head, rest) = state.split_at_mut(start);
    let (mid, tail) = rest.split_at_mut(block);
    let ghost before = mid@;
    gate.apply_slice(mid);
    proof {
        assert(before =~= old(state)@.subrange(start as int, start + block));
        lemma_same_kernel(
            |f: Seq<A>| gate.spec_transform(f),
            kernel_of(gate),
            pow2(gate.spec_nr_affected_bits()),
            before,
            1,
        );
    }
}

/// Applies `gate` to the rows of the matrix with `nr_cols` columns that make
/// up the `block` amplitudes of `state` from `start` on, and leaves the
/// others alone.
fn apply_block_mat<A: Amplitude, G: Unitary<A>>(
    gate: &G,
    state: &mut [A],
    start: usize,
    block: usize,
    nr_cols: usize,
)
    requires
        start + block <= old(state)@.len(),
        nr_cols > 0,
        (block as nat) % (nr_cols as nat) == 0,
        ((block as nat) / (nr_cols as nat)) % pow2(gate.spec_nr_affected_bits()) == 0,
    ensures
        final(state)@.len() == old(state)@.len(),
        forall|j: int| 0 <= j < start ==> final(state)@[j] == old(state)@[j],
        forall|j: int| start + block <= j < old(state)@.len() ==> final(state)@[j] == old(state)@[j],
        forall|j: int|
            start <= j < start + block ==> final(state)@[j] == slice_image(
                kernel_of(gate),
                pow2(gate.spec_nr_affected_bits()),
                old(state)@.subrange(start as int, start + block),
            )[j - start],
{
    let (head, rest) = state.split_at_mut(start);
    let (mid, tail) = rest.split_at_mut(block);
    let ghost before = mid@;
    gate.apply_mat_slice(mid, nr_cols);
    proof {
        assert(before =~= old(state)@.subrange(start as int, start + block));
        lemma_pow2_pos(gate.spec_nr_affected_bits());
        lemma_mat_slice_image(
            |f: Seq<A>| gate.spec_transform(f),
            pow2(gate.spec_nr_affected_bits()),
            before,
            nr_cols as nat,
        );
        lemma_same_kernel(
            |f: Seq<A>| gate.spec_transform(f),
            kernel_of(gate),
            pow2(gate.spec_nr_affected_bits()),
            before,
            1,
        );
    }
}

/// For a single line, the entry of the image at `j` is computed from the
/// pair of amplitudes one stride apart that `j` belongs to.
pub proof fn lemma_unary_image<A>(t: spec_fn(Seq<A>) -> Seq<A>, w: int, s: Seq<A>, j: int)
    requires
        0 < w,
        0 <= j < s.len(),
        (s.len() as int) % (2 * w) == 0,
    ensures
        0 <= bit_at(j, w) <= 1,
        0 <= j - bit_at(j, w) * w,
        j - bit_at(j, w) * w + w < s.len(),
        local_index(seq![w], j) == bit_at(j, w),
        origin_of(seq![w], j) == j - bit_at(j, w) * w,
        state_fiber(s, seq![w], origin_of(seq![w], j)) == seq![
            s[j - bit_at(j, w) * w],
            s[j - bit_at(j, w) * w + w],
        ],
        gate_image(t, seq![w], s)[j] == t(
            seq![s[j - bit_at(j, w) * w], s[j - bit_at(j, w) * w + w]],
        )[bit_at(j, w)],
{
    let ws = seq![w];
    let none = ws.drop_last();
    lemma2_to64();
    assert(none.len() == 0);
    assert(ws.last() == w);
    let b = bit_at(j, w);
    crate::lines::lemma_bit_range(j, w);
    assert(local_index(none, j) == 0);
    assert(local_index(ws, j) == b);
    assert(fiber_offset(none, 0) == 0);
    assert(fiber_offset(ws, 0) == 0) by {
        assert(0int / 2 == 0 && 0int % 2 == 0);
    }
    assert(fiber_offset(ws, 1) == w) by {
        assert(1int / 2 == 0 && 1int % 2 == 1);
        assert(1 * w == w);
    }
    if b == 0 {
        assert(b * w == 0);
        crate::lines::lemma_bit_set_bound(j, w, s.len() as int);
    } else {
        assert(b * w == w);
        crate::lines::lemma_bit_clear(j, w);
    }
    let o = j - b * w;
    assert(fiber_offset(ws, b) == b * w);
    assert(state_fiber(s, ws, o) =~= seq![s[o], s[o + w]]);
}

/// Applies a gate on one qubit to the line of `state` with the given stride,
/// block by block.
pub(crate) fn apply_unary<A: Amplitude, G: Unitary<A>>(
    gate: &G,
    state: &mut [A],
    stride: usize,
    nr_cols: Option<usize>,
)
    requires
        gate.spec_nr_affected_bits() == 1,
        stride > 0,
        old(state)@.len() > 0,
        old(state)@.len() % (2 * stride) as nat == 0,
        nr_cols matches Some(c) ==> c > 0 && (stride as nat) % (c as nat) == 0,
    ensures
        final(state)@ == gate_image(kernel_of(gate), seq![stride as int], old(state)@),
{
    let len = state.len();
    proof {
        lemma2_to64();
        lemma_fundamental_div_mod(len as int, 2 * stride);
        let n = len as int / (2 * stride);
        assert(2 * stride <= len) by (nonlinear_arith)
            requires
                len == (2 * stride) * n,
                len > 0,
                stride > 0,
        ;
    }
    let block = 2 * stride;
    let ghost t = kernel_of(gate);
    let ghost image = gate_image(t, seq![stride as int], old(state)@);
    let ghost nblocks = len as int / (block as int);
    let ghost mut b: int = 0;
    let mut start: usize = 0;
    while start < len
        invariant
            gate.spec_nr_affected_bits() == 1,
            stride > 0,
            block == 2 * stride,
            nr_cols matches Some(c) ==> c > 0 && (stride as nat) % (c as nat) == 0,
            len == state@.len(),
            state@.len() == old(state)@.len(),
            len == block * nblocks,
            (len as int) % (block as int) == 0,
            start == block * b,
            0 <= b <= nblocks,
            t == kernel_of(gate),
            image == gate_image(t, seq![stride as int], old(state)@),
            forall|j: int| 0 <= j < start ==> state@[j] == image[j],
            forall|j: int| start <= j < len ==> state@[j] == old(state)@[j],
        decreases len - start,
    {
        proof {
            assert(block * (b + 1) <= block * nblocks) by (nonlinear_arith)
                requires
                    b < nblocks,
                    block > 0,
            {
                assert(b + 1 <= nblocks);
            }
            assert(b < nblocks) by (nonlinear_arith)
                requires
                    block * b < block * nblocks,
                    block > 0,
            ;
            assert(block * (b + 1) == block * b + block) by (nonlinear_arith);
            lemma2_to64();
        }
        let ghost before = state@;
        match nr_cols {
            Some(c) => {
                proof {
                    let rows = stride as int / (c as int);
                    lemma_fundamental_div_mod(stride as int, c as int);
                    assert(block == (2 * rows) * c) by (nonlinear_arith)
                        requires
                            block == 2 * stride,
                            stride == c * rows,
                    ;
                    lemma_fundamental_div_mod_converse(block as int, c as int, 2 * rows, 0);
                }
                apply_block_mat(gate, state, start, block, c);
            },
            None => {
                apply_block(gate, state, start, block);
            },
        }
        proof {
            let sub = old(state)@.subrange(start as int, start + block);
            assert(before.subrange(start as int, start + block) =~= sub);
            assert forall|j: int| start <= j < start + block implies state@[j] == image[j] by {
                let rho = j - start;
                let w = stride as int;
                lemma_slice_image_pair(t, sub, rho);
                lemma_unary_image(t, w, old(state)@, j);
                assert(sub.len() / 2 == w);
                if rho < w {
                    assert(j == (2 * b) * w + rho) by (nonlinear_arith)
                        requires
                            j == block * b + rho,
                            block == 2 * w,
                    ;
                    lemma_fundamental_div_mod_converse(j, w, 2 * b, rho);
                    assert(bit_at(j, w) == 0);
                    assert(seq![sub[rho], sub[rho + w]] =~= seq![
                        old(state)@[j],
                        old(state)@[j + w],
                    ]);
                } else {
                    assert(j == (2 * b + 1) * w + (rho - w)) by (nonlinear_arith)
                        requires
                            j == block * b + rho,
                            block == 2 * w,
                    ;
                    lemma_fundamental_div_mod_converse(j, w, 2 * b + 1, rho - w);
                    assert(bit_at(j, w) == 1);
                    assert(seq![sub[rho - w], sub[rho]] =~= seq![
                        old(state)@[j - w],
                        old(state)@[j],
                    ]);
                }
            }
            b = b + 1;
        }
        start = start + block;
    }
    proof {
        assert(state@ =~= image);
    }
}

} // verus!
