//! Identities between the built-in gates, for exact amplitudes.
//!
//! Each identity is first shown on a single fiber, from the ring laws, and
//! then carried over to slices and to the lines of a state. With rounding
//! arithmetic the two sides of an identity agree only up to rounding.

use crate::algebra::{
    lemma_halve_double, lemma_left_distributes, lemma_negate_times, lemma_one_times,
    lemma_plus_interchange, lemma_quarter_turns_cancel, lemma_sum_and_difference,
    lemma_times_distributes_minus, lemma_zero_plus, lemma_zero_times,
};
use crate::amplitude::{Amplitude, ExactAmplitude};
use crate::cmatrix::identity_rows;
use crate::gates::dense::{dense_kernel, dense_transform, row_dot};
use crate::gates::hadamard::{hadamard_matrix, hadamard_pair};
use crate::gates::identity::identity_pair;
use crate::gates::s::{phase_matrix, phase_pair};
use crate::gates::{fiber_of, kernel_of, slice_image, Sdg, Unitary, H, I, S};
use crate::lines::{
    fiber_offset, gate_image, has_line, is_origin, lemma_compose, lemma_decompose,
    lemma_strides_valid, local_index, origin_of, state_fiber, strides, valid_strides,
};
use vstd::arithmetic::power2::{lemma2_to64, pow2};
use vstd::prelude::*;

verus! {

/// Whether every amplitude of `s` is canonical.
pub open spec fn all_canonical<A: ExactAmplitude>(s: Seq<A>) -> bool {
    forall|j: int| 0 <= j < s.len() ==> (#[trigger] s[j]).canonical()
}

/// The fiber of an image at an origin is the image of the fiber.
pub proof fn lemma_image_fiber<A>(t: spec_fn(Seq<A>) -> Seq<A>, ws: Seq<int>, s: Seq<A>, o: int)
    requires
        valid_strides(ws, s.len() as int),
        0 <= o < s.len(),
        is_origin(ws, o),
        t(state_fiber(s, ws, o)).len() == pow2(ws.len()),
    ensures
        state_fiber(gate_image(t, ws, s), ws, o) == t(state_fiber(s, ws, o)),
{
    let image = gate_image(t, ws, s);
    let d = pow2(ws.len()) as int;
    assert forall|c: int| 0 <= c < d implies state_fiber(image, ws, o)[c] == t(
        state_fiber(s, ws, o),
    )[c] by {
        lemma_compose(ws, s.len() as int, o, c);
    }
    assert(state_fiber(image, ws, o) =~= t(state_fiber(s, ws, o)));
}

/// Two maps that agree on every fiber of a state give the same image.
pub proof fn lemma_gate_images_agree<A>(
    t1: spec_fn(Seq<A>) -> Seq<A>,
    t2: spec_fn(Seq<A>) -> Seq<A>,
    ws: Seq<int>,
    s: Seq<A>,
)
    requires
        valid_strides(ws, s.len() as int),
        forall|o: int|
            0 <= o < s.len() && is_origin(ws, o) ==> t1(#[trigger] state_fiber(s, ws, o)) == t2(
                state_fiber(s, ws, o),
            ),
    ensures
        gate_image(t1, ws, s) == gate_image(t2, ws, s),
{
    assert forall|j: int| 0 <= j < s.len() implies gate_image(t1, ws, s)[j] == gate_image(
        t2,
        ws,
        s,
    )[j] by {
        lemma_decompose(ws, s.len() as int, j);
    }
    assert(gate_image(t1, ws, s) =~= gate_image(t2, ws, s));
}

/// If `t2` undoes `t1` on every fiber of a state, then applying `t1` and then
/// `t2` on the same lines restores the state.
pub proof fn lemma_gate_round_trip<A>(
    t1: spec_fn(Seq<A>) -> Seq<A>,
    t2: spec_fn(Seq<A>) -> Seq<A>,
    ws: Seq<int>,
    s: Seq<A>,
)
    requires
        valid_strides(ws, s.len() as int),
        forall|o: int|
            0 <= o < s.len() && is_origin(ws, o) ==> t1(#[trigger] state_fiber(s, ws, o)).len()
                == pow2(ws.len()) && t2(t1(state_fiber(s, ws, o))) == state_fiber(s, ws, o),
    ensures
        gate_image(t2, ws, gate_image(t1, ws, s)) == s,
{
    let mid = gate_image(t1, ws, s);
    let back = gate_image(t2, ws, mid);
    assert forall|j: int| 0 <= j < s.len() implies back[j] == s[j] by {
        lemma_decompose(ws, s.len() as int, j);
        let o = origin_of(ws, j);
        let c = local_index(ws, j);
        lemma_image_fiber(t1, ws, s, o);
        assert(state_fiber(s, ws, o)[c] == s[o + fiber_offset(ws, c)]);
    }
    assert(back =~= s);
}

/// Two maps that agree on every fiber of a slice give the same image.
pub proof fn lemma_slice_images_agree<A>(
    t1: spec_fn(Seq<A>) -> Seq<A>,
    t2: spec_fn(Seq<A>) -> Seq<A>,
    d: nat,
    s: Seq<A>,
)
    requires
        d > 0,
        s.len() % d == 0,
        forall|j: int|
            0 <= j < s.len() / d ==> t1(#[trigger] fiber_of(s, d, j)) == t2(fiber_of(s, d, j)),
    ensures
        slice_image(t1, d, s) == slice_image(t2, d, s),
{
    let m = (s.len() / d) as int;
    assert forall|idx: int| 0 <= idx < s.len() implies slice_image(t1, d, s)[idx] == slice_image(
        t2,
        d,
        s,
    )[idx] by {
        vstd::arithmetic::div_mod::lemma_fundamental_div_mod(s.len() as int, d as int);
        assert(m > 0) by (nonlinear_arith)
            requires
                s.len() == d * m,
                s.len() > 0,
                d > 0,
        ;
        vstd::arithmetic::div_mod::lemma_mod_bound(idx, m);
    }
    assert(slice_image(t1, d, s) =~= slice_image(t2, d, s));
}

/// A pair of amplitudes is a sequence of its two entries.
proof fn lemma_pair<A>(f: Seq<A>)
    requires
        f.len() == 2,
    ensures
        f == seq![f[0], f[1]],
{
    assert(f =~= seq![f[0], f[1]]);
}

/// The Hadamard kernel is its own inverse.
pub proof fn lemma_hadamard_pair_involution<A: ExactAmplitude>(f: Seq<A>)
    requires
        f.len() == 2,
        all_canonical(f),
    ensures
        hadamard_pair(hadamard_pair(f)) == f,
{
    let a = f[0];
    let b = f[1];
    let h = A::spec_hsqrt2();
    let sum = a.spec_plus(b);
    let dif = a.spec_minus(b);
    let g = hadamard_pair(f);
    assert(g[0] == sum.spec_times(h));
    assert(g[1] == dif.spec_times(h));
    A::lemma_times_distributes(sum, dif, h);
    lemma_times_distributes_minus(sum, dif, h);
    lemma_sum_and_difference(a, b);
    lemma_halve_double(a);
    lemma_halve_double(b);
    lemma_pair(f);
    assert(hadamard_pair(g) =~= f);
}

/// The kernels of `S` and of its conjugate undo each other.
pub proof fn lemma_phase_pairs_cancel<A: ExactAmplitude>(f: Seq<A>)
    requires
        f.len() == 2,
        all_canonical(f),
    ensures
        phase_pair(phase_pair(f, A::spec_i()), A::spec_i().spec_negate()) == f,
        phase_pair(phase_pair(f, A::spec_i().spec_negate()), A::spec_i()) == f,
{
    lemma_quarter_turns_cancel(f[1]);
    lemma_pair(f);
    assert(phase_pair(phase_pair(f, A::spec_i()), A::spec_i().spec_negate()) =~= f);
    assert(phase_pair(phase_pair(f, A::spec_i().spec_negate()), A::spec_i()) =~= f);
}

/// The product of a row of two entries with a pair.
proof fn lemma_row_dot_pair<A: Amplitude>(row: Seq<A>, f: Seq<A>)
    ensures
        row_dot(row, f, 2) == A::spec_zero().spec_plus(row[0].spec_times(f[0])).spec_plus(
            row[1].spec_times(f[1]),
        ),
{
    reveal_with_fuel(row_dot, 3);
}

/// The product of the identity matrix with a pair is the pair.
pub proof fn lemma_identity_matches_matrix<A: ExactAmplitude>(f: Seq<A>)
    requires
        f.len() == 2,
        all_canonical(f),
    ensures
        dense_transform(identity_rows::<A>(2), f) == identity_pair(f),
{
    let m = identity_rows::<A>(2);
    let z = A::spec_zero();
    let a = f[0];
    let b = f[1];
    lemma_row_dot_pair(m[0], f);
    lemma_row_dot_pair(m[1], f);
    A::lemma_canonical_results(a, b);
    lemma_one_times(a);
    lemma_one_times(b);
    lemma_zero_times(a);
    lemma_zero_times(b);
    lemma_zero_plus(a);
    lemma_zero_plus(b);
    lemma_zero_plus(z);
    A::lemma_plus_zero(a);
    assert(dense_transform(m, f) =~= f);
}

/// The product of the Hadamard matrix with a pair is the image of the pair
/// under the Hadamard kernel.
pub proof fn lemma_hadamard_matches_matrix<A: ExactAmplitude>(f: Seq<A>)
    requires
        f.len() == 2,
        all_canonical(f),
    ensures
        dense_transform(hadamard_matrix::<A>(), f) == hadamard_pair(f),
{
    let m = hadamard_matrix::<A>();
    let h = A::spec_hsqrt2();
    let a = f[0];
    let b = f[1];
    lemma_row_dot_pair(m[0], f);
    lemma_row_dot_pair(m[1], f);
    A::lemma_canonical_results(h, a);
    A::lemma_canonical_results(h, b);
    lemma_zero_plus(h.spec_times(a));
    A::lemma_times_commutes(h, a);
    A::lemma_times_commutes(h, b);
    A::lemma_times_distributes(a, b, h);
    lemma_negate_times(h, b);
    lemma_times_distributes_minus(a, b, h);
    A::lemma_minus_is_plus_negate(a.spec_times(h), b.spec_times(h));
    assert(dense_transform(m, f) =~= hadamard_pair(f));
}

/// The product of the matrix with diagonal `(1, factor)` with a pair is the
/// image of the pair under the phase kernel with that factor.
pub proof fn lemma_phase_matches_matrix<A: ExactAmplitude>(f: Seq<A>, factor: A)
    requires
        f.len() == 2,
        all_canonical(f),
    ensures
        dense_transform(phase_matrix(factor), f) == phase_pair(f, factor),
{
    let m = phase_matrix(factor);
    let z = A::spec_zero();
    let a = f[0];
    let b = f[1];
    lemma_row_dot_pair(m[0], f);
    lemma_row_dot_pair(m[1], f);
    A::lemma_canonical_results(factor, b);
    A::lemma_canonical_results(a, b);
    lemma_one_times(a);
    lemma_zero_times(a);
    lemma_zero_times(b);
    lemma_zero_plus(a);
    lemma_zero_plus(z);
    A::lemma_plus_zero(a);
    lemma_zero_plus(factor.spec_times(b));
    A::lemma_times_commutes(factor, b);
    assert(dense_transform(m, f) =~= phase_pair(f, factor));
}

/// Whether `m` and `n` are matrices of two rows and two columns whose
/// product `n * m` is the identity matrix.
pub open spec fn is_left_inverse<A: ExactAmplitude>(n: Seq<Seq<A>>, m: Seq<Seq<A>>) -> bool {
    &&& m.len() == 2 && m[0].len() == 2 && m[1].len() == 2
    &&& n.len() == 2 && n[0].len() == 2 && n[1].len() == 2
    &&& n[0][0].spec_times(m[0][0]).spec_plus(n[0][1].spec_times(m[1][0])) == A::spec_one()
    &&& n[0][0].spec_times(m[0][1]).spec_plus(n[0][1].spec_times(m[1][1])) == A::spec_zero()
    &&& n[1][0].spec_times(m[0][0]).spec_plus(n[1][1].spec_times(m[1][0])) == A::spec_zero()
    &&& n[1][0].spec_times(m[0][1]).spec_plus(n[1][1].spec_times(m[1][1])) == A::spec_one()
}

/// The product of a row `(x, y)` with the product of a matrix `m` and a pair
/// `(a, b)` is the product of the row `(x, y) * m` with the pair.
proof fn lemma_row_of_product<A: ExactAmplitude>(x: A, y: A, m: Seq<Seq<A>>, a: A, b: A)
    ensures
        x.spec_times(m[0][0].spec_times(a).spec_plus(m[0][1].spec_times(b))).spec_plus(
            y.spec_times(m[1][0].spec_times(a).spec_plus(m[1][1].spec_times(b))),
        ) == x.spec_times(m[0][0]).spec_plus(y.spec_times(m[1][0])).spec_times(a).spec_plus(
            x.spec_times(m[0][1]).spec_plus(y.spec_times(m[1][1])).spec_times(b),
        ),
{
    let p = m[0][0];
    let q = m[0][1];
    let r = m[1][0];
    let s = m[1][1];
    lemma_left_distributes(x, p.spec_times(a), q.spec_times(b));
    lemma_left_distributes(y, r.spec_times(a), s.spec_times(b));
    A::lemma_times_associates(x, p, a);
    A::lemma_times_associates(x, q, b);
    A::lemma_times_associates(y, r, a);
    A::lemma_times_associates(y, s, b);
    lemma_plus_interchange(
        x.spec_times(p).spec_times(a),
        x.spec_times(q).spec_times(b),
        y.spec_times(r).spec_times(a),
        y.spec_times(s).spec_times(b),
    );
    A::lemma_times_distributes(x.spec_times(p), y.spec_times(r), a);
    A::lemma_times_distributes(x.spec_times(q), y.spec_times(s), b);
}

/// The dense kernel of a left inverse undoes the dense kernel of a matrix.
pub proof fn lemma_dense_pair_inverse<A: ExactAmplitude>(n: Seq<Seq<A>>, m: Seq<Seq<A>>, f: Seq<A>)
    requires
        is_left_inverse(n, m),
        f.len() == 2,
        all_canonical(f),
    ensures
        dense_transform(m, f).len() == 2,
        dense_transform(n, dense_transform(m, f)) == f,
{
    let a = f[0];
    let b = f[1];
    let z = A::spec_zero();
    let g = dense_transform(m, f);
    lemma_row_dot_pair(m[0], f);
    lemma_row_dot_pair(m[1], f);
    lemma_row_dot_pair(n[0], g);
    lemma_row_dot_pair(n[1], g);
    A::lemma_canonical_results(m[0][0], a);
    A::lemma_canonical_results(m[1][0], a);
    lemma_zero_plus(m[0][0].spec_times(a));
    lemma_zero_plus(m[1][0].spec_times(a));
    assert(g[0] == m[0][0].spec_times(a).spec_plus(m[0][1].spec_times(b)));
    assert(g[1] == m[1][0].spec_times(a).spec_plus(m[1][1].spec_times(b)));
    A::lemma_canonical_results(n[0][0], g[0]);
    A::lemma_canonical_results(n[1][0], g[0]);
    lemma_zero_plus(n[0][0].spec_times(g[0]));
    lemma_zero_plus(n[1][0].spec_times(g[0]));
    lemma_row_of_product(n[0][0], n[0][1], m, a, b);
    lemma_row_of_product(n[1][0], n[1][1], m, a, b);
    lemma_one_times(a);
    lemma_one_times(b);
    lemma_zero_times(a);
    lemma_zero_times(b);
    A::lemma_plus_zero(a);
    lemma_zero_plus(b);
    lemma_pair(f);
    assert(dense_transform(n, g) =~= f);
}

/// If `n * m` is the identity matrix, then applying a gate with matrix `m`
/// and then a gate with matrix `n` to a line of a state, both through the
/// dense fallback, restores the state.
pub proof fn lemma_dense_round_trip<A: ExactAmplitude>(
    n: Seq<Seq<A>>,
    m: Seq<Seq<A>>,
    s: Seq<A>,
    bits: Seq<usize>,
)
    requires
        is_left_inverse(n, m),
        s.len() > 0,
        bits.len() == 1,
        has_line(s.len(), bits[0] as nat),
        all_canonical(s),
    ensures
        gate_image(
            dense_kernel(n),
            strides(s.len(), bits),
            gate_image(dense_kernel(m), strides(s.len(), bits), s),
        ) == s,
{
    let ws = strides(s.len(), bits);
    let t = dense_kernel(m);
    let u = dense_kernel(n);
    lemma_one_line(s.len(), bits);
    lemma2_to64();
    assert forall|o: int| 0 <= o < s.len() && is_origin(ws, o) implies t(
        #[trigger] state_fiber(s, ws, o),
    ).len() == pow2(ws.len()) && u(t(state_fiber(s, ws, o))) == state_fiber(s, ws, o) by {
        lemma_fiber_of_line(s, ws, o);
        lemma_dense_pair_inverse(n, m, state_fiber(s, ws, o));
    }
    lemma_gate_round_trip(t, u, ws, s);
}

/// A fiber of a state with canonical amplitudes on one line is a pair of
/// canonical amplitudes.
proof fn lemma_fiber_of_line<A: ExactAmplitude>(s: Seq<A>, ws: Seq<int>, o: int)
    requires
        ws.len() == 1,
        valid_strides(ws, s.len() as int),
        all_canonical(s),
        0 <= o < s.len(),
        is_origin(ws, o),
    ensures
        state_fiber(s, ws, o).len() == 2,
        all_canonical(state_fiber(s, ws, o)),
{
    lemma2_to64();
    let f = state_fiber(s, ws, o);
    assert forall|c: int| 0 <= c < f.len() implies (#[trigger] f[c]).canonical() by {
        lemma_compose(ws, s.len() as int, o, c);
    }
}

/// A fiber of a slice with canonical amplitudes is made of canonical
/// amplitudes.
proof fn lemma_fiber_of_slice<A: ExactAmplitude>(s: Seq<A>, j: int)
    requires
        s.len() % 2 == 0,
        all_canonical(s),
        0 <= j < s.len() / 2,
    ensures
        fiber_of(s, 2, j).len() == 2,
        all_canonical(fiber_of(s, 2, j)),
{
    let f = fiber_of(s, 2, j);
    let m = (s.len() / 2) as int;
    assert forall|c: int| 0 <= c < f.len() implies (#[trigger] f[c]).canonical() by {
        assert(0 <= c * m + j < s.len()) by (nonlinear_arith)
            requires
                0 <= c < 2,
                0 <= j < m,
                s.len() == 2 * m,
        ;
    }
}

/// The strides of one line that a state has.
proof fn lemma_one_line(len: nat, bits: Seq<usize>)
    requires
        len > 0,
        bits.len() == 1,
        has_line(len, bits[0] as nat),
    ensures
        valid_strides(strides(len, bits), len as int),
        strides(len, bits).len() == 1,
{
    lemma_strides_valid(len, bits);
}

/// Applying the Hadamard gate twice to a line of a state restores the state.
pub proof fn lemma_hadamard_twice<A: ExactAmplitude>(s: Seq<A>, bits: Seq<usize>)
    requires
        s.len() > 0,
        bits.len() == 1,
        has_line(s.len(), bits[0] as nat),
        all_canonical(s),
    ensures
        gate_image(
            kernel_of::<A, H>(&H {  }),
            strides(s.len(), bits),
            gate_image(kernel_of::<A, H>(&H {  }), strides(s.len(), bits), s),
        ) == s,
{
    let ws = strides(s.len(), bits);
    let t = kernel_of::<A, H>(&H {  });
    lemma_one_line(s.len(), bits);
    lemma2_to64();
    assert forall|o: int| 0 <= o < s.len() && is_origin(ws, o) implies t(
        #[trigger] state_fiber(s, ws, o),
    ).len() == pow2(ws.len()) && t(t(state_fiber(s, ws, o))) == state_fiber(s, ws, o) by {
        lemma_fiber_of_line(s, ws, o);
        lemma_hadamard_pair_involution(state_fiber(s, ws, o));
    }
    lemma_gate_round_trip(t, t, ws, s);
}

/// Applying `S` and then its conjugate to a line of a state, or the
/// conjugate and then `S`, restores the state.
pub proof fn lemma_phase_round_trip<A: ExactAmplitude>(s: Seq<A>, bits: Seq<usize>)
    requires
        s.len() > 0,
        bits.len() == 1,
        has_line(s.len(), bits[0] as nat),
        all_canonical(s),
    ensures
        gate_image(
            kernel_of::<A, Sdg>(&Sdg {  }),
            strides(s.len(), bits),
            gate_image(kernel_of::<A, S>(&S {  }), strides(s.len(), bits), s),
        ) == s,
        gate_image(
            kernel_of::<A, S>(&S {  }),
            strides(s.len(), bits),
            gate_image(kernel_of::<A, Sdg>(&Sdg {  }), strides(s.len(), bits), s),
        ) == s,
{
    let ws = strides(s.len(), bits);
    let t = kernel_of::<A, S>(&S {  });
    let u = kernel_of::<A, Sdg>(&Sdg {  });
    lemma_one_line(s.len(), bits);
    lemma2_to64();
    assert forall|o: int| 0 <= o < s.len() && is_origin(ws, o) implies t(
        #[trigger] state_fiber(s, ws, o),
    ).len() == pow2(ws.len()) && u(t(state_fiber(s, ws, o))) == state_fiber(s, ws, o) by {
        lemma_fiber_of_line(s, ws, o);
        lemma_phase_pairs_cancel(state_fiber(s, ws, o));
    }
    lemma_gate_round_trip(t, u, ws, s);
    assert forall|o: int| 0 <= o < s.len() && is_origin(ws, o) implies u(
        #[trigger] state_fiber(s, ws, o),
    ).len() == pow2(ws.len()) && t(u(state_fiber(s, ws, o))) == state_fiber(s, ws, o) by {
        lemma_fiber_of_line(s, ws, o);
        lemma_phase_pairs_cancel(state_fiber(s, ws, o));
    }
    lemma_gate_round_trip(u, t, ws, s);
}

/// Applying the identity gate to a line of a state leaves every amplitude
/// as it is, whatever the amplitude type.
pub proof fn lemma_identity_leaves_state<A: Amplitude>(s: Seq<A>, bits: Seq<usize>)
    requires
        s.len() > 0,
        bits.len() == 1,
        has_line(s.len(), bits[0] as nat),
    ensures
        gate_image(kernel_of::<A, I>(&I {  }), strides(s.len(), bits), s) == s,
{
    let ws = strides(s.len(), bits);
    let t = kernel_of::<A, I>(&I {  });
    lemma_one_line(s.len(), bits);
    assert forall|j: int| 0 <= j < s.len() implies gate_image(t, ws, s)[j] == s[j] by {
        lemma_decompose(ws, s.len() as int, j);
        let o = origin_of(ws, j);
        let c = local_index(ws, j);
        assert(state_fiber(s, ws, o)[c] == s[o + fiber_offset(ws, c)]);
    }
    assert(gate_image(t, ws, s) =~= s);
}

/// On a slice of exact amplitudes, the kernel of each built-in gate and the
/// dense fallback with the matrix of that gate compute the same image.
pub proof fn lemma_kernels_match_matrices_on_slices<A: ExactAmplitude>(s: Seq<A>)
    requires
        s.len() % 2 == 0,
        all_canonical(s),
    ensures
        slice_image(dense_kernel((H {  }).spec_matrix()), 2, s) == slice_image(
            kernel_of::<A, H>(&H {  }),
            2,
            s,
        ),
        slice_image(dense_kernel((I {  }).spec_matrix()), 2, s) == slice_image(
            kernel_of::<A, I>(&I {  }),
            2,
            s,
        ),
        slice_image(dense_kernel((S {  }).spec_matrix()), 2, s) == slice_image(
            kernel_of::<A, S>(&S {  }),
            2,
            s,
        ),
        slice_image(dense_kernel((Sdg {  }).spec_matrix()), 2, s) == slice_image(
            kernel_of::<A, Sdg>(&Sdg {  }),
            2,
            s,
        ),
{
    let h = H {  };
    let i = I {  };
    let p = S {  };
    let q = Sdg {  };
    assert forall|j: int| 0 <= j < s.len() / 2 implies dense_kernel::<A>(h.spec_matrix())(
        #[trigger] fiber_of(s, 2, j),
    ) == kernel_of::<A, H>(&h)(fiber_of(s, 2, j)) by {
        lemma_fiber_of_slice(s, j);
        lemma_hadamard_matches_matrix(fiber_of(s, 2, j));
    }
    lemma_slice_images_agree(dense_kernel::<A>(h.spec_matrix()), kernel_of::<A, H>(&h), 2, s);
    assert forall|j: int| 0 <= j < s.len() / 2 implies dense_kernel::<A>(i.spec_matrix())(
        #[trigger] fiber_of(s, 2, j),
    ) == kernel_of::<A, I>(&i)(fiber_of(s, 2, j)) by {
        lemma_fiber_of_slice(s, j);
        lemma_identity_matches_matrix(fiber_of(s, 2, j));
    }
    lemma_slice_images_agree(dense_kernel::<A>(i.spec_matrix()), kernel_of::<A, I>(&i), 2, s);
    assert forall|j: int| 0 <= j < s.len() / 2 implies dense_kernel::<A>(p.spec_matrix())(
        #[trigger] fiber_of(s, 2, j),
    ) == kernel_of::<A, S>(&p)(fiber_of(s, 2, j)) by {
        lemma_fiber_of_slice(s, j);
        lemma_phase_matches_matrix(fiber_of(s, 2, j), A::spec_i());
    }
    lemma_slice_images_agree(dense_kernel::<A>(p.spec_matrix()), kernel_of::<A, S>(&p), 2, s);
    assert forall|j: int| 0 <= j < s.len() / 2 implies dense_kernel::<A>(q.spec_matrix())(
        #[trigger] fiber_of(s, 2, j),
    ) == kernel_of::<A, Sdg>(&q)(fiber_of(s, 2, j)) by {
        lemma_fiber_of_slice(s, j);
        lemma_phase_matches_matrix(fiber_of(s, 2, j), A::spec_i().spec_negate());
    }
    lemma_slice_images_agree(dense_kernel::<A>(q.spec_matrix()), kernel_of::<A, Sdg>(&q), 2, s);
}

/// On a line of a state of exact amplitudes, the kernel of each built-in gate
/// and the dense fallback with the matrix of that gate compute the same image.
pub proof fn lemma_kernels_match_matrices_on_lines<A: ExactAmplitude>(s: Seq<A>, bits: Seq<usize>)
    requires
        s.len() > 0,
        bits.len() == 1,
        has_line(s.len(), bits[0] as nat),
        all_canonical(s),
    ensures
        gate_image(dense_kernel((H {  }).spec_matrix()), strides(s.len(), bits), s) == gate_image(
            kernel_of::<A, H>(&H {  }),
            strides(s.len(), bits),
            s,
        ),
        gate_image(dense_kernel((I {  }).spec_matrix()), strides(s.len(), bits), s) == gate_image(
            kernel_of::<A, I>(&I {  }),
            strides(s.len(), bits),
            s,
        ),
        gate_image(dense_kernel((S {  }).spec_matrix()), strides(s.len(), bits), s) == gate_image(
            kernel_of::<A, S>(&S {  }),
            strides(s.len(), bits),
            s,
        ),
        gate_image(dense_kernel((Sdg {  }).spec_matrix()), strides(s.len(), bits), s)
            == gate_image(kernel_of::<A, Sdg>(&Sdg {  }), strides(s.len(), bits), s),
{
    let ws = strides(s.len(), bits);
    let h = H {  };
    let i = I {  };
    let p = S {  };
    let q = Sdg {  };
    lemma_one_line(s.len(), bits);
    assert forall|o: int| 0 <= o < s.len() && is_origin(ws, o) implies dense_kernel::<A>(
        h.spec_matrix(),
    )(#[trigger] state_fiber(s, ws, o)) == kernel_of::<A, H>(&h)(state_fiber(s, ws, o)) by {
        lemma_fiber_of_line(s, ws, o);
        lemma_hadamard_matches_matrix(state_fiber(s, ws, o));
    }
    lemma_gate_images_agree(dense_kernel::<A>(h.spec_matrix()), kernel_of::<A, H>(&h), ws, s);
    assert forall|o: int| 0 <= o < s.len() && is_origin(ws, o) implies dense_kernel::<A>(
        i.spec_matrix(),
    )(#[trigger] state_fiber(s, ws, o)) == kernel_of::<A, I>(&i)(state_fiber(s, ws, o)) by {
        lemma_fiber_of_line(s, ws, o);
        lemma_identity_matches_matrix(state_fiber(s, ws, o));
    }
    lemma_gate_images_agree(dense_kernel::<A>(i.spec_matrix()), kernel_of::<A, I>(&i), ws, s);
    assert forall|o: int| 0 <= o < s.len() && is_origin(ws, o) implies dense_kernel::<A>(
        p.spec_matrix(),
    )(#[trigger] state_fiber(s, ws, o)) == kernel_of::<A, S>(&p)(state_fiber(s, ws, o)) by {
        lemma_fiber_of_line(s, ws, o);
        lemma_phase_matches_matrix(state_fiber(s, ws, o), A::spec_i());
    }
    lemma_gate_images_agree(dense_kernel::<A>(p.spec_matrix()), kernel_of::<A, S>(&p), ws, s);
    assert forall|o: int| 0 <= o < s.len() && is_origin(ws, o) implies dense_kernel::<A>(
        q.spec_matrix(),
    )(#[trigger] state_fiber(s, ws, o)) == kernel_of::<A, Sdg>(&q)(state_fiber(s, ws, o)) by {
        lemma_fiber_of_line(s, ws, o);
        lemma_phase_matches_matrix(state_fiber(s, ws, o), A::spec_i().spec_negate());
    }
    lemma_gate_images_agree(dense_kernel::<A>(q.spec_matrix()), kernel_of::<A, Sdg>(&q), ws, s);
}

} // verus!
