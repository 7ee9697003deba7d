//! The squared norm of a state, and the built-in gates that keep it.
//!
//! For exact amplitudes the squared magnitude of `a` is `a * conj(a)`, and
//! the squared norm of a state is the sum of the squared magnitudes of its
//! amplitudes, added up from the first to the last. Each built-in gate keeps
//! the sum of the squared magnitudes of every pair of amplitudes that it
//! couples; hence it keeps the squared norm of the state.

use crate::algebra::{
    lemma_halve_double, lemma_idempotent_is_zero, lemma_inverse_is_unique, lemma_negate_negate,
    lemma_negate_times, lemma_plus_interchange, lemma_times_interchange, lemma_zero_plus,
};
use crate::amplitude::{Amplitude, ExactAmplitude};
use crate::gates::hadamard::hadamard_pair;
use crate::gates::s::phase_pair;
use crate::gates::{kernel_of, Sdg, H, I, S};
use crate::identities::all_canonical;
use crate::lines::{bit_at, gate_image, has_line, line_stride, strides};
use crate::qustate::lemma_unary_image;
use vstd::arithmetic::div_mod::{lemma_fundamental_div_mod, lemma_fundamental_div_mod_converse};
use vstd::prelude::*;

verus! {

/// The squared magnitude of `a`.
pub open spec fn norm_sqr<A: ExactAmplitude>(a: A) -> A {
    a.spec_times(a.spec_conj())
}

/// The sum of the squared magnitudes of the amplitudes of `s` from position
/// `from` up to, but not including, position `to`.
pub open spec fn norm_between<A: ExactAmplitude>(s: Seq<A>, from: int, to: int) -> A
    decreases to - from,
{
    if to <= from {
        A::spec_zero()
    } else {
        norm_between(s, from, to - 1).spec_plus(norm_sqr(s[to - 1]))
    }
}

/// The squared norm of the state `s`.
pub open spec fn total_norm<A: ExactAmplitude>(s: Seq<A>) -> A {
    norm_between(s, 0, s.len() as int)
}

/// The conjugate of zero is zero, and conjugation commutes with negation.
pub proof fn lemma_conj_negate<A: ExactAmplitude>(a: A)
    ensures
        A::spec_zero().spec_conj() == A::spec_zero(),
        a.spec_negate().spec_conj() == a.spec_conj().spec_negate(),
{
    let z = A::spec_zero();
    A::lemma_canonical_results(z, a);
    A::lemma_canonical_results(a.spec_negate(), a);
    A::lemma_plus_zero(z);
    A::lemma_conj_plus(z, z);
    lemma_idempotent_is_zero(z.spec_conj());
    A::lemma_plus_negate(a);
    A::lemma_conj_plus(a, a.spec_negate());
    lemma_inverse_is_unique(a.spec_conj(), a.spec_negate().spec_conj());
}

/// The squared magnitude of a product is the product of the squared
/// magnitudes.
pub proof fn lemma_norm_sqr_times<A: ExactAmplitude>(a: A, b: A)
    ensures
        norm_sqr(a.spec_times(b)) == norm_sqr(a).spec_times(norm_sqr(b)),
{
    A::lemma_conj_times(a, b);
    lemma_times_interchange(a, b, a.spec_conj(), b.spec_conj());
}

/// The squared magnitudes of `i`, of `-i` and of `1/sqrt 2`.
pub proof fn lemma_norm_sqr_constants<A: ExactAmplitude>()
    ensures
        norm_sqr(A::spec_i()) == A::spec_one(),
        norm_sqr(A::spec_i().spec_negate()) == A::spec_one(),
        norm_sqr(A::spec_hsqrt2()) == A::spec_hsqrt2().spec_times(A::spec_hsqrt2()),
{
    let i = A::spec_i();
    let one = A::spec_one();
    A::lemma_conj_constants();
    A::lemma_canonical_results(one, i);
    A::lemma_i_squared();
    lemma_negate_times(i, i);
    lemma_negate_negate(one);
    assert(i.spec_times(i.spec_negate()) == one);
    lemma_conj_negate(i);
    lemma_negate_negate(i);
    A::lemma_times_commutes(i.spec_negate(), i);
}

/// The squared magnitudes of a sum and of a difference add up to twice the
/// squared magnitudes of the two values.
pub proof fn lemma_parallelogram<A: ExactAmplitude>(a: A, b: A)
    ensures
        norm_sqr(a.spec_plus(b)).spec_plus(norm_sqr(a.spec_minus(b))) == norm_sqr(a).spec_plus(
            norm_sqr(b),
        ).spec_plus(norm_sqr(a).spec_plus(norm_sqr(b))),
{
    let z = A::spec_zero();
    let ca = a.spec_conj();
    let cb = b.spec_conj();
    let nb = b.spec_negate();
    let ncb = cb.spec_negate();
    let p = a.spec_times(ca);
    let q = a.spec_times(cb);
    let r = b.spec_times(ca);
    let s = b.spec_times(cb);
    let nq = q.spec_negate();
    let nr = r.spec_negate();
    A::lemma_canonical_results(a, ca);
    A::lemma_canonical_results(b, cb);
    A::lemma_canonical_results(a, cb);
    A::lemma_canonical_results(b, ca);
    // (a + b) * conj(a + b) == (p + q) + (r + s)
    A::lemma_conj_plus(a, b);
    A::lemma_times_distributes(a, b, ca.spec_plus(cb));
    A::lemma_times_commutes(a, ca.spec_plus(cb));
    A::lemma_times_distributes(ca, cb, a);
    A::lemma_times_commutes(ca, a);
    A::lemma_times_commutes(cb, a);
    A::lemma_times_commutes(b, ca.spec_plus(cb));
    A::lemma_times_distributes(ca, cb, b);
    A::lemma_times_commutes(ca, b);
    A::lemma_times_commutes(cb, b);
    assert(norm_sqr(a.spec_plus(b)) == p.spec_plus(q).spec_plus(r.spec_plus(s)));
    // (a - b) * conj(a - b) == (p + -q) + (-r + s)
    A::lemma_minus_is_plus_negate(a, b);
    A::lemma_conj_plus(a, nb);
    lemma_conj_negate(b);
    A::lemma_times_distributes(a, nb, ca.spec_plus(ncb));
    A::lemma_times_commutes(a, ca.spec_plus(ncb));
    A::lemma_times_distributes(ca, ncb, a);
    A::lemma_times_commutes(ncb, a);
    lemma_negate_times(a, cb);
    A::lemma_times_commutes(nb, ca.spec_plus(ncb));
    A::lemma_times_distributes(ca, ncb, nb);
    A::lemma_times_commutes(ca, nb);
    A::lemma_times_commutes(ncb, nb);
    lemma_negate_times(b, ca);
    lemma_negate_times(b, ncb);
    lemma_negate_times(b, cb);
    lemma_negate_negate(s);
    assert(a.spec_times(ncb) == nq);
    assert(nb.spec_times(ca) == nr);
    assert(nb.spec_times(ncb) == s);
    assert(norm_sqr(a.spec_minus(b)) == p.spec_plus(nq).spec_plus(nr.spec_plus(s)));
    // the sum of both
    lemma_plus_interchange(p.spec_plus(q), r.spec_plus(s), p.spec_plus(nq), nr.spec_plus(s));
    lemma_plus_interchange(p, q, p, nq);
    lemma_plus_interchange(r, s, nr, s);
    A::lemma_plus_negate(q);
    A::lemma_plus_negate(r);
    A::lemma_canonical_results(p, p);
    A::lemma_canonical_results(s, s);
    A::lemma_plus_zero(p.spec_plus(p));
    lemma_zero_plus(s.spec_plus(s));
    lemma_plus_interchange(p, p, s, s);
}

/// The Hadamard kernel keeps the sum of the squared magnitudes of a pair.
pub proof fn lemma_hadamard_pair_norm<A: ExactAmplitude>(f: Seq<A>)
    requires
        f.len() == 2,
    ensures
        norm_sqr(hadamard_pair(f)[0]).spec_plus(norm_sqr(hadamard_pair(f)[1])) == norm_sqr(
            f[0],
        ).spec_plus(norm_sqr(f[1])),
{
    let a = f[0];
    let b = f[1];
    let h = A::spec_hsqrt2();
    let hh = h.spec_times(h);
    let u = a.spec_plus(b);
    let v = a.spec_minus(b);
    let x = norm_sqr(a).spec_plus(norm_sqr(b));
    lemma_norm_sqr_times(u, h);
    lemma_norm_sqr_times(v, h);
    lemma_norm_sqr_constants::<A>();
    A::lemma_times_distributes(norm_sqr(u), norm_sqr(v), hh);
    lemma_parallelogram(a, b);
    A::lemma_canonical_results(norm_sqr(a), norm_sqr(b));
    lemma_halve_double(x);
    A::lemma_times_associates(x.spec_plus(x), h, h);
}

/// A phase kernel with factor `i` or `-i` keeps the squared magnitude of
/// both amplitudes of a pair.
pub proof fn lemma_phase_pair_norm<A: ExactAmplitude>(f: Seq<A>)
    requires
        f.len() == 2,
    ensures
        norm_sqr(phase_pair(f, A::spec_i())[1]) == norm_sqr(f[1]),
        norm_sqr(phase_pair(f, A::spec_i().spec_negate())[1]) == norm_sqr(f[1]),
{
    let b = f[1];
    lemma_norm_sqr_times(b, A::spec_i());
    lemma_norm_sqr_times(b, A::spec_i().spec_negate());
    lemma_norm_sqr_constants::<A>();
    A::lemma_canonical_results(b, b.spec_conj());
    A::lemma_times_one(norm_sqr(b));
}

/// A sum of squared magnitudes is canonical.
pub proof fn lemma_norm_between_canonical<A: ExactAmplitude>(s: Seq<A>, from: int, to: int)
    ensures
        norm_between(s, from, to).canonical(),
    decreases to - from,
{
    if to <= from {
        A::lemma_canonical_results(A::spec_zero(), A::spec_zero());
    } else {
        A::lemma_canonical_results(norm_between(s, from, to - 1), norm_sqr(s[to - 1]));
    }
}

/// The sum over a range is the sum over its two parts.
pub proof fn lemma_norm_between_split<A: ExactAmplitude>(s: Seq<A>, from: int, mid: int, to: int)
    requires
        from <= mid <= to,
    ensures
        norm_between(s, from, to) == norm_between(s, from, mid).spec_plus(
            norm_between(s, mid, to),
        ),
    decreases to - mid,
{
    if to == mid {
        lemma_norm_between_canonical(s, from, mid);
        A::lemma_plus_zero(norm_between(s, from, mid));
    } else {
        lemma_norm_between_split(s, from, mid, to - 1);
        A::lemma_plus_associates(
            norm_between(s, from, mid),
            norm_between(s, mid, to - 1),
            norm_sqr(s[to - 1]),
        );
    }
}

/// Whether two states agree in the sum of the squared magnitudes of the
/// amplitudes at `lo` and one stride `w` after it.
pub open spec fn pair_kept<A: ExactAmplitude>(s1: Seq<A>, s2: Seq<A>, w: int, lo: int) -> bool {
    norm_sqr(s1[lo]).spec_plus(norm_sqr(s1[lo + w])) == norm_sqr(s2[lo]).spec_plus(
        norm_sqr(s2[lo + w]),
    )
}

/// If two states agree on each of the `m` pairs from `x` on, they agree in
/// the sum over these pairs.
proof fn lemma_pairs_agree<A: ExactAmplitude>(s1: Seq<A>, s2: Seq<A>, x: int, w: int, m: int)
    requires
        0 <= m,
        forall|j: int| 0 <= j < m ==> #[trigger] pair_kept(s1, s2, w, x + j),
    ensures
        norm_between(s1, x, x + m).spec_plus(norm_between(s1, x + w, x + w + m)) == norm_between(
            s2,
            x,
            x + m,
        ).spec_plus(norm_between(s2, x + w, x + w + m)),
    decreases m,
{
    if m > 0 {
        lemma_pairs_agree(s1, s2, x, w, m - 1);
        let j = m - 1;
        assert(pair_kept(s1, s2, w, x + j));
        lemma_plus_interchange(
            norm_between(s1, x, x + j),
            norm_sqr(s1[x + j]),
            norm_between(s1, x + w, x + w + j),
            norm_sqr(s1[x + w + j]),
        );
        lemma_plus_interchange(
            norm_between(s2, x, x + j),
            norm_sqr(s2[x + j]),
            norm_between(s2, x + w, x + w + j),
            norm_sqr(s2[x + w + j]),
        );
    }
}

/// If two states agree on every pair of amplitudes that a line couples, they
/// agree in the sum over the first `blocks` blocks of that line.
proof fn lemma_blocks_agree<A: ExactAmplitude>(s1: Seq<A>, s2: Seq<A>, w: int, blocks: int)
    requires
        0 < w,
        0 <= blocks,
        forall|lo: int|
            0 <= lo < (2 * w) * blocks && bit_at(lo, w) == 0 ==> #[trigger] pair_kept(
                s1,
                s2,
                w,
                lo,
            ),
    ensures
        norm_between(s1, 0, (2 * w) * blocks) == norm_between(s2, 0, (2 * w) * blocks),
    decreases blocks,
{
    if blocks > 0 {
        let x = blocks - 1;
        let at = (2 * w) * x;
        assert((2 * w) * blocks == at + 2 * w) by (nonlinear_arith)
            requires
                x == blocks - 1,
                at == (2 * w) * x,
        ;
        assert(0 <= at) by (nonlinear_arith)
            requires
                at == (2 * w) * x,
                0 <= x,
                0 < w,
        ;
        lemma_blocks_agree(s1, s2, w, x);
        assert forall|j: int| 0 <= j < w implies #[trigger] pair_kept(s1, s2, w, at + j) by {
            assert(at + j == (2 * x) * w + j) by (nonlinear_arith)
                requires
                    at == (2 * w) * x,
            ;
            lemma_fundamental_div_mod_converse(at + j, w, 2 * x, j);
            assert(bit_at(at + j, w) == 0);
        }
        lemma_pairs_agree(s1, s2, at, w, w);
        lemma_norm_between_split(s1, at, at + w, at + 2 * w);
        lemma_norm_between_split(s2, at, at + w, at + 2 * w);
        lemma_norm_between_split(s1, 0, at, at + 2 * w);
        lemma_norm_between_split(s2, 0, at, at + 2 * w);
    } else {
        assert((2 * w) * blocks == 0) by (nonlinear_arith)
            requires
                blocks == 0,
        ;
    }
}

/// If `t` keeps the sum of the squared magnitudes of every pair, then the
/// image of a state under `t` on one line has the squared norm of the state.
pub proof fn lemma_line_keeps_norm<A: ExactAmplitude>(
    t: spec_fn(Seq<A>) -> Seq<A>,
    s: Seq<A>,
    w: int,
)
    requires
        0 < w,
        s.len() > 0,
        (s.len() as int) % (2 * w) == 0,
        forall|f: Seq<A>|
            f.len() == 2 ==> norm_sqr((#[trigger] t(f))[0]).spec_plus(norm_sqr(t(f)[1]))
                == norm_sqr(f[0]).spec_plus(norm_sqr(f[1])),
    ensures
        total_norm(gate_image(t, seq![w], s)) == total_norm(s),
{
    let image = gate_image(t, seq![w], s);
    let len = s.len() as int;
    let blocks = len / (2 * w);
    lemma_fundamental_div_mod(len, 2 * w);
    assert(0 <= blocks) by (nonlinear_arith)
        requires
            len == (2 * w) * blocks,
            len > 0,
            0 < w,
    ;
    assert forall|lo: int| 0 <= lo < (2 * w) * blocks && bit_at(lo, w) == 0 implies #[trigger] pair_kept(
        image,
        s,
        w,
        lo,
    ) by {
        let hi = lo + w;
        crate::lines::lemma_bit_set(lo, w);
        crate::lines::lemma_bit_set_bound(lo, w, len);
        lemma_unary_image(t, w, s, lo);
        lemma_unary_image(t, w, s, hi);
        let f = seq![s[lo], s[hi]];
        assert(0 * w == 0 && 1 * w == w);
        assert(image[lo] == t(f)[0]);
        assert(image[hi] == t(f)[1]);
        assert(f.len() == 2);
    }
    lemma_blocks_agree(image, s, w, blocks);
}

/// The image of a state of canonical amplitudes under the kernel of a
/// built-in gate is a state of canonical amplitudes.
pub proof fn lemma_builtin_images_canonical<A: ExactAmplitude>(s: Seq<A>, bits: Seq<usize>)
    requires
        s.len() > 0,
        bits.len() == 1,
        has_line(s.len(), bits[0] as nat),
        all_canonical(s),
    ensures
        all_canonical(gate_image(kernel_of::<A, H>(&H {  }), strides(s.len(), bits), s)),
        all_canonical(gate_image(kernel_of::<A, I>(&I {  }), strides(s.len(), bits), s)),
        all_canonical(gate_image(kernel_of::<A, S>(&S {  }), strides(s.len(), bits), s)),
        all_canonical(gate_image(kernel_of::<A, Sdg>(&Sdg {  }), strides(s.len(), bits), s)),
{
    let ws = strides(s.len(), bits);
    let w = line_stride(s.len(), bits[0] as nat);
    crate::lines::lemma_stride_divides(s.len(), bits[0] as nat);
    assert(ws =~= seq![w]);
    let h = gate_image(kernel_of::<A, H>(&H {  }), ws, s);
    let i = gate_image(kernel_of::<A, I>(&I {  }), ws, s);
    let p = gate_image(kernel_of::<A, S>(&S {  }), ws, s);
    let q = gate_image(kernel_of::<A, Sdg>(&Sdg {  }), ws, s);
    assert forall|j: int| 0 <= j < s.len() implies (#[trigger] h[j]).canonical() by {
        lemma_unary_image(kernel_of::<A, H>(&H {  }), w, s, j);
        let lo = j - bit_at(j, w) * w;
        A::lemma_canonical_results(s[lo].spec_plus(s[lo + w]), A::spec_hsqrt2());
        A::lemma_canonical_results(s[lo].spec_minus(s[lo + w]), A::spec_hsqrt2());
    }
    assert forall|j: int| 0 <= j < s.len() implies (#[trigger] i[j]).canonical() by {
        lemma_unary_image(kernel_of::<A, I>(&I {  }), w, s, j);
        let lo = j - bit_at(j, w) * w;
        assert(s[lo].canonical() && s[lo + w].canonical());
    }
    assert forall|j: int| 0 <= j < s.len() implies (#[trigger] p[j]).canonical() by {
        lemma_unary_image(kernel_of::<A, S>(&S {  }), w, s, j);
        let lo = j - bit_at(j, w) * w;
        assert(s[lo].canonical());
        A::lemma_canonical_results(s[lo + w], A::spec_i());
    }
    assert forall|j: int| 0 <= j < s.len() implies (#[trigger] q[j]).canonical() by {
        lemma_unary_image(kernel_of::<A, Sdg>(&Sdg {  }), w, s, j);
        let lo = j - bit_at(j, w) * w;
        assert(s[lo].canonical());
        A::lemma_canonical_results(s[lo + w], A::spec_i().spec_negate());
    }
}

/// Applying a built-in gate to a line of a state keeps the squared norm of
/// the state.
pub proof fn lemma_builtin_gates_keep_norm<A: ExactAmplitude>(s: Seq<A>, bits: Seq<usize>)
    requires
        s.len() > 0,
        bits.len() == 1,
        has_line(s.len(), bits[0] as nat),
    ensures
        total_norm(gate_image(kernel_of::<A, H>(&H {  }), strides(s.len(), bits), s))
            == total_norm(s),
        total_norm(gate_image(kernel_of::<A, I>(&I {  }), strides(s.len(), bits), s))
            == total_norm(s),
        total_norm(gate_image(kernel_of::<A, S>(&S {  }), strides(s.len(), bits), s))
            == total_norm(s),
        total_norm(gate_image(kernel_of::<A, Sdg>(&Sdg {  }), strides(s.len(), bits), s))
            == total_norm(s),
{
    let ws = strides(s.len(), bits);
    let w = line_stride(s.len(), bits[0] as nat);
    crate::lines::lemma_stride_divides(s.len(), bits[0] as nat);
    assert(ws =~= seq![w]);
    let th = kernel_of::<A, H>(&H {  });
    let ti = kernel_of::<A, I>(&I {  });
    let tp = kernel_of::<A, S>(&S {  });
    let tq = kernel_of::<A, Sdg>(&Sdg {  });
    assert forall|f: Seq<A>| f.len() == 2 implies norm_sqr((#[trigger] th(f))[0]).spec_plus(
        norm_sqr(th(f)[1]),
    ) == norm_sqr(f[0]).spec_plus(norm_sqr(f[1])) by {
        lemma_hadamard_pair_norm(f);
    }
    lemma_line_keeps_norm(th, s, w);
    lemma_line_keeps_norm(ti, s, w);
    assert forall|f: Seq<A>| f.len() == 2 implies norm_sqr((#[trigger] tp(f))[0]).spec_plus(
        norm_sqr(tp(f)[1]),
    ) == norm_sqr(f[0]).spec_plus(norm_sqr(f[1])) by {
        lemma_phase_pair_norm(f);
    }
    lemma_line_keeps_norm(tp, s, w);
    assert forall|f: Seq<A>| f.len() == 2 implies norm_sqr((#[trigger] tq(f))[0]).spec_plus(
        norm_sqr(tq(f)[1]),
    ) == norm_sqr(f[0]).spec_plus(norm_sqr(f[1])) by {
        lemma_phase_pair_norm(f);
    }
    lemma_line_keeps_norm(tq, s, w);
}

/// One of the built-in gates, as a value.
#[derive(Clone, Copy, Debug, PartialEq, Eq)]
pub enum Builtin {
    /// The identity gate.
    I,
    /// The Hadamard gate.
    H,
    /// The phase gate `S`.
    S,
    /// The conjugate of `S`.
    Sdg,
}

/// The map on fibers that the kernels of a built-in gate compute.
pub open spec fn builtin_kernel<A: Amplitude>(g: Builtin) -> spec_fn(Seq<A>) -> Seq<A> {
    match g {
        Builtin::I => kernel_of::<A, I>(&I {  }),
        Builtin::H => kernel_of::<A, H>(&H {  }),
        Builtin::S => kernel_of::<A, S>(&S {  }),
        Builtin::Sdg => kernel_of::<A, Sdg>(&Sdg {  }),
    }
}

/// The state after the steps of `program`, each a built-in gate and the line
/// it is applied to, one after the other from the first.
pub open spec fn run_builtins<A: Amplitude>(program: Seq<(Builtin, usize)>, s: Seq<A>) -> Seq<A>
    decreases program.len(),
{
    if program.len() == 0 {
        s
    } else {
        gate_image(
            builtin_kernel(program.last().0),
            strides(s.len(), seq![program.last().1]),
            run_builtins(program.drop_last(), s),
        )
    }
}

/// Any sequence of built-in gates, each applied to a line that the state
/// has, keeps the length and the squared norm of the state.
pub proof fn lemma_builtin_programs_keep_norm<A: ExactAmplitude>(
    program: Seq<(Builtin, usize)>,
    s: Seq<A>,
)
    requires
        s.len() > 0,
        forall|t: int| 0 <= t < program.len() ==> has_line(s.len(), (#[trigger] program[t]).1 as nat),
    ensures
        run_builtins(program, s).len() == s.len(),
        total_norm(run_builtins(program, s)) == total_norm(s),
    decreases program.len(),
{
    if program.len() > 0 {
        let before = run_builtins(program.drop_last(), s);
        let step = program.last();
        assert(step == program[program.len() - 1]);
        assert forall|t: int| 0 <= t < program.drop_last().len() implies has_line(
            s.len(),
            (#[trigger] program.drop_last()[t]).1 as nat,
        ) by {
            assert(program.drop_last()[t] == program[t]);
        }
        lemma_builtin_programs_keep_norm(program.drop_last(), s);
        lemma_builtin_gates_keep_norm(before, seq![step.1]);
    }
}

} // verus!
