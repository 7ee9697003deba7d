//! Qubit lines and the positions they address.
//!
//! A state of `len` amplitudes has line `q` when `2^(q + 1)` divides `len`.
//! The *stride* of the line is `len / 2^(q + 1)`: two positions that differ
//! only in qubit `q` lie one stride apart, and the qubit of position `j` is
//! the parity of `j / stride`. Line 0 is the most significant qubit.
//!
//! A gate on the lines with strides `ws` couples the positions that agree in
//! every other qubit. Such a set of positions is a fiber; its *origin* is the
//! position in which all the qubits of `ws` are zero, and position `j` holds
//! the amplitude number `local_index(ws, j)` of its fiber, the first stride
//! of `ws` giving the most significant bit of that number.

use vstd::arithmetic::div_mod::{
    lemma_div_denominator, lemma_div_minus_one, lemma_div_plus_one, lemma_fundamental_div_mod,
    lemma_fundamental_div_mod_converse, lemma_mod_bound,
};
use vstd::arithmetic::power2::{lemma_pow2_adds, lemma_pow2_pos, lemma_pow2_unfold, pow2};
use vstd::prelude::*;

verus! {

/// Whether a state of `len` amplitudes has line `line`.
pub open spec fn has_line(len: nat, line: nat) -> bool {
    len % pow2(line + 1) == 0
}

/// The distance between two positions that differ in qubit `line` alone.
pub open spec fn line_stride(len: nat, line: nat) -> int {
    (len / pow2(line + 1)) as int
}

/// The strides of the lines `bits`, in the order of `bits`.
pub open spec fn strides(len: nat, bits: Seq<usize>) -> Seq<int> {
    Seq::new(bits.len(), |t: int| line_stride(len, bits[t] as nat))
}

/// Whether no line occurs twice in `bits`.
pub open spec fn distinct_lines(bits: Seq<usize>) -> bool {
    forall|a: int, b: int|
        0 <= a < bits.len() && 0 <= b < bits.len() && a != b ==> #[trigger] bits[a]
            != #[trigger] bits[b]
}

/// The qubit of position `j` on the line with stride `w`.
pub open spec fn bit_at(j: int, w: int) -> int {
    (j / w) % 2
}

/// Whether `w` and `v` can be the strides of two different lines of one
/// state: one of them is an even multiple of the other.
pub open spec fn independent(w: int, v: int) -> bool {
    w > 0 && v > 0 && (w % (2 * v) == 0 || v % (2 * w) == 0)
}

/// Whether `ws` are strides of different lines of a state of `len` amplitudes.
pub open spec fn valid_strides(ws: Seq<int>, len: int) -> bool {
    &&& forall|t: int| 0 <= t < ws.len() ==> #[trigger] ws[t] > 0 && len % (2 * ws[t]) == 0
    &&& forall|a: int, b: int|
        0 <= a < ws.len() && 0 <= b < ws.len() && a != b ==> independent(
            #[trigger] ws[a],
            #[trigger] ws[b],
        )
}

/// Whether `v` can be the stride of a line other than all those of `ws`.
pub open spec fn apart_from(ws: Seq<int>, v: int) -> bool {
    forall|t: int| 0 <= t < ws.len() ==> independent(#[trigger] ws[t], v)
}

/// Whether all the qubits of position `o` on the lines `ws` are zero.
pub open spec fn is_origin(ws: Seq<int>, o: int) -> bool {
    forall|t: int| 0 <= t < ws.len() ==> bit_at(o, #[trigger] ws[t]) == 0
}

/// The number that the qubits of position `j` on the lines `ws` spell, the
/// first line giving the most significant bit.
pub open spec fn local_index(ws: Seq<int>, j: int) -> int
    decreases ws.len(),
{
    if ws.len() == 0 {
        0
    } else {
        2 * local_index(ws.drop_last(), j) + bit_at(j, ws.last())
    }
}

/// The distance from the origin of a fiber to its amplitude number `c`.
pub open spec fn fiber_offset(ws: Seq<int>, c: int) -> int
    decreases ws.len(),
{
    if ws.len() == 0 {
        0
    } else {
        fiber_offset(ws.drop_last(), c / 2) + (c % 2) * ws.last()
    }
}

/// The origin of the fiber through position `j`.
pub open spec fn origin_of(ws: Seq<int>, j: int) -> int {
    j - fiber_offset(ws, local_index(ws, j))
}

/// The amplitudes of the fiber with origin `o`, in the order of their numbers.
pub open spec fn state_fiber<A>(s: Seq<A>, ws: Seq<int>, o: int) -> Seq<A> {
    Seq::new(pow2(ws.len()), |c: int| s[o + fiber_offset(ws, c)])
}

/// The state in which every fiber of `s` on the lines `ws` is replaced by
/// its image under `t`.
pub open spec fn gate_image<A>(t: spec_fn(Seq<A>) -> Seq<A>, ws: Seq<int>, s: Seq<A>) -> Seq<A> {
    Seq::new(
        s.len(),
        |j: int| t(state_fiber(s, ws, origin_of(ws, j)))[local_index(ws, j)],
    )
}

/// A qubit is 0 or 1.
pub proof fn lemma_bit_range(j: int, w: int)
    ensures
        0 <= bit_at(j, w) <= 1,
{
    lemma_mod_bound(j / w, 2);
}

/// A position splits into the part below its qubit on a line, the qubit, and
/// the part above.
proof fn lemma_split(x: int, w: int)
    requires
        0 <= x,
        0 < w,
    ensures
        x == (2 * w) * (x / (2 * w)) + bit_at(x, w) * w + x % w,
        0 <= x % w < w,
        0 <= x / (2 * w),
        x / w == 2 * (x / (2 * w)) + bit_at(x, w),
{
    lemma_fundamental_div_mod(x, w);
    lemma_mod_bound(x, w);
    lemma_fundamental_div_mod(x / w, 2);
    lemma_div_denominator(x, w, 2);
    assert(w * 2 == 2 * w);
    let q = x / w;
    let h = q / 2;
    let b = q % 2;
    assert(x == (2 * w) * h + b * w + x % w) by (nonlinear_arith)
        requires
            x == w * q + x % w,
            q == 2 * h + b,
    ;
    assert(0 <= q) by (nonlinear_arith)
        requires
            x == w * q + x % w,
            0 <= x,
            0 <= x % w < w,
    ;
}

/// Adding the stride of a line to a position whose qubit there is zero sets
/// that qubit.
pub proof fn lemma_bit_set(x: int, w: int)
    requires
        0 <= x,
        0 < w,
        bit_at(x, w) == 0,
    ensures
        bit_at(x + w, w) == 1,
{
    lemma_div_plus_one(x, w);
    assert((x + w) / w == x / w + 1);
}

/// Adding the stride of one line leaves the qubit on every other line alone.
pub proof fn lemma_bit_set_elsewhere(x: int, w: int, v: int)
    requires
        0 <= x,
        independent(w, v),
        bit_at(x, w) == 0,
    ensures
        bit_at(x + w, v) == bit_at(x, v),
{
    if w % (2 * v) == 0 {
        let e = w / (2 * v);
        lemma_fundamental_div_mod(w, 2 * v);
        lemma_fundamental_div_mod(x, v);
        lemma_mod_bound(x, v);
        let q = x / v;
        assert(x + w == (q + 2 * e) * v + x % v) by (nonlinear_arith)
            requires
                x == v * q + x % v,
                w == (2 * v) * e,
        ;
        lemma_fundamental_div_mod_converse(x + w, v, q + 2 * e, x % v);
    } else {
        let e = v / (2 * w);
        lemma_fundamental_div_mod(v, 2 * w);
        assert(e > 0) by (nonlinear_arith)
            requires
                v == (2 * w) * e,
                v > 0,
                w > 0,
        ;
        lemma_split(x, w);
        let a = x / (2 * w);
        let r = x % w;
        assert(x + w == a * (2 * w) + (w + r)) by (nonlinear_arith)
            requires
                x == (2 * w) * a + 0 * w + r,
        ;
        lemma_fundamental_div_mod_converse(x + w, 2 * w, a, w + r);
        lemma_div_denominator(x, 2 * w, e);
        lemma_div_denominator(x + w, 2 * w, e);
        assert((2 * w) * e == v);
    }
}

/// Adding the stride of a line to a position whose qubit there is zero stays
/// inside the state.
pub proof fn lemma_bit_set_bound(x: int, w: int, len: int)
    requires
        0 <= x < len,
        0 < w,
        len % (2 * w) == 0,
        bit_at(x, w) == 0,
    ensures
        x + w < len,
{
    lemma_split(x, w);
    lemma_fundamental_div_mod(len, 2 * w);
    let a = x / (2 * w);
    let n = len / (2 * w);
    let r = x % w;
    assert(x + w < len) by (nonlinear_arith)
        requires
            x == (2 * w) * a + 0 * w + r,
            0 <= r < w,
            len == (2 * w) * n,
            x < len,
            0 < w,
    {
        assert(a < n);
        assert((2 * w) * (a + 1) <= (2 * w) * n);
    }
}

/// Subtracting the stride of a line from a position whose qubit there is one
/// clears that qubit and stays inside the state.
pub proof fn lemma_bit_clear(x: int, w: int)
    requires
        0 <= x,
        0 < w,
        bit_at(x, w) == 1,
    ensures
        0 <= x - w,
        bit_at(x - w, w) == 0,
{
    lemma_split(x, w);
    lemma_div_minus_one(x, w);
    assert((x - w) / w == x / w - 1);
    let a = x / (2 * w);
    assert(0 <= x - w) by (nonlinear_arith)
        requires
            x == (2 * w) * a + 1 * w + x % w,
            0 <= a,
            0 <= x % w,
            0 < w,
    ;
}

/// Subtracting the stride of one line leaves the qubit on every other line
/// alone.
pub proof fn lemma_bit_clear_elsewhere(x: int, w: int, v: int)
    requires
        0 <= x,
        independent(w, v),
        bit_at(x, w) == 1,
    ensures
        bit_at(x - w, v) == bit_at(x, v),
{
    lemma_bit_clear(x, w);
    lemma_bit_set_elsewhere(x - w, w, v);
}

/// The local index of a position depends on its qubits on the lines alone.
pub proof fn lemma_local_index_by_bits(ws: Seq<int>, x: int, y: int)
    requires
        forall|t: int| 0 <= t < ws.len() ==> bit_at(x, #[trigger] ws[t]) == bit_at(y, ws[t]),
    ensures
        local_index(ws, x) == local_index(ws, y),
    decreases ws.len(),
{
    if ws.len() > 0 {
        let rest = ws.drop_last();
        assert forall|t: int| 0 <= t < rest.len() implies bit_at(x, #[trigger] rest[t]) == bit_at(
            y,
            rest[t],
        ) by {
            assert(rest[t] == ws[t]);
        }
        lemma_local_index_by_bits(rest, x, y);
        assert(ws.last() == ws[ws.len() - 1]);
    }
}

/// A local index on `k` lines is a number below `2^k`.
pub proof fn lemma_local_index_range(ws: Seq<int>, j: int)
    ensures
        0 <= local_index(ws, j) < pow2(ws.len()),
    decreases ws.len(),
{
    if ws.len() == 0 {
        vstd::arithmetic::power2::lemma2_to64();
    } else {
        lemma_local_index_range(ws.drop_last(), j);
        lemma_bit_range(j, ws.last());
        lemma_pow2_unfold(ws.len());
    }
}

/// The lines of `ws` but the last are lines of the same state, and a stride
/// apart from all of `ws` is apart from them.
proof fn lemma_drop_last_valid(ws: Seq<int>, len: int)
    requires
        valid_strides(ws, len),
        ws.len() > 0,
    ensures
        valid_strides(ws.drop_last(), len),
        apart_from(ws.drop_last(), ws.last()),
        ws.last() > 0,
        len % (2 * ws.last()) == 0,
{
    let rest = ws.drop_last();
    let k = ws.len() - 1;
    assert(ws.last() == ws[k]);
    assert forall|t: int| 0 <= t < rest.len() implies #[trigger] rest[t] > 0 && len % (2
        * rest[t]) == 0 by {
        assert(rest[t] == ws[t]);
    }
    assert forall|a: int, b: int| 0 <= a < rest.len() && 0 <= b < rest.len() && a != b implies independent(
        #[trigger] rest[a],
        #[trigger] rest[b],
    ) by {
        assert(rest[a] == ws[a] && rest[b] == ws[b]);
    }
    assert forall|t: int| 0 <= t < rest.len() implies independent(#[trigger] rest[t], ws.last()) by {
        assert(rest[t] == ws[t]);
        assert(independent(ws[t], ws[k]));
    }
}

/// Independence does not depend on the order of the two strides.
pub proof fn lemma_independent_symmetric(w: int, v: int)
    requires
        independent(w, v),
    ensures
        independent(v, w),
{
}

/// From the origin of a fiber, the offset of amplitude number `c` leads to a
/// position of the state whose local index is `c` and whose origin is the
/// one started from; its qubits on all other lines are those of the origin.
pub proof fn lemma_compose(ws: Seq<int>, len: int, o: int, c: int)
    requires
        valid_strides(ws, len),
        0 <= o < len,
        is_origin(ws, o),
        0 <= c < pow2(ws.len()),
    ensures
        o <= o + fiber_offset(ws, c) < len,
        local_index(ws, o + fiber_offset(ws, c)) == c,
        origin_of(ws, o + fiber_offset(ws, c)) == o,
        forall|v: int|
            apart_from(ws, v) ==> #[trigger] bit_at(o + fiber_offset(ws, c), v) == bit_at(o, v),
    decreases ws.len(),
{
    if ws.len() > 0 {
        let rest = ws.drop_last();
        let w = ws.last();
        let half = c / 2;
        let b = c % 2;
        lemma_drop_last_valid(ws, len);
        lemma_pow2_unfold(ws.len());
        assert(is_origin(rest, o)) by {
            assert forall|t: int| 0 <= t < rest.len() implies bit_at(o, #[trigger] rest[t])
                == 0 by {
                assert(rest[t] == ws[t]);
            }
        }
        lemma_compose(rest, len, o, half);
        let mid = o + fiber_offset(rest, half);
        let j = o + fiber_offset(ws, c);
        assert(ws.last() == ws[ws.len() - 1]);
        assert(bit_at(mid, w) == bit_at(o, w));
        assert(bit_at(o, w) == 0);
        if b == 0 {
            assert(j == mid);
            assert forall|v: int| apart_from(ws, v) implies #[trigger] bit_at(j, v) == bit_at(
                o,
                v,
            ) by {
                assert forall|t: int| 0 <= t < rest.len() implies independent(
                    #[trigger] rest[t],
                    v,
                ) by {
                    assert(rest[t] == ws[t]);
                }
            }
        } else {
            assert(b == 1);
            assert(b * w == w);
            lemma_bit_set(mid, w);
            lemma_bit_set_bound(mid, w, len);
            assert forall|t: int| 0 <= t < rest.len() implies bit_at(j, #[trigger] rest[t])
                == bit_at(mid, rest[t]) by {
                lemma_independent_symmetric(rest[t], w);
                lemma_bit_set_elsewhere(mid, w, rest[t]);
            }
            lemma_local_index_by_bits(rest, j, mid);
            assert forall|v: int| apart_from(ws, v) implies #[trigger] bit_at(j, v) == bit_at(
                o,
                v,
            ) by {
                assert forall|t: int| 0 <= t < rest.len() implies independent(
                    #[trigger] rest[t],
                    v,
                ) by {
                    assert(rest[t] == ws[t]);
                }
                assert(independent(ws[ws.len() - 1], v));
                lemma_bit_set_elsewhere(mid, w, v);
                assert(bit_at(mid, v) == bit_at(o, v));
            }
        }
        assert(local_index(ws, j) == 2 * half + b);
        lemma_fundamental_div_mod(c, 2);
    } else {
        vstd::arithmetic::power2::lemma2_to64();
    }
}

/// The origin of the fiber through a position of the state is a position of
/// the state, not after it, in which the qubits of the lines are zero and
/// all other qubits are those of the position.
pub proof fn lemma_decompose(ws: Seq<int>, len: int, j: int)
    requires
        valid_strides(ws, len),
        0 <= j < len,
    ensures
        0 <= origin_of(ws, j) <= j,
        is_origin(ws, origin_of(ws, j)),
        0 <= local_index(ws, j) < pow2(ws.len()),
        forall|v: int| apart_from(ws, v) ==> #[trigger] bit_at(origin_of(ws, j), v) == bit_at(j, v),
    decreases ws.len(),
{
    lemma_local_index_range(ws, j);
    if ws.len() > 0 {
        let rest = ws.drop_last();
        let w = ws.last();
        let b = bit_at(j, w);
        let c = local_index(ws, j);
        let half = local_index(rest, j);
        lemma_drop_last_valid(ws, len);
        lemma_bit_range(j, w);
        lemma_decompose(rest, len, j);
        let mid = origin_of(rest, j);
        let o = origin_of(ws, j);
        assert(c == 2 * half + b);
        lemma_fundamental_div_mod_converse(c, 2, half, b);
        assert(fiber_offset(ws, c) == fiber_offset(rest, half) + b * w);
        assert(o == mid - b * w);
        assert(ws.last() == ws[ws.len() - 1]);
        assert(bit_at(mid, w) == b);
        if b == 0 {
            assert(o == mid);
            assert(is_origin(ws, o)) by {
                assert forall|t: int| 0 <= t < ws.len() implies bit_at(o, #[trigger] ws[t])
                    == 0 by {
                    if t < rest.len() {
                        assert(rest[t] == ws[t]);
                    }
                }
            }
            assert forall|v: int| apart_from(ws, v) implies #[trigger] bit_at(o, v) == bit_at(
                j,
                v,
            ) by {
                assert forall|t: int| 0 <= t < rest.len() implies independent(
                    #[trigger] rest[t],
                    v,
                ) by {
                    assert(rest[t] == ws[t]);
                }
            }
        } else {
            assert(b == 1);
            assert(b * w == w);
            lemma_bit_clear(mid, w);
            assert(is_origin(ws, o)) by {
                assert forall|t: int| 0 <= t < ws.len() implies bit_at(o, #[trigger] ws[t])
                    == 0 by {
                    if t < rest.len() {
                        assert(rest[t] == ws[t]);
                        lemma_independent_symmetric(rest[t], w);
                        lemma_bit_clear_elsewhere(mid, w, rest[t]);
                        assert(bit_at(mid, rest[t]) == 0);
                    }
                }
            }
            assert forall|v: int| apart_from(ws, v) implies #[trigger] bit_at(o, v) == bit_at(
                j,
                v,
            ) by {
                assert forall|t: int| 0 <= t < rest.len() implies independent(
                    #[trigger] rest[t],
                    v,
                ) by {
                    assert(rest[t] == ws[t]);
                }
                assert(independent(ws[ws.len() - 1], v));
                lemma_bit_clear_elsewhere(mid, w, v);
                assert(bit_at(mid, v) == bit_at(j, v));
            }
        }
    }
}

/// The strides of two different lines of one state are independent.
pub proof fn lemma_strides_independent(len: nat, p: nat, q: nat)
    requires
        len > 0,
        has_line(len, p),
        has_line(len, q),
        p != q,
    ensures
        independent(line_stride(len, p), line_stride(len, q)),
{
    if p < q {
        lemma_stride_of_deeper_line(len, p, q);
    } else {
        lemma_stride_of_deeper_line(len, q, p);
    }
}

/// The stride of a line is positive and an even part of the state; the stride
/// of a line is an even multiple of that of every later line.
pub proof fn lemma_stride_of_deeper_line(len: nat, p: nat, q: nat)
    requires
        len > 0,
        has_line(len, q),
        p < q,
    ensures
        has_line(len, p),
        line_stride(len, p) > 0,
        line_stride(len, q) > 0,
        line_stride(len, p) % (2 * line_stride(len, q)) == 0,
{
    let wq = line_stride(len, q);
    let e = (q - p) as nat;
    lemma_pow2_pos(q + 1);
    lemma_pow2_pos(p + 1);
    lemma_pow2_pos(e);
    lemma_pow2_adds(p + 1, e);
    lemma_pow2_unfold(e);
    lemma_pow2_pos((e - 1) as nat);
    lemma_fundamental_div_mod(len as int, pow2(q + 1) as int);
    let a = pow2(p + 1) as int;
    let b = pow2(e) as int;
    let h = pow2((e - 1) as nat) as int;
    assert(len == a * (b * wq)) by (nonlinear_arith)
        requires
            len == (a * b) * wq,
    ;
    assert(wq > 0) by (nonlinear_arith)
        requires
            len == (a * b) * wq,
            len > 0,
            a > 0,
            b > 0,
            wq >= 0,
    ;
    assert(b * wq >= 0) by (nonlinear_arith)
        requires
            b > 0,
            wq > 0,
    ;
    lemma_fundamental_div_mod_converse(len as int, a, b * wq, 0);
    assert(b * wq == h * (2 * wq)) by (nonlinear_arith)
        requires
            b == 2 * h,
    ;
    lemma_fundamental_div_mod_converse(b * wq, 2 * wq, h, 0);
}

/// The stride of a line that the state has is positive, and twice the stride
/// divides the length of the state.
pub proof fn lemma_stride_divides(len: nat, q: nat)
    requires
        len > 0,
        has_line(len, q),
    ensures
        line_stride(len, q) > 0,
        (len as int) % (2 * line_stride(len, q)) == 0,
        len == pow2(q + 1) * line_stride(len, q),
{
    let w = line_stride(len, q);
    lemma_pow2_pos(q + 1);
    lemma_pow2_unfold(q + 1);
    lemma_pow2_pos(q);
    lemma_fundamental_div_mod(len as int, pow2(q + 1) as int);
    let a = pow2(q + 1) as int;
    let h = pow2(q) as int;
    assert(w > 0) by (nonlinear_arith)
        requires
            len == a * w,
            len > 0,
            a > 0,
            w >= 0,
    ;
    assert(len == h * (2 * w)) by (nonlinear_arith)
        requires
            len == a * w,
            a == 2 * h,
    ;
    lemma_fundamental_div_mod_converse(len as int, 2 * w, h, 0);
}

/// The strides of distinct lines that a state has are strides of different
/// lines of that state.
pub proof fn lemma_strides_valid(len: nat, bits: Seq<usize>)
    requires
        len > 0,
        distinct_lines(bits),
        forall|t: int| 0 <= t < bits.len() ==> has_line(len, #[trigger] bits[t] as nat),
    ensures
        valid_strides(strides(len, bits), len as int),
{
    let ws = strides(len, bits);
    assert forall|t: int| 0 <= t < ws.len() implies #[trigger] ws[t] > 0 && (len as int) % (2
        * ws[t]) == 0 by {
        assert(has_line(len, bits[t] as nat));
        lemma_stride_divides(len, bits[t] as nat);
    }
    assert forall|a: int, b: int| 0 <= a < ws.len() && 0 <= b < ws.len() && a != b implies independent(
        #[trigger] ws[a],
        #[trigger] ws[b],
    ) by {
        assert(has_line(len, bits[a] as nat));
        assert(has_line(len, bits[b] as nat));
        assert(bits[a] != bits[b]);
        lemma_strides_independent(len, bits[a] as nat, bits[b] as nat);
    }
}

} // verus!
