//! Any lines: a gate applied fiber by fiber.
//!
//! Every fiber is copied out, transformed as a slice of its own, and written
//! back; the fibers are found by their origins.

use crate::amplitude::Amplitude;
use crate::fiber::{gather, hits, scatter};
use crate::gates::{fiber_of, kernel_of, lemma_same_kernel, slice_image, Unitary};
use crate::lines::{
    bit_at, fiber_offset, gate_image, is_origin, lemma_compose, lemma_decompose, local_index,
    origin_of, state_fiber, valid_strides,
};
use vstd::arithmetic::div_mod::lemma_fundamental_div_mod_converse;
use vstd::arithmetic::power2::{lemma2_to64, lemma_pow2_pos, lemma_pow2_unfold, pow2};
use vstd::prelude::*;

verus! {

/// The strides in `ws`, as integers.
pub open spec fn as_ints(ws: Seq<usize>) -> Seq<int> {
    Seq::new(ws.len(), |t: int| ws[t] as int)
}

/// The first lines of a valid choice of lines are a valid choice of lines.
proof fn lemma_prefix_valid(ws: Seq<int>, len: int, n: int)
    requires
        valid_strides(ws, len),
        0 <= n <= ws.len(),
    ensures
        valid_strides(ws.take(n), len),
{
    let head = ws.take(n);
    assert forall|t: int| 0 <= t < head.len() implies #[trigger] head[t] > 0 && len % (2
        * head[t]) == 0 by {
        assert(head[t] == ws[t]);
    }
    assert forall|a: int, b: int|
        0 <= a < head.len() && 0 <= b < head.len() && a != b implies crate::lines::independent(
        #[trigger] head[a],
        #[trigger] head[b],
    ) by {
        assert(head[a] == ws[a] && head[b] == ws[b]);
    }
}

/// The first position of a state is the origin of a fiber, whatever the lines.
proof fn lemma_zero_is_origin(ws: Seq<int>)
    requires
        forall|t: int| 0 <= t < ws.len() ==> #[trigger] ws[t] > 0,
    ensures
        is_origin(ws, 0),
{
    assert forall|t: int| 0 <= t < ws.len() implies bit_at(0, #[trigger] ws[t]) == 0 by {
        vstd::arithmetic::div_mod::lemma_basic_div(0, ws[t]);
    }
}

/// The table of the offsets of the amplitudes of a fiber on the lines with
/// strides `ws`, by amplitude number.
fn offsets_of(ws: &[usize], len: usize) -> (table: Vec<usize>)
    requires
        len > 0,
        valid_strides(as_ints(ws@), len as int),
    ensures
        table@.len() == pow2(ws@.len()),
        forall|c: int|
            0 <= c < table@.len() ==> #[trigger] table@[c] == fiber_offset(as_ints(ws@), c),
{
    let k = ws.len();
    let ghost all = as_ints(ws@);
    let mut table: Vec<usize> = Vec::new();
    table.push(0);
    let mut t: usize = 0;
    proof {
        lemma2_to64();
        assert(all.take(0).len() == 0);
    }
    while t < k
        invariant
            t <= k,
            k == ws@.len(),
            len > 0,
            all == as_ints(ws@),
            valid_strides(all, len as int),
            table@.len() == pow2(t as nat),
            forall|c: int|
                0 <= c < table@.len() ==> #[trigger] table@[c] == fiber_offset(
                    all.take(t as int),
                    c,
                ),
        decreases k - t,
    {
        let w = ws[t];
        let n = table.len();
        let ghost head = all.take(t as int);
        let ghost longer = all.take(t + 1);
        proof {
            lemma_pow2_unfold((t + 1) as nat);
            lemma_prefix_valid(all, len as int, t + 1);
            lemma_zero_is_origin(longer);
            assert(longer.drop_last() =~= head);
            assert(longer.last() == all[t as int]);
            assert(all[t as int] == w);
        }
        let mut next: Vec<usize> = Vec::new();
        let mut c: usize = 0;
        while c < n
            invariant
                c <= n,
                n == table@.len(),
                n == pow2(t as nat),
                pow2((t + 1) as nat) == 2 * n,
                len > 0,
                valid_strides(longer, len as int),
                is_origin(longer, 0),
                longer.len() == t + 1,
                longer.drop_last() == head,
                longer.last() == w,
                next@.len() == 2 * c,
                forall|b: int| 0 <= b < n ==> #[trigger] table@[b] == fiber_offset(head, b),
                forall|b: int| 0 <= b < 2 * c ==> #[trigger] next@[b] == fiber_offset(longer, b),
            decreases n - c,
        {
            let base = table[c];
            proof {
                lemma_compose(longer, len as int, 0, 2 * c);
                lemma_compose(longer, len as int, 0, 2 * c + 1);
                lemma_fundamental_div_mod_converse(2 * c, 2, c as int, 0);
                lemma_fundamental_div_mod_converse(2 * c + 1, 2, c as int, 1);
                assert(fiber_offset(longer, 2 * c) == fiber_offset(head, c as int) + 0 * w);
                assert(fiber_offset(longer, 2 * c + 1) == fiber_offset(head, c as int) + 1 * w);
            }
            next.push(base);
            next.push(base + w);
            c += 1;
        }
        table = next;
        t += 1;
    }
    proof {
        assert(all.take(k as int) =~= all);
    }
    table
}

/// Whether all the qubits of position `o` on the lines with strides `ws`
/// are zero.
fn at_origin(ws: &[usize], o: usize) -> (r: bool)
    requires
        forall|t: int| 0 <= t < ws@.len() ==> #[trigger] ws@[t] > 0,
    ensures
        r == is_origin(as_ints(ws@), o as int),
{
    let k = ws.len();
    let ghost all = as_ints(ws@);
    let mut t: usize = 0;
    while t < k
        invariant
            t <= k,
            k == ws@.len(),
            all == as_ints(ws@),
            forall|u: int| 0 <= u < ws@.len() ==> #[trigger] ws@[u] > 0,
            forall|u: int| 0 <= u < t ==> bit_at(o as int, #[trigger] all[u]) == 0,
        decreases k - t,
    {
        let w = ws[t];
        if (o / w) % 2 != 0 {
            proof {
                assert(all[t as int] == w);
                assert(bit_at(o as int, all[t as int]) != 0);
            }
            return false;
        }
        proof {
            assert(all[t as int] == w);
        }
        t += 1;
    }
    true
}

/// A slice that is a single fiber is transformed as a whole.
proof fn lemma_single_fiber<A>(t: spec_fn(Seq<A>) -> Seq<A>, s: Seq<A>, idx: int)
    requires
        s.len() > 0,
        0 <= idx < s.len(),
    ensures
        slice_image(t, s.len(), s)[idx] == t(s)[idx],
{
    let d = s.len();
    assert(d / d == 1) by (nonlinear_arith)
        requires
            d > 0,
    ;
    assert(idx % 1 == 0);
    assert(idx / 1 == idx);
    assert(fiber_of(s, d, 0) =~= s) by {
        assert forall|c: int| 0 <= c < d implies fiber_of(s, d, 0)[c] == s[c] by {
            assert(c * 1 + 0 == c);
        }
    }
}

/// Applies `gate` to the lines of `state` with strides `ws`, fiber by fiber.
pub(crate) fn apply_fibers<A: Amplitude, G: Unitary<A>>(gate: &G, state: &mut [A], ws: &[usize])
    requires
        old(state)@.len() > 0,
        ws@.len() == gate.spec_nr_affected_bits(),
        valid_strides(as_ints(ws@), old(state)@.len() as int),
    ensures
        final(state)@ == gate_image(kernel_of(gate), as_ints(ws@), old(state)@),
{
    let len = state.len();
    let offsets = offsets_of(ws, len);
    let ghost all = as_ints(ws@);
    let ghost t = kernel_of(gate);
    let ghost image = gate_image(t, all, old(state)@);
    let ghost d = pow2(ws@.len()) as int;
    proof {
        assert forall|u: int| 0 <= u < ws@.len() implies #[trigger] ws@[u] > 0 by {
            assert(all[u] == ws@[u]);
            assert(all[u] > 0);
        }
    }
    proof {
        assert forall|j: int| 0 <= j < len implies origin_of(all, j) >= 0 by {
            lemma_decompose(all, len as int, j);
        }
    }
    let mut o: usize = 0;
    while o < len
        invariant
            o <= len,
            len > 0,
            len == state@.len(),
            state@.len() == old(state)@.len(),
            ws@.len() == gate.spec_nr_affected_bits(),
            all == as_ints(ws@),
            valid_strides(all, len as int),
            forall|u: int| 0 <= u < ws@.len() ==> #[trigger] ws@[u] > 0,
            d == pow2(ws@.len()),
            offsets@.len() == d,
            forall|c: int| 0 <= c < d ==> #[trigger] offsets@[c] == fiber_offset(all, c),
            t == kernel_of(gate),
            image == gate_image(t, all, old(state)@),
            forall|j: int|
                0 <= j < len ==> state@[j] == (if origin_of(all, j) < o {
                    image[j]
                } else {
                    old(state)@[j]
                }),
        decreases len - o,
    {
        if at_origin(ws, o) {
            proof {
                assert forall|c: int| 0 <= c < offsets@.len() implies 0 <= o + #[trigger] offsets@[c]
                    < len by {
                    lemma_compose(all, len as int, o as int, c);
                }
                assert forall|a: int, b: int|
                    0 <= a < offsets@.len() && 0 <= b < offsets@.len() && a != b implies #[trigger] offsets@[a]
                    != #[trigger] offsets@[b] by {
                    lemma_compose(all, len as int, o as int, a);
                    lemma_compose(all, len as int, o as int, b);
                }
            }
            let mut fiber = gather(state, o, offsets.as_slice());
            let ghost before = state@;
            let ghost taken = fiber@;
            proof {
                lemma_pow2_pos(ws@.len());
                assert(d % d == 0) by (nonlinear_arith)
                    requires
                        d > 0,
                ;
                assert(taken =~= state_fiber(old(state)@, all, o as int)) by {
                    assert forall|c: int| 0 <= c < d implies taken[c] == old(state)@[o
                        + fiber_offset(all, c)] by {
                        lemma_compose(all, len as int, o as int, c);
                        assert(offsets@[c] == fiber_offset(all, c));
                    }
                }
            }
            gate.apply_slice(fiber.as_mut_slice());
            proof {
                lemma_same_kernel(
                    |f: Seq<A>| gate.spec_transform(f),
                    t,
                    d as nat,
                    taken,
                    1,
                );
                assert forall|c: int| 0 <= c < d implies fiber@[c] == t(taken)[c] by {
                    lemma_single_fiber(t, taken, c);
                }
            }
            scatter(state, o, offsets.as_slice(), fiber.as_slice());
            proof {
                assert forall|j: int| 0 <= j < len implies state@[j] == (if origin_of(all, j) < o
                    + 1 {
                    image[j]
                } else {
                    old(state)@[j]
                }) by {
                    lemma_decompose(all, len as int, j);
                    let c = local_index(all, j);
                    if origin_of(all, j) == o {
                        assert(offsets@[c] == fiber_offset(all, c));
                        assert(j == o + offsets@[c]);
                        assert(state@[j] == fiber@[c]);
                    } else {
                        if hits(o as int, offsets@, d, j) {
                            let b = choose|b: int| 0 <= b < d && o + #[trigger] offsets@[b] == j;
                            lemma_compose(all, len as int, o as int, b);
                        }
                        assert(state@[j] == before[j]);
                    }
                }
            }
        } else {
            proof {
                assert forall|j: int| 0 <= j < len implies origin_of(all, j) != o by {
                    lemma_decompose(all, len as int, j);
                }
            }
        }
        o += 1;
    }
    proof {
        assert forall|j: int| 0 <= j < len implies state@[j] == image[j] by {
            lemma_decompose(all, len as int, j);
        }
        assert(state@ =~= image);
    }
}

} // verus!
