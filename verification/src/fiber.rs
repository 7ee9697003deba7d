//! Reading and writing the amplitudes that a gate couples.
//!
//! A fiber is given by the position of its first amplitude, its origin, and
//! by a table of the distances from the origin to each of its amplitudes.

use vstd::prelude::*;

verus! {

/// Whether position `idx` belongs to the first `n` amplitudes of the fiber
/// with the given origin and offsets.
pub open spec fn hits(origin: int, offsets: Seq<usize>, n: int, idx: int) -> bool {
    exists|c: int| 0 <= c < n && origin + #[trigger] offsets[c] == idx
}

/// Whether the fiber lies inside a sequence of length `len`.
pub open spec fn fits(origin: int, offsets: Seq<usize>, len: int) -> bool {
    forall|c: int| 0 <= c < offsets.len() ==> 0 <= origin + #[trigger] offsets[c] < len
}

/// Whether no two amplitudes of a fiber share a position.
pub open spec fn distinct(offsets: Seq<usize>) -> bool {
    forall|a: int, b: int|
        0 <= a < offsets.len() && 0 <= b < offsets.len() && a != b ==> #[trigger] offsets[a]
            != #[trigger] offsets[b]
}

/// The amplitudes of one fiber, in the order of the table.
pub open spec fn fiber_at<A>(s: Seq<A>, origin: int, offsets: Seq<usize>) -> Seq<A> {
    Seq::new(offsets.len(), |c: int| s[origin + offsets[c]])
}

/// Copies the amplitudes of one fiber out of `state`.
pub fn gather<A: Copy>(state: &[A], origin: usize, offsets: &[usize]) -> (fiber: Vec<A>)
    requires
        fits(origin as int, offsets@, state@.len() as int),
    ensures
        fiber@ == fiber_at(state@, origin as int, offsets@),
{
    let n = offsets.len();
    let len = state.len();
    let mut fiber: Vec<A> = Vec::new();
    let mut c: usize = 0;
    while c < n
        invariant
            c <= n,
            n == offsets@.len(),
            len == state@.len(),
            fits(origin as int, offsets@, state@.len() as int),
            fiber@.len() == c,
            forall|b: int| 0 <= b < c ==> fiber@[b] == state@[origin + offsets@[b]],
        decreases n - c,
    {
        let off = offsets[c];
        fiber.push(state[origin + off]);
        c += 1;
    }
    proof {
        assert(fiber@ =~= fiber_at(state@, origin as int, offsets@));
    }
    fiber
}

/// Writes `values` to the positions of one fiber of `state`, and nothing
/// anywhere else.
pub fn scatter<A: Copy>(state: &mut [A], origin: usize, offsets: &[usize], values: &[A])
    requires
        values@.len() == offsets@.len(),
        fits(origin as int, offsets@, old(state)@.len() as int),
        distinct(offsets@),
    ensures
        final(state)@.len() == old(state)@.len(),
        forall|c: int|
            0 <= c < offsets@.len() ==> final(state)@[origin + #[trigger] offsets@[c]] == values@[c],
        forall|idx: int|
            0 <= idx < old(state)@.len() && !hits(
                origin as int,
                offsets@,
                offsets@.len() as int,
                idx,
            ) ==> final(state)@[idx] == old(state)@[idx],
{
    let n = offsets.len();
    let len = state.len();
    let mut c: usize = 0;
    while c < n
        invariant
            c <= n,
            n == offsets@.len(),
            len == state@.len(),
            values@.len() == n,
            state@.len() == old(state)@.len(),
            fits(origin as int, offsets@, state@.len() as int),
            distinct(offsets@),
            forall|b: int| 0 <= b < c ==> state@[origin + #[trigger] offsets@[b]] == values@[b],
            forall|idx: int|
                0 <= idx < state@.len() && !hits(origin as int, offsets@, c as int, idx)
                    ==> state@[idx] == old(state)@[idx],
        decreases n - c,
    {
        let off = offsets[c];
        let ghost before = state@;
        state[origin + off] = values[c];
        proof {
            assert forall|b: int| 0 <= b < c + 1 implies state@[origin + #[trigger] offsets@[b]]
                == values@[b] by {
                if b < c {
                    assert(offsets@[b] != offsets@[c as int]);
                    assert(before[origin + offsets@[b]] == values@[b]);
                }
            }
            assert forall|idx: int|
                0 <= idx < state@.len() && !hits(
                    origin as int,
                    offsets@,
                    c + 1,
                    idx,
                ) implies state@[idx] == old(state)@[idx] by {
                if idx == origin + offsets@[c as int] {
                    assert(hits(origin as int, offsets@, c + 1, idx));
                }
                if hits(origin as int, offsets@, c as int, idx) {
                    let b = choose|b: int| 0 <= b < c && origin + #[trigger] offsets@[b] == idx;
                    assert(0 <= b < c + 1 && origin + offsets@[b] == idx);
                }
            }
        }
        c += 1;
    }
}

} // verus!
