//! Applying a gate to chosen lines of a state.
//!
//! The entry points take a state as a slice of amplitudes, or a batch of
//! states as the entries of a matrix, and a list of lines. They refuse what
//! cannot be done, and change nothing then; otherwise every fiber of the
//! state on these lines is replaced by its image under the kernel of that gate.

pub mod batch;
pub mod blocks;
pub mod fibers;

pub use batch::{lemma_mat_gate_image, mat_gate_image, scaled};
pub use blocks::lemma_unary_image;
pub use fibers::as_ints;

use crate::amplitude::Amplitude;
use crate::error::Error;
use crate::gates::{dimension, kernel_of, Gate, Unitary};
use crate::lines::{
    distinct_lines, gate_image, has_line, lemma_strides_valid, line_stride, strides,
    valid_strides,
};
use crate::qustate::batch::{lemma_scaled_valid, scale_strides};
use crate::qustate::blocks::apply_unary;
use crate::qustate::fibers::apply_fibers;
use vstd::arithmetic::div_mod::{lemma_fundamental_div_mod, lemma_fundamental_div_mod_converse};
use vstd::arithmetic::power2::{lemma2_to64, lemma_pow2_adds, lemma_pow2_pos, lemma_pow2_unfold, pow2};
use vstd::prelude::*;

verus! {

/// A length with an odd cofactor of `2^done` has no line from `done` on.
proof fn lemma_odd_cofactor(len: nat, w: nat, done: nat, line: nat)
    requires
        w * pow2(done) == len,
        w % 2 == 1,
        done <= line,
    ensures
        !has_line(len, line),
{
    if has_line(len, line) {
        let e = (line - done) as nat;
        let a = pow2(done) as int;
        let b = pow2(e) as int;
        lemma_pow2_pos(done);
        lemma_pow2_pos(e);
        lemma_pow2_pos(line + 1);
        lemma_pow2_unfold(line + 1);
        lemma_pow2_adds(done, e);
        lemma_fundamental_div_mod(len as int, pow2(line + 1) as int);
        let x = (len / pow2(line + 1)) as int;
        assert(w * a == a * (2 * (b * x))) by (nonlinear_arith)
            requires
                w * a == (2 * (a * b)) * x,
        ;
        assert(w == 2 * (b * x)) by (nonlinear_arith)
            requires
                w * a == a * (2 * (b * x)),
                a > 0,
        ;
        assert(false);
    }
}

/// The stride of line `line` in a state of `len` amplitudes, if the state
/// has that line.
pub fn stride_of(len: usize, line: usize) -> (r: Option<usize>)
    requires
        len > 0,
    ensures
        r is Some <==> has_line(len as nat, line as nat),
        r matches Some(w) ==> w == line_stride(len as nat, line as nat) && w > 0,
{
    let mut w = len;
    let mut left = line;
    let mut finished = false;
    let ghost mut done: nat = 0;
    proof {
        lemma2_to64();
    }
    while !finished
        invariant
            w > 0,
            left <= line,
            done == (line - left) + (if finished {
                1nat
            } else {
                0nat
            }),
            finished ==> left == 0,
            w * pow2(done) == len,
        decreases
                (if finished {
                    0
                } else {
                    left + 1
                }),
    {
        if w % 2 != 0 {
            proof {
                lemma_odd_cofactor(len as nat, w as nat, done, line as nat);
            }
            return None;
        }
        proof {
            lemma_pow2_unfold(done + 1);
            assert((w / 2) * pow2(done + 1) == w * pow2(done)) by (nonlinear_arith)
                requires
                    w % 2 == 0,
                    pow2(done + 1) == 2 * pow2(done),
            ;
            done = done + 1;
        }
        w = w / 2;
        if left == 0 {
            finished = true;
        } else {
            left = left - 1;
        }
    }
    proof {
        lemma_pow2_pos(done);
        assert(len == w * pow2(done) + 0);
        lemma_fundamental_div_mod_converse(len as int, pow2(done) as int, w as int, 0);
    }
    Some(w)
}

/// What applying a gate on `k` qubits to the lines `bits` of a state of `len`
/// amplitudes comes to: success, or the condition that refuses it.
pub open spec fn outcome(k: nat, len: nat, bits: Seq<usize>) -> Result<(), Error> {
    if bits.len() != k {
        Err(Error::ArityMismatch)
    } else if len == 0 || len % pow2(k) != 0 {
        Err(Error::InvalidStateSize)
    } else if exists|t: int| 0 <= t < bits.len() && !has_line(len, #[trigger] bits[t] as nat) {
        Err(Error::OutOfRange)
    } else {
        Ok(())
    }
}

/// A list of lines whose length differs from the arity of a gate is refused
/// as an arity mismatch, whatever the state and the lines.
pub proof fn lemma_arity_mismatch_is_refused(k: nat, len: nat, nr_cols: nat, bits: Seq<usize>)
    requires
        bits.len() != k,
    ensures
        outcome(k, len, bits) == Err::<(), Error>(Error::ArityMismatch),
        mat_outcome(k, len, nr_cols, bits) == Err::<(), Error>(Error::ArityMismatch),
{
}

/// A state with an odd number of amplitudes is refused by every gate on one
/// qubit, whatever the line.
pub proof fn lemma_odd_state_is_refused(len: nat, bits: Seq<usize>)
    requires
        len % 2 == 1,
        bits.len() == 1,
    ensures
        outcome(1, len, bits) == Err::<(), Error>(Error::InvalidStateSize),
{
    lemma2_to64();
}

/// The strides of the lines `bits` of a state of `len` amplitudes, or
/// nothing if the state lacks one of the lines.
fn strides_of(len: usize, bits: &[usize]) -> (r: Option<Vec<usize>>)
    requires
        len > 0,
    ensures
        r is Some <==> forall|t: int| 0 <= t < bits@.len() ==> has_line(
            len as nat,
            #[trigger] bits@[t] as nat,
        ),
        r matches Some(ws) ==> as_ints(ws@) == strides(len as nat, bits@),
{
    let k = bits.len();
    let mut ws: Vec<usize> = Vec::new();
    let mut t: usize = 0;
    while t < k
        invariant
            t <= k,
            k == bits@.len(),
            len > 0,
            ws@.len() == t,
            forall|u: int| 0 <= u < t ==> has_line(len as nat, #[trigger] bits@[u] as nat),
            forall|u: int|
                0 <= u < t ==> #[trigger] ws@[u] == line_stride(len as nat, bits@[u] as nat),
        decreases k - t,
    {
        match stride_of(len, bits[t]) {
            Some(w) => {
                ws.push(w);
            },
            None => {
                proof {
                    assert(!has_line(len as nat, bits@[t as int] as nat));
                }
                return None;
            },
        }
        t += 1;
    }
    proof {
        assert(as_ints(ws@) =~= strides(len as nat, bits@));
    }
    Some(ws)
}

/// Applies `gate` to the lines `bits` of `state`, the first line of `bits`
/// taking the part of the first qubit of `gate`.
///
/// Line 0 is the most significant qubit of the state. On a refusal the state
/// is unchanged.
pub fn apply_gate<A: Amplitude, G: Unitary<A>>(gate: &G, state: &mut [A], bits: &[usize]) -> (r:
    Result<(), Error>)
    requires
        distinct_lines(bits@),
    ensures
        r == outcome(gate.spec_nr_affected_bits(), old(state)@.len(), bits@),
        r is Err ==> final(state)@ == old(state)@,
        r is Ok ==> final(state)@ == gate_image(
            kernel_of(gate),
            strides(old(state)@.len(), bits@),
            old(state)@,
        ),
{
    let k = gate.nr_affected_bits();
    if bits.len() != k {
        return Err(Error::ArityMismatch);
    }
    let len = state.len();
    if len == 0 {
        return Err(Error::InvalidStateSize);
    }
    match dimension(k) {
        Some(d) => {
            proof {
                lemma_pow2_pos(k as nat);
            }
            if len % d != 0 {
                return Err(Error::InvalidStateSize);
            }
        },
        None => {
            proof {
                vstd::arithmetic::div_mod::lemma_small_mod(len as nat, pow2(k as nat));
            }
            return Err(Error::InvalidStateSize);
        },
    }
    match strides_of(len, bits) {
        None => Err(Error::OutOfRange),
        Some(ws) => {
            proof {
                lemma_strides_valid(len as nat, bits@);
                assert(as_ints(ws@).len() == ws@.len());
                assert(strides(len as nat, bits@).len() == bits@.len());
            }
            if k == 1 {
                proof {
                    assert(as_ints(ws@) =~= seq![ws@[0] as int]);
                    assert(valid_strides(as_ints(ws@), len as int));
                    assert(as_ints(ws@)[0] > 0);
                }
                apply_unary(gate, state, ws[0], None);
            } else {
                apply_fibers(gate, state, ws.as_slice());
            }
            Ok(())
        },
    }
}

/// What applying a gate on `k` qubits to the lines `bits` of the columns of a
/// matrix of `len` entries in `nr_cols` columns comes to.
pub open spec fn mat_outcome(k: nat, len: nat, nr_cols: nat, bits: Seq<usize>) -> Result<
    (),
    Error,
> {
    if bits.len() != k {
        Err(Error::ArityMismatch)
    } else if nr_cols == 0 || len % nr_cols != 0 {
        Err(Error::ShapeMismatch)
    } else {
        outcome(k, len / nr_cols, bits)
    }
}

/// Applies `gate` to the lines `bits` of every column of the matrix with
/// `nr_cols` columns whose entries, row by row, are `state`: one state per
/// column, all transformed alike in a single pass.
///
/// On a refusal the matrix is unchanged.
pub fn apply_gate_mat<A: Amplitude, G: Unitary<A>>(
    gate: &G,
    state: &mut [A],
    nr_cols: usize,
    bits: &[usize],
) -> (r: Result<(), Error>)
    requires
        distinct_lines(bits@),
    ensures
        r == mat_outcome(
            gate.spec_nr_affected_bits(),
            old(state)@.len(),
            nr_cols as nat,
            bits@,
        ),
        r is Err ==> final(state)@ == old(state)@,
        r is Ok ==> final(state)@ == mat_gate_image(
            kernel_of(gate),
            strides(old(state)@.len() / (nr_cols as nat), bits@),
            old(state)@,
            nr_cols as nat,
        ),
{
    let k = gate.nr_affected_bits();
    if bits.len() != k {
        return Err(Error::ArityMismatch);
    }
    let len = state.len();
    if nr_cols == 0 || len % nr_cols != 0 {
        return Err(Error::ShapeMismatch);
    }
    let rows = len / nr_cols;
    if rows == 0 {
        return Err(Error::InvalidStateSize);
    }
    match dimension(k) {
        Some(d) => {
            proof {
                lemma_pow2_pos(k as nat);
            }
            if rows % d != 0 {
                return Err(Error::InvalidStateSize);
            }
        },
        None => {
            proof {
                vstd::arithmetic::div_mod::lemma_small_mod(rows as nat, pow2(k as nat));
            }
            return Err(Error::InvalidStateSize);
        },
    }
    match strides_of(rows, bits) {
        None => Err(Error::OutOfRange),
        Some(ws) => {
            proof {
                lemma_strides_valid(rows as nat, bits@);
                assert(as_ints(ws@).len() == ws@.len());
                assert(strides(rows as nat, bits@).len() == bits@.len());
                lemma_fundamental_div_mod(len as int, nr_cols as int);
                assert(rows * nr_cols == len) by (nonlinear_arith)
                    requires
                        len == nr_cols * rows,
                ;
                lemma_scaled_valid(as_ints(ws@), rows as int, nr_cols as int);
                lemma_mat_gate_image(kernel_of(gate), as_ints(ws@), state@, nr_cols as nat);
            }
            let flat = scale_strides(ws.as_slice(), nr_cols, rows);
            if k == 1 {
                proof {
                    let all = as_ints(flat@);
                    assert(all =~= seq![flat@[0] as int]);
                    assert(all[0] > 0 && (len as int) % (2 * all[0]) == 0);
                    assert(all[0] == as_ints(ws@)[0] * nr_cols);
                    assert(as_ints(ws@)[0] == ws@[0]);
                    lemma_fundamental_div_mod_converse(
                        flat@[0] as int,
                        nr_cols as int,
                        ws@[0] as int,
                        0,
                    );
                }
                apply_unary(gate, state, flat[0], Some(nr_cols));
            } else {
                proof {
                    assert(as_ints(flat@).len() == flat@.len());
                }
                apply_fibers(gate, state, flat.as_slice());
            }
            Ok(())
        },
    }
}

/// Whether `len` is the number of amplitudes of a state of qubits: a power
/// of two.
pub open spec fn is_state_size(len: nat) -> bool {
    exists|n: nat| len == #[trigger] pow2(n)
}

/// What applying a gate on `k` qubits to the lines `bits` of a state of `n`
/// qubits comes to.
pub open spec fn state_outcome(k: nat, n: nat, bits: Seq<usize>) -> Result<(), Error> {
    if bits.len() != k {
        Err(Error::ArityMismatch)
    } else if k > n {
        Err(Error::InvalidStateSize)
    } else if exists|t: int| 0 <= t < bits.len() && #[trigger] bits[t] >= n {
        Err(Error::OutOfRange)
    } else {
        Ok(())
    }
}

/// A state of `n` qubits has the lines `0` to `n - 1`, and room for a gate on
/// `k` qubits when `k` is at most `n`.
pub proof fn lemma_lines_of_state(n: nat, q: nat)
    ensures
        has_line(pow2(n), q) <==> q < n,
        pow2(n) % pow2(q) == 0 <==> q <= n,
        pow2(n) > 0,
{
    lemma_pow2_pos(n);
    lemma_pow2_pos(q);
    lemma_pow2_pos(q + 1);
    if q <= n {
        let e = (n - q) as nat;
        lemma_pow2_adds(q, e);
        lemma_pow2_pos(e);
        assert(pow2(n) == pow2(e) * pow2(q) + 0) by (nonlinear_arith)
            requires
                pow2(n) == pow2(q) * pow2(e),
        ;
        lemma_fundamental_div_mod_converse(pow2(n) as int, pow2(q) as int, pow2(e) as int, 0);
    } else {
        vstd::arithmetic::power2::lemma_pow2_strictly_increases(n, q);
        vstd::arithmetic::div_mod::lemma_small_mod(pow2(n), pow2(q));
    }
    if q < n {
        let e = (n - q - 1) as nat;
        lemma_pow2_adds(q + 1, e);
        lemma_pow2_pos(e);
        assert(pow2(n) == pow2(e) * pow2(q + 1) + 0) by (nonlinear_arith)
            requires
                pow2(n) == pow2(q + 1) * pow2(e),
        ;
        lemma_fundamental_div_mod_converse(
            pow2(n) as int,
            pow2(q + 1) as int,
            pow2(e) as int,
            0,
        );
    } else {
        vstd::arithmetic::power2::lemma_pow2_strictly_increases(n, q + 1);
        vstd::arithmetic::div_mod::lemma_small_mod(pow2(n), pow2(q + 1));
    }
}

/// For a state of `n` qubits, the refusals by length and strides are the
/// refusals by number of qubits and line numbers.
pub proof fn lemma_state_outcome(k: nat, n: nat, bits: Seq<usize>)
    ensures
        outcome(k, pow2(n), bits) == state_outcome(k, n, bits),
{
    lemma_lines_of_state(n, k);
    assert forall|t: int| 0 <= t < bits.len() implies (has_line(pow2(n), #[trigger] bits[t] as nat)
        <==> bits[t] < n) by {
        lemma_lines_of_state(n, bits[t] as nat);
    }
    if bits.len() == k && k <= n {
        if exists|t: int| 0 <= t < bits.len() && #[trigger] bits[t] >= n {
            let t = choose|t: int| 0 <= t < bits.len() && #[trigger] bits[t] >= n;
            assert(!has_line(pow2(n), bits[t] as nat));
        }
        if exists|t: int| 0 <= t < bits.len() && !has_line(pow2(n), #[trigger] bits[t] as nat) {
            let t = choose|t: int|
                0 <= t < bits.len() && !has_line(pow2(n), #[trigger] bits[t] as nat);
            assert(bits[t] >= n);
        }
    }
}

/// A number with an odd factor greater than one is no power of two.
proof fn lemma_not_a_power(len: nat, m: nat, n: nat)
    requires
        len == m * pow2(n),
        m % 2 == 1,
        m > 1,
    ensures
        !is_state_size(len),
{
    if is_state_size(len) {
        let e = choose|e: nat| len == #[trigger] pow2(e);
        lemma_pow2_pos(n);
        lemma_pow2_pos(e);
        if e <= n {
            if e < n {
                vstd::arithmetic::power2::lemma_pow2_strictly_increases(e, n);
            }
            assert(m * pow2(n) > pow2(n)) by (nonlinear_arith)
                requires
                    m > 1,
                    pow2(n) > 0,
            ;
        } else {
            let d = (e - n) as nat;
            lemma_pow2_adds(n, d);
            lemma_pow2_unfold(d);
            let h = pow2((d - 1) as nat);
            assert(m == 2 * h) by (nonlinear_arith)
                requires
                    m * pow2(n) == pow2(n) * (2 * h),
                    pow2(n) > 0,
            ;
        }
    }
}

/// The state of a register of qubits: `2^n` amplitudes for `n` qubits, in
/// the order of the basis states, the first qubit the most significant.
#[derive(Clone, Debug, PartialEq)]
pub struct QuState<A> {
    nr_bits: usize,
    coefs: Vec<A>,
}

impl<A> View for QuState<A> {
    type V = Seq<A>;

    closed spec fn view(&self) -> Seq<A> {
        self.coefs@
    }
}

impl<A: Amplitude> QuState<A> {
    /// Whether the state has `2^n` amplitudes for its `n` qubits.
    pub closed spec fn wf(&self) -> bool {
        self.coefs@.len() == pow2(self.nr_bits as nat)
    }

    /// The number of qubits.
    pub closed spec fn spec_nr_bits(&self) -> nat {
        self.nr_bits as nat
    }

    /// The amplitudes of a well-formed state are `2^n` in number.
    pub proof fn lemma_len(&self)
        requires
            self.wf(),
        ensures
            self@.len() == pow2(self.spec_nr_bits()),
    {
    }

    /// The state of `nr_bits` qubits that are all zero: amplitude one for the
    /// first basis state and zero for all others. Nothing if `2^nr_bits`
    /// amplitudes cannot be addressed.
    pub fn new(nr_bits: usize) -> (r: Option<Self>)
        ensures
            r is Some <==> pow2(nr_bits as nat) <= usize::MAX,
            r matches Some(s) ==> s.wf() && s.spec_nr_bits() == nr_bits && s@ == Seq::new(
                pow2(nr_bits as nat),
                |j: int|
                    if j == 0 {
                        A::spec_one()
                    } else {
                        A::spec_zero()
                    },
            ),
    {
        match dimension(nr_bits) {
            None => None,
            Some(len) => {
                let mut coefs: Vec<A> = Vec::new();
                coefs.push(A::one());
                let mut j: usize = 1;
                proof {
                    lemma_pow2_pos(nr_bits as nat);
                }
                while j < len
                    invariant
                        1 <= j <= len,
                        coefs@.len() == j,
                        coefs@[0] == A::spec_one(),
                        forall|t: int| 1 <= t < j ==> #[trigger] coefs@[t] == A::spec_zero(),
                    decreases len - j,
                {
                    coefs.push(A::zero());
                    j += 1;
                }
                let s = QuState { nr_bits, coefs };
                proof {
                    assert(s@ =~= Seq::new(
                        pow2(nr_bits as nat),
                        |j: int|
                            if j == 0 {
                                A::spec_one()
                            } else {
                                A::spec_zero()
                            },
                    ));
                }
                Some(s)
            },
        }
    }

    /// The state with the given amplitudes; `InvalidStateSize` unless their
    /// number is a power of two. The norm of the state is the caller's care.
    pub fn from_amplitudes(coefs: Vec<A>) -> (r: Result<Self, Error>)
        ensures
            r is Ok <==> is_state_size(coefs@.len()),
            r is Err ==> r == Err::<Self, Error>(Error::InvalidStateSize),
            r matches Ok(s) ==> s.wf() && s@ == coefs@,
    {
        let len = coefs.len();
        if len == 0 {
            proof {
                if is_state_size(0) {
                    let e = choose|e: nat| 0 == #[trigger] pow2(e);
                    lemma_pow2_pos(e);
                }
            }
            return Err(Error::InvalidStateSize);
        }
        let mut m = len;
        let mut n: usize = 0;
        proof {
            lemma2_to64();
        }
        while m % 2 == 0
            invariant
                m > 0,
                len == m * pow2(n as nat),
                n < 64,
                pow2(n as nat) <= len,
            decreases m,
        {
            proof {
                lemma_pow2_unfold((n + 1) as nat);
                assert((m / 2) * pow2((n + 1) as nat) == m * pow2(n as nat)) by (nonlinear_arith)
                    requires
                        m % 2 == 0,
                        pow2((n + 1) as nat) == 2 * pow2(n as nat),
                ;
                lemma_pow2_pos((n + 1) as nat);
                assert(pow2((n + 1) as nat) <= len) by (nonlinear_arith)
                    requires
                        len == (m / 2) * pow2((n + 1) as nat),
                        m / 2 >= 1,
                        pow2((n + 1) as nat) > 0,
                ;
                lemma2_to64();
                if n + 1 > 64 {
                    vstd::arithmetic::power2::lemma_pow2_strictly_increases(64, (n + 1) as nat);
                }
            }
            m = m / 2;
            n = n + 1;
        }
        if m == 1 {
            proof {
                assert(len == pow2(n as nat)) by (nonlinear_arith)
                    requires
                        len == m * pow2(n as nat),
                        m == 1,
                ;
            }
            Ok(QuState { nr_bits: n, coefs })
        } else {
            proof {
                lemma_not_a_power(len as nat, m as nat, n as nat);
            }
            Err(Error::InvalidStateSize)
        }
    }

    /// The number of qubits.
    pub fn nr_bits(&self) -> (n: usize)
        ensures
            n == self.spec_nr_bits(),
    {
        self.nr_bits
    }

    /// The amplitudes, in the order of the basis states.
    pub fn amplitudes(&self) -> (s: &[A])
        ensures
            s@ == self@,
    {
        self.coefs.as_slice()
    }

    /// Applies `gate` to the lines `bits` of this state, the first line of
    /// `bits` taking the part of the first qubit of `gate`. On a refusal the
    /// state is unchanged.
    pub fn apply_gate<G: Unitary<A>>(&mut self, gate: &G, bits: &[usize]) -> (r: Result<(), Error>)
        requires
            old(self).wf(),
            distinct_lines(bits@),
        ensures
            final(self).wf(),
            final(self).spec_nr_bits() == old(self).spec_nr_bits(),
            r == state_outcome(gate.spec_nr_affected_bits(), old(self).spec_nr_bits(), bits@),
            r is Err ==> final(self)@ == old(self)@,
            r is Ok ==> final(self)@ == gate_image(
                kernel_of(gate),
                strides(old(self)@.len(), bits@),
                old(self)@,
            ),
    {
        proof {
            lemma_state_outcome(gate.spec_nr_affected_bits(), self.nr_bits as nat, bits@);
        }
        let r = apply_gate(gate, self.coefs.as_mut_slice(), bits);
        r
    }
}

} // verus!
