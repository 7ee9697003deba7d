use q1tsim::amplitude::Amplitude;
use q1tsim::cmatrix::CMatrix;
use q1tsim::error::Error;
use q1tsim::gates::dense::{dense_apply_slice, dense_product};
use q1tsim::gates::{dimension, Cost, Gate, MatrixGate, Sdg, Unitary, H, I, S};
use q1tsim::qustate::{apply_gate, apply_gate_mat, stride_of, QuState};
use q1tsim::residue::{Residue, MODULUS};

fn r(re: u64, im: u64) -> Residue {
    Residue::new(re, im)
}

/// A state of `n` qubits whose amplitudes are all different.
fn sample_state(n: usize) -> Vec<Residue> {
    (0..(1usize << n)).map(|j| r(3 * j as u64 + 1, 7 * j as u64 + 2)).collect()
}

/// The state that results when the matrix `m` of a gate on `bits.len()` qubits
/// acts on the lines `bits` of the state `s` of `n` qubits, computed entry by
/// entry from the bits of the positions.
fn reference(m: &CMatrix<Residue>, s: &[Residue], n: usize, bits: &[usize]) -> Vec<Residue> {
    let k = bits.len();
    let mut out = Vec::new();
    for j in 0..s.len() {
        let mut row = 0usize;
        for t in 0..k {
            let b = (j >> (n - 1 - bits[t])) & 1;
            row |= b << (k - 1 - t);
        }
        let mut acc = Residue::zero();
        for c in 0..(1usize << k) {
            let mut src = j;
            for t in 0..k {
                let pos = n - 1 - bits[t];
                let b = (c >> (k - 1 - t)) & 1;
                src = (src & !(1usize << pos)) | (b << pos);
            }
            acc = acc.plus(m.get(row, c).times(s[src]));
        }
        out.push(acc);
    }
    out
}

fn cnot() -> MatrixGate<Residue> {
    let o = Residue::one();
    let z = Residue::zero();
    let m = CMatrix::new(4, 4, vec![o, z, z, z, z, o, z, z, z, z, z, o, z, z, o, z]).unwrap();
    MatrixGate::new(String::from("CX"), Cost::U2, 2, m).unwrap()
}

/// A gate on two qubits whose matrix has sixteen different entries.
fn dense_two_qubit_gate() -> MatrixGate<Residue> {
    let entries: Vec<Residue> = (0..16u64).map(|e| r(e * e + 1, 2 * e + 3)).collect();
    let m = CMatrix::new(4, 4, entries).unwrap();
    MatrixGate::new(String::from("D2"), Cost::U2, 2, m).unwrap()
}

fn dense_three_qubit_gate() -> MatrixGate<Residue> {
    let entries: Vec<Residue> = (0..64u64).map(|e| r(5 * e + 1, e * e)).collect();
    let m = CMatrix::new(8, 8, entries).unwrap();
    MatrixGate::new(String::from("D3"), Cost::U2, 3, m).unwrap()
}

#[test]
fn stride_of_halves_the_state_per_line() {
    assert_eq!(stride_of(8, 0), Some(4));
    assert_eq!(stride_of(8, 1), Some(2));
    assert_eq!(stride_of(8, 2), Some(1));
    assert_eq!(stride_of(8, 3), None);
    assert_eq!(stride_of(6, 0), Some(3));
    assert_eq!(stride_of(6, 1), None);
    assert_eq!(stride_of(1, 0), None);
    assert_eq!(stride_of(8, usize::MAX), None);
}

#[test]
fn dimension_is_a_power_of_two() {
    assert_eq!(dimension(0), Some(1));
    assert_eq!(dimension(1), Some(2));
    assert_eq!(dimension(5), Some(32));
    assert_eq!(dimension(usize::BITS as usize - 1), Some(1usize << (usize::BITS - 1)));
    assert_eq!(dimension(usize::BITS as usize), None);
    assert_eq!(dimension(usize::MAX), None);
}

#[test]
fn arity_mismatch_is_refused_and_changes_nothing() {
    let mut state = sample_state(2);
    let before = state.clone();
    assert_eq!(apply_gate(&H::new(), &mut state, &[0, 1]), Err(Error::ArityMismatch));
    assert_eq!(state, before);
    assert_eq!(apply_gate(&H::new(), &mut state, &[]), Err(Error::ArityMismatch));
    assert_eq!(state, before);
    assert_eq!(apply_gate(&cnot(), &mut state, &[0]), Err(Error::ArityMismatch));
    assert_eq!(state, before);
    // The arity is looked at first, whatever the state.
    let mut odd = vec![r(1, 0), r(2, 0), r(3, 0)];
    assert_eq!(apply_gate(&S::new(), &mut odd, &[0, 1]), Err(Error::ArityMismatch));
    assert_eq!(odd, vec![r(1, 0), r(2, 0), r(3, 0)]);
}

#[test]
fn odd_state_is_refused_by_every_single_qubit_gate() {
    for len in [1usize, 3, 5, 7] {
        let state: Vec<Residue> = (0..len).map(|j| r(j as u64, 1)).collect();
        let mut s = state.clone();
        assert_eq!(apply_gate(&H::new(), &mut s, &[0]), Err(Error::InvalidStateSize));
        assert_eq!(apply_gate(&I::new(), &mut s, &[0]), Err(Error::InvalidStateSize));
        assert_eq!(apply_gate(&S::new(), &mut s, &[0]), Err(Error::InvalidStateSize));
        assert_eq!(apply_gate(&Sdg::new(), &mut s, &[0]), Err(Error::InvalidStateSize));
        assert_eq!(s, state);
    }
}

#[test]
fn empty_state_is_refused() {
    let mut state: Vec<Residue> = Vec::new();
    assert_eq!(apply_gate(&H::new(), &mut state, &[0]), Err(Error::InvalidStateSize));
}

#[test]
fn state_too_small_for_the_arity_is_refused() {
    let mut state = sample_state(1);
    let before = state.clone();
    assert_eq!(apply_gate(&cnot(), &mut state, &[0, 1]), Err(Error::InvalidStateSize));
    assert_eq!(state, before);
    let mut six: Vec<Residue> = (0..6).map(|j| r(j, 0)).collect();
    assert_eq!(apply_gate(&cnot(), &mut six, &[0, 1]), Err(Error::InvalidStateSize));
}

#[test]
fn missing_line_is_refused_and_changes_nothing() {
    let mut state = sample_state(2);
    let before = state.clone();
    assert_eq!(apply_gate(&H::new(), &mut state, &[2]), Err(Error::OutOfRange));
    assert_eq!(apply_gate(&H::new(), &mut state, &[usize::MAX]), Err(Error::OutOfRange));
    assert_eq!(apply_gate(&cnot(), &mut state, &[0, 2]), Err(Error::OutOfRange));
    assert_eq!(state, before);
}

#[test]
fn hadamard_on_the_most_significant_line_is_the_slice_kernel() {
    let mut a = sample_state(3);
    let mut b = a.clone();
    assert_eq!(apply_gate(&H::new(), &mut a, &[0]), Ok(()));
    H::transform(&mut b);
    assert_eq!(a, b);
}

#[test]
fn single_qubit_gates_match_their_matrices_on_every_line() {
    for n in 1..=4usize {
        for q in 0..n {
            let state = sample_state(n);

            let mut s = state.clone();
            assert_eq!(apply_gate(&H::new(), &mut s, &[q]), Ok(()));
            assert_eq!(s, reference(&H::new().matrix(), &state, n, &[q]));

            let mut s = state.clone();
            assert_eq!(apply_gate(&S::new(), &mut s, &[q]), Ok(()));
            assert_eq!(s, reference(&S::new().matrix(), &state, n, &[q]));

            let mut s = state.clone();
            assert_eq!(apply_gate(&Sdg::new(), &mut s, &[q]), Ok(()));
            assert_eq!(s, reference(&Sdg::new().matrix(), &state, n, &[q]));

            let mut s = state.clone();
            assert_eq!(apply_gate(&I::new(), &mut s, &[q]), Ok(()));
            assert_eq!(s, state);
        }
    }
}

#[test]
fn hadamard_on_the_second_of_two_lines() {
    let o = Residue::one();
    let z = Residue::zero();
    let x = Residue::hsqrt2();
    // |00> becomes (|00> + |01>) / sqrt 2: the pairs are (0, 1) and (2, 3).
    let mut state = vec![o, z, z, z];
    assert_eq!(apply_gate(&H::new(), &mut state, &[1]), Ok(()));
    assert_eq!(state, vec![x, x, z, z]);
    // On line 0 the pairs are (0, 2) and (1, 3).
    let mut state = vec![o, z, z, z];
    assert_eq!(apply_gate(&H::new(), &mut state, &[0]), Ok(()));
    assert_eq!(state, vec![x, z, x, z]);
}

#[test]
fn round_trips_restore_the_state_on_every_line() {
    for n in 1..=4usize {
        for q in 0..n {
            let state = sample_state(n);
            let mut s = state.clone();
            apply_gate(&H::new(), &mut s, &[q]).unwrap();
            assert_ne!(s, state);
            apply_gate(&H::new(), &mut s, &[q]).unwrap();
            assert_eq!(s, state);
            apply_gate(&S::new(), &mut s, &[q]).unwrap();
            apply_gate(&Sdg::new(), &mut s, &[q]).unwrap();
            assert_eq!(s, state);
            apply_gate(&Sdg::new(), &mut s, &[q]).unwrap();
            apply_gate(&S::new(), &mut s, &[q]).unwrap();
            assert_eq!(s, state);
        }
    }
}

#[test]
fn dense_fallback_agrees_with_the_kernels() {
    let state = sample_state(3);

    let mut fast = state.clone();
    H::new().apply_slice(&mut fast);
    let mut dense = state.clone();
    dense_apply_slice(&H::new().matrix(), &mut dense);
    assert_eq!(fast, dense);

    let mut fast = state.clone();
    S::new().apply_slice(&mut fast);
    let mut dense = state.clone();
    dense_apply_slice(&S::new().matrix(), &mut dense);
    assert_eq!(fast, dense);

    let mut fast = state.clone();
    Sdg::new().apply_slice(&mut fast);
    let mut dense = state.clone();
    dense_apply_slice(&Sdg::new().matrix(), &mut dense);
    assert_eq!(fast, dense);

    let mut dense = state.clone();
    dense_apply_slice(&I::new().matrix(), &mut dense);
    assert_eq!(dense, state);
}

#[test]
fn matrix_gate_with_the_hadamard_matrix_is_the_hadamard_gate() {
    let gate = MatrixGate::new(String::from("H as matrix"), H::cost(), 1, H::new().matrix()).unwrap();
    assert_eq!(gate.description(), "H as matrix");
    assert_eq!(gate.nr_affected_bits(), 1);
    assert_eq!(gate.cost(), Cost::U2);
    for q in 0..3 {
        let state = sample_state(3);
        let mut a = state.clone();
        let mut b = state.clone();
        apply_gate(&gate, &mut a, &[q]).unwrap();
        apply_gate(&H::new(), &mut b, &[q]).unwrap();
        assert_eq!(a, b);
    }
}

#[test]
fn matrix_gate_needs_a_square_matrix_of_its_dimension() {
    let m: CMatrix<Residue> = CMatrix::eye(4);
    assert!(MatrixGate::new(String::from("ok"), Cost::Free, 2, m.clone()).is_ok());
    assert_eq!(
        MatrixGate::new(String::from("k1"), Cost::Free, 1, m.clone()).err(),
        Some(Error::ShapeMismatch)
    );
    assert_eq!(
        MatrixGate::new(String::from("k3"), Cost::Free, 3, m.clone()).err(),
        Some(Error::ShapeMismatch)
    );
    assert_eq!(
        MatrixGate::new(String::from("huge"), Cost::Free, usize::MAX, m).err(),
        Some(Error::ShapeMismatch)
    );
    let wide = CMatrix::new(2, 8, vec![Residue::zero(); 16]).unwrap();
    assert_eq!(
        MatrixGate::new(String::from("wide"), Cost::Free, 2, wide).err(),
        Some(Error::ShapeMismatch)
    );
}

#[test]
fn dense_product_is_a_matrix_vector_product() {
    let m = CMatrix::new(2, 3, vec![r(1, 0), r(2, 0), r(3, 0), r(0, 1), r(0, 2), r(0, 3)]).unwrap();
    let v = vec![r(1, 0), r(10, 0), r(100, 0)];
    assert_eq!(dense_product(&m, &v), vec![r(321, 0), r(0, 321)]);
}

#[test]
fn dense_slice_kernel_couples_the_columns_of_the_slice() {
    // A slice of 8 amplitudes under a 4 by 4 matrix: two fibers, (0, 2, 4, 6) and (1, 3, 5, 7).
    let gate = dense_two_qubit_gate();
    let state = sample_state(3);
    let mut s = state.clone();
    gate.apply_slice(&mut s);
    assert_eq!(s, reference(&gate.matrix(), &state, 3, &[0, 1]));
}

#[test]
fn cnot_flips_the_target_where_the_control_is_set() {
    let state = sample_state(2);
    let mut s = state.clone();
    assert_eq!(apply_gate(&cnot(), &mut s, &[0, 1]), Ok(()));
    assert_eq!(s, vec![state[0], state[1], state[3], state[2]]);
    // With the roles exchanged, line 1 controls line 0.
    let mut s = state.clone();
    assert_eq!(apply_gate(&cnot(), &mut s, &[1, 0]), Ok(()));
    assert_eq!(s, vec![state[0], state[3], state[2], state[1]]);
}

#[test]
fn two_qubit_gates_match_their_matrix_on_every_pair_of_lines() {
    let gate = dense_two_qubit_gate();
    for n in 2..=4usize {
        for p in 0..n {
            for q in 0..n {
                if p != q {
                    let state = sample_state(n);
                    let mut s = state.clone();
                    assert_eq!(apply_gate(&gate, &mut s, &[p, q]), Ok(()));
                    assert_eq!(s, reference(&gate.matrix(), &state, n, &[p, q]));
                }
            }
        }
    }
}

#[test]
fn three_qubit_gate_matches_its_matrix_on_scattered_lines() {
    let gate = dense_three_qubit_gate();
    let n = 5;
    for bits in [[0usize, 1, 2], [4, 2, 0], [3, 0, 4], [1, 4, 2]] {
        let state = sample_state(n);
        let mut s = state.clone();
        assert_eq!(apply_gate(&gate, &mut s, &bits), Ok(()));
        assert_eq!(s, reference(&gate.matrix(), &state, n, &bits));
    }
}

#[test]
fn state_with_an_odd_factor_has_only_its_leading_lines() {
    // Six amplitudes: one line, with halves of three amplitudes.
    let state: Vec<Residue> = (0..6).map(|j| r(j + 1, 0)).collect();
    let mut s = state.clone();
    assert_eq!(apply_gate(&S::new(), &mut s, &[0]), Ok(()));
    let i = Residue::i();
    assert_eq!(s, vec![state[0], state[1], state[2], state[3].times(i), state[4].times(i), state[5].times(i)]);
    assert_eq!(apply_gate(&S::new(), &mut s, &[1]), Err(Error::OutOfRange));
}

fn column(state: &[Residue], nr_cols: usize, c: usize) -> Vec<Residue> {
    (0..state.len() / nr_cols).map(|row| state[row * nr_cols + c]).collect()
}

#[test]
fn batch_is_transformed_column_by_column() {
    let nr_cols = 3;
    let n = 3;
    let rows = 1usize << n;
    let state: Vec<Residue> = (0..rows * nr_cols).map(|e| r(e as u64 * 11 + 1, e as u64 + 5)).collect();
    let gates_and_bits: Vec<(usize, Vec<usize>)> = vec![(0, vec![0]), (0, vec![2]), (1, vec![1]), (2, vec![2, 0]), (2, vec![0, 1])];
    for (which, bits) in gates_and_bits {
        let mut batch = state.clone();
        let result = match which {
            0 => apply_gate_mat(&H::new(), &mut batch, nr_cols, &bits),
            1 => apply_gate_mat(&Sdg::new(), &mut batch, nr_cols, &bits),
            _ => apply_gate_mat(&dense_two_qubit_gate(), &mut batch, nr_cols, &bits),
        };
        assert_eq!(result, Ok(()));
        for c in 0..nr_cols {
            let mut single = column(&state, nr_cols, c);
            match which {
                0 => apply_gate(&H::new(), &mut single, &bits).unwrap(),
                1 => apply_gate(&Sdg::new(), &mut single, &bits).unwrap(),
                _ => apply_gate(&dense_two_qubit_gate(), &mut single, &bits).unwrap(),
            }
            assert_eq!(column(&batch, nr_cols, c), single);
        }
    }
}

#[test]
fn batch_refusals_change_nothing() {
    let state: Vec<Residue> = (0..12).map(|e| r(e, e)).collect();
    let mut s = state.clone();
    assert_eq!(apply_gate_mat(&H::new(), &mut s, 3, &[0, 1]), Err(Error::ArityMismatch));
    assert_eq!(apply_gate_mat(&H::new(), &mut s, 0, &[0]), Err(Error::ShapeMismatch));
    assert_eq!(apply_gate_mat(&H::new(), &mut s, 5, &[0]), Err(Error::ShapeMismatch));
    // Twelve entries in four columns are three rows: an odd state in every column.
    assert_eq!(apply_gate_mat(&H::new(), &mut s, 4, &[0]), Err(Error::InvalidStateSize));
    // In three columns there are four rows, hence lines 0 and 1.
    assert_eq!(apply_gate_mat(&H::new(), &mut s, 3, &[2]), Err(Error::OutOfRange));
    assert_eq!(s, state);
    let mut empty: Vec<Residue> = Vec::new();
    assert_eq!(apply_gate_mat(&H::new(), &mut empty, 3, &[0]), Err(Error::InvalidStateSize));
}

#[test]
fn batch_kernels_match_the_slice_kernels_per_column() {
    let nr_cols = 2;
    let state: Vec<Residue> = (0..8).map(|e| r(e * 3 + 1, e + 2)).collect();
    let mut batch = state.clone();
    cnot().apply_mat_slice(&mut batch, nr_cols);
    for c in 0..nr_cols {
        let mut single = column(&state, nr_cols, c);
        cnot().apply_slice(&mut single);
        assert_eq!(column(&batch, nr_cols, c), single);
    }
}

#[test]
fn new_state_is_the_all_zero_basis_state() {
    let s: QuState<Residue> = QuState::new(3).unwrap();
    assert_eq!(s.nr_bits(), 3);
    let mut expected = vec![Residue::zero(); 8];
    expected[0] = Residue::one();
    assert_eq!(s.amplitudes(), &expected[..]);
    let none: QuState<Residue> = QuState::new(0).unwrap();
    assert_eq!(none.amplitudes(), &[Residue::one()][..]);
    assert!(QuState::<Residue>::new(usize::BITS as usize).is_none());
}

#[test]
fn state_takes_a_power_of_two_amplitudes() {
    let s = QuState::from_amplitudes(sample_state(4)).unwrap();
    assert_eq!(s.nr_bits(), 4);
    assert_eq!(s.amplitudes(), &sample_state(4)[..]);
    assert_eq!(QuState::from_amplitudes(vec![r(1, 0)]).unwrap().nr_bits(), 0);
    for len in [0usize, 3, 6, 12, 100] {
        assert_eq!(
            QuState::from_amplitudes(vec![r(1, 0); len]).err(),
            Some(Error::InvalidStateSize)
        );
    }
}

#[test]
fn state_refuses_by_number_of_qubits_and_lines() {
    let mut s = QuState::from_amplitudes(sample_state(2)).unwrap();
    let before = s.clone();
    assert_eq!(s.apply_gate(&H::new(), &[0, 1]), Err(Error::ArityMismatch));
    assert_eq!(s.apply_gate(&H::new(), &[2]), Err(Error::OutOfRange));
    assert_eq!(s.apply_gate(&dense_three_qubit_gate(), &[0, 1, 2]), Err(Error::InvalidStateSize));
    assert_eq!(s, before);
}

#[test]
fn bell_state_from_hadamard_and_cnot() {
    let mut s: QuState<Residue> = QuState::new(2).unwrap();
    assert_eq!(s.apply_gate(&H::new(), &[0]), Ok(()));
    assert_eq!(s.apply_gate(&cnot(), &[0, 1]), Ok(()));
    let x = Residue::hsqrt2();
    let z = Residue::zero();
    assert_eq!(s.amplitudes(), &[x, z, z, x][..]);
}

/// The sum of `a * conj(a)` over the amplitudes of a state.
fn exact_norm(state: &[Residue]) -> Residue {
    state.iter().fold(Residue::zero(), |sum, a| {
        let conj = Residue::new(a.re(), MODULUS - a.im());
        sum.plus(a.times(conj))
    })
}

#[test]
fn exact_norm_is_kept_by_every_sequence_of_builtin_gates() {
    let n = 4;
    let mut state = sample_state(n);
    let norm = exact_norm(&state);
    assert_ne!(norm, Residue::zero());
    for round in 0..3usize {
        for q in 0..n {
            apply_gate(&H::new(), &mut state, &[q]).unwrap();
            assert_eq!(exact_norm(&state), norm);
            apply_gate(&S::new(), &mut state, &[(q + round) % n]).unwrap();
            assert_eq!(exact_norm(&state), norm);
            apply_gate(&Sdg::new(), &mut state, &[(q + 2 * round) % n]).unwrap();
            assert_eq!(exact_norm(&state), norm);
            apply_gate(&I::new(), &mut state, &[q]).unwrap();
            assert_eq!(exact_norm(&state), norm);
        }
    }
}

#[test]
fn inverse_matrix_undoes_a_matrix_gate() {
    // m = [[1, 2], [3, 7]] has determinant 1 and inverse [[7, -2], [-3, 1]].
    let m = CMatrix::new(2, 2, vec![r(1, 0), r(2, 0), r(3, 0), r(7, 0)]).unwrap();
    let inv = CMatrix::new(2, 2, vec![r(7, 0), r(2, 0).negate(), r(3, 0).negate(), r(1, 0)]).unwrap();
    let gate = MatrixGate::new(String::from("M"), Cost::U2, 1, m).unwrap();
    let back = MatrixGate::new(String::from("M inverse"), Cost::U2, 1, inv).unwrap();
    for q in 0..3 {
        let state = sample_state(3);
        let mut s = state.clone();
        apply_gate(&gate, &mut s, &[q]).unwrap();
        assert_ne!(s, state);
        apply_gate(&back, &mut s, &[q]).unwrap();
        assert_eq!(s, state);
    }
}
