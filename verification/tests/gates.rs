use q1tsim::amplitude::Amplitude;
use q1tsim::cmatrix::CMatrix;
use q1tsim::gates::{Cost, Gate, Sdg, Unitary, H, I, S};
use q1tsim::qasm::{CQasm, OpenQasm};
use q1tsim::residue::Residue;

fn column(state: &[Residue], nr_cols: usize, c: usize) -> Vec<Residue> {
    let rows = state.len() / nr_cols;
    (0..rows).map(|r| state[r * nr_cols + c]).collect()
}

/// Applies `gate` to the states in the columns of `state`, once as a batch
/// and once column by column, and compares both with `result`.
fn gate_test<G: Unitary<Residue>>(gate: G, state: &mut Vec<Residue>, nr_cols: usize, result: &[Residue]) {
    let rows = state.len() / nr_cols;
    for c in 0..nr_cols {
        let mut col = column(state, nr_cols, c);
        gate.apply_slice(&mut col);
        assert_eq!(col, column(result, nr_cols, c));
        assert_eq!(col.len(), rows);
    }
    gate.apply_mat_slice(state, nr_cols);
    assert_eq!(&state[..], result);
}

fn matrix_entries(m: &CMatrix<Residue>) -> Vec<Vec<Residue>> {
    (0..m.rows()).map(|r| (0..m.cols()).map(|c| m.get(r, c)).collect()).collect()
}

#[test]
fn hadamard_test_description() {
    let h = H::new();
    assert_eq!(h.description(), "H");
}

#[test]
fn hadamard_test_matrix() {
    let h = H::new();
    let s = Residue::hsqrt2();
    let m: CMatrix<Residue> = h.matrix();
    assert_eq!(matrix_entries(&m), vec![vec![s, s], vec![s, s.negate()]]);
}

#[test]
fn hadamard_test_apply() {
    let z = Residue::zero();
    let o = Residue::one();
    let x = Residue::hsqrt2();
    let mut state = vec![o, z, x, x, z, o, x, x.negate()];
    let result = vec![x, x, o, z, x, x.negate(), z, o];
    gate_test(H::new(), &mut state, 4, &result);
}

#[test]
fn identity_test_description() {
    let i = I::new();
    assert_eq!(i.description(), "I");
}

#[test]
fn identity_test_matrix() {
    let z = Residue::zero();
    let o = Residue::one();
    let i = I::new();
    let m: CMatrix<Residue> = i.matrix();
    assert_eq!(matrix_entries(&m), vec![vec![o, z], vec![z, o]]);
}

#[test]
fn identity_test_apply() {
    let z = Residue::zero();
    let o = Residue::one();
    let x = Residue::hsqrt2();
    let mut state = vec![o, z, x, x, z, o, x, x.negate()];
    let result = vec![o, z, x, x, z, o, x, x.negate()];
    gate_test(I::new(), &mut state, 4, &result);
}

#[test]
fn s_test_description() {
    let gate = S::new();
    assert_eq!(gate.description(), "S");
    let gate = Sdg::new();
    assert_eq!(gate.description(), "S†");
}

#[test]
fn s_test_matrix() {
    let z = Residue::zero();
    let o = Residue::one();
    let i = Residue::i();

    let gate = S::new();
    let m: CMatrix<Residue> = gate.matrix();
    assert_eq!(matrix_entries(&m), vec![vec![o, z], vec![z, i]]);

    let gate = Sdg::new();
    let m: CMatrix<Residue> = gate.matrix();
    assert_eq!(matrix_entries(&m), vec![vec![o, z], vec![z, i.negate()]]);
}

#[test]
fn s_test_apply() {
    let z = Residue::zero();
    let o = Residue::one();
    let i = Residue::i();
    let x = Residue::hsqrt2();

    let mut state = vec![o, z, x, x, z, o, x, x.negate()];
    let result = vec![o, z, x, x, z, i, x.times(i), x.negate().times(i)];
    gate_test(S::new(), &mut state, 4, &result);

    let mut state = vec![o, z, x, x, z, o, x, x.negate()];
    let result = vec![o, z, x, x, z, i.negate(), x.negate().times(i), x.times(i)];
    gate_test(Sdg::new(), &mut state, 4, &result);
}

#[test]
fn hadamard_test_open_qasm() {
    let bit_names = [String::from("qb")];
    let qasm = H::new().open_qasm(&bit_names, &[0]);
    assert_eq!(qasm, "h qb");
}

#[test]
fn hadamard_test_c_qasm() {
    let bit_names = [String::from("qb")];
    let qasm = H::new().c_qasm(&bit_names, &[0]);
    assert_eq!(qasm, "h qb");
}

#[test]
fn identity_test_open_qasm() {
    let bit_names = [String::from("qb")];
    let qasm = I::new().open_qasm(&bit_names, &[0]);
    assert_eq!(qasm, "id qb");
}

#[test]
fn identity_test_c_qasm() {
    let bit_names = [String::from("qb")];
    let qasm = I::new().c_qasm(&bit_names, &[0]);
    assert_eq!(qasm, "i qb");
}

#[test]
fn s_test_open_qasm() {
    let bit_names = [String::from("qb")];
    let qasm = S::new().open_qasm(&bit_names, &[0]);
    assert_eq!(qasm, "s qb");
    let qasm = Sdg::new().open_qasm(&bit_names, &[0]);
    assert_eq!(qasm, "sdg qb");
}

#[test]
fn s_test_c_qasm() {
    let bit_names = [String::from("qb")];
    let qasm = S::new().c_qasm(&bit_names, &[0]);
    assert_eq!(qasm, "s qb");
    let qasm = Sdg::new().c_qasm(&bit_names, &[0]);
    assert_eq!(qasm, "sdag qb");
}

#[test]
fn qasm_names_the_addressed_qubit() {
    let bit_names = [String::from("q0"), String::from("anc"), String::from("q2")];
    assert_eq!(H::new().open_qasm(&bit_names, &[1]), "h anc");
    assert_eq!(I::new().c_qasm(&bit_names, &[2]), "i q2");
    assert_eq!(Sdg::new().open_qasm(&bit_names, &[0]), "sdg q0");
}

#[test]
fn builtin_gates_act_on_one_qubit() {
    assert_eq!(H::new().nr_affected_bits(), 1);
    assert_eq!(I::new().nr_affected_bits(), 1);
    assert_eq!(S::new().nr_affected_bits(), 1);
    assert_eq!(Sdg::new().nr_affected_bits(), 1);
}

#[test]
fn costs_follow_the_canonical_families() {
    assert_eq!(I::new().cost(), Cost::Free);
    assert_eq!(H::new().cost(), Cost::U2);
    assert_eq!(H::cost(), Cost::U2);
    assert_eq!(S::new().cost(), Cost::U1);
    assert_eq!(Sdg::new().cost(), Cost::U1);
}

#[test]
fn hadamard_transform_pairs_the_two_halves() {
    let o = Residue::one();
    let z = Residue::zero();
    let x = Residue::hsqrt2();
    let two = Residue::new(2, 0);
    let three = Residue::new(3, 0);
    // Four amplitudes: the pairs are (0, 2) and (1, 3).
    let mut state = vec![o, two, z, three];
    H::transform(&mut state);
    let five = Residue::new(5, 0);
    assert_eq!(state, vec![o.times(x), five.times(x), o.times(x), three.negate().plus(two).times(x)]);
}

#[test]
fn hadamard_twice_is_the_identity() {
    let mut state = vec![Residue::new(7, 11), Residue::new(13, 17), Residue::new(19, 23), Residue::new(29, 31)];
    let before = state.clone();
    H::transform(&mut state);
    assert_ne!(state, before);
    H::transform(&mut state);
    assert_eq!(state, before);
}

#[test]
fn s_then_its_conjugate_is_the_identity() {
    let o = Residue::one();
    let z = Residue::zero();
    let x = Residue::hsqrt2();
    let mut state = vec![o, z, x, x];
    let before = state.clone();
    S::new().apply_slice(&mut state);
    assert_eq!(state, vec![o, z, x.times(Residue::i()), x.times(Residue::i())]);
    Sdg::new().apply_slice(&mut state);
    assert_eq!(state, before);
    Sdg::new().apply_slice(&mut state);
    S::new().apply_slice(&mut state);
    assert_eq!(state, before);
}

#[test]
fn identity_leaves_every_amplitude() {
    let mut state = vec![Residue::new(7, 11), Residue::new(13, 17), Residue::new(19, 23), Residue::new(29, 31)];
    let before = state.clone();
    I::new().apply_slice(&mut state);
    assert_eq!(state, before);
    I::new().apply_mat_slice(&mut state, 2);
    assert_eq!(state, before);
}

#[test]
fn kernels_accept_the_empty_slice() {
    let mut state: Vec<Residue> = Vec::new();
    H::transform(&mut state);
    S::new().apply_slice(&mut state);
    assert!(state.is_empty());
}
