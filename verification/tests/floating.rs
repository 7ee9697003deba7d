use num_complex::Complex;
use q1tsim::amplitude::Amplitude;
use q1tsim::cmatrix::CMatrix;
use q1tsim::gates::dense::dense_apply_slice;
use q1tsim::gates::{Cost, Gate, MatrixGate, Sdg, Unitary, H, I, S};
use q1tsim::qustate::{apply_gate, apply_gate_mat};
use std::f64::consts::{FRAC_1_SQRT_2, FRAC_PI_2, FRAC_PI_4, LN_2};

/// Double precision complex numbers as amplitudes.
#[derive(Clone, Copy, Debug, PartialEq)]
struct C(Complex<f64>);

impl Amplitude for C {
    fn spec_zero() -> Self {
        Self::zero()
    }

    fn spec_one() -> Self {
        Self::one()
    }

    fn spec_i() -> Self {
        Self::i()
    }

    fn spec_hsqrt2() -> Self {
        Self::hsqrt2()
    }

    fn spec_plus(self, rhs: Self) -> Self {
        self.plus(rhs)
    }

    fn spec_minus(self, rhs: Self) -> Self {
        self.minus(rhs)
    }

    fn spec_times(self, rhs: Self) -> Self {
        self.times(rhs)
    }

    fn spec_negate(self) -> Self {
        self.negate()
    }

    fn zero() -> Self {
        C(Complex::new(0.0, 0.0))
    }

    fn one() -> Self {
        C(Complex::new(1.0, 0.0))
    }

    fn i() -> Self {
        C(Complex::new(0.0, 1.0))
    }

    fn hsqrt2() -> Self {
        C(Complex::new(FRAC_1_SQRT_2, 0.0))
    }

    fn plus(self, rhs: Self) -> Self {
        C(self.0 + rhs.0)
    }

    fn minus(self, rhs: Self) -> Self {
        C(self.0 - rhs.0)
    }

    fn times(self, rhs: Self) -> Self {
        C(self.0 * rhs.0)
    }

    fn negate(self) -> Self {
        C(-self.0)
    }
}

fn c(re: f64, im: f64) -> C {
    C(Complex::new(re, im))
}

fn close(a: &[C], b: &[C]) -> bool {
    a.len() == b.len() && a.iter().zip(b.iter()).all(|(x, y)| (x.0 - y.0).norm() < 1.0e-12)
}

fn norm_sqr(state: &[C]) -> f64 {
    state.iter().map(|a| a.0.norm_sqr()).sum()
}

fn u2_matrix(phi: f64, lambda: f64) -> CMatrix<C> {
    let x = FRAC_1_SQRT_2;
    CMatrix::new(
        2,
        2,
        vec![
            C(Complex::new(x, 0.0)),
            C(-Complex::from_polar(x, lambda)),
            C(Complex::from_polar(x, phi)),
            C(Complex::from_polar(x, phi + lambda)),
        ],
    )
    .unwrap()
}

#[test]
fn constants_are_exact() {
    assert_eq!(C::zero().0, Complex::new(0.0, 0.0));
    assert_eq!(C::one().0, Complex::new(1.0, 0.0));
    assert_eq!(C::i().0, Complex::new(0.0, 1.0));
    assert_eq!(C::hsqrt2().0, Complex::new(0.7071067811865476, 0.0));
}

#[test]
fn hadamard_twice_restores_basis_state() {
    let mut state = vec![C::one(), C::zero()];
    H::transform(&mut state);
    assert!(close(&state, &[C::hsqrt2(), C::hsqrt2()]));
    H::transform(&mut state);
    assert!(close(&state, &[C::one(), C::zero()]));
}

#[test]
fn s_then_its_conjugate_restores_the_state() {
    let x = C::hsqrt2();
    let mut state = vec![C::one(), C::zero(), x, x];
    S::new().apply_slice(&mut state);
    assert!(close(&state, &[C::one(), C::zero(), x.times(C::i()), x.times(C::i())]));
    Sdg::new().apply_slice(&mut state);
    assert!(close(&state, &[C::one(), C::zero(), x, x]));
}

#[test]
fn hadamard_keeps_the_norm() {
    let mut state = vec![c(0.6, 0.0), c(0.0, 0.8)];
    assert!((norm_sqr(&state) - 1.0).abs() < 1.0e-9);
    H::transform(&mut state);
    assert!((norm_sqr(&state) - 1.0).abs() < 1.0e-9);
}

#[test]
fn builtin_gates_keep_the_norm_on_every_line() {
    let n = 3;
    let raw: Vec<C> = (0..(1 << n)).map(|j| c(j as f64 + 1.0, 0.5 * j as f64 - 1.0)).collect();
    let total = norm_sqr(&raw).sqrt();
    let mut state: Vec<C> = raw.iter().map(|a| C(a.0 / total)).collect();
    for q in 0..n {
        apply_gate(&H::new(), &mut state, &[q]).unwrap();
        assert!((norm_sqr(&state) - 1.0).abs() < 1.0e-9);
        apply_gate(&S::new(), &mut state, &[q]).unwrap();
        assert!((norm_sqr(&state) - 1.0).abs() < 1.0e-9);
        apply_gate(&Sdg::new(), &mut state, &[n - 1 - q]).unwrap();
        assert!((norm_sqr(&state) - 1.0).abs() < 1.0e-9);
        apply_gate(&I::new(), &mut state, &[q]).unwrap();
        assert!((norm_sqr(&state) - 1.0).abs() < 1.0e-9);
    }
}

#[test]
fn identity_leaves_floats_bit_for_bit() {
    let state = vec![c(0.1, -0.0), c(f64::MIN_POSITIVE, 3.0), c(-7.5, 1.0e300), c(0.3, 0.7)];
    let mut s = state.clone();
    apply_gate(&I::new(), &mut s, &[1]).unwrap();
    for (a, b) in s.iter().zip(state.iter()) {
        assert_eq!(a.0.re.to_bits(), b.0.re.to_bits());
        assert_eq!(a.0.im.to_bits(), b.0.im.to_bits());
    }
}

#[test]
fn hadamard_batch_of_four_states() {
    let z = C::zero();
    let o = C::one();
    let x = C::hsqrt2();
    let mut state = vec![o, z, x, x, z, o, x, x.negate()];
    let result = vec![x, x, o, z, x, x.negate(), z, o];
    H::new().apply_mat_slice(&mut state, 4);
    assert!(close(&state, &result));
}

#[test]
fn phase_batch_of_four_states() {
    let z = C::zero();
    let o = C::one();
    let i = C::i();
    let x = C::hsqrt2();
    let mut state = vec![o, z, x, x, z, o, x, x.negate()];
    S::new().apply_mat_slice(&mut state, 4);
    assert!(close(&state, &[o, z, x, x, z, i, x.times(i), x.negate().times(i)]));
    let mut state = vec![o, z, x, x, z, o, x, x.negate()];
    Sdg::new().apply_mat_slice(&mut state, 4);
    assert!(close(&state, &[o, z, x, x, z, i.negate(), x.negate().times(i), x.times(i)]));
}

#[test]
fn dense_fallback_agrees_with_the_kernels_up_to_rounding() {
    let state: Vec<C> = (0..8).map(|j| c(0.1 * j as f64 - 0.3, 0.05 * j as f64 + 0.2)).collect();

    let mut fast = state.clone();
    H::new().apply_slice(&mut fast);
    let mut dense = state.clone();
    dense_apply_slice(&H::new().matrix(), &mut dense);
    assert!(close(&fast, &dense));

    let mut fast = state.clone();
    S::new().apply_slice(&mut fast);
    let mut dense = state.clone();
    dense_apply_slice(&S::new().matrix(), &mut dense);
    assert!(close(&fast, &dense));

    let mut fast = state.clone();
    Sdg::new().apply_slice(&mut fast);
    let mut dense = state.clone();
    dense_apply_slice(&Sdg::new().matrix(), &mut dense);
    assert!(close(&fast, &dense));

    let mut fast = state.clone();
    I::new().apply_slice(&mut fast);
    let mut dense = state.clone();
    dense_apply_slice(&I::new().matrix(), &mut dense);
    assert!(close(&fast, &dense));
}

#[test]
fn two_angle_rotation_matrix() {
    let m = u2_matrix(FRAC_PI_4, LN_2);
    let expected = [
        c(0.7071067811865476, 0.0),
        c(-0.5439340435069544, -0.4518138513969824),
        c(0.5, 0.5),
        c(0.06513881252516862, 0.7041000888388035),
    ];
    assert!(close(m.as_slice(), &expected));
}

#[test]
fn test_apply_unary() {
    let z = C::zero();
    let o = C::one();
    let x = C::hsqrt2();
    let i = C::i();
    let mut state = vec![x, x, z, x.negate(), x, z, z, z];

    let gate = MatrixGate::new(
        String::from("U2(0.7854, 1.5708)"),
        Cost::U2,
        1,
        u2_matrix(FRAC_PI_4, FRAC_PI_2),
    )
    .unwrap();
    assert_eq!(gate.description(), "U2(0.7854, 1.5708)");
    assert_eq!(gate.nr_affected_bits(), 1);

    gate.apply_mat_slice(&mut state, 2);
    let half = c(0.5, 0.0);
    let two = c(2.0, 0.0);
    let expected: Vec<C> = vec![
        o.minus(i),
        o,
        z,
        o.negate(),
        two.times(i).times(x),
        o.plus(i).times(x),
        z,
        o.plus(i).times(x).negate(),
    ]
    .into_iter()
    .map(|a| a.times(half))
    .collect();
    assert!(close(&state, &expected));

    // The same through the entry point for batches: line 0 of two columns.
    let mut again = vec![x, x, z, x.negate(), x, z, z, z];
    assert_eq!(apply_gate_mat(&gate, &mut again, 2, &[0]), Ok(()));
    assert!(close(&again, &expected));
}
