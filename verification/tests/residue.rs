use q1tsim::amplitude::Amplitude;
use q1tsim::residue::{Residue, HSQRT2, MODULUS};

#[test]
fn modulus_is_the_mersenne_prime() {
    assert_eq!(MODULUS, (1u64 << 31) - 1);
    assert_eq!(HSQRT2, 1u64 << 15);
}

#[test]
fn new_reduces_both_parts() {
    let a = Residue::new(MODULUS + 5, 2 * MODULUS + 7);
    assert_eq!(a.re(), 5);
    assert_eq!(a.im(), 7);
    assert_eq!(a, Residue::new(5, 7));
    assert_eq!(Residue::new(MODULUS, MODULUS), Residue::zero());
}

#[test]
fn constants_have_their_parts() {
    assert_eq!((Residue::zero().re(), Residue::zero().im()), (0, 0));
    assert_eq!((Residue::one().re(), Residue::one().im()), (1, 0));
    assert_eq!((Residue::i().re(), Residue::i().im()), (0, 1));
    assert_eq!((Residue::hsqrt2().re(), Residue::hsqrt2().im()), (32768, 0));
}

#[test]
fn sum_and_difference_wrap_around() {
    let a = Residue::new(MODULUS - 1, 3);
    let b = Residue::new(2, 5);
    assert_eq!(a.plus(b), Residue::new(1, 8));
    assert_eq!(b.minus(a), Residue::new(3, 2));
    assert_eq!(a.minus(b), Residue::new(MODULUS - 3, MODULUS - 2));
}

#[test]
fn product_follows_the_complex_rule() {
    // (2 + 3i)(5 + 7i) = 10 - 21 + (14 + 15)i = -11 + 29i
    let a = Residue::new(2, 3);
    let b = Residue::new(5, 7);
    assert_eq!(a.times(b), Residue::new(MODULUS - 11, 29));
    assert_eq!(b.times(a), a.times(b));
}

#[test]
fn product_of_large_parts_is_reduced() {
    let m = MODULUS - 1;
    // (-1 - i)(-1 - i) = 1 - 1 + 2i = 2i
    let a = Residue::new(m, m);
    assert_eq!(a.times(a), Residue::new(0, 2));
}

#[test]
fn negation_is_the_additive_inverse() {
    let a = Residue::new(12345, 67890);
    assert_eq!(a.negate(), Residue::new(MODULUS - 12345, MODULUS - 67890));
    assert_eq!(a.plus(a.negate()), Residue::zero());
    assert_eq!(Residue::zero().negate(), Residue::zero());
}

#[test]
fn i_squared_is_minus_one() {
    let i = Residue::i();
    assert_eq!(i.times(i), Residue::one().negate());
    assert_eq!(i.times(i.negate()), Residue::one());
}

#[test]
fn hsqrt2_squared_is_one_half() {
    let h = Residue::hsqrt2();
    let hh = h.times(h);
    assert_eq!(hh, Residue::new(1 << 30, 0));
    assert_eq!(hh.plus(hh), Residue::one());
}
