//! The scalar interface of the simulator.
//!
//! A state vector is a sequence of amplitudes. Gate kernels need very
//! little from an amplitude type: the four constants from which every built-in
//! gate matrix is assembled, and sum, difference, product and negation. The
//! kernels are written, and proved, against this interface; every contract in
//! the crate names results through the `spec_*` functions declared here.
//!
//! [`Amplitude`] promises only that each operation is a function of its
//! arguments. [`ExactAmplitude`] adds the laws of a commutative ring in which
//! `i * i = -1` and `2 * hsqrt2 * hsqrt2 = 1`; the algebraic identities of the
//! gates are proved for such types. Machine floating point satisfies the first
//! trait and not the second.

use vstd::prelude::*;

verus! {

/// A scalar that can serve as the amplitude of a basis state.
pub trait Amplitude: Copy {
    /// The additive identity.
    spec fn spec_zero() -> Self;

    /// The multiplicative identity.
    spec fn spec_one() -> Self;

    /// The imaginary unit.
    spec fn spec_i() -> Self;

    /// The reciprocal of the square root of two.
    spec fn spec_hsqrt2() -> Self;

    /// The sum `self + rhs`.
    spec fn spec_plus(self, rhs: Self) -> Self;

    /// The difference `self - rhs`.
    spec fn spec_minus(self, rhs: Self) -> Self;

    /// The product `self * rhs`.
    spec fn spec_times(self, rhs: Self) -> Self;

    /// The additive inverse `-self`.
    spec fn spec_negate(self) -> Self;

    fn zero() -> (r: Self)
        ensures
            r == Self::spec_zero(),
    ;

    fn one() -> (r: Self)
        ensures
            r == Self::spec_one(),
    ;

    fn i() -> (r: Self)
        ensures
            r == Self::spec_i(),
    ;

    fn hsqrt2() -> (r: Self)
        ensures
            r == Self::spec_hsqrt2(),
    ;

    fn plus(self, rhs: Self) -> (r: Self)
        ensures
            r == self.spec_plus(rhs),
    ;

    fn minus(self, rhs: Self) -> (r: Self)
        ensures
            r == self.spec_minus(rhs),
    ;

    fn times(self, rhs: Self) -> (r: Self)
        ensures
            r == self.spec_times(rhs),
    ;

    fn negate(self) -> (r: Self)
        ensures
            r == self.spec_negate(),
    ;
}

/// An amplitude type whose arithmetic is exact.
///
/// `canonical` singles out the values that represent themselves: every
/// operation returns a canonical value, and the identity laws, which compare
/// a result with an argument, are stated for canonical arguments.
pub trait ExactAmplitude: Amplitude {
    /// Whether `self` is the unique representative of its value.
    spec fn canonical(self) -> bool;

    /// The complex conjugate of `self`.
    spec fn spec_conj(self) -> Self;

    proof fn lemma_canonical_results(a: Self, b: Self)
        ensures
            Self::spec_zero().canonical(),
            Self::spec_one().canonical(),
            Self::spec_i().canonical(),
            Self::spec_hsqrt2().canonical(),
            a.spec_plus(b).canonical(),
            a.spec_minus(b).canonical(),
            a.spec_times(b).canonical(),
            a.spec_negate().canonical(),
            a.spec_conj().canonical(),
    ;

    proof fn lemma_plus_commutes(a: Self, b: Self)
        ensures
            a.spec_plus(b) == b.spec_plus(a),
    ;

    proof fn lemma_plus_associates(a: Self, b: Self, c: Self)
        ensures
            a.spec_plus(b).spec_plus(c) == a.spec_plus(b.spec_plus(c)),
    ;

    proof fn lemma_plus_zero(a: Self)
        requires
            a.canonical(),
        ensures
            a.spec_plus(Self::spec_zero()) == a,
    ;

    proof fn lemma_plus_negate(a: Self)
        ensures
            a.spec_plus(a.spec_negate()) == Self::spec_zero(),
    ;

    proof fn lemma_minus_is_plus_negate(a: Self, b: Self)
        ensures
            a.spec_minus(b) == a.spec_plus(b.spec_negate()),
    ;

    proof fn lemma_times_commutes(a: Self, b: Self)
        ensures
            a.spec_times(b) == b.spec_times(a),
    ;

    proof fn lemma_times_associates(a: Self, b: Self, c: Self)
        ensures
            a.spec_times(b).spec_times(c) == a.spec_times(b.spec_times(c)),
    ;

    proof fn lemma_times_one(a: Self)
        requires
            a.canonical(),
        ensures
            a.spec_times(Self::spec_one()) == a,
    ;

    proof fn lemma_times_distributes(a: Self, b: Self, c: Self)
        ensures
            a.spec_plus(b).spec_times(c) == a.spec_times(c).spec_plus(b.spec_times(c)),
    ;

    proof fn lemma_i_squared()
        ensures
            Self::spec_i().spec_times(Self::spec_i()) == Self::spec_one().spec_negate(),
    ;

    proof fn lemma_hsqrt2_squared()
        ensures
            Self::spec_hsqrt2().spec_times(Self::spec_hsqrt2()).spec_plus(
                Self::spec_hsqrt2().spec_times(Self::spec_hsqrt2()),
            ) == Self::spec_one(),
    ;

    proof fn lemma_conj_plus(a: Self, b: Self)
        ensures
            a.spec_plus(b).spec_conj() == a.spec_conj().spec_plus(b.spec_conj()),
    ;

    proof fn lemma_conj_times(a: Self, b: Self)
        ensures
            a.spec_times(b).spec_conj() == a.spec_conj().spec_times(b.spec_conj()),
    ;

    proof fn lemma_conj_constants()
        ensures
            Self::spec_one().spec_conj() == Self::spec_one(),
            Self::spec_hsqrt2().spec_conj() == Self::spec_hsqrt2(),
            Self::spec_i().spec_conj() == Self::spec_i().spec_negate(),
    ;
}

} // verus!
