//! Amplitudes in a finite field: an exact model of the scalar interface.
//!
//! Let `p = 2^31 - 1`. Since `p` is congruent to 7 modulo 8, `-1` has no
//! square root modulo `p` and 2 has one: `2^16 * 2^16 = 2^32 = 2 * (p + 1)`.
//! The ring of pairs `re + im * i` of residues modulo `p`, multiplied like
//! complex numbers, is therefore a field with `p * p` elements in which
//! `1/sqrt(2)` is the residue `2^15`: `2 * 2^15 * 2^15 = 2^31 = p + 1`.
//!
//! Every operation is total and free of rounding, so circuit identities that
//! hold over the complex numbers by ring algebra alone hold here bit for bit.

use crate::amplitude::{Amplitude, ExactAmplitude};
use vstd::arithmetic::div_mod::{
    lemma_add_mod_noop, lemma_mod_add_multiples_vanish, lemma_mod_bound, lemma_mul_mod_noop,
    lemma_small_mod, lemma_sub_mod_noop,
};
use vstd::prelude::*;

verus! {

/// The prime `2^31 - 1`.
pub const MODULUS: u64 = 2147483647;

/// The residue of `1/sqrt(2)`: `2^15`.
pub const HSQRT2: u64 = 32768;

/// An element `re + im * i` of the field with `MODULUS * MODULUS` elements.
#[derive(Clone, Copy, Debug, PartialEq, Eq)]
pub struct Residue {
    re: u64,
    im: u64,
}

/// The least non-negative residue of `x`.
pub open spec fn modp(x: int) -> int {
    x % (MODULUS as int)
}

proof fn lemma_modp_bound(x: int)
    ensures
        0 <= modp(x) < MODULUS,
{
    lemma_mod_bound(x, MODULUS as int);
}

proof fn lemma_modp_small(x: int)
    requires
        0 <= x < MODULUS,
    ensures
        modp(x) == x,
{
    lemma_small_mod(x as nat, MODULUS as nat);
}

proof fn lemma_modp_idempotent(x: int)
    ensures
        modp(modp(x)) == modp(x),
{
    lemma_modp_bound(x);
    lemma_modp_small(modp(x));
}

proof fn lemma_modp_plus(x: int, y: int)
    ensures
        modp(modp(x) + modp(y)) == modp(x + y),
        modp(modp(x) + y) == modp(x + y),
        modp(x + modp(y)) == modp(x + y),
{
    let p = MODULUS as int;
    lemma_add_mod_noop(x, y, p);
    lemma_modp_idempotent(x);
    lemma_modp_idempotent(y);
    lemma_add_mod_noop(modp(x), y, p);
    lemma_add_mod_noop(x, modp(y), p);
}

proof fn lemma_modp_minus(x: int, y: int)
    ensures
        modp(modp(x) - modp(y)) == modp(x - y),
        modp(modp(x) - y) == modp(x - y),
        modp(x - modp(y)) == modp(x - y),
{
    let p = MODULUS as int;
    lemma_sub_mod_noop(x, y, p);
    lemma_modp_idempotent(x);
    lemma_modp_idempotent(y);
    lemma_sub_mod_noop(modp(x), y, p);
    lemma_sub_mod_noop(x, modp(y), p);
}

proof fn lemma_modp_times(x: int, y: int)
    ensures
        modp(modp(x) * modp(y)) == modp(x * y),
        modp(modp(x) * y) == modp(x * y),
        modp(x * modp(y)) == modp(x * y),
{
    let p = MODULUS as int;
    lemma_mul_mod_noop(x, y, p);
    lemma_modp_idempotent(x);
    lemma_modp_idempotent(y);
    lemma_mul_mod_noop(modp(x), y, p);
    lemma_mul_mod_noop(x, modp(y), p);
}

/// Reducing the factors of a difference of two products changes nothing.
proof fn lemma_modp_products_minus(x: int, y: int, u: int, v: int)
    ensures
        modp(modp(x) * modp(y) - modp(u) * modp(v)) == modp(x * y - u * v),
        modp(modp(x) * y - modp(u) * v) == modp(x * y - u * v),
        modp(x * modp(y) - u * modp(v)) == modp(x * y - u * v),
{
    lemma_modp_times(x, y);
    lemma_modp_times(u, v);
    lemma_modp_minus(x * y, u * v);
    lemma_modp_minus(modp(x) * modp(y), modp(u) * modp(v));
    lemma_modp_minus(modp(x) * y, modp(u) * v);
    lemma_modp_minus(x * modp(y), u * modp(v));
}

/// Reducing the factors of a sum of two products changes nothing.
proof fn lemma_modp_products_plus(x: int, y: int, u: int, v: int)
    ensures
        modp(modp(x) * modp(y) + modp(u) * modp(v)) == modp(x * y + u * v),
        modp(modp(x) * y + modp(u) * v) == modp(x * y + u * v),
        modp(x * modp(y) + u * modp(v)) == modp(x * y + u * v),
{
    lemma_modp_times(x, y);
    lemma_modp_times(u, v);
    lemma_modp_plus(x * y, u * v);
    lemma_modp_plus(modp(x) * modp(y), modp(u) * modp(v));
    lemma_modp_plus(modp(x) * y, modp(u) * v);
    lemma_modp_plus(x * modp(y), u * modp(v));
}

impl Residue {
    #[verifier::type_invariant]
    spec fn reduced(self) -> bool {
        self.re < MODULUS && self.im < MODULUS
    }

    /// The real part, as stored.
    pub closed spec fn spec_re(self) -> int {
        self.re as int
    }

    /// The imaginary part, as stored.
    pub closed spec fn spec_im(self) -> int {
        self.im as int
    }

    /// The element whose parts are the residues of `re` and `im`.
    pub closed spec fn of(re: int, im: int) -> Residue {
        Residue { re: modp(re) as u64, im: modp(im) as u64 }
    }

    /// The parts of `of(re, im)` are the least residues of `re` and `im`, and
    /// an element is determined by its parts.
    pub proof fn lemma_of(re: int, im: int)
        ensures
            Self::of(re, im).spec_re() == modp(re),
            Self::of(re, im).spec_im() == modp(im),
            Self::of(re, im).canonical(),
    {
        lemma_modp_bound(re);
        lemma_modp_bound(im);
    }

    /// The constants and the operations, in terms of the parts.
    pub proof fn lemma_arithmetic(a: Residue, b: Residue)
        ensures
            Self::spec_zero() == Self::of(0, 0),
            Self::spec_one() == Self::of(1, 0),
            Self::spec_i() == Self::of(0, 1),
            Self::spec_hsqrt2() == Self::of(32768, 0),
            a.spec_plus(b) == Self::of(a.spec_re() + b.spec_re(), a.spec_im() + b.spec_im()),
            a.spec_minus(b) == Self::of(a.spec_re() - b.spec_re(), a.spec_im() - b.spec_im()),
            a.spec_times(b) == Self::of(
                a.spec_re() * b.spec_re() - a.spec_im() * b.spec_im(),
                a.spec_re() * b.spec_im() + a.spec_im() * b.spec_re(),
            ),
            a.spec_negate() == Self::of(-a.spec_re(), -a.spec_im()),
            a.spec_conj() == Self::of(a.spec_re(), -a.spec_im()),
            a.canonical() <==> 0 <= a.spec_re() < MODULUS && 0 <= a.spec_im() < MODULUS,
    {
    }

    /// Two elements with the same parts are the same element.
    pub proof fn lemma_parts_determine(a: Residue, b: Residue)
        requires
            a.spec_re() == b.spec_re(),
            a.spec_im() == b.spec_im(),
        ensures
            a == b,
    {
    }

    /// The element `re + im * i`, each part reduced modulo [`MODULUS`].
    pub fn new(re: u64, im: u64) -> (r: Self)
        ensures
            r == Self::of(re as int, im as int),
    {
        Residue { re: re % MODULUS, im: im % MODULUS }
    }

    /// The real part: a residue below [`MODULUS`].
    pub fn re(&self) -> (x: u64)
        ensures
            x == self.spec_re(),
            x < MODULUS,
    {
        proof {
            use_type_invariant(self);
        }
        self.re
    }

    /// The imaginary part: a residue below [`MODULUS`].
    pub fn im(&self) -> (x: u64)
        ensures
            x == self.spec_im(),
            x < MODULUS,
    {
        proof {
            use_type_invariant(self);
        }
        self.im
    }
}

impl Amplitude for Residue {
    closed spec fn spec_zero() -> Self {
        Residue { re: 0, im: 0 }
    }

    closed spec fn spec_one() -> Self {
        Residue { re: 1, im: 0 }
    }

    closed spec fn spec_i() -> Self {
        Residue { re: 0, im: 1 }
    }

    closed spec fn spec_hsqrt2() -> Self {
        Residue { re: HSQRT2, im: 0 }
    }

    closed spec fn spec_plus(self, rhs: Self) -> Self {
        Self::of(self.re + rhs.re, self.im + rhs.im)
    }

    closed spec fn spec_minus(self, rhs: Self) -> Self {
        Self::of(self.re - rhs.re, self.im - rhs.im)
    }

    closed spec fn spec_times(self, rhs: Self) -> Self {
        Self::of(self.re * rhs.re - self.im * rhs.im, self.re * rhs.im + self.im * rhs.re)
    }

    closed spec fn spec_negate(self) -> Self {
        Self::of(-(self.re as int), -(self.im as int))
    }

    fn zero() -> (r: Self) {
        Residue { re: 0, im: 0 }
    }

    fn one() -> (r: Self) {
        Residue { re: 1, im: 0 }
    }

    fn i() -> (r: Self) {
        Residue { re: 0, im: 1 }
    }

    fn hsqrt2() -> (r: Self) {
        Residue { re: HSQRT2, im: 0 }
    }

    fn plus(self, rhs: Self) -> (r: Self) {
        proof {
            use_type_invariant(self);
            use_type_invariant(rhs);
        }
        Residue { re: (self.re + rhs.re) % MODULUS, im: (self.im + rhs.im) % MODULUS }
    }

    fn minus(self, rhs: Self) -> (r: Self) {
        proof {
            use_type_invariant(self);
            use_type_invariant(rhs);
            lemma_mod_add_multiples_vanish(self.re - rhs.re, MODULUS as int);
            lemma_mod_add_multiples_vanish(self.im - rhs.im, MODULUS as int);
        }
        Residue {
            re: (self.re + MODULUS - rhs.re) % MODULUS,
            im: (self.im + MODULUS - rhs.im) % MODULUS,
        }
    }

    fn times(self, rhs: Self) -> (r: Self) {
        proof {
            use_type_invariant(self);
            use_type_invariant(rhs);
            lemma_product_fits(self.re, rhs.re);
            lemma_product_fits(self.im, rhs.im);
            lemma_product_fits(self.re, rhs.im);
            lemma_product_fits(self.im, rhs.re);
        }
        let rr: u64 = (self.re * rhs.re) % MODULUS;
        let ii: u64 = (self.im * rhs.im) % MODULUS;
        let ri: u64 = (self.re * rhs.im) % MODULUS;
        let ir: u64 = (self.im * rhs.re) % MODULUS;
        proof {
            let x = self.re * rhs.re;
            let y = self.im * rhs.im;
            lemma_mod_add_multiples_vanish(modp(x) - modp(y), MODULUS as int);
            lemma_modp_minus(x, y);
            lemma_modp_plus(self.re * rhs.im, self.im * rhs.re);
        }
        Residue { re: (rr + MODULUS - ii) % MODULUS, im: (ri + ir) % MODULUS }
    }

    fn negate(self) -> (r: Self) {
        proof {
            use_type_invariant(self);
            lemma_mod_add_multiples_vanish(-(self.re as int), MODULUS as int);
            lemma_mod_add_multiples_vanish(-(self.im as int), MODULUS as int);
        }
        Residue { re: (MODULUS - self.re) % MODULUS, im: (MODULUS - self.im) % MODULUS }
    }
}

proof fn lemma_product_fits(a: u64, b: u64)
    requires
        a < MODULUS,
        b < MODULUS,
    ensures
        a * b < 0x4000_0000_0000_0000,
{
    assert(a * b <= 2147483646 * 2147483646) by (nonlinear_arith)
        requires
            0 <= a <= 2147483646,
            0 <= b <= 2147483646,
    ;
}

/// The two parts of `(a * b) * c` and of `a * (b * c)`, as integer polynomials
/// in the parts of `a`, `b` and `c`.
proof fn lemma_triple_products(ar: int, ai: int, br: int, bi: int, cr: int, ci: int)
    ensures
        (ar * br - ai * bi) * cr - (ar * bi + ai * br) * ci == ar * (br * cr - bi * ci) - ai * (br
            * ci + bi * cr),
        (ar * br - ai * bi) * ci + (ar * bi + ai * br) * cr == ar * (br * ci + bi * cr) + ai * (br
            * cr - bi * ci),
{
    assert((ar * br - ai * bi) * cr == (ar * br) * cr - (ai * bi) * cr) by (nonlinear_arith);
    assert((ar * bi + ai * br) * ci == (ar * bi) * ci + (ai * br) * ci) by (nonlinear_arith);
    assert((ar * br - ai * bi) * ci == (ar * br) * ci - (ai * bi) * ci) by (nonlinear_arith);
    assert((ar * bi + ai * br) * cr == (ar * bi) * cr + (ai * br) * cr) by (nonlinear_arith);
    assert(ar * (br * cr - bi * ci) == ar * (br * cr) - ar * (bi * ci)) by (nonlinear_arith);
    assert(ai * (br * ci + bi * cr) == ai * (br * ci) + ai * (bi * cr)) by (nonlinear_arith);
    assert(ar * (br * ci + bi * cr) == ar * (br * ci) + ar * (bi * cr)) by (nonlinear_arith);
    assert(ai * (br * cr - bi * ci) == ai * (br * cr) - ai * (bi * ci)) by (nonlinear_arith);
    assert((ar * br) * cr == ar * (br * cr)) by (nonlinear_arith);
    assert((ai * bi) * cr == ai * (bi * cr)) by (nonlinear_arith);
    assert((ar * bi) * ci == ar * (bi * ci)) by (nonlinear_arith);
    assert((ai * br) * ci == ai * (br * ci)) by (nonlinear_arith);
    assert((ar * br) * ci == ar * (br * ci)) by (nonlinear_arith);
    assert((ai * bi) * ci == ai * (bi * ci)) by (nonlinear_arith);
    assert((ar * bi) * cr == ar * (bi * cr)) by (nonlinear_arith);
    assert((ai * br) * cr == ai * (br * cr)) by (nonlinear_arith);
}

impl ExactAmplitude for Residue {
    closed spec fn canonical(self) -> bool {
        self.re < MODULUS && self.im < MODULUS
    }

    closed spec fn spec_conj(self) -> Self {
        Self::of(self.re as int, -(self.im as int))
    }

    proof fn lemma_canonical_results(a: Self, b: Self) {
        Self::lemma_of(a.re + b.re, a.im + b.im);
        Self::lemma_of(a.re - b.re, a.im - b.im);
        Self::lemma_of(a.re * b.re - a.im * b.im, a.re * b.im + a.im * b.re);
        Self::lemma_of(-(a.re as int), -(a.im as int));
        Self::lemma_of(a.re as int, -(a.im as int));
    }

    proof fn lemma_plus_commutes(a: Self, b: Self) {
    }

    proof fn lemma_plus_associates(a: Self, b: Self, c: Self) {
        lemma_in_range(a.re + b.re);
        lemma_in_range(a.im + b.im);
        lemma_in_range(b.re + c.re);
        lemma_in_range(b.im + c.im);
        lemma_modp_plus(a.re + b.re, c.re as int);
        lemma_modp_plus(a.im + b.im, c.im as int);
        lemma_modp_plus(a.re as int, b.re + c.re);
        lemma_modp_plus(a.im as int, b.im + c.im);
    }

    proof fn lemma_plus_zero(a: Self) {
        lemma_modp_small(a.re as int);
        lemma_modp_small(a.im as int);
    }

    proof fn lemma_plus_negate(a: Self) {
        lemma_in_range(-(a.re as int));
        lemma_in_range(-(a.im as int));
        lemma_modp_plus(a.re as int, -(a.re as int));
        lemma_modp_plus(a.im as int, -(a.im as int));
    }

    proof fn lemma_minus_is_plus_negate(a: Self, b: Self) {
        lemma_in_range(-(b.re as int));
        lemma_in_range(-(b.im as int));
        lemma_modp_plus(a.re as int, -(b.re as int));
        lemma_modp_plus(a.im as int, -(b.im as int));
    }

    proof fn lemma_times_commutes(a: Self, b: Self) {
        assert(a.re * b.re - a.im * b.im == b.re * a.re - b.im * a.im) by (nonlinear_arith);
        assert(a.re * b.im + a.im * b.re == b.re * a.im + b.im * a.re) by (nonlinear_arith);
    }

    proof fn lemma_times_associates(a: Self, b: Self, c: Self) {
        let (ar, ai) = (a.re as int, a.im as int);
        let (br, bi) = (b.re as int, b.im as int);
        let (cr, ci) = (c.re as int, c.im as int);
        let abr = ar * br - ai * bi;
        let abi = ar * bi + ai * br;
        let bcr = br * cr - bi * ci;
        let bci = br * ci + bi * cr;
        lemma_in_range(abr);
        lemma_in_range(abi);
        lemma_in_range(bcr);
        lemma_in_range(bci);
        lemma_modp_products_minus(abr, cr, abi, ci);
        lemma_modp_products_plus(abr, ci, abi, cr);
        lemma_modp_products_minus(ar, bcr, ai, bci);
        lemma_modp_products_plus(ar, bci, ai, bcr);
        lemma_triple_products(ar, ai, br, bi, cr, ci);
    }

    proof fn lemma_times_one(a: Self) {
        lemma_modp_small(a.re as int);
        lemma_modp_small(a.im as int);
        assert(a.re * 1 - a.im * 0 == a.re);
        assert(a.re * 0 + a.im * 1 == a.im);
    }

    proof fn lemma_times_distributes(a: Self, b: Self, c: Self) {
        let (ar, ai) = (a.re as int, a.im as int);
        let (br, bi) = (b.re as int, b.im as int);
        let (cr, ci) = (c.re as int, c.im as int);
        let acr = ar * cr - ai * ci;
        let aci = ar * ci + ai * cr;
        let bcr = br * cr - bi * ci;
        let bci = br * ci + bi * cr;
        lemma_in_range(ar + br);
        lemma_in_range(ai + bi);
        lemma_in_range(acr);
        lemma_in_range(aci);
        lemma_in_range(bcr);
        lemma_in_range(bci);
        lemma_modp_products_minus(ar + br, cr, ai + bi, ci);
        lemma_modp_products_plus(ar + br, ci, ai + bi, cr);
        lemma_modp_plus(acr, bcr);
        lemma_modp_plus(aci, bci);
        assert((ar + br) * cr - (ai + bi) * ci == acr + bcr) by (nonlinear_arith)
            requires
                acr == ar * cr - ai * ci,
                bcr == br * cr - bi * ci,
        ;
        assert((ar + br) * ci + (ai + bi) * cr == aci + bci) by (nonlinear_arith)
            requires
                aci == ar * ci + ai * cr,
                bci == br * ci + bi * cr,
        ;
    }

    proof fn lemma_i_squared() {
    }

    proof fn lemma_hsqrt2_squared() {
        lemma_in_range(HSQRT2 * HSQRT2 - 0 * 0);
        lemma_in_range(HSQRT2 * 0 + 0 * HSQRT2);
    }

    proof fn lemma_conj_plus(a: Self, b: Self) {
        lemma_in_range(a.re + b.re);
        lemma_in_range(a.im + b.im);
        lemma_in_range(a.re as int);
        lemma_in_range(b.re as int);
        lemma_in_range(-(a.im as int));
        lemma_in_range(-(b.im as int));
        lemma_modp_idempotent(a.re + b.re);
        lemma_modp_plus(a.re as int, b.re as int);
        lemma_modp_minus(0, a.im + b.im);
        lemma_modp_plus(-(a.im as int), -(b.im as int));
    }

    proof fn lemma_conj_times(a: Self, b: Self) {
        let (ar, ai) = (a.re as int, a.im as int);
        let (br, bi) = (b.re as int, b.im as int);
        lemma_in_range(ar * br - ai * bi);
        lemma_in_range(ar * bi + ai * br);
        lemma_in_range(ar);
        lemma_in_range(br);
        lemma_in_range(-ai);
        lemma_in_range(-bi);
        lemma_modp_idempotent(ar * br - ai * bi);
        lemma_modp_minus(0, ar * bi + ai * br);
        lemma_modp_products_minus(ar, br, -ai, -bi);
        lemma_modp_products_plus(ar, -bi, -ai, br);
        assert(ar * br - (-ai) * (-bi) == ar * br - ai * bi) by (nonlinear_arith);
        assert(ar * (-bi) + (-ai) * br == 0 - (ar * bi + ai * br)) by (nonlinear_arith);
    }

    proof fn lemma_conj_constants() {
    }
}

/// A least residue survives the round trip through the stored width.
proof fn lemma_in_range(x: int)
    ensures
        modp(x) as u64 as int == modp(x),
{
    lemma_modp_bound(x);
}

} // verus!
