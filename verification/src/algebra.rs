//! Consequences of the ring laws of an exact amplitude type.

use crate::amplitude::{Amplitude, ExactAmplitude};
use vstd::prelude::*;

verus! {

/// Zero is a left identity of the sum.
pub proof fn lemma_zero_plus<A: ExactAmplitude>(a: A)
    requires
        a.canonical(),
    ensures
        A::spec_zero().spec_plus(a) == a,
{
    A::lemma_plus_commutes(A::spec_zero(), a);
    A::lemma_plus_zero(a);
}

/// One is a left identity of the product.
pub proof fn lemma_one_times<A: ExactAmplitude>(a: A)
    requires
        a.canonical(),
    ensures
        A::spec_one().spec_times(a) == a,
{
    A::lemma_times_commutes(A::spec_one(), a);
    A::lemma_times_one(a);
}

/// The additive inverse is unique.
pub proof fn lemma_inverse_is_unique<A: ExactAmplitude>(u: A, v: A)
    requires
        v.canonical(),
        u.spec_plus(v) == A::spec_zero(),
    ensures
        v == u.spec_negate(),
{
    let z = A::spec_zero();
    let n = u.spec_negate();
    A::lemma_canonical_results(u, v);
    A::lemma_plus_zero(v);
    A::lemma_plus_negate(u);
    A::lemma_plus_associates(v, u, n);
    A::lemma_plus_commutes(v, u);
    lemma_zero_plus(n);
    assert(v == v.spec_plus(z));
    assert(v.spec_plus(z) == v.spec_plus(u.spec_plus(n)));
    assert(v.spec_plus(u.spec_plus(n)) == v.spec_plus(u).spec_plus(n));
    assert(v.spec_plus(u).spec_plus(n) == z.spec_plus(n));
}

/// Negating twice gives the value back.
pub proof fn lemma_negate_negate<A: ExactAmplitude>(a: A)
    requires
        a.canonical(),
    ensures
        a.spec_negate().spec_negate() == a,
{
    A::lemma_plus_negate(a);
    A::lemma_plus_commutes(a, a.spec_negate());
    lemma_inverse_is_unique(a.spec_negate(), a);
}

/// A value that is its own double is zero.
pub proof fn lemma_idempotent_is_zero<A: ExactAmplitude>(y: A)
    requires
        y.canonical(),
        y.spec_plus(y) == y,
    ensures
        y == A::spec_zero(),
{
    let n = y.spec_negate();
    A::lemma_plus_zero(y);
    A::lemma_plus_negate(y);
    A::lemma_plus_associates(y, y, n);
    assert(y == y.spec_plus(A::spec_zero()));
    assert(y.spec_plus(A::spec_zero()) == y.spec_plus(y.spec_plus(n)));
    assert(y.spec_plus(y.spec_plus(n)) == y.spec_plus(y).spec_plus(n));
}

/// The product of zero with anything is zero.
pub proof fn lemma_zero_times<A: ExactAmplitude>(a: A)
    ensures
        A::spec_zero().spec_times(a) == A::spec_zero(),
        a.spec_times(A::spec_zero()) == A::spec_zero(),
{
    let z = A::spec_zero();
    let y = z.spec_times(a);
    A::lemma_canonical_results(z, a);
    A::lemma_plus_zero(z);
    A::lemma_times_distributes(z, z, a);
    lemma_idempotent_is_zero(y);
    A::lemma_times_commutes(z, a);
}

/// A sign may be moved out of either factor of a product.
pub proof fn lemma_negate_times<A: ExactAmplitude>(a: A, b: A)
    ensures
        a.spec_negate().spec_times(b) == a.spec_times(b).spec_negate(),
        a.spec_times(b.spec_negate()) == a.spec_times(b).spec_negate(),
{
    let n = a.spec_negate();
    A::lemma_canonical_results(n, b);
    A::lemma_plus_negate(a);
    A::lemma_times_distributes(a, n, b);
    lemma_zero_times(b);
    lemma_inverse_is_unique(a.spec_times(b), n.spec_times(b));
    let m = b.spec_negate();
    A::lemma_canonical_results(m, a);
    A::lemma_plus_negate(b);
    A::lemma_times_distributes(b, m, a);
    lemma_zero_times(a);
    lemma_inverse_is_unique(b.spec_times(a), m.spec_times(a));
    A::lemma_times_commutes(a, m);
    A::lemma_times_commutes(a, b);
}

/// The product distributes over a difference.
pub proof fn lemma_times_distributes_minus<A: ExactAmplitude>(a: A, b: A, c: A)
    ensures
        a.spec_minus(b).spec_times(c) == a.spec_times(c).spec_minus(b.spec_times(c)),
{
    A::lemma_minus_is_plus_negate(a, b);
    A::lemma_times_distributes(a, b.spec_negate(), c);
    lemma_negate_times(b, c);
    A::lemma_minus_is_plus_negate(a.spec_times(c), b.spec_times(c));
}

/// The sum of a sum and a difference of the same two values is the double of
/// the first, and their difference is the double of the second.
pub proof fn lemma_sum_and_difference<A: ExactAmplitude>(a: A, b: A)
    requires
        a.canonical(),
        b.canonical(),
    ensures
        a.spec_plus(b).spec_plus(a.spec_minus(b)) == a.spec_plus(a),
        a.spec_plus(b).spec_minus(a.spec_minus(b)) == b.spec_plus(b),
{
    let z = A::spec_zero();
    let nb = b.spec_negate();
    let na = a.spec_negate();
    A::lemma_canonical_results(a, b);
    A::lemma_canonical_results(b, a);
    A::lemma_minus_is_plus_negate(a, b);
    // (a + b) + (a + -b) == a + (b + (a + -b)) == a + ((a + -b) + b) == a + (a + (-b + b))
    A::lemma_plus_associates(a, b, a.spec_plus(nb));
    A::lemma_plus_commutes(b, a.spec_plus(nb));
    A::lemma_plus_associates(a, nb, b);
    A::lemma_plus_commutes(nb, b);
    A::lemma_plus_negate(b);
    A::lemma_plus_zero(a);
    assert(a.spec_plus(nb).spec_plus(b) == a.spec_plus(nb.spec_plus(b)));
    assert(a.spec_plus(nb.spec_plus(b)) == a);
    // (a + b) - (a + -b) == (a + b) + -(a + -b), and -(a + -b) == -a + b
    let d = a.spec_plus(nb);
    A::lemma_minus_is_plus_negate(a.spec_plus(b), d);
    // d + (na + b) == 0
    A::lemma_plus_associates(a, nb, na.spec_plus(b));
    A::lemma_plus_commutes(na, b);
    A::lemma_plus_associates(nb, b, na);
    lemma_zero_plus(na);
    A::lemma_plus_negate(a);
    assert(nb.spec_plus(b.spec_plus(na)) == nb.spec_plus(b).spec_plus(na));
    assert(nb.spec_plus(b).spec_plus(na) == na);
    assert(d.spec_plus(na.spec_plus(b)) == z);
    A::lemma_canonical_results(na, b);
    lemma_inverse_is_unique(d, na.spec_plus(b));
    // (a + b) + (na + b) == (b + a) + (na + b) == b + (a + (na + b)) == b + ((a + na) + b)
    A::lemma_plus_commutes(a, b);
    A::lemma_plus_associates(b, a, na.spec_plus(b));
    A::lemma_plus_associates(a, na, b);
    lemma_zero_plus(b);
    assert(a.spec_plus(na.spec_plus(b)) == a.spec_plus(na).spec_plus(b));
    assert(a.spec_plus(na).spec_plus(b) == b);
}

/// Multiplying the double of a value by `1/sqrt 2` twice gives the value back.
pub proof fn lemma_halve_double<A: ExactAmplitude>(a: A)
    requires
        a.canonical(),
    ensures
        a.spec_plus(a).spec_times(A::spec_hsqrt2()).spec_times(A::spec_hsqrt2()) == a,
{
    let h = A::spec_hsqrt2();
    let hh = h.spec_times(h);
    A::lemma_times_associates(a.spec_plus(a), h, h);
    A::lemma_times_distributes(a, a, hh);
    A::lemma_times_commutes(a, hh);
    A::lemma_times_distributes(hh, hh, a);
    A::lemma_hsqrt2_squared();
    lemma_one_times(a);
    assert(a.spec_plus(a).spec_times(hh) == a.spec_times(hh).spec_plus(a.spec_times(hh)));
    assert(hh.spec_plus(hh).spec_times(a) == hh.spec_times(a).spec_plus(hh.spec_times(a)));
}

/// Multiplying by `i` and then by `-i`, or the other way round, gives the
/// value back.
pub proof fn lemma_quarter_turns_cancel<A: ExactAmplitude>(a: A)
    requires
        a.canonical(),
    ensures
        a.spec_times(A::spec_i()).spec_times(A::spec_i().spec_negate()) == a,
        a.spec_times(A::spec_i().spec_negate()).spec_times(A::spec_i()) == a,
{
    let i = A::spec_i();
    let ni = i.spec_negate();
    let one = A::spec_one();
    A::lemma_canonical_results(one, one);
    A::lemma_times_associates(a, i, ni);
    A::lemma_times_associates(a, ni, i);
    A::lemma_times_commutes(ni, i);
    lemma_negate_times(i, i);
    A::lemma_i_squared();
    lemma_negate_negate(one);
    A::lemma_times_one(a);
    assert(i.spec_times(ni) == i.spec_times(i).spec_negate());
    assert(i.spec_times(ni) == one);
}

/// Two pairs of summands may exchange their inner members.
pub proof fn lemma_plus_interchange<A: ExactAmplitude>(p: A, q: A, r: A, s: A)
    ensures
        p.spec_plus(q).spec_plus(r.spec_plus(s)) == p.spec_plus(r).spec_plus(q.spec_plus(s)),
{
    // (p + q) + (r + s) == p + (q + (r + s)) == p + ((q + r) + s) == p + ((r + q) + s)
    //                   == p + (r + (q + s)) == (p + r) + (q + s)
    A::lemma_plus_associates(p, q, r.spec_plus(s));
    A::lemma_plus_associates(q, r, s);
    A::lemma_plus_commutes(q, r);
    A::lemma_plus_associates(r, q, s);
    A::lemma_plus_associates(p, r, q.spec_plus(s));
}

/// Two products may exchange their inner factors.
pub proof fn lemma_times_interchange<A: ExactAmplitude>(p: A, q: A, r: A, s: A)
    ensures
        p.spec_times(q).spec_times(r.spec_times(s)) == p.spec_times(r).spec_times(q.spec_times(s)),
{
    A::lemma_times_associates(p, q, r.spec_times(s));
    A::lemma_times_associates(q, r, s);
    A::lemma_times_commutes(q, r);
    A::lemma_times_associates(r, q, s);
    A::lemma_times_associates(p, r, q.spec_times(s));
}

/// The product distributes over a sum in its second factor.
pub proof fn lemma_left_distributes<A: ExactAmplitude>(c: A, a: A, b: A)
    ensures
        c.spec_times(a.spec_plus(b)) == c.spec_times(a).spec_plus(c.spec_times(b)),
{
    A::lemma_times_commutes(c, a.spec_plus(b));
    A::lemma_times_distributes(a, b, c);
    A::lemma_times_commutes(a, c);
    A::lemma_times_commutes(b, c);
}

} // verus!
