//! Inverses and congruences modulo an integer `q > 1`.
use vstd::arithmetic::div_mod::{
    lemma_fundamental_div_mod, lemma_mod_multiples_vanish, lemma_mul_mod_noop_left,
    lemma_mul_mod_noop_right, lemma_small_mod,
};
use vstd::arithmetic::mul::lemma_mul_is_associative;
use vstd::prelude::*;

verus! {

/// `b` is the representative in `0..q` of the inverse of `a` modulo `q`.
pub open spec fn is_inverse(a: int, b: int, q: int) -> bool {
    0 <= b < q && (a * b) % q == 1
}

/// `a` is a unit modulo `q`.
pub open spec fn has_inverse(a: int, q: int) -> bool {
    exists|b: int| is_inverse(a, b, q)
}

/// The inverse of `a` modulo `q` in `0..q`, where `a` has one.
pub open spec fn inverse(a: int, q: int) -> int {
    choose|b: int| is_inverse(a, b, q)
}

/// A residue has at most one inverse in `0..q`.
pub proof fn lemma_inverse_unique(a: int, b1: int, b2: int, q: int)
    requires
        q > 1,
        is_inverse(a, b1, q),
        is_inverse(a, b2, q),
    ensures
        b1 == b2,
{
    let whole = b1 * (a * b2);
    assert(whole % q == b1) by {
        lemma_mul_mod_noop_right(b1, a * b2, q);
        lemma_small_mod(b1 as nat, q as nat);
    }
    assert(whole % q == b2) by {
        lemma_mul_is_associative(b1, a, b2);
        lemma_mul_mod_noop_left(a * b1, b2, q);
        lemma_small_mod(b2 as nat, q as nat);
    }
}

/// The inverse that `choose` picks is the one at hand.
pub proof fn lemma_inverse_is(a: int, b: int, q: int)
    requires
        q > 1,
        is_inverse(a, b, q),
    ensures
        has_inverse(a, q),
        inverse(a, q) == b,
{
    lemma_inverse_unique(a, b, inverse(a, q), q);
}

/// A unit can be cancelled from a product that vanishes modulo `q`.
pub proof fn lemma_cancel_unit(a: int, c: int, q: int)
    requires
        q > 1,
        has_inverse(a, q),
        (a * c) % q == 0,
    ensures
        c % q == 0,
{
    let b = inverse(a, q);
    let whole = (a * c) * b;
    assert(whole % q == 0) by {
        lemma_mul_mod_noop_left(a * c, b, q);
        assert(0 * b == 0);
    }
    assert(whole % q == c % q) by {
        assert(whole == (a * b) * c) by (nonlinear_arith)
            requires
                whole == (a * c) * b,
        ;
        lemma_mul_mod_noop_left(a * b, c, q);
    }
}

/// Each factor of a unit is a unit.
pub proof fn lemma_factor_of_unit(a: int, b: int, q: int)
    requires
        q > 1,
        has_inverse(a * b, q),
    ensures
        has_inverse(a, q),
{
    let w = inverse(a * b, q);
    let v = (b * w) % q;
    assert((a * v) % q == 1) by {
        lemma_mul_mod_noop_right(a, b * w, q);
        lemma_mul_is_associative(a, b, w);
    }
    assert(is_inverse(a, v, q));
}

/// A product of units is a unit.
pub proof fn lemma_unit_product(a: int, b: int, q: int)
    requires
        q > 1,
        has_inverse(a, q),
        has_inverse(b, q),
    ensures
        has_inverse(a * b, q),
{
    let u = inverse(a, q);
    let w = inverse(b, q);
    let v = (u * w) % q;
    assert(((a * b) * v) % q == 1) by {
        lemma_mul_mod_noop_right(a * b, u * w, q);
        assert((a * b) * (u * w) == (a * u) * (b * w)) by (nonlinear_arith);
        lemma_mul_mod_noop_left(a * u, b * w, q);
    }
    assert(is_inverse(a * b, v, q));
}

/// `q` is a prime.
pub open spec fn is_prime(q: int) -> bool {
    &&& q > 1
    &&& forall|d: int| 1 < d < q ==> #[trigger] (q % d) != 0
}

/// Modulo a prime every residue but zero is a unit.
pub proof fn lemma_prime_residue_unit(a: int, q: int)
    requires
        is_prime(q),
        0 < a < q,
    ensures
        has_inverse(a, q),
    decreases a,
{
    if a == 1 {
        lemma_small_mod(1, q as nat);
        assert(is_inverse(a, 1, q));
    } else {
        let r = q % a;
        let k = q / a;
        lemma_fundamental_div_mod(q, a);
        assert(r != 0);
        lemma_prime_residue_unit(r, q);
        let s = inverse(r, q);
        let b = (-(k * s)) % q;
        assert((a * b) % q == 1) by {
            lemma_mul_mod_noop_right(a, -(k * s), q);
            assert(a * (-(k * s)) == q * (-s) + r * s) by (nonlinear_arith)
                requires
                    q == a * k + r,
            ;
            lemma_mod_multiples_vanish(-s, r * s, q);
        }
        assert(is_inverse(a, b, q));
    }
}

/// Modulo a prime every integer that it does not divide is a unit.
pub proof fn lemma_prime_unit(a: int, q: int)
    requires
        is_prime(q),
        a % q != 0,
    ensures
        has_inverse(a, q),
{
    let r = a % q;
    lemma_prime_residue_unit(r, q);
    let b = inverse(r, q);
    lemma_mul_mod_noop_left(a, b, q);
    assert(is_inverse(a, b, q));
}

} // verus!
