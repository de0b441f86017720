//! Polynomials with integer coefficients, lowest degree first, and what
//! their values modulo `q` at enough points decide.
use crate::algebra::{has_inverse, lemma_cancel_unit};
use vstd::arithmetic::div_mod::{
    lemma_add_mod_noop, lemma_mod_twice, lemma_mul_mod_noop_right, lemma_small_mod,
    lemma_sub_mod_noop,
};
use vstd::prelude::*;

verus! {

/// The value at `x` of the polynomial `coeffs[0] + coeffs[1] * x + ...`.
pub open spec fn poly_eval(coeffs: Seq<int>, x: int) -> int
    decreases coeffs.len(),
{
    if coeffs.len() == 0 {
        0
    } else {
        coeffs[0] + x * poly_eval(coeffs.skip(1), x)
    }
}

/// The polynomial `a * u + b * v` of two polynomials of one length.
pub open spec fn poly_combine(u: Seq<int>, a: int, v: Seq<int>, b: int) -> Seq<int> {
    Seq::new(u.len(), |i: int| a * u[i] + b * v[i])
}

/// The polynomial `p * (x - r)`.
pub open spec fn poly_mul_linear(p: Seq<int>, r: int) -> Seq<int> {
    poly_combine(seq![0int] + p, 1, p + seq![0int], -r)
}

/// The quotient of `p` by `x - r`: its coefficient of degree `k` is the
/// value at `r` of what `p` holds above degree `k`.
pub open spec fn poly_quotient(p: Seq<int>, r: int) -> Seq<int> {
    Seq::new((p.len() - 1) as nat, |k: int| poly_eval(p.skip(k + 1), r))
}

/// Evaluation is linear in the polynomial.
pub proof fn lemma_eval_combine(u: Seq<int>, a: int, v: Seq<int>, b: int, x: int)
    requires
        u.len() == v.len(),
    ensures
        poly_eval(poly_combine(u, a, v, b), x) == a * poly_eval(u, x) + b * poly_eval(v, x),
    decreases u.len(),
{
    let w = poly_combine(u, a, v, b);
    if u.len() > 0 {
        lemma_eval_combine(u.skip(1), a, v.skip(1), b, x);
        assert(w.skip(1) =~= poly_combine(u.skip(1), a, v.skip(1), b));
        let eu = poly_eval(u.skip(1), x);
        let ev = poly_eval(v.skip(1), x);
        let (u0, v0) = (u[0], v[0]);
        assert(w[0] == a * u0 + b * v0);
        assert(x * (a * eu + b * ev) == a * (x * eu) + b * (x * ev)) by (nonlinear_arith);
        assert(a * (u0 + x * eu) == a * u0 + a * (x * eu)) by (nonlinear_arith);
        assert(b * (v0 + x * ev) == b * v0 + b * (x * ev)) by (nonlinear_arith);
    }
}

/// A zero coefficient on top changes no value.
pub proof fn lemma_eval_padded(p: Seq<int>, x: int)
    ensures
        poly_eval(p + seq![0int], x) == poly_eval(p, x),
    decreases p.len(),
{
    let padded = p + seq![0int];
    if p.len() == 0 {
        assert(poly_eval(padded.skip(1), x) == 0);
    } else {
        lemma_eval_padded(p.skip(1), x);
        assert(padded.skip(1) =~= p.skip(1) + seq![0int]);
    }
}

/// Multiplying a polynomial by `x - r` multiplies its values by `x - r`.
pub proof fn lemma_eval_mul_linear(p: Seq<int>, r: int, x: int)
    ensures
        poly_mul_linear(p, r).len() == p.len() + 1,
        poly_eval(poly_mul_linear(p, r), x) == (x - r) * poly_eval(p, x),
{
    let shifted = seq![0int] + p;
    let padded = p + seq![0int];
    lemma_eval_combine(shifted, 1, padded, -r, x);
    lemma_eval_padded(p, x);
    assert(shifted.skip(1) =~= p);
    let e = poly_eval(p, x);
    assert(1 * (0 + x * e) + (-r) * e == (x - r) * e) by (nonlinear_arith);
}

/// Division by `x - r` leaves the value at `r` as remainder.
pub proof fn lemma_eval_quotient(p: Seq<int>, r: int, x: int)
    requires
        p.len() > 0,
    ensures
        poly_eval(p, x) == poly_eval(p, r) + (x - r) * poly_eval(poly_quotient(p, r), x),
    decreases p.len(),
{
    let rest = p.skip(1);
    let quot = poly_quotient(p, r);
    if rest.len() == 0 {
        assert(poly_eval(rest, x) == 0 && poly_eval(rest, r) == 0);
        assert(poly_eval(quot, x) == 0);
    } else {
        lemma_eval_quotient(rest, r, x);
        assert(quot.skip(1) =~= poly_quotient(rest, r)) by {
            assert forall|k: int| 0 <= k < quot.len() - 1 implies quot.skip(1)[k] == poly_quotient(
                rest,
                r,
            )[k] by {
                assert(p.skip(k + 2) =~= rest.skip(k + 1));
            }
        }
        assert(quot[0] == poly_eval(rest, r));
        let ex = poly_eval(rest, x);
        let er = poly_eval(rest, r);
        let qx = poly_eval(poly_quotient(rest, r), x);
        assert(poly_eval(quot, x) == er + x * qx);
        assert(x * ex == r * er + (x - r) * (er + x * qx)) by (nonlinear_arith)
            requires
                ex == er + (x - r) * qx,
        ;
    }
}

/// The points of `xs` differ pairwise by units modulo `q`.
pub open spec fn unit_differences(xs: Seq<int>, q: int) -> bool {
    forall|i: int, j: int|
        0 <= i < xs.len() && 0 <= j < xs.len() && i != j ==> has_inverse(
            #[trigger] xs[i] - #[trigger] xs[j],
            q,
        )
}

/// Every point of `xs` is a root of `p` modulo `q`.
pub open spec fn vanishes_on(p: Seq<int>, xs: Seq<int>, q: int) -> bool {
    forall|k: int| 0 <= k < xs.len() ==> poly_eval(p, #[trigger] xs[k]) % q == 0
}

/// The quotient of a polynomial by `x - r`, for its last root `r`, has the
/// other roots, which still differ pairwise by units.
proof fn lemma_quotient_roots(p: Seq<int>, xs: Seq<int>, q: int)
    requires
        q > 1,
        1 <= p.len() <= xs.len(),
        unit_differences(xs, q),
        vanishes_on(p, xs, q),
    ensures
        vanishes_on(poly_quotient(p, xs.last()), xs.drop_last(), q),
        unit_differences(xs.drop_last(), q),
{
    let r = xs.last();
    let others = xs.drop_last();
    let quot = poly_quotient(p, r);
    assert(poly_eval(p, r) % q == 0);
    assert forall|k: int| 0 <= k < others.len() implies poly_eval(quot, #[trigger] others[k]) % q
        == 0 by {
        let y = xs[k];
        lemma_eval_quotient(p, r, y);
        let qy = poly_eval(quot, y);
        assert(((y - r) * qy) % q == 0) by {
            lemma_shift_by_multiple(poly_eval(p, r), (y - r) * qy, q);
        }
        assert(has_inverse(xs[k] - xs[xs.len() - 1], q));
        lemma_cancel_unit(y - r, qy, q);
    }
    assert forall|i: int, j: int|
        0 <= i < others.len() && 0 <= j < others.len() && i != j implies has_inverse(
        #[trigger] others[i] - #[trigger] others[j],
        q,
    ) by {
        assert(has_inverse(xs[i] - xs[j], q));
    }
}

/// A polynomial with no more coefficients than it has roots, where the roots
/// differ pairwise by units, vanishes everywhere modulo `q`.
pub proof fn lemma_roots_force_zero(p: Seq<int>, xs: Seq<int>, q: int, x: int)
    requires
        q > 1,
        p.len() <= xs.len(),
        unit_differences(xs, q),
        vanishes_on(p, xs, q),
    ensures
        poly_eval(p, x) % q == 0,
    decreases p.len(),
{
    if p.len() == 0 {
        lemma_small_mod(0, q as nat);
    } else {
        let r = xs.last();
        let quot = poly_quotient(p, r);
        lemma_quotient_roots(p, xs, q);
        lemma_roots_force_zero(quot, xs.drop_last(), q, x);
        lemma_eval_quotient(p, r, x);
        let qx = poly_eval(quot, x);
        assert(poly_eval(p, r) % q == 0);
        assert(((x - r) * qx) % q == 0) by {
            lemma_mul_mod_noop_right(x - r, qx, q);
            assert((x - r) * 0 == 0);
        }
        lemma_shift_by_multiple(poly_eval(p, r), (x - r) * qx, q);
    }
}

/// A difference of a multiple of `q` and a multiple of a multiple of `q` is
/// a multiple of `q`.
proof fn lemma_combination_vanishes(a: int, r: int, b: int, q: int)
    requires
        q > 1,
        a % q == 0,
        b % q == 0,
    ensures
        (a - r * b) % q == 0,
{
    lemma_mul_mod_noop_right(r, b, q);
    assert(r * 0 == 0);
    lemma_sub_mod_noop(a, r * b, q);
    lemma_small_mod(0, q as nat);
}

/// A polynomial with no more coefficients than it has roots, where the roots
/// differ pairwise by units, has only multiples of `q` as coefficients.
pub proof fn lemma_roots_force_zero_coefficients(p: Seq<int>, xs: Seq<int>, q: int, i: int)
    requires
        q > 1,
        p.len() <= xs.len(),
        unit_differences(xs, q),
        vanishes_on(p, xs, q),
        0 <= i < p.len(),
    ensures
        p[i] % q == 0,
    decreases p.len(),
{
    let r = xs.last();
    let others = xs.drop_last();
    let quot = poly_quotient(p, r);
    lemma_quotient_roots(p, xs, q);
    lemma_small_mod(0, q as nat);
    // what stands above degree `i`, at `r`
    let above = poly_eval(p.skip(i + 1), r);
    assert(above % q == 0) by {
        if i < p.len() - 1 {
            lemma_roots_force_zero_coefficients(quot, others, q, i);
            assert(quot[i] == above);
        }
    }
    // what stands from degree `i` on, at `r`
    let from = poly_eval(p.skip(i), r);
    assert(from % q == 0) by {
        if i == 0 {
            assert(p.skip(0) =~= p);
            assert(poly_eval(p, r) % q == 0);
        } else {
            lemma_roots_force_zero_coefficients(quot, others, q, i - 1);
            assert(quot[i - 1] == from);
        }
    }
    assert(from == p[i] + r * above) by {
        assert(p.skip(i)[0] == p[i]);
        assert(p.skip(i).skip(1) =~= p.skip(i + 1));
    }
    lemma_combination_vanishes(from, r, above, q);
}

/// Adding a multiple of `q` changes no residue.
pub proof fn lemma_shift_by_multiple(m: int, a: int, q: int)
    requires
        q > 0,
        m % q == 0,
    ensures
        (m + a) % q == a % q,
{
    lemma_add_mod_noop(m, a, q);
    lemma_mod_twice(a, q);
}

} // verus!
