//! Lagrange interpolation modulo `q`: that it gives back the values of the
//! polynomial that its nodes were taken from, and what fewer values than
//! the polynomial has coefficients leave open.
use crate::algebra::{
    has_inverse, inverse, is_inverse, is_prime, lemma_factor_of_unit, lemma_prime_unit,
    lemma_unit_product,
};
use crate::polynomial::{
    lemma_eval_combine, lemma_eval_mul_linear, lemma_roots_force_zero,
    lemma_roots_force_zero_coefficients, lemma_shift_by_multiple, poly_combine, poly_eval,
    poly_mul_linear, unit_differences, vanishes_on,
};
use vstd::arithmetic::div_mod::{
    lemma_add_mod_noop, lemma_mod_twice, lemma_mul_mod_noop_left, lemma_small_mod,
    lemma_sub_mod_noop,
};
use vstd::prelude::*;

verus! {

/// The product of `x - xs[i]` over the `i` below `k` other than `j`.
pub open spec fn basis_product(xs: Seq<int>, j: int, x: int, k: nat) -> int
    decreases k,
{
    if k == 0 {
        1
    } else if k - 1 == j {
        basis_product(xs, j, x, (k - 1) as nat)
    } else {
        basis_product(xs, j, x, (k - 1) as nat) * (x - xs[k - 1])
    }
}

/// The numerator at `x` of the basis polynomial of node `j`.
pub open spec fn basis_numerator(xs: Seq<int>, j: int, x: int) -> int {
    basis_product(xs, j, x, xs.len())
}

/// The denominator of the basis polynomial of node `j`: its numerator at the
/// node itself.
pub open spec fn basis_denominator(xs: Seq<int>, j: int) -> int {
    basis_product(xs, j, xs[j], xs.len())
}

/// The sum over the nodes below `k` of `numerator / denominator * value`,
/// with the division as multiplication by the inverse modulo `q`.
pub open spec fn lagrange_sum(xs: Seq<int>, ys: Seq<int>, x: int, q: int, k: nat) -> int
    decreases k,
{
    if k == 0 {
        0
    } else {
        lagrange_sum(xs, ys, x, q, (k - 1) as nat) + basis_numerator(xs, k - 1, x) * inverse(
            basis_denominator(xs, k - 1),
            q,
        ) * ys[k - 1]
    }
}

/// The value at `x`, modulo `q`, of the interpolant through the points
/// `(xs[j], ys[j])`.
pub open spec fn interpolate(xs: Seq<int>, ys: Seq<int>, x: int, q: int) -> int {
    lagrange_sum(xs, ys, x, q, xs.len()) % q
}

/// Every node has a basis denominator that is a unit modulo `q`.
pub open spec fn unit_denominators(xs: Seq<int>, q: int) -> bool {
    forall|j: int| 0 <= j < xs.len() ==> has_inverse(#[trigger] basis_denominator(xs, j), q)
}

/// The values `ys` are, modulo `q`, those of the polynomial `coeffs` at `xs`.
pub open spec fn samples_of(coeffs: Seq<int>, xs: Seq<int>, ys: Seq<int>, q: int) -> bool {
    &&& xs.len() == ys.len()
    &&& forall|j: int|
        0 <= j < xs.len() ==> (#[trigger] ys[j]) % q == poly_eval(coeffs, xs[j]) % q
}

/// The coefficients of `basis_product(xs, j, _, k)` as a polynomial.
pub open spec fn basis_poly(xs: Seq<int>, j: int, k: nat) -> Seq<int>
    decreases k,
{
    if k == 0 {
        seq![1int]
    } else if k - 1 == j {
        basis_poly(xs, j, (k - 1) as nat)
    } else {
        poly_mul_linear(basis_poly(xs, j, (k - 1) as nat), xs[k - 1])
    }
}

/// The coefficients of `lagrange_sum(xs, ys, _, q, k)` as a polynomial.
pub open spec fn lagrange_poly(xs: Seq<int>, ys: Seq<int>, q: int, k: nat) -> Seq<int>
    decreases k,
{
    if k == 0 {
        Seq::new(xs.len(), |i: int| 0int)
    } else {
        poly_combine(
            lagrange_poly(xs, ys, q, (k - 1) as nat),
            1,
            basis_poly(xs, k - 1, xs.len()),
            inverse(basis_denominator(xs, k - 1), q) * ys[k - 1],
        )
    }
}

proof fn lemma_basis_poly(xs: Seq<int>, j: int, k: nat, x: int)
    requires
        0 <= j,
    ensures
        basis_poly(xs, j, k).len() == (if j < k {
            k
        } else {
            k + 1
        }),
        poly_eval(basis_poly(xs, j, k), x) == basis_product(xs, j, x, k),
    decreases k,
{
    if k == 0 {
        let one = seq![1int];
        assert(poly_eval(one.skip(1), x) == 0);
    } else {
        lemma_basis_poly(xs, j, (k - 1) as nat, x);
        if k - 1 != j {
            lemma_eval_mul_linear(basis_poly(xs, j, (k - 1) as nat), xs[k - 1], x);
            let prev = basis_product(xs, j, x, (k - 1) as nat);
            assert((x - xs[k - 1]) * prev == prev * (x - xs[k - 1])) by (nonlinear_arith);
        }
    }
}

proof fn lemma_eval_zeros(n: nat, x: int)
    ensures
        poly_eval(Seq::new(n, |i: int| 0int), x) == 0,
    decreases n,
{
    let zeros = Seq::new(n, |i: int| 0int);
    if n > 0 {
        lemma_eval_zeros((n - 1) as nat, x);
        assert(zeros.skip(1) =~= Seq::new((n - 1) as nat, |i: int| 0int));
    }
}

proof fn lemma_lagrange_poly(xs: Seq<int>, ys: Seq<int>, q: int, k: nat, x: int)
    requires
        k <= xs.len(),
    ensures
        lagrange_poly(xs, ys, q, k).len() == xs.len(),
        poly_eval(lagrange_poly(xs, ys, q, k), x) == lagrange_sum(xs, ys, x, q, k),
    decreases k,
{
    if k == 0 {
        lemma_eval_zeros(xs.len(), x);
    } else {
        let prev = lagrange_poly(xs, ys, q, (k - 1) as nat);
        let basis = basis_poly(xs, k - 1, xs.len());
        let inv = inverse(basis_denominator(xs, k - 1), q);
        lemma_lagrange_poly(xs, ys, q, (k - 1) as nat, x);
        lemma_basis_poly(xs, k - 1, xs.len(), x);
        lemma_eval_combine(prev, 1, basis, inv * ys[k - 1], x);
        let num = basis_numerator(xs, k - 1, x);
        let y = ys[k - 1];
        assert((inv * y) * num == num * inv * y) by (nonlinear_arith);
    }
}

/// At a node other than its own, a basis numerator is zero.
proof fn lemma_basis_vanishes(xs: Seq<int>, j: int, m: int, k: nat)
    requires
        0 <= m < k <= xs.len(),
        m != j,
    ensures
        basis_product(xs, j, xs[m], k) == 0,
    decreases k,
{
    let prev = basis_product(xs, j, xs[m], (k - 1) as nat);
    if k - 1 == m {
        assert(prev * 0 == 0);
    } else {
        lemma_basis_vanishes(xs, j, m, (k - 1) as nat);
        if k - 1 != j {
            assert(0 * (xs[m] - xs[k - 1]) == 0);
        }
    }
}

/// At node `m` the sum over the nodes below `k` is congruent to `ys[m]` once
/// `m` is among them, and to zero before.
proof fn lemma_sum_at_node(xs: Seq<int>, ys: Seq<int>, q: int, m: int, k: nat)
    requires
        q > 1,
        0 <= m < xs.len(),
        k <= xs.len(),
        has_inverse(basis_denominator(xs, m), q),
    ensures
        lagrange_sum(xs, ys, xs[m], q, k) % q == (if m < k {
            ys[m] % q
        } else {
            0
        }),
    decreases k,
{
    if k == 0 {
        lemma_small_mod(0, q as nat);
    } else {
        lemma_sum_at_node(xs, ys, q, m, (k - 1) as nat);
        let prev = lagrange_sum(xs, ys, xs[m], q, (k - 1) as nat);
        let num = basis_numerator(xs, k - 1, xs[m]);
        let inv = inverse(basis_denominator(xs, k - 1), q);
        let y = ys[k - 1];
        if k - 1 == m {
            assert(is_inverse(num, inv, q));
            assert((num * inv * y) % q == y % q) by {
                lemma_mul_mod_noop_left(num * inv, y, q);
            }
            lemma_shift_by_multiple(prev, num * inv * y, q);
        } else {
            lemma_basis_vanishes(xs, k - 1, m, xs.len());
            assert(num * inv * y == 0) by (nonlinear_arith)
                requires
                    num == 0,
            ;
        }
    }
}

/// Where the basis denominator of node `m` is a unit, the interpolant takes
/// the value `ys[m]` at `xs[m]`, whatever the values are.
pub proof fn lemma_interpolant_at_node(xs: Seq<int>, ys: Seq<int>, q: int, m: int)
    requires
        q > 1,
        xs.len() == ys.len(),
        0 <= m < xs.len(),
        has_inverse(basis_denominator(xs, m), q),
    ensures
        interpolate(xs, ys, xs[m], q) == ys[m] % q,
{
    lemma_sum_at_node(xs, ys, q, m, xs.len());
}

/// A basis product holds each of its linear factors.
proof fn lemma_basis_factor(xs: Seq<int>, j: int, x: int, i: int, k: nat) -> (c: int)
    requires
        0 <= i < k,
        i != j,
    ensures
        basis_product(xs, j, x, k) == (x - xs[i]) * c,
    decreases k,
{
    let prev = basis_product(xs, j, x, (k - 1) as nat);
    if k - 1 == i {
        assert(prev * (x - xs[i]) == (x - xs[i]) * prev) by (nonlinear_arith);
        prev
    } else {
        let c = lemma_basis_factor(xs, j, x, i, (k - 1) as nat);
        if k - 1 == j {
            c
        } else {
            let f = x - xs[k - 1];
            assert(((x - xs[i]) * c) * f == (x - xs[i]) * (c * f)) by (nonlinear_arith);
            c * f
        }
    }
}

/// Nodes whose basis denominators are units differ pairwise by units.
pub proof fn lemma_unit_differences(xs: Seq<int>, q: int)
    requires
        q > 1,
        unit_denominators(xs, q),
    ensures
        unit_differences(xs, q),
{
    assert forall|i: int, j: int|
        0 <= i < xs.len() && 0 <= j < xs.len() && i != j implies has_inverse(
        #[trigger] xs[i] - #[trigger] xs[j],
        q,
    ) by {
        let c = lemma_basis_factor(xs, i, xs[i], j, xs.len());
        assert(has_inverse(basis_denominator(xs, i), q));
        lemma_factor_of_unit(xs[i] - xs[j], c, q);
    }
}

/// Interpolation through as many samples of a polynomial as it has
/// coefficients gives the polynomial's value at every point.
pub proof fn lemma_interpolation_exact(
    coeffs: Seq<int>,
    xs: Seq<int>,
    ys: Seq<int>,
    x: int,
    q: int,
)
    requires
        q > 1,
        coeffs.len() == xs.len(),
        samples_of(coeffs, xs, ys, q),
        unit_denominators(xs, q),
    ensures
        interpolate(xs, ys, x, q) == poly_eval(coeffs, x) % q,
{
    let n = xs.len();
    let fitted = lagrange_poly(xs, ys, q, n);
    let gap = poly_combine(coeffs, 1, fitted, -1);
    lemma_lagrange_poly(xs, ys, q, n, x);
    lemma_eval_combine(coeffs, 1, fitted, -1, x);
    lemma_unit_differences(xs, q);
    assert(vanishes_on(gap, xs, q)) by {
        assert forall|k: int| 0 <= k < xs.len() implies poly_eval(gap, #[trigger] xs[k]) % q
            == 0 by {
            lemma_lagrange_poly(xs, ys, q, n, xs[k]);
            lemma_eval_combine(coeffs, 1, fitted, -1, xs[k]);
            assert(has_inverse(basis_denominator(xs, k), q));
            lemma_sum_at_node(xs, ys, q, k, n);
            let a = poly_eval(coeffs, xs[k]);
            let b = lagrange_sum(xs, ys, xs[k], q, n);
            assert(ys[k] % q == a % q);
            lemma_sub_mod_noop(a, b, q);
            assert(a % q - b % q == 0);
        }
    }
    lemma_roots_force_zero(gap, xs, q, x);
    let a = poly_eval(coeffs, x);
    let b = lagrange_sum(xs, ys, x, q, n);
    assert((a - b) % q == 0);
    assert(b % q == a % q) by {
        lemma_add_mod_noop(a - b, b, q);
        lemma_mod_twice(b, q);
    }
}

/// No two nodes are congruent modulo `q`.
pub open spec fn distinct_nodes(xs: Seq<int>, q: int) -> bool {
    forall|i: int, j: int|
        0 <= i < xs.len() && 0 <= j < xs.len() && i != j ==> (#[trigger] xs[i] - #[trigger] xs[j])
            % q != 0
}

proof fn lemma_prime_basis_unit(xs: Seq<int>, j: int, k: nat, q: int)
    requires
        is_prime(q),
        distinct_nodes(xs, q),
        0 <= j < xs.len(),
        k <= xs.len(),
    ensures
        has_inverse(basis_product(xs, j, xs[j], k), q),
    decreases k,
{
    if k == 0 {
        lemma_small_mod(1, q as nat);
        assert(is_inverse(1, 1, q));
    } else {
        lemma_prime_basis_unit(xs, j, (k - 1) as nat, q);
        if k - 1 != j {
            assert((xs[j] - xs[k - 1]) % q != 0);
            lemma_prime_unit(xs[j] - xs[k - 1], q);
            lemma_unit_product(
                basis_product(xs, j, xs[j], (k - 1) as nat),
                xs[j] - xs[k - 1],
                q,
            );
        }
    }
}

/// Modulo a prime, nodes of which no two are congruent have basis
/// denominators that are units.
pub proof fn lemma_prime_unit_denominators(xs: Seq<int>, q: int)
    requires
        is_prime(q),
        distinct_nodes(xs, q),
    ensures
        unit_denominators(xs, q),
{
    assert forall|j: int| 0 <= j < xs.len() implies has_inverse(
        #[trigger] basis_denominator(xs, j),
        q,
    ) by {
        lemma_prime_basis_unit(xs, j, xs.len(), q);
    }
}

/// Modulo a prime `q`, as many values of a polynomial as it has
/// coefficients, taken at nodes of which no two are congruent, interpolate
/// at zero to the polynomial's constant term: whichever nodes are chosen.
pub proof fn lemma_recovers_constant_term(coeffs: Seq<int>, xs: Seq<int>, ys: Seq<int>, q: int)
    requires
        is_prime(q),
        coeffs.len() == xs.len(),
        coeffs.len() >= 1,
        distinct_nodes(xs, q),
        samples_of(coeffs, xs, ys, q),
    ensures
        interpolate(xs, ys, 0, q) == coeffs[0] % q,
{
    lemma_prime_unit_denominators(xs, q);
    lemma_interpolation_exact(coeffs, xs, ys, 0, q);
}

/// The nodes `xs` with zero added: the nodes at which a polynomial with a
/// given constant term and given values at `xs` is known.
pub open spec fn with_zero(xs: Seq<int>) -> Seq<int> {
    xs.push(0)
}

/// No node is congruent to zero modulo `q`.
pub open spec fn nonzero_nodes(xs: Seq<int>, q: int) -> bool {
    forall|k: int| 0 <= k < xs.len() ==> (#[trigger] xs[k]) % q != 0
}

/// Nodes that are distinct and not zero stay distinct when zero joins them.
proof fn lemma_with_zero_distinct(xs: Seq<int>, q: int)
    requires
        q > 1,
        distinct_nodes(xs, q),
        nonzero_nodes(xs, q),
    ensures
        distinct_nodes(with_zero(xs), q),
{
    let zs = with_zero(xs);
    assert forall|i: int, j: int| 0 <= i < zs.len() && 0 <= j < zs.len() && i != j implies (
    #[trigger] zs[i] - #[trigger] zs[j]) % q != 0 by {
        if i < xs.len() && j < xs.len() {
            assert((xs[i] - xs[j]) % q != 0);
        } else if j == xs.len() {
            assert(xs[i] % q != 0);
        } else {
            assert(xs[j] % q != 0);
            if (0 - xs[j]) % q == 0 {
                lemma_sub_mod_noop(0, xs[j], q);
                lemma_add_mod_noop(0 - xs[j], xs[j], q);
                lemma_small_mod(0, q as nat);
                lemma_mod_twice(xs[j], q);
            }
        }
    }
}

/// Modulo a prime, two polynomials of `t` coefficients with one constant
/// term and the same values at `t - 1` nodes, distinct and not zero, are
/// the same: fewer shares than the threshold, with the secret, fix what
/// was drawn.
pub proof fn lemma_draw_fixed_by_shares(
    coeffs1: Seq<int>,
    coeffs2: Seq<int>,
    xs: Seq<int>,
    q: int,
    i: int,
)
    requires
        is_prime(q),
        coeffs1.len() == coeffs2.len(),
        coeffs1.len() == xs.len() + 1,
        distinct_nodes(xs, q),
        nonzero_nodes(xs, q),
        coeffs1[0] % q == coeffs2[0] % q,
        forall|k: int|
            0 <= k < xs.len() ==> poly_eval(coeffs1, #[trigger] xs[k]) % q == poly_eval(
                coeffs2,
                xs[k],
            ) % q,
        0 <= i < coeffs1.len(),
    ensures
        coeffs1[i] % q == coeffs2[i] % q,
{
    let zs = with_zero(xs);
    let gap = poly_combine(coeffs1, 1, coeffs2, -1);
    lemma_with_zero_distinct(xs, q);
    lemma_prime_unit_denominators(zs, q);
    lemma_unit_differences(zs, q);
    lemma_small_mod(0, q as nat);
    assert forall|k: int| 0 <= k < zs.len() implies poly_eval(gap, #[trigger] zs[k]) % q == 0 by {
        let a = poly_eval(coeffs1, zs[k]);
        let b = poly_eval(coeffs2, zs[k]);
        lemma_eval_combine(coeffs1, 1, coeffs2, -1, zs[k]);
        if k < xs.len() {
            assert(zs[k] == xs[k]);
        } else {
            assert(0 * poly_eval(coeffs1.skip(1), 0) == 0);
            assert(0 * poly_eval(coeffs2.skip(1), 0) == 0);
        }
        lemma_sub_mod_noop(a, b, q);
    }
    lemma_roots_force_zero_coefficients(gap, zs, q, i);
    assert(gap[i] == coeffs1[i] - coeffs2[i]);
    lemma_add_mod_noop(coeffs1[i] - coeffs2[i], coeffs2[i], q);
    lemma_mod_twice(coeffs2[i], q);
}

/// Modulo a prime, for every constant term and every values at `t - 1`
/// nodes, distinct and not zero, there is a polynomial of `t` coefficients
/// with that constant term and those values: fewer shares than the
/// threshold are compatible with every secret.
pub proof fn lemma_every_secret_fits(secret: int, xs: Seq<int>, ys: Seq<int>, q: int) -> (coeffs:
    Seq<int>)
    requires
        is_prime(q),
        xs.len() == ys.len(),
        distinct_nodes(xs, q),
        nonzero_nodes(xs, q),
    ensures
        coeffs.len() == xs.len() + 1,
        coeffs[0] % q == secret % q,
        forall|k: int| 0 <= k < xs.len() ==> poly_eval(coeffs, #[trigger] xs[k]) % q == ys[k] % q,
{
    let zs = with_zero(xs);
    let ws = ys.push(secret);
    let coeffs = lagrange_poly(zs, ws, q, zs.len());
    lemma_with_zero_distinct(xs, q);
    lemma_prime_unit_denominators(zs, q);
    lemma_lagrange_poly(zs, ws, q, zs.len(), 0);
    assert forall|k: int| 0 <= k < zs.len() implies poly_eval(coeffs, #[trigger] zs[k]) % q
        == ws[k] % q by {
        lemma_lagrange_poly(zs, ws, q, zs.len(), zs[k]);
        assert(has_inverse(basis_denominator(zs, k), q));
        lemma_interpolant_at_node(zs, ws, q, k);
    }
    assert(poly_eval(coeffs, zs[xs.len() as int]) % q == ws[xs.len() as int] % q);
    assert(0 * poly_eval(coeffs.skip(1), 0) == 0);
    assert forall|k: int| 0 <= k < xs.len() implies poly_eval(coeffs, #[trigger] xs[k]) % q
        == ys[k] % q by {
        assert(zs[k] == xs[k] && ws[k] == ys[k]);
    }
    coeffs
}

} // verus!
