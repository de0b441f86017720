//! The scheme itself, written once for every group: sharing by a random
//! polynomial, recovery by Lagrange interpolation at zero, and the check of
//! a share against the commitments to the polynomial's coefficients.
use crate::algebra::{has_inverse, inverse, is_inverse, lemma_inverse_is};
use crate::bytes::{be_value, index_be_bytes};
use crate::error::VssError;
use crate::group::{FieldScalar, GroupElement};
use crate::lagrange::{
    basis_denominator, basis_numerator, basis_product, interpolate, lagrange_sum,
    lemma_interpolation_exact, samples_of, unit_denominators,
};
use crate::polynomial::poly_eval;
use vstd::arithmetic::div_mod::{
    lemma_add_mod_noop, lemma_add_mod_noop_right, lemma_mod_add_multiples_vanish, lemma_mod_twice,
    lemma_mul_mod_noop_general, lemma_mul_mod_noop_left, lemma_mul_mod_noop_right, lemma_small_mod,
};
use vstd::prelude::*;

verus! {

/// The integers that a sequence of scalars stands for.
pub open spec fn scalar_values<S: FieldScalar>(scalars: Seq<S>) -> Seq<int> {
    Seq::new(scalars.len(), |i: int| scalars[i].value())
}

/// The indices of a sequence of shares.
pub open spec fn share_indices<S: FieldScalar>(shares: Seq<(usize, S)>) -> Seq<usize> {
    Seq::new(shares.len(), |i: int| shares[i].0)
}

/// The values of a sequence of shares.
pub open spec fn share_values<S: FieldScalar>(shares: Seq<(usize, S)>) -> Seq<int> {
    Seq::new(shares.len(), |i: int| shares[i].1.value())
}

/// The encodings of a sequence of group elements.
pub open spec fn encodings<S: FieldScalar, E: GroupElement<S>>(elements: Seq<E>) -> Seq<
    Seq<u8>,
> {
    Seq::new(elements.len(), |i: int| elements[i].encoding())
}

/// A threshold of at least one share and of no more than there are.
pub open spec fn valid_config(threshold: usize, share_amount: usize) -> bool {
    1 <= threshold <= share_amount
}

/// The scalar that a big-endian byte string reduces to.
pub fn reduce_be_bytes<S: FieldScalar>(bytes: &[u8]) -> (r: S)
    ensures
        r.value() == be_value(bytes@) % S::order(),
{
    let ghost q = S::order();
    let radix = S::from_byte(255).plus(&S::one());
    let mut acc = S::zero();
    let mut i: usize = 0;
    proof {
        S::lemma_order();
        lemma_small_mod(0, q as nat);
        lemma_small_mod(256, q as nat);
        assert(bytes@.take(0).len() == 0);
    }
    while i < bytes.len()
        invariant
            i <= bytes.len(),
            q == S::order(),
            q > usize::MAX,
            radix.value() == 256,
            acc.value() == be_value(bytes@.take(i as int)) % q,
        decreases bytes.len() - i,
    {
        let ghost before = be_value(bytes@.take(i as int));
        acc = acc.times(&radix).plus(&S::from_byte(bytes[i]));
        proof {
            let now = bytes@.take(i + 1);
            assert(now.drop_last() =~= bytes@.take(i as int));
            assert(now.last() == bytes@[i as int]);
            lemma_horner_step(bytes@[i as int] as int, 256, before, q);
            assert((before % q) * 256 == 256 * (before % q));
        }
        i += 1;
    }
    assert(bytes@.take(i as int) =~= bytes@);
    acc
}

/// The scalar that stands for a share's index: the index itself, which the
/// order exceeds.
pub fn index_scalar<S: FieldScalar>(index: usize) -> (r: S)
    ensures
        r.value() == index as int,
{
    let bytes = index_be_bytes(index);
    proof {
        S::lemma_order();
        lemma_small_mod(index as nat, S::order() as nat);
    }
    reduce_be_bytes(bytes.as_slice())
}

/// One step of Horner's rule on residues is one step on the integers.
proof fn lemma_horner_step(c: int, x: int, e: int, q: int)
    requires
        q > 0,
    ensures
        ((x * (e % q)) % q + c) % q == (c + x * e) % q,
{
    lemma_mul_mod_noop_right(x, e, q);
    lemma_add_mod_noop_right(c, x * e, q);
}

/// The value at the index `x` of the polynomial with the given coefficients,
/// constant term first, by Horner's rule from the highest coefficient down.
pub fn mod_evaluate_at<S: FieldScalar>(polynomial: &[S], x: usize) -> (r: S)
    ensures
        r.value() == poly_eval(scalar_values(polynomial@), x as int) % S::order(),
{
    let ghost q = S::order();
    let ghost coeffs = scalar_values(polynomial@);
    let scalar_x = index_scalar::<S>(x);
    let mut sum = S::zero();
    let mut i: usize = polynomial.len();
    proof {
        S::lemma_order();
        lemma_small_mod(0, q as nat);
        assert(coeffs.skip(i as int).len() == 0);
    }
    while i > 0
        invariant
            i <= polynomial.len(),
            q == S::order(),
            q > 0,
            coeffs == scalar_values(polynomial@),
            scalar_x.value() == x as int,
            sum.value() == poly_eval(coeffs.skip(i as int), x as int) % q,
        decreases i,
    {
        i -= 1;
        let ghost e = poly_eval(coeffs.skip(i + 1), x as int);
        sum = scalar_x.times(&sum).plus(&polynomial[i]);
        proof {
            let tail = coeffs.skip(i as int);
            assert(tail.skip(1) =~= coeffs.skip(i + 1));
            assert(tail[0] == polynomial@[i as int].value());
            lemma_horner_step(tail[0], x as int, e, q);
        }
    }
    assert(coeffs.skip(0) =~= coeffs);
    sum
}

/// The shares of the polynomial: its values at the indices `1..=share_amount`.
pub fn evaluate_polynomial<S: FieldScalar>(share_amount: usize, polynomial: &[S]) -> (shares:
    Vec<(usize, S)>)
    ensures
        shares.len() == share_amount,
        forall|i: int|
            0 <= i < share_amount ==> (#[trigger] shares[i]).0 == i + 1 && shares[i].1.value()
                == poly_eval(scalar_values(polynomial@), i + 1) % S::order(),
{
    let mut shares: Vec<(usize, S)> = Vec::new();
    let mut i: usize = 0;
    while i < share_amount
        invariant
            i <= share_amount,
            shares.len() == i,
            forall|k: int|
                0 <= k < i ==> (#[trigger] shares[k]).0 == k + 1 && shares[k].1.value()
                    == poly_eval(scalar_values(polynomial@), k + 1) % S::order(),
        decreases share_amount - i,
    {
        let x: usize = i + 1;
        let value = mod_evaluate_at(polynomial, x);
        shares.push((x, value));
        i += 1;
    }
    shares
}

/// The element commits to `value` alone: no other reduced scalar times the
/// generator gives it.
pub open spec fn binds_to<S: FieldScalar, E: GroupElement<S>>(element: E, value: int) -> bool {
    forall|k: int|
        0 <= k < S::order() && #[trigger] E::generated(k) == element.encoding() ==> k == value
}

/// One commitment per coefficient, in the polynomial's order: each is the
/// coefficient times the generator, and commits to that coefficient alone.
pub fn generate_commitments<S: FieldScalar, E: GroupElement<S>>(polynomial: &[S]) -> (commitments:
    Vec<E>)
    ensures
        commitments.len() == polynomial.len(),
        forall|i: int|
            0 <= i < polynomial.len() ==> (#[trigger] commitments[i]).encoding() == E::generated(
                polynomial[i].value(),
            ),
        forall|i: int|
            0 <= i < polynomial.len() ==> binds_to::<S, E>(
                #[trigger] commitments[i],
                polynomial[i].value(),
            ),
{
    let mut commitments: Vec<E> = Vec::new();
    let mut i: usize = 0;
    while i < polynomial.len()
        invariant
            i <= polynomial.len(),
            commitments.len() == i,
            forall|k: int|
                0 <= k < i ==> (#[trigger] commitments[k]).encoding() == E::generated(
                    polynomial[k].value(),
                ),
            forall|k: int|
                0 <= k < i ==> binds_to::<S, E>(#[trigger] commitments[k], polynomial[k].value()),
        decreases polynomial.len() - i,
    {
        let commitment = E::commit(&polynomial[i]);
        commitments.push(commitment);
        i += 1;
    }
    commitments
}

/// The indices as integers.
pub open spec fn index_values(xs: Seq<usize>) -> Seq<int> {
    Seq::new(xs.len(), |i: int| xs[i] as int)
}

/// No index occurs twice.
pub open spec fn distinct_indices(xs: Seq<usize>) -> bool {
    forall|a: int, b: int| 0 <= a < b < xs.len() ==> #[trigger] xs[a] != #[trigger] xs[b]
}

/// Two residues whose difference vanishes modulo `q` are one.
proof fn lemma_small_difference(a: int, b: int, q: int)
    requires
        0 <= a < q,
        0 <= b < q,
        (a - b) % q == 0,
    ensures
        a == b,
{
    if a >= b {
        lemma_small_mod((a - b) as nat, q as nat);
    } else {
        lemma_mod_add_multiples_vanish(a - b, q);
        lemma_small_mod((q + (a - b)) as nat, q as nat);
    }
}

/// A product of residues is the residue of the product.
proof fn lemma_product_step(p: int, f: int, q: int)
    requires
        q > 0,
    ensures
        ((p % q) * (f % q)) % q == (p * f) % q,
{
    lemma_mul_mod_noop_general(p, f, q);
}

/// What `lagrange_interpolation` answers: the interpolant's value at `x`
/// where no index occurs twice, and a refusal where one does. Where it
/// answers, every basis denominator is a unit, so that the interpolant takes
/// each given value at its index.
pub open spec fn interpolation_outcome<S: FieldScalar>(
    x: S,
    xs: Seq<usize>,
    ys: Seq<S>,
    r: Result<S, VssError>,
) -> bool {
    match r {
        Ok(s) => {
            &&& distinct_indices(xs)
            &&& unit_denominators(index_values(xs), S::order())
            &&& s.value() == interpolate(
                index_values(xs),
                scalar_values(ys),
                x.value(),
                S::order(),
            )
        },
        Err(e) => e == VssError::DuplicateIndex && !distinct_indices(xs),
    }
}

/// Of every polynomial with as many coefficients as there are points, and
/// with the values `ys` at the indices `xs`, a result is the value at `x`.
pub open spec fn interpolates_polynomials<S: FieldScalar>(
    x: S,
    xs: Seq<usize>,
    ys: Seq<S>,
    r: Result<S, VssError>,
) -> bool {
    forall|coeffs: Seq<int>|
        r is Ok && coeffs.len() == xs.len() && #[trigger] samples_of(
            coeffs,
            index_values(xs),
            scalar_values(ys),
            S::order(),
        ) ==> r->Ok_0.value() == poly_eval(coeffs, x.value()) % S::order()
}

/// The value at `x` of the interpolant through the points `(xs[j], ys[j])`:
/// the sum over `j` of `ys[j]` times the product over `i != j` of
/// `(x - xs[i]) / (xs[j] - xs[i])`, in the scalar field. It is refused when
/// an index occurs twice, and only then. When the values are those of a
/// polynomial with as many coefficients as there are points, the result is
/// that polynomial's value at `x`.
pub fn lagrange_interpolation<S: FieldScalar>(x: S, xs: &[usize], ys: &[S]) -> (r: Result<
    S,
    VssError,
>)
    requires
        xs.len() == ys.len(),
    ensures
        interpolation_outcome(x, xs@, ys@, r),
        interpolates_polynomials(x, xs@, ys@, r),
{
    let ghost q = S::order();
    let ghost nodes = index_values(xs@);
    let ghost values = scalar_values(ys@);
    let n = xs.len();
    proof {
        S::lemma_order();
        x.lemma_value();
    }
    let mut scalar_xs: Vec<S> = Vec::new();
    let mut k: usize = 0;
    while k < n
        invariant
            k <= n,
            n == xs.len(),
            scalar_xs.len() == k,
            forall|m: int| 0 <= m < k ==> (#[trigger] scalar_xs[m]).value() == xs[m] as int,
        decreases n - k,
    {
        scalar_xs.push(index_scalar::<S>(xs[k]));
        k += 1;
    }
    let mut sum = S::zero();
    let mut j: usize = 0;
    while j < n
        invariant
            j <= n,
            n == xs.len(),
            n == ys.len(),
            q == S::order(),
            q > usize::MAX,
            nodes == index_values(xs@),
            values == scalar_values(ys@),
            0 <= x.value() < q,
            scalar_xs.len() == n,
            forall|m: int| 0 <= m < n ==> (#[trigger] scalar_xs[m]).value() == xs[m] as int,
            sum.value() == lagrange_sum(nodes, values, x.value(), q, j as nat) % q,
            forall|a: int, b: int|
                0 <= a < j && 0 <= b < n && a != b ==> #[trigger] xs[a] != #[trigger] xs[b],
            forall|m: int|
                0 <= m < j ==> has_inverse(
                    #[trigger] basis_denominator(nodes, m),
                    q,
                ),
        decreases n - j,
    {
        let mut numerator = S::one();
        let mut denominator = S::one();
        let mut i: usize = 0;
        proof {
            lemma_small_mod(1, q as nat);
        }
        while i < n
            invariant
                i <= n,
                j < n,
                n == xs.len(),
                q == S::order(),
                q > usize::MAX,
                nodes == index_values(xs@),
                0 <= x.value() < q,
                scalar_xs.len() == n,
                forall|m: int| 0 <= m < n ==> (#[trigger] scalar_xs[m]).value() == xs[m] as int,
                numerator.value() == basis_product(nodes, j as int, x.value(), i as nat) % q,
                denominator.value() == basis_product(nodes, j as int, nodes[j as int], i as nat)
                    % q,
                denominator.value() != 0,
                forall|b: int| 0 <= b < i && b != j ==> #[trigger] xs[b] != xs[j as int],
            decreases n - i,
        {
            if i != j {
                let diff = scalar_xs[j].minus(&scalar_xs[i]);
                if diff.is_zero() {
                    proof {
                        lemma_small_difference(xs[j as int] as int, xs[i as int] as int, q);
                        let (lo, hi) = if i < j {
                            (i as int, j as int)
                        } else {
                            (j as int, i as int)
                        };
                        assert(xs@[lo] == xs@[hi]);
                    }
                    return Err(VssError::DuplicateIndex);
                }
                let factor = x.minus(&scalar_xs[i]);
                let ghost np = basis_product(nodes, j as int, x.value(), i as nat);
                let ghost dp = basis_product(nodes, j as int, nodes[j as int], i as nat);
                numerator = numerator.times(&factor);
                denominator = denominator.times(&diff);
                proof {
                    assert(xs[i as int] != xs[j as int]) by {
                        lemma_small_mod(0, q as nat);
                    }
                    lemma_product_step(np, x.value() - nodes[i as int], q);
                    lemma_product_step(dp, nodes[j as int] - nodes[i as int], q);
                }
            }
            i += 1;
        }
        let ghost num = basis_numerator(nodes, j as int, x.value());
        let ghost den = basis_denominator(nodes, j as int);
        let inv = denominator.invert();
        let weight = numerator.times(&inv);
        let term = weight.times(&ys[j]);
        let ghost before = lagrange_sum(nodes, values, x.value(), q, j as nat);
        sum = sum.plus(&term);
        proof {
            assert(is_inverse(den, inv.value(), q)) by {
                lemma_mul_mod_noop_left(den, inv.value(), q);
            }
            lemma_inverse_is(den, inv.value(), q);
            lemma_mul_mod_noop_left(num, inv.value(), q);
            lemma_mul_mod_noop_left(num * inv.value(), values[j as int], q);
            lemma_add_mod_noop(before, num * inverse(den, q) * values[j as int], q);
            assert forall|a: int, b: int|
                0 <= a < j + 1 && 0 <= b < n && a != b implies #[trigger] xs[a]
                != #[trigger] xs[b] by {
                if a == j {
                    assert(xs[b] != xs[j as int]);
                }
            }
        }
        j += 1;
    }
    proof {
        assert(unit_denominators(nodes, q));
        assert forall|coeffs: Seq<int>|
            coeffs.len() == xs.len() && #[trigger] samples_of(
                coeffs,
                nodes,
                values,
                q,
            ) implies sum.value() == poly_eval(coeffs, x.value()) % q by {
            lemma_interpolation_exact(coeffs, nodes, values, x.value(), q);
        }
    }
    Ok(sum)
}

/// Every share's index lies in `1..=share_amount`.
pub open spec fn indices_in_range<S: FieldScalar>(
    shares: Seq<(usize, S)>,
    share_amount: usize,
) -> bool {
    forall|i: int| 0 <= i < shares.len() ==> 1 <= (#[trigger] shares[i]).0 <= share_amount
}

/// The secret that the shares interpolate to: the value at zero of the
/// interpolant through them.
pub open spec fn recovered_value<S: FieldScalar>(shares: Seq<(usize, S)>) -> int {
    interpolate(index_values(share_indices(shares)), share_values(shares), 0, S::order())
}

/// The shares are values of the polynomial `coeffs` at their indices.
pub open spec fn shares_of<S: FieldScalar>(coeffs: Seq<int>, shares: Seq<(usize, S)>) -> bool {
    forall|i: int|
        0 <= i < shares.len() ==> (#[trigger] shares[i]).1.value() == poly_eval(
            coeffs,
            shares[i].0 as int,
        ) % S::order()
}

/// What `recover` answers: the first of the refusals that applies, in the
/// order of the arms, and the interpolated value where none does.
pub open spec fn recover_outcome<S: FieldScalar>(
    threshold: usize,
    share_amount: usize,
    shares: Seq<(usize, S)>,
    r: Result<S, VssError>,
) -> bool {
    match r {
        Ok(s) => {
            &&& valid_config(threshold, share_amount)
            &&& shares.len() == threshold
            &&& indices_in_range(shares, share_amount)
            &&& distinct_indices(share_indices(shares))
            &&& unit_denominators(index_values(share_indices(shares)), S::order())
            &&& s.value() == recovered_value(shares)
        },
        Err(VssError::Configuration) => !valid_config(threshold, share_amount),
        Err(VssError::ShareCountMismatch) => {
            &&& valid_config(threshold, share_amount)
            &&& shares.len() != threshold
        },
        Err(VssError::IndexOutOfRange) => {
            &&& valid_config(threshold, share_amount)
            &&& shares.len() == threshold
            &&& !indices_in_range(shares, share_amount)
        },
        Err(VssError::DuplicateIndex) => {
            &&& valid_config(threshold, share_amount)
            &&& shares.len() == threshold
            &&& indices_in_range(shares, share_amount)
            &&& !distinct_indices(share_indices(shares))
        },
        Err(_) => false,
    }
}

/// Of every polynomial with `threshold` coefficients that the shares are
/// values of, a result is the constant term.
pub open spec fn recovers_constant_term<S: FieldScalar>(
    threshold: usize,
    shares: Seq<(usize, S)>,
    r: Result<S, VssError>,
) -> bool {
    forall|coeffs: Seq<int>|
        r is Ok && coeffs.len() == threshold && #[trigger] shares_of(coeffs, shares)
            ==> r->Ok_0.value() == coeffs[0] % S::order()
}

/// The secret from exactly `threshold` shares with distinct indices in
/// `1..=share_amount`: the interpolant's value at zero. Shares of a
/// polynomial with `threshold` coefficients give its constant term.
pub fn recover<S: FieldScalar>(threshold: usize, share_amount: usize, shares: &[(usize, S)]) -> (r:
    Result<S, VssError>)
    ensures
        recover_outcome(threshold, share_amount, shares@, r),
        recovers_constant_term(threshold, shares@, r),
{
    if threshold < 1 || threshold > share_amount {
        return Err(VssError::Configuration);
    }
    if shares.len() != threshold {
        return Err(VssError::ShareCountMismatch);
    }
    let mut xs: Vec<usize> = Vec::new();
    let mut ys: Vec<S> = Vec::new();
    let mut i: usize = 0;
    while i < shares.len()
        invariant
            i <= shares.len(),
            xs.len() == i,
            ys.len() == i,
            valid_config(threshold, share_amount),
            shares.len() == threshold,
            forall|k: int| 0 <= k < i ==> #[trigger] xs[k] == shares[k].0,
            forall|k: int| 0 <= k < i ==> #[trigger] ys[k] == shares[k].1,
            forall|k: int| 0 <= k < i ==> 1 <= (#[trigger] shares[k]).0 <= share_amount,
        decreases shares.len() - i,
    {
        let (index, value) = shares[i];
        if index < 1 || index > share_amount {
            assert(!(1 <= shares@[i as int].0 <= share_amount));
            return Err(VssError::IndexOutOfRange);
        }
        xs.push(index);
        ys.push(value);
        i += 1;
    }
    let r = lagrange_interpolation(S::zero(), xs.as_slice(), ys.as_slice());
    proof {
        S::lemma_order();
        assert(xs@ =~= share_indices(shares@));
        assert(scalar_values(ys@) =~= share_values(shares@));
        assert forall|coeffs: Seq<int>|
            r is Ok && coeffs.len() == threshold && #[trigger] shares_of(
                coeffs,
                shares@,
            ) implies r->Ok_0.value() == coeffs[0] % S::order() by {
            assert(samples_of(coeffs, index_values(xs@), scalar_values(ys@), S::order())) by {
                assert forall|j: int| 0 <= j < xs.len() implies (#[trigger] scalar_values(
                    ys@,
                )[j]) % S::order() == poly_eval(coeffs, index_values(xs@)[j]) % S::order() by {
                    assert(shares@[j].1.value() == poly_eval(coeffs, shares@[j].0 as int)
                        % S::order());
                    lemma_mod_twice(poly_eval(coeffs, shares@[j].0 as int), S::order());
                }
            }
        }
    }
    r
}

/// The element that the commitments give at `x`: Horner's rule in the
/// exponent, from the highest commitment down to the constant term.
pub open spec fn committed_value<S: FieldScalar, E: GroupElement<S>>(
    commitments: Seq<Seq<u8>>,
    x: int,
) -> Seq<u8>
    decreases commitments.len(),
{
    if commitments.len() == 0 {
        Seq::empty()
    } else if commitments.len() == 1 {
        commitments[0]
    } else {
        E::summed(E::scaled(committed_value::<S, E>(commitments.skip(1), x), x), commitments[0])
    }
}

/// The commitments are to the coefficients `coeffs`, in order.
pub open spec fn opens_to<S: FieldScalar, E: GroupElement<S>>(
    coeffs: Seq<int>,
    commitments: Seq<E>,
) -> bool {
    &&& coeffs.len() == commitments.len()
    &&& forall|i: int|
        0 <= i < coeffs.len() ==> 0 <= #[trigger] coeffs[i] < S::order()
            && commitments[i].encoding() == E::generated(coeffs[i])
}

/// The share's value times the generator is what the commitments give at the
/// share's index.
pub open spec fn share_matches<S: FieldScalar, E: GroupElement<S>>(
    share: (usize, S),
    commitments: Seq<E>,
) -> bool {
    E::generated(share.1.value()) == committed_value::<S, E>(
        encodings(commitments),
        share.0 as int,
    )
}

/// Whether a share matches a vector of at least one commitment. Against
/// commitments to a polynomial, it matches exactly when its value is the
/// polynomial's at its index.
pub fn check_share<S: FieldScalar, E: GroupElement<S>>(
    share: &(usize, S),
    commitments: &[E],
) -> (ok: bool)
    requires
        commitments.len() >= 1,
    ensures
        ok == share_matches(*share, commitments@),
        forall|coeffs: Seq<int>| #[trigger]
            opens_to(coeffs, commitments@) ==> ok == (share.1.value() == poly_eval(
                coeffs,
                share.0 as int,
            ) % S::order()),
{
    let ghost q = S::order();
    let ghost x = share.0 as int;
    let ghost encs = encodings(commitments@);
    let n = commitments.len();
    let share_index_scalar = index_scalar::<S>(share.0);
    let mut i: usize = n - 1;
    let mut acc = commitments[i];
    proof {
        S::lemma_order();
        assert(encs.skip(i as int).len() == 1);
        assert forall|coeffs: Seq<int>| #[trigger]
            opens_to(coeffs, commitments@) implies acc.encoding() == E::generated(
            poly_eval(coeffs.skip(i as int), x) % q,
        ) by {
            let top = coeffs.skip(i as int);
            assert(poly_eval(top.skip(1), x) == 0);
            assert(0 <= coeffs[i as int] < q);
            lemma_small_mod(coeffs[i as int] as nat, q as nat);
        }
    }
    while i > 0
        invariant
            i < n,
            n == commitments.len(),
            q == S::order(),
            q > 0,
            x == share.0 as int,
            share_index_scalar.value() == x,
            encs == encodings(commitments@),
            acc.encoding() == committed_value::<S, E>(encs.skip(i as int), x),
            forall|coeffs: Seq<int>| #[trigger]
                opens_to(coeffs, commitments@) ==> acc.encoding() == E::generated(
                    poly_eval(coeffs.skip(i as int), x) % q,
                ),
        decreases i,
    {
        i -= 1;
        let ghost before = acc;
        let raised = acc.scale(&share_index_scalar);
        acc = raised.join(&commitments[i]);
        proof {
            assert(encs.skip(i as int).skip(1) =~= encs.skip(i + 1));
            assert(encs.skip(i as int)[0] == commitments@[i as int].encoding());
            assert forall|coeffs: Seq<int>| #[trigger]
                opens_to(coeffs, commitments@) implies acc.encoding() == E::generated(
                poly_eval(coeffs.skip(i as int), x) % q,
            ) by {
                let e = poly_eval(coeffs.skip(i + 1), x);
                let c = coeffs[i as int];
                let a = e % q;
                let b = (a * x) % q;
                assert(before.encoding() == E::generated(a));
                assert(raised.encoding() == E::generated(b));
                assert(commitments@[i as int].encoding() == E::generated(c));
                assert(acc.encoding() == E::generated((b + c) % q));
                assert(coeffs.skip(i as int).skip(1) =~= coeffs.skip(i + 1));
                assert(a * x == x * a) by (nonlinear_arith);
                lemma_horner_step(c, x, e, q);
            }
        }
    }
    let expected = E::commit(&share.1);
    let ok = expected.same(&acc);
    proof {
        assert(encs.skip(0) =~= encs);
        assert forall|coeffs: Seq<int>| #[trigger]
            opens_to(coeffs, commitments@) implies ok == (share.1.value() == poly_eval(coeffs, x)
            % q) by {
            assert(coeffs.skip(0) =~= coeffs);
            let e = poly_eval(coeffs, x) % q;
            assert(acc.encoding() == E::generated(e));
        }
    }
    ok
}

/// What `verify` answers: the first of the refusals that applies, in the
/// order of the arms, and whether the share matches where none does.
pub open spec fn verify_outcome<S: FieldScalar, E: GroupElement<S>>(
    threshold: usize,
    share_amount: usize,
    share: (usize, S),
    commitments: Seq<E>,
    r: Result<bool, VssError>,
) -> bool {
    match r {
        Ok(ok) => {
            &&& valid_config(threshold, share_amount)
            &&& commitments.len() == threshold
            &&& 1 <= share.0 <= share_amount
            &&& ok == share_matches(share, commitments)
        },
        Err(VssError::Configuration) => !valid_config(threshold, share_amount),
        Err(VssError::CommitmentLengthMismatch) => {
            &&& valid_config(threshold, share_amount)
            &&& commitments.len() != threshold
        },
        Err(VssError::IndexOutOfRange) => {
            &&& valid_config(threshold, share_amount)
            &&& commitments.len() == threshold
            &&& !(1 <= share.0 <= share_amount)
        },
        Err(_) => false,
    }
}

/// Every share of the sequence matches the commitments.
pub open spec fn all_match<S: FieldScalar, E: GroupElement<S>>(
    shares: Seq<(usize, S)>,
    commitments: Seq<E>,
) -> bool {
    forall|i: int| 0 <= i < shares.len() ==> share_matches(#[trigger] shares[i], commitments)
}

/// What `verify_all` answers: the first of the refusals that applies, in the
/// order of the arms, and whether every share matches where none does.
pub open spec fn verify_all_outcome<S: FieldScalar, E: GroupElement<S>>(
    threshold: usize,
    share_amount: usize,
    shares: Seq<(usize, S)>,
    commitments: Seq<E>,
    r: Result<bool, VssError>,
) -> bool {
    match r {
        Ok(ok) => {
            &&& valid_config(threshold, share_amount)
            &&& commitments.len() == threshold
            &&& indices_in_range(shares, share_amount)
            &&& ok == all_match(shares, commitments)
        },
        Err(VssError::Configuration) => !valid_config(threshold, share_amount),
        Err(VssError::CommitmentLengthMismatch) => {
            &&& valid_config(threshold, share_amount)
            &&& commitments.len() != threshold
        },
        Err(VssError::IndexOutOfRange) => {
            &&& valid_config(threshold, share_amount)
            &&& commitments.len() == threshold
            &&& !indices_in_range(shares, share_amount)
        },
        Err(_) => false,
    }
}

/// Against commitments to a polynomial, an answer is whether the share's
/// value is the polynomial's at the share's index.
pub open spec fn decides_share<S: FieldScalar, E: GroupElement<S>>(
    share: (usize, S),
    commitments: Seq<E>,
    r: Result<bool, VssError>,
) -> bool {
    forall|coeffs: Seq<int>|
        r is Ok && #[trigger] opens_to(coeffs, commitments) ==> r->Ok_0 == (share.1.value()
            == poly_eval(coeffs, share.0 as int) % S::order())
}

/// Against commitments to a polynomial, an answer is whether all the shares
/// are values of the polynomial.
pub open spec fn decides_shares<S: FieldScalar, E: GroupElement<S>>(
    shares: Seq<(usize, S)>,
    commitments: Seq<E>,
    r: Result<bool, VssError>,
) -> bool {
    forall|coeffs: Seq<int>|
        r is Ok && #[trigger] opens_to(coeffs, commitments) ==> r->Ok_0 == shares_of(
            coeffs,
            shares,
        )
}

/// Whether the share matches the `threshold` commitments. Against the
/// commitments to a polynomial the answer is `true` for the polynomial's
/// value at the share's index and `false` for every other value.
pub fn verify<S: FieldScalar, E: GroupElement<S>>(
    threshold: usize,
    share_amount: usize,
    share: (usize, S),
    commitments: &[E],
) -> (r: Result<bool, VssError>)
    ensures
        verify_outcome(threshold, share_amount, share, commitments@, r),
        decides_share(share, commitments@, r),
{
    if threshold < 1 || threshold > share_amount {
        return Err(VssError::Configuration);
    }
    if commitments.len() != threshold {
        return Err(VssError::CommitmentLengthMismatch);
    }
    if share.0 < 1 || share.0 > share_amount {
        return Err(VssError::IndexOutOfRange);
    }
    Ok(check_share(&share, commitments))
}

/// Whether every share matches the `threshold` commitments; the shares are
/// checked in order up to the first that does not. Against the commitments
/// to a polynomial the answer is whether all the shares are values of it.
pub fn verify_all<S: FieldScalar, E: GroupElement<S>>(
    threshold: usize,
    share_amount: usize,
    shares: &[(usize, S)],
    commitments: &[E],
) -> (r: Result<bool, VssError>)
    ensures
        verify_all_outcome(threshold, share_amount, shares@, commitments@, r),
        decides_shares(shares@, commitments@, r),
{
    if threshold < 1 || threshold > share_amount {
        return Err(VssError::Configuration);
    }
    if commitments.len() != threshold {
        return Err(VssError::CommitmentLengthMismatch);
    }
    let mut k: usize = 0;
    while k < shares.len()
        invariant
            k <= shares.len(),
            valid_config(threshold, share_amount),
            commitments.len() == threshold,
            forall|i: int| 0 <= i < k ==> 1 <= (#[trigger] shares[i]).0 <= share_amount,
        decreases shares.len() - k,
    {
        if shares[k].0 < 1 || shares[k].0 > share_amount {
            assert(!(1 <= shares@[k as int].0 <= share_amount));
            return Err(VssError::IndexOutOfRange);
        }
        k += 1;
    }
    let mut i: usize = 0;
    while i < shares.len()
        invariant
            i <= shares.len(),
            valid_config(threshold, share_amount),
            commitments.len() == threshold,
            indices_in_range(shares@, share_amount),
            forall|m: int| 0 <= m < i ==> share_matches(#[trigger] shares[m], commitments@),
            forall|coeffs: Seq<int>| #[trigger]
                opens_to(coeffs, commitments@) ==> shares_of(coeffs, shares@.take(i as int)),
        decreases shares.len() - i,
    {
        let ok = check_share(&shares[i], commitments);
        if !ok {
            proof {
                assert(!share_matches(shares@[i as int], commitments@));
                assert forall|coeffs: Seq<int>| #[trigger]
                    opens_to(coeffs, commitments@) implies !shares_of(coeffs, shares@) by {
                    assert(shares@[i as int].1.value() != poly_eval(
                        coeffs,
                        shares@[i as int].0 as int,
                    ) % S::order());
                }
            }
            return Ok(false);
        }
        proof {
            assert forall|coeffs: Seq<int>| #[trigger]
                opens_to(coeffs, commitments@) implies shares_of(
                coeffs,
                shares@.take(i + 1),
            ) by {
                let now = shares@.take(i + 1);
                let before = shares@.take(i as int);
                assert(shares_of(coeffs, before));
                assert forall|m: int| 0 <= m < now.len() implies (#[trigger] now[m]).1.value()
                    == poly_eval(coeffs, now[m].0 as int) % S::order() by {
                    if m < i {
                        assert(before[m] == now[m]);
                    }
                }
            }
        }
        i += 1;
    }
    assert(shares@.take(i as int) =~= shares@);
    Ok(true)
}

/// What a dealing from the polynomial `coeffs` hands out: one share for each
/// index in `1..=share_amount`, in order, whose value is the polynomial's at
/// the index, and the commitments to the coefficients, each of which commits
/// to its coefficient alone.
pub open spec fn dealt<S: FieldScalar, E: GroupElement<S>>(
    coeffs: Seq<int>,
    share_amount: usize,
    shares: Seq<(usize, S)>,
    commitments: Seq<E>,
) -> bool {
    &&& shares.len() == share_amount
    &&& forall|i: int| 0 <= i < shares.len() ==> (#[trigger] shares[i]).0 == i + 1
    &&& shares_of(coeffs, shares)
    &&& opens_to(coeffs, commitments)
    &&& forall|i: int|
        0 <= i < commitments.len() ==> binds_to::<S, E>(#[trigger] commitments[i], coeffs[i])
}

/// What `sample_polynomial` answers: `threshold` coefficients of which the
/// first is the secret, or a refusal.
pub open spec fn sample_outcome<S: FieldScalar>(
    threshold: usize,
    secret: S,
    r: Result<Vec<S>, VssError>,
) -> bool {
    match r {
        Ok(polynomial) => threshold >= 1 && polynomial.len() == threshold && polynomial[0]
            == secret,
        Err(VssError::Configuration) => threshold == 0,
        Err(VssError::RandomSource) => threshold >= 2,
        Err(_) => false,
    }
}

/// The polynomial that shares `secret`: the secret as constant term, then
/// `threshold - 1` coefficients from the random source. A threshold of zero
/// is refused; with a threshold of one nothing is drawn.
pub fn sample_polynomial<S: FieldScalar>(threshold: usize, secret: &S) -> (r: Result<
    Vec<S>,
    VssError,
>)
    ensures
        sample_outcome(threshold, *secret, r),
{
    if threshold < 1 {
        return Err(VssError::Configuration);
    }
    let mut coefficients: Vec<S> = Vec::new();
    coefficients.push(*secret);
    let mut i: usize = 1;
    while i < threshold
        invariant
            1 <= i <= threshold,
            coefficients.len() == i,
            coefficients[0] == *secret,
        decreases threshold - i,
    {
        match S::random() {
            Ok(coefficient) => {
                coefficients.push(coefficient);
            },
            Err(_) => {
                return Err(VssError::RandomSource);
            },
        }
        i += 1;
    }
    Ok(coefficients)
}

/// What `deal` answers: the first of the refusals that applies, and the
/// dealing from the polynomial where none does.
pub open spec fn deal_outcome<S: FieldScalar, E: GroupElement<S>>(
    threshold: usize,
    share_amount: usize,
    polynomial: Seq<S>,
    r: Result<(Vec<(usize, S)>, Vec<E>), VssError>,
) -> bool {
    match r {
        Ok((shares, commitments)) => {
            &&& valid_config(threshold, share_amount)
            &&& polynomial.len() == threshold
            &&& dealt(scalar_values(polynomial), share_amount, shares@, commitments@)
        },
        Err(VssError::Configuration) => !valid_config(threshold, share_amount),
        Err(VssError::CommitmentLengthMismatch) => {
            &&& valid_config(threshold, share_amount)
            &&& polynomial.len() != threshold
        },
        Err(_) => false,
    }
}

/// The dealing from a given polynomial, constant term first: the part of
/// `split` that follows the drawing of the coefficients. A polynomial whose
/// length is not the threshold is refused.
pub fn deal<S: FieldScalar, E: GroupElement<S>>(
    threshold: usize,
    share_amount: usize,
    polynomial: &[S],
) -> (r: Result<(Vec<(usize, S)>, Vec<E>), VssError>)
    ensures
        deal_outcome(threshold, share_amount, polynomial@, r),
{
    if threshold < 1 || threshold > share_amount {
        return Err(VssError::Configuration);
    }
    if polynomial.len() != threshold {
        return Err(VssError::CommitmentLengthMismatch);
    }
    let shares = evaluate_polynomial(share_amount, polynomial);
    let commitments = generate_commitments::<S, E>(polynomial);
    proof {
        let coeffs = scalar_values(polynomial@);
        assert forall|i: int| 0 <= i < coeffs.len() implies 0 <= #[trigger] coeffs[i]
            < S::order() && commitments@[i].encoding() == E::generated(coeffs[i]) by {
            polynomial@[i].lemma_value();
        }
        assert forall|i: int| 0 <= i < shares.len() implies (#[trigger] shares@[i]).1.value()
            == poly_eval(coeffs, shares@[i].0 as int) % S::order() by {}
    }
    Ok((shares, commitments))
}

/// What `split` answers: a dealing from some polynomial of `threshold`
/// coefficients whose constant term is the secret, or a refusal. A bad
/// configuration is always refused; the random source can fail only where
/// coefficients are drawn.
pub open spec fn split_outcome<S: FieldScalar, E: GroupElement<S>>(
    threshold: usize,
    share_amount: usize,
    secret: S,
    r: Result<(Vec<(usize, S)>, Vec<E>), VssError>,
) -> bool {
    match r {
        Ok((shares, commitments)) => {
            &&& valid_config(threshold, share_amount)
            &&& exists|coeffs: Seq<int>|
                coeffs.len() == threshold && coeffs[0] == secret.value() && #[trigger] dealt(
                    coeffs,
                    share_amount,
                    shares@,
                    commitments@,
                )
        },
        Err(VssError::Configuration) => !valid_config(threshold, share_amount),
        Err(VssError::RandomSource) => valid_config(threshold, share_amount) && threshold >= 2,
        Err(_) => false,
    }
}

/// Shares and commitments for `secret`: a dealing from a polynomial of
/// `threshold` coefficients whose constant term is the secret. A bad
/// configuration is refused before anything is drawn; otherwise only the
/// random source can make it fail.
pub fn split<S: FieldScalar, E: GroupElement<S>>(
    threshold: usize,
    share_amount: usize,
    secret: &S,
) -> (r: Result<(Vec<(usize, S)>, Vec<E>), VssError>)
    ensures
        split_outcome(threshold, share_amount, *secret, r),
{
    if threshold < 1 || threshold > share_amount {
        return Err(VssError::Configuration);
    }
    let polynomial = match sample_polynomial(threshold, secret) {
        Ok(polynomial) => polynomial,
        Err(e) => {
            return Err(e);
        },
    };
    let r = deal::<S, E>(threshold, share_amount, polynomial.as_slice());
    proof {
        let coeffs = scalar_values(polynomial@);
        assert(coeffs.len() == threshold && coeffs[0] == secret.value());
    }
    r
}

} // verus!
