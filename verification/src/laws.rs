//! What the contracts of the scheme's operations give together: each law
//! speaks of any answers that meet those contracts.
use crate::algebra::{has_inverse, is_prime};
use crate::engine::{
    binds_to, dealt, decides_share, decides_shares, distinct_indices, index_values,
    indices_in_range, interpolation_outcome, recover_outcome, recovers_constant_term,
    scalar_values, share_indices, shares_of, split_outcome, valid_config, verify_all_outcome,
    verify_outcome,
};
use crate::error::VssError;
use crate::group::{FieldScalar, GroupElement};
use crate::lagrange::{
    basis_denominator, distinct_nodes, lemma_interpolant_at_node, lemma_prime_unit_denominators,
    lemma_unit_differences,
};
use crate::polynomial::{
    lemma_eval_combine, lemma_roots_force_zero_coefficients, poly_combine, poly_eval,
};
use vstd::arithmetic::div_mod::{
    lemma_mod_add_multiples_vanish, lemma_small_mod, lemma_sub_mod_noop,
};
use vstd::prelude::*;

verus! {

/// Every share of `chosen` is one of `shares`.
pub open spec fn chosen_from<S: FieldScalar>(
    chosen: Seq<(usize, S)>,
    shares: Seq<(usize, S)>,
) -> bool {
    forall|k: int| 0 <= k < chosen.len() ==> shares.contains(#[trigger] chosen[k])
}

/// Shares chosen from a dealing are values of the dealt polynomial, with
/// indices in range.
proof fn lemma_chosen_shares<S: FieldScalar, E: GroupElement<S>>(
    coeffs: Seq<int>,
    share_amount: usize,
    shares: Seq<(usize, S)>,
    commitments: Seq<E>,
    chosen: Seq<(usize, S)>,
)
    requires
        dealt(coeffs, share_amount, shares, commitments),
        chosen_from(chosen, shares),
    ensures
        shares_of(coeffs, chosen),
        indices_in_range(chosen, share_amount),
{
    assert forall|k: int| 0 <= k < chosen.len() implies (#[trigger] chosen[k]).1.value()
        == poly_eval(coeffs, chosen[k].0 as int) % S::order() && 1
        <= chosen[k].0 <= share_amount by {
        assert(shares.contains(chosen[k]));
        let i = choose|i: int| 0 <= i < shares.len() && shares[i] == chosen[k];
        assert(shares[i].0 == i + 1);
    }
}

/// Round trip: any `threshold` shares of a dealing, with distinct indices
/// and in any order, are recovered to the secret that was dealt.
pub proof fn lemma_recover_inverts_split<S: FieldScalar, E: GroupElement<S>>(
    threshold: usize,
    share_amount: usize,
    coeffs: Seq<int>,
    shares: Seq<(usize, S)>,
    commitments: Seq<E>,
    chosen: Seq<(usize, S)>,
    r: Result<S, VssError>,
)
    requires
        valid_config(threshold, share_amount),
        coeffs.len() == threshold,
        dealt(coeffs, share_amount, shares, commitments),
        chosen.len() == threshold,
        chosen_from(chosen, shares),
        distinct_indices(share_indices(chosen)),
        recover_outcome(threshold, share_amount, chosen, r),
        recovers_constant_term(threshold, chosen, r),
    ensures
        r is Ok,
        r->Ok_0.value() == coeffs[0],
{
    lemma_chosen_shares(coeffs, share_amount, shares, commitments, chosen);
    lemma_small_mod(coeffs[0] as nat, S::order() as nat);
}

/// Threshold: with a number of shares other than the threshold, fewer above
/// all, nothing is recovered; under a valid configuration the refusal is
/// that of the count.
pub proof fn lemma_wrong_share_count_refused<S: FieldScalar>(
    threshold: usize,
    share_amount: usize,
    shares: Seq<(usize, S)>,
    r: Result<S, VssError>,
)
    requires
        shares.len() != threshold,
        recover_outcome(threshold, share_amount, shares, r),
    ensures
        r is Err,
        valid_config(threshold, share_amount) ==> r == Err::<S, VssError>(
            VssError::ShareCountMismatch,
        ),
{
}

/// Duplicates: shares of which two carry one index are refused; where
/// nothing else is wrong with them, as duplicates.
pub proof fn lemma_duplicate_index_refused<S: FieldScalar>(
    threshold: usize,
    share_amount: usize,
    shares: Seq<(usize, S)>,
    i: int,
    j: int,
    r: Result<S, VssError>,
)
    requires
        0 <= i < j < shares.len(),
        shares[i].0 == shares[j].0,
        recover_outcome(threshold, share_amount, shares, r),
    ensures
        r is Err,
        valid_config(threshold, share_amount) && shares.len() == threshold && indices_in_range(
            shares,
            share_amount,
        ) ==> r == Err::<S, VssError>(VssError::DuplicateIndex),
{
    let xs = share_indices(shares);
    assert(xs[i] == xs[j]);
}

/// Soundness: every share of a dealing is accepted against the dealing's
/// commitments.
pub proof fn lemma_dealt_share_verifies<S: FieldScalar, E: GroupElement<S>>(
    threshold: usize,
    share_amount: usize,
    coeffs: Seq<int>,
    shares: Seq<(usize, S)>,
    commitments: Seq<E>,
    i: int,
    r: Result<bool, VssError>,
)
    requires
        valid_config(threshold, share_amount),
        coeffs.len() == threshold,
        dealt(coeffs, share_amount, shares, commitments),
        0 <= i < shares.len(),
        verify_outcome(threshold, share_amount, shares[i], commitments, r),
        decides_share(shares[i], commitments, r),
    ensures
        r == Ok::<bool, VssError>(true),
{
    assert(shares[i].0 == i + 1);
}

/// Soundness for a batch: all the shares of a dealing are accepted together.
pub proof fn lemma_dealt_shares_verify<S: FieldScalar, E: GroupElement<S>>(
    threshold: usize,
    share_amount: usize,
    coeffs: Seq<int>,
    shares: Seq<(usize, S)>,
    commitments: Seq<E>,
    r: Result<bool, VssError>,
)
    requires
        valid_config(threshold, share_amount),
        coeffs.len() == threshold,
        dealt(coeffs, share_amount, shares, commitments),
        verify_all_outcome(threshold, share_amount, shares, commitments, r),
        decides_shares(shares, commitments, r),
    ensures
        r == Ok::<bool, VssError>(true),
{
    assert forall|i: int| 0 <= i < shares.len() implies 1 <= (#[trigger] shares[i]).0
        <= share_amount by {
        assert(shares[i].0 == i + 1);
    }
}

/// Completeness: a share of a dealing whose value was changed is rejected.
pub proof fn lemma_altered_share_rejected<S: FieldScalar, E: GroupElement<S>>(
    threshold: usize,
    share_amount: usize,
    coeffs: Seq<int>,
    shares: Seq<(usize, S)>,
    commitments: Seq<E>,
    i: int,
    altered: S,
    r: Result<bool, VssError>,
)
    requires
        valid_config(threshold, share_amount),
        coeffs.len() == threshold,
        dealt(coeffs, share_amount, shares, commitments),
        0 <= i < shares.len(),
        altered.value() != shares[i].1.value(),
        verify_outcome(threshold, share_amount, (shares[i].0, altered), commitments, r),
        decides_share((shares[i].0, altered), commitments, r),
    ensures
        r == Ok::<bool, VssError>(false),
{
    assert(shares[i].0 == i + 1);
}

/// Completeness for a batch: the shares of a dealing with one value changed
/// are rejected together.
pub proof fn lemma_altered_batch_rejected<S: FieldScalar, E: GroupElement<S>>(
    threshold: usize,
    share_amount: usize,
    coeffs: Seq<int>,
    shares: Seq<(usize, S)>,
    commitments: Seq<E>,
    i: int,
    altered: S,
    r: Result<bool, VssError>,
)
    requires
        valid_config(threshold, share_amount),
        coeffs.len() == threshold,
        dealt(coeffs, share_amount, shares, commitments),
        0 <= i < shares.len(),
        altered.value() != shares[i].1.value(),
        verify_all_outcome(
            threshold,
            share_amount,
            shares.update(i, (shares[i].0, altered)),
            commitments,
            r,
        ),
        decides_shares(shares.update(i, (shares[i].0, altered)), commitments, r),
    ensures
        r == Ok::<bool, VssError>(false),
{
    let batch = shares.update(i, (shares[i].0, altered));
    assert forall|k: int| 0 <= k < batch.len() implies 1 <= (#[trigger] batch[k]).0
        <= share_amount by {
        assert(shares[k].0 == k + 1);
    }
    assert(batch[i].1.value() != poly_eval(coeffs, batch[i].0 as int)
        % S::order());
}

/// The coefficients that an accepted `split` dealt from.
pub open spec fn dealt_coefficients<S: FieldScalar, E: GroupElement<S>>(
    threshold: usize,
    share_amount: usize,
    secret: S,
    shares: Seq<(usize, S)>,
    commitments: Seq<E>,
) -> Seq<int> {
    choose|coeffs: Seq<int>|
        coeffs.len() == threshold && coeffs[0] == secret.value() && #[trigger] dealt(
            coeffs,
            share_amount,
            shares,
            commitments,
        )
}

/// Round trip through `split`: whichever `threshold` of its shares are
/// chosen, and in whichever order, `recover` gives the secret back.
pub proof fn lemma_split_round_trip<S: FieldScalar, E: GroupElement<S>>(
    threshold: usize,
    share_amount: usize,
    secret: S,
    dealing: Result<(Vec<(usize, S)>, Vec<E>), VssError>,
    chosen: Seq<(usize, S)>,
    r: Result<S, VssError>,
)
    requires
        dealing is Ok,
        split_outcome(threshold, share_amount, secret, dealing),
        chosen.len() == threshold,
        chosen_from(chosen, dealing->Ok_0.0@),
        distinct_indices(share_indices(chosen)),
        recover_outcome(threshold, share_amount, chosen, r),
        recovers_constant_term(threshold, chosen, r),
    ensures
        r is Ok,
        r->Ok_0.value() == secret.value(),
{
    let shares = dealing->Ok_0.0@;
    let commitments = dealing->Ok_0.1@;
    let coeffs = dealt_coefficients(threshold, share_amount, secret, shares, commitments);
    lemma_recover_inverts_split(threshold, share_amount, coeffs, shares, commitments, chosen, r);
}

/// Soundness through `split`: `verify` accepts each of its shares, and
/// `verify_all` accepts them together.
pub proof fn lemma_split_shares_verify<S: FieldScalar, E: GroupElement<S>>(
    threshold: usize,
    share_amount: usize,
    secret: S,
    dealing: Result<(Vec<(usize, S)>, Vec<E>), VssError>,
    i: int,
    one: Result<bool, VssError>,
    all: Result<bool, VssError>,
)
    requires
        dealing is Ok,
        split_outcome(threshold, share_amount, secret, dealing),
        0 <= i < dealing->Ok_0.0@.len(),
        verify_outcome(threshold, share_amount, dealing->Ok_0.0@[i], dealing->Ok_0.1@, one),
        decides_share(dealing->Ok_0.0@[i], dealing->Ok_0.1@, one),
        verify_all_outcome(threshold, share_amount, dealing->Ok_0.0@, dealing->Ok_0.1@, all),
        decides_shares(dealing->Ok_0.0@, dealing->Ok_0.1@, all),
    ensures
        one == Ok::<bool, VssError>(true),
        all == Ok::<bool, VssError>(true),
{
    let shares = dealing->Ok_0.0@;
    let commitments = dealing->Ok_0.1@;
    let coeffs = dealt_coefficients(threshold, share_amount, secret, shares, commitments);
}

/// Completeness through `split`: once the value of one of its shares is
/// changed, `verify` rejects that share and `verify_all` the batch.
pub proof fn lemma_split_altered_share_rejected<S: FieldScalar, E: GroupElement<S>>(
    threshold: usize,
    share_amount: usize,
    secret: S,
    dealing: Result<(Vec<(usize, S)>, Vec<E>), VssError>,
    i: int,
    altered: S,
    one: Result<bool, VssError>,
    all: Result<bool, VssError>,
)
    requires
        dealing is Ok,
        split_outcome(threshold, share_amount, secret, dealing),
        0 <= i < dealing->Ok_0.0@.len(),
        altered.value() != dealing->Ok_0.0@[i].1.value(),
        verify_outcome(
            threshold,
            share_amount,
            (dealing->Ok_0.0@[i].0, altered),
            dealing->Ok_0.1@,
            one,
        ),
        decides_share((dealing->Ok_0.0@[i].0, altered), dealing->Ok_0.1@, one),
        verify_all_outcome(
            threshold,
            share_amount,
            dealing->Ok_0.0@.update(i, (dealing->Ok_0.0@[i].0, altered)),
            dealing->Ok_0.1@,
            all,
        ),
        decides_shares(
            dealing->Ok_0.0@.update(i, (dealing->Ok_0.0@[i].0, altered)),
            dealing->Ok_0.1@,
            all,
        ),
    ensures
        one == Ok::<bool, VssError>(false),
        all == Ok::<bool, VssError>(false),
{
    let shares = dealing->Ok_0.0@;
    let commitments = dealing->Ok_0.1@;
    let coeffs = dealt_coefficients(threshold, share_amount, secret, shares, commitments);
    lemma_altered_share_rejected(
        threshold,
        share_amount,
        coeffs,
        shares,
        commitments,
        i,
        altered,
        one,
    );
    lemma_altered_batch_rejected(
        threshold,
        share_amount,
        coeffs,
        shares,
        commitments,
        i,
        altered,
        all,
    );
}

/// Interpolation at one of the given indices gives the value given there,
/// whatever the other values are.
pub proof fn lemma_interpolation_returns_given_value<S: FieldScalar>(
    x: S,
    xs: Seq<usize>,
    ys: Seq<S>,
    m: int,
    r: Result<S, VssError>,
)
    requires
        xs.len() == ys.len(),
        0 <= m < xs.len(),
        x.value() == xs[m] as int,
        r is Ok,
        interpolation_outcome(x, xs, ys, r),
    ensures
        r->Ok_0.value() == ys[m].value(),
{
    let q = S::order();
    S::lemma_order();
    ys[m].lemma_value();
    let nodes = index_values(xs);
    let values = scalar_values(ys);
    assert(has_inverse(basis_denominator(nodes, m), q));
    lemma_interpolant_at_node(nodes, values, q, m);
    lemma_small_mod(values[m] as nat, q as nat);
}

/// Whatever is drawn, the first commitment of a `split` is the secret times
/// the generator.
pub proof fn lemma_split_commits_to_secret<S: FieldScalar, E: GroupElement<S>>(
    threshold: usize,
    share_amount: usize,
    secret: S,
    dealing: Result<(Vec<(usize, S)>, Vec<E>), VssError>,
)
    requires
        dealing is Ok,
        split_outcome(threshold, share_amount, secret, dealing),
    ensures
        dealing->Ok_0.1@.len() == threshold,
        dealing->Ok_0.1@[0].encoding() == E::generated(secret.value()),
{
    let shares = dealing->Ok_0.0@;
    let commitments = dealing->Ok_0.1@;
    let coeffs = dealt_coefficients(threshold, share_amount, secret, shares, commitments);
    assert(0 <= coeffs[0] < S::order());
}

/// Dealings from the same coefficients are the same: share by share and
/// commitment by commitment.
pub proof fn lemma_same_draw_same_dealing<S: FieldScalar, E: GroupElement<S>>(
    coeffs: Seq<int>,
    share_amount: usize,
    shares1: Seq<(usize, S)>,
    commitments1: Seq<E>,
    shares2: Seq<(usize, S)>,
    commitments2: Seq<E>,
)
    requires
        dealt(coeffs, share_amount, shares1, commitments1),
        dealt(coeffs, share_amount, shares2, commitments2),
    ensures
        shares1.len() == shares2.len(),
        forall|i: int|
            0 <= i < shares1.len() ==> (#[trigger] shares1[i]).0 == shares2[i].0
                && shares1[i].1.value() == shares2[i].1.value(),
        commitments1.len() == commitments2.len(),
        forall|i: int|
            0 <= i < commitments1.len() ==> (#[trigger] commitments1[i]).encoding()
                == commitments2[i].encoding(),
{
    assert forall|i: int| 0 <= i < shares1.len() implies (#[trigger] shares1[i]).0 == shares2[i].0
        && shares1[i].1.value() == shares2[i].1.value() by {
        assert(shares2[i].0 == i + 1);
    }
    assert forall|i: int| 0 <= i < commitments1.len() implies (#[trigger] commitments1[i]).encoding()
        == commitments2[i].encoding() by {
        assert(0 <= coeffs[i] < S::order());
    }
}

/// Dealings from coefficients that differ at a place differ in the
/// commitment at that place.
pub proof fn lemma_other_draw_other_commitment<S: FieldScalar, E: GroupElement<S>>(
    coeffs1: Seq<int>,
    coeffs2: Seq<int>,
    share_amount: usize,
    shares1: Seq<(usize, S)>,
    commitments1: Seq<E>,
    shares2: Seq<(usize, S)>,
    commitments2: Seq<E>,
    i: int,
)
    requires
        dealt(coeffs1, share_amount, shares1, commitments1),
        dealt(coeffs2, share_amount, shares2, commitments2),
        coeffs1.len() == coeffs2.len(),
        0 <= i < coeffs1.len(),
        coeffs1[i] != coeffs2[i],
    ensures
        commitments1[i].encoding() != commitments2[i].encoding(),
{
    assert(0 <= coeffs2[i] < S::order());
    assert(binds_to::<S, E>(commitments1[i], coeffs1[i]));
    assert(commitments2[i].encoding() == E::generated(coeffs2[i]));
}

/// The indices `1..=count` as interpolation nodes.
pub open spec fn first_nodes(count: int) -> Seq<int> {
    Seq::new(count as nat, |j: int| j + 1)
}

/// The first indices are nodes of which no two are congruent modulo an
/// order that exceeds them.
proof fn lemma_first_nodes_distinct(count: int, q: int)
    requires
        0 <= count < q,
    ensures
        distinct_nodes(first_nodes(count), q),
{
    let xs = first_nodes(count);
    assert forall|a: int, b: int| 0 <= a < xs.len() && 0 <= b < xs.len() && a != b implies (
    #[trigger] xs[a] - #[trigger] xs[b]) % q != 0 by {
        let d = xs[a] - xs[b];
        if d > 0 {
            lemma_small_mod(d as nat, q as nat);
        } else {
            lemma_mod_add_multiples_vanish(d, q);
            lemma_small_mod((q + d) as nat, q as nat);
        }
    }
}

/// In a group of prime order, dealings from coefficients that differ
/// somewhere differ in one of their first `threshold` shares.
pub proof fn lemma_other_draw_other_shares<S: FieldScalar, E: GroupElement<S>>(
    threshold: usize,
    share_amount: usize,
    coeffs1: Seq<int>,
    coeffs2: Seq<int>,
    shares1: Seq<(usize, S)>,
    commitments1: Seq<E>,
    shares2: Seq<(usize, S)>,
    commitments2: Seq<E>,
    i: int,
) -> (j: int)
    requires
        is_prime(S::order()),
        valid_config(threshold, share_amount),
        coeffs1.len() == threshold,
        coeffs2.len() == threshold,
        dealt(coeffs1, share_amount, shares1, commitments1),
        dealt(coeffs2, share_amount, shares2, commitments2),
        0 <= i < threshold,
        coeffs1[i] != coeffs2[i],
    ensures
        0 <= j < threshold,
        shares1[j].1.value() != shares2[j].1.value(),
{
    let q = S::order();
    S::lemma_order();
    if forall|j: int| 0 <= j < threshold ==> (#[trigger] shares1[j]).1.value() == shares2[j].1.value() {
        let xs = first_nodes(threshold as int);
        let gap = poly_combine(coeffs1, 1, coeffs2, -1);
        lemma_first_nodes_distinct(threshold as int, q);
        lemma_prime_unit_denominators(xs, q);
        lemma_unit_differences(xs, q);
        assert forall|k: int| 0 <= k < xs.len() implies poly_eval(gap, #[trigger] xs[k]) % q
            == 0 by {
            let a = poly_eval(coeffs1, k + 1);
            let b = poly_eval(coeffs2, k + 1);
            lemma_eval_combine(coeffs1, 1, coeffs2, -1, k + 1);
            assert(shares1[k].0 == k + 1 && shares2[k].0 == k + 1);
            assert(shares1[k].1.value() == a % q);
            assert(shares2[k].1.value() == b % q);
            lemma_sub_mod_noop(a, b, q);
            lemma_small_mod(0, q as nat);
        }
        lemma_roots_force_zero_coefficients(gap, xs, q, i);
        assert(gap[i] == coeffs1[i] - coeffs2[i]);
        assert(0 <= coeffs1[i] < q && 0 <= coeffs2[i] < q);
        if coeffs1[i] > coeffs2[i] {
            lemma_small_mod((coeffs1[i] - coeffs2[i]) as nat, q as nat);
        } else {
            lemma_mod_add_multiples_vanish(coeffs1[i] - coeffs2[i], q);
            lemma_small_mod((q + (coeffs1[i] - coeffs2[i])) as nat, q as nat);
        }
        assert(false);
    }
    choose|j: int| 0 <= j < threshold && (#[trigger] shares1[j]).1.value() != shares2[j].1.value()
}

} // verus!
