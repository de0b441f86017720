//! A batch of shares checked in runs: how the batch is cut, how the answers
//! of the runs fold into one, and that the folded answer is the answer of
//! `verify_all` on the whole batch.
use crate::engine::{all_match, indices_in_range, share_matches, verify_all_outcome};
use crate::error::VssError;
use crate::group::{FieldScalar, GroupElement};
use vstd::arithmetic::div_mod::lemma_fundamental_div_mod;
use vstd::prelude::*;

verus! {

/// The bounds cut `0..len` into at least one run, each `lo..hi`, in order
/// and without gaps.
pub open spec fn partitions(bounds: Seq<(usize, usize)>, len: int) -> bool {
    &&& bounds.len() >= 1
    &&& bounds[0].0 == 0
    &&& bounds[bounds.len() - 1].1 == len
    &&& forall|k: int| 0 <= k < bounds.len() ==> (#[trigger] bounds[k]).0 <= bounds[k].1
    &&& forall|k: int| 0 <= k < bounds.len() - 1 ==> (#[trigger] bounds[k]).1 == bounds[k + 1].0
}

/// The answer that the answers of the runs fold into: the first refusal, or
/// else whether every run was accepted.
pub open spec fn gathered(answers: Seq<Result<bool, VssError>>) -> Result<bool, VssError>
    decreases answers.len(),
{
    if answers.len() == 0 {
        Ok(true)
    } else {
        match gathered(answers.drop_last()) {
            Err(e) => Err(e),
            Ok(all) => match answers.last() {
                Err(e) => Err(e),
                Ok(one) => Ok(all && one),
            },
        }
    }
}

/// The number of runs that `workers` workers get: one each, and one run
/// where there is no worker.
pub open spec fn run_count(workers: usize) -> int {
    if workers == 0 {
        1
    } else {
        workers as int
    }
}

/// The runs that a batch of `len` shares is cut into for `workers` workers:
/// no more runs than workers, all of one length but for the last, which may
/// be shorter. An empty batch is one empty run.
pub fn batch_runs(len: usize, workers: usize) -> (bounds: Vec<(usize, usize)>)
    ensures
        partitions(bounds@, len as int),
        bounds.len() <= run_count(workers),
        forall|k: int|
            0 <= k < bounds.len() - 1 ==> (#[trigger] bounds[k]).1 - bounds[k].0 == bounds[0].1
                - bounds[0].0,
        bounds[bounds.len() - 1].1 - bounds[bounds.len() - 1].0 <= bounds[0].1 - bounds[0].0,
{
    let mut bounds: Vec<(usize, usize)> = Vec::new();
    if len == 0 {
        bounds.push((0, 0));
        return bounds;
    }
    let count: usize = if workers == 0 {
        1
    } else {
        workers
    };
    let quotient: usize = len / count;
    let exact = len % count == 0;
    proof {
        lemma_fundamental_div_mod(len as int, count as int);
        if !exact {
            assert(count >= 2);
            assert(2 * quotient <= count * quotient) by (nonlinear_arith)
                requires
                    count >= 2,
                    quotient >= 0,
            ;
        } else {
            assert(quotient >= 1) by (nonlinear_arith)
                requires
                    len == count * quotient,
                    len >= 1,
                    quotient >= 0,
            ;
        }
    }
    let size: usize = if exact {
        quotient
    } else {
        quotient + 1
    };
    assert(len <= count * size) by (nonlinear_arith)
        requires
            len == count * quotient + len % count,
            0 <= len % count < count,
            exact ==> size == quotient && len % count == 0,
            !exact ==> size == quotient + 1,
    ;
    let mut lo: usize = 0;
    assert(0 * size == 0);
    while lo < len
        invariant
            lo <= len,
            size >= 1,
            len >= 1,
            len <= count * size,
            count == run_count(workers),
            bounds.len() <= count,
            lo == bounds.len() * size,
            bounds.len() >= 1 ==> bounds[0].0 == 0 && bounds[bounds.len() - 1].1 == lo,
            forall|k: int| 0 <= k < bounds.len() ==> (#[trigger] bounds[k]).1 - bounds[k].0 == size,
            forall|k: int|
                0 <= k < bounds.len() - 1 ==> (#[trigger] bounds[k]).1 == bounds[k + 1].0,
        decreases len - lo,
    {
        proof {
            assert(bounds.len() < count) by (nonlinear_arith)
                requires
                    lo < len,
                    len <= count * size,
                    lo == bounds.len() * size,
                    size >= 1,
            ;
            assert((bounds.len() + 1) * size == bounds.len() * size + size) by (nonlinear_arith);
        }
        if len - lo <= size {
            bounds.push((lo, len));
            return bounds;
        }
        bounds.push((lo, lo + size));
        lo = lo + size;
    }
    bounds
}

/// The answer for the whole batch from the answers of its runs, in order.
pub fn gather_answers(answers: &[Result<bool, VssError>]) -> (r: Result<bool, VssError>)
    ensures
        r == gathered(answers@),
{
    let mut all = true;
    let mut i: usize = 0;
    assert(answers@.take(0).len() == 0);
    while i < answers.len()
        invariant
            i <= answers.len(),
            gathered(answers@.take(i as int)) == Ok::<bool, VssError>(all),
        decreases answers.len() - i,
    {
        proof {
            let now = answers@.take(i + 1);
            assert(now.drop_last() =~= answers@.take(i as int));
            assert(now.last() == answers@[i as int]);
        }
        match answers[i] {
            Ok(one) => {
                all = all && one;
            },
            Err(e) => {
                proof {
                    lemma_refusal_stays(answers@, i + 1);
                }
                return Err(e);
            },
        }
        i += 1;
    }
    assert(answers@.take(i as int) =~= answers@);
    Ok(all)
}

/// A refusal among the first `k` answers is the answer of all of them.
proof fn lemma_refusal_stays(answers: Seq<Result<bool, VssError>>, k: int)
    requires
        0 <= k <= answers.len(),
        gathered(answers.take(k)) is Err,
    ensures
        gathered(answers) == gathered(answers.take(k)),
    decreases answers.len() - k,
{
    if k < answers.len() {
        let next = answers.take(k + 1);
        assert(next.drop_last() =~= answers.take(k));
        lemma_refusal_stays(answers, k + 1);
    } else {
        assert(answers.take(k) =~= answers);
    }
}

/// The folded answer of the first `k` runs is the answer of `verify_all` on
/// the shares up to the end of those runs.
proof fn lemma_gathered_prefix<S: FieldScalar, E: GroupElement<S>>(
    threshold: usize,
    share_amount: usize,
    shares: Seq<(usize, S)>,
    commitments: Seq<E>,
    bounds: Seq<(usize, usize)>,
    answers: Seq<Result<bool, VssError>>,
    k: int,
)
    requires
        partitions(bounds, shares.len() as int),
        answers.len() == bounds.len(),
        1 <= k <= bounds.len(),
        forall|j: int|
            0 <= j < bounds.len() ==> verify_all_outcome(
                threshold,
                share_amount,
                shares.subrange(bounds[j].0 as int, bounds[j].1 as int),
                commitments,
                #[trigger] answers[j],
            ),
    ensures
        0 <= bounds[k - 1].1 <= shares.len(),
        verify_all_outcome(
            threshold,
            share_amount,
            shares.take(bounds[k - 1].1 as int),
            commitments,
            gathered(answers.take(k)),
        ),
    decreases k,
{
    lemma_bounds_rise(bounds, shares.len() as int, k - 1);
    let upto = answers.take(k);
    let hi = bounds[k - 1].1 as int;
    let lo = bounds[k - 1].0 as int;
    let run = shares.subrange(lo, hi);
    assert(upto.last() == answers[k - 1]);
    assert(verify_all_outcome(threshold, share_amount, run, commitments, answers[k - 1]));
    if k == 1 {
        assert(upto.drop_last().len() == 0);
        assert(gathered(upto.drop_last()) == Ok::<bool, VssError>(true));
        assert(run =~= shares.take(hi));
    } else {
        lemma_gathered_prefix(threshold, share_amount, shares, commitments, bounds, answers, k - 1);
        assert(upto.drop_last() =~= answers.take(k - 1));
        assert(bounds[k - 2].1 == bounds[k - 1].0);
        let before = shares.take(lo);
        let whole = shares.take(hi);
        assert(whole =~= before + run);
        assert(indices_in_range(whole, share_amount) <==> indices_in_range(before, share_amount)
            && indices_in_range(run, share_amount)) by {
            if indices_in_range(whole, share_amount) {
                assert forall|i: int| 0 <= i < before.len() implies 1 <= (#[trigger] before[i]).0
                    <= share_amount by {
                    assert(before[i] == whole[i]);
                }
                assert forall|i: int| 0 <= i < run.len() implies 1 <= (#[trigger] run[i]).0
                    <= share_amount by {
                    assert(run[i] == whole[lo + i]);
                }
            }
        }
        assert(all_match(whole, commitments) <==> all_match(before, commitments) && all_match(
            run,
            commitments,
        )) by {
            if all_match(whole, commitments) {
                assert forall|i: int| 0 <= i < before.len() implies share_matches(
                    #[trigger] before[i],
                    commitments,
                ) by {
                    assert(before[i] == whole[i]);
                }
                assert forall|i: int| 0 <= i < run.len() implies share_matches(
                    #[trigger] run[i],
                    commitments,
                ) by {
                    assert(run[i] == whole[lo + i]);
                }
            }
        }
    }
}

/// The runs end in rising order within the batch.
proof fn lemma_bounds_rise(bounds: Seq<(usize, usize)>, len: int, k: int)
    requires
        partitions(bounds, len),
        0 <= k < bounds.len(),
    ensures
        0 <= bounds[k].0 <= bounds[k].1 <= len,
    decreases bounds.len() - k,
{
    if k < bounds.len() - 1 {
        lemma_bounds_rise(bounds, len, k + 1);
        assert(bounds[k].1 == bounds[k + 1].0);
    }
}

/// The batch check in runs: where each answer is that of `verify_all` on
/// its run, the folded answer is that of `verify_all` on the whole batch.
pub proof fn lemma_gathered_is_verify_all<S: FieldScalar, E: GroupElement<S>>(
    threshold: usize,
    share_amount: usize,
    shares: Seq<(usize, S)>,
    commitments: Seq<E>,
    bounds: Seq<(usize, usize)>,
    answers: Seq<Result<bool, VssError>>,
)
    requires
        partitions(bounds, shares.len() as int),
        answers.len() == bounds.len(),
        forall|j: int|
            0 <= j < bounds.len() ==> verify_all_outcome(
                threshold,
                share_amount,
                shares.subrange(bounds[j].0 as int, bounds[j].1 as int),
                commitments,
                #[trigger] answers[j],
            ),
    ensures
        verify_all_outcome(threshold, share_amount, shares, commitments, gathered(answers)),
{
    lemma_gathered_prefix(
        threshold,
        share_amount,
        shares,
        commitments,
        bounds,
        answers,
        bounds.len() as int,
    );
    assert(answers.take(bounds.len() as int) =~= answers);
    assert(shares.take(shares.len() as int) =~= shares);
}

} // verus!
