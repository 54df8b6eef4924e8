use vstd::prelude::*;

use crate::neurons::Candidate;
use crate::trainer::{example_score, total_score, Input, Scorer};

verus! {

/// A fork-join worker pool, the parallel-map step of training: one round
/// dispatches every example of a batch exactly once, collects one fitness
/// result per example, and folds the results by addition starting from zero.
///
/// Results may be collected in any arrival order; the fold is addition, which
/// is commutative and associative, so every order gives the in-order sum that
/// the contract names (`lemma_fold_results_permutation` states the general
/// principle). An empty batch returns zero, the identity, directly.
///
/// Implementations built on worker threads live outside this library; the
/// library provides `SequentialPool`, which runs the round on the calling
/// thread and meets the same contract.
pub trait ForkJoinPool<I: Input, C: Candidate, S: Scorer<I>>: Sized {
    /// Run one fork-join round over the batch `params`, every item scored
    /// for the same `network` under the same `scorer`.
    fn exec_and_collect(&mut self, scorer: &S, network: &C, params: &Vec<I>) -> (folded: i128)
        ensures
            folded == total_score(*scorer, *network, params@),
    ;
}

/// The pool with no workers: each item of the round is handled on the calling
/// thread, in batch order.
pub struct SequentialPool {}

impl SequentialPool {
    pub fn new() -> (pool: SequentialPool) {
        SequentialPool {  }
    }
}

impl<I: Input, C: Candidate, S: Scorer<I>> ForkJoinPool<I, C, S> for SequentialPool {
    fn exec_and_collect(&mut self, scorer: &S, network: &C, params: &Vec<I>) -> (folded: i128) {
        let n = params.len();
        let mut folded: i128 = 0;
        let mut i: usize = 0;
        while i < n
            invariant
                n == params@.len(),
                i <= n,
                folded == total_score(*scorer, *network, params@.take(i as int)),
                -(i as int) * 0x8000_0000_0000_0000 <= folded,
                folded <= (i as int) * 0x7fff_ffff_ffff_ffff,
            decreases n - i,
        {
            let input = &params[i];
            let outputs = network.apply(input.get_network_inputs());
            let fitness = scorer.score(input, &outputs);
            proof {
                assert(params@.take(i + 1).drop_last() =~= params@.take(i as int));
                assert(params@.take(i + 1).last() == params@[i as int]);
            }
            folded = folded + (fitness as i128);
            i = i + 1;
        }
        proof {
            assert(params@.take(n as int) =~= params@);
        }
        folded
    }
}

/// A fold of batch results by a caller-supplied combiner, applied once per
/// result starting from the identity element.
pub open spec fn fold_results(
    combine: spec_fn(i64, i64) -> i64,
    identity: i64,
    results: Seq<i64>,
) -> i64
    decreases results.len(),
{
    if results.len() == 0 {
        identity
    } else {
        combine(fold_results(combine, identity, results.drop_last()), results.last())
    }
}

pub open spec fn commutative(combine: spec_fn(i64, i64) -> i64) -> bool {
    forall|a: i64, b: i64| #[trigger] combine(a, b) == combine(b, a)
}

pub open spec fn associative(combine: spec_fn(i64, i64) -> i64) -> bool {
    forall|a: i64, b: i64, c: i64|
        #[trigger] combine(combine(a, b), c) == combine(a, combine(b, c))
}

/// Pulling one result out of a fold: a commutative and associative combiner
/// folds a batch as if the result at position `at` had arrived last.
pub proof fn lemma_fold_results_pull_out(
    combine: spec_fn(i64, i64) -> i64,
    identity: i64,
    results: Seq<i64>,
    at: int,
)
    requires
        commutative(combine),
        associative(combine),
        0 <= at < results.len(),
    ensures
        fold_results(combine, identity, results) == combine(
            fold_results(combine, identity, results.remove(at)),
            results[at],
        ),
    decreases results.len(),
{
    if at == results.len() - 1 {
        assert(results.remove(at) =~= results.drop_last());
    } else {
        let shorter = results.drop_last();
        lemma_fold_results_pull_out(combine, identity, shorter, at);
        assert(results.remove(at).drop_last() =~= shorter.remove(at));
        assert(results.remove(at).last() == results.last());
    }
}

/// Reduction correctness: a commutative and associative combiner gives the
/// same fold for every arrival order of the same batch results, so the round's
/// output never depends on worker count or dispatch order.
pub proof fn lemma_fold_results_permutation(
    combine: spec_fn(i64, i64) -> i64,
    identity: i64,
    arrived: Seq<i64>,
    dispatched: Seq<i64>,
)
    requires
        commutative(combine),
        associative(combine),
        arrived.to_multiset() == dispatched.to_multiset(),
    ensures
        fold_results(combine, identity, arrived) == fold_results(combine, identity, dispatched),
    decreases arrived.len(),
{
    broadcast use vstd::seq_lib::group_to_multiset_ensures;

    arrived.to_multiset_ensures();
    dispatched.to_multiset_ensures();
    if arrived.len() == 0 {
        assert(dispatched.len() == 0);
    } else {
        let x = arrived.last();
        assert(arrived.to_multiset().count(x) > 0);
        assert(dispatched.to_multiset().count(x) > 0);
        assert(dispatched.contains(x));
        let at = choose|at: int| 0 <= at < dispatched.len() && dispatched[at] == x;
        assert(arrived.drop_last() =~= arrived.remove(arrived.len() - 1));
        lemma_fold_results_permutation(
            combine,
            identity,
            arrived.drop_last(),
            dispatched.remove(at),
        );
        lemma_fold_results_pull_out(combine, identity, dispatched, at);
    }
}

/// The summed fitness of a dataset is invariant under reordering of the
/// dataset: scoring is a fork-join round whose combiner, addition, is
/// commutative and associative.
pub proof fn lemma_total_score_permutation<I: Input, C: Candidate, S: Scorer<I>>(
    scorer: S,
    network: C,
    dataset: Seq<I>,
    reordered: Seq<I>,
)
    requires
        dataset.to_multiset() == reordered.to_multiset(),
    ensures
        total_score(scorer, network, dataset) == total_score(scorer, network, reordered),
    decreases dataset.len(),
{
    broadcast use vstd::seq_lib::group_to_multiset_ensures;

    dataset.to_multiset_ensures();
    reordered.to_multiset_ensures();
    if dataset.len() == 0 {
        assert(reordered.len() == 0);
    } else {
        let x = dataset.last();
        assert(dataset.to_multiset().count(x) > 0);
        assert(reordered.contains(x));
        let at = choose|at: int| 0 <= at < reordered.len() && reordered[at] == x;
        assert(dataset.drop_last() =~= dataset.remove(dataset.len() - 1));
        lemma_total_score_permutation(
            scorer,
            network,
            dataset.drop_last(),
            reordered.remove(at),
        );
        lemma_total_score_pull_out(scorer, network, reordered, at);
    }
}

/// Pulling one example out of a summed fitness.
pub proof fn lemma_total_score_pull_out<I: Input, C: Candidate, S: Scorer<I>>(
    scorer: S,
    network: C,
    dataset: Seq<I>,
    at: int,
)
    requires
        0 <= at < dataset.len(),
    ensures
        total_score(scorer, network, dataset) == total_score(scorer, network, dataset.remove(at))
            + example_score(scorer, network, dataset[at]),
    decreases dataset.len(),
{
    if at == dataset.len() - 1 {
        assert(dataset.remove(at) =~= dataset.drop_last());
    } else {
        let shorter = dataset.drop_last();
        lemma_total_score_pull_out(scorer, network, shorter, at);
        assert(dataset.remove(at).drop_last() =~= shorter.remove(at));
        assert(dataset.remove(at).last() == dataset.last());
    }
}

} // verus!
