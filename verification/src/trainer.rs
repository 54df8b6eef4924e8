use vstd::prelude::*;

use crate::neurons::{Candidate, NetworkDescription};
use crate::parallel::ForkJoinPool;
use crate::random::draw_u64;

verus! {

/// One labeled example of the dataset. The trainer reads only its feature
/// vector; whatever else an example carries (its label, its raw text) is the
/// scorer's business.
pub trait Input: Sized {
    /// The feature vector of this example. An implementation outside verified
    /// code gives this specification twin a placeholder body.
    spec fn features(&self) -> Vec<i64>;

    /// Hand out the feature vector.
    fn get_network_inputs(&self) -> (features: &Vec<i64>)
        ensures
            *features == self.features(),
    ;
}

/// The fitness judge: turns one example and the outputs a candidate produced
/// on it into a fixed-point fitness value, higher is better.
pub trait Scorer<I: Input>: Sized {
    /// The fitness awarded to `outputs` on `input`. An implementation outside
    /// verified code gives this specification twin a placeholder body.
    spec fn score_spec(&self, input: I, outputs: Vec<i64>) -> i64;

    /// Judge one example.
    fn score(&self, input: &I, outputs: &Vec<i64>) -> (fitness: i64)
        ensures
            fitness == self.score_spec(*input, *outputs),
    ;
}

/// The fitness of `network` on the single example `input`.
pub open spec fn example_score<I: Input, C: Candidate, S: Scorer<I>>(
    scorer: S,
    network: C,
    input: I,
) -> i64 {
    scorer.score_spec(input, network.apply_spec(input.features()))
}

/// The summed fitness of `network` over a whole dataset, in example order.
pub open spec fn total_score<I: Input, C: Candidate, S: Scorer<I>>(
    scorer: S,
    network: C,
    dataset: Seq<I>,
) -> int
    decreases dataset.len(),
{
    if dataset.len() == 0 {
        0
    } else {
        total_score(scorer, network, dataset.drop_last()) + example_score(
            scorer,
            network,
            dataset.last(),
        )
    }
}

/// The mean fitness of `network` over a non-empty dataset, rounded down.
pub open spec fn mean_score<I: Input, C: Candidate, S: Scorer<I>>(
    scorer: S,
    network: C,
    dataset: Seq<I>,
) -> int {
    total_score(scorer, network, dataset) / (dataset.len() as int)
}

/// Every per-example fitness is an `i64`, so a dataset's summed fitness is
/// bounded by its length times the extreme `i64` values.
pub proof fn lemma_total_score_bounds<I: Input, C: Candidate, S: Scorer<I>>(
    scorer: S,
    network: C,
    dataset: Seq<I>,
)
    ensures
        -(dataset.len() as int) * 0x8000_0000_0000_0000 <= total_score(scorer, network, dataset),
        total_score(scorer, network, dataset) <= (dataset.len() as int) * 0x7fff_ffff_ffff_ffff,
    decreases dataset.len(),
{
    if dataset.len() > 0 {
        lemma_total_score_bounds(scorer, network, dataset.drop_last());
    }
}

/// Floor of `total / n`, computed with unsigned division on either side of
/// zero. The bounds say that `total` is a sum of at most `n` values of `i64`,
/// which puts the mean back into `i64`.
fn mean_of_total(total: i128, n: usize) -> (mean: i64)
    requires
        n > 0,
        -(n as int) * 0x8000_0000_0000_0000 <= total,
        total <= (n as int) * 0x7fff_ffff_ffff_ffff,
    ensures
        mean == total as int / n as int,
{
    if total >= 0 {
        let q = (total as u128) / (n as u128);
        proof {
            vstd::arithmetic::div_mod::lemma_div_is_ordered(
                total as int,
                (n as int) * 0x7fff_ffff_ffff_ffff,
                n as int,
            );
            vstd::arithmetic::div_mod::lemma_div_multiples_vanish(0x7fff_ffff_ffff_ffff, n as int);
        }
        q as i64
    } else {
        let p = (-total) as u128;
        let q = (p + (n as u128) - 1) / (n as u128);
        proof {
            broadcast use vstd::arithmetic::mul::group_mul_is_commutative_and_distributive;

            let pi = p as int;
            let ni = n as int;
            vstd::arithmetic::div_mod::lemma_fundamental_div_mod(pi, ni);
            let q0 = pi / ni;
            let r = pi % ni;
            vstd::arithmetic::div_mod::lemma_div_pos_is_pos(pi, ni);
            if r == 0 {
                vstd::arithmetic::div_mod::lemma_fundamental_div_mod_converse(
                    pi + ni - 1,
                    ni,
                    q0,
                    ni - 1,
                );
                vstd::arithmetic::div_mod::lemma_fundamental_div_mod_converse(-pi, ni, -q0, 0);
            } else {
                vstd::arithmetic::div_mod::lemma_fundamental_div_mod_converse(
                    pi + ni - 1,
                    ni,
                    q0 + 1,
                    r - 1,
                );
                vstd::arithmetic::div_mod::lemma_fundamental_div_mod_converse(
                    -pi,
                    ni,
                    -q0 - 1,
                    ni - r,
                );
            }
            // the ceiling of p / n is at most 2^63, so the result fits i64
            vstd::arithmetic::div_mod::lemma_div_is_ordered(
                pi + ni - 1,
                ni * 0x8000_0000_0000_0000 + ni - 1,
                ni,
            );
            vstd::arithmetic::div_mod::lemma_fundamental_div_mod_converse(
                ni * 0x8000_0000_0000_0000 + ni - 1,
                ni,
                0x8000_0000_0000_0000,
                ni - 1,
            );
        }
        (-(q as i128)) as i64
    }
}

/// A candidate's age of one, in the eighths this library stores ages in.
pub const FRESH_AGE: u64 = 8;

/// A candidate bound to its fitness score and an age counter.
///
/// The age is kept in eighths: a freshly scored candidate starts at
/// `FRESH_AGE` (an age of one), and every generation survived adds one more
/// eighth. The score is the candidate's mean fitness over the trainer's
/// dataset at the moment it was scored; a survivor carries its score forward
/// unchanged while its age grows.
pub struct ScoredNetwork<C> {
    pub score: i64,
    pub network: C,
    pub age: u64,
}

impl<C> ScoredNetwork<C> {
    /// Ages run from a fresh candidate's age of one upward.
    pub open spec fn wf(self) -> bool {
        self.age >= FRESH_AGE
    }

    /// Replacement priority: the age-discounted score `score / age`, compared
    /// by cross-multiplication (ages are positive). This comparator decides
    /// which member a generation pops next; it deliberately differs from the
    /// raw-score comparator that `get_best` uses.
    pub open spec fn priority_ge(self, other: Self) -> bool {
        self.score * other.age >= other.score * self.age
    }

    pub open spec fn priority_gt(self, other: Self) -> bool {
        self.score * other.age > other.score * self.age
    }

    /// This member after surviving one more generation: the same candidate and
    /// score, one more eighth of age. The age saturates at the machine bound
    /// rather than wrap.
    pub open spec fn aged_spec(self) -> Self {
        ScoredNetwork {
            score: self.score,
            network: self.network,
            age: if self.age == u64::MAX {
                u64::MAX
            } else {
                (self.age + 1) as u64
            },
        }
    }

    /// Survive one generation.
    pub fn aged(self) -> (survivor: Self)
        ensures
            survivor == self.aged_spec(),
    {
        if self.age == u64::MAX {
            self
        } else {
            ScoredNetwork { score: self.score, network: self.network, age: self.age + 1 }
        }
    }

    /// Whether this member's replacement priority is strictly above the
    /// other's.
    pub fn priority_above(&self, other: &Self) -> (above: bool)
        ensures
            above == self.priority_gt(*other),
    {
        proof {
            lemma_cross_product_bounds(self.score, other.age);
            lemma_cross_product_bounds(other.score, self.age);
        }
        (self.score as i128) * (other.age as i128) > (other.score as i128) * (self.age as i128)
    }
}

/// The product of a score and an age stays well inside `i128`.
proof fn lemma_cross_product_bounds(score: i64, age: u64)
    ensures
        -0x8000_0000_0000_0000 * 0xffff_ffff_ffff_ffff <= score * age,
        score * age <= 0x7fff_ffff_ffff_ffff * 0xffff_ffff_ffff_ffff,
{
    assert(-0x8000_0000_0000_0000 * 0xffff_ffff_ffff_ffff <= score * age
        <= 0x7fff_ffff_ffff_ffff * 0xffff_ffff_ffff_ffff) by (nonlinear_arith)
        requires
            -0x8000_0000_0000_0000 <= score <= 0x7fff_ffff_ffff_ffff,
            0 <= age <= 0xffff_ffff_ffff_ffff,
    ;
}

/// Replacement priority is transitive over members of positive age.
proof fn lemma_priority_trans<C>(a: ScoredNetwork<C>, b: ScoredNetwork<C>, c: ScoredNetwork<C>)
    requires
        a.age >= 1,
        b.age >= 1,
        c.age >= 1,
        a.priority_ge(b),
        b.priority_ge(c),
    ensures
        a.priority_ge(c),
{
    assert(a.score * c.age >= c.score * a.age) by (nonlinear_arith)
        requires
            a.age >= 1,
            b.age >= 1,
            c.age >= 1,
            a.score * b.age >= b.score * a.age,
            b.score * c.age >= c.score * b.age,
    ;
}

/// The position a pop takes from the population: the first member of highest
/// replacement priority.
pub open spec fn pick_best<C>(population: Seq<ScoredNetwork<C>>) -> int
    decreases population.len(),
{
    if population.len() <= 1 {
        0
    } else {
        let rest = pick_best(population.drop_last());
        if population.last().priority_gt(population[rest]) {
            population.len() - 1
        } else {
            rest
        }
    }
}

pub proof fn lemma_pick_best_in_range<C>(population: Seq<ScoredNetwork<C>>)
    requires
        population.len() > 0,
    ensures
        0 <= pick_best(population) < population.len(),
    decreases population.len(),
{
    if population.len() > 1 {
        lemma_pick_best_in_range(population.drop_last());
    }
}

/// The picked member's replacement priority is at least every member's.
pub proof fn lemma_pick_best_is_max<C>(population: Seq<ScoredNetwork<C>>)
    requires
        population.len() > 0,
        forall|k: int| 0 <= k < population.len() ==> (#[trigger] population[k]).age >= 1,
    ensures
        0 <= pick_best(population) < population.len(),
        forall|k: int|
            0 <= k < population.len() ==> population[pick_best(population)].priority_ge(
                #[trigger] population[k],
            ),
    decreases population.len(),
{
    lemma_pick_best_in_range(population);
    if population.len() > 1 {
        let shorter = population.drop_last();
        assert(forall|j: int| 0 <= j < shorter.len() ==> shorter[j] == #[trigger] population[j]);
        lemma_pick_best_is_max(shorter);
        let rest = pick_best(shorter);
        assert(forall|k: int|
            0 <= k < shorter.len() ==> population[rest].priority_ge(#[trigger] population[k]));
        let last = population.last();
        if last.priority_gt(population[rest]) {
            assert forall|k: int| 0 <= k < population.len() implies last.priority_ge(
                #[trigger] population[k],
            ) by {
                if k < population.len() - 1 {
                    lemma_priority_trans(last, population[rest], population[k]);
                }
            }
        } else {
            assert forall|k: int| 0 <= k < population.len() implies population[rest].priority_ge(
                #[trigger] population[k],
            ) by {
                if k == population.len() - 1 {
                    assert(population[rest].priority_ge(last));
                }
            }
        }
    }
}

/// Remove and return the member of highest replacement priority, the first
/// such member when several tie.
fn pop_best<C>(population: &mut Vec<ScoredNetwork<C>>) -> (best: ScoredNetwork<C>)
    requires
        old(population)@.len() > 0,
        forall|k: int|
            0 <= k < old(population)@.len() ==> (#[trigger] old(population)@[k]).age >= 1,
    ensures
        best == old(population)@[pick_best(old(population)@)],
        final(population)@ == old(population)@.remove(pick_best(old(population)@)),
        forall|k: int|
            0 <= k < old(population)@.len() ==> best.priority_ge(#[trigger] old(population)@[k]),
{
    let mut at: usize = 0;
    let mut i: usize = 1;
    while i < population.len()
        invariant
            population@ == old(population)@,
            1 <= i <= population@.len(),
            0 <= at < i,
            at == pick_best(population@.take(i as int)),
        decreases population@.len() - i,
    {
        proof {
            assert(population@.take(i + 1).drop_last() =~= population@.take(i as int));
            assert(population@.take(i + 1).last() == population@[i as int]);
            lemma_pick_best_in_range(population@.take(i as int));
            assert(forall|j: int|
                0 <= j < i ==> population@.take(i as int)[j] == population@[j]);
        }
        if population[i].priority_above(&population[at]) {
            at = i;
        }
        i = i + 1;
    }
    proof {
        assert(population@.take(population@.len() as int) =~= population@);
        lemma_pick_best_is_max(population@);
    }
    population.remove(at)
}

/// Mean fitness of `network` over the dataset: one fork-join round sums the
/// per-example fitness, and the sum is divided by the number of examples.
/// Exposed standalone so a held-out test set can be scored against a trained
/// candidate.
pub fn score_network<I: Input, C: Candidate, S: Scorer<I>, P: ForkJoinPool<I, C, S>>(
    scorer: &S,
    inputs: &Vec<I>,
    network: &C,
    pool: &mut P,
) -> (mean: i64)
    requires
        inputs@.len() > 0,
    ensures
        mean == mean_score(*scorer, *network, inputs@),
{
    let total = pool.exec_and_collect(scorer, network, inputs);
    proof {
        lemma_total_score_bounds(*scorer, *network, inputs@);
    }
    mean_of_total(total, inputs.len())
}

impl<C: Candidate> ScoredNetwork<C> {
    /// Score a candidate fresh against the whole dataset and bind it to an
    /// age of one.
    pub fn new<I: Input, S: Scorer<I>, P: ForkJoinPool<I, C, S>>(
        network: C,
        inputs: &Vec<I>,
        scorer: &S,
        thread_pool: &mut P,
    ) -> (scored: Self)
        requires
            inputs@.len() > 0,
        ensures
            scored.network == network,
            scored.age == FRESH_AGE,
            scored.score == mean_score(*scorer, network, inputs@),
    {
        let score = score_network(scorer, inputs, &network, thread_pool);
        ScoredNetwork { score, network, age: FRESH_AGE }
    }
}

/// The one way training can be refused: a configuration with nothing to
/// evolve — an empty population, an empty dataset, or a description with no
/// layers.
#[derive(Clone, Copy, Debug, PartialEq, Eq, Structural)]
pub enum TrainerError {
    InvalidConfiguration,
}

/// The fresh member that one popped parent contributes to the next
/// generation: its candidate mutated under the given random word, scored
/// against the dataset, at an age of one.
pub open spec fn scored_child_of<I: Input, C: Candidate, S: Scorer<I>>(
    parent: ScoredNetwork<C>,
    mutation_rate: i64,
    randomness: u64,
    scorer: S,
    dataset: Seq<I>,
) -> ScoredNetwork<C> {
    let network = parent.network.mutated_spec(mutation_rate, randomness);
    ScoredNetwork {
        score: mean_score(scorer, network, dataset) as i64,
        network,
        age: FRESH_AGE,
    }
}

/// One generation, built pop by pop: while the next generation is short of
/// `population_size`, the member of highest replacement priority leaves the
/// current population and re-enters the next one a generation older, followed
/// by its freshly scored mutated child when a slot is left for it. Each child
/// consumes one word of `draws`, starting at position `drawn`.
pub open spec fn build_generation<I: Input, C: Candidate, S: Scorer<I>>(
    current: Seq<ScoredNetwork<C>>,
    next: Seq<ScoredNetwork<C>>,
    population_size: nat,
    mutation_rate: i64,
    draws: Seq<u64>,
    drawn: nat,
    scorer: S,
    dataset: Seq<I>,
) -> Seq<ScoredNetwork<C>>
    decreases population_size - next.len(),
{
    if next.len() >= population_size || current.len() == 0 {
        next
    } else {
        let at = pick_best(current);
        let survivor = current[at].aged_spec();
        if next.len() + 1 < population_size {
            let child = scored_child_of(
                current[at],
                mutation_rate,
                draws[drawn as int],
                scorer,
                dataset,
            );
            build_generation(
                current.remove(at),
                next.push(survivor).push(child),
                population_size,
                mutation_rate,
                draws,
                drawn + 1,
                scorer,
                dataset,
            )
        } else {
            build_generation(
                current.remove(at),
                next.push(survivor),
                population_size,
                mutation_rate,
                draws,
                drawn,
                scorer,
                dataset,
            )
        }
    }
}

/// Every member's candidate came out of `Candidate::initialize` for the given
/// description, under some random word.
pub open spec fn all_initialized<C: Candidate>(
    members: Seq<ScoredNetwork<C>>,
    description: NetworkDescription,
) -> bool {
    forall|k: int|
        0 <= k < members.len() ==> exists|r: u64|
            (#[trigger] members[k]).network == C::initialize_spec(description, r)
}

/// Every member of `members` occurs in `of`.
pub open spec fn members_among<C>(
    members: Seq<ScoredNetwork<C>>,
    of: Seq<ScoredNetwork<C>>,
) -> bool {
    forall|k: int| 0 <= k < members.len() ==> of.contains(#[trigger] members[k])
}

/// `member` is one of `ancestors` carried forward one generation older.
pub open spec fn aged_member_of<C>(
    member: ScoredNetwork<C>,
    ancestors: Seq<ScoredNetwork<C>>,
) -> bool {
    exists|j: int| 0 <= j < ancestors.len() && member == (#[trigger] ancestors[j]).aged_spec()
}

/// Age monotonicity: every member of `members` is either freshly scored, at
/// an age of exactly one, or is a member of `ancestors` carried forward one
/// generation older. No age ever goes down.
pub open spec fn fresh_or_aged_from<C>(
    members: Seq<ScoredNetwork<C>>,
    ancestors: Seq<ScoredNetwork<C>>,
) -> bool {
    forall|k: int|
        0 <= k < members.len() ==> ((#[trigger] members[k]).age == FRESH_AGE || aged_member_of(
            members[k],
            ancestors,
        ))
}

/// The evolutionary trainer: a population of scored candidates, the dataset
/// they are scored against, and the scorer that judges them. The population
/// always holds exactly `population_size` members, every one carrying the
/// score of its own candidate against this very dataset — never a stale one.
pub struct Trainer<I, C, S> {
    pub networks: Vec<ScoredNetwork<C>>,
    pub population_size: usize,
    pub inputs: Vec<I>,
    pub scorer: S,
}

impl<I: Input, C: Candidate, S: Scorer<I>> Trainer<I, C, S> {
    /// The trainer's invariant, established at construction and kept by every
    /// generation.
    pub open spec fn wf(self) -> bool {
        &&& self.population_size >= 1
        &&& self.inputs@.len() >= 1
        &&& self.networks@.len() == self.population_size
        &&& forall|k: int| 0 <= k < self.networks@.len() ==> (#[trigger] self.networks@[k]).wf()
        &&& forall|k: int|
            0 <= k < self.networks@.len() ==> (#[trigger] self.networks@[k]).score == mean_score(
                self.scorer,
                self.networks@[k].network,
                self.inputs@,
            )
    }

    /// Build a population of `population_size` randomly initialized
    /// candidates, each scored fresh against the dataset at an age of one.
    /// A population of zero, an empty dataset or a description without layers
    /// is refused, and only those are.
    pub fn new<P: ForkJoinPool<I, C, S>>(
        population_size: usize,
        network_description: &NetworkDescription,
        inputs: Vec<I>,
        scorer: S,
        thread_pool: &mut P,
        rng: &mut rand::rngs::StdRng,
    ) -> (trainer: Result<Self, TrainerError>)
        ensures
            (match trainer {
                Result::Ok(t) => {
                    &&& population_size >= 1
                    &&& inputs@.len() >= 1
                    &&& network_description.wf()
                    &&& t.wf()
                    &&& t.population_size == population_size
                    &&& t.inputs == inputs
                    &&& t.scorer == scorer
                    &&& forall|k: int|
                        0 <= k < t.networks@.len() ==> (#[trigger] t.networks@[k]).age
                            == FRESH_AGE
                    &&& all_initialized(t.networks@, *network_description)
                },
                Result::Err(e) => {
                    &&& e == TrainerError::InvalidConfiguration
                    &&& (population_size == 0 || inputs@.len() == 0
                        || !network_description.wf())
                },
            }),
    {
        if population_size == 0 || inputs.len() == 0 || network_description.layer_sizes.len()
            == 0 {
            return Result::Err(TrainerError::InvalidConfiguration);
        }
        let mut networks: Vec<ScoredNetwork<C>> = Vec::new();
        let mut i: usize = 0;
        while i < population_size
            invariant
                i <= population_size,
                networks@.len() == i,
                inputs@.len() >= 1,
                network_description.wf(),
                forall|k: int| 0 <= k < i ==> (#[trigger] networks@[k]).age == FRESH_AGE,
                forall|k: int|
                    0 <= k < i ==> (#[trigger] networks@[k]).score == mean_score(
                        scorer,
                        networks@[k].network,
                        inputs@,
                    ),
                all_initialized(networks@, *network_description),
            decreases population_size - i,
        {
            let r = draw_u64(rng);
            let network = C::initialize(network_description, r);
            let scored = ScoredNetwork::new(network, &inputs, &scorer, thread_pool);
            networks.push(scored);
            i = i + 1;
        }
        Result::Ok(Trainer { networks, population_size, inputs, scorer })
    }

    /// A copy of the population member of highest raw score — deliberately
    /// the undiscounted fitness, not the `score / age` replacement priority
    /// that orders pops.
    pub fn get_best(&self) -> (best: ScoredNetwork<C>)
        requires
            self.wf(),
        ensures
            exists|k: int| 0 <= k < self.networks@.len() && best == self.networks@[k],
            forall|k: int|
                0 <= k < self.networks@.len() ==> best.score >= (#[trigger] self.networks@[k]).score,
    {
        let mut at: usize = 0;
        let mut i: usize = 1;
        while i < self.networks.len()
            invariant
                self.networks@.len() >= 1,
                1 <= i <= self.networks@.len(),
                0 <= at < i,
                forall|k: int|
                    0 <= k < i ==> self.networks@[at as int].score
                        >= (#[trigger] self.networks@[k]).score,
            decreases self.networks@.len() - i,
        {
            if self.networks[i].score > self.networks[at].score {
                at = i;
            }
            i = i + 1;
        }
        let member = &self.networks[at];
        ScoredNetwork { score: member.score, network: member.network.duplicate(), age: member.age }
    }

    /// Replace the population with the next generation, exactly as
    /// `build_generation` describes: pop by replacement priority, carry every
    /// popped parent forward one generation older, and follow each one with
    /// its freshly scored mutated child while a slot is left for it. One
    /// random word of `draws` feeds each child's mutation, so the new
    /// population is a function of the old one, the rate and the draws alone.
    pub fn next_generation<P: ForkJoinPool<I, C, S>>(
        &mut self,
        mutation_rate: i64,
        draws: &Vec<u64>,
        thread_pool: &mut P,
    )
        requires
            old(self).wf(),
            mutation_rate >= 0,
            draws@.len() >= old(self).population_size / 2,
        ensures
            final(self).wf(),
            final(self).population_size == old(self).population_size,
            final(self).inputs == old(self).inputs,
            final(self).scorer == old(self).scorer,
            final(self).networks@ == build_generation(
                old(self).networks@,
                Seq::<ScoredNetwork<C>>::empty(),
                old(self).population_size as nat,
                mutation_rate,
                draws@,
                0,
                old(self).scorer,
                old(self).inputs@,
            ),
            fresh_or_aged_from(final(self).networks@, old(self).networks@),
    {
        let ghost orig = old(self).networks@;
        let ghost psize = old(self).population_size as nat;
        let mut next: Vec<ScoredNetwork<C>> = Vec::new();
        let mut drawn: usize = 0;
        proof {
            assert forall|k: int| 0 <= k < self.networks@.len() implies orig.contains(
                #[trigger] self.networks@[k],
            ) by {
                assert(self.networks@[k] == orig[k]);
                assert(orig.contains(orig[k]));
            }
        }
        while next.len() < self.population_size
            invariant
                self.population_size == old(self).population_size,
                self.inputs == old(self).inputs,
                self.scorer == old(self).scorer,
                self.population_size >= 1,
                self.inputs@.len() >= 1,
                mutation_rate >= 0,
                draws@.len() >= self.population_size / 2,
                psize == self.population_size as nat,
                next@.len() <= self.population_size,
                2 * self.networks@.len() + next@.len() >= self.population_size,
                2 * drawn <= next@.len(),
                forall|k: int|
                    0 <= k < self.networks@.len() ==> (#[trigger] self.networks@[k]).wf(),
                forall|k: int|
                    0 <= k < self.networks@.len() ==> (#[trigger] self.networks@[k]).score
                        == mean_score(self.scorer, self.networks@[k].network, self.inputs@),
                members_among(self.networks@, orig),
                forall|k: int| 0 <= k < next@.len() ==> (#[trigger] next@[k]).wf(),
                forall|k: int|
                    0 <= k < next@.len() ==> (#[trigger] next@[k]).score == mean_score(
                        self.scorer,
                        next@[k].network,
                        self.inputs@,
                    ),
                fresh_or_aged_from(next@, orig),
                build_generation(
                    self.networks@,
                    next@,
                    psize,
                    mutation_rate,
                    draws@,
                    drawn as nat,
                    self.scorer,
                    self.inputs@,
                ) == build_generation(
                    orig,
                    Seq::<ScoredNetwork<C>>::empty(),
                    psize,
                    mutation_rate,
                    draws@,
                    0,
                    self.scorer,
                    self.inputs@,
                ),
            decreases self.population_size - next.len(),
        {
            let ghost cur = self.networks@;
            let ghost acc = next@;
            let ghost at = pick_best(cur);
            proof {
                assert(cur.len() > 0);
                lemma_pick_best_in_range(cur);
                cur.remove_ensures(at);
            }
            let parent = pop_best(&mut self.networks);
            proof {
                assert forall|k: int| 0 <= k < self.networks@.len() implies orig.contains(
                    #[trigger] self.networks@[k],
                ) by {
                    let idx = if k < at {
                        k
                    } else {
                        k + 1
                    };
                    assert(self.networks@[k] == cur[idx]);
                    assert(orig.contains(cur[idx]));
                }
                assert(orig.contains(parent));
            }
            if next.len() + 1 < self.population_size {
                let r = draws[drawn];
                let child_network = parent.network.mutated(mutation_rate, r);
                let child = ScoredNetwork::new(child_network, &self.inputs, &self.scorer, thread_pool);
                let survivor = parent.aged();
                next.push(survivor);
                next.push(child);
                drawn = drawn + 1;
                proof {
                    let ghost j0 = choose|j: int| 0 <= j < orig.len() && orig[j] == parent;
                    assert(survivor == orig[j0].aged_spec());
                    assert(aged_member_of(survivor, orig));
                    assert(child == scored_child_of(
                        parent,
                        mutation_rate,
                        draws@[(drawn - 1) as int],
                        self.scorer,
                        self.inputs@,
                    ));
                    assert(next@ == acc.push(survivor).push(child));
                    assert(build_generation(
                        cur,
                        acc,
                        psize,
                        mutation_rate,
                        draws@,
                        (drawn - 1) as nat,
                        self.scorer,
                        self.inputs@,
                    ) == build_generation(
                        self.networks@,
                        next@,
                        psize,
                        mutation_rate,
                        draws@,
                        drawn as nat,
                        self.scorer,
                        self.inputs@,
                    ));
                }
            } else {
                let survivor = parent.aged();
                next.push(survivor);
                proof {
                    let ghost j0 = choose|j: int| 0 <= j < orig.len() && orig[j] == parent;
                    assert(survivor == orig[j0].aged_spec());
                    assert(aged_member_of(survivor, orig));
                    assert(next@ == acc.push(survivor));
                    assert(build_generation(
                        cur,
                        acc,
                        psize,
                        mutation_rate,
                        draws@,
                        drawn as nat,
                        self.scorer,
                        self.inputs@,
                    ) == build_generation(
                        self.networks@,
                        next@,
                        psize,
                        mutation_rate,
                        draws@,
                        drawn as nat,
                        self.scorer,
                        self.inputs@,
                    ));
                }
            }
        }
        self.networks = next;
    }

    /// Run `iterations` generations, drawing each generation's random words
    /// from the given source. Each generation replaces the population exactly
    /// as `next_generation` does; the population keeps exactly
    /// `population_size` members, and the dataset, the scorer and the
    /// population size never change.
    pub fn train<P: ForkJoinPool<I, C, S>>(
        &mut self,
        mutation_rate: i64,
        iterations: usize,
        thread_pool: &mut P,
        rng: &mut rand::rngs::StdRng,
    )
        requires
            old(self).wf(),
            mutation_rate >= 0,
        ensures
            final(self).wf(),
            final(self).population_size == old(self).population_size,
            final(self).inputs == old(self).inputs,
            final(self).scorer == old(self).scorer,
            final(self).networks@.len() == final(self).population_size,
            evolves(
                old(self).networks@,
                final(self).networks@,
                iterations as nat,
                old(self).population_size as nat,
                mutation_rate,
                old(self).scorer,
                old(self).inputs@,
            ),
    {
        let mut it: usize = 0;
        while it < iterations
            invariant
                self.wf(),
                self.population_size == old(self).population_size,
                self.inputs == old(self).inputs,
                self.scorer == old(self).scorer,
                mutation_rate >= 0,
                it <= iterations,
                evolves(
                    old(self).networks@,
                    self.networks@,
                    it as nat,
                    old(self).population_size as nat,
                    mutation_rate,
                    old(self).scorer,
                    old(self).inputs@,
                ),
            decreases iterations - it,
        {
            let half = self.population_size / 2;
            let mut draws: Vec<u64> = Vec::new();
            let mut j: usize = 0;
            while j < half
                invariant
                    j <= half,
                    draws@.len() == j,
                decreases half - j,
            {
                draws.push(draw_u64(rng));
                j = j + 1;
            }
            let ghost mid = self.networks@;
            self.next_generation(mutation_rate, &draws, thread_pool);
            proof {
                assert(evolves(
                    old(self).networks@,
                    self.networks@,
                    (it + 1) as nat,
                    old(self).population_size as nat,
                    mutation_rate,
                    old(self).scorer,
                    old(self).inputs@,
                )) by {
                    assert(evolves(
                        old(self).networks@,
                        mid,
                        it as nat,
                        old(self).population_size as nat,
                        mutation_rate,
                        old(self).scorer,
                        old(self).inputs@,
                    ) && draws@.len() == old(self).population_size as nat / 2 && self.networks@
                        == build_generation(
                        mid,
                        Seq::<ScoredNetwork<C>>::empty(),
                        old(self).population_size as nat,
                        mutation_rate,
                        draws@,
                        0,
                        old(self).scorer,
                        old(self).inputs@,
                    ));
                }
            }
            it = it + 1;
        }
    }
}

/// Population size invariant: a generation built from enough members — the
/// current population can fill the remaining slots at two per pop — comes out
/// with exactly `population_size` members, never more and never less. A
/// trainer's own generations always start from `next` empty and a full
/// current population.
pub proof fn lemma_generation_size<I: Input, C: Candidate, S: Scorer<I>>(
    current: Seq<ScoredNetwork<C>>,
    next: Seq<ScoredNetwork<C>>,
    population_size: nat,
    mutation_rate: i64,
    draws: Seq<u64>,
    drawn: nat,
    scorer: S,
    dataset: Seq<I>,
)
    requires
        next.len() <= population_size,
        2 * current.len() + next.len() >= population_size,
    ensures
        build_generation(
            current,
            next,
            population_size,
            mutation_rate,
            draws,
            drawn,
            scorer,
            dataset,
        ).len() == population_size,
    decreases population_size - next.len(),
{
    if next.len() >= population_size || current.len() == 0 {
        // with no member left to pop, the slots must already be full
    } else {
        let at = pick_best(current);
        lemma_pick_best_in_range(current);
        current.remove_ensures(at);
        let survivor = current[at].aged_spec();
        if next.len() + 1 < population_size {
            let child = scored_child_of(
                current[at],
                mutation_rate,
                draws[drawn as int],
                scorer,
                dataset,
            );
            lemma_generation_size(
                current.remove(at),
                next.push(survivor).push(child),
                population_size,
                mutation_rate,
                draws,
                drawn + 1,
                scorer,
                dataset,
            );
        } else {
            lemma_generation_size(
                current.remove(at),
                next.push(survivor),
                population_size,
                mutation_rate,
                draws,
                drawn,
                scorer,
                dataset,
            );
        }
    }
}

/// Ages only ever grow: surviving a generation never lowers an age, and below
/// the machine bound it adds exactly one eighth, while the member's candidate
/// and score are carried forward unchanged.
pub proof fn lemma_age_monotonicity<C>(member: ScoredNetwork<C>)
    ensures
        member.aged_spec().age >= member.age,
        member.age < u64::MAX ==> member.aged_spec().age == member.age + 1,
        member.aged_spec().score == member.score,
        member.aged_spec().network == member.network,
{
}

/// The populations reachable from `from` in exactly `generations` generations:
/// each step is `build_generation` under some sequence of random words, one
/// word per child.
pub open spec fn evolves<I: Input, C: Candidate, S: Scorer<I>>(
    from: Seq<ScoredNetwork<C>>,
    to: Seq<ScoredNetwork<C>>,
    generations: nat,
    population_size: nat,
    mutation_rate: i64,
    scorer: S,
    dataset: Seq<I>,
) -> bool
    decreases generations,
{
    if generations == 0 {
        to == from
    } else {
        exists|mid: Seq<ScoredNetwork<C>>, draws: Seq<u64>|
            evolves(
                from,
                mid,
                (generations - 1) as nat,
                population_size,
                mutation_rate,
                scorer,
                dataset,
            ) && draws.len() == population_size / 2 && to == build_generation(
                mid,
                Seq::<ScoredNetwork<C>>::empty(),
                population_size,
                mutation_rate,
                draws,
                0,
                scorer,
                dataset,
            )
    }
}

} // verus!
