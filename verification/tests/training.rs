use evotrain::neurons::Candidate;
use evotrain::parallel::{ForkJoinPool, SequentialPool};
use evotrain::trainer::{score_network, Input, Scorer, Trainer, TrainerError, FRESH_AGE};
use evotrain::NetworkDescription;
use rand::SeedableRng;

/// One labeled example: a feature vector and the output it should produce.
#[derive(Clone, Debug)]
struct TestInput {
    features: Vec<i64>,
    label: i64,
}

impl Input for TestInput {
    fn features(&self) -> Vec<i64> {
        Vec::new()
    }

    fn get_network_inputs(&self) -> &Vec<i64> {
        &self.features
    }
}

/// A one-parameter candidate: its output is its weight plus the first feature.
#[derive(Clone, Debug, PartialEq)]
struct TestCandidate {
    weight: i64,
}

impl Candidate for TestCandidate {
    fn apply_spec(&self, _features: Vec<i64>) -> Vec<i64> {
        Vec::new()
    }

    fn apply(&self, features: &Vec<i64>) -> Vec<i64> {
        vec![self.weight + features[0]]
    }

    fn mutated_spec(&self, _mutation_rate: i64, _randomness: u64) -> TestCandidate {
        TestCandidate { weight: 0 }
    }

    fn mutated(&self, mutation_rate: i64, randomness: u64) -> TestCandidate {
        TestCandidate { weight: self.weight + (randomness % 3) as i64 * mutation_rate }
    }

    fn initialize_spec(_description: NetworkDescription, _randomness: u64) -> TestCandidate {
        TestCandidate { weight: 0 }
    }

    fn initialize(_description: &NetworkDescription, randomness: u64) -> TestCandidate {
        TestCandidate { weight: (randomness % 10) as i64 }
    }

    fn duplicate(&self) -> TestCandidate {
        TestCandidate { weight: self.weight }
    }
}

/// Fitness: one thousand minus the distance from the label; higher is better.
#[derive(Clone, Debug)]
struct TestScorer;

impl Scorer<TestInput> for TestScorer {
    fn score_spec(&self, _input: TestInput, _outputs: Vec<i64>) -> i64 {
        0
    }

    fn score(&self, input: &TestInput, outputs: &Vec<i64>) -> i64 {
        1000 - (outputs[0] - input.label).abs()
    }
}

fn example(features: Vec<i64>, label: i64) -> TestInput {
    TestInput { features, label }
}

fn fitness_of(candidate: &TestCandidate, input: &TestInput) -> i64 {
    TestScorer.score(input, &candidate.apply(&input.features))
}

fn description() -> NetworkDescription {
    NetworkDescription { layer_sizes: vec![2, 3, 1] }
}

fn new_trainer(
    population_size: usize,
    inputs: Vec<TestInput>,
    seed: u64,
) -> Trainer<TestInput, TestCandidate, TestScorer> {
    let mut pool = SequentialPool::new();
    let mut rng = rand::rngs::StdRng::seed_from_u64(seed);
    Trainer::new(population_size, &description(), inputs, TestScorer, &mut pool, &mut rng)
        .expect("valid configuration")
}

fn dataset() -> Vec<TestInput> {
    vec![
        example(vec![1, 0], 4),
        example(vec![2, 5], 6),
        example(vec![-3, 1], 0),
        example(vec![0, 2], 3),
    ]
}

#[test]
fn empty_batch_returns_identity() {
    let mut pool = SequentialPool::new();
    let candidate = TestCandidate { weight: 7 };
    let batch: Vec<TestInput> = Vec::new();
    let folded = pool.exec_and_collect(&TestScorer, &candidate, &batch);
    assert_eq!(folded, 0);
}

#[test]
fn single_item_batch_returns_that_result() {
    let mut pool = SequentialPool::new();
    let candidate = TestCandidate { weight: 7 };
    let batch = vec![example(vec![1, 0], 4)];
    let folded = pool.exec_and_collect(&TestScorer, &candidate, &batch);
    // output 7 + 1 = 8, distance from 4 is 4, fitness 996
    assert_eq!(folded, 996);
}

#[test]
fn large_batch_equals_sequential_fold() {
    let mut pool = SequentialPool::new();
    let candidate = TestCandidate { weight: 2 };
    let mut batch = Vec::new();
    for k in 0i64..16i64 {
        batch.push(example(vec![k, -k], k / 2));
    }
    let mut expected: i128 = 0;
    for input in &batch {
        expected += fitness_of(&candidate, input) as i128;
    }
    let folded = pool.exec_and_collect(&TestScorer, &candidate, &batch);
    assert_eq!(folded, expected);
}

#[test]
fn reduction_is_invariant_under_batch_order() {
    let mut pool = SequentialPool::new();
    let candidate = TestCandidate { weight: -3 };
    let batch = dataset();
    let mut reversed = batch.clone();
    reversed.reverse();
    let forward = pool.exec_and_collect(&TestScorer, &candidate, &batch);
    let backward = pool.exec_and_collect(&TestScorer, &candidate, &reversed);
    assert_eq!(forward, backward);
}

#[test]
fn score_network_is_the_floored_mean() {
    let mut pool = SequentialPool::new();
    let candidate = TestCandidate { weight: 1 };
    // fitnesses: |2-4|=2 -> 998, |3-6|=3 -> 997: mean of 1995 is 997 (floor)
    let inputs = vec![example(vec![1, 0], 4), example(vec![2, 5], 6)];
    let mean = score_network(&TestScorer, &inputs, &candidate, &mut pool);
    assert_eq!(mean, 997);
}

#[test]
fn score_network_floors_negative_means_too() {
    let mut pool = SequentialPool::new();
    let candidate = TestCandidate { weight: 2000 };
    // fitnesses: 1000 - 2001 = -1001 and 1000 - 1998 = -998:
    // the sum is -1999 and the floored mean is -1000
    let inputs = vec![example(vec![1, 0], 0), example(vec![0, 0], 2)];
    let mean = score_network(&TestScorer, &inputs, &candidate, &mut pool);
    assert_eq!(mean, -1000);
}

#[test]
fn rejects_zero_population() {
    let mut pool = SequentialPool::new();
    let mut rng = rand::rngs::StdRng::seed_from_u64(1);
    let trainer: Result<Trainer<TestInput, TestCandidate, TestScorer>, TrainerError> =
        Trainer::new(0, &description(), dataset(), TestScorer, &mut pool, &mut rng);
    assert!(matches!(trainer, Err(TrainerError::InvalidConfiguration)));
}

#[test]
fn rejects_empty_dataset() {
    let mut pool = SequentialPool::new();
    let mut rng = rand::rngs::StdRng::seed_from_u64(1);
    let trainer: Result<Trainer<TestInput, TestCandidate, TestScorer>, TrainerError> =
        Trainer::new(4, &description(), Vec::new(), TestScorer, &mut pool, &mut rng);
    assert!(matches!(trainer, Err(TrainerError::InvalidConfiguration)));
}

#[test]
fn rejects_description_without_layers() {
    let mut pool = SequentialPool::new();
    let mut rng = rand::rngs::StdRng::seed_from_u64(1);
    let empty = NetworkDescription { layer_sizes: Vec::new() };
    let trainer: Result<Trainer<TestInput, TestCandidate, TestScorer>, TrainerError> =
        Trainer::new(4, &empty, dataset(), TestScorer, &mut pool, &mut rng);
    assert!(matches!(trainer, Err(TrainerError::InvalidConfiguration)));
}

#[test]
fn fresh_population_has_age_one_and_true_scores() {
    let trainer = new_trainer(6, dataset(), 7);
    assert_eq!(trainer.networks.len(), 6);
    let mut pool = SequentialPool::new();
    for member in &trainer.networks {
        assert_eq!(member.age, FRESH_AGE);
        let rescored = score_network(&TestScorer, &trainer.inputs, &member.network, &mut pool);
        assert_eq!(member.score, rescored);
    }
}

#[test]
fn population_size_invariant_across_generations() {
    // an odd population size exercises the generation whose last slot takes
    // only the aged parent
    let mut trainer = new_trainer(5, dataset(), 11);
    let mut pool = SequentialPool::new();
    let mut rng = rand::rngs::StdRng::seed_from_u64(2);
    for _ in 0..4 {
        trainer.train(1, 1, &mut pool, &mut rng);
        assert_eq!(trainer.networks.len(), 5);
    }
    trainer.train(1, 3, &mut pool, &mut rng);
    assert_eq!(trainer.networks.len(), 5);
}

#[test]
fn ages_grow_by_one_eighth_per_survived_generation() {
    let mut trainer = new_trainer(6, dataset(), 13);
    let mut pool = SequentialPool::new();
    let mut rng = rand::rngs::StdRng::seed_from_u64(3);
    trainer.train(1, 1, &mut pool, &mut rng);
    let mut survivors: usize = 0;
    for member in &trainer.networks {
        assert!(member.age == FRESH_AGE || member.age == FRESH_AGE + 1);
        if member.age == FRESH_AGE + 1 {
            survivors += 1;
        }
    }
    // six slots fill in three pops: three aged survivors, three fresh children
    assert_eq!(survivors, 3);
}

#[test]
fn scores_are_never_stale_after_training() {
    let mut trainer = new_trainer(4, dataset(), 17);
    let mut pool = SequentialPool::new();
    let mut rng = rand::rngs::StdRng::seed_from_u64(5);
    trainer.train(2, 3, &mut pool, &mut rng);
    for member in &trainer.networks {
        let rescored = score_network(&TestScorer, &trainer.inputs, &member.network, &mut pool);
        assert_eq!(member.score, rescored);
    }
}

#[test]
fn best_is_best_by_raw_score() {
    let mut trainer = new_trainer(7, dataset(), 19);
    let mut pool = SequentialPool::new();
    let mut rng = rand::rngs::StdRng::seed_from_u64(23);
    trainer.train(1, 2, &mut pool, &mut rng);
    let best = trainer.get_best();
    let mut found = false;
    for member in &trainer.networks {
        assert!(best.score >= member.score);
        if member.score == best.score && member.age == best.age
            && member.network == best.network {
            found = true;
        }
    }
    assert!(found);
}

#[test]
fn explicit_draws_replay_identically() {
    // a generation is a function of the population, the rate and the drawn
    // random words alone: replaying the same draws replays the generation
    let mut first = new_trainer(6, dataset(), 43);
    let mut second = new_trainer(6, dataset(), 43);
    let mut pool = SequentialPool::new();
    let draws = vec![9u64, 4u64, 7u64];
    first.next_generation(3, &draws, &mut pool);
    second.next_generation(3, &draws, &mut pool);
    for (a, b) in first.networks.iter().zip(second.networks.iter()) {
        assert_eq!(a.score, b.score);
        assert_eq!(a.age, b.age);
        assert_eq!(a.network, b.network);
    }
}

#[test]
fn population_of_one_only_ages() {
    // with a single slot there is never room for a child: the lone member is
    // popped and carried forward, one eighth older per generation
    let mut trainer = new_trainer(1, dataset(), 47);
    let lone = trainer.get_best();
    let mut pool = SequentialPool::new();
    let mut rng = rand::rngs::StdRng::seed_from_u64(53);
    trainer.train(1, 3, &mut pool, &mut rng);
    assert_eq!(trainer.networks.len(), 1);
    assert_eq!(trainer.networks[0].age, FRESH_AGE + 3);
    assert_eq!(trainer.networks[0].network, lone.network);
    assert_eq!(trainer.networks[0].score, lone.score);
}

#[test]
fn identical_seeds_reproduce_identical_runs() {
    let mut first = new_trainer(8, dataset(), 29);
    let mut second = new_trainer(8, dataset(), 29);
    let mut pool = SequentialPool::new();
    let mut rng_a = rand::rngs::StdRng::seed_from_u64(31);
    let mut rng_b = rand::rngs::StdRng::seed_from_u64(31);
    first.train(2, 5, &mut pool, &mut rng_a);
    second.train(2, 5, &mut pool, &mut rng_b);
    assert_eq!(first.get_best().score, second.get_best().score);
    assert_eq!(first.networks.len(), second.networks.len());
    for (a, b) in first.networks.iter().zip(second.networks.iter()) {
        assert_eq!(a.score, b.score);
        assert_eq!(a.age, b.age);
        assert_eq!(a.network, b.network);
    }
}

/// A candidate whose mutation always raises its weight by at least the rate.
#[derive(Clone, Debug, PartialEq)]
struct GrowingCandidate {
    weight: i64,
}

impl Candidate for GrowingCandidate {
    fn apply_spec(&self, _features: Vec<i64>) -> Vec<i64> {
        Vec::new()
    }

    fn apply(&self, features: &Vec<i64>) -> Vec<i64> {
        vec![self.weight + features[0]]
    }

    fn mutated_spec(&self, _mutation_rate: i64, _randomness: u64) -> GrowingCandidate {
        GrowingCandidate { weight: 0 }
    }

    fn mutated(&self, mutation_rate: i64, randomness: u64) -> GrowingCandidate {
        GrowingCandidate {
            weight: self.weight + (1 + (randomness % 3) as i64) * mutation_rate,
        }
    }

    fn initialize_spec(_description: NetworkDescription, _randomness: u64) -> GrowingCandidate {
        GrowingCandidate { weight: 0 }
    }

    fn initialize(_description: &NetworkDescription, randomness: u64) -> GrowingCandidate {
        GrowingCandidate { weight: (randomness % 10) as i64 }
    }

    fn duplicate(&self) -> GrowingCandidate {
        GrowingCandidate { weight: self.weight }
    }
}

/// Fitness is the candidate's first output itself: higher weights score
/// strictly better, so every mutated child outscores its parent.
#[derive(Clone, Debug)]
struct GrowthScorer;

impl Scorer<TestInput> for GrowthScorer {
    fn score_spec(&self, _input: TestInput, _outputs: Vec<i64>) -> i64 {
        0
    }

    fn score(&self, _input: &TestInput, outputs: &Vec<i64>) -> i64 {
        outputs[0]
    }
}

#[test]
fn end_to_end_training_does_not_regress_the_best() {
    // four examples of two features each, a population of eight, ten
    // generations: every mutation raises this candidate's fitness, so the
    // best score must never end below where it started
    let inputs = vec![
        example(vec![20, 1], 25),
        example(vec![21, 0], 26),
        example(vec![19, 2], 24),
        example(vec![22, 1], 27),
    ];
    let mut pool = SequentialPool::new();
    let mut rng = rand::rngs::StdRng::seed_from_u64(37);
    let mut trainer: Trainer<TestInput, GrowingCandidate, GrowthScorer> =
        Trainer::new(8, &description(), inputs, GrowthScorer, &mut pool, &mut rng)
            .expect("valid configuration");
    let initial_best = trainer.get_best().score;
    trainer.train(100, 10, &mut pool, &mut rng);
    let final_best = trainer.get_best().score;
    assert!(final_best >= initial_best);
}
