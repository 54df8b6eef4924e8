use vstd::prelude::*;

verus! {

/// Structural description of a candidate network: the width of each layer,
/// from the input layer to the output layer.
pub struct NetworkDescription {
    pub layer_sizes: Vec<usize>,
}

impl NetworkDescription {
    /// A description is usable only when it names at least one layer.
    pub open spec fn wf(&self) -> bool {
        self.layer_sizes@.len() > 0
    }
}

/// The candidate model under evolutionary search. The trainer treats a
/// candidate as an opaque value with three pure operations: feed a feature
/// vector forward, derive a mutated child, and build a fresh randomized
/// candidate from a structural description.
///
/// Every operation is deterministic in its arguments; randomness enters only
/// through the explicitly passed `randomness` word, so a run can be replayed
/// by replaying the random words. Each executable operation returns exactly
/// what its specification twin names; an implementation outside verified code
/// gives the twin a placeholder body, and is trusted to be a pure function of
/// the arguments.
pub trait Candidate: Sized {
    /// The outputs this candidate produces on the given feature vector.
    spec fn apply_spec(&self, features: Vec<i64>) -> Vec<i64>;

    /// Feed the feature vector forward through the candidate.
    fn apply(&self, features: &Vec<i64>) -> (outputs: Vec<i64>)
        ensures
            outputs == self.apply_spec(*features),
    ;

    /// The child obtained by perturbing this candidate.
    spec fn mutated_spec(&self, mutation_rate: i64, randomness: u64) -> Self;

    /// Derive a child by a small perturbation proportional to `mutation_rate`,
    /// driven by the given random word.
    fn mutated(&self, mutation_rate: i64, randomness: u64) -> (child: Self)
        requires
            mutation_rate >= 0,
        ensures
            child == self.mutated_spec(mutation_rate, randomness),
    ;

    /// The fresh candidate built for the given description and random word.
    spec fn initialize_spec(description: NetworkDescription, randomness: u64) -> Self;

    /// Build a randomly parameterized candidate matching the description.
    fn initialize(description: &NetworkDescription, randomness: u64) -> (candidate: Self)
        requires
            description.wf(),
        ensures
            candidate == Self::initialize_spec(*description, randomness),
    ;

    /// An exact copy of this candidate.
    fn duplicate(&self) -> (copy: Self)
        ensures
            copy == *self,
    ;
}

} // verus!
