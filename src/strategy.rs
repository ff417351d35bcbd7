use crate::board::{conflict_count, size_fits};
use crate::constraint_propagation::ConstraintPropagation;
use crate::genetic_algorithm::{population_fits, GeneticAlgorithm, GeneticAlgorithmConfig};
use crate::hill_climbing::HillClimbing;
use crate::local_beam_search::{LocalBeamSearch, LocalBeamSearchConfig};
use crate::solution::Solution;
use vstd::prelude::*;

verus! {

/// A problem-solving strategy for the n-queens problem.
pub trait NQueensStrategy: Sized {
    /// What the strategy needs besides the board dimension.
    type Config;

    /// The board dimension.
    spec fn board_size(&self) -> nat;

    /// Whether a search on a board of `dimension` with `config` fits the
    /// machine's integers.
    spec fn accepts(dimension: nat, config: Self::Config) -> bool;

    /// Whether the search can run.
    spec fn ready(&self) -> bool;

    /// Creates a new solvable instance of this challenge.
    fn new(dimension: usize, config: Self::Config) -> (r: Self)
        requires
            Self::accepts(dimension as nat, config),
        ensures
            r.board_size() == dimension,
            r.ready(),
    ;

    /// Solves the challenge, returning the row of the queen in each column
    /// and the number of attacking pairs, and runs `callback` on each step
    /// with the queen positions and the current score.
    fn solve_with_callback<F: Fn(&[usize], usize)>(self, callback: F) -> (r: Solution)
        requires
            self.ready(),
            forall|a: &[usize], s: usize| callback.requires((a, s)),
        ensures
            r.score == conflict_count(r.queen_rows@),
            r.queen_rows@.len() <= self.board_size(),
    ;

    /// Solves the challenge with no reporting.
    fn solve(self) -> (r: Solution)
        requires
            self.ready(),
        ensures
            r.score == conflict_count(r.queen_rows@),
            r.queen_rows@.len() <= self.board_size(),
    {
        self.solve_with_callback(|a: &[usize], s: usize| {})
    }
}

impl NQueensStrategy for ConstraintPropagation {
    type Config = ();

    open spec fn board_size(&self) -> nat {
        self.dimension()
    }

    open spec fn accepts(dimension: nat, config: ()) -> bool {
        true
    }

    open spec fn ready(&self) -> bool {
        self.rows() == Seq::<usize>::empty()
    }

    fn new(dimension: usize, config: ()) -> (r: Self) {
        ConstraintPropagation::new(dimension, config)
    }

    fn solve_with_callback<F: Fn(&[usize], usize)>(self, callback: F) -> (r: Solution) {
        ConstraintPropagation::solve_with_callback(self, callback)
    }
}

impl NQueensStrategy for HillClimbing {
    type Config = rand::StdRng;

    open spec fn board_size(&self) -> nat {
        self.dimension()
    }

    open spec fn accepts(dimension: nat, config: rand::StdRng) -> bool {
        size_fits(dimension)
    }

    open spec fn ready(&self) -> bool {
        self.wf() && self.stalled() == 0
    }

    fn new(dimension: usize, config: rand::StdRng) -> (r: Self) {
        HillClimbing::new(dimension, config)
    }

    fn solve_with_callback<F: Fn(&[usize], usize)>(self, callback: F) -> (r: Solution) {
        HillClimbing::solve_with_callback(self, callback)
    }
}

impl NQueensStrategy for LocalBeamSearch {
    type Config = (LocalBeamSearchConfig, rand::StdRng);

    open spec fn board_size(&self) -> nat {
        self.dimension()
    }

    open spec fn accepts(dimension: nat, config: (LocalBeamSearchConfig, rand::StdRng)) -> bool {
        size_fits(dimension)
    }

    open spec fn ready(&self) -> bool {
        size_fits(self.dimension())
    }

    fn new(dimension: usize, config: (LocalBeamSearchConfig, rand::StdRng)) -> (r: Self) {
        let (c, rng) = config;
        LocalBeamSearch::new(dimension, c, rng)
    }

    fn solve_with_callback<F: Fn(&[usize], usize)>(self, callback: F) -> (r: Solution) {
        LocalBeamSearch::solve_with_callback(self, callback)
    }
}

impl NQueensStrategy for GeneticAlgorithm {
    type Config = (GeneticAlgorithmConfig, rand::StdRng);

    open spec fn board_size(&self) -> nat {
        self.dimension()
    }

    open spec fn accepts(dimension: nat, config: (GeneticAlgorithmConfig, rand::StdRng)) -> bool {
        population_fits(dimension, config.0.generation_size as nat)
    }

    open spec fn ready(&self) -> bool {
        population_fits(self.dimension(), self.generation_size())
    }

    fn new(dimension: usize, config: (GeneticAlgorithmConfig, rand::StdRng)) -> (r: Self) {
        let (c, rng) = config;
        GeneticAlgorithm::new(dimension, c, rng)
    }

    fn solve_with_callback<F: Fn(&[usize], usize)>(self, callback: F) -> (r: Solution) {
        GeneticAlgorithm::solve_with_callback(self, callback)
    }
}

} // verus!
