//! Solvers for the n-queens problem: backtracking, hill climbing, simulated
//! annealing, local beam search and a genetic algorithm, over a shared board
//! state whose conflict score is proved to count the attacking pairs.

pub mod board;
pub mod constraint_propagation;
pub mod genetic_algorithm;
pub mod hill_climbing;
pub mod local_beam_search;
pub mod ranking;
pub mod rng;
pub mod simulated_annealing;
pub mod solution;
pub mod solvers;
pub mod strategy;

pub use board::{GenericChallengeState, PositionError};
pub use constraint_propagation::ConstraintPropagation;
pub use genetic_algorithm::{GeneticAlgorithm, GeneticAlgorithmConfig};
pub use hill_climbing::HillClimbing;
pub use local_beam_search::{LocalBeamSearch, LocalBeamSearchConfig};
pub use simulated_annealing::SimulatedAnnealing;
pub use solution::Solution;
pub use solvers::{
    solve_n_queens_constraint_propagation, solve_n_queens_genetic, solve_n_queens_hill_climbing,
    solve_n_queens_local_beam_search,
};
pub use strategy::NQueensStrategy;
