use crate::board::{conflict_count, is_permutation, is_solution, rows_below, size_fits};
use crate::constraint_propagation::{lex_le, search_trace, trace_end, ConstraintPropagation};
use crate::genetic_algorithm::{genetic_outcome, population_fits, GeneticAlgorithm, GeneticAlgorithmConfig};
use crate::hill_climbing::{climb_outcome, climb_reports, HillClimbing};
use crate::local_beam_search::{beam_outcome, beam_reports_ok, LocalBeamSearch, LocalBeamSearchConfig};
use crate::solution::Solution;
use vstd::prelude::*;

verus! {

/// Solves the `n`-queens problem by backtracking, reporting each step to
/// `callback`. A full placement is returned exactly when a solution exists,
/// and it is the first solution in lexicographic order.
pub fn solve_n_queens_constraint_propagation<F: Fn(&[usize], usize)>(n: usize, callback: F) -> (r: Solution)
    requires
        forall|a: &[usize], s: usize| callback.requires((a, s)),
    ensures
        r.score == conflict_count(r.queen_rows@),
        r.queen_rows@.len() == n ==> is_solution(r.queen_rows@, n as nat) && r.score == 0,
        r.queen_rows@.len() == n ==> is_permutation(r.queen_rows@, n as nat),
        r.queen_rows@.len() == n ==> forall|s: Seq<usize>| is_solution(s, n as nat) ==> lex_le(r.queen_rows@, s),
        r.queen_rows@.len() != n ==> r.queen_rows@.len() == 0 && forall|s: Seq<usize>| !is_solution(s, n as nat),
        search_trace(Seq::empty(), r.reports@, n as nat),
        trace_end(Seq::empty(), r.reports@) == r.queen_rows@,
        n == 0 ==> r.reports@.len() == 0,
{
    ConstraintPropagation::new(n, ()).solve_with_callback(callback)
}

/// Solves the `n`-queens problem by hill climbing from a placement drawn
/// from `rng`, reporting the start and each improvement to `callback`.
pub fn solve_n_queens_hill_climbing<F: Fn(&[usize], usize)>(n: usize, rng: rand::StdRng, callback: F) -> (r: Solution)
    requires
        size_fits(n as nat),
        forall|a: &[usize], s: usize| callback.requires((a, s)),
    ensures
        is_permutation(r.queen_rows@, n as nat),
        r.score == conflict_count(r.queen_rows@),
        exists|start: Seq<usize>, tries: Seq<(usize, usize)>|
            is_permutation(start, n as nat) && #[trigger] climb_outcome(start, n as nat, tries, r.queen_rows@)
                && r.reports@ == climb_reports(start, tries),
{
    HillClimbing::new(n, rng).solve_with_callback(callback)
}

/// Solves the `n`-queens problem by local beam search with `state_count`
/// states and at most `max_rounds` rounds, reporting to `callback`.
pub fn solve_n_queens_local_beam_search<F: Fn(&[usize], usize)>(
    n: usize,
    rng: rand::StdRng,
    callback: F,
    state_count: usize,
    max_rounds: usize,
) -> (r: Solution)
    requires
        size_fits(n as nat),
        forall|a: &[usize], s: usize| callback.requires((a, s)),
    ensures
        r.score == conflict_count(r.queen_rows@),
        state_count == 0 ==> r.queen_rows@.len() == 0,
        state_count > 0 ==> is_permutation(r.queen_rows@, n as nat),
        state_count == 0 ==> r.reports@.len() == 0,
        state_count > 0 ==> exists|beams: Seq<Seq<Seq<usize>>>|
            #[trigger] beam_outcome(beams, state_count as nat, max_rounds as nat, r.queen_rows@, r.score as nat)
                && beams[0].len() == state_count && (forall|q: int|
                0 <= q < beams[0].len() ==> is_permutation(#[trigger] beams[0][q], n as nat))
                && beam_reports_ok(beams, r.reports@, r.queen_rows@),
{
    let config = LocalBeamSearchConfig { state_count: state_count, max_rounds: max_rounds };
    LocalBeamSearch::new(n, config, rng).solve_with_callback(callback)
}

/// Solves the `n`-queens problem with a genetic algorithm, reporting to
/// `callback`. The elite fraction and the probabilities are in units of
/// 2^-32.
pub fn solve_n_queens_genetic<F: Fn(&[usize], usize)>(
    n: usize,
    rng: rand::StdRng,
    callback: F,
    generation_size: usize,
    elitism: u64,
    crossover_probability: u64,
    mutation_probability: u64,
    generation_count: usize,
) -> (r: Solution)
    requires
        population_fits(n as nat, generation_size as nat),
        forall|a: &[usize], s: usize| callback.requires((a, s)),
    ensures
        r.score == conflict_count(r.queen_rows@),
        generation_size == 0 ==> r.queen_rows@.len() == 0,
        generation_size > 0 ==> r.queen_rows@.len() == n && rows_below(r.queen_rows@, n as nat),
        generation_size > 0 ==> exists|gens: Seq<Seq<Seq<usize>>>|
            #[trigger] genetic_outcome(
                gens,
                r.reports@,
                n as nat,
                (GeneticAlgorithmConfig {
                    generation_size: generation_size,
                    elitism: elitism,
                    crossover_probability: crossover_probability,
                    mutation_probability: mutation_probability,
                    generation_count: generation_count,
                }),
                r.queen_rows@,
                r.score as nat,
            ),
{
    let config = GeneticAlgorithmConfig {
        generation_size: generation_size,
        elitism: elitism,
        crossover_probability: crossover_probability,
        mutation_probability: mutation_probability,
        generation_count: generation_count,
    };
    GeneticAlgorithm::new(n, config, rng).solve_with_callback(callback)
}

} // verus!
