use nqueens::local_beam_search::{next_beam, search_from};
use nqueens::rng::CERTAIN;
use nqueens::{
    solve_n_queens_genetic, solve_n_queens_hill_climbing, solve_n_queens_local_beam_search,
    GenericChallengeState, GeneticAlgorithm, GeneticAlgorithmConfig, HillClimbing, LocalBeamSearch,
    LocalBeamSearchConfig, NQueensStrategy, SimulatedAnnealing,
};
use rand::SeedableRng;
use std::cell::RefCell;

fn seeded(seed: usize) -> rand::StdRng {
    rand::StdRng::from_seed(&[seed, 17, 19, 23][..])
}

fn rows_score(rows: &[usize]) -> usize {
    GenericChallengeState { size: rows.len(), queen_rows: rows.to_vec() }.score()
}

fn is_permutation(rows: &[usize]) -> bool {
    let mut sorted = rows.to_vec();
    sorted.sort();
    sorted == (0..rows.len()).collect::<Vec<_>>()
}

#[test]
fn every_algorithm_returns_empty_for_empty_board() {
    let hc = solve_n_queens_hill_climbing(0, seeded(1), |_: &[usize], _: usize| {});
    assert!(hc.queen_rows.is_empty());
    assert_eq!(hc.score, 0);
    let beam = solve_n_queens_local_beam_search(0, seeded(1), |_: &[usize], _: usize| {}, 3, 10);
    assert!(beam.queen_rows.is_empty());
    assert_eq!(beam.score, 0);
    let genetic = solve_n_queens_genetic(0, seeded(1), |_: &[usize], _: usize| {}, 4, CERTAIN / 4, CERTAIN / 2, CERTAIN / 10, 10);
    assert!(genetic.queen_rows.is_empty());
    assert_eq!(genetic.score, 0);
    let annealing = SimulatedAnnealing::new(0, seeded(1));
    assert!(!annealing.is_running(false));
    let solution = annealing.into_solution();
    assert!(solution.queen_rows.is_empty());
    assert_eq!(solution.score, 0);
}

#[test]
fn degenerate_configurations_give_an_empty_solution() {
    let beam = solve_n_queens_local_beam_search(8, seeded(2), |_: &[usize], _: usize| {}, 0, 10);
    assert!(beam.queen_rows.is_empty());
    assert_eq!(beam.score, 0);
    let genetic = solve_n_queens_genetic(8, seeded(2), |_: &[usize], _: usize| {}, 0, 0, 0, 0, 10);
    assert!(genetic.queen_rows.is_empty());
    assert_eq!(genetic.score, 0);
}

#[test]
fn hill_climbing_reports_strictly_improving_scores() {
    let reported = RefCell::new(Vec::new());
    let solution = solve_n_queens_hill_climbing(8, seeded(4), |rows: &[usize], score: usize| {
        assert_eq!(rows_score(rows), score);
        reported.borrow_mut().push(score);
    });
    let reported = reported.into_inner();
    for pair in reported.windows(2) {
        assert!(pair[1] < pair[0]);
    }
    assert_eq!(*reported.last().unwrap(), solution.score);
    assert_eq!(rows_score(&solution.queen_rows), solution.score);
    assert!(is_permutation(&solution.queen_rows));
}

#[test]
fn hill_climbing_is_deterministic_for_a_seed() {
    for seed in 0..6 {
        let first = HillClimbing::new(8, seeded(seed)).solve();
        let second = HillClimbing::new(8, seeded(seed)).solve();
        assert_eq!(first.queen_rows, second.queen_rows);
        assert_eq!(first.score, second.score);
        assert_eq!(rows_score(&first.queen_rows), first.score);
        assert!(is_permutation(&first.queen_rows));
    }
}

#[test]
fn hill_climbing_step_keeps_only_improvements() {
    let mut hc = HillClimbing::new(4, seeded(8));
    for _ in 0..20 {
        let before = hc.queen_rows().to_vec();
        let before_score = rows_score(&before);
        assert_eq!(hc.current_score(), before_score);
        let improved = hc.step(0, 3);
        let after = hc.queen_rows().to_vec();
        let mut swapped = before.clone();
        swapped.swap(0, 3);
        if improved {
            assert!(rows_score(&swapped) < before_score);
            assert_eq!(after, swapped);
        } else {
            assert!(rows_score(&swapped) >= before_score);
            assert_eq!(after, before);
        }
    }
}

#[test]
fn annealing_best_score_never_rises() {
    let mut run = SimulatedAnnealing::new(8, seeded(6));
    let mut temperature = 30.0f32;
    let cooling_factor = 0.01f32;
    let mut best = run.best_score();
    let mut steps = 0;
    while run.is_running(temperature < 1.0) && steps < 20000 {
        let old_score = run.current_score();
        let new_score = run.propose();
        let chance = if temperature > 1.0 && new_score >= old_score {
            let p = (-((new_score - old_score) as f32) / temperature).exp();
            (p as f64 * CERTAIN as f64) as u64
        } else {
            0
        };
        run.resolve(chance);
        assert_eq!(rows_score(run.queen_rows()), run.current_score());
        assert!(run.best_score() <= best);
        assert!(run.best_score() <= run.current_score());
        best = run.best_score();
        temperature *= 1.0 - cooling_factor;
        steps += 1;
    }
    let solution = run.into_solution();
    assert_eq!(rows_score(&solution.queen_rows), solution.score);
    assert!(is_permutation(&solution.queen_rows));
}

#[test]
fn annealing_accepts_worse_moves_only_by_chance() {
    let mut run = SimulatedAnnealing::new(6, seeded(12));
    for _ in 0..50 {
        if !run.is_running(true) {
            break;
        }
        let old_rows = run.queen_rows().to_vec();
        let old_score = run.current_score();
        let new_score = run.propose();
        let accepted = run.resolve(0);
        if new_score < old_score {
            assert!(accepted);
            assert_eq!(run.current_score(), new_score);
        } else {
            assert!(!accepted);
            assert_eq!(run.queen_rows(), &old_rows[..]);
        }
    }
}

#[test]
fn single_state_beam_moves_to_best_neighbor() {
    let mut rng = seeded(10);
    let start = GenericChallengeState::new(6, &mut rng);
    let rows = start.queen_rows.clone();
    let next = next_beam(&vec![start], 6, 1);
    assert_eq!(next.len(), 1);
    let mut best: Option<(usize, Vec<usize>)> = None;
    for i in 0..6 {
        for j in (i + 1)..6 {
            let mut candidate = rows.clone();
            candidate.swap(i, j);
            let score = rows_score(&candidate);
            if best.as_ref().map_or(true, |(s, _)| score < *s) {
                best = Some((score, candidate));
            }
        }
    }
    assert_eq!(next[0].queen_rows, best.unwrap().1);
}

#[test]
fn beam_keeps_the_best_successors_in_order() {
    let mut rng = seeded(14);
    let states = vec![GenericChallengeState::new(5, &mut rng), GenericChallengeState::new(5, &mut rng)];
    let mut all: Vec<(usize, Vec<usize>)> = Vec::new();
    for s in &states {
        for i in 0..5 {
            for j in (i + 1)..5 {
                let mut candidate = s.queen_rows.clone();
                candidate.swap(i, j);
                all.push((rows_score(&candidate), candidate));
            }
        }
    }
    all.sort_by_key(|c| c.0);
    let next = next_beam(&states, 5, 3);
    assert_eq!(next.len(), 3);
    for t in 0..3 {
        assert_eq!(next[t].queen_rows, all[t].1);
    }
}

#[test]
fn beam_search_solves_eight_queens() {
    let solution = LocalBeamSearch::new(8, LocalBeamSearchConfig { state_count: 10, max_rounds: 200 }, seeded(3)).solve();
    assert_eq!(rows_score(&solution.queen_rows), solution.score);
    assert!(is_permutation(&solution.queen_rows));
}

#[test]
fn beam_search_without_rounds_returns_best_start() {
    let reported = RefCell::new(Vec::new());
    let solution = solve_n_queens_local_beam_search(8, seeded(21), |rows: &[usize], score: usize| {
        reported.borrow_mut().push((rows.to_vec(), score));
    }, 4, 0);
    assert_eq!(rows_score(&solution.queen_rows), solution.score);
    let mut rng = seeded(21);
    let starts: Vec<_> = (0..4).map(|_| GenericChallengeState::new(8, &mut rng)).collect();
    let best = starts.iter().map(|s| s.score()).min().unwrap();
    if best > 0 {
        assert_eq!(solution.score, best);
        assert_eq!(reported.into_inner()[0].0, starts[0].queen_rows);
    }
}

#[test]
fn genetic_with_full_elitism_keeps_its_generation() {
    let reported = RefCell::new(Vec::new());
    let solution = solve_n_queens_genetic(8, seeded(5), |rows: &[usize], score: usize| {
        reported.borrow_mut().push((rows.to_vec(), score));
    }, 6, CERTAIN, CERTAIN, CERTAIN, 5);
    let reported = reported.into_inner();
    if solution.score != 0 {
        assert_eq!(reported.len(), 5);
        for r in &reported {
            assert_eq!(r, &reported[0]);
        }
        assert_eq!(solution.queen_rows, reported[0].0);
        assert_eq!(solution.score, reported[0].1);
    }
}

#[test]
fn genetic_returns_a_scored_board() {
    let config = GeneticAlgorithmConfig {
        generation_size: 12,
        elitism: CERTAIN / 5,
        crossover_probability: CERTAIN / 2,
        mutation_probability: CERTAIN / 10,
        generation_count: 40,
    };
    let solution = GeneticAlgorithm::new(8, config, seeded(7)).solve();
    assert_eq!(solution.queen_rows.len(), 8);
    assert!(solution.queen_rows.iter().all(|&r| r < 8));
    assert_eq!(rows_score(&solution.queen_rows), solution.score);
}

#[test]
fn strategies_run_through_the_trait() {
    fn run<S: NQueensStrategy>(n: usize, config: S::Config) -> nqueens::Solution {
        S::new(n, config).solve()
    }
    let cp = run::<nqueens::ConstraintPropagation>(6, ());
    assert_eq!(cp.score, 0);
    let hc = run::<HillClimbing>(6, seeded(1));
    assert_eq!(rows_score(&hc.queen_rows), hc.score);
    let beam = run::<LocalBeamSearch>(6, (LocalBeamSearchConfig { state_count: 2, max_rounds: 5 }, seeded(1)));
    assert_eq!(rows_score(&beam.queen_rows), beam.score);
}

#[test]
fn full_elitism_breeds_an_identical_generation() {
    let mut rng = seeded(31);
    let generation: Vec<GenericChallengeState> = (0..5).map(|_| GenericChallengeState::new(6, &mut rng)).collect();
    let scores: Vec<usize> = generation.iter().map(|s| s.score()).collect();
    let config = GeneticAlgorithmConfig {
        generation_size: 5,
        elitism: CERTAIN,
        crossover_probability: CERTAIN,
        mutation_probability: CERTAIN,
        generation_count: 1,
    };
    let mut ga = GeneticAlgorithm::new(6, config, seeded(32));
    let next = ga.breed(&generation, &scores);
    assert_eq!(next.len(), 5);
    for t in 0..5 {
        assert_eq!(next[t].queen_rows, generation[t].queen_rows);
    }
}

#[test]
fn partial_elitism_keeps_the_elite_prefix() {
    let mut rng = seeded(33);
    let generation: Vec<GenericChallengeState> = (0..6).map(|_| GenericChallengeState::new(7, &mut rng)).collect();
    let scores: Vec<usize> = generation.iter().map(|s| s.score()).collect();
    let config = GeneticAlgorithmConfig {
        generation_size: 6,
        elitism: CERTAIN / 3,
        crossover_probability: CERTAIN,
        mutation_probability: CERTAIN,
        generation_count: 1,
    };
    let mut ga = GeneticAlgorithm::new(7, config, seeded(34));
    let next = ga.breed(&generation, &scores);
    assert_eq!(next.len(), 6);
    for t in 0..2 {
        assert_eq!(next[t].queen_rows, generation[t].queen_rows);
    }
    for s in &next {
        assert_eq!(s.queen_rows.len(), 7);
        assert!(s.queen_rows.iter().all(|&r| r < 7));
    }
}

#[test]
fn beam_rounds_from_a_given_start() {
    let start = vec![
        GenericChallengeState { size: 4, queen_rows: vec![0, 1, 2, 3] },
        GenericChallengeState { size: 4, queen_rows: vec![1, 0, 3, 2] },
    ];
    // no rounds: the lowest-scoring start state, the first such
    let r = search_from(start, 4, 2, 0, &|_: &[usize], _: usize| {});
    assert_eq!(r.queen_rows, vec![1, 0, 3, 2]);
    assert_eq!(r.score, 4);
    let solved = vec![
        GenericChallengeState { size: 4, queen_rows: vec![0, 1, 2, 3] },
        GenericChallengeState { size: 4, queen_rows: vec![2, 0, 3, 1] },
    ];
    let r = search_from(solved, 4, 2, 5, &|_: &[usize], _: usize| {});
    assert_eq!(r.queen_rows, vec![2, 0, 3, 1]);
    assert_eq!(r.score, 0);
}
