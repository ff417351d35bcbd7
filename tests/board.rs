use nqueens::board::{distinct_pair, rows_from_draws};
use nqueens::genetic_algorithm::{build_generation, elite_count, exchange_prefix, select_index};
use nqueens::rng::draw_below;
use nqueens::ranking::best_indices;
use nqueens::rng::CERTAIN;
use nqueens::GenericChallengeState;
use rand::SeedableRng;

fn seeded(seed: usize) -> rand::StdRng {
    rand::StdRng::from_seed(&[seed, 7, 11, 13][..])
}

fn brute_force_score(rows: &[usize]) -> usize {
    let mut count = 0;
    for i in 0..rows.len() {
        for j in (i + 1)..rows.len() {
            let dr = if rows[i] > rows[j] { rows[i] - rows[j] } else { rows[j] - rows[i] };
            if rows[i] == rows[j] || dr == j - i {
                count += 1;
            }
        }
    }
    count
}

fn state(rows: Vec<usize>) -> GenericChallengeState {
    GenericChallengeState { size: rows.len(), queen_rows: rows }
}

#[test]
fn score_counts_attacking_pairs() {
    assert_eq!(state(vec![0, 1, 2, 3]).score(), 6);
    assert_eq!(state(vec![1, 3, 0, 2]).score(), 0);
    assert_eq!(state(vec![0, 0, 0]).score(), 3);
    assert_eq!(state(vec![3, 1, 2, 0]).score(), 2);
    assert_eq!(state(vec![]).score(), 0);
    assert_eq!(state(vec![5]).score(), 0);
}

#[test]
fn score_matches_brute_force_on_random_boards() {
    let mut rng = seeded(3);
    for n in 0..12 {
        let board = GenericChallengeState::new(n, &mut rng);
        assert_eq!(board.score(), brute_force_score(&board.queen_rows));
    }
}

#[test]
fn random_boards_are_permutations() {
    let mut rng = seeded(5);
    for n in 0..20 {
        let board = GenericChallengeState::new(n, &mut rng);
        let mut rows = board.queen_rows.clone();
        rows.sort();
        assert_eq!(rows, (0..n).collect::<Vec<_>>());
        assert_eq!(board.size, n);
    }
}

#[test]
fn two_random_queens_differ() {
    let mut rng = seeded(9);
    let board = GenericChallengeState::new(2, &mut rng);
    for _ in 0..50 {
        let (a, b) = board.get_two_random_queens(&mut rng);
        assert!(a < 2 && b < 2 && a != b);
    }
}

#[test]
fn queen_placement_checks_every_column() {
    let board = state(vec![1, 3]);
    assert!(board.queen_can_be_positioned_at((2, 0)));
    assert!(!board.queen_can_be_positioned_at((2, 2)));
    assert!(!board.queen_can_be_positioned_at((2, 3)));
    let empty = GenericChallengeState::unpositioned(4);
    assert!(empty.queen_rows.is_empty());
    assert!(empty.queen_can_be_positioned_at((0, 0)));
}

#[test]
fn swap_exchanges_two_columns() {
    let mut board = state(vec![0, 1, 2, 3]);
    board.swap_queens(0, 3);
    assert_eq!(board.queen_rows, vec![3, 1, 2, 0]);
}

#[test]
fn best_indices_is_a_stable_prefix() {
    let scores = vec![5, 1, 3, 1, 0, 3];
    assert_eq!(best_indices(&scores, 3), vec![4, 1, 3]);
    assert_eq!(best_indices(&scores, 6), vec![4, 1, 3, 2, 5, 0]);
    assert_eq!(best_indices(&scores, 10), vec![4, 1, 3, 2, 5, 0]);
    assert_eq!(best_indices(&scores, 0), Vec::<usize>::new());
    assert_eq!(best_indices(&vec![], 2), Vec::<usize>::new());
}

#[test]
fn elite_count_rounds_the_share_up() {
    assert_eq!(elite_count(0, 10), 0);
    assert_eq!(elite_count(CERTAIN, 10), 10);
    assert_eq!(elite_count(CERTAIN * 3, 10), 10);
    assert_eq!(elite_count(CERTAIN / 2, 10), 5);
    assert_eq!(elite_count(CERTAIN / 2 + 1, 10), 6);
    assert_eq!(elite_count(CERTAIN / 10, 4), 1);
    assert_eq!(elite_count(CERTAIN / 2, 0), 0);
}

#[test]
fn selection_walks_from_the_last_individual() {
    // max score 4: inverse fitness 4, 3, 1, 0 (total 8)
    let scores = vec![0, 1, 3, 4];
    // walking from the back: index 3 weighs 0, index 2 covers [0, 1),
    // index 1 covers [1, 4), index 0 covers [4, 8)
    assert_eq!(select_index(&scores, 4, 8, 0), 2);
    assert_eq!(select_index(&scores, 4, 8, (CERTAIN / 8) as u32), 1);
    assert_eq!(select_index(&scores, 4, 8, (CERTAIN / 2) as u32 - 1), 1);
    assert_eq!(select_index(&scores, 4, 8, (CERTAIN / 2) as u32), 0);
    assert_eq!(select_index(&scores, 4, 8, u32::MAX), 0);
}

#[test]
fn selection_is_uniform_for_equal_scores() {
    let scores = vec![2, 2, 2, 2];
    assert_eq!(select_index(&scores, 2, 0, 0), 3);
    assert_eq!(select_index(&scores, 2, 0, (CERTAIN / 4) as u32), 2);
    assert_eq!(select_index(&scores, 2, 0, (CERTAIN / 2) as u32), 1);
    assert_eq!(select_index(&scores, 2, 0, u32::MAX), 0);
}

#[test]
fn crossover_exchanges_a_prefix() {
    let mut a = vec![0, 1, 2, 3, 4];
    let mut b = vec![4, 3, 2, 1, 0];
    exchange_prefix(&mut a, &mut b, 2);
    assert_eq!(a, vec![4, 3, 2, 3, 4]);
    assert_eq!(b, vec![0, 1, 2, 1, 0]);
    exchange_prefix(&mut a, &mut b, 0);
    assert_eq!(a, vec![4, 3, 2, 3, 4]);
}

#[test]
fn draws_map_to_values() {
    assert_eq!(draw_below(17, 5), 2);
    assert_eq!(draw_below(u32::MAX, 1), 0);
    assert_eq!(distinct_pair(2, 1), (2, 1));
    assert_eq!(distinct_pair(2, 2), (2, 3));
    assert_eq!(distinct_pair(0, 4), (0, 5));
}

#[test]
fn rows_are_dealt_from_the_pool() {
    // pool [0, 1, 2]: 5 % 3 picks 2 for the last column; 0 % 2 picks 0;
    // 1 % 1 picks the remaining 1 for the first column
    assert_eq!(rows_from_draws(&vec![5, 0, 1]), vec![1, 0, 2]);
    assert_eq!(rows_from_draws(&vec![]), Vec::<usize>::new());
    assert_eq!(rows_from_draws(&vec![0, 0, 0, 0]), vec![3, 2, 1, 0]);
}

#[test]
fn generation_is_built_from_its_draws() {
    let sorted = vec![state(vec![0, 1, 2, 3]), state(vec![3, 2, 1, 0]), state(vec![1, 0, 3, 2])];
    let next = build_generation(&sorted, 4, 1, &vec![2, 0], &vec![Some(2), None], &vec![vec![(0, 3)], vec![]]);
    assert_eq!(next.len(), 3);
    assert_eq!(next[0].queen_rows, vec![0, 1, 2, 3]);
    assert_eq!(next[1].queen_rows, vec![2, 1, 3, 0]);
    assert_eq!(next[2].queen_rows, vec![1, 0, 2, 3]);
}

#[test]
fn generation_with_one_free_place_is_not_crossed() {
    let sorted = vec![state(vec![0, 1, 2]), state(vec![2, 1, 0])];
    let next = build_generation(&sorted, 3, 1, &vec![1], &vec![], &vec![vec![(0, 1), (1, 2)]]);
    assert_eq!(next[0].queen_rows, vec![0, 1, 2]);
    assert_eq!(next[1].queen_rows, vec![1, 0, 2]);
}
