use nqueens::{solve_n_queens_constraint_propagation, ConstraintPropagation, GenericChallengeState, PositionError};

const DIM: usize = 8;

fn pos(x: usize, y: usize) -> (usize, usize) {
    (x, y)
}

fn no_collisions(rows: &[usize]) -> bool {
    for i in 0..rows.len() {
        for j in (i + 1)..rows.len() {
            let dr = if rows[i] > rows[j] { rows[i] - rows[j] } else { rows[j] - rows[i] };
            if rows[i] == rows[j] || dr == j - i {
                return false;
            }
        }
    }
    true
}

fn is_permutation(rows: &[usize]) -> bool {
    let mut seen = vec![false; rows.len()];
    for &r in rows {
        if r >= rows.len() || seen[r] {
            return false;
        }
        seen[r] = true;
    }
    true
}

#[test]
fn are_reachable_test() {
    let challenge = ConstraintPropagation::new(DIM, ());

    assert!(challenge.can_position(pos(0, 0), pos(0, 0)).is_err());
    assert!(challenge.can_position(pos(0, 1), pos(0, 0)).is_err());
    assert!(challenge.can_position(pos(1, 0), pos(0, 0)).is_err());
    assert!(challenge.can_position(pos(1, 1), pos(5, 5)).is_err());
    assert!(challenge.can_position(pos(3, 2), pos(2, 3)).is_err());
}

#[test]
fn finds_eight_queens_solution() {
    let challenge = ConstraintPropagation::new(DIM, ());
    assert_eq!(challenge.solve().score, 0);
}

#[test]
fn finds_twelve_queens_solution() {
    let challenge = ConstraintPropagation::new(12, ());
    assert_eq!(challenge.solve().score, 0);
}

#[test]
fn finds_fifteen_queens_solution() {
    let challenge = ConstraintPropagation::new(15, ());
    assert_eq!(challenge.solve().score, 0);
}

#[test]
fn position_errors_name_the_reason() {
    let state = GenericChallengeState::unpositioned(8);
    assert!(matches!(state.can_position((2, 3), (2, 3)), Err(PositionError::Match)));
    assert!(matches!(state.can_position((2, 3), (2, 5)), Err(PositionError::Column)));
    assert!(matches!(state.can_position((2, 3), (6, 3)), Err(PositionError::Row)));
    assert!(matches!(state.can_position((2, 3), (5, 0)), Err(PositionError::Diagonal)));
    assert!(matches!(state.can_position((2, 3), (4, 4)), Ok(())));
    assert!(state.can_hit((0, 0), (7, 7)));
    assert!(!state.can_hit((0, 0), (1, 2)));
}

#[test]
fn eight_queens_backtracking_is_a_valid_permutation() {
    let solution = ConstraintPropagation::new(8, ()).solve();
    assert_eq!(solution.score, 0);
    assert_eq!(solution.queen_rows.len(), 8);
    assert!(is_permutation(&solution.queen_rows));
    assert!(no_collisions(&solution.queen_rows));
    // The first solution in row order.
    assert_eq!(solution.queen_rows, vec![0, 4, 7, 5, 2, 6, 1, 3]);
}

#[test]
fn backtracking_solves_one_and_four_to_ten() {
    for n in [1usize, 4, 5, 6, 7, 9, 10] {
        let solution = ConstraintPropagation::new(n, ()).solve();
        assert_eq!(solution.score, 0, "n = {}", n);
        assert_eq!(solution.queen_rows.len(), n);
        assert!(is_permutation(&solution.queen_rows));
        assert!(no_collisions(&solution.queen_rows));
    }
}

#[test]
fn backtracking_reports_no_solution_for_two_and_three() {
    for n in [2usize, 3] {
        let solution = ConstraintPropagation::new(n, ()).solve();
        assert_eq!(solution.queen_rows.len(), 0);
        assert_eq!(solution.score, 0);
    }
}

#[test]
fn backtracking_on_empty_board() {
    let solution = solve_n_queens_constraint_propagation(0, |_: &[usize], _: usize| {});
    assert!(solution.queen_rows.is_empty());
    assert_eq!(solution.score, 0);
}

#[test]
fn backtracking_reports_each_step() {
    let steps = std::cell::RefCell::new(Vec::new());
    let solution = solve_n_queens_constraint_propagation(4, |rows: &[usize], score: usize| {
        steps.borrow_mut().push((rows.to_vec(), score));
    });
    assert_eq!(solution.queen_rows, vec![1, 3, 0, 2]);
    let steps = steps.into_inner();
    assert_eq!(steps[0], (vec![0], 0));
    assert_eq!(steps[1], (vec![0, 2], 0));
    assert_eq!(steps[2], (vec![0], 0));
    assert_eq!(steps.last().unwrap().0, vec![1, 3, 0, 2]);
}
