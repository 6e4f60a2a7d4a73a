use sat_solver::assignment::Assignment;
use sat_solver::clause::{AssignmentResult, Clause};
use sat_solver::solver_state::SolverMove;

#[test]
fn example_test() {
    let result = 2 + 2;
    assert_eq!(result, 4);
}

#[test]
fn basic_conflict() {
    let test_vec = vec![1, 3, 5];
    let clause = Clause::from_vec(test_vec);
    let test_movelist = vec![SolverMove::Decide(-1), SolverMove::Decide(-3), SolverMove::Decide(-5)];
    let assignment = Assignment::from_movelist(&test_movelist, 5);
    println!("{}", assignment.to_string());
    let result = clause.check_assignment(&assignment);
    assert_eq!(result.unwrap(), AssignmentResult::Conflict());
}

#[test]
fn basic_propagate() {
    let test_vec = vec![1, 3, 5];
    let clause = Clause::from_vec(test_vec);
    let test_movelist = vec![SolverMove::Decide(-1), SolverMove::Decide(-3)];
    let assignment = Assignment::from_movelist(&test_movelist, 5);
    println!("{}", assignment.to_string());
    let result = clause.check_assignment(&assignment);
    assert_eq!(result.unwrap(), AssignmentResult::Propagate(5));
}

#[test]
fn basic_sat() {
    let test_vec = vec![1, 3, 5];
    let clause = Clause::from_vec(test_vec);
    let test_movelist = vec![SolverMove::Decide(-1), SolverMove::Decide(5)];
    let assignment = Assignment::from_movelist(&test_movelist, 5);
    println!("{}", assignment.to_string());
    let result = clause.check_assignment(&assignment);
    assert_eq!(result.unwrap(), AssignmentResult::Sat());
}

#[test]
fn basic_none() {
    let test_vec = vec![1, 3, 5];
    let clause = Clause::from_vec(test_vec);
    let test_movelist = vec![SolverMove::Decide(-1)];
    let assignment = Assignment::from_movelist(&test_movelist, 5);
    println!("{}", assignment.to_string());
    let result = clause.check_assignment(&assignment);
    assert_eq!(result, None);
}

#[test]
fn negative_none() {
    let test_vec = vec![-1, -3, -5];
    let clause = Clause::from_vec(test_vec);
    let test_movelist = vec![SolverMove::Decide(1)];
    let assignment = Assignment::from_movelist(&test_movelist, 5);
    println!("{}", assignment.to_string());
    let result = clause.check_assignment(&assignment);
    assert_eq!(result, None);
}

#[test]
fn true_literal_after_two_open_ones_satisfies() {
    let clause = Clause::from_vec(vec![1, 2, 3]);
    let assignment = Assignment::from_movelist(&vec![SolverMove::Decide(3)], 3);
    assert_eq!(clause.check_assignment(&assignment), Some(AssignmentResult::Sat()));
}

#[test]
fn evaluation_repeats_identically() {
    let clause = Clause::from_vec(vec![1, -2, 4]);
    let assignment = Assignment::from_movelist(&vec![SolverMove::Decide(-1), SolverMove::Decide(2)], 4);
    let first = clause.check_assignment(&assignment);
    let second = clause.check_assignment(&assignment);
    assert_eq!(first, Some(AssignmentResult::Propagate(4)));
    assert_eq!(first, second);
    assert_eq!(clause.vars, vec![1, -2, 4]);
    assert_eq!(assignment.get(1), Some(false));
    assert_eq!(assignment.get(4), None);
}

#[test]
fn empty_clause_conflicts() {
    let clause = Clause::from_vec(vec![]);
    let assignment = Assignment::from_movelist(&vec![], 2);
    assert_eq!(clause.check_assignment(&assignment), Some(AssignmentResult::Conflict()));
}

#[test]
fn repeated_open_literal_is_unresolved() {
    let clause = Clause::from_vec(vec![2, 2]);
    let assignment = Assignment::from_movelist(&vec![], 2);
    assert_eq!(clause.check_assignment(&assignment), None);
}

#[test]
fn last_move_on_a_variable_wins() {
    let moves = vec![SolverMove::Decide(2), SolverMove::Propagate { variable: -2, clause: 0 }];
    let assignment = Assignment::from_movelist(&moves, 3);
    assert_eq!(assignment.len(), 3);
    assert_eq!(assignment.get(2), Some(false));
}

#[test]
fn valuation_text_lists_assigned_variables() {
    let moves = vec![SolverMove::Decide(-1), SolverMove::DecideFromConflict(12, 0)];
    let assignment = Assignment::from_movelist(&moves, 12);
    assert_eq!(assignment.to_string(), "-1 12 ");
    let empty = Assignment::from_movelist(&vec![], 2);
    assert_eq!(empty.to_string(), "");
}

#[test]
fn open_and_literal_counts() {
    let clause = Clause::from_vec(vec![1, -2, 1, 3]);
    let assignment = Assignment::from_movelist(&vec![SolverMove::Decide(2)], 3);
    assert_eq!(clause.open_count(&assignment), 3);
    assert_eq!(clause.count_lit(1), 2);
    assert_eq!(clause.count_lit(-1), 0);
}
