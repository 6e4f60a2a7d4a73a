use sat_solver::clause::{AssignmentResult, Clause};
use sat_solver::engine::{decide_activity, decide_bohm, decide_first_unsat, move_from_state, solve, step};
use sat_solver::assignment::Assignment;
use sat_solver::solver_state::{SolverMove, SolverState};

fn state_with(vars: usize, clauses: Vec<Vec<i32>>) -> SolverState {
    let mut state = SolverState::new();
    state.set_vars(vars);
    state.set_activity(vec![0; 2 * vars]);
    let count = clauses.len();
    for c in clauses {
        state.add_clause(Clause::from_vec(c));
    }
    state.set_clauses(count);
    state
}

fn all_clauses_hold(state: &SolverState) -> bool {
    let assignment = state.assignment();
    state
        .clauselist()
        .iter()
        .all(|c| c.check_assignment(&assignment) == Some(AssignmentResult::Sat()))
}

#[test]
fn contradictory_units_are_unsatisfiable() {
    let mut state = state_with(1, vec![vec![1], vec![-1]]);
    assert_eq!(solve(&mut state, 100), Some(false));
}

#[test]
fn three_clause_formula_is_satisfied_by_the_final_trail() {
    let mut state = state_with(3, vec![vec![1, -2], vec![2, 3], vec![-1, -3]]);
    assert_eq!(solve(&mut state, 1000), Some(true));
    assert!(all_clauses_hold(&state));
    let assignment = state.assignment();
    let clauses: Vec<Vec<i32>> = vec![vec![1, -2], vec![2, 3], vec![-1, -3]];
    for c in clauses {
        let holds = c.iter().any(|&l| assignment.get(l.unsigned_abs() as usize) == Some(l > 0));
        assert!(holds);
    }
}

#[test]
fn pigeonhole_two_in_one_is_unsatisfiable() {
    // Two pigeons, one hole: each pigeon in the hole, not both.
    let mut state = state_with(2, vec![vec![1], vec![2], vec![-1, -2]]);
    assert_eq!(solve(&mut state, 1000), Some(false));
}

#[test]
fn formula_needing_learning_is_solved() {
    let clauses = vec![
        vec![1, 2, 3],
        vec![-1, 2, 3],
        vec![1, -2, 3],
        vec![1, 2, -3],
        vec![-1, -2, 3],
        vec![-1, 2, -3],
        vec![1, -2, -3],
    ];
    let mut state = state_with(3, clauses);
    assert_eq!(solve(&mut state, 10000), Some(true));
    assert!(all_clauses_hold(&state));
    let a = state.assignment();
    assert_eq!((a.get(1), a.get(2), a.get(3)), (Some(true), Some(true), Some(true)));
}

#[test]
fn full_cube_is_unsatisfiable() {
    let mut clauses = Vec::new();
    for mask in 0..8 {
        let mut c = Vec::new();
        for v in 0..3 {
            let lit = (v + 1) as i32;
            c.push(if mask & (1 << v) != 0 { -lit } else { lit });
        }
        clauses.push(c);
    }
    let mut state = state_with(3, clauses);
    assert_eq!(solve(&mut state, 10000), Some(false));
}

#[test]
fn step_propagates_the_first_unit_clause() {
    let mut state = state_with(2, vec![vec![1, 2], vec![-2]]);
    assert_eq!(
        move_from_state(&state),
        SolverMove::Propagate { variable: -2, clause: 1 }
    );
    assert_eq!(step(&mut state), None);
    assert_eq!(state.get_movelist(), vec![SolverMove::Propagate { variable: -2, clause: 1 }]);
    assert_eq!(move_from_state(&state), SolverMove::Propagate { variable: 1, clause: 0 });
}

#[test]
fn next_move_reports_conflict_and_sat() {
    let mut state = state_with(1, vec![vec![1]]);
    state.add_move(SolverMove::Propagate { variable: -1, clause: 0 });
    assert_eq!(move_from_state(&state), SolverMove::Conflict(0));
    let mut state = state_with(1, vec![vec![1]]);
    state.add_move(SolverMove::Propagate { variable: 1, clause: 0 });
    assert_eq!(move_from_state(&state), SolverMove::Sat());
    assert_eq!(step(&mut state), Some(true));
}

#[test]
fn decision_opens_a_level_above_the_root() {
    let mut state = state_with(2, vec![vec![1, 2]]);
    assert!(matches!(move_from_state(&state), SolverMove::Decide(_)));
    assert_eq!(step(&mut state), None);
    assert_eq!(state.get_movelist().len(), 1);
    assert!(matches!(state.get_movelist()[0], SolverMove::Decide(_)));
}

fn two_level_conflict() -> SolverState {
    // Level 1 decides 1, level 2 decides 2 and propagates 3; clause 1 then conflicts.
    let mut state = state_with(3, vec![vec![-1, -2, 3], vec![-1, -3]]);
    state.add_decision_lv();
    state.add_move(SolverMove::Decide(1));
    state.add_decision_lv();
    state.add_move(SolverMove::Decide(2));
    state.add_move(SolverMove::Propagate { variable: 3, clause: 0 });
    state
}

#[test]
fn learning_backjumps_to_the_second_highest_level() {
    let mut state = two_level_conflict();
    assert_eq!(move_from_state(&state), SolverMove::Conflict(1));
    assert!(state.learn_from_conflict(1));
    assert_eq!(state.clauses(), 3);
    assert_eq!(state.clauselist()[2].vars, vec![-1, -2]);
    assert_eq!(
        state.get_movelist(),
        vec![SolverMove::Decide(1), SolverMove::DecideFromConflict(-2, 2)]
    );
    let assignment = state.assignment();
    assert_eq!(state.clauselist()[2].check_assignment(&assignment), Some(AssignmentResult::Sat()));
    // The conflict clause's literals were bumped, then every score halved.
    assert_eq!(state.get_activity(-1), 512);
    assert_eq!(state.get_activity(-3), 512);
    assert_eq!(state.get_activity(3), 0);
}

#[test]
fn unit_learnt_clause_backjumps_to_the_root() {
    let mut state = state_with(3, vec![vec![-1, 2], vec![-1, 3], vec![-2, -3]]);
    state.add_decision_lv();
    state.add_move(SolverMove::Decide(1));
    state.add_move(SolverMove::Propagate { variable: 2, clause: 0 });
    state.add_move(SolverMove::Propagate { variable: 3, clause: 1 });
    assert!(state.learn_from_conflict(2));
    assert_eq!(state.clauselist()[3].vars, vec![-1]);
    assert_eq!(state.get_movelist(), vec![SolverMove::DecideFromConflict(-1, 3)]);
    assert_eq!(state.get_activity(-2), 512);
    assert_eq!(state.get_activity(-3), 512);
    assert_eq!(state.get_activity(1), 0);
}

#[test]
fn conflict_at_the_root_fails_analysis() {
    let mut state = state_with(1, vec![vec![1], vec![-1]]);
    state.add_move(SolverMove::Propagate { variable: 1, clause: 0 });
    assert!(!state.learn_from_conflict(1));
    assert_eq!(state.get_movelist(), vec![SolverMove::Propagate { variable: 1, clause: 0 }]);
    assert_eq!(state.clauses(), 2);
    assert_eq!(state.get_activity(-1), 1024);
    assert!(!state.resolve_conflict_cdcl(1));
    assert!(!state.resolve_conflict_dpll(1));
}

#[test]
fn cdcl_resolution_asserts_the_negated_decision() {
    let mut state = two_level_conflict();
    assert!(state.resolve_conflict_cdcl(1));
    let moves = state.get_movelist();
    assert_eq!(moves[0], SolverMove::Decide(1));
    assert!(matches!(moves[1], SolverMove::DecideFromConflict(-2, _)));
    assert_eq!(moves.len(), 2);
}

#[test]
fn dpll_resolution_flips_the_last_decision() {
    let mut state = two_level_conflict();
    assert!(state.resolve_conflict_dpll(1));
    // The flip is justified by the clause of the negated decisions.
    assert_eq!(state.clauses(), 3);
    assert_eq!(state.clauselist()[2].vars, vec![-1, -2]);
    assert_eq!(
        state.get_movelist(),
        vec![SolverMove::Decide(1), SolverMove::DecideFromConflict(-2, 2)]
    );
    assert_eq!(state.get_activity(-1), 512);
    let assignment = state.assignment();
    assert_eq!(state.clauselist()[2].check_assignment(&assignment), Some(AssignmentResult::Sat()));
}

fn state_with_learnt() -> SolverState {
    // Two original clauses, three learnt ones; learnt clause 3 justifies an entry.
    let mut state = state_with(3, vec![vec![1, 2], vec![2, 3]]);
    state.add_clause(Clause::from_vec(vec![-1, 2]));
    state.add_clause(Clause::from_vec(vec![3]));
    state.add_clause(Clause::from_vec(vec![-2, -3]));
    state.add_move(SolverMove::Propagate { variable: 3, clause: 3 });
    state.add_decision_lv();
    state.add_move(SolverMove::Decide(1));
    state.add_move(SolverMove::Propagate { variable: 2, clause: 2 });
    state
}

#[test]
fn only_unlocked_learnt_clauses_are_deletable() {
    let state = state_with_learnt();
    assert_eq!(state.find_deletable_clauses(), vec![4]);
    let mut state = state_with(2, vec![vec![1], vec![2]]);
    state.add_clause(Clause::from_vec(vec![1, 2]));
    state.add_clause(Clause::from_vec(vec![-1, 2]));
    assert_eq!(state.find_deletable_clauses(), vec![2, 3]);
}

#[test]
fn forgetting_renumbers_justifications() {
    let mut state = state_with(3, vec![vec![1, 2], vec![2, 3]]);
    state.add_clause(Clause::from_vec(vec![-1, 2]));
    state.add_clause(Clause::from_vec(vec![3]));
    state.add_clause(Clause::from_vec(vec![-2, -3]));
    state.add_move(SolverMove::Propagate { variable: 3, clause: 3 });
    state.forget_clause(&vec![2]);
    assert_eq!(state.clauses(), 4);
    assert_eq!(state.clauselist()[2].vars, vec![3]);
    assert_eq!(state.clauselist()[3].vars, vec![-2, -3]);
    assert_eq!(state.get_movelist(), vec![SolverMove::Propagate { variable: 3, clause: 2 }]);
}

#[test]
fn maintenance_removes_picked_clauses_only() {
    let mut state = state_with(2, vec![vec![1], vec![2]]);
    state.add_clause(Clause::from_vec(vec![1, 2]));
    state.add_clause(Clause::from_vec(vec![-1, 2]));
    state.add_clause(Clause::from_vec(vec![1, -2]));
    state.add_move(SolverMove::Propagate { variable: 2, clause: 4 });
    // Two removable clauses (2 and 3) and two original ones: a draw is
    // picked where it is below 2 modulo 20000.
    let removed = state.reduce_clause_database(&vec![20001, 5, 0]);
    assert_eq!(removed, vec![2]);
    assert_eq!(state.clauses(), 4);
    assert_eq!(state.clauselist()[2].vars, vec![-1, 2]);
    assert_eq!(state.get_movelist(), vec![SolverMove::Propagate { variable: 2, clause: 3 }]);
    // Without draws nothing goes.
    assert_eq!(state.reduce_clause_database(&vec![]), Vec::<usize>::new());
    assert_eq!(state.clauses(), 4);
}

#[test]
fn activity_decision_takes_the_highest_open_score() {
    let mut state = state_with(3, vec![vec![1, 2, 3], vec![-1, -2, -3]]);
    // Scores: positives of 1..3, then negatives of 1..3; the scan visits
    // 1, -1, 2, -2, 3, -3.
    state.set_activity(vec![0, 5, 7, 3, 0, 2]);
    let assignment = state.assignment();
    let status = vec![false, false];
    assert_eq!(decide_activity(&assignment, &state, &status, state.clauselist()), 3);
    assert_eq!(state.get_activity(-1), 3);
    // On a tie the literal visited first wins.
    state.set_activity(vec![0, 7, 0, 0, 0, 7]);
    assert_eq!(decide_activity(&assignment, &state, &status, state.clauselist()), 2);
    state.set_activity(vec![0, 7, 0, 7, 0, 0]);
    assert_eq!(decide_activity(&assignment, &state, &status, state.clauselist()), -1);
}

#[test]
fn activity_decision_skips_assigned_variables() {
    let mut state = state_with(3, vec![vec![1, 2, 3]]);
    state.set_activity(vec![9, 0, 0, 0, 0, 4]);
    state.add_decision_lv();
    state.add_move(SolverMove::Decide(-1));
    let assignment = state.assignment();
    assert_eq!(decide_activity(&assignment, &state, &vec![false], state.clauselist()), -3);
}

#[test]
fn structural_decision_compares_length_scores() {
    let clauses = vec![
        Clause::from_vec(vec![1, 2]),
        Clause::from_vec(vec![1, 3]),
        Clause::from_vec(vec![-2, 3]),
    ];
    let assignment = Assignment::from_movelist(&vec![], 3);
    // At length 2: variable 1 scores 2, variable 2 scores 1 + 2 * 1 = 3,
    // variable 3 scores 2; variable 2 occurs once each way, so it is negated.
    assert_eq!(decide_bohm(&assignment, &vec![false, false, false], &clauses), -2);
    // With the last clause satisfied, variable 1 (2 occurrences) leads.
    assert_eq!(decide_bohm(&assignment, &vec![false, false, true], &clauses), 1);
}

#[test]
fn zero_activity_falls_back_to_structure() {
    let state = state_with(3, vec![vec![1, 2], vec![1, 3], vec![-2, 3]]);
    let assignment = state.assignment();
    assert_eq!(decide_activity(&assignment, &state, &vec![false, false, false], state.clauselist()), -2);
}

#[test]
fn first_unsatisfied_clause_decides() {
    let clauses = vec![Clause::from_vec(vec![1, 2]), Clause::from_vec(vec![-1, 3])];
    let assignment = Assignment::from_movelist(&vec![SolverMove::Decide(-1)], 3);
    assert_eq!(decide_first_unsat(&assignment, &vec![true, false], &clauses), 3);
    // Clause 0 is never considered.
    assert_eq!(decide_first_unsat(&assignment, &vec![false, false], &clauses), 3);
    let units = vec![Clause::from_vec(vec![1]), Clause::from_vec(vec![2])];
    let open = Assignment::from_movelist(&vec![], 2);
    assert_eq!(decide_first_unsat(&open, &vec![false, false], &units), 2);
}

#[test]
fn state_text_shows_the_valuation() {
    let mut state = state_with(3, vec![vec![1, 2, 3]]);
    state.add_move(SolverMove::Propagate { variable: -2, clause: 0 });
    assert_eq!(state.to_string(), "\nAssignment:\n-2 ");
    assert_eq!(state.vars(), 3);
}

#[test]
fn every_variable_stands_on_the_trail_at_most_once() {
    let clauses = vec![
        vec![1, 2, 3],
        vec![-1, 2, 3],
        vec![1, -2, 3],
        vec![1, 2, -3],
        vec![-1, -2, 3],
        vec![-1, 2, -3],
        vec![1, -2, -3],
    ];
    let mut state = state_with(3, clauses);
    for _ in 0..50 {
        let moves = state.get_movelist();
        let mut seen = vec![false; 4];
        for m in moves {
            let l = match m {
                SolverMove::Propagate { variable, .. } => variable,
                SolverMove::Decide(l) => l,
                SolverMove::DecideFromConflict(l, _) => l,
                _ => panic!("verdict on the trail"),
            };
            let v = l.unsigned_abs() as usize;
            assert!(!seen[v]);
            seen[v] = true;
        }
        if step(&mut state).is_some() {
            break;
        }
    }
}

#[test]
fn conflict_takes_priority_over_an_earlier_unit() {
    let mut state = state_with(2, vec![vec![1, -2], vec![-2], vec![2]]);
    state.add_move(SolverMove::Propagate { variable: 2, clause: 2 });
    assert_eq!(move_from_state(&state), SolverMove::Conflict(1));
    assert_eq!(step(&mut state), Some(false));
}

#[test]
fn injected_draws_decide_maintenance() {
    let build = || {
        let mut state = state_with(3, vec![vec![-1, -2, 3], vec![-1, -3]]);
        state.add_clause(Clause::from_vec(vec![1, 2, 3]));
        state.add_decision_lv();
        state.add_move(SolverMove::Decide(1));
        state.add_decision_lv();
        state.add_move(SolverMove::Decide(2));
        state.add_move(SolverMove::Propagate { variable: 3, clause: 0 });
        state
    };
    // A trigger that is no multiple of 20: no maintenance.
    let mut kept = build();
    assert!(kept.resolve_conflict_with_draws(1, 1, &vec![0, 0]));
    assert_eq!(kept.clauses(), 4);
    assert_eq!(kept.clauselist()[3].vars, vec![-1, -2]);
    assert_eq!(
        kept.get_movelist(),
        vec![SolverMove::Decide(1), SolverMove::DecideFromConflict(-2, 3)]
    );
    // Trigger 0: clause 2 is the one removable clause; draw 0 picks it.
    let mut pruned = build();
    assert!(pruned.resolve_conflict_with_draws(1, 0, &vec![0, 0]));
    assert_eq!(pruned.clauses(), 3);
    assert_eq!(pruned.clauselist()[2].vars, vec![-1, -2]);
    assert_eq!(
        pruned.get_movelist(),
        vec![SolverMove::Decide(1), SolverMove::DecideFromConflict(-2, 2)]
    );
    assert_eq!(pruned.get_activity(-3), 512);
    // Trigger 0 with a draw that is not picked: the clause stays.
    let mut spared = build();
    assert!(spared.resolve_conflict_with_draws(1, 40, &vec![7, 0]));
    assert_eq!(spared.clauses(), 4);
}

#[test]
fn zero_steps_change_nothing() {
    let mut state = state_with(1, vec![vec![1]]);
    assert_eq!(solve(&mut state, 0), None);
    assert!(state.get_movelist().is_empty());
    assert_eq!(solve(&mut state, 5), Some(true));
}
