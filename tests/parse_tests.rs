use sat_solver::dimacs::{parse_dimacs, ParseError};
use sat_solver::engine::solve;

fn parse(text: &str) -> Result<sat_solver::solver_state::SolverState, ParseError> {
    parse_dimacs(&text.as_bytes().to_vec())
}

#[test]
fn reads_header_comments_and_clauses() {
    let state = parse("c a comment\np cnf 3 2\n1 -2 0\n2 3 0\n").unwrap();
    assert_eq!(state.vars(), 3);
    assert_eq!(state.clauses(), 2);
    assert_eq!(state.original_clause_count, 2);
    assert_eq!(state.clauselist()[0].vars, vec![1, -2]);
    assert_eq!(state.clauselist()[1].vars, vec![2, 3]);
    assert_eq!(state.get_activity(-3), 0);
    assert!(state.get_movelist().is_empty());
}

#[test]
fn percent_line_ends_input() {
    let state = parse("p cnf 2 1\n1 2 0\n%\n0\nnot a clause\n").unwrap();
    assert_eq!(state.clauses(), 1);
}

#[test]
fn zeros_are_dropped_and_blank_lines_skipped() {
    let state = parse("p cnf 2 1\n\n  1 0 -2 0\r\n").unwrap();
    assert_eq!(state.clauselist()[0].vars, vec![1, -2]);
}

#[test]
fn duplicate_header_is_an_error() {
    assert_eq!(parse("p cnf 1 1\np cnf 1 1\n").err(), Some(ParseError::DuplicateHeader));
}

#[test]
fn header_field_count_is_checked() {
    assert_eq!(parse("p cnf 1\n").err(), Some(ParseError::BadHeader));
}

#[test]
fn header_format_must_be_cnf() {
    assert_eq!(parse("p dnf 1 1\n").err(), Some(ParseError::NotCnf));
}

#[test]
fn variable_count_must_be_a_number() {
    assert_eq!(parse("p cnf x 1\n").err(), Some(ParseError::BadVariableCount));
    assert_eq!(parse("p cnf 99999999999 1\n").err(), Some(ParseError::TooManyVariables));
}

#[test]
fn clause_count_must_be_a_number() {
    assert_eq!(parse("p cnf 1 y\n").err(), Some(ParseError::BadClauseCount));
}

#[test]
fn clause_tokens_must_be_numbers() {
    assert_eq!(parse("p cnf 2 1\n1 two 0\n").err(), Some(ParseError::NotANumber));
    assert_eq!(parse("p cnf 2 1\n1 9999999999 0\n").err(), Some(ParseError::NotANumber));
}

#[test]
fn literals_must_name_declared_variables() {
    assert_eq!(parse("p cnf 2 1\n1 -3 0\n").err(), Some(ParseError::LiteralOutOfRange));
}

#[test]
fn header_must_come_first() {
    assert_eq!(parse("1 2 0\np cnf 2 1\n").err(), Some(ParseError::MissingHeader));
    assert_eq!(parse("c only a comment\n").err(), Some(ParseError::MissingHeader));
}

#[test]
fn signs_are_read() {
    let state = parse("p cnf +2 1\n+1 -2 0").unwrap();
    assert_eq!(state.vars(), 2);
    assert_eq!(state.clauselist()[0].vars, vec![1, -2]);
}

#[test]
fn parsed_formula_solves_and_model_round_trips() {
    let mut state = parse("p cnf 3 3\n1 -2 0\n2 3 0\n-1 -3 0\n").unwrap();
    assert_eq!(solve(&mut state, 1000), Some(true));
    let text = state.assignment().to_string();
    // Re-read the model as unit clauses over the same formula: still satisfiable.
    let mut units = String::from("p cnf 3 6\n1 -2 0\n2 3 0\n-1 -3 0\n");
    for tok in text.split_whitespace() {
        units.push_str(tok);
        units.push_str(" 0\n");
    }
    let mut again = parse(&units).unwrap();
    assert_eq!(solve(&mut again, 1000), Some(true));
    assert_eq!(again.assignment().to_string(), text);
}
