use sat_solver::algorithm::interface::{Clause, Lit};
use sat_solver::algorithm::reader::{
    clauses_in_range, instance_from_parsed, read_file, within_limits, ReadError,
};

fn clause(lits: &[i64]) -> Clause {
    Clause::from_vec(lits.iter().map(|v| Lit::new(*v).unwrap()).collect())
}

#[test]
fn reads_header_and_clauses() {
    let text = "c Example\nc\np cnf 4 3\n1 3 -4 0\n4 0 2\n-3";
    let (num_vars, clauses) = read_file(text).unwrap();
    assert_eq!(num_vars, 4);
    assert_eq!(clauses, vec![clause(&[1, 3, -4]), clause(&[4]), clause(&[2, -3])]);
}

#[test]
fn reads_an_empty_clause() {
    let (num_vars, clauses) = read_file("p cnf 1 2\n0\n1 0\n").unwrap();
    assert_eq!(num_vars, 1);
    assert_eq!(clauses, vec![clause(&[]), clause(&[1])]);
}

#[test]
fn keeps_literals_beyond_the_declared_variables() {
    let (num_vars, clauses) = read_file("p cnf 2 1\n1 5 0\n").unwrap();
    assert_eq!(num_vars, 2);
    assert_eq!(clauses, vec![clause(&[1, 5])]);
    assert!(!clauses_in_range(num_vars, &clauses));
    assert!(clauses_in_range(5, &clauses));
    assert!(clauses_in_range(0, &Vec::new()));
}

#[test]
fn malformed_text_is_a_parse_error() {
    assert_eq!(read_file(""), Err(ReadError::ParseError));
    assert_eq!(read_file("p cnf x 1\n1 0\n"), Err(ReadError::ParseError));
    assert_eq!(read_file("p cnf 2 1\n1 foo 0\n"), Err(ReadError::ParseError));
    assert_eq!(read_file("p cnf 0 0\n"), Err(ReadError::ParseError));
    assert_eq!(read_file("1 2 0\n"), Err(ReadError::ParseError));
}

#[test]
fn sat_format_is_unsupported() {
    assert_eq!(
        read_file("c Sample\np sat 4\n(*(+(1 3 -4) +(4) +(2 3)))"),
        Err(ReadError::UnsupportedInstance)
    );
}

#[test]
fn long_numbers_and_deep_nesting_exceed_the_limits() {
    assert_eq!(
        read_file("p cnf 3 1\n12345678 0\n"),
        Err(ReadError::LimitExceeded)
    );
    assert_eq!(
        read_file("p cnf 3 12345678\n1 0\n"),
        Err(ReadError::LimitExceeded)
    );
    let ok = read_file("p cnf 3 1\n-1234567 0\n").unwrap();
    assert_eq!(ok.1[0].lits()[0].index, 1234566);
    let mut nested = String::from("p sat 1 ");
    for _ in 0..257 {
        nested.push('(');
    }
    assert_eq!(read_file(&nested), Err(ReadError::LimitExceeded));
}

#[test]
fn long_runs_of_comment_lines_exceed_the_limit() {
    let header = "p cnf 1 1\n";
    let most = format!("{}{}1 0\n", "c note\n".repeat(1000), header);
    assert!(within_limits(&most));
    assert_eq!(read_file(&most), Ok((1, vec![clause(&[1])])));
    let too_many = format!("{}{}1 0\n", "c note\n".repeat(1001), header);
    assert!(!within_limits(&too_many));
    assert_eq!(read_file(&too_many), Err(ReadError::LimitExceeded));
    let after_header = format!("{}{}1 0\n", header, "c note\n".repeat(1000));
    assert!(!within_limits(&after_header));
    let split = format!("{}{}{}1 0\n", "c a\n".repeat(900), header, "c b\n  \n".repeat(900));
    assert!(within_limits(&split));
    assert_eq!(read_file(&split), Ok((1, vec![clause(&[1])])));
}

#[test]
fn limits_count_digit_runs_and_parentheses() {
    assert!(within_limits(""));
    assert!(within_limits("1234567 1234567-1234567"));
    assert!(!within_limits("x12345678"));
    assert!(!within_limits("1234567 00000000"));
    assert!(within_limits(&"(".repeat(256)));
    assert!(!within_limits(&"(".repeat(257)));
    assert!(within_limits(&"1 ".repeat(1000)));
}

#[test]
fn parsed_instance_becomes_clauses() {
    let parsed = vec![vec![(1, true), (3, false)], vec![], vec![(2, true)]];
    assert_eq!(
        instance_from_parsed(3, &parsed),
        Ok((3, vec![clause(&[1, -3]), clause(&[]), clause(&[2])]))
    );
    assert_eq!(instance_from_parsed(7, &Vec::new()), Ok((7, Vec::new())));
}

#[test]
fn parsed_instance_with_variable_zero_is_refused() {
    let parsed = vec![vec![(1, true)], vec![(0, false)]];
    assert_eq!(instance_from_parsed(3, &parsed), Err(ReadError::LimitExceeded));
}
