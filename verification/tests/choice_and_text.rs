use std::str::FromStr;

use sat_solver::algorithm::interface::{Clause, Lit, Model, SATResult};
use sat_solver::cli::{model_to_string, result_lines, solve, AlgorithmType};
use sat_solver::delta_debug::{clause_to_string, cnf_text, delta_debug, lit_to_string};

fn lit(v: i64) -> Lit {
    Lit::new(v).unwrap()
}

fn clause(lits: &[i64]) -> Clause {
    Clause::from_vec(lits.iter().map(|v| lit(*v)).collect())
}

#[test]
fn algorithm_names_are_read_in_any_case() {
    assert_eq!(AlgorithmType::from_name("simple"), Ok(AlgorithmType::Simple));
    assert_eq!(AlgorithmType::from_name("DPLL"), Ok(AlgorithmType::DPLL));
    assert_eq!(AlgorithmType::from_name("CdCl"), Ok(AlgorithmType::CDCL));
    assert_eq!(AlgorithmType::from_str("dpll"), Ok(AlgorithmType::DPLL));
    assert_eq!(
        AlgorithmType::from_lowercase("cdcl", "CDCL"),
        Ok(AlgorithmType::CDCL)
    );
}

#[test]
fn unknown_algorithm_name_lists_the_known_ones() {
    assert_eq!(
        AlgorithmType::from_name("Walk"),
        Err(String::from(
            "Not recognizedWalk\nSupported algorithms: \"simple\", \"dpll\", \"cdcl\""
        ))
    );
    assert!(AlgorithmType::from_lowercase("DPLL", "DPLL").is_err());
    assert!(AlgorithmType::from_name("").is_err());
}

#[test]
fn algorithm_name_and_default() {
    assert_eq!(AlgorithmType::Simple.name(), "simple");
    assert_eq!(AlgorithmType::DPLL.name(), "dpll");
    assert_eq!(AlgorithmType::CDCL.name(), "cdcl");
    assert_eq!(AlgorithmType::default(), AlgorithmType::DPLL);
}

#[test]
fn solve_runs_the_chosen_algorithm() {
    let f = vec![clause(&[1, 2]), clause(&[-1, -2])];
    let model = SATResult::SAT { model: Model { assignments: vec![true, false] } };
    assert_eq!(solve(AlgorithmType::Simple, 2, &f), model);
    assert_eq!(solve(AlgorithmType::DPLL, 2, &f), model);
    assert_eq!(solve(AlgorithmType::CDCL, 2, &f), model);
    let g = vec![clause(&[-1, -3, 4]), clause(&[-2, -3, -4]), clause(&[2]), clause(&[3])];
    let first = SATResult::SAT { model: Model { assignments: vec![false, true, true, false] } };
    assert_eq!(solve(AlgorithmType::Simple, 4, &g), first);
    assert_eq!(solve(AlgorithmType::DPLL, 4, &g), first);
    assert_eq!(solve(AlgorithmType::CDCL, 4, &g), first);
    let empty = vec![clause(&[])];
    assert_eq!(solve(AlgorithmType::Simple, 0, &empty), SATResult::UNSAT);
    assert_eq!(solve(AlgorithmType::DPLL, 0, &empty), SATResult::UNSAT);
    assert_eq!(solve(AlgorithmType::CDCL, 0, &empty), SATResult::UNSAT);
}

#[test]
fn model_is_one_line_of_signed_numbers() {
    let model = Model { assignments: vec![true, false, true, false] };
    assert_eq!(model_to_string(&model), "1 -2 3 -4");
    assert_eq!(model_to_string(&Model { assignments: vec![false] }), "-1");
    assert_eq!(model_to_string(&Model { assignments: vec![] }), "");
}

#[test]
fn result_lines_say_sat_or_unsat() {
    assert_eq!(result_lines(&SATResult::UNSAT), vec![String::from("Formula is UNSAT")]);
    assert_eq!(
        result_lines(&SATResult::SAT { model: Model { assignments: vec![false, true] } }),
        vec![String::from("Formula is SAT"), String::from("-1 2")]
    );
}

#[test]
fn literals_and_clauses_as_text() {
    assert_eq!(lit_to_string(&lit(12)), "12");
    assert_eq!(lit_to_string(&lit(-3)), "-3");
    assert_eq!(clause_to_string(&clause(&[1, -2, 30])), "1 -2 30 0");
    assert_eq!(clause_to_string(&clause(&[-5])), "-5 0");
    assert_eq!(clause_to_string(&clause(&[])), "0");
}

#[test]
fn formula_as_file_text() {
    let f = vec![clause(&[1, -4]), clause(&[]), clause(&[2])];
    assert_eq!(cnf_text(&f), Some(String::from("p cnf 4 3\n1 -4 0\n0\n2 0")));
    assert_eq!(cnf_text(&Vec::new()), None);
    assert_eq!(cnf_text(&vec![clause(&[])]), None);
}

#[test]
fn reduce_problem() {
    let clauses = vec![
        clause(&[1, 2]),
        clause(&[3]),
        clause(&[-3]),
        clause(&[2, 4]),
        clause(&[-1, 4]),
        clause(&[1, -2]),
    ];
    let num_vars = 4;
    let test_function = |clauses: &Vec<Clause>| {
        sat_solver::algorithm::cdcl::cdcl_algorithm(num_vars, clauses) == SATResult::UNSAT
    };
    let min = delta_debug(clauses.clone(), test_function);
    assert!(test_function(&min));
    assert_eq!(min, vec![clause(&[1, 2]), clause(&[3]), clause(&[-3])]);
    assert_eq!(cnf_text(&min), Some(String::from("p cnf 3 3\n1 2 0\n3 0\n-3 0")));
}

#[test]
fn delta_debug_returns_the_input_when_no_part_passes() {
    let clauses = vec![clause(&[1]), clause(&[2]), clause(&[3])];
    assert_eq!(delta_debug(clauses.clone(), |_: &Vec<Clause>| false), clauses);
    assert_eq!(delta_debug(Vec::new(), |_: &Vec<Clause>| true), Vec::new());
    assert_eq!(
        delta_debug(vec![clause(&[1])], |_: &Vec<Clause>| true),
        vec![clause(&[1])]
    );
}

#[test]
fn delta_debug_keeps_what_the_test_needs_in_order() {
    let clauses: Vec<Clause> = (1..=8).map(|v| clause(&[v])).collect();
    let needs = |list: &Vec<Clause>| list.contains(&clause(&[2])) && list.contains(&clause(&[7]));
    let min = delta_debug(clauses, needs);
    assert!(needs(&min));
    let mut last = 0;
    for c in &min {
        let v = c.lits()[0].to_i64();
        assert!(v > last);
        last = v;
    }
    assert!(min.len() < 8);
}

#[test]
fn delta_debug_tries_the_list_without_each_block() {
    let clauses = vec![clause(&[1]), clause(&[2]), clause(&[3]), clause(&[4])];
    let tried = std::cell::RefCell::new(Vec::new());
    let never = |list: &Vec<Clause>| {
        tried.borrow_mut().push(list.clone());
        false
    };
    assert_eq!(delta_debug(clauses.clone(), never), clauses);
    assert_eq!(
        tried.into_inner(),
        vec![
            vec![clause(&[3]), clause(&[4])],
            vec![clause(&[1]), clause(&[2])],
            vec![clause(&[2]), clause(&[3]), clause(&[4])],
            vec![clause(&[1]), clause(&[3]), clause(&[4])],
            vec![clause(&[1]), clause(&[2]), clause(&[4])],
            vec![clause(&[1]), clause(&[2]), clause(&[3])],
        ]
    );
    let five = vec![clause(&[1]), clause(&[2]), clause(&[3]), clause(&[4]), clause(&[5])];
    let shorter = delta_debug(five.clone(), |list: &Vec<Clause>| list.contains(&clause(&[4])));
    assert_eq!(shorter, vec![clause(&[4])]);
}
