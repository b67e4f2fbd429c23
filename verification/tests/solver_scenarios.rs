use sat_solver::algorithm::cdcl::cdcl_algorithm;
use sat_solver::algorithm::dpll::{dpll_algorithm, DPLLSolver};
use sat_solver::algorithm::interface::{Clause, SATResult};
use sat_solver::algorithm::reader::clauses_in_range;
use sat_solver::algorithm::simple::simple_algorithm;
use sat_solver::algorithm::utility::{check_result, preprocess, read_file};

const SHORT_FORMULAS: [&str; 10] = [
    "p cnf 3 3\n1 0\n-1 2 0\n-2 3 0\n",
    "p cnf 1 2\n1 0\n-1 0\n",
    "p cnf 2 2\n1 2 0\n-1 -2 0\n",
    "p cnf 3 7\n1 2 0\n-1 -2 0\n1 3 0\n-1 -3 0\n2 3 0\n-2 -3 0\n1 2 3 0\n",
    "p cnf 2 2\n1 -1 2 0\n-2 0\n",
    "p cnf 2 1\n1 1 2 0\n",
    "c a comment\np cnf 4 4\n-1 -2 0\n-1 -3 0\n-2 -3 0\n1 2 3 4 0\n",
    "p cnf 5 6\n1 2 0\n-1 3 0\n-2 3 0\n-3 4 0\n-4 5 0\n-5 -3 0\n",
    "p cnf 3 3\n-1 -2 -3 0\n1 2 0\n2 3 0\n",
    "p cnf 4 8\n1 2 0\n1 -2 0\n-1 3 0\n-1 -3 4 0\n-4 2 0\n-2 -3 -4 0\n3 4 0\n-3 -4 1 0\n",
];

fn read(text: &str) -> (usize, Vec<Clause>) {
    let (num_vars, clauses) = read_file(text).unwrap();
    assert!(clauses_in_range(num_vars, &clauses));
    (num_vars, clauses)
}

fn is_sat(res: &SATResult) -> bool {
    matches!(res, SATResult::SAT { .. })
}

fn model_of(res: SATResult) -> Vec<bool> {
    match res {
        SATResult::SAT { model } => model.assignments,
        SATResult::UNSAT => panic!("expected SAT"),
    }
}

#[test]
fn test_dpll_short() {
    for text in SHORT_FORMULAS {
        let (num_vars, clauses) = read(text);
        let dpll_result = dpll_algorithm(num_vars, &clauses);
        let simple_result = simple_algorithm(num_vars, &clauses);

        match &dpll_result {
            SATResult::SAT { model } => assert!(check_result(&clauses, &model.assignments)),
            SATResult::UNSAT => {}
        }

        assert!(dpll_result == simple_result, "Failed formula: {:?}", text)
    }
}

#[test]
fn test_simple_short() {
    for text in SHORT_FORMULAS {
        let (num_vars, clauses) = read(text);
        let simple_result = simple_algorithm(num_vars, &clauses);
        match simple_result {
            SATResult::SAT { model } => assert!(check_result(&clauses, &model.assignments)),
            SATResult::UNSAT => (),
        }
    }
}

#[test]
fn test_cdcl_short() {
    for text in SHORT_FORMULAS {
        let (num_vars, clauses) = read(text);
        let cdcl_result = cdcl_algorithm(num_vars, &clauses);
        let simple_result = simple_algorithm(num_vars, &clauses);

        match &cdcl_result {
            SATResult::SAT { model } => assert!(check_result(&clauses, &model.assignments)),
            SATResult::UNSAT => {}
        }

        assert!(cdcl_result == simple_result, "Failed formula: {:?}", text)
    }
}

#[test]
fn cdcl_test() {
    let mut text = String::from("p cnf 12 22\n");
    for v in 1..12 {
        text.push_str(&format!("-{} {} 0\n", v, v + 1));
        text.push_str(&format!("{} -{} 0\n", v, v + 1));
    }
    let (num_vars, clauses) = read(&text);
    let cdcl_result = cdcl_algorithm(num_vars, &clauses);
    assert_eq!(model_of(cdcl_result), vec![true; 12]);
}

#[test]
fn unit_cascade_is_sat_with_every_variable_true() {
    let (num_vars, clauses) = read("p cnf 3 3\n1 0\n-1 2 0\n-2 3 0\n");
    assert_eq!(num_vars, 3);
    assert_eq!(model_of(simple_algorithm(3, &clauses)), vec![true, true, true]);
    assert_eq!(model_of(dpll_algorithm(3, &clauses)), vec![true, true, true]);
    assert_eq!(model_of(cdcl_algorithm(3, &clauses)), vec![true, true, true]);
}

#[test]
fn immediate_conflict_is_unsat() {
    let (num_vars, clauses) = read("p cnf 1 2\n1 0\n-1 0\n");
    assert_eq!(simple_algorithm(num_vars, &clauses), SATResult::UNSAT);
    assert_eq!(dpll_algorithm(num_vars, &clauses), SATResult::UNSAT);
    assert_eq!(cdcl_algorithm(num_vars, &clauses), SATResult::UNSAT);
}

#[test]
fn pure_branching_is_sat_with_exactly_one_variable_true() {
    let (num_vars, clauses) = read("p cnf 2 2\n1 2 0\n-1 -2 0\n");
    for res in [
        simple_algorithm(num_vars, &clauses),
        dpll_algorithm(num_vars, &clauses),
        cdcl_algorithm(num_vars, &clauses),
    ] {
        let model = model_of(res);
        assert_eq!(model.len(), 2);
        assert!(model[0] != model[1]);
        assert_eq!(model, vec![true, false]);
    }
}

#[test]
fn three_variable_formula_is_unsat() {
    let (num_vars, clauses) = read(
        "p cnf 3 7\n1 2 0\n-1 -2 0\n1 3 0\n-1 -3 0\n2 3 0\n-2 -3 0\n1 2 3 0\n",
    );
    assert_eq!(clauses.len(), 7);
    assert_eq!(simple_algorithm(num_vars, &clauses), SATResult::UNSAT);
    assert_eq!(dpll_algorithm(num_vars, &clauses), SATResult::UNSAT);
    assert_eq!(cdcl_algorithm(num_vars, &clauses), SATResult::UNSAT);
}

#[test]
fn tautology_is_dropped_and_second_variable_is_false() {
    let (num_vars, clauses) = read("p cnf 2 2\n1 -1 2 0\n-2 0\n");
    let cleaned = preprocess(&clauses).unwrap();
    assert_eq!(cleaned.len(), 1);
    assert_eq!(cleaned[0], clauses[1]);
    for res in [
        simple_algorithm(num_vars, &clauses),
        dpll_algorithm(num_vars, &clauses),
        cdcl_algorithm(num_vars, &clauses),
    ] {
        let model = model_of(res);
        assert!(!model[1]);
        assert!(check_result(&clauses, &model));
    }
}

#[test]
fn duplicate_literal_is_dropped_and_formula_is_sat() {
    let (num_vars, clauses) = read("p cnf 2 1\n1 1 2 0\n");
    let cleaned = preprocess(&clauses).unwrap();
    assert_eq!(cleaned.len(), 1);
    assert_eq!(cleaned[0].len(), 2);
    for res in [
        simple_algorithm(num_vars, &clauses),
        dpll_algorithm(num_vars, &clauses),
        cdcl_algorithm(num_vars, &clauses),
    ] {
        let model = model_of(res);
        assert!(model[0] || model[1]);
    }
    assert!(check_result(&clauses, &vec![true, false]));
    assert!(check_result(&clauses, &vec![false, true]));
    assert!(!check_result(&clauses, &vec![false, false]));
}

#[test]
fn recursive_and_iterative_dpll_agree() {
    for text in SHORT_FORMULAS {
        let (num_vars, clauses) = read(text);
        let mut recursive = DPLLSolver::from_dimacs(num_vars, &clauses).unwrap();
        let mut iterative = DPLLSolver::from_dimacs(num_vars, &clauses).unwrap();
        let a = recursive.dpll_recursive();
        let b = iterative.dpll_iterative();
        assert_eq!(is_sat(&a), is_sat(&b));
        assert_eq!(a, b);
    }
}

#[test]
fn empty_clause_makes_the_searches_answer_unsat() {
    let (num_vars, clauses) = read("p cnf 2 2\n1 2 0\n0\n");
    assert_eq!(clauses[1].len(), 0);
    assert_eq!(simple_algorithm(num_vars, &clauses), SATResult::UNSAT);
    assert_eq!(dpll_algorithm(num_vars, &clauses), SATResult::UNSAT);
    assert_eq!(cdcl_algorithm(num_vars, &clauses), SATResult::UNSAT);
}

#[test]
fn formula_without_clauses_is_sat() {
    let clauses: Vec<Clause> = Vec::new();
    assert_eq!(model_of(simple_algorithm(2, &clauses)), vec![true, true]);
    assert_eq!(model_of(dpll_algorithm(2, &clauses)), vec![true, true]);
    assert_eq!(model_of(cdcl_algorithm(2, &clauses)), vec![true, true]);
    assert_eq!(model_of(dpll_algorithm(0, &clauses)), Vec::<bool>::new());
    assert_eq!(model_of(cdcl_algorithm(0, &clauses)), Vec::<bool>::new());
}

#[test]
fn empty_clause_over_no_variables_is_unsat() {
    let clauses = vec![Clause::from_vec(Vec::new())];
    assert_eq!(simple_algorithm(0, &clauses), SATResult::UNSAT);
    assert_eq!(dpll_algorithm(0, &clauses), SATResult::UNSAT);
    assert_eq!(cdcl_algorithm(0, &clauses), SATResult::UNSAT);
    assert!(!check_result(&clauses, &Vec::new()));
}

#[test]
fn exhaustive_search_over_no_variables_and_no_clauses_is_sat() {
    let clauses: Vec<Clause> = Vec::new();
    assert_eq!(model_of(simple_algorithm(0, &clauses)), Vec::<bool>::new());
}

#[test]
fn formula_true_under_all_true_gets_that_model_from_cdcl() {
    let (num_vars, clauses) = read("p cnf 4 3\n1 -2 0\n-1 2 3 0\n4 -3 0\n");
    assert!(check_result(&clauses, &vec![true; 4]));
    assert_eq!(model_of(cdcl_algorithm(num_vars, &clauses)), vec![true; 4]);
}
