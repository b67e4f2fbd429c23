use sat_solver::algorithm::bcp::{BCPSolver, BcpResult, Node};
use sat_solver::algorithm::cdcl::cdcl_algorithm;
use sat_solver::algorithm::dpll::dpll_algorithm;
use sat_solver::algorithm::interface::{Assignment, Clause, Lit, Model, SATResult, Sign};
use sat_solver::algorithm::simple::simple_algorithm;
use sat_solver::algorithm::utility::check_result;

fn formula(clauses: &[&[i64]]) -> Vec<Clause> {
    clauses
        .iter()
        .map(|c| Clause::from_vec(c.iter().map(|v| Lit::new(*v).unwrap()).collect()))
        .collect()
}

fn lit(v: i64) -> Lit {
    Lit::new(v).unwrap()
}

fn both_watches_false(solver: &BCPSolver, clause: usize) -> bool {
    let w = &solver.clauses[clause].watched;
    solver.truth_value_of_literal(w[0]) == Assignment::Bot
        && solver.truth_value_of_literal(w[1]) == Assignment::Bot
}

#[test]
fn conflict_learns_the_negated_decisions() {
    let f = formula(&[&[-1, -2, 3], &[-1, -2, -3]]);
    let mut solver = BCPSolver::from_dimacs(3, &f).unwrap();
    assert!(matches!(solver.bcp(lit(1), 0), BcpResult::Implications(_)));
    let before = solver.assignment.assignments.clone();
    match solver.bcp(lit(2), 1) {
        BcpResult::Conflict(clause) => assert_eq!(clause, 1),
        BcpResult::Implications(_) => panic!("expected a conflict"),
    }
    assert_eq!(solver.assignment.assignments, before);
    assert_eq!(solver.clauses.len(), 3);
    assert_eq!(solver.clauses[2].clause, Clause::from_vec(vec![lit(-1), lit(-2)]));
    assert_eq!(solver.clauses[2].watched, [lit(-1), lit(-2)]);
    assert!(solver.watches_for_var[0].contains(&2));
    assert!(solver.watches_for_var[1].contains(&2));
    assert!(solver.implication_graph[1].is_none());
    assert!(solver.implication_graph[2].is_none());
    assert!(solver.implication_graph[0].is_some());
}

#[test]
fn learned_clause_is_used_by_later_propagation() {
    let f = formula(&[&[-1, -2, 3], &[-1, -2, -3]]);
    let mut solver = BCPSolver::from_dimacs(3, &f).unwrap();
    assert!(matches!(solver.bcp(lit(1), 0), BcpResult::Implications(_)));
    assert!(matches!(solver.bcp(lit(2), 1), BcpResult::Conflict(_)));
    solver.unassign(&[lit(1)]);
    match solver.bcp(lit(2), 0) {
        BcpResult::Implications(lits) => assert_eq!(lits, vec![lit(2), lit(-1)]),
        BcpResult::Conflict(_) => panic!("expected implications"),
    }
    assert_eq!(
        solver.implication_graph[0].as_ref().map(|node| node.reason.clone()),
        Some(vec![1])
    );
}

#[test]
fn learning_search_keeps_the_models_of_the_formula() {
    let f = formula(&[&[-1, -3, 4], &[-2, -3, -4], &[2], &[3]]);
    let first = SATResult::SAT {
        model: Model { assignments: vec![false, true, true, false] },
    };
    assert!(check_result(&f, &vec![false, true, true, false]));
    assert_eq!(simple_algorithm(4, &f), first);
    assert_eq!(dpll_algorithm(4, &f), first);
    assert_eq!(cdcl_algorithm(4, &f), first);
}

#[test]
fn nodes_hold_the_level_and_the_reason_that_was_queued() {
    let f = formula(&[&[-1, 3], &[-1, -2, 3], &[-3, 2]]);
    let mut solver = BCPSolver::from_dimacs(3, &f).unwrap();
    match solver.bcp(lit(1), 4) {
        BcpResult::Implications(lits) => assert_eq!(lits, vec![lit(1), lit(3), lit(2)]),
        BcpResult::Conflict(_) => panic!("expected implications"),
    }
    let node = |v: usize| solver.implication_graph[v].as_ref().unwrap();
    assert_eq!((node(0).level, node(0).reason.clone()), (4, Vec::new()));
    assert_eq!((node(2).level, node(2).reason.clone()), (4, vec![0]));
    assert_eq!((node(1).level, node(1).reason.clone()), (4, vec![2]));
}

#[test]
fn conflict_learns_from_the_decisions_that_led_to_it() {
    let f = formula(&[&[-1, -3, 4], &[-2, -3, -4]]);
    let mut solver = BCPSolver::from_dimacs(4, &f).unwrap();
    assert!(matches!(solver.bcp(lit(1), 0), BcpResult::Implications(_)));
    assert!(matches!(solver.bcp(lit(2), 1), BcpResult::Implications(_)));
    assert!(matches!(solver.bcp(lit(3), 2), BcpResult::Conflict(1)));
    assert_eq!(
        solver.clauses[2].clause,
        Clause::from_vec(vec![lit(-1), lit(-2), lit(-3)])
    );
}

#[test]
fn learned_clause_watches_its_open_literal() {
    let f = formula(&[&[-1, -2, -3, 4], &[-1, -2, -3, -4]]);
    let mut solver = BCPSolver::from_dimacs(4, &f).unwrap();
    assert!(matches!(solver.bcp(lit(1), 0), BcpResult::Implications(_)));
    assert!(matches!(solver.bcp(lit(2), 1), BcpResult::Implications(_)));
    assert!(matches!(solver.bcp(lit(3), 2), BcpResult::Conflict(_)));
    assert_eq!(
        solver.clauses[2].clause,
        Clause::from_vec(vec![lit(-1), lit(-2), lit(-3)])
    );
    assert_eq!(solver.clauses[2].watched, [lit(-1), lit(-3)]);
    assert!(solver.watches_for_var[0].contains(&2));
    assert!(solver.watches_for_var[2].contains(&2));
    for c in 0..solver.clauses.len() {
        assert!(!both_watches_false(&solver, c));
    }
}

#[test]
fn learning_a_clause_at_the_conflict_itself() {
    let f = formula(&[&[-1, 2], &[-1, -2]]);
    let mut solver = BCPSolver::from_dimacs(2, &f).unwrap();
    solver.assignment.assignments[0] = Assignment::Top;
    solver.assignment.assignments[1] = Assignment::Top;
    solver.implication_graph[0] = Some(Node { level: 0, reason: Vec::new() });
    solver.implication_graph[1] = Some(Node { level: 0, reason: vec![0] });
    solver.learn_clause_from_conflict(1, 0);
    assert_eq!(solver.clauses.len(), 3);
    assert_eq!(solver.clauses[2].clause, Clause::from_vec(vec![lit(-1)]));
    assert_eq!(solver.clauses[2].watched, [lit(-1), lit(-1)]);
}

#[test]
fn cdcl_agrees_with_exhaustive_search() {
    let mut seed: u64 = 7;
    for _ in 0..300 {
        let num_vars = 1 + (next(&mut seed) % 5) as usize;
        let f = random_formula(&mut seed, num_vars);
        let expected = simple_algorithm(num_vars, &f);
        let found = cdcl_algorithm(num_vars, &f);
        if let SATResult::SAT { model } = &found {
            assert_eq!(model.assignments.len(), num_vars);
            assert!(check_result(&f, &model.assignments));
        }
        assert_eq!(found, expected);
        assert_eq!(dpll_algorithm(num_vars, &f), expected);
    }
}

#[test]
fn no_clause_has_two_false_watches_between_propagations() {
    let mut seed: u64 = 11;
    for _ in 0..200 {
        let num_vars = 2 + (next(&mut seed) % 5) as usize;
        let f = random_formula(&mut seed, num_vars);
        let mut solver = match BCPSolver::from_dimacs(num_vars, &f) {
            Ok(solver) => solver,
            Err(_) => continue,
        };
        for level in 0..num_vars {
            let v = (next(&mut seed) % num_vars as u64) as usize;
            if solver.assignment.assignments[v] != Assignment::Unassigned {
                continue;
            }
            let sign = if next(&mut seed) % 2 == 0 { Sign::Pos } else { Sign::Neg };
            let before = solver.assignment.assignments.clone();
            if let BcpResult::Conflict(_) = solver.bcp(Lit { index: v, sign }, level) {
                assert_eq!(solver.assignment.assignments, before);
            }
            for c in 0..solver.clauses.len() {
                assert!(!both_watches_false(&solver, c));
            }
            for w in 0..num_vars {
                assert_eq!(
                    solver.implication_graph[w].is_some(),
                    solver.assignment.assignments[w] != Assignment::Unassigned
                );
            }
        }
    }
}

fn next(seed: &mut u64) -> u64 {
    *seed = seed
        .wrapping_mul(6364136223846793005)
        .wrapping_add(1442695040888963407);
    *seed >> 33
}

fn random_formula(seed: &mut u64, num_vars: usize) -> Vec<Clause> {
    let clauses = 1 + next(seed) % 9;
    let mut f = Vec::new();
    for _ in 0..clauses {
        let len = 1 + next(seed) % 3;
        let mut lits = Vec::new();
        for _ in 0..len {
            let index = (next(seed) % num_vars as u64) as usize;
            let sign = if next(seed) % 2 == 0 { Sign::Pos } else { Sign::Neg };
            lits.push(Lit { index, sign });
        }
        f.push(Clause::from_vec(lits));
    }
    f
}
