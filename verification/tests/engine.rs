use sat_solver::algorithm::bcp::{snapshot, BCPSolver, BcpResult};
use sat_solver::algorithm::dpll::DPLLSolver;
use sat_solver::algorithm::interface::{Assignment, Clause, Lit, SATResult, Sign};
use sat_solver::algorithm::simple::simple_algorithm;
use sat_solver::algorithm::utility::{check_result, PreprocessError};

fn lit(v: i64) -> Lit {
    Lit::new(v).unwrap()
}

fn clause(lits: &[i64]) -> Clause {
    Clause::from_vec(lits.iter().map(|v| lit(*v)).collect())
}

fn formula(clauses: &[&[i64]]) -> Vec<Clause> {
    clauses.iter().map(|c| clause(c)).collect()
}

fn watches_of(solver: &BCPSolver, var: usize) -> Vec<usize> {
    solver.watches_for_var[var].iter().copied().collect()
}

fn watch_invariant_holds(solver: &BCPSolver) -> bool {
    solver.clauses.iter().all(|c| {
        !(solver.truth_value_of_literal(c.watched[0]) == Assignment::Bot
            && solver.truth_value_of_literal(c.watched[1]) == Assignment::Bot)
    })
}

fn false_watches_are_backed(solver: &BCPSolver) -> bool {
    solver.clauses.iter().all(|c| {
        (0..2).all(|slot| {
            solver.truth_value_of_literal(c.watched[slot]) != Assignment::Bot
                || solver.truth_value_of_literal(c.watched[1 - slot]) == Assignment::Top
        })
    })
}

fn no_clause_is_left_unit(solver: &BCPSolver) -> bool {
    solver.clauses.iter().all(|c| {
        let lits = c.clause.lits();
        let open = lits
            .iter()
            .filter(|l| solver.truth_value_of_literal(**l) == Assignment::Unassigned)
            .count();
        let true_ones = lits
            .iter()
            .filter(|l| solver.truth_value_of_literal(**l) == Assignment::Top)
            .count();
        true_ones > 0 || open >= 2 || (lits.len() == 1 && open == 1)
    })
}

fn index_is_exact(solver: &BCPSolver) -> bool {
    (0..solver.watches_for_var.len()).all(|v| {
        (0..solver.clauses.len()).all(|c| {
            let w = &solver.clauses[c].watched;
            solver.watches_for_var[v].contains(&c) == (w[0].index == v || w[1].index == v)
        })
    })
}

#[test]
fn store_watches_the_first_two_literals() {
    let f = formula(&[&[1, -2, 3], &[-3], &[2, 2, 1]]);
    let solver = BCPSolver::from_dimacs(3, &f).unwrap();
    assert_eq!(solver.clauses.len(), 3);
    assert_eq!(solver.clauses[0].watched, [lit(1), lit(-2)]);
    assert_eq!(solver.clauses[1].watched, [lit(-3), lit(-3)]);
    assert_eq!(solver.clauses[2].watched, [lit(2), lit(1)]);
    assert_eq!(solver.clauses[2].clause, clause(&[2, 1]));
    assert_eq!(watches_of(&solver, 0), vec![0, 2]);
    assert_eq!(watches_of(&solver, 1), vec![0, 2]);
    assert_eq!(watches_of(&solver, 2), vec![1]);
    assert_eq!(solver.assignment.assignments, vec![Assignment::Unassigned; 3]);
    assert!(solver.implication_graph.iter().all(|n| n.is_none()));
    assert!(solver.learning);
    assert!(!DPLLSolver::from_dimacs(3, &f).unwrap().engine.learning);
}

#[test]
fn store_refuses_an_empty_clause() {
    let f = formula(&[&[1], &[]]);
    assert!(matches!(
        BCPSolver::from_dimacs(1, &f),
        Err(PreprocessError::EmptyFormulaIsUnsat)
    ));
    assert!(matches!(
        DPLLSolver::from_dimacs(1, &f),
        Err(PreprocessError::EmptyFormulaIsUnsat)
    ));
}

#[test]
fn propagation_follows_a_chain_in_queue_order() {
    let f = formula(&[&[-1, 2], &[-2, 3], &[-3, 4], &[5, 6]]);
    let mut solver = DPLLSolver::from_dimacs(6, &f).unwrap();
    assert_eq!(solver.bcp(lit(1)), Some(vec![lit(1), lit(2), lit(3), lit(4)]));
    assert_eq!(
        solver.engine.assignment.assignments,
        vec![
            Assignment::Top,
            Assignment::Top,
            Assignment::Top,
            Assignment::Top,
            Assignment::Unassigned,
            Assignment::Unassigned
        ]
    );
    assert!(watch_invariant_holds(&solver.engine));
    assert!(index_is_exact(&solver.engine));
    let node = solver.engine.implication_graph[2].as_ref().unwrap();
    assert_eq!(node.reason, vec![1]);
    assert_eq!(node.level, 0);
    assert!(solver.engine.implication_graph[0].as_ref().unwrap().reason.is_empty());
    assert!(solver.engine.implication_graph[4].is_none());
}

#[test]
fn propagation_lists_a_literal_once_though_two_clauses_force_it() {
    let f = formula(&[&[-1, 2], &[-1, 2, 3]]);
    let mut solver = DPLLSolver::from_dimacs(3, &f).unwrap();
    assert_eq!(solver.bcp(lit(1)), Some(vec![lit(1), lit(2)]));
    let g = formula(&[&[-1, 2], &[-1, 2]]);
    let mut solver = DPLLSolver::from_dimacs(2, &g).unwrap();
    assert_eq!(solver.bcp(lit(1)), Some(vec![lit(1), lit(2)]));
    let node = solver.engine.implication_graph[1].as_ref().unwrap();
    assert_eq!(node.reason, vec![0]);
    let h = formula(&[&[-1, 3], &[-1, -2, 3], &[-2, -1, 3]]);
    let mut solver = DPLLSolver::from_dimacs(3, &h).unwrap();
    assert_eq!(solver.bcp(lit(2)), Some(vec![lit(2)]));
    assert_eq!(solver.bcp(lit(1)), Some(vec![lit(1), lit(3)]));
    let node = solver.engine.implication_graph[2].as_ref().unwrap();
    assert_eq!(node.reason, vec![0]);
}

#[test]
fn false_watch_moves_to_the_first_literal_that_may_take_it() {
    let f = formula(&[&[1, 2, 3, 4]]);
    let mut solver = DPLLSolver::from_dimacs(4, &f).unwrap();
    assert_eq!(solver.bcp(lit(-1)), Some(vec![lit(-1)]));
    assert_eq!(solver.engine.clauses[0].watched, [lit(3), lit(2)]);
    assert_eq!(watches_of(&solver.engine, 0), Vec::<usize>::new());
    assert_eq!(watches_of(&solver.engine, 2), vec![0]);
    assert_eq!(solver.bcp(lit(-2)), Some(vec![lit(-2)]));
    assert_eq!(solver.engine.clauses[0].watched, [lit(3), lit(4)]);
    assert_eq!(solver.bcp(lit(-3)), Some(vec![lit(-3), lit(4)]));
    assert!(index_is_exact(&solver.engine));
}

#[test]
fn watch_prefers_a_true_literal_that_comes_first() {
    let f = formula(&[&[1, 2, 3], &[-4, 1]]);
    let mut solver = DPLLSolver::from_dimacs(4, &f).unwrap();
    assert_eq!(solver.bcp(lit(3)), Some(vec![lit(3)]));
    assert_eq!(solver.bcp(lit(-2)), Some(vec![lit(-2)]));
    assert_eq!(solver.engine.clauses[0].watched, [lit(1), lit(3)]);
}

#[test]
fn conflict_restores_assignment_and_graph() {
    let f = formula(&[&[-1, 2], &[-2, 3], &[-3, -1]]);
    let mut solver = DPLLSolver::from_dimacs(3, &f).unwrap();
    assert_eq!(solver.bcp(lit(1)), None);
    assert_eq!(solver.engine.assignment.assignments, vec![Assignment::Unassigned; 3]);
    assert!(solver.engine.implication_graph.iter().all(|n| n.is_none()));
    assert_eq!(solver.engine.clauses.len(), 3);
    assert!(watch_invariant_holds(&solver.engine));
    assert!(index_is_exact(&solver.engine));
    assert_eq!(solver.bcp(lit(-1)), Some(vec![lit(-1)]));
}

#[test]
fn conflict_names_the_false_clause() {
    let f = formula(&[&[1, 2], &[-1], &[3]]);
    let mut solver = BCPSolver::from_dimacs(3, &f).unwrap();
    assert!(matches!(solver.bcp(lit(1), 0), BcpResult::Conflict(1)));
    assert!(matches!(solver.bcp(lit(-3), 0), BcpResult::Conflict(2)));
}

#[test]
fn engine_helpers() {
    let f = formula(&[&[1, 2, 3]]);
    let mut solver = BCPSolver::from_dimacs(3, &f).unwrap();
    assert_eq!(solver.next_unassigned_lit(), Some(lit(1)));
    assert!(matches!(solver.bcp(lit(-1), 0), BcpResult::Implications(_)));
    assert_eq!(solver.next_unassigned_lit(), Some(lit(2)));
    assert_eq!(solver.truth_value_of_literal(lit(1)), Assignment::Bot);
    assert_eq!(solver.truth_value_of_literal(lit(-1)), Assignment::Top);
    assert_eq!(solver.truth_value_of_literal(lit(2)), Assignment::Unassigned);
    let c = clause(&[1, 2, 3]);
    assert_eq!(solver.find_next_watched_literal(&c, lit(2)), Some(lit(3)));
    assert_eq!(solver.find_next_watched_literal(&c, lit(3)), Some(lit(2)));
    assert_eq!(solver.find_next_watched_literal(&clause(&[1, 2]), lit(2)), None);
    assert_eq!(solver.find_next_watched_literal(&clause(&[-1, 2]), lit(2)), Some(lit(-1)));
    solver.unassign(&[lit(-1)]);
    assert_eq!(solver.assignment.assignments, vec![Assignment::Unassigned; 3]);
    assert!(solver.implication_graph[0].is_none());
    assert_eq!(solver.next_unassigned_lit(), Some(lit(1)));
}

#[test]
fn added_clause_watches_first_literal_and_first_open_one_after_it() {
    let f = formula(&[&[1], &[2]]);
    let mut solver = BCPSolver::from_dimacs(4, &f).unwrap();
    assert!(matches!(solver.bcp(lit(2), 0), BcpResult::Implications(_)));
    solver.add_watched_clause(clause(&[1, -2, 3, 4]));
    assert_eq!(solver.clauses[2].watched, [lit(1), lit(3)]);
    solver.add_watched_clause(clause(&[3, -2]));
    assert_eq!(solver.clauses[3].watched, [lit(3), lit(-2)]);
    solver.add_watched_clause(clause(&[-2]));
    assert_eq!(solver.clauses[4].watched, [lit(-2), lit(-2)]);
    solver.add_watched_clause(clause(&[-4, 2]));
    assert_eq!(solver.clauses[5].watched, [lit(-4), lit(2)]);
    assert!(index_is_exact(&solver));
}

#[test]
fn rewatch_moves_the_index_entry() {
    let f = formula(&[&[1, 2, 3]]);
    let mut solver = BCPSolver::from_dimacs(3, &f).unwrap();
    solver.rewatch(0, 1, lit(3));
    assert_eq!(solver.clauses[0].watched, [lit(1), lit(3)]);
    assert_eq!(watches_of(&solver, 1), Vec::<usize>::new());
    assert_eq!(watches_of(&solver, 2), vec![0]);
    assert!(index_is_exact(&solver));
}

#[test]
fn failed_branch_leaves_the_assignment_as_it_was() {
    let f = formula(&[&[1, 2], &[1, -2], &[-1, 3], &[-1, -3]]);
    let mut solver = DPLLSolver::from_dimacs(3, &f).unwrap();
    assert_eq!(solver.dpll_recursive(), SATResult::UNSAT);
    assert_eq!(solver.engine.assignment.assignments, vec![Assignment::Unassigned; 3]);
    assert!(solver.engine.implication_graph.iter().all(|n| n.is_none()));
    let mut learner = BCPSolver::from_dimacs(3, &f).unwrap();
    assert_eq!(learner.cdcl_branch(lit(1), 0), SATResult::UNSAT);
    assert_eq!(learner.assignment.assignments, vec![Assignment::Unassigned; 3]);
    assert!(learner.clauses.len() > 4);
}

#[test]
fn iterative_search_undoes_what_still_stands_when_it_fails() {
    let f = formula(&[
        &[-1, 2],
        &[-1, -2],
        &[1, 2, 3],
        &[1, 2, -3],
        &[1, -2, 3],
        &[1, -2, -3],
    ]);
    let mut solver = DPLLSolver::from_dimacs(3, &f).unwrap();
    assert_eq!(solver.dpll_iterative(), SATResult::UNSAT);
    assert_eq!(solver.engine.assignment.assignments, vec![Assignment::Unassigned; 3]);
    assert!(solver.engine.implication_graph.iter().all(|n| n.is_none()));
    assert!(watch_invariant_holds(&solver.engine));
    let mut seed: u64 = 23;
    for _ in 0..200 {
        let num_vars = 1 + (next(&mut seed) % 6) as usize;
        let g = random_formula(&mut seed, num_vars);
        let mut solver = DPLLSolver::from_dimacs(num_vars, &g).unwrap();
        if solver.dpll_iterative() == SATResult::UNSAT {
            assert_eq!(
                solver.engine.assignment.assignments,
                vec![Assignment::Unassigned; num_vars]
            );
            assert!(solver.engine.implication_graph.iter().all(|n| n.is_none()));
        }
    }
}

#[test]
fn dpll_agrees_with_exhaustive_search_on_random_formulas() {
    let mut seed: u64 = 11;
    let mut sat = 0;
    for _ in 0..400 {
        let num_vars = 1 + (next(&mut seed) % 6) as usize;
        let f = random_formula(&mut seed, num_vars);
        let expected = simple_algorithm(num_vars, &f);
        let mut recursive = DPLLSolver::from_dimacs(num_vars, &f).unwrap();
        let mut iterative = DPLLSolver::from_dimacs(num_vars, &f).unwrap();
        let a = recursive.dpll_recursive();
        let b = iterative.dpll_iterative();
        assert_eq!(a, expected);
        assert_eq!(b, expected);
        if let SATResult::SAT { model } = &a {
            assert!(check_result(&f, &model.assignments));
            sat += 1;
        }
        assert!(watch_invariant_holds(&recursive.engine));
        assert!(watch_invariant_holds(&iterative.engine));
        assert!(false_watches_are_backed(&recursive.engine));
        assert!(false_watches_are_backed(&iterative.engine));
        assert!(index_is_exact(&iterative.engine));
    }
    assert!(sat > 50 && sat < 350);
}

fn first_model(num_vars: usize, f: &Vec<Clause>) -> Option<Vec<bool>> {
    for bits in 0..(1u32 << num_vars) {
        let m: Vec<bool> = (0..num_vars)
            .map(|v| bits & (1 << (num_vars - 1 - v)) == 0)
            .collect();
        if check_result(f, &m) {
            return Some(m);
        }
    }
    None
}

#[test]
fn searches_return_the_first_model_in_search_order() {
    let mut seed: u64 = 5;
    for _ in 0..300 {
        let num_vars = 1 + (next(&mut seed) % 5) as usize;
        let f = random_formula(&mut seed, num_vars);
        let expected = match first_model(num_vars, &f) {
            Some(m) => SATResult::SAT {
                model: sat_solver::algorithm::interface::Model { assignments: m },
            },
            None => SATResult::UNSAT,
        };
        assert_eq!(simple_algorithm(num_vars, &f), expected);
        assert_eq!(sat_solver::algorithm::dpll::dpll_algorithm(num_vars, &f), expected);
        let mut recursive = DPLLSolver::from_dimacs(num_vars, &f).unwrap();
        assert_eq!(recursive.dpll_recursive(), expected);
    }
}

#[test]
fn propagation_leaves_no_clause_unit() {
    let mut seed: u64 = 23;
    let mut implied = 0;
    for _ in 0..300 {
        let num_vars = 2 + (next(&mut seed) % 6) as usize;
        let f = random_formula(&mut seed, num_vars);
        let mut solver = DPLLSolver::from_dimacs(num_vars, &f).unwrap();
        loop {
            let lit = match solver.engine.next_unassigned_lit() {
                Some(lit) => lit,
                None => break,
            };
            let lit = if next(&mut seed) % 2 == 0 { lit } else { Lit { index: lit.index, sign: Sign::Neg } };
            let before = solver.engine.assignment.assignments.clone();
            match solver.bcp(lit) {
                Some(lits) => {
                    implied += lits.len() - 1;
                    assert_eq!(lits[0], lit);
                }
                None => {
                    assert_eq!(solver.engine.assignment.assignments, before);
                    break;
                }
            }
            assert!(false_watches_are_backed(&solver.engine));
            assert!(no_clause_is_left_unit(&solver.engine));
            assert!(index_is_exact(&solver.engine));
        }
        assert!(false_watches_are_backed(&solver.engine));
    }
    assert!(implied > 100);
}

fn next(seed: &mut u64) -> u64 {
    *seed = seed
        .wrapping_mul(6364136223846793005)
        .wrapping_add(1442695040888963407);
    *seed >> 33
}

fn random_formula(seed: &mut u64, num_vars: usize) -> Vec<Clause> {
    let clauses = 1 + next(seed) % 12;
    let mut f = Vec::new();
    for _ in 0..clauses {
        let len = 1 + next(seed) % 3;
        let mut lits = Vec::new();
        for _ in 0..len {
            let index = (next(seed) % num_vars as u64) as usize;
            let sign = if next(seed) % 2 == 0 { Sign::Pos } else { Sign::Neg };
            lits.push(Lit { index, sign });
        }
        f.push(Clause::from_vec(lits));
    }
    f
}

#[test]
fn snapshot_lists_a_set_in_ascending_order() {
    let mut set = std::collections::BTreeSet::new();
    for x in [7usize, 2, 9, 2, 0, 5] {
        set.insert(x);
    }
    assert_eq!(snapshot(&set), vec![0, 2, 5, 7, 9]);
    assert_eq!(snapshot(&std::collections::BTreeSet::new()), Vec::<usize>::new());
}

#[test]
fn unit_cascade_lists_the_literals_and_writes_their_nodes() {
    let f = formula(&[&[1], &[-1, 2], &[-2, 3]]);
    let mut solver = BCPSolver::from_dimacs(3, &f).unwrap();
    match solver.bcp(lit(1), 0) {
        BcpResult::Implications(lits) => assert_eq!(lits, vec![lit(1), lit(2), lit(3)]),
        BcpResult::Conflict(_) => panic!("expected implications"),
    }
    assert_eq!(solver.assignment.assignments, vec![Assignment::Top; 3]);
    let nodes: Vec<(usize, Vec<usize>)> = solver
        .implication_graph
        .iter()
        .map(|n| {
            let n = n.as_ref().unwrap();
            (n.level, n.reason.clone())
        })
        .collect();
    assert_eq!(nodes, vec![(0, vec![]), (0, vec![0]), (0, vec![1])]);
}
