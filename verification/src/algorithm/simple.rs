//! Exhaustive search: tries both values of each variable in index order and
//! gives a branch up as soon as some clause has become false.

use vstd::prelude::*;
use crate::algorithm::formula::{
    bools_of,
    clause_false,
    clause_in_range,
    formula_in_range,
    formula_of,
    first_model,
    first_model_within,
    lemma_first_in_false_branch,
    lemma_first_in_true_branch,
    lemma_first_model_of_all,
    lemma_first_when_total,
    lemma_refuted_both_ways,
    lemma_refuted_by_false_clause,
    lemma_refuted_unassigned,
    lemma_total_without_false_clause,
    refuted,
    satisfiable,
    total,
    truth_value,
    with_value,
};
use crate::algorithm::interface::{Assignment, Clause, Lit, Model, SATResult, Sign};

verus! {

/// The variables below `cur_var` have a value, the others have none.
pub open spec fn assigned_below(a: Seq<Assignment>, cur_var: int) -> bool {
    forall|v: int|
        0 <= v < a.len() ==> ((#[trigger] a[v] == Assignment::Unassigned) <==> v >= cur_var)
}

/// No clause of the formula is false under the partial assignment.
pub open spec fn no_false_clause(formula: Seq<Seq<Lit>>, a: Seq<Assignment>) -> bool {
    forall|i: int| 0 <= i < formula.len() ==> !clause_false(#[trigger] formula[i], a)
}

/// Whether the literal is false under the partial assignment.
fn false_assignment(lit: Lit, assignment: &Vec<Assignment>) -> (r: bool)
    requires
        lit.index < assignment@.len(),
    ensures
        r == (truth_value(lit, assignment@) == Assignment::Bot),
{
    match lit.sign {
        Sign::Neg => assignment[lit.index] == Assignment::Top,
        Sign::Pos => assignment[lit.index] == Assignment::Bot,
    }
}

/// Whether every literal of the clause is false under the partial
/// assignment.
fn false_clause(clause: &Clause, assignment: &Vec<Assignment>) -> (r: bool)
    requires
        clause_in_range(clause@, assignment@.len()),
    ensures
        r == clause_false(clause@, assignment@),
{
    let mut j: usize = 0;
    while j < clause.lits.len()
        invariant
            j <= clause@.len(),
            clause_in_range(clause@, assignment@.len()),
            forall|p: int|
                0 <= p < j ==> truth_value(#[trigger] clause@[p], assignment@) == Assignment::Bot,
        decreases clause@.len() - j,
    {
        if !false_assignment(clause.lits[j], assignment) {
            return false;
        }
        j += 1;
    }
    true
}

/// Whether some clause has only false literals under the partial
/// assignment.
fn contains_false_clause(clauses: &Vec<Clause>, assignment: &Vec<Assignment>) -> (r: bool)
    requires
        formula_in_range(formula_of(clauses@), assignment@.len()),
    ensures
        r == !no_false_clause(formula_of(clauses@), assignment@),
        r ==> refuted(formula_of(clauses@), assignment@),
{
    let ghost formula = formula_of(clauses@);
    let mut i: usize = 0;
    while i < clauses.len()
        invariant
            i <= clauses.len(),
            formula == formula_of(clauses@),
            formula_in_range(formula, assignment@.len()),
            forall|p: int| 0 <= p < i ==> !clause_false(#[trigger] formula[p], assignment@),
        decreases clauses.len() - i,
    {
        proof {
            assert(clause_in_range(formula[i as int], assignment@.len()));
        }
        if false_clause(&clauses[i], assignment) {
            proof {
                lemma_refuted_by_false_clause(formula, assignment@, i as int);
            }
            return true;
        }
        i += 1;
    }
    false
}

/// Tries variable `cur_var` true, then false, and searches on with the next
/// variable wherever no clause has become false. On failure the variable is
/// left without a value.
fn simple_algorithm_recursion(
    num_vars: usize,
    clauses: &Vec<Clause>,
    assignment: &mut Vec<Assignment>,
    cur_var: usize,
) -> (sat: bool)
    requires
        old(assignment)@.len() == num_vars,
        cur_var <= num_vars,
        formula_in_range(formula_of(clauses@), num_vars as nat),
        assigned_below(old(assignment)@, cur_var as int),
        no_false_clause(formula_of(clauses@), old(assignment)@),
    ensures
        final(assignment)@.len() == num_vars,
        forall|v: int| 0 <= v < cur_var ==> final(assignment)@[v] == old(assignment)@[v],
        cur_var == num_vars ==> sat,
        sat ==> total(final(assignment)@),
        sat ==> no_false_clause(formula_of(clauses@), final(assignment)@),
        sat ==> first_model_within(
            formula_of(clauses@),
            old(assignment)@,
            bools_of(final(assignment)@),
        ),
        !sat ==> final(assignment)@ == old(assignment)@,
        !sat ==> refuted(formula_of(clauses@), old(assignment)@),
    decreases num_vars - cur_var,
{
    let ghost formula = formula_of(clauses@);
    let ghost before = assignment@;
    if cur_var >= num_vars {
        proof {
            lemma_total_without_false_clause(formula, before);
            lemma_first_when_total(formula, before);
        }
        return true;
    }

    assignment[cur_var] = Assignment::Top;
    proof {
        assert(assignment@ == with_value(before, cur_var as int, Assignment::Top));
    }
    if !contains_false_clause(clauses, assignment) {
        let sat = simple_algorithm_recursion(num_vars, clauses, assignment, cur_var + 1);
        if sat {
            proof {
                lemma_first_in_true_branch(
                    formula,
                    before,
                    cur_var as int,
                    bools_of(assignment@),
                );
            }
            return true;
        }
    }
    proof {
        assert(assignment@ == with_value(before, cur_var as int, Assignment::Top));
        assert(refuted(formula, with_value(before, cur_var as int, Assignment::Top)));
    }
    assignment[cur_var] = Assignment::Bot;
    proof {
        assert(assignment@ == with_value(before, cur_var as int, Assignment::Bot));
    }
    if !contains_false_clause(clauses, assignment) {
        let sat = simple_algorithm_recursion(num_vars, clauses, assignment, cur_var + 1);
        if sat {
            proof {
                lemma_first_in_false_branch(
                    formula,
                    before,
                    cur_var as int,
                    bools_of(assignment@),
                );
            }
            return true;
        }
    }
    proof {
        assert(assignment@ == with_value(before, cur_var as int, Assignment::Bot));
        lemma_refuted_both_ways(formula, before, cur_var as int);
    }
    assignment[cur_var] = Assignment::Unassigned;
    proof {
        assert(assignment@ == before);
    }
    false
}

/// The Boolean values of a total assignment.
pub fn to_model(assignment: &Vec<Assignment>) -> (model: Model)
    requires
        total(assignment@),
    ensures
        model.assignments@ == bools_of(assignment@),
{
    let mut values: Vec<bool> = Vec::new();
    let mut v: usize = 0;
    while v < assignment.len()
        invariant
            v <= assignment.len(),
            total(assignment@),
            values@ == bools_of(assignment@).take(v as int),
        decreases assignment.len() - v,
    {
        values.push(assignment[v].to_bool());
        v += 1;
    }
    Model { assignments: values }
}

/// Decides the formula by exhaustive search over its `num_vars` variables.
///
/// The verdict is `SAT` exactly when the formula is satisfiable, and the
/// model returned is the first one in the order of the search, which tries
/// true before false from the lowest variable on. A formula with an empty
/// clause is `UNSAT` before any variable is tried.
pub fn simple_algorithm(num_vars: usize, clauses: &Vec<Clause>) -> (res: SATResult)
    requires
        formula_in_range(formula_of(clauses@), num_vars as nat),
    ensures
        res is SAT <==> satisfiable(num_vars as nat, formula_of(clauses@)),
        res matches SATResult::SAT { model } ==> first_model(
            num_vars as nat,
            formula_of(clauses@),
            model.assignments@,
        ),
{
    let ghost formula = formula_of(clauses@);
    let mut assignment: Vec<Assignment> = Vec::new();
    let mut v: usize = 0;
    while v < num_vars
        invariant
            v <= num_vars,
            assignment@.len() == v,
            forall|w: int| 0 <= w < v ==> assignment@[w] == Assignment::Unassigned,
        decreases num_vars - v,
    {
        assignment.push(Assignment::Unassigned);
        v += 1;
    }
    let ghost start = assignment@;
    proof {
        lemma_refuted_unassigned(num_vars as nat, formula, start);
    }
    if contains_false_clause(clauses, &assignment) {
        return SATResult::UNSAT;
    }
    let sat = simple_algorithm_recursion(num_vars, clauses, &mut assignment, 0);
    if sat {
        let model = to_model(&assignment);
        proof {
            lemma_total_without_false_clause(formula, assignment@);
            lemma_first_model_of_all(num_vars as nat, formula, start, model.assignments@);
        }
        SATResult::SAT { model }
    } else {
        SATResult::UNSAT
    }
}

} // verus!
