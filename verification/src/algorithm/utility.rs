//! Clause clean-up before search, and the check of a claimed model.

use vstd::prelude::*;
use crate::algorithm::formula::{
    clause_in_range,
    clause_true,
    formula_in_range,
    formula_of,
    formula_true,
    lit_true,
    satisfiable,
};
pub use crate::algorithm::interface::negate;
use crate::algorithm::interface::{Clause, Lit, Sign};

pub use crate::algorithm::interface::{assignment_from_sign, index_to_lit, lit_to_index};
pub use crate::algorithm::reader::read_file;

verus! {

/// Why a formula could not be cleaned.
#[derive(Clone, Copy, Debug, PartialEq, Eq, Structural)]
pub enum PreprocessError {
    /// The formula holds a clause without literals, which nothing satisfies.
    EmptyFormulaIsUnsat,
}

/// The clause holds some literal together with its negation.
pub open spec fn is_tautology(clause: Seq<Lit>) -> bool {
    exists|i: int, j: int|
        0 <= i < clause.len() && 0 <= j < clause.len() && #[trigger] clause[i] == (
        #[trigger] clause[j]).negated()
}

/// No two positions of the clause hold literals on the same variable.
pub open spec fn distinct_vars(clause: Seq<Lit>) -> bool {
    forall|i: int, j: int|
        0 <= i < j < clause.len() ==> (#[trigger] clause[i]).index != (#[trigger] clause[j]).index
}

/// The clause without repeated literals: each literal stays where it first
/// occurred.
pub open spec fn dedup(clause: Seq<Lit>) -> Seq<Lit>
    decreases clause.len(),
{
    if clause.len() == 0 {
        clause
    } else {
        let init = dedup(clause.drop_last());
        if init.contains(clause.last()) {
            init
        } else {
            init.push(clause.last())
        }
    }
}

/// The formula without its tautological clauses and with each remaining
/// clause freed of repeated literals, in the order of the formula.
pub open spec fn cleaned(formula: Seq<Seq<Lit>>) -> Seq<Seq<Lit>>
    decreases formula.len(),
{
    if formula.len() == 0 {
        formula
    } else {
        let init = cleaned(formula.drop_last());
        if is_tautology(formula.last()) {
            init
        } else {
            init.push(dedup(formula.last()))
        }
    }
}

/// Some clause of the formula has no literal.
pub open spec fn has_empty_clause(formula: Seq<Seq<Lit>>) -> bool {
    exists|i: int| 0 <= i < formula.len() && (#[trigger] formula[i]).len() == 0
}

/// A clause ready for search: not empty and with each variable at most once.
pub open spec fn clause_clean(clause: Seq<Lit>) -> bool {
    clause.len() > 0 && distinct_vars(clause)
}

/// Every clause of the formula is ready for search.
pub open spec fn formula_clean(formula: Seq<Seq<Lit>>) -> bool {
    forall|i: int| 0 <= i < formula.len() ==> clause_clean(#[trigger] formula[i])
}

/// `dedup` keeps exactly the literals of the clause, each once.
pub proof fn lemma_dedup_same_literals(clause: Seq<Lit>)
    ensures
        forall|l: Lit| #[trigger] dedup(clause).contains(l) ==> clause.contains(l),
        forall|l: Lit| #[trigger] clause.contains(l) ==> dedup(clause).contains(l),
        dedup(clause).no_duplicates(),
        dedup(clause).len() <= clause.len(),
        clause.len() > 0 ==> dedup(clause).len() > 0,
    decreases clause.len(),
{
    if clause.len() > 0 {
        let init = clause.drop_last();
        let last = clause.last();
        lemma_dedup_same_literals(init);
        let di = dedup(init);
        let d = dedup(clause);
        assert(d == if di.contains(last) { di } else { di.push(last) });
        assert forall|l: Lit| #[trigger] clause.contains(l) implies d.contains(l) by {
            let k = choose|k: int| 0 <= k < clause.len() && clause[k] == l;
            if k < clause.len() - 1 {
                assert(init[k] == l);
                assert(init.contains(l));
                assert(di.contains(l));
                let p = choose|p: int| 0 <= p < di.len() && di[p] == l;
                assert(d[p] == l);
            } else if !di.contains(l) {
                assert(d[di.len() as int] == l);
            } else {
                let p = choose|p: int| 0 <= p < di.len() && di[p] == l;
                assert(d[p] == l);
            }
        }
        assert forall|l: Lit| #[trigger] d.contains(l) implies clause.contains(l) by {
            let p = choose|p: int| 0 <= p < d.len() && d[p] == l;
            if p < di.len() {
                assert(di[p] == l);
                assert(di.contains(l));
                assert(init.contains(l));
                let k = choose|k: int| 0 <= k < init.len() && init[k] == l;
                assert(clause[k] == l);
            } else {
                assert(clause[clause.len() - 1] == l);
            }
        }
    }
}

/// A clause and its `dedup` are true under the same assignments.
pub proof fn lemma_dedup_same_truth(clause: Seq<Lit>, m: Seq<bool>)
    ensures
        clause_true(dedup(clause), m) == clause_true(clause, m),
{
    lemma_dedup_same_literals(clause);
    if clause_true(clause, m) {
        let j = choose|j: int| 0 <= j < clause.len() && lit_true(#[trigger] clause[j], m);
        assert(clause.contains(clause[j]));
        let p = choose|p: int| 0 <= p < dedup(clause).len() && dedup(clause)[p] == clause[j];
        assert(lit_true(dedup(clause)[p], m));
    }
    if clause_true(dedup(clause), m) {
        let p = choose|p: int|
            0 <= p < dedup(clause).len() && lit_true(#[trigger] dedup(clause)[p], m);
        assert(dedup(clause).contains(dedup(clause)[p]));
        let j = choose|j: int| 0 <= j < clause.len() && clause[j] == dedup(clause)[p];
        assert(lit_true(clause[j], m));
    }
}

/// The `dedup` of a clause that is no tautology holds each variable once,
/// and stays within the variables of the clause.
pub proof fn lemma_dedup_clean(clause: Seq<Lit>, num_vars: nat)
    requires
        !is_tautology(clause),
        clause.len() > 0,
    ensures
        clause_clean(dedup(clause)),
        clause_in_range(clause, num_vars) ==> clause_in_range(dedup(clause), num_vars),
{
    lemma_dedup_same_literals(clause);
    let d = dedup(clause);
    assert forall|i: int, j: int| 0 <= i < j < d.len() implies (#[trigger] d[i]).index != (
    #[trigger] d[j]).index by {
        assert(d.contains(d[i]));
        assert(d.contains(d[j]));
        let a = choose|a: int| 0 <= a < clause.len() && clause[a] == d[i];
        let b = choose|b: int| 0 <= b < clause.len() && clause[b] == d[j];
        if d[i].index == d[j].index {
            if d[i].sign == d[j].sign {
                assert(d[i] == d[j]);
            } else {
                assert(clause[a] == clause[b].negated());
            }
        }
    }
    if clause_in_range(clause, num_vars) {
        assert forall|j: int| 0 <= j < d.len() implies (#[trigger] d[j]).index < num_vars by {
            assert(d.contains(d[j]));
            let a = choose|a: int| 0 <= a < clause.len() && clause[a] == d[j];
        }
    }
}

/// A tautology is true under every assignment that covers its variables.
pub proof fn lemma_tautology_true(clause: Seq<Lit>, m: Seq<bool>)
    requires
        is_tautology(clause),
        clause_in_range(clause, m.len()),
    ensures
        clause_true(clause, m),
{
    let (i, j) = choose|i: int, j: int|
        0 <= i < clause.len() && 0 <= j < clause.len() && #[trigger] clause[i] == (
        #[trigger] clause[j]).negated();
    if lit_true(clause[i], m) {
    } else {
        assert(lit_true(clause[j], m));
    }
}

/// Cleaning keeps the models of a formula: over the variables that the
/// formula is written on, the cleaned formula is true under exactly the
/// assignments under which the formula is true. The cleaned formula stays
/// within those variables, and where the formula has no empty clause each
/// cleaned clause is ready for search.
pub proof fn lemma_cleaned_equivalent(formula: Seq<Seq<Lit>>, m: Seq<bool>)
    requires
        formula_in_range(formula, m.len()),
    ensures
        formula_true(cleaned(formula), m) == formula_true(formula, m),
        formula_in_range(cleaned(formula), m.len()),
        !has_empty_clause(formula) ==> formula_clean(cleaned(formula)),
    decreases formula.len(),
{
    if formula.len() > 0 {
        let init = formula.drop_last();
        let last = formula.last();
        assert(formula_in_range(init, m.len())) by {
            assert forall|i: int| 0 <= i < init.len() implies clause_in_range(
                #[trigger] init[i],
                m.len(),
            ) by {
                assert(init[i] == formula[i]);
            }
        }
        lemma_cleaned_equivalent(init, m);
        let c = cleaned(formula);
        let ci = cleaned(init);
        assert(clause_in_range(last, m.len())) by {
            assert(last == formula[formula.len() - 1]);
        }
        lemma_dedup_same_truth(last, m);
        if is_tautology(last) {
            lemma_tautology_true(last, m);
        } else if last.len() > 0 {
            lemma_dedup_clean(last, m.len());
        } else {
            assert(dedup(last) == last);
        }
        assert(formula_in_range(c, m.len())) by {
            assert forall|i: int| 0 <= i < c.len() implies clause_in_range(
                #[trigger] c[i],
                m.len(),
            ) by {
                if i < ci.len() {
                    assert(c[i] == ci[i]);
                }
            }
        }
        if formula_true(formula, m) {
            assert(formula_true(init, m)) by {
                assert forall|i: int| 0 <= i < init.len() implies clause_true(
                    #[trigger] init[i],
                    m,
                ) by {
                    assert(init[i] == formula[i]);
                }
            }
            assert(clause_true(last, m)) by {
                assert(last == formula[formula.len() - 1]);
            }
            assert forall|i: int| 0 <= i < c.len() implies clause_true(#[trigger] c[i], m) by {
                if i < ci.len() {
                    assert(c[i] == ci[i]);
                }
            }
        }
        if formula_true(c, m) {
            assert(formula_true(ci, m)) by {
                assert forall|i: int| 0 <= i < ci.len() implies clause_true(
                    #[trigger] ci[i],
                    m,
                ) by {
                    assert(c[i] == ci[i]);
                }
            }
            if !is_tautology(last) {
                assert(c[c.len() - 1] == dedup(last));
                assert(clause_true(dedup(last), m));
            }
            assert forall|i: int| 0 <= i < formula.len() implies clause_true(
                #[trigger] formula[i],
                m,
            ) by {
                if i < init.len() {
                    assert(init[i] == formula[i]);
                }
            }
        }
        if !has_empty_clause(formula) {
            assert(!has_empty_clause(init)) by {
                if has_empty_clause(init) {
                    let i = choose|i: int| 0 <= i < init.len() && (#[trigger] init[i]).len() == 0;
                    assert(formula[i].len() == 0);
                }
            }
            assert(last.len() > 0) by {
                assert(last == formula[formula.len() - 1]);
            }
            assert forall|i: int| 0 <= i < c.len() implies clause_clean(#[trigger] c[i]) by {
                if i < ci.len() {
                    assert(c[i] == ci[i]);
                }
            }
        }
    }
}

/// A formula written on `num_vars` variables is satisfiable exactly when its
/// cleaned form is.
pub proof fn lemma_cleaning_keeps_satisfiability(num_vars: nat, formula: Seq<Seq<Lit>>)
    requires
        formula_in_range(formula, num_vars),
    ensures
        satisfiable(num_vars, cleaned(formula)) == satisfiable(num_vars, formula),
{
    if satisfiable(num_vars, formula) {
        let m = choose|m: Seq<bool>| m.len() == num_vars && #[trigger] formula_true(formula, m);
        lemma_cleaned_equivalent(formula, m);
    }
    if satisfiable(num_vars, cleaned(formula)) {
        let m = choose|m: Seq<bool>|
            m.len() == num_vars && #[trigger] formula_true(cleaned(formula), m);
        lemma_cleaned_equivalent(formula, m);
    }
}

/// A formula with an empty clause has no model.
pub proof fn lemma_empty_clause_unsatisfiable(num_vars: nat, formula: Seq<Seq<Lit>>)
    requires
        has_empty_clause(formula),
    ensures
        !satisfiable(num_vars, formula),
{
    let i = choose|i: int| 0 <= i < formula.len() && (#[trigger] formula[i]).len() == 0;
    assert forall|m: Seq<bool>| !(m.len() == num_vars && #[trigger] formula_true(formula, m)) by {
        if formula_true(formula, m) {
            assert(clause_true(formula[i], m));
        }
    }
}

/// Whether the literal is among the given ones.
fn contains_lit(lits: &Vec<Lit>, lit: Lit) -> (found: bool)
    ensures
        found == lits@.contains(lit),
{
    let mut k: usize = 0;
    while k < lits.len()
        invariant
            k <= lits.len(),
            forall|p: int| 0 <= p < k ==> lits@[p] != lit,
        decreases lits.len() - k,
    {
        if lits[k] == lit {
            return true;
        }
        k += 1;
    }
    false
}

/// Cleans one clause: `None` for a tautology, else the clause without
/// repeated literals.
fn preprocess_clause(clause: &Clause) -> (r: Option<Clause>)
    ensures
        r is None <==> is_tautology(clause@),
        r matches Some(c) ==> c@ == dedup(clause@),
{
    let mut seen: Vec<Lit> = Vec::new();
    let mut j: usize = 0;
    while j < clause.lits.len()
        invariant
            j <= clause@.len(),
            seen@ == dedup(clause@.take(j as int)),
            !is_tautology(clause@.take(j as int)),
        decreases clause@.len() - j,
    {
        let lit = clause.lits[j];
        let ghost before = clause@.take(j as int);
        let ghost after = clause@.take(j as int + 1);
        proof {
            assert(after.drop_last() == before);
            assert(after.last() == lit);
            lemma_dedup_same_literals(before);
        }
        if !contains_lit(&seen, lit) {
            seen.push(lit);
        }
        if contains_lit(&seen, negate(lit)) {
            proof {
                lemma_dedup_same_literals(after);
                assert(after.contains(lit.negated()));
                let k = choose|k: int| 0 <= k < after.len() && after[k] == lit.negated();
                assert(clause@[k] == clause@[j as int].negated());
            }
            return None;
        }
        proof {
            lemma_dedup_same_literals(after);
            if is_tautology(after) {
                let (a, b) = choose|a: int, b: int|
                    0 <= a < after.len() && 0 <= b < after.len() && #[trigger] after[a] == (
                    #[trigger] after[b]).negated();
                if a < j && b < j {
                    assert(before[a] == before[b].negated());
                } else if a == j {
                    assert(after[b] == lit.negated());
                    assert(after.contains(lit.negated()));
                } else {
                    assert(after[a] == lit.negated());
                    assert(after.contains(lit.negated()));
                }
            }
        }
        j += 1;
    }
    proof {
        assert(clause@.take(clause@.len() as int) == clause@);
    }
    Some(Clause { lits: seen })
}

/// Cleans a formula for search. A formula with an empty clause is refused;
/// otherwise tautological clauses are dropped and each remaining clause
/// loses its repeated literals, keeping the order of first occurrence.
pub fn preprocess(dimacs: &Vec<Clause>) -> (r: Result<Vec<Clause>, PreprocessError>)
    ensures
        r is Err <==> has_empty_clause(formula_of(dimacs@)),
        r matches Ok(clauses) ==> formula_of(clauses@) == cleaned(formula_of(dimacs@)),
{
    let ghost formula = formula_of(dimacs@);
    let mut clauses: Vec<Clause> = Vec::new();
    let mut i: usize = 0;
    while i < dimacs.len()
        invariant
            i <= dimacs.len(),
            formula == formula_of(dimacs@),
            formula_of(clauses@) == cleaned(formula.take(i as int)),
            !has_empty_clause(formula.take(i as int)),
        decreases dimacs.len() - i,
    {
        let ghost before = formula.take(i as int);
        let ghost after = formula.take(i as int + 1);
        proof {
            assert(after.drop_last() == before);
            assert(after.last() == dimacs@[i as int]@);
        }
        if dimacs[i].lits.len() == 0 {
            proof {
                assert(formula[i as int].len() == 0);
            }
            return Err(PreprocessError::EmptyFormulaIsUnsat);
        }
        let ghost old_clauses = clauses@;
        match preprocess_clause(&dimacs[i]) {
            Some(cleaned_clause) => {
                clauses.push(cleaned_clause);
                proof {
                    assert(formula_of(clauses@) == formula_of(old_clauses).push(cleaned_clause@));
                }
            },
            None => {},
        }
        proof {
            if has_empty_clause(after) {
                let k = choose|k: int| 0 <= k < after.len() && (#[trigger] after[k]).len() == 0;
                if k < i {
                    assert(before[k].len() == 0);
                }
            }
        }
        i += 1;
    }
    proof {
        assert(formula.take(dimacs.len() as int) == formula);
    }
    Ok(clauses)
}

/// Whether the literal is true under the assignment.
fn true_assignment(lit: Lit, assignment: &Vec<bool>) -> (r: bool)
    ensures
        r == lit_true(lit, assignment@),
{
    if lit.index < assignment.len() {
        match lit.sign {
            Sign::Pos => assignment[lit.index],
            Sign::Neg => !assignment[lit.index],
        }
    } else {
        false
    }
}

/// Whether some literal of the clause is true under the assignment.
fn clause_is_true(clause: &Clause, assignment: &Vec<bool>) -> (r: bool)
    ensures
        r == clause_true(clause@, assignment@),
{
    let mut j: usize = 0;
    while j < clause.lits.len()
        invariant
            j <= clause@.len(),
            forall|p: int| 0 <= p < j ==> !lit_true(#[trigger] clause@[p], assignment@),
        decreases clause@.len() - j,
    {
        if true_assignment(clause.lits[j], assignment) {
            return true;
        }
        j += 1;
    }
    false
}

/// Whether the assignment makes every clause true. A literal on a variable
/// that the assignment does not cover counts as not true.
pub fn check_result(clauses: &Vec<Clause>, assignment: &Vec<bool>) -> (r: bool)
    ensures
        r == formula_true(formula_of(clauses@), assignment@),
{
    let mut i: usize = 0;
    while i < clauses.len()
        invariant
            i <= clauses.len(),
            forall|p: int|
                0 <= p < i ==> clause_true(#[trigger] formula_of(clauses@)[p], assignment@),
        decreases clauses.len() - i,
    {
        if !clause_is_true(&clauses[i], assignment) {
            proof {
                assert(!clause_true(formula_of(clauses@)[i as int], assignment@));
            }
            return false;
        }
        i += 1;
    }
    true
}

} // verus!
