//! What it means for an assignment to satisfy a formula.
//!
//! A formula is modelled as a sequence of clauses, a clause as a sequence of
//! literals, a total assignment as a sequence of Booleans and a partial
//! assignment as a sequence of three-valued states, each indexed by variable.

use vstd::prelude::*;
use crate::algorithm::interface::{Assignment, Clause, Lit, Sign, sign_value};

verus! {

/// The clauses of a formula as sequences of literals.
pub open spec fn formula_of(clauses: Seq<Clause>) -> Seq<Seq<Lit>> {
    Seq::new(clauses.len(), |i: int| clauses[i]@)
}

/// Every literal of the clause is on a variable below `num_vars`.
pub open spec fn clause_in_range(clause: Seq<Lit>, num_vars: nat) -> bool {
    forall|j: int| 0 <= j < clause.len() ==> (#[trigger] clause[j]).index < num_vars
}

/// Every literal of the formula is on a variable below `num_vars`.
pub open spec fn formula_in_range(formula: Seq<Seq<Lit>>, num_vars: nat) -> bool {
    forall|i: int| 0 <= i < formula.len() ==> clause_in_range(#[trigger] formula[i], num_vars)
}

/// The literal is true under the total assignment `m`.
pub open spec fn lit_true(lit: Lit, m: Seq<bool>) -> bool {
    lit.index < m.len() && m[lit.index as int] == (lit.sign == Sign::Pos)
}

/// Some literal of the clause is true under `m`.
pub open spec fn clause_true(clause: Seq<Lit>, m: Seq<bool>) -> bool {
    exists|j: int| 0 <= j < clause.len() && lit_true(#[trigger] clause[j], m)
}

/// Every clause of the formula is true under `m`.
pub open spec fn formula_true(formula: Seq<Seq<Lit>>, m: Seq<bool>) -> bool {
    forall|i: int| 0 <= i < formula.len() ==> clause_true(#[trigger] formula[i], m)
}

/// Some total assignment of `num_vars` variables satisfies the formula.
pub open spec fn satisfiable(num_vars: nat, formula: Seq<Seq<Lit>>) -> bool {
    exists|m: Seq<bool>| m.len() == num_vars && #[trigger] formula_true(formula, m)
}

/// The three-valued truth of a literal under a partial assignment.
pub open spec fn truth_value(lit: Lit, a: Seq<Assignment>) -> Assignment
    recommends
        lit.index < a.len(),
{
    let value = a[lit.index as int];
    if value == Assignment::Unassigned {
        Assignment::Unassigned
    } else if value == sign_value(lit.sign) {
        Assignment::Top
    } else {
        Assignment::Bot
    }
}

/// The total assignment `m` agrees with every assigned variable of `a`.
pub open spec fn extends(m: Seq<bool>, a: Seq<Assignment>) -> bool {
    &&& m.len() == a.len()
    &&& forall|v: int|
        0 <= v < a.len() && #[trigger] a[v] != Assignment::Unassigned ==> m[v] == (a[v]
            == Assignment::Top)
}

/// No variable of `a` is unassigned.
pub open spec fn total(a: Seq<Assignment>) -> bool {
    forall|v: int| 0 <= v < a.len() ==> #[trigger] a[v] != Assignment::Unassigned
}

/// The Boolean values of a total three-valued assignment.
pub open spec fn bools_of(a: Seq<Assignment>) -> Seq<bool> {
    Seq::new(a.len(), |v: int| a[v] == Assignment::Top)
}

/// No model of the formula agrees with the partial assignment `a`.
pub open spec fn refuted(formula: Seq<Seq<Lit>>, a: Seq<Assignment>) -> bool {
    forall|m: Seq<bool>| #[trigger] extends(m, a) ==> !formula_true(formula, m)
}

/// Every literal of the clause is false under the partial assignment.
pub open spec fn clause_false(clause: Seq<Lit>, a: Seq<Assignment>) -> bool {
    forall|j: int| 0 <= j < clause.len() ==> truth_value(#[trigger] clause[j], a) == Assignment::Bot
}

/// The partial assignment with variable `v` set to `value`.
pub open spec fn with_value(a: Seq<Assignment>, v: int, value: Assignment) -> Seq<Assignment> {
    a.update(v, value)
}

/// A model that agrees with a partial assignment gives each assigned literal
/// the truth that the partial assignment gives it.
pub proof fn lemma_extends_truth(lit: Lit, a: Seq<Assignment>, m: Seq<bool>)
    requires
        extends(m, a),
        lit.index < a.len(),
    ensures
        truth_value(lit, a) == Assignment::Top ==> lit_true(lit, m),
        truth_value(lit, a) == Assignment::Bot ==> !lit_true(lit, m),
{
    assert(a[lit.index as int] != Assignment::Unassigned ==> m[lit.index as int] == (a[lit.index as int]
        == Assignment::Top));
}

/// A clause whose literals are all false under a partial assignment is false
/// under every model that agrees with it.
pub proof fn lemma_false_clause_refutes(clause: Seq<Lit>, a: Seq<Assignment>, m: Seq<bool>)
    requires
        extends(m, a),
        clause_in_range(clause, a.len()),
        clause_false(clause, a),
    ensures
        !clause_true(clause, m),
{
    assert forall|j: int| 0 <= j < clause.len() implies !lit_true(#[trigger] clause[j], m) by {
        lemma_extends_truth(clause[j], a, m);
    }
}

/// Under a total assignment, a formula none of whose clauses is false is
/// true under the assignment's Boolean values.
pub proof fn lemma_total_without_false_clause(formula: Seq<Seq<Lit>>, a: Seq<Assignment>)
    requires
        total(a),
        formula_in_range(formula, a.len()),
        forall|i: int| 0 <= i < formula.len() ==> !clause_false(#[trigger] formula[i], a),
    ensures
        formula_true(formula, bools_of(a)),
        extends(bools_of(a), a),
{
    let m = bools_of(a);
    assert forall|i: int| 0 <= i < formula.len() implies clause_true(#[trigger] formula[i], m) by {
        let c = formula[i];
        let j = choose|j: int|
            0 <= j < c.len() && truth_value(#[trigger] c[j], a) != Assignment::Bot;
        assert(c[j].index < a.len());
        assert(a[c[j].index as int] != Assignment::Unassigned);
        assert(lit_true(c[j], m));
    }
}

/// When both values of an unassigned variable are refuted, so is the
/// partial assignment itself.
pub proof fn lemma_refuted_both_ways(formula: Seq<Seq<Lit>>, a: Seq<Assignment>, v: int)
    requires
        0 <= v < a.len(),
        a[v] == Assignment::Unassigned,
        refuted(formula, with_value(a, v, Assignment::Top)),
        refuted(formula, with_value(a, v, Assignment::Bot)),
    ensures
        refuted(formula, a),
{
    assert forall|m: Seq<bool>| #[trigger] extends(m, a) implies !formula_true(formula, m) by {
        if m[v] {
            assert(extends(m, with_value(a, v, Assignment::Top)));
        } else {
            assert(extends(m, with_value(a, v, Assignment::Bot)));
        }
    }
}

/// A partial assignment one of whose clauses is false is refuted.
pub proof fn lemma_refuted_by_false_clause(formula: Seq<Seq<Lit>>, a: Seq<Assignment>, i: int)
    requires
        0 <= i < formula.len(),
        clause_in_range(formula[i], a.len()),
        clause_false(formula[i], a),
    ensures
        refuted(formula, a),
{
    assert forall|m: Seq<bool>| #[trigger] extends(m, a) implies !formula_true(formula, m) by {
        lemma_false_clause_refutes(formula[i], a, m);
    }
}

/// A formula is satisfiable exactly when the assignment that leaves every
/// variable open is not refuted.
pub proof fn lemma_refuted_unassigned(num_vars: nat, formula: Seq<Seq<Lit>>, a: Seq<Assignment>)
    requires
        a.len() == num_vars,
        forall|v: int| 0 <= v < num_vars ==> a[v] == Assignment::Unassigned,
    ensures
        refuted(formula, a) == !satisfiable(num_vars, formula),
{
    if satisfiable(num_vars, formula) {
        let m = choose|m: Seq<bool>| m.len() == num_vars && #[trigger] formula_true(formula, m);
        assert(extends(m, a));
    }
    if !refuted(formula, a) {
        let m = choose|m: Seq<bool>| #[trigger] extends(m, a) && formula_true(formula, m);
        assert(m.len() == num_vars && formula_true(formula, m));
    }
}

/// The number of unassigned variables.
pub open spec fn count_unassigned(a: Seq<Assignment>) -> nat
    decreases a.len(),
{
    if a.len() == 0 {
        0
    } else {
        count_unassigned(a.drop_last()) + if a.last() == Assignment::Unassigned {
            1nat
        } else {
            0nat
        }
    }
}

/// There are no more open variables than variables.
pub proof fn lemma_count_unassigned_bound(a: Seq<Assignment>)
    ensures
        count_unassigned(a) <= a.len(),
    decreases a.len(),
{
    if a.len() > 0 {
        lemma_count_unassigned_bound(a.drop_last());
    }
}

/// Where every variable assigned in `a` is assigned in `b`, `b` leaves no
/// more variables open than `a`, and fewer if it assigns one that `a`
/// leaves open.
pub proof fn lemma_count_unassigned_shrinks(a: Seq<Assignment>, b: Seq<Assignment>)
    requires
        a.len() == b.len(),
        forall|w: int|
            0 <= w < a.len() && a[w] != Assignment::Unassigned ==> #[trigger] b[w]
                != Assignment::Unassigned,
    ensures
        count_unassigned(b) <= count_unassigned(a),
        (exists|v: int|
            0 <= v < a.len() && a[v] == Assignment::Unassigned && #[trigger] b[v]
                != Assignment::Unassigned) ==> count_unassigned(b) < count_unassigned(a),
    decreases a.len(),
{
    if a.len() > 0 {
        let a0 = a.drop_last();
        let b0 = b.drop_last();
        assert forall|w: int|
            0 <= w < a0.len() && a0[w] != Assignment::Unassigned implies #[trigger] b0[w]
            != Assignment::Unassigned by {
            assert(b[w] != Assignment::Unassigned);
        }
        lemma_count_unassigned_shrinks(a0, b0);
        assert(b[a.len() - 1] != Assignment::Unassigned || a.last() == Assignment::Unassigned);
        if exists|v: int|
            0 <= v < a.len() && a[v] == Assignment::Unassigned && #[trigger] b[v]
                != Assignment::Unassigned {
            let v = choose|v: int|
                0 <= v < a.len() && a[v] == Assignment::Unassigned && #[trigger] b[v]
                    != Assignment::Unassigned;
            if v < a.len() - 1 {
                assert(a0[v] == Assignment::Unassigned && b0[v] != Assignment::Unassigned);
            }
        }
    }
}

/// An assignment that leaves a variable open has an open variable to count.
pub proof fn lemma_open_counts(a: Seq<Assignment>, v: int)
    requires
        0 <= v < a.len(),
        a[v] == Assignment::Unassigned,
    ensures
        count_unassigned(a) >= 1,
{
    let set = with_value(a, v, Assignment::Top);
    assert(set[v] != Assignment::Unassigned);
    lemma_count_unassigned_shrinks(a, set);
}

/// Model `m` comes before model `other` in the order of the search: at the
/// first variable on which they differ, `m` is true.
pub open spec fn comes_before(m: Seq<bool>, other: Seq<bool>) -> bool {
    exists|v: int|
        0 <= v < m.len() && v < other.len() && m[v] && !#[trigger] other[v] && forall|w: int|
            0 <= w < v ==> m[w] == other[w]
}

/// `m` is the first model of the formula among the total assignments that
/// agree with the partial assignment `a`.
pub open spec fn first_model_within(
    formula: Seq<Seq<Lit>>,
    a: Seq<Assignment>,
    m: Seq<bool>,
) -> bool {
    &&& extends(m, a)
    &&& formula_true(formula, m)
    &&& forall|other: Seq<bool>|
        #[trigger] extends(other, a) && formula_true(formula, other) ==> other == m
            || comes_before(m, other)
}

/// `m` is the first model of the formula over `num_vars` variables.
pub open spec fn first_model(num_vars: nat, formula: Seq<Seq<Lit>>, m: Seq<bool>) -> bool {
    &&& m.len() == num_vars
    &&& formula_true(formula, m)
    &&& forall|other: Seq<bool>|
        other.len() == num_vars && #[trigger] formula_true(formula, other) ==> other == m
            || comes_before(m, other)
}

/// The first model among those that agree with an assignment that leaves
/// every variable open is the first model.
pub proof fn lemma_first_model_of_all(
    num_vars: nat,
    formula: Seq<Seq<Lit>>,
    a: Seq<Assignment>,
    m: Seq<bool>,
)
    requires
        a.len() == num_vars,
        forall|v: int| 0 <= v < num_vars ==> a[v] == Assignment::Unassigned,
        first_model_within(formula, a, m),
    ensures
        first_model(num_vars, formula, m),
{
    assert forall|other: Seq<bool>|
        other.len() == num_vars && #[trigger] formula_true(formula, other) implies other == m
        || comes_before(m, other) by {
        assert(extends(other, a));
    }
}

/// The first model among those that agree with `a` and give the open
/// variable `v` the value true is the first among those that agree with
/// `a`, where every variable below `v` has a value.
pub proof fn lemma_first_in_true_branch(
    formula: Seq<Seq<Lit>>,
    a: Seq<Assignment>,
    v: int,
    m: Seq<bool>,
)
    requires
        0 <= v < a.len(),
        a[v] == Assignment::Unassigned,
        forall|w: int| 0 <= w < v ==> a[w] != Assignment::Unassigned,
        first_model_within(formula, with_value(a, v, Assignment::Top), m),
    ensures
        first_model_within(formula, a, m),
{
    let a1 = with_value(a, v, Assignment::Top);
    assert(extends(m, a)) by {
        assert forall|w: int| 0 <= w < a.len() && #[trigger] a[w] != Assignment::Unassigned implies m[w]
            == (a[w] == Assignment::Top) by {
            assert(a1[w] != Assignment::Unassigned);
        }
    }
    assert(a1[v] != Assignment::Unassigned);
    assert(m[v]);
    assert forall|other: Seq<bool>|
        #[trigger] extends(other, a) && formula_true(formula, other) implies other == m
        || comes_before(m, other) by {
        if other[v] {
            assert(extends(other, a1));
        } else {
            assert forall|w: int| 0 <= w < v implies m[w] == other[w] by {
                assert(a[w] != Assignment::Unassigned);
            }
        }
    }
}

/// Where no model agrees with `a` and gives the open variable `v` the
/// value true, the first model among those that agree with `a` and give
/// `v` the value false is the first among those that agree with `a`.
pub proof fn lemma_first_in_false_branch(
    formula: Seq<Seq<Lit>>,
    a: Seq<Assignment>,
    v: int,
    m: Seq<bool>,
)
    requires
        0 <= v < a.len(),
        a[v] == Assignment::Unassigned,
        refuted(formula, with_value(a, v, Assignment::Top)),
        first_model_within(formula, with_value(a, v, Assignment::Bot), m),
    ensures
        first_model_within(formula, a, m),
{
    let a0 = with_value(a, v, Assignment::Bot);
    let a1 = with_value(a, v, Assignment::Top);
    assert(extends(m, a)) by {
        assert forall|w: int| 0 <= w < a.len() && #[trigger] a[w] != Assignment::Unassigned implies m[w]
            == (a[w] == Assignment::Top) by {
            assert(a0[w] != Assignment::Unassigned);
        }
    }
    assert forall|other: Seq<bool>|
        #[trigger] extends(other, a) && formula_true(formula, other) implies other == m
        || comes_before(m, other) by {
        if other[v] {
            assert(extends(other, a1));
        } else {
            assert(extends(other, a0));
        }
    }
}

/// A total assignment is the only total assignment that agrees with it.
pub proof fn lemma_first_when_total(formula: Seq<Seq<Lit>>, a: Seq<Assignment>)
    requires
        total(a),
        formula_true(formula, bools_of(a)),
    ensures
        first_model_within(formula, a, bools_of(a)),
{
    let m = bools_of(a);
    assert(extends(m, a));
    assert forall|other: Seq<bool>|
        #[trigger] extends(other, a) && formula_true(formula, other) implies other == m
        || comes_before(m, other) by {
        assert(other =~= m);
    }
}

/// A formula has at most one first model.
pub proof fn lemma_first_model_unique(
    num_vars: nat,
    formula: Seq<Seq<Lit>>,
    m: Seq<bool>,
    other: Seq<bool>,
)
    requires
        first_model(num_vars, formula, m),
        first_model(num_vars, formula, other),
    ensures
        m == other,
{
    if m != other {
        assert(comes_before(m, other));
        assert(comes_before(other, m));
        let v = choose|v: int|
            0 <= v < m.len() && v < other.len() && m[v] && !#[trigger] other[v] && forall|w: int|
                0 <= w < v ==> m[w] == other[w];
        let u = choose|u: int|
            0 <= u < other.len() && u < m.len() && other[u] && !#[trigger] m[u] && forall|w: int|
                0 <= w < u ==> other[w] == m[w];
        if u < v {
            assert(m[u] == other[u]);
        } else if v < u {
            assert(other[v] == m[v]);
        }
    }
}

} // verus!
