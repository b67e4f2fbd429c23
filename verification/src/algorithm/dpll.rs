//! The DPLL search on the propagation engine, in a recursive and in an
//! iterative form.

use vstd::arithmetic::power2::{lemma2_to64, lemma_pow2_unfold, pow2};
use vstd::prelude::*;
use vstd::slice::slice_subrange;
use crate::algorithm::bcp::{follows, grows, BCPSolver};
use crate::algorithm::formula::{
    bools_of,
    comes_before,
    count_unassigned,
    extends,
    first_model,
    first_model_within,
    formula_in_range,
    formula_of,
    formula_true,
    lemma_count_unassigned_bound,
    lemma_count_unassigned_shrinks,
    lemma_first_model_of_all,
    lemma_first_when_total,
    lemma_open_counts,
    lemma_refuted_unassigned,
    lit_true,
    refuted,
    satisfiable,
    total,
    with_value,
};
use crate::algorithm::interface::{
    negate,
    sign_value,
    Assignment,
    Clause,
    Lit,
    SATResult,
    Sign,
};
use crate::algorithm::simple::to_model;
use crate::algorithm::utility::{
    cleaned,
    has_empty_clause,
    lemma_cleaned_equivalent,
    lemma_cleaning_keeps_satisfiability,
    lemma_empty_clause_unsatisfiable,
    PreprocessError,
};

pub use crate::algorithm::bcp::{BcpResult, WatchedClause};

verus! {

/// A solver that searches without learning.
pub struct DPLLSolver {
    pub engine: BCPSolver,
}

/// The number of nodes of a complete search tree over `open` variables.
pub open spec fn search_size(open: nat) -> nat
    decreases open,
{
    if open == 0 {
        1
    } else {
        2 * search_size((open - 1) as nat) + 1
    }
}

/// A complete search tree over `open` variables has one node less than two
/// to the power of `open + 1`.
pub proof fn lemma_search_size_is(open: nat)
    ensures
        search_size(open) + 1 == pow2(open + 1),
    decreases open,
{
    lemma_pow2_unfold(open + 1);
    if open == 0 {
        assert(pow2(0) == 1) by {
            lemma2_to64();
        }
    } else {
        lemma_search_size_is((open - 1) as nat);
    }
}

/// The number of leaves of a complete search tree over `open` variables.
pub open spec fn leaf_count(open: nat) -> nat
    decreases open,
{
    if open == 0 {
        1
    } else {
        2 * leaf_count((open - 1) as nat)
    }
}

/// A complete search tree over `open` variables has two to the power of
/// `open` leaves.
pub proof fn lemma_leaf_count_is(open: nat)
    ensures
        leaf_count(open) == pow2(open),
    decreases open,
{
    if open == 0 {
        assert(pow2(0) == 1) by {
            lemma2_to64();
        }
    } else {
        lemma_pow2_unfold(open);
        lemma_leaf_count_is((open - 1) as nat);
    }
}

/// A search tree over no more variables has no more leaves, and every
/// search tree has a leaf.
pub proof fn lemma_leaf_count_grows(fewer: nat, more: nat)
    requires
        fewer <= more,
    ensures
        1 <= leaf_count(fewer) <= leaf_count(more),
    decreases more,
{
    if fewer < more {
        lemma_leaf_count_grows(fewer, (more - 1) as nat);
    } else if fewer > 0 {
        lemma_leaf_count_grows((fewer - 1) as nat, (fewer - 1) as nat);
    }
}

/// The search tree over fewer variables is less than half as large.
pub proof fn lemma_search_size_halves(fewer: nat, more: nat)
    requires
        fewer < more,
    ensures
        2 * search_size(fewer) < search_size(more),
    decreases more,
{
    if fewer + 1 < more {
        lemma_search_size_halves(fewer, (more - 1) as nat);
    }
}

/// The nodes still to search below the alternatives that wait on the stack,
/// where `frames` holds the state in which each was put there.
pub open spec fn waiting_work(frames: Seq<BCPSolver>) -> nat
    decreases frames.len(),
{
    if frames.len() == 0 {
        0
    } else {
        waiting_work(frames.drop_last()) + search_size(
            count_unassigned(frames.last().assignment@),
        )
    }
}

/// The leaves still to reach below the alternatives that wait on the stack,
/// where `frames` holds the state in which each was put there.
pub open spec fn waiting_leaves(frames: Seq<BCPSolver>) -> nat
    decreases frames.len(),
{
    if frames.len() == 0 {
        0
    } else {
        waiting_leaves(frames.drop_last()) + leaf_count(
            (count_unassigned(frames.last().assignment@) - 1) as nat,
        )
    }
}

/// The leaves still to reach: below the literal about to be assumed under
/// the assignment `current`, and below the alternatives that wait.
pub open spec fn leaves_ahead(current: Seq<Assignment>, frames: Seq<BCPSolver>) -> nat {
    leaf_count((count_unassigned(current) - 1) as nat) + waiting_leaves(frames)
}

/// After a propagation that ran to its end and the decision of an open
/// variable, no more leaves are ahead than before.
pub proof fn lemma_leaves_forward(
    before: Seq<Assignment>,
    after: Seq<Assignment>,
    frames: Seq<BCPSolver>,
    frame: BCPSolver,
    decided: int,
)
    requires
        count_unassigned(after) < count_unassigned(before),
        frame.assignment@ == after,
        0 <= decided < after.len(),
        after[decided] == Assignment::Unassigned,
    ensures
        leaves_ahead(after, frames.push(frame)) <= leaves_ahead(before, frames),
{
    lemma_open_counts(after, decided);
    assert(frames.push(frame).drop_last() == frames);
    lemma_leaf_count_grows(count_unassigned(after), (count_unassigned(before) - 1) as nat);
}

/// When the alternative on top of the stack is taken up in the state of
/// its frame, fewer leaves are ahead than before.
pub proof fn lemma_leaves_back(
    before: Seq<Assignment>,
    restored: Seq<Assignment>,
    frames: Seq<BCPSolver>,
)
    requires
        frames.len() > 0,
        restored == frames.last().assignment@,
    ensures
        leaves_ahead(restored, frames.drop_last()) < leaves_ahead(before, frames),
{
    lemma_leaf_count_grows(0, (count_unassigned(before) - 1) as nat);
}

/// Every model of the formula that agrees with the assignment `begin` lies
/// in the branch now searched, which extends `current` by `next`, or in the
/// branch of an alternative that waits on the stack.
pub open spec fn covered(
    formula: Seq<Seq<Lit>>,
    begin: Seq<Assignment>,
    current: Seq<Assignment>,
    next: Lit,
    frames: Seq<BCPSolver>,
    stack: Seq<(Lit, usize)>,
) -> bool {
    forall|m: Seq<bool>|
        #[trigger] extends(m, begin) && formula_true(formula, m) ==> (extends(m, current)
            && lit_true(next, m)) || in_alternative(m, frames, stack)
}

/// The model lies in the branch of an alternative that waits on the stack.
pub open spec fn in_alternative(m: Seq<bool>, frames: Seq<BCPSolver>, stack: Seq<(Lit, usize)>) -> bool {
    exists|i: int|
        0 <= i < frames.len() && i < stack.len() && #[trigger] extends(m, frames[i].assignment@)
            && lit_true(stack[i].0, m)
}

impl DPLLSolver {
    /// The engine is in order and does not learn.
    pub open spec fn wf(&self) -> bool {
        self.engine.wf() && !self.engine.learning
    }

    /// The clauses of the solver.
    pub open spec fn formula(&self) -> Seq<Seq<Lit>> {
        self.engine.formula()
    }

    /// The partial assignment of the solver.
    pub open spec fn assignment(&self) -> Seq<Assignment> {
        self.engine.assignment@
    }

    /// What a search has done since `before`. With `SAT` the assignment is
    /// total and the model holds its values; among the models of the formula
    /// that agree with the assignment of `before` it is the first in the
    /// order of the search. With `UNSAT` no model of the formula agrees with
    /// the assignment of `before`.
    pub open spec fn solved(&self, before: DPLLSolver, res: SATResult) -> bool {
        &&& self.formula() == before.formula()
        &&& self.engine.num_vars() == before.engine.num_vars()
        &&& match res {
            SATResult::SAT { model } => {
                &&& total(self.assignment())
                &&& model.assignments@ == bools_of(self.assignment())
                &&& first_model_within(
                    before.formula(),
                    before.assignment(),
                    model.assignments@,
                )
            },
            SATResult::UNSAT => refuted(before.formula(), before.assignment()),
        }
    }

    /// Builds the solver for a formula: cleans it, gives each clause its
    /// first two literals as watches and leaves every variable unassigned.
    /// A formula with an empty clause is refused.
    pub fn from_dimacs(num_vars: usize, dimacs: &Vec<Clause>) -> (r: Result<
        DPLLSolver,
        PreprocessError,
    >)
        requires
            formula_in_range(formula_of(dimacs@), num_vars as nat),
        ensures
            r is Err <==> has_empty_clause(formula_of(dimacs@)),
            r matches Ok(s) ==> {
                &&& s.wf()
                &&& s.engine.num_vars() == num_vars
                &&& s.formula() == cleaned(formula_of(dimacs@))
                &&& s.engine.watches_at_front()
                &&& forall|v: int| 0 <= v < num_vars ==> s.assignment()[v] == Assignment::Unassigned
            },
    {
        match BCPSolver::build(num_vars, dimacs, false) {
            Ok(engine) => Ok(DPLLSolver { engine }),
            Err(e) => Err(e),
        }
    }

    /// Assumes `lit` and propagates. `None` reports a conflict, after which
    /// the assignment is as before the call; otherwise the literals that
    /// were made true are returned, each once, in the order in which they
    /// were made true, and each has its node at level 0.
    pub fn bcp(&mut self, lit: Lit) -> (r: Option<Vec<Lit>>)
        requires
            old(self).wf(),
            lit.index < old(self).engine.num_vars(),
            old(self).assignment()[lit.index as int] == Assignment::Unassigned,
        ensures
            final(self).wf(),
            forall|c: int|
                0 <= c < final(self).engine.clauses@.len() ==> #[trigger] final(self).engine.live(
                    c,
                    final(self).assignment(),
                ),
            match r {
                Some(lits) => final(self).engine.propagated(old(self).engine, lit, lits@)
                    && final(self).engine.noted(lits@, 0),
                None => final(self).engine.retreated(old(self).engine, lit),
            },
            final(self).engine.propagations@ == old(self).engine.propagations@ + 1,
            final(self).engine.leaves@ == old(self).engine.leaves@ + if r is None {
                1nat
            } else {
                0nat
            },
    {
        match self.engine.bcp(lit, 0) {
            BcpResult::Implications(lits) => Some(lits),
            BcpResult::Conflict(_) => None,
        }
    }

    /// Searches recursively for a model that agrees with the current
    /// assignment: the lowest unassigned variable is tried true, then false.
    /// After `UNSAT` the assignment is as before the call. Fewer
    /// propagations are started than a complete search tree over the open
    /// variables has nodes, and no more branches come to their end than it
    /// has leaves.
    pub fn dpll_recursive(&mut self) -> (res: SATResult)
        requires
            old(self).wf(),
        ensures
            final(self).wf(),
            final(self).solved(*old(self), res),
            res is UNSAT ==> final(self).assignment() == old(self).assignment(),
            final(self).engine.propagations@ < old(self).engine.propagations@ + search_size(
                count_unassigned(old(self).assignment()),
            ),
            final(self).engine.leaves@ <= old(self).engine.leaves@ + leaf_count(
                count_unassigned(old(self).assignment()),
            ),
    {
        proof {
            lemma_count_unassigned_bound(self.assignment());
            assert(self.engine.assignment.assignments.len() == self.assignment().len());
            assert(self.engine.original_formula() == self.formula()) by {
                assert(self.formula().take(self.formula().len() as int) == self.formula());
            }
        }
        self.engine.cdcl_recursive(0)
    }
}

/// A model that agrees with an assignment and makes an open literal true
/// agrees with the assignment extended by that literal.
pub proof fn lemma_extends_with(m: Seq<bool>, a: Seq<Assignment>, lit: Lit)
    requires
        extends(m, a),
        lit_true(lit, m),
    ensures
        extends(m, with_value(a, lit.index as int, sign_value(lit.sign))),
{
}

/// The branches stay covered when a propagation has run to its end and the
/// next variable is decided: its positive literal is searched now, and the
/// negative one waits.
pub proof fn lemma_forward_covered(
    formula: Seq<Seq<Lit>>,
    begin: Seq<Assignment>,
    a0: Seq<Assignment>,
    next: Lit,
    decided: Lit,
    frames: Seq<BCPSolver>,
    stack: Seq<(Lit, usize)>,
    frame: BCPSolver,
    mark: usize,
)
    requires
        covered(formula, begin, a0, next, frames, stack),
        follows(formula, a0, next, frame.assignment@),
        decided.index < frame.assignment@.len(),
        decided.sign == Sign::Pos,
        frames.len() == stack.len(),
    ensures
        covered(
            formula,
            begin,
            frame.assignment@,
            decided,
            frames.push(frame),
            stack.push((decided.negated(), mark)),
        ),
{
    let a1 = frame.assignment@;
    let frames1 = frames.push(frame);
    let stack1 = stack.push((decided.negated(), mark));
    assert forall|m: Seq<bool>| #[trigger]
        extends(m, begin) && formula_true(formula, m) implies (extends(m, a1) && lit_true(
        decided,
        m,
    )) || in_alternative(m, frames1, stack1) by {
        if extends(m, a0) && lit_true(next, m) {
            assert(extends(m, a1));
            if !lit_true(decided, m) {
                assert(extends(m, frames1[frames.len() as int].assignment@));
                assert(lit_true(stack1[frames.len() as int].0, m));
            }
        } else {
            let i = choose|i: int|
                0 <= i < frames.len() && i < stack.len() && #[trigger] extends(
                    m,
                    frames[i].assignment@,
                ) && lit_true(stack[i].0, m);
            assert(extends(m, frames1[i].assignment@) && lit_true(stack1[i].0, m));
        }
    }
}

/// The branches stay covered when the branch searched is refuted and the
/// alternative on top of the stack is taken up.
pub proof fn lemma_back_covered(
    formula: Seq<Seq<Lit>>,
    begin: Seq<Assignment>,
    a0: Seq<Assignment>,
    next: Lit,
    frames: Seq<BCPSolver>,
    stack: Seq<(Lit, usize)>,
)
    requires
        covered(formula, begin, a0, next, frames, stack),
        refuted(formula, with_value(a0, next.index as int, sign_value(next.sign))),
        frames.len() == stack.len(),
        frames.len() > 0,
    ensures
        covered(
            formula,
            begin,
            frames.last().assignment@,
            stack.last().0,
            frames.drop_last(),
            stack.drop_last(),
        ),
{
    let frames1 = frames.drop_last();
    let stack1 = stack.drop_last();
    assert forall|m: Seq<bool>| #[trigger]
        extends(m, begin) && formula_true(formula, m) implies (extends(
        m,
        frames.last().assignment@,
    ) && lit_true(stack.last().0, m)) || in_alternative(m, frames1, stack1) by {
        if extends(m, a0) && lit_true(next, m) {
            lemma_extends_with(m, a0, next);
        } else {
            let i = choose|i: int|
                0 <= i < frames.len() && i < stack.len() && #[trigger] extends(
                    m,
                    frames[i].assignment@,
                ) && lit_true(stack[i].0, m);
            if i < frames.len() - 1 {
                assert(extends(m, frames1[i].assignment@) && lit_true(stack1[i].0, m));
            }
        }
    }
}

/// When the branch searched is refuted and no alternative waits, no model of
/// the formula agrees with the assignment at the beginning.
pub proof fn lemma_exhausted(
    formula: Seq<Seq<Lit>>,
    begin: Seq<Assignment>,
    a0: Seq<Assignment>,
    next: Lit,
    frames: Seq<BCPSolver>,
    stack: Seq<(Lit, usize)>,
)
    requires
        covered(formula, begin, a0, next, frames, stack),
        refuted(formula, with_value(a0, next.index as int, sign_value(next.sign))),
        frames.len() == 0,
    ensures
        refuted(formula, begin),
{
    assert forall|m: Seq<bool>| #[trigger] extends(m, begin) implies !formula_true(formula, m) by {
        if formula_true(formula, m) {
            if extends(m, a0) && lit_true(next, m) {
                lemma_extends_with(m, a0, next);
            }
        }
    }
}

/// An alternative on the stack is the negative literal of the lowest
/// variable that was open in its frame; the branch now searched agrees
/// with the frame and gives that variable the value true.
pub open spec fn alternative_after(
    frame: BCPSolver,
    entry: (Lit, usize),
    current: Seq<Assignment>,
    next: Lit,
) -> bool {
    &&& entry.0.sign == Sign::Neg
    &&& entry.0.index < current.len()
    &&& forall|w: int| 0 <= w < entry.0.index ==> frame.assignment@[w] != Assignment::Unassigned
    &&& grows(frame.assignment@, current)
    &&& current[entry.0.index as int] == Assignment::Top || (next.index == entry.0.index
        && next.sign == Sign::Pos)
}

/// Frame `j` lies in the true branch of alternative `i`: it assigns what
/// frame `i` assigns, and makes the variable of the alternative true.
pub open spec fn in_true_branch(
    frames: Seq<BCPSolver>,
    stack: Seq<(Lit, usize)>,
    i: int,
    j: int,
) -> bool {
    grows(frames[i].assignment@, frames[j].assignment@) && frames[j].assignment@[stack[i].0.index as int]
        == Assignment::Top
}

/// The branch now searched, and the frame of each alternative higher on the
/// stack, lie in the true branch of each alternative below.
pub open spec fn ordered(
    frames: Seq<BCPSolver>,
    stack: Seq<(Lit, usize)>,
    current: Seq<Assignment>,
    next: Lit,
) -> bool {
    &&& frames.len() == stack.len()
    &&& forall|i: int|
        0 <= i < frames.len() ==> alternative_after(#[trigger] frames[i], stack[i], current, next)
    &&& forall|i: int, j: int|
        0 <= i < j < frames.len() ==> #[trigger] in_true_branch(frames, stack, i, j)
}

/// The order of the stack stays when a propagation has run to its end and
/// the lowest open variable is decided.
pub proof fn lemma_forward_ordered(
    frames: Seq<BCPSolver>,
    stack: Seq<(Lit, usize)>,
    current: Seq<Assignment>,
    next: Lit,
    frame: BCPSolver,
    decided: Lit,
    mark: usize,
)
    requires
        ordered(frames, stack, current, next),
        next.index < current.len(),
        grows(current, frame.assignment@),
        frame.assignment@[next.index as int] == sign_value(next.sign),
        decided.sign == Sign::Pos,
        decided.index < frame.assignment@.len(),
        forall|w: int| 0 <= w < decided.index ==> frame.assignment@[w] != Assignment::Unassigned,
    ensures
        ordered(
            frames.push(frame),
            stack.push((decided.negated(), mark)),
            frame.assignment@,
            decided,
        ),
{
    let frames1 = frames.push(frame);
    let stack1 = stack.push((decided.negated(), mark));
    let a1 = frame.assignment@;
    assert forall|i: int| 0 <= i < frames.len() implies a1[stack[i].0.index as int]
        == Assignment::Top && grows((#[trigger] frames[i]).assignment@, a1) by {
        assert(alternative_after(frames[i], stack[i], current, next));
    }
    assert forall|i: int| 0 <= i < frames1.len() implies alternative_after(
        #[trigger] frames1[i],
        stack1[i],
        a1,
        decided,
    ) by {
        if i < frames.len() {
            assert(frames1[i] == frames[i] && stack1[i] == stack[i]);
            assert(alternative_after(frames[i], stack[i], current, next));
            assert(a1[stack[i].0.index as int] == Assignment::Top);
        } else {
            assert(frames1[i] == frame && stack1[i] == (decided.negated(), mark));
            assert(decided.negated().sign == Sign::Neg);
            assert(decided.negated().index == decided.index);
        }
    }
    assert(frames1.len() == stack1.len());
    assert forall|i: int, j: int| 0 <= i < j < frames1.len() implies #[trigger] in_true_branch(
        frames1,
        stack1,
        i,
        j,
    ) by {
        assert(frames1[i] == frames[i] && stack1[i] == stack[i]);
        if j < frames.len() {
            assert(frames1[j] == frames[j]);
            assert(in_true_branch(frames, stack, i, j));
        } else {
            assert(frames1[j] == frame);
            assert(grows(frames[i].assignment@, a1));
            assert(a1[stack[i].0.index as int] == Assignment::Top);
        }
    }
}

/// The order of the stack stays when the alternative on top is taken up in
/// the state of its frame.
pub proof fn lemma_back_ordered(
    frames: Seq<BCPSolver>,
    stack: Seq<(Lit, usize)>,
    current: Seq<Assignment>,
    next: Lit,
    restored: Seq<Assignment>,
)
    requires
        ordered(frames, stack, current, next),
        frames.len() > 0,
        restored == frames.last().assignment@,
    ensures
        ordered(frames.drop_last(), stack.drop_last(), restored, stack.last().0),
{
    let frames1 = frames.drop_last();
    let stack1 = stack.drop_last();
    let top = frames.len() - 1;
    assert forall|i: int| 0 <= i < frames1.len() implies alternative_after(
        #[trigger] frames1[i],
        stack1[i],
        restored,
        stack.last().0,
    ) by {
        assert(frames1[i] == frames[i] && stack1[i] == stack[i]);
        assert(alternative_after(frames[i], stack[i], current, next));
        assert(in_true_branch(frames, stack, i, top));
    }
    assert(frames1.len() == stack1.len());
    assert forall|i: int, j: int| 0 <= i < j < frames1.len() implies #[trigger] in_true_branch(
        frames1,
        stack1,
        i,
        j,
    ) by {
        assert(frames1[i] == frames[i] && frames1[j] == frames[j] && stack1[i] == stack[i]);
        assert(in_true_branch(frames, stack, i, j));
    }
}

/// When a propagation has given every variable a value, the assignment is
/// the first model among those that agree with the assignment at the
/// beginning.
pub proof fn lemma_first_model_found(
    formula: Seq<Seq<Lit>>,
    begin: Seq<Assignment>,
    current: Seq<Assignment>,
    next: Lit,
    frames: Seq<BCPSolver>,
    stack: Seq<(Lit, usize)>,
    reached: Seq<Assignment>,
)
    requires
        covered(formula, begin, current, next, frames, stack),
        ordered(frames, stack, current, next),
        next.index < current.len(),
        grows(begin, current),
        grows(current, reached),
        reached[next.index as int] == sign_value(next.sign),
        follows(formula, current, next, reached),
        total(reached),
        formula_true(formula, bools_of(reached)),
    ensures
        first_model_within(formula, begin, bools_of(reached)),
{
    let m = bools_of(reached);
    assert(extends(m, reached));
    assert(extends(m, begin));
    assert forall|other: Seq<bool>|
        #[trigger] extends(other, begin) && formula_true(formula, other) implies other == m
        || comes_before(m, other) by {
        if extends(other, current) && lit_true(next, other) {
            assert(extends(other, reached));
            assert(other =~= m);
        } else {
            let i = choose|i: int|
                0 <= i < frames.len() && i < stack.len() && #[trigger] extends(
                    other,
                    frames[i].assignment@,
                ) && lit_true(stack[i].0, other);
            assert(alternative_after(frames[i], stack[i], current, next));
            let d = stack[i].0.index as int;
            assert(reached[d] == Assignment::Top);
            assert(m[d] && !other[d]);
            assert forall|w: int| 0 <= w < d implies m[w] == other[w] by {
                assert(frames[i].assignment@[w] != Assignment::Unassigned);
                assert(reached[w] == frames[i].assignment@[w]);
            }
        }
    }
}

/// The first model of the cleaned formula is the first model of the
/// formula.
pub proof fn lemma_first_model_of_cleaned(num_vars: nat, formula: Seq<Seq<Lit>>, m: Seq<bool>)
    requires
        formula_in_range(formula, num_vars),
        first_model(num_vars, cleaned(formula), m),
    ensures
        first_model(num_vars, formula, m),
{
    lemma_cleaned_equivalent(formula, m);
    assert forall|other: Seq<bool>|
        other.len() == num_vars && #[trigger] formula_true(formula, other) implies other == m
        || comes_before(m, other) by {
        lemma_cleaned_equivalent(formula, other);
    }
}

impl DPLLSolver {
    /// What is kept of the state in which an alternative was put on the
    /// stack: the engine was in order, stood for the same problem as at the
    /// beginning with no less assigned, and the variable of the alternative
    /// was open.
    pub open spec fn frame_ok(begin: BCPSolver, frame: BCPSolver, entry: (Lit, usize)) -> bool {
        &&& frame.wf()
        &&& frame.same_problem(begin)
        &&& grows(begin.assignment@, frame.assignment@)
        &&& entry.0.index < frame.num_vars()
        &&& frame.assignment@[entry.0.index as int] == Assignment::Unassigned
    }

    /// The stack of the iterative search: each entry holds, beside its
    /// alternative, how many assignments had been made when it was pushed;
    /// the assignments made from one entry to the next, and from the last
    /// entry to now, are what the propagations in between have set.
    pub open spec fn stack_ok(
        &self,
        begin: BCPSolver,
        frames: Seq<BCPSolver>,
        stack: Seq<(Lit, usize)>,
        made: Seq<Lit>,
    ) -> bool {
        &&& frames.len() == stack.len()
        &&& forall|i: int|
            0 <= i < frames.len() ==> DPLLSolver::frame_ok(begin, #[trigger] frames[i], stack[i])
        &&& forall|i: int| 0 <= i < stack.len() ==> (#[trigger] stack[i]).1 <= made.len()
        &&& forall|i: int|
            0 <= i < stack.len() - 1 ==> (#[trigger] stack[i]).1 <= stack[i + 1].1 && frames[i
                + 1].advanced_from(
                frames[i],
                made.subrange(stack[i].1 as int, stack[i + 1].1 as int),
            )
        &&& stack.len() > 0 ==> self.engine.advanced_from(
            frames.last(),
            made.subrange(stack.last().1 as int, made.len() as int),
        )
    }

    /// The invariant of the iterative search at the point where `next` is
    /// about to be assumed.
    pub open spec fn iterating(
        &self,
        begin: BCPSolver,
        frames: Seq<BCPSolver>,
        stack: Seq<(Lit, usize)>,
        made: Seq<Lit>,
        next: Lit,
    ) -> bool {
        &&& self.wf()
        &&& self.engine.same_problem(begin)
        &&& grows(begin.assignment@, self.assignment())
        &&& next.index < self.engine.num_vars()
        &&& self.assignment()[next.index as int] == Assignment::Unassigned
        &&& self.stack_ok(begin, frames, stack, made)
        &&& covered(begin.formula(), begin.assignment@, self.assignment(), next, frames, stack)
    }

    /// The iterative search goes on after a propagation that ran to its end:
    /// the next open variable is decided and its negative literal is put on
    /// the stack.
    pub proof fn lemma_forward(
        &self,
        before: DPLLSolver,
        begin: BCPSolver,
        frames: Seq<BCPSolver>,
        stack: Seq<(Lit, usize)>,
        made: Seq<Lit>,
        next: Lit,
        implied: Seq<Lit>,
        decided: Lit,
        mark: usize,
    )
        requires
            before.iterating(begin, frames, stack, made, next),
            self.wf(),
            self.engine.propagated(before.engine, next, implied),
            decided.sign == Sign::Pos,
            decided.index < self.engine.num_vars(),
            self.assignment()[decided.index as int] == Assignment::Unassigned,
            mark == made.len() + implied.len(),
        ensures
            self.iterating(
                begin,
                frames.push(self.engine),
                stack.push((decided.negated(), mark)),
                made + implied,
                decided,
            ),
            search_size(count_unassigned(self.assignment())) + waiting_work(
                frames.push(self.engine),
            ) < search_size(count_unassigned(before.assignment())) + waiting_work(frames),
    {
        let frames1 = frames.push(self.engine);
        let entry = (decided.negated(), mark);
        let stack1 = stack.push(entry);
        let made1 = made + implied;
        self.engine.lemma_propagated_advanced(before.engine, next, implied);
        lemma_count_unassigned_shrinks(before.assignment(), self.assignment());
        lemma_search_size_halves(
            count_unassigned(self.assignment()),
            count_unassigned(before.assignment()),
        );
        assert(frames1.drop_last() == frames);
        lemma_forward_covered(
            begin.formula(),
            begin.assignment@,
            before.assignment(),
            next,
            decided,
            frames,
            stack,
            self.engine,
            mark,
        );
        assert(self.stack_ok(begin, frames1, stack1, made1)) by {
            assert forall|i: int| 0 <= i < frames1.len() implies DPLLSolver::frame_ok(
                begin,
                #[trigger] frames1[i],
                stack1[i],
            ) by {
                if i < frames.len() {
                    assert(DPLLSolver::frame_ok(begin, frames[i], stack[i]));
                }
            }
            assert forall|i: int| 0 <= i < stack1.len() implies (#[trigger] stack1[i]).1
                <= made1.len() by {
                if i < stack.len() {
                    assert(stack[i].1 <= made.len());
                }
            }
            assert forall|i: int| 0 <= i < stack1.len() - 1 implies (#[trigger] stack1[i]).1
                <= stack1[i + 1].1 && frames1[i + 1].advanced_from(
                frames1[i],
                made1.subrange(stack1[i].1 as int, stack1[i + 1].1 as int),
            ) by {
                assert(stack[i].1 <= made.len());
                if i < stack.len() - 1 {
                    assert(stack[i].1 <= stack[i + 1].1);
                    assert(stack[i + 1].1 <= made.len());
                    assert(made1.subrange(stack1[i].1 as int, stack1[i + 1].1 as int)
                        == made.subrange(stack[i].1 as int, stack[i + 1].1 as int));
                } else {
                    let since = made.subrange(stack.last().1 as int, made.len() as int);
                    assert(made1.subrange(stack1[i].1 as int, stack1[i + 1].1 as int) == since
                        + implied);
                    self.engine.lemma_advanced_compose(
                        before.engine,
                        frames.last(),
                        since,
                        implied,
                    );
                }
            }
            assert(made1.subrange(mark as int, made1.len() as int) == Seq::<Lit>::empty());
            assert(self.engine.advanced_from(self.engine, Seq::<Lit>::empty()));
        }
    }

    /// The iterative search goes on after a conflict: the alternative on top
    /// of the stack is taken up in the state in which it was put there.
    pub proof fn lemma_back(
        &self,
        below: DPLLSolver,
        before: DPLLSolver,
        begin: BCPSolver,
        frames: Seq<BCPSolver>,
        stack: Seq<(Lit, usize)>,
        made: Seq<Lit>,
        next: Lit,
    )
        requires
            before.iterating(begin, frames, stack, made, next),
            below.wf(),
            below.engine.retreated(before.engine, next),
            stack.len() > 0,
            self.engine.unassigned_from(
                below.engine,
                made.subrange(stack.last().1 as int, made.len() as int),
            ),
        ensures
            stack.last().1 <= made.len(),
            self.assignment() == frames.last().assignment@,
            self.engine.restored(frames.last()),
            self.engine.formula() == frames.last().formula(),
            self.iterating(
                begin,
                frames.drop_last(),
                stack.drop_last(),
                made.take(stack.last().1 as int),
                stack.last().0,
            ),
            search_size(count_unassigned(self.assignment())) + waiting_work(frames.drop_last())
                < search_size(count_unassigned(before.assignment())) + waiting_work(frames),
    {
        let top = stack.len() - 1;
        let frame = frames.last();
        let mark = stack.last().1;
        let since = made.subrange(mark as int, made.len() as int);
        let frames1 = frames.drop_last();
        let stack1 = stack.drop_last();
        let made1 = made.take(mark as int);
        assert(DPLLSolver::frame_ok(begin, frames[top], stack[top]));
        assert(stack[top].1 <= made.len());
        assert(below.engine.formula() == before.engine.formula());
        assert(below.engine.restored(before.engine)) by {
            assert(below.engine.formula().take(before.engine.formula().len() as int)
                == before.engine.formula());
            assert(below.engine.clauses@.len() == before.engine.clauses@.len()) by {
                assert(below.engine.formula().len() == before.engine.formula().len());
            }
        }
        self.engine.lemma_backtrack(below.engine, before.engine, frame, since);
        assert(self.engine.formula() == begin.formula()) by {
            assert(self.engine.formula() == below.engine.formula());
        }
        lemma_back_covered(
            begin.formula(),
            begin.assignment@,
            before.assignment(),
            next,
            frames,
            stack,
        );
        assert(self.stack_ok(begin, frames1, stack1, made1)) by {
            assert forall|i: int| 0 <= i < frames1.len() implies DPLLSolver::frame_ok(
                begin,
                #[trigger] frames1[i],
                stack1[i],
            ) by {
                assert(DPLLSolver::frame_ok(begin, frames[i], stack[i]));
            }
            assert forall|i: int| 0 <= i < stack1.len() implies (#[trigger] stack1[i]).1
                <= made1.len() by {
                assert(stack[i].1 <= stack[i + 1].1);
                lemma_marks_ordered(stack, made, i, top);
            }
            assert forall|i: int| 0 <= i < stack1.len() - 1 implies (#[trigger] stack1[i]).1
                <= stack1[i + 1].1 && frames1[i + 1].advanced_from(
                frames1[i],
                made1.subrange(stack1[i].1 as int, stack1[i + 1].1 as int),
            ) by {
                assert(stack[i].1 <= stack[i + 1].1);
                lemma_marks_ordered(stack, made, i + 1, top);
                assert(made1.subrange(stack1[i].1 as int, stack1[i + 1].1 as int)
                    == made.subrange(stack[i].1 as int, stack[i + 1].1 as int));
            }
            if stack1.len() > 0 {
                let under = top - 1;
                assert(stack[under].1 <= stack[under + 1].1);
                assert(made1.subrange(stack1.last().1 as int, made1.len() as int)
                    == made.subrange(stack[under].1 as int, stack[under + 1].1 as int));
                self.engine.lemma_restored_advanced(
                    frame,
                    frames[under],
                    made.subrange(stack[under].1 as int, stack[under + 1].1 as int),
                );
            }
        }
        assert(search_size(count_unassigned(before.assignment())) >= 1);
    }
}

/// Each frame on the stack is what the propagations since the beginning
/// made of the engine up to the mark of its entry.
pub open spec fn frames_advanced(
    begin: BCPSolver,
    frames: Seq<BCPSolver>,
    stack: Seq<(Lit, usize)>,
    made: Seq<Lit>,
) -> bool {
    &&& frames.len() == stack.len()
    &&& forall|i: int| 0 <= i < stack.len() ==> (#[trigger] stack[i]).1 <= made.len()
    &&& forall|i: int|
        0 <= i < frames.len() ==> (#[trigger] frames[i]).advanced_from(
            begin,
            made.take(stack[i].1 as int),
        )
}

/// The frames stay what they were when more assignments are made and the
/// engine as it stands becomes a frame.
pub proof fn lemma_frames_forward(
    begin: BCPSolver,
    frames: Seq<BCPSolver>,
    stack: Seq<(Lit, usize)>,
    made: Seq<Lit>,
    implied: Seq<Lit>,
    engine: BCPSolver,
    entry: (Lit, usize),
)
    requires
        frames_advanced(begin, frames, stack, made),
        engine.advanced_from(begin, made + implied),
        entry.1 == made.len() + implied.len(),
    ensures
        frames_advanced(begin, frames.push(engine), stack.push(entry), made + implied),
{
    let frames1 = frames.push(engine);
    let stack1 = stack.push(entry);
    let made1 = made + implied;
    assert forall|i: int| 0 <= i < stack1.len() implies (#[trigger] stack1[i]).1
        <= made1.len() by {
        if i < stack.len() {
            assert(stack1[i] == stack[i]);
        }
    }
    assert forall|i: int| 0 <= i < frames1.len() implies (#[trigger] frames1[i]).advanced_from(
        begin,
        made1.take(stack1[i].1 as int),
    ) by {
        if i < frames.len() {
            assert(frames1[i] == frames[i] && stack1[i] == stack[i]);
            assert(made1.take(stack[i].1 as int) == made.take(stack[i].1 as int));
        } else {
            assert(frames1[i] == engine && stack1[i] == entry);
            assert(made1.take(entry.1 as int) == made1);
        }
    }
    assert(frames1.len() == stack1.len());
}

/// The frames below the top stay what they were when the assignments made
/// since the mark of the top entry are taken back.
pub proof fn lemma_frames_back(
    begin: BCPSolver,
    frames: Seq<BCPSolver>,
    stack: Seq<(Lit, usize)>,
    made: Seq<Lit>,
)
    requires
        frames_advanced(begin, frames, stack, made),
        stack.len() > 0,
        forall|k: int| 0 <= k < stack.len() - 1 ==> (#[trigger] stack[k]).1 <= stack[k + 1].1,
    ensures
        frames_advanced(
            begin,
            frames.drop_last(),
            stack.drop_last(),
            made.take(stack.last().1 as int),
        ),
{
    let frames1 = frames.drop_last();
    let stack1 = stack.drop_last();
    let mark = stack.last().1;
    let made1 = made.take(mark as int);
    assert(stack[stack.len() - 1].1 <= made.len());
    assert forall|i: int| 0 <= i < stack1.len() implies (#[trigger] stack1[i]).1
        <= made1.len() by {
        assert(stack1[i] == stack[i]);
        lemma_marks_ordered(stack, made, i, stack.len() - 1);
    }
    assert forall|i: int| 0 <= i < frames1.len() implies (#[trigger] frames1[i]).advanced_from(
        begin,
        made1.take(stack1[i].1 as int),
    ) by {
        assert(frames1[i] == frames[i] && stack1[i] == stack[i]);
        lemma_marks_ordered(stack, made, i, stack.len() - 1);
        assert(made1.take(stack[i].1 as int) == made.take(stack[i].1 as int));
    }
}

/// The marks on the stack do not decrease from the bottom to the top.
pub proof fn lemma_marks_ordered(stack: Seq<(Lit, usize)>, made: Seq<Lit>, i: int, j: int)
    requires
        0 <= i <= j < stack.len(),
        forall|k: int| 0 <= k < stack.len() - 1 ==> (#[trigger] stack[k]).1 <= stack[k + 1].1,
    ensures
        stack[i].1 <= stack[j].1,
    decreases j - i,
{
    if i < j {
        lemma_marks_ordered(stack, made, i + 1, j);
    }
}

impl DPLLSolver {
    /// Searches for a model that agrees with the current assignment, with an
    /// explicit stack in place of recursion. Each entry of the stack holds
    /// the negative literal of a decided variable and the number of
    /// assignments made before the decision. After a conflict the top entry
    /// is taken off, the assignments made since its decision are undone and
    /// its literal is assumed. When a conflict finds the stack empty, every
    /// assignment still standing is undone and the verdict is `UNSAT`: the
    /// assignment is then as before the call. No more propagations are
    /// started than two complete search trees over the open variables have
    /// nodes, and no more branches come to their end than one such tree has
    /// leaves.
    #[verifier::rlimit(40)]
    pub fn dpll_iterative(&mut self) -> (res: SATResult)
        requires
            old(self).wf(),
        ensures
            final(self).wf(),
            final(self).solved(*old(self), res),
            res is UNSAT ==> final(self).assignment() == old(self).assignment(),
            final(self).engine.propagations@ <= old(self).engine.propagations@ + 2 * search_size(
                count_unassigned(old(self).assignment()),
            ),
            final(self).engine.leaves@ <= old(self).engine.leaves@ + leaf_count(
                count_unassigned(old(self).assignment()),
            ),
    {
        let ghost begin = self.engine;
        let first = self.engine.next_unassigned_lit();
        proof {
            assert(self.engine.original_formula() == self.formula()) by {
                assert(self.formula().take(self.formula().len() as int) == self.formula());
            }
        }
        match first {
            None => {
                proof {
                    self.engine.lemma_total_model();
                    lemma_first_when_total(self.formula(), self.assignment());
                    lemma_leaf_count_grows(0, count_unassigned(self.assignment()));
                }
                let model = to_model(&self.engine.assignment.assignments);
                self.engine.leaves = Ghost(self.engine.leaves@ + 1);
                proof {
                    self.engine.lemma_counted(begin);
                }
                SATResult::SAT { model }
            },
            Some(first_literal) => {
                let mut stack: Vec<(Lit, usize)> = Vec::new();
                stack.push((negate(first_literal), 0));
                let mut made_assignments: Vec<Lit> = Vec::new();
                let mut next = first_literal;
                let ghost mut frames: Seq<BCPSolver> = seq![begin];
                proof {
                    assert(made_assignments@.subrange(0, 0) == Seq::<Lit>::empty());
                    assert(self.engine.advanced_from(begin, Seq::<Lit>::empty()));
                    assert(covered(
                        begin.formula(),
                        begin.assignment@,
                        self.assignment(),
                        next,
                        frames,
                        stack@,
                    )) by {
                        assert forall|m: Seq<bool>| #[trigger]
                            extends(m, begin.assignment@) && formula_true(
                                begin.formula(),
                                m,
                            ) implies (extends(m, self.assignment()) && lit_true(next, m))
                            || in_alternative(m, frames, stack@) by {
                            if !lit_true(next, m) {
                                assert(extends(m, frames[0].assignment@));
                                assert(lit_true(stack@[0].0, m));
                            }
                        }
                    }
                }
                proof {
                    assert(alternative_after(frames[0], stack@[0], self.assignment(), next));
                    assert(made_assignments@.take(0) == Seq::<Lit>::empty());
                    assert(frames.drop_last() == Seq::<BCPSolver>::empty());
                    assert(waiting_work(Seq::<BCPSolver>::empty()) == 0);
                    assert(waiting_leaves(Seq::<BCPSolver>::empty()) == 0);
                    assert(frames.last() == begin);
                    lemma_open_counts(begin.assignment@, first_literal.index as int);
                    assert(waiting_work(frames) == search_size(
                        count_unassigned(begin.assignment@),
                    ));
                }
                loop
                    invariant
                        begin == old(self).engine,
                        begin.wf(),
                        !begin.learning,
                        self.iterating(begin, frames, stack@, made_assignments@, next),
                        ordered(frames, stack@, self.assignment(), next),
                        self.engine.advanced_from(begin, made_assignments@),
                        frames_advanced(begin, frames, stack@, made_assignments@),
                        self.engine.propagations@ + search_size(
                            count_unassigned(self.assignment()),
                        ) + waiting_work(frames) <= begin.propagations@ + 2 * search_size(
                            count_unassigned(begin.assignment@),
                        ),
                        self.engine.leaves@ + leaves_ahead(self.assignment(), frames)
                            <= begin.leaves@ + leaf_count(count_unassigned(begin.assignment@)),
                    decreases
                            search_size(count_unassigned(self.assignment())) + waiting_work(
                                frames,
                            ),
                {
                    let ghost before = *self;
                    let ghost made = made_assignments@;
                    let ghost assumed = next;
                    let result = self.bcp(next);
                    match result {
                        Some(mut implied_assignments) => {
                            let ghost implied = implied_assignments@;
                            made_assignments.append(&mut implied_assignments);
                            proof {
                                self.engine.lemma_propagated_advanced(before.engine, next, implied);
                                self.engine.lemma_advanced_compose(
                                    before.engine,
                                    begin,
                                    made,
                                    implied,
                                );
                                assert(made_assignments@ == made + implied);
                                assert(self.engine.original_formula() == self.formula()) by {
                                    assert(self.formula().take(self.formula().len() as int)
                                        == self.formula());
                                }
                            }
                            match self.engine.next_unassigned_lit() {
                                None => {
                                    proof {
                                        self.engine.lemma_total_model();
                                        lemma_first_model_found(
                                            begin.formula(),
                                            begin.assignment@,
                                            before.assignment(),
                                            assumed,
                                            frames,
                                            stack@,
                                            self.assignment(),
                                        );
                                    }
                                    let model = to_model(&self.engine.assignment.assignments);
                                    let ghost uncounted = self.engine;
                                    self.engine.leaves = Ghost(self.engine.leaves@ + 1);
                                    proof {
                                        self.engine.lemma_counted(uncounted);
                                        lemma_open_counts(
                                            before.assignment(),
                                            assumed.index as int,
                                        );
                                        lemma_leaf_count_grows(
                                            0,
                                            (count_unassigned(before.assignment()) - 1) as nat,
                                        );
                                    }
                                    return SATResult::SAT { model };
                                },
                                Some(decided) => {
                                    let ghost stack_before = stack@;
                                    next = decided;
                                    stack.push((negate(next), made_assignments.len()));
                                    proof {
                                        lemma_count_unassigned_shrinks(
                                            before.assignment(),
                                            self.assignment(),
                                        );
                                        lemma_leaves_forward(
                                            before.assignment(),
                                            self.assignment(),
                                            frames,
                                            self.engine,
                                            decided.index as int,
                                        );
                                        lemma_frames_forward(
                                            begin,
                                            frames,
                                            stack_before,
                                            made,
                                            implied,
                                            self.engine,
                                            stack@.last(),
                                        );
                                        lemma_forward_ordered(
                                            frames,
                                            stack_before,
                                            before.assignment(),
                                            assumed,
                                            self.engine,
                                            decided,
                                            made_assignments.len(),
                                        );
                                        self.lemma_forward(
                                            before,
                                            begin,
                                            frames,
                                            stack@.drop_last(),
                                            made,
                                            assumed,
                                            implied,
                                            decided,
                                            made_assignments.len(),
                                        );
                                        frames = frames.push(self.engine);
                                    }
                                },
                            }
                        },
                        None => {
                            let ghost stack_then = stack@;
                            match stack.pop() {
                                None => {
                                    let ghost below = *self;
                                    self.engine.unassign(made_assignments.as_slice());
                                    proof {
                                        lemma_open_counts(
                                            before.assignment(),
                                            assumed.index as int,
                                        );
                                        lemma_leaf_count_grows(
                                            0,
                                            (count_unassigned(before.assignment()) - 1) as nat,
                                        );
                                        lemma_exhausted(
                                            begin.formula(),
                                            begin.assignment@,
                                            before.assignment(),
                                            next,
                                            frames,
                                            stack_then,
                                        );
                                        assert(below.engine.restored(before.engine)) by {
                                            assert(below.engine.formula().take(
                                                before.engine.formula().len() as int,
                                            ) == before.engine.formula());
                                            assert(below.engine.clauses@.len()
                                                == before.engine.clauses@.len()) by {
                                                assert(below.engine.formula().len()
                                                    == before.engine.formula().len());
                                            }
                                        }
                                        self.engine.lemma_backtrack(
                                            below.engine,
                                            before.engine,
                                            begin,
                                            made,
                                        );
                                        assert(self.engine.formula() == below.engine.formula());
                                    }
                                    return SATResult::UNSAT;
                                },
                                Some((l, assign_level)) => {
                                    let ghost below = *self;
                                    proof {
                                        assert(stack_then.last() == (l, assign_level));
                                        assert(stack_then[stack_then.len() - 1].1
                                            <= made_assignments@.len());
                                        assert(self.engine.advanced_from(
                                            frames.last(),
                                            made.subrange(assign_level as int, made.len() as int),
                                        ));
                                    }
                                    self.engine.unassign(
                                        slice_subrange(
                                            made_assignments.as_slice(),
                                            assign_level,
                                            made_assignments.len(),
                                        ),
                                    );
                                    made_assignments.truncate(assign_level);
                                    proof {
                                        self.lemma_back(
                                            below,
                                            before,
                                            begin,
                                            frames,
                                            stack_then,
                                            made,
                                            next,
                                        );
                                        lemma_back_ordered(
                                            frames,
                                            stack_then,
                                            before.assignment(),
                                            assumed,
                                            self.assignment(),
                                        );
                                        lemma_leaves_back(
                                            before.assignment(),
                                            self.assignment(),
                                            frames,
                                        );
                                        lemma_frames_back(begin, frames, stack_then, made);
                                        self.engine.lemma_restored_advanced(
                                            frames.last(),
                                            begin,
                                            made.take(assign_level as int),
                                        );
                                        frames = frames.drop_last();
                                        assert(made_assignments@ == made.take(assign_level as int));
                                    }
                                    next = l;
                                },
                            }
                        },
                    }
                }
            },
        }
    }
}

/// Decides the formula by DPLL search.
///
/// The verdict is `SAT` exactly when some assignment of the `num_vars`
/// variables satisfies the formula, and the model returned is the first one
/// in the order of the search, which tries true before false from the
/// lowest variable on.
pub fn dpll_algorithm(num_vars: usize, clauses: &Vec<Clause>) -> (res: SATResult)
    requires
        formula_in_range(formula_of(clauses@), num_vars as nat),
    ensures
        res is SAT <==> satisfiable(num_vars as nat, formula_of(clauses@)),
        res matches SATResult::SAT { model } ==> first_model(
            num_vars as nat,
            formula_of(clauses@),
            model.assignments@,
        ),
{
    let ghost formula = formula_of(clauses@);
    match DPLLSolver::from_dimacs(num_vars, clauses) {
        Err(_) => {
            proof {
                lemma_empty_clause_unsatisfiable(num_vars as nat, formula);
            }
            SATResult::UNSAT
        },
        Ok(mut solver) => {
            let ghost start = solver;
            let res = solver.dpll_iterative();
            proof {
                lemma_cleaning_keeps_satisfiability(num_vars as nat, formula);
                lemma_refuted_unassigned(num_vars as nat, cleaned(formula), start.assignment());
                if res is SAT {
                    let values = res->model.assignments@;
                    lemma_first_model_of_all(
                        num_vars as nat,
                        cleaned(formula),
                        start.assignment(),
                        values,
                    );
                    lemma_first_model_of_cleaned(num_vars as nat, formula, values);
                    assert(satisfiable(num_vars as nat, formula));
                }
            }
            res
        },
    }
}

} // verus!
