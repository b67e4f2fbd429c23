//! Conflict analysis over the implication graph, clause learning, and the
//! search that learns a clause from every conflict.

use std::collections::BTreeSet;
use vstd::prelude::*;
use vstd::std_specs::btree::increasing_seq;
use vstd::std_specs::cmp::OrdSpec;
use vstd::std_specs::iter::IteratorSpec;
use crate::algorithm::bcp::{
    explains,
    first_to_watch,
    follows,
    follows_from,
    grows,
    in_queue,
    justified,
    justifies,
    leans_on,
    lemma_in_queue_witness,
    listing,
    lemma_other_vars_nonempty,
    value_literal,
    watch_ok,
    BCPSolver,
    WatchedClause,
};
use crate::algorithm::formula::{
    bools_of,
    clause_false,
    clause_in_range,
    clause_true,
    count_unassigned,
    comes_before,
    extends,
    first_model,
    first_model_within,
    formula_in_range,
    formula_of,
    formula_true,
    lemma_count_unassigned_shrinks,
    lemma_first_in_false_branch,
    lemma_first_in_true_branch,
    lemma_first_model_of_all,
    lemma_first_when_total,
    lemma_refuted_both_ways,
    lemma_refuted_unassigned,
    lit_true,
    refuted,
    satisfiable,
    total,
    truth_value,
    with_value,
};
use crate::algorithm::interface::{
    index_to_lit,
    negate,
    sign_value,
    Assignment,
    Clause,
    Lit,
    SATResult,
    Sign,
};
use crate::algorithm::dpll::{
    leaf_count,
    lemma_first_model_of_cleaned,
    lemma_leaf_count_grows,
    lemma_search_size_halves,
    search_size,
};
use crate::algorithm::propagation::{lemma_follows_original, lemma_refuted_original};
use crate::algorithm::simple::to_model;
use crate::algorithm::utility::{
    clause_clean,
    cleaned,
    lemma_cleaning_keeps_satisfiability,
    lemma_empty_clause_unsatisfiable,
};

pub use crate::algorithm::bcp::{BcpResult, Node};

verus! {

/// The number of flags that are set.
pub open spec fn count_true(flags: Seq<bool>) -> nat
    decreases flags.len(),
{
    if flags.len() == 0 {
        0
    } else {
        count_true(flags.drop_last()) + if flags.last() {
            1nat
        } else {
            0nat
        }
    }
}

/// Changing one flag changes the count by that flag alone.
pub proof fn lemma_count_true_update(flags: Seq<bool>, i: int, value: bool)
    requires
        0 <= i < flags.len(),
    ensures
        count_true(flags.update(i, value)) + (if flags[i] {
            1nat
        } else {
            0nat
        }) == count_true(flags) + (if value {
            1nat
        } else {
            0nat
        }),
        count_true(flags) <= flags.len(),
    decreases flags.len(),
{
    let changed = flags.update(i, value);
    if i == flags.len() - 1 {
        assert(changed.drop_last() == flags.drop_last());
        lemma_count_true_bound(flags.drop_last());
    } else {
        assert(changed.drop_last() == flags.drop_last().update(i, value));
        lemma_count_true_update(flags.drop_last(), i, value);
    }
}

/// No more flags are set than there are flags.
pub proof fn lemma_count_true_bound(flags: Seq<bool>)
    ensures
        count_true(flags) <= flags.len(),
    decreases flags.len(),
{
    if flags.len() > 0 {
        lemma_count_true_bound(flags.drop_last());
    }
}

/// One flag for each of the first `n` numbers: whether the set holds it.
pub open spec fn flags(set: Set<usize>, n: nat) -> Seq<bool> {
    Seq::new(n, |v: int| set.contains(v as usize))
}

/// A number that joins the set sets its flag.
pub proof fn lemma_flags_insert(set: Set<usize>, n: nat, x: usize)
    requires
        x < n <= usize::MAX,
    ensures
        flags(set.insert(x), n) == flags(set, n).update(x as int, true),
{
    assert forall|v: int| 0 <= v < n implies flags(set.insert(x), n)[v] == flags(set, n).update(
        x as int,
        true,
    )[v] by {
        assert((v as usize) as int == v);
    }
    assert(flags(set.insert(x), n) =~= flags(set, n).update(x as int, true));
}

/// A number that leaves the set clears its flag.
pub proof fn lemma_flags_remove(set: Set<usize>, n: nat, x: usize)
    requires
        x < n <= usize::MAX,
    ensures
        flags(set.remove(x), n) == flags(set, n).update(x as int, false),
{
    assert forall|v: int| 0 <= v < n implies flags(set.remove(x), n)[v] == flags(set, n).update(
        x as int,
        false,
    )[v] by {
        assert((v as usize) as int == v);
    }
    assert(flags(set.remove(x), n) =~= flags(set, n).update(x as int, false));
}

/// The least number in the set, if it holds any.
fn lowest(set: &BTreeSet<usize>) -> (r: Option<usize>)
    ensures
        match r {
            Some(v) => set@.contains(v) && forall|w: usize| set@.contains(w) ==> v <= w,
            None => forall|w: usize| !set@.contains(w),
        },
{
    broadcast use vstd::std_specs::btree::group_btree_axioms;
    broadcast use vstd::laws_cmp::group_laws_cmp;

    let it0 = set.iter();
    let ghost all = it0.remaining();
    proof {
        assert(all.unref().to_set() == set@);
        assert(increasing_seq(all));
    }
    for x in it: it0
        invariant
            it.seq() == all,
            it.index() == 0,
            all.unref().to_set() == set@,
            increasing_seq(all),
    {
        proof {
            assert(vstd::laws_cmp::obeys_cmp::<usize>());
            assert(vstd::laws_cmp::obeys_cmp::<&usize>());
            vstd::std_specs::btree::axiom_increasing_seq_meaning::<&usize>(all);
            assert(all.unref()[0] == *x);
            assert(all.unref().to_set().contains(*x));
            assert forall|w: usize| set@.contains(w) implies *x <= w by {
                assert(all.unref().to_set().contains(w));
                let j = choose|j: int| 0 <= j < all.unref().len() && all.unref()[j] == w;
                if j > 0 {
                    let first = &all[0];
                    let other = &all[j];
                    assert(first.cmp_spec(other) is Less);
                }
            }
        }
        return Some(*x);
    }
    proof {
        assert forall|w: usize| !set@.contains(w) by {
            if set@.contains(w) {
                assert(all.unref().to_set().contains(w));
            }
        }
    }
    None
}

impl BCPSolver {
    /// Appends a clause to the store. Its first literal is the first watch.
    /// The second watch is the first literal after it that is unassigned or
    /// true, or the second literal if there is none such, or the first
    /// literal again if the clause has no other.
    pub fn add_watched_clause(&mut self, clause: Clause)
        requires
            old(self).shape_ok(),
            old(self).learning,
            clause_clean(clause@),
            clause_in_range(clause@, old(self).num_vars()),
        ensures
            final(self).shape_ok(),
            final(self).clauses@.len() == old(self).clauses@.len() + 1,
            forall|c: int|
                0 <= c < old(self).clauses@.len() ==> final(self).clauses@[c] == old(self).clauses@[c],
            final(self).formula() == old(self).formula().push(clause@),
            final(self).watch(old(self).clauses@.len() as int, 0) == clause@[0],
            final(self).installed_after(*old(self), clause@),
            ({
                let second = final(self).watch(old(self).clauses@.len() as int, 1);
                if exists|p: int| #[trigger]
                    first_to_watch(clause@, 1, p, clause@[0], old(self).assignment@) {
                    exists|p: int| #[trigger]
                        first_to_watch(clause@, 1, p, clause@[0], old(self).assignment@)
                            && second == clause@[p]
                } else if clause@.len() > 1 {
                    second == clause@[1]
                } else {
                    second == clause@[0]
                }
            }),
            final(self).assignment == old(self).assignment,
            final(self).implication_graph == old(self).implication_graph,
            final(self).learning == old(self).learning,
            final(self).originals == old(self).originals,
            final(self).ranks == old(self).ranks,
            final(self).epochs == old(self).epochs,
            final(self).clock == old(self).clock,
            final(self).propagations == old(self).propagations,
            final(self).leaves == old(self).leaves,
    {
        let watch1 = clause.lits[0];
        let watch2 = match self.first_candidate(&clause, watch1, 1) {
            Some(other) => other,
            None => {
                if clause.lits.len() > 1 {
                    clause.lits[1]
                } else {
                    clause.lits[0]
                }
            },
        };
        proof {
            assert(clause@.contains(clause@[0]));
            if clause@.len() > 1 {
                assert(clause@.contains(clause@[1]));
                assert(clause@[0].index != clause@[1].index);
            }
            if exists|p: int| #[trigger]
                first_to_watch(clause@, 1, p, clause@[0], self.assignment@) {
                let p = choose|p: int| #[trigger]
                    first_to_watch(clause@, 1, p, watch1, self.assignment@) && clause@[p]
                        == watch2;
                assert(clause@.contains(clause@[p]));
                assert(clause@[0].index != clause@[p].index);
            }
            assert(watch_ok(
                WatchedClause { watched: [watch1, watch2], clause },
                self.num_vars(),
            ));
        }
        self.push_watched(clause, watch1, watch2);
    }
}

/// Variable `r` is among the reasons of variable `v`.
pub open spec fn reason_step(graph: Seq<Option<Node>>, v: int, r: int) -> bool {
    &&& 0 <= v < graph.len()
    &&& graph[v] matches Some(node)
    &&& exists|k: int| 0 <= k < node.reason@.len() && #[trigger] node.reason@[k] == r
}

/// Each variable of the path is among the reasons of the one before it.
pub open spec fn reason_path(graph: Seq<Option<Node>>, path: Seq<int>) -> bool {
    &&& path.len() > 0
    &&& forall|i: int|
        0 <= i < path.len() - 1 ==> reason_step(graph, #[trigger] path[i], path[i + 1])
}

/// The clause has a literal on variable `v`.
pub open spec fn has_var(clause: Seq<Lit>, v: int) -> bool {
    exists|p: int| 0 <= p < clause.len() && (#[trigger] clause[p]).index == v
}

/// From a variable of the clause, a path of reasons leads to variable `w`.
#[verifier::opaque]
pub open spec fn reached(graph: Seq<Option<Node>>, clause: Seq<Lit>, w: int) -> bool {
    exists|path: Seq<int>|
        #![trigger reason_path(graph, path)]
        reason_path(graph, path) && has_var(clause, path[0]) && path.last() == w
}

/// Variable `w` has a node without reasons: it was decided.
pub open spec fn decided(graph: Seq<Option<Node>>, w: int) -> bool {
    &&& 0 <= w < graph.len()
    &&& graph[w] matches Some(node)
    &&& node.reason@.len() == 0
}

/// Variable `w` belongs to the cut of the conflict at `clause`: it was
/// decided, and a path of reasons leads to it from a variable of the
/// clause.
pub open spec fn in_decision_cut(graph: Seq<Option<Node>>, clause: Seq<Lit>, w: int) -> bool {
    decided(graph, w) && reached(graph, clause, w)
}

/// The literal on variable `v` that is false under the value that `a`
/// gives the variable.
pub open spec fn false_literal(a: Seq<Assignment>, v: int) -> Lit {
    Lit {
        index: v as usize,
        sign: if a[v] == Assignment::Top {
            Sign::Neg
        } else {
            Sign::Pos
        },
    }
}

/// The clause learned from the conflict at `clause`, as far as it concerns
/// the variables below `upto`: for each variable of the cut, in the order
/// of the variables, the literal that is false under its value.
pub open spec fn cut_clause(
    a: Seq<Assignment>,
    graph: Seq<Option<Node>>,
    clause: Seq<Lit>,
    upto: int,
) -> Seq<Lit>
    decreases upto,
{
    if upto <= 0 {
        Seq::empty()
    } else {
        let below = cut_clause(a, graph, clause, upto - 1);
        if in_decision_cut(graph, clause, upto - 1) {
            below.push(false_literal(a, upto - 1))
        } else {
            below
        }
    }
}

/// The clause of a cut holds, for each variable of the cut, the literal
/// that is false under its value.
pub proof fn lemma_cut_clause_holds(
    a: Seq<Assignment>,
    graph: Seq<Option<Node>>,
    clause: Seq<Lit>,
    upto: int,
    w: int,
)
    requires
        0 <= w < upto,
        in_decision_cut(graph, clause, w),
    ensures
        cut_clause(a, graph, clause, upto).contains(false_literal(a, w)),
    decreases upto,
{
    let below = cut_clause(a, graph, clause, upto - 1);
    if w < upto - 1 {
        lemma_cut_clause_holds(a, graph, clause, upto - 1, w);
        let i = choose|i: int| 0 <= i < below.len() && below[i] == false_literal(a, w);
        if in_decision_cut(graph, clause, upto - 1) {
            assert(below.push(false_literal(a, upto - 1))[i] == false_literal(a, w));
        }
    } else {
        assert(below.push(false_literal(a, w))[below.len() as int] == false_literal(a, w));
    }
}

/// Each literal of the clause of a cut is, for a variable of the cut, the
/// literal that is false under its value.
pub proof fn lemma_cut_clause_member(
    a: Seq<Assignment>,
    graph: Seq<Option<Node>>,
    clause: Seq<Lit>,
    upto: int,
    p: int,
) -> (w: int)
    requires
        0 <= p < cut_clause(a, graph, clause, upto).len(),
        upto <= usize::MAX,
    ensures
        0 <= w < upto,
        in_decision_cut(graph, clause, w),
        cut_clause(a, graph, clause, upto)[p] == false_literal(a, w),
        cut_clause(a, graph, clause, upto)[p].index == w,
    decreases upto,
{
    let below = cut_clause(a, graph, clause, upto - 1);
    if p < below.len() {
        lemma_cut_clause_member(a, graph, clause, upto - 1, p)
    } else {
        upto - 1
    }
}

/// A variable of the clause is reached from the clause.
pub proof fn lemma_reached_at_once(graph: Seq<Option<Node>>, clause: Seq<Lit>, p: int)
    requires
        0 <= p < clause.len(),
    ensures
        reached(graph, clause, clause[p].index as int),
{
    reveal(reached);
    let path = seq![clause[p].index as int];
    assert(reason_path(graph, path));
    assert(has_var(clause, path[0]));
}

/// What is among the reasons of a reached variable is reached.
pub proof fn lemma_reached_on(graph: Seq<Option<Node>>, clause: Seq<Lit>, v: int, r: int)
    requires
        reached(graph, clause, v),
        reason_step(graph, v, r),
    ensures
        reached(graph, clause, r),
{
    reveal(reached);
    let path = choose|path: Seq<int>|
        #![trigger reason_path(graph, path)]
        reason_path(graph, path) && has_var(clause, path[0]) && path.last() == v;
    let longer = path.push(r);
    assert forall|i: int| 0 <= i < longer.len() - 1 implies reason_step(
        graph,
        #[trigger] longer[i],
        longer[i + 1],
    ) by {
        if i < path.len() - 1 {
            assert(reason_step(graph, path[i], path[i + 1]));
        }
    }
    assert(reason_path(graph, longer));
    assert(longer[0] == path[0]);
}

/// One of the three flag vectors marks variable `v`.
pub open spec fn marked(fringe: Seq<bool>, cut: Seq<bool>, expanded: Seq<bool>, v: int) -> bool {
    fringe[v] || cut[v] || expanded[v]
}

impl BCPSolver {
    /// The state of a conflict analysis: marked variables are assigned, no
    /// variable waits in the fringe after it was expanded, each expanded
    /// variable has a reason all of whose variables are marked, and some
    /// variable is marked.
    #[verifier::opaque]
    pub open spec fn analysing(&self, fringe: Seq<bool>, cut: Seq<bool>, expanded: Seq<bool>) -> bool {
        &&& fringe.len() == self.num_vars()
        &&& cut.len() == self.num_vars()
        &&& expanded.len() == self.num_vars()
        &&& forall|v: int|
            0 <= v < self.num_vars() && #[trigger] marked(fringe, cut, expanded, v)
                ==> self.assignment@[v] != Assignment::Unassigned
        &&& forall|v: int| 0 <= v < self.num_vars() && #[trigger] fringe[v] ==> !expanded[v]
        &&& forall|v: int|
            0 <= v < self.num_vars() && #[trigger] expanded[v] ==> self.expanded_ok(
                fringe,
                cut,
                expanded,
                v,
            )
        &&& exists|v: int| 0 <= v < self.num_vars() && #[trigger] marked(fringe, cut, expanded, v)
    }

    /// Variable `v` has a reason, and every variable of it is marked.
    pub open spec fn expanded_ok(
        &self,
        fringe: Seq<bool>,
        cut: Seq<bool>,
        expanded: Seq<bool>,
        v: int,
    ) -> bool {
        &&& self.implication_graph@[v] matches Some(node)
        &&& node.reason@.len() > 0
        &&& forall|k: int|
            0 <= k < node.reason@.len() ==> marked(
                fringe,
                cut,
                expanded,
                (#[trigger] node.reason@[k]) as int,
            )
    }

    /// What the marks of a conflict analysis stand for: every marked variable
    /// is reached from the conflicting clause, every variable of the cut was
    /// decided, and every variable of the clause is marked.
    #[verifier::opaque]
    pub open spec fn tracing(
        &self,
        conflict: Seq<Lit>,
        fringe: Seq<bool>,
        cut: Seq<bool>,
        expanded: Seq<bool>,
    ) -> bool {
        &&& forall|v: int|
            0 <= v < self.num_vars() && #[trigger] marked(fringe, cut, expanded, v) ==> reached(
                self.implication_graph@,
                conflict,
                v,
            )
        &&& forall|v: int|
            0 <= v < self.num_vars() && #[trigger] cut[v] ==> decided(self.implication_graph@, v)
        &&& forall|p: int|
            0 <= p < conflict.len() ==> marked(
                fringe,
                cut,
                expanded,
                (#[trigger] conflict[p]).index as int,
            )
    }

    /// One flag for each variable: whether the set holds it.
    #[verifier::inline]
    pub open spec fn marks(&self, set: Set<usize>) -> Seq<bool> {
        flags(set, self.num_vars())
    }

    /// The reasons of variable `v` are variables of the problem.
    pub open spec fn reasons_in_range(&self, v: int) -> bool {
        self.implication_graph@[v] matches Some(node) ==> forall|k: int|
            0 <= k < node.reason@.len() ==> (#[trigger] node.reason@[k]) < self.num_vars()
    }

    /// When the fringe is used up, every variable on a path of reasons from
    /// the conflicting clause is in the cut or expanded.
    proof fn lemma_path_marked(
        &self,
        conflict: Seq<Lit>,
        fringe: Seq<bool>,
        cut: Seq<bool>,
        expanded: Seq<bool>,
        path: Seq<int>,
        i: int,
    )
        requires
            self.implication_graph@.len() == self.num_vars(),
            clause_in_range(conflict, self.num_vars()),
            forall|v: int|
                0 <= v < self.num_vars() && #[trigger] expanded[v] ==> self.expanded_ok(
                    fringe,
                    cut,
                    expanded,
                    v,
                ) && self.reasons_in_range(v),
            forall|v: int|
                0 <= v < self.num_vars() && #[trigger] cut[v] ==> decided(
                    self.implication_graph@,
                    v,
                ),
            forall|p: int|
                0 <= p < conflict.len() ==> marked(
                    fringe,
                    cut,
                    expanded,
                    (#[trigger] conflict[p]).index as int,
                ),
            forall|w: int| 0 <= w < self.num_vars() ==> !fringe[w],
            reason_path(self.implication_graph@, path),
            has_var(conflict, path[0]),
            0 <= i < path.len(),
        ensures
            0 <= path[i] < self.num_vars(),
            cut[path[i]] || expanded[path[i]],
        decreases i,
    {
        if i == 0 {
            let p = choose|p: int| 0 <= p < conflict.len() && (#[trigger] conflict[p]).index == path[0];
            assert(marked(fringe, cut, expanded, conflict[p].index as int));
        } else {
            self.lemma_path_marked(conflict, fringe, cut, expanded, path, i - 1);
            let v = path[i - 1];
            assert(reason_step(self.implication_graph@, path[i - 1], path[i]));
            let node = self.implication_graph@[v]->0;
            let k = choose|k: int| 0 <= k < node.reason@.len() && #[trigger] node.reason@[k] == path[i];
            if cut[v] {
                assert(decided(self.implication_graph@, v));
            }
            assert(expanded[v]);
            assert(self.expanded_ok(fringe, cut, expanded, v));
            assert(self.reasons_in_range(v));
            assert(marked(fringe, cut, expanded, node.reason@[k] as int));
            assert(node.reason@[k] < self.num_vars());
        }
    }

    /// When the fringe is used up, the marked cut is the cut of the
    /// conflict.
    proof fn lemma_cut_is_decision_cut(
        &self,
        conflict: Seq<Lit>,
        fringe: Seq<bool>,
        cut: Seq<bool>,
        expanded: Seq<bool>,
    )
        requires
            self.graph_ok(),
            self.implication_graph@.len() == self.num_vars(),
            clause_in_range(conflict, self.num_vars()),
            self.analysing(fringe, cut, expanded),
            self.tracing(conflict, fringe, cut, expanded),
            forall|w: int| 0 <= w < self.num_vars() ==> !fringe[w],
        ensures
            forall|w: int|
                0 <= w < self.num_vars() ==> (#[trigger] cut[w] <==> in_decision_cut(
                    self.implication_graph@,
                    conflict,
                    w,
                )),
    {
        reveal(BCPSolver::analysing);
        reveal(BCPSolver::tracing);
        let graph = self.implication_graph@;
        assert forall|v: int| 0 <= v < self.num_vars() implies self.reasons_in_range(v) by {
            assert(self.graph_ok());
        }
        assert forall|w: int| 0 <= w < self.num_vars() implies (#[trigger] cut[w]
            <==> in_decision_cut(graph, conflict, w)) by {
            if cut[w] {
                assert(marked(fringe, cut, expanded, w));
            }
            if in_decision_cut(graph, conflict, w) {
                reveal(reached);
                let path = choose|path: Seq<int>|
                    #![trigger reason_path(graph, path)]
                    reason_path(graph, path) && has_var(conflict, path[0]) && path.last() == w;
                self.lemma_path_marked(conflict, fringe, cut, expanded, path, path.len() - 1);
                if expanded[w] {
                    assert(self.expanded_ok(fringe, cut, expanded, w));
                }
            }
        }
    }

    /// From an expanded variable a chain of reasons leads to a variable of
    /// the fringe or of the cut.
    proof fn lemma_descend(&self, fringe: Seq<bool>, cut: Seq<bool>, expanded: Seq<bool>, v: int)
        requires
            self.graph_ok(),
            self.analysing(fringe, cut, expanded),
            0 <= v < self.num_vars(),
            expanded[v],
        ensures
            exists|w: int| 0 <= w < self.num_vars() && (fringe[w] || cut[w]),
        decreases self.ranks@[v],
    {
        reveal(BCPSolver::analysing);
        reveal(BCPSolver::tracing);
        assert(self.expanded_ok(fringe, cut, expanded, v));
        let node = self.implication_graph@[v]->0;
        let r = node.reason@[0] as int;
        assert(marked(fringe, cut, expanded, r));
        if fringe[r] || cut[r] {
        } else {
            self.lemma_descend(fringe, cut, expanded, r);
        }
    }

    /// When the fringe is used up, the cut holds a variable.
    proof fn lemma_cut_nonempty(&self, fringe: Seq<bool>, cut: Seq<bool>, expanded: Seq<bool>)
        requires
            self.graph_ok(),
            self.analysing(fringe, cut, expanded),
            forall|w: int| 0 <= w < self.num_vars() ==> !fringe[w],
        ensures
            exists|v: int| 0 <= v < self.num_vars() && cut[v],
    {
        reveal(BCPSolver::analysing);
        reveal(BCPSolver::tracing);
        let v = choose|v: int|
            0 <= v < self.num_vars() && #[trigger] marked(fringe, cut, expanded, v);
        if expanded[v] {
            self.lemma_descend(fringe, cut, expanded, v);
            let w = choose|w: int| 0 <= w < self.num_vars() && (fringe[w] || cut[w]);
            assert(cut[w]);
        }
    }

    /// The analysis begins with the variables of the conflicting clause in
    /// the fringe and no other mark.
    proof fn lemma_analysis_begins(
        &self,
        conflict: Seq<Lit>,
        fringe: Seq<bool>,
        cut: Seq<bool>,
        expanded: Seq<bool>,
    )
        requires
            conflict.len() > 0,
            clause_in_range(conflict, self.num_vars()),
            fringe.len() == self.num_vars(),
            cut.len() == self.num_vars(),
            expanded.len() == self.num_vars(),
            forall|v: int| 0 <= v < self.num_vars() ==> !cut[v] && !expanded[v],
            forall|v: int|
                0 <= v < self.num_vars() && #[trigger] fringe[v] ==> self.assignment@[v]
                    != Assignment::Unassigned && reached(self.implication_graph@, conflict, v),
            forall|q: int| 0 <= q < conflict.len() ==> fringe[(#[trigger] conflict[q]).index as int],
        ensures
            self.analysing(fringe, cut, expanded),
            self.tracing(conflict, fringe, cut, expanded),
    {
        reveal(BCPSolver::analysing);
        reveal(BCPSolver::tracing);
        assert(marked(fringe, cut, expanded, conflict[0].index as int));
    }

    /// A variable of the fringe has a value and is not expanded, and a
    /// variable of the cut has a value.
    proof fn lemma_marked_assigned(
        &self,
        fringe: Seq<bool>,
        cut: Seq<bool>,
        expanded: Seq<bool>,
        v: int,
    )
        requires
            self.analysing(fringe, cut, expanded),
            0 <= v < self.num_vars(),
            fringe[v] || cut[v],
        ensures
            self.assignment@[v] != Assignment::Unassigned,
            fringe[v] ==> !expanded[v],
    {
        reveal(BCPSolver::analysing);
        assert(marked(fringe, cut, expanded, v));
    }

    /// A variable without reasons goes from the fringe to the cut.
    proof fn lemma_cut_step(
        &self,
        conflict: Seq<Lit>,
        fringe: Seq<bool>,
        cut: Seq<bool>,
        expanded: Seq<bool>,
        current: int,
    )
        requires
            self.graph_ok(),
            clause_in_range(conflict, self.num_vars()),
            self.analysing(fringe, cut, expanded),
            self.tracing(conflict, fringe, cut, expanded),
            0 <= current < self.num_vars(),
            fringe[current],
            decided(self.implication_graph@, current),
        ensures
            self.analysing(fringe.update(current, false), cut.update(current, true), expanded),
            self.tracing(
                conflict,
                fringe.update(current, false),
                cut.update(current, true),
                expanded,
            ),
    {
        reveal(BCPSolver::analysing);
        reveal(BCPSolver::tracing);
        let fringe1 = fringe.update(current, false);
        let cut1 = cut.update(current, true);
        assert forall|v: int|
            0 <= v < self.num_vars() && #[trigger] expanded[v] implies self.expanded_ok(
            fringe1,
            cut1,
            expanded,
            v,
        ) by {
            assert(self.expanded_ok(fringe, cut, expanded, v));
            let node = self.implication_graph@[v]->0;
            assert forall|k: int| 0 <= k < node.reason@.len() implies marked(
                fringe1,
                cut1,
                expanded,
                (#[trigger] node.reason@[k]) as int,
            ) by {
                assert(marked(fringe, cut, expanded, node.reason@[k] as int));
                assert(node.reason@[k] < self.num_vars());
            }
        }
        assert forall|v: int|
            0 <= v < self.num_vars() && #[trigger] marked(
                fringe1,
                cut1,
                expanded,
                v,
            ) implies self.assignment@[v] != Assignment::Unassigned && reached(
            self.implication_graph@,
            conflict,
            v,
        ) by {
            assert(marked(fringe, cut, expanded, v));
        }
        assert(marked(fringe1, cut1, expanded, current));
        assert forall|v: int| 0 <= v < self.num_vars() && #[trigger] cut1[v] implies decided(
            self.implication_graph@,
            v,
        ) by {
            if v != current {
                assert(cut[v]);
            }
        }
        assert forall|p: int| 0 <= p < conflict.len() implies marked(
            fringe1,
            cut1,
            expanded,
            (#[trigger] conflict[p]).index as int,
        ) by {
            assert(marked(fringe, cut, expanded, conflict[p].index as int));
            assert(conflict[p].index < self.num_vars());
        }
        assert forall|v: int| 0 <= v < self.num_vars() && #[trigger] fringe1[v] implies !expanded[v] by {
            assert(fringe[v]);
        }
    }

    /// A variable with reasons goes from the fringe to the expanded ones,
    /// and its reasons come into the fringe.
    proof fn lemma_expand_step(
        &self,
        conflict: Seq<Lit>,
        fringe: Seq<bool>,
        cut: Seq<bool>,
        expanded: Seq<bool>,
        current: int,
        grown: Seq<bool>,
    )
        requires
            self.graph_ok(),
            clause_in_range(conflict, self.num_vars()),
            self.analysing(fringe, cut, expanded),
            self.tracing(conflict, fringe, cut, expanded),
            0 <= current < self.num_vars(),
            fringe[current],
            self.implication_graph@[current] matches Some(node) && node.reason@.len() > 0,
            grown.len() == self.num_vars(),
            forall|v: int|
                0 <= v < self.num_vars() && fringe.update(current, false)[v] ==> grown[v],
            forall|v: int|
                0 <= v < self.num_vars() && #[trigger] grown[v] && !fringe.update(
                    current,
                    false,
                )[v] ==> !expanded.update(current, true)[v] && self.assignment@[v]
                    != Assignment::Unassigned && reason_step(self.implication_graph@, current, v),
            forall|k: int|
                0 <= k < (self.implication_graph@[current]->0).reason@.len() ==> marked(
                    grown,
                    cut,
                    expanded.update(current, true),
                    (#[trigger] (self.implication_graph@[current]->0).reason@[k]) as int,
                ),
        ensures
            self.analysing(grown, cut, expanded.update(current, true)),
            self.tracing(conflict, grown, cut, expanded.update(current, true)),
    {
        reveal(BCPSolver::analysing);
        reveal(BCPSolver::tracing);
        let fringe1 = fringe.update(current, false);
        let expanded1 = expanded.update(current, true);
        assert(marked(fringe, cut, expanded, current));
        assert(reached(self.implication_graph@, conflict, current));
        assert forall|v: int|
            0 <= v < self.num_vars() && #[trigger] expanded1[v] implies self.expanded_ok(
            grown,
            cut,
            expanded1,
            v,
        ) by {
            if v != current {
                assert(self.expanded_ok(fringe, cut, expanded, v));
                let node = self.implication_graph@[v]->0;
                assert forall|k: int| 0 <= k < node.reason@.len() implies marked(
                    grown,
                    cut,
                    expanded1,
                    (#[trigger] node.reason@[k]) as int,
                ) by {
                    assert(marked(fringe, cut, expanded, node.reason@[k] as int));
                    assert(node.reason@[k] < self.num_vars());
                }
            }
        }
        assert forall|v: int|
            0 <= v < self.num_vars() && #[trigger] marked(
                grown,
                cut,
                expanded1,
                v,
            ) implies self.assignment@[v] != Assignment::Unassigned && reached(
            self.implication_graph@,
            conflict,
            v,
        ) by {
            if grown[v] && !fringe1[v] {
                lemma_reached_on(self.implication_graph@, conflict, current, v);
            } else if v != current {
                assert(marked(fringe, cut, expanded, v));
            }
        }
        assert(marked(grown, cut, expanded1, current));
        assert forall|p: int| 0 <= p < conflict.len() implies marked(
            grown,
            cut,
            expanded1,
            (#[trigger] conflict[p]).index as int,
        ) by {
            assert(marked(fringe, cut, expanded, conflict[p].index as int));
            assert(conflict[p].index < self.num_vars());
        }
        assert forall|v: int| 0 <= v < self.num_vars() && #[trigger] grown[v] implies !expanded1[v] by {
            if fringe1[v] {
                assert(fringe[v]);
            }
        }
        assert forall|v: int| 0 <= v < self.num_vars() && #[trigger] cut[v] implies decided(
            self.implication_graph@,
            v,
        ) by {
        }
    }

    /// Puts the variables of the reason of an expanded variable into the
    /// fringe, but for those already expanded.
    fn expand(
        &self,
        current: usize,
        fringe: &mut BTreeSet<usize>,
        cut: &BTreeSet<usize>,
        expanded: &BTreeSet<usize>,
    )
        requires
            self.graph_ok(),
            current < self.num_vars(),
            self.implication_graph@.len() == self.num_vars(),
            self.implication_graph@[current as int] is Some,
            forall|x: usize| old(fringe)@.contains(x) ==> x < self.num_vars(),
            self.num_vars() <= usize::MAX,
        ensures
            forall|x: usize| final(fringe)@.contains(x) ==> x < self.num_vars(),
            forall|v: int|
                0 <= v < self.num_vars() && self.marks(old(fringe)@)[v] ==> self.marks(
                    final(fringe)@,
                )[v],
            forall|v: int|
                0 <= v < self.num_vars() && #[trigger] self.marks(final(fringe)@)[v]
                    && !self.marks(old(fringe)@)[v]
                    ==> !self.marks(expanded@)[v] && self.assignment@[v] != Assignment::Unassigned
                    && reason_step(self.implication_graph@, current as int, v),
            forall|k: int|
                0 <= k < (self.implication_graph@[current as int]->0).reason@.len() ==> marked(
                    self.marks(final(fringe)@),
                    self.marks(cut@),
                    self.marks(expanded@),
                    (#[trigger] (self.implication_graph@[current as int]->0).reason@[k]) as int,
                ),
    {
        broadcast use vstd::std_specs::btree::group_btree_axioms;

        match &self.implication_graph[current] {
            Some(node) => {
                let mut k: usize = 0;
                while k < node.reason.len()
                    invariant
                        k <= node.reason@.len(),
                        forall|x: usize| fringe@.contains(x) ==> x < self.num_vars(),
                        self.num_vars() <= usize::MAX,
                        self.graph_ok(),
                        current < self.num_vars(),
                        self.implication_graph@[current as int] == Some(*node),
                        self.implication_graph@.len() == self.num_vars(),
                        forall|v: int|
                            0 <= v < self.num_vars() && self.marks(old(fringe)@)[v]
                                ==> self.marks(fringe@)[v],
                        forall|v: int|
                            0 <= v < self.num_vars() && #[trigger] self.marks(fringe@)[v]
                                && !self.marks(old(fringe)@)[v] ==> !self.marks(expanded@)[v]
                                && self.assignment@[v]
                                != Assignment::Unassigned && reason_step(
                                self.implication_graph@,
                                current as int,
                                v,
                            ),
                        forall|j: int|
                            0 <= j < k ==> marked(
                                self.marks(fringe@),
                                self.marks(cut@),
                                self.marks(expanded@),
                                (#[trigger] node.reason@[j]) as int,
                            ),
                    decreases node.reason@.len() - k,
                {
                    let r = node.reason[k];
                    proof {
                        let stored = self.implication_graph@[current as int];
                        assert(stored matches Some(nd) && nd == *node);
                        assert(node.reason@[k as int] < self.num_vars());
                        assert(reason_step(self.implication_graph@, current as int, r as int));
                    }
                    if !expanded.contains(&r) {
                        proof {
                            lemma_flags_insert(fringe@, self.num_vars(), r);
                        }
                        fringe.insert(r);
                    }
                    k += 1;
                }
            },
            None => {},
        }
    }

    /// Collects the cut of the conflict at a clause all of whose literals
    /// are false. The variables of the clause come into the fringe. The
    /// least variable of the fringe is taken out in turn: if it has no
    /// reason it goes to the cut; else it is expanded, which brings the
    /// variables of its reason into the fringe, but for those already
    /// expanded. This goes on until the fringe is used up.
    fn decision_cut(&self, clause_index: usize) -> (cut: BTreeSet<usize>)
        requires
            self.shape_ok(),
            self.graph_ok(),
            clause_index < self.clauses@.len(),
            clause_false(self.formula()[clause_index as int], self.assignment@),
            forall|v: int|
                0 <= v < self.num_vars() && #[trigger] self.assignment@[v]
                    != Assignment::Unassigned ==> self.implication_graph@[v] is Some,
        ensures
            forall|w: int|
                0 <= w < self.num_vars() ==> (#[trigger] self.marks(cut@)[w] <==> in_decision_cut(
                    self.implication_graph@,
                    self.formula()[clause_index as int],
                    w,
                )),
            forall|w: int|
                0 <= w < self.num_vars() && #[trigger] self.marks(cut@)[w] ==> self.assignment@[w]
                    != Assignment::Unassigned,
            exists|w: int| 0 <= w < self.num_vars() && self.marks(cut@)[w],
    {
        broadcast use vstd::std_specs::btree::group_btree_axioms;

        let n = self.assignment.assignments.len();
        let mut fringe: BTreeSet<usize> = BTreeSet::new();
        let mut cut: BTreeSet<usize> = BTreeSet::new();
        let mut expanded: BTreeSet<usize> = BTreeSet::new();
        let ghost conflict = self.clauses@[clause_index as int].clause@;
        proof {
            assert(watch_ok(self.clauses@[clause_index as int], self.num_vars()));
            assert(conflict == self.formula()[clause_index as int]);
        }
        let mut p: usize = 0;
        while p < self.clauses[clause_index].clause.lits.len()
            invariant
                p <= conflict.len(),
                clause_index < self.clauses@.len(),
                conflict == self.clauses@[clause_index as int].clause@,
                clause_in_range(conflict, self.num_vars()),
                clause_false(conflict, self.assignment@),
                forall|x: usize| fringe@.contains(x) ==> x < n,
                cut@ == Set::<usize>::empty(),
                expanded@ == Set::<usize>::empty(),
                n == self.num_vars(),
                forall|v: int|
                    0 <= v < n && #[trigger] self.marks(fringe@)[v] ==> self.assignment@[v]
                        != Assignment::Unassigned,
                forall|q: int| 0 <= q < p ==> self.marks(fringe@)[(#[trigger] conflict[q]).index as int],
                forall|v: int|
                    0 <= v < n && #[trigger] self.marks(fringe@)[v] ==> reached(
                        self.implication_graph@,
                        conflict,
                        v,
                    ),
            decreases conflict.len() - p,
        {
            let lit = self.clauses[clause_index].clause.lits[p];
            proof {
                assert(truth_value(conflict[p as int], self.assignment@) == Assignment::Bot);
                lemma_reached_at_once(self.implication_graph@, conflict, p as int);
            }
            proof {
                lemma_flags_insert(fringe@, self.num_vars(), lit.index);
            }
            fringe.insert(lit.index);
            p += 1;
        }
        proof {
            self.lemma_analysis_begins(
                conflict,
                self.marks(fringe@),
                self.marks(cut@),
                self.marks(expanded@),
            );
        }
        let mut next = lowest(&fringe);
        while next.is_some()
            invariant
                self.graph_ok(),
                n == self.num_vars(),
                forall|x: usize| fringe@.contains(x) ==> x < n,
                self.implication_graph@.len() == n,
                forall|v: int|
                    0 <= v < self.num_vars() && #[trigger] self.assignment@[v]
                        != Assignment::Unassigned ==> self.implication_graph@[v] is Some,
                self.analysing(self.marks(fringe@), self.marks(cut@), self.marks(expanded@)),
                self.tracing(conflict, self.marks(fringe@), self.marks(cut@), self.marks(expanded@)),
                clause_in_range(conflict, self.num_vars()),
                match next {
                    Some(v) => v < n && fringe@.contains(v) && self.marks(fringe@)[v as int],
                    None => forall|w: int| 0 <= w < n ==> !self.marks(fringe@)[w],
                },
            decreases n - count_true(self.marks(expanded@)), count_true(self.marks(fringe@)),
        {
            let current = next.unwrap();
            let ghost fringe0 = self.marks(fringe@);
            let ghost cut0 = self.marks(cut@);
            let ghost expanded0 = self.marks(expanded@);
            proof {
                lemma_count_true_update(fringe0, current as int, false);
                lemma_count_true_update(expanded0, current as int, true);
                self.lemma_marked_assigned(fringe0, cut0, expanded0, current as int);
            }
            proof {
                lemma_flags_remove(fringe@, self.num_vars(), current);
            }
            fringe.remove(&current);
            let is_decision = match &self.implication_graph[current] {
                Some(node) => node.reason.len() == 0,
                None => true,
            };
            if is_decision {
                proof {
                    lemma_flags_insert(cut@, self.num_vars(), current);
                }
                cut.insert(current);
                proof {
                    self.lemma_cut_step(conflict, fringe0, cut0, expanded0, current as int);
                    assert(self.marks(fringe@) == fringe0.update(current as int, false));
                    assert(self.marks(cut@) == cut0.update(current as int, true));
                }
            } else {
                proof {
                    lemma_flags_insert(expanded@, self.num_vars(), current);
                }
                expanded.insert(current);
                proof {
                    lemma_count_true_bound(self.marks(expanded@));
                    assert(self.marks(fringe@) == fringe0.update(current as int, false));
                    assert(self.marks(expanded@) == expanded0.update(current as int, true));
                }
                self.expand(current, &mut fringe, &cut, &expanded);
                proof {
                    self.lemma_expand_step(
                        conflict,
                        fringe0,
                        self.marks(cut@),
                        expanded0,
                        current as int,
                        self.marks(fringe@),
                    );
                }
            }
            next = lowest(&fringe);
        }
        proof {
            self.lemma_cut_nonempty(self.marks(fringe@), self.marks(cut@), self.marks(expanded@));
            self.lemma_cut_is_decision_cut(
                conflict,
                self.marks(fringe@),
                self.marks(cut@),
                self.marks(expanded@),
            );
            assert forall|w: int| 0 <= w < n && #[trigger] self.marks(cut@)[w] implies self.assignment@[w]
                != Assignment::Unassigned by {
                self.lemma_marked_assigned(self.marks(fringe@), self.marks(cut@), self.marks(expanded@), w);
            }
        }
        cut
    }

    /// The clause of a cut: for each of its variables, in their order, the
    /// literal that is false under the value of the variable.
    fn learned_literals(&self, cut: &BTreeSet<usize>, Ghost(conflict): Ghost<Seq<Lit>>) -> (lits:
        Vec<Lit>)
        requires
            forall|w: int|
                0 <= w < self.num_vars() ==> (#[trigger] self.marks(cut@)[w] <==> in_decision_cut(
                    self.implication_graph@,
                    conflict,
                    w,
                )),
            forall|w: int|
                0 <= w < self.num_vars() && #[trigger] self.marks(cut@)[w] ==> self.assignment@[w]
                    != Assignment::Unassigned,
            exists|w: int| 0 <= w < self.num_vars() && self.marks(cut@)[w],
        ensures
            lits@ == cut_clause(
                self.assignment@,
                self.implication_graph@,
                conflict,
                self.num_vars() as int,
            ),
            clause_clean(lits@),
            clause_in_range(lits@, self.num_vars()),
            clause_false(lits@, self.assignment@),
    {
        broadcast use vstd::std_specs::btree::group_btree_axioms;

        let n = self.assignment.assignments.len();
        let mut learned_lits: Vec<Lit> = Vec::new();
        let mut v: usize = 0;
        while v < n
            invariant
                v <= n,
                n == self.num_vars(),
                forall|w: int|
                    0 <= w < n && #[trigger] self.marks(cut@)[w] ==> self.assignment@[w]
                        != Assignment::Unassigned,
                forall|i: int|
                    0 <= i < learned_lits@.len() ==> (#[trigger] learned_lits@[i]).index < v
                        && truth_value(learned_lits@[i], self.assignment@) == Assignment::Bot,
                forall|i: int, j: int|
                    0 <= i < j < learned_lits@.len() ==> (#[trigger] learned_lits@[i]).index < (
                    #[trigger] learned_lits@[j]).index,
                (exists|w: int| 0 <= w < v && self.marks(cut@)[w]) ==> learned_lits@.len() > 0,
                forall|w: int|
                    0 <= w < n ==> (#[trigger] self.marks(cut@)[w] <==> in_decision_cut(
                        self.implication_graph@,
                        conflict,
                        w,
                    )),
                learned_lits@ == cut_clause(
                    self.assignment@,
                    self.implication_graph@,
                    conflict,
                    v as int,
                ),
            decreases n - v,
        {
            proof {
                assert(self.marks(cut@)[v as int] == cut@.contains(v));
            }
            if cut.contains(&v) {
                let value = self.assignment.assignments[v];
                learned_lits.push(negate(index_to_lit(v, value)));
            }
            proof {
                assert(self.marks(cut@)[v as int] <==> in_decision_cut(
                    self.implication_graph@,
                    conflict,
                    v as int,
                ));
            }
            v += 1;
        }
        learned_lits
    }

    /// A model of the formula that agrees with the assignment on every
    /// variable of the cut of a conflict agrees with it on every assigned
    /// variable that is reached from the conflicting clause.
    pub proof fn lemma_model_agrees(&self, m: Seq<bool>, conflict: Seq<Lit>, v: usize)
        requires
            self.shape_ok(),
            self.graph_ok(),
            explains(self.formula(), self.assignment@, self.implication_graph@),
            m.len() == self.num_vars(),
            formula_true(self.formula(), m),
            forall|w: usize|
                w < self.num_vars() && #[trigger] in_decision_cut(
                    self.implication_graph@,
                    conflict,
                    w as int,
                ) ==> m[w as int] == (self.assignment@[w as int] == Assignment::Top),
            v < self.num_vars(),
            self.assignment@[v as int] != Assignment::Unassigned,
            reached(self.implication_graph@, conflict, v as int),
        ensures
            m[v as int] == (self.assignment@[v as int] == Assignment::Top),
        decreases self.ranks@[v as int],
    {
        let a = self.assignment@;
        let graph = self.implication_graph@;
        assert(justified(self.formula(), a, graph, v as int)) by {
            reveal(explains);
        }
        let node = graph[v as int]->0;
        if node.reason@.len() == 0 {
            assert(decided(graph, v as int));
            assert(in_decision_cut(graph, conflict, v as int));
        } else {
            let c = choose|c: int|
                0 <= c < self.formula().len() && justifies(
                    #[trigger] self.formula()[c],
                    a,
                    v as int,
                    node.reason@,
                );
            let clause = self.formula()[c];
            let x = value_literal(a, v as int);
            assert(clause == self.clauses@[c].clause@);
            assert(watch_ok(self.clauses@[c], self.num_vars()));
            assert(clause_true(clause, m));
            let p = choose|p: int| 0 <= p < clause.len() && lit_true(#[trigger] clause[p], m);
            if clause[p] != x {
                lemma_other_vars_nonempty(clause, x, p);
                let r = clause[p].index;
                let k = choose|k: int|
                    0 <= k < node.reason@.len() && node.reason@[k] == clause[p].index;
                assert(node.reason@[k] == r);
                assert(reason_step(graph, v as int, r as int));
                lemma_reached_on(graph, conflict, v as int, r as int);
                assert(self.ranks@[r as int] < self.ranks@[v as int]);
                self.lemma_model_agrees(m, conflict, r);
                assert(truth_value(clause[p], a) == Assignment::Bot);
                assert(false);
            }
            assert(lit_true(x, m));
        }
    }

    /// The clause learned from a conflict is true in every model of the
    /// clauses in the store.
    pub proof fn lemma_learned_follows(&self, c: int)
        requires
            self.shape_ok(),
            self.graph_ok(),
            explains(self.formula(), self.assignment@, self.implication_graph@),
            0 <= c < self.clauses@.len(),
            clause_false(self.formula()[c], self.assignment@),
        ensures
            follows_from(
                self.formula(),
                cut_clause(
                    self.assignment@,
                    self.implication_graph@,
                    self.formula()[c],
                    self.num_vars() as int,
                ),
                self.num_vars(),
            ),
    {
        let a = self.assignment@;
        let graph = self.implication_graph@;
        let conflict = self.formula()[c];
        let n = self.num_vars();
        let learned = cut_clause(a, graph, conflict, n as int);
        assert forall|m: Seq<bool>|
            m.len() == n && #[trigger] formula_true(self.formula(), m) implies clause_true(
            learned,
            m,
        ) by {
            if !clause_true(learned, m) {
                assert forall|w: usize|
                    w < n && #[trigger] in_decision_cut(graph, conflict, w as int) implies m[w as int]
                    == (a[w as int] == Assignment::Top) by {
                    lemma_cut_clause_holds(a, graph, conflict, n as int, w as int);
                    let i = choose|i: int|
                        0 <= i < learned.len() && learned[i] == false_literal(a, w as int);
                    assert(!lit_true(learned[i], m));
                }
                assert(clause_true(conflict, m));
                let p = choose|p: int|
                    0 <= p < conflict.len() && lit_true(#[trigger] conflict[p], m);
                assert(watch_ok(self.clauses@[c], n));
                assert(conflict == self.clauses@[c].clause@);
                lemma_reached_at_once(graph, conflict, p);
                assert(truth_value(conflict[p], a) == Assignment::Bot);
                self.lemma_model_agrees(m, conflict, conflict[p].index);
                assert(false);
            }
        }
    }

    /// The clause to learn from the conflict at a clause all of whose
    /// literals are false: for each variable of the cut, in the order of the
    /// variables, the literal that is false under its value. It is true in
    /// every model of the clauses in the store.
    pub fn conflict_clause(&self, clause_index: usize) -> (lits: Vec<Lit>)
        requires
            self.shape_ok(),
            self.graph_ok(),
            explains(self.formula(), self.assignment@, self.implication_graph@),
            clause_index < self.clauses@.len(),
            clause_false(self.formula()[clause_index as int], self.assignment@),
            forall|v: int|
                0 <= v < self.num_vars() && #[trigger] self.assignment@[v]
                    != Assignment::Unassigned ==> self.implication_graph@[v] is Some,
        ensures
            lits@ == cut_clause(
                self.assignment@,
                self.implication_graph@,
                self.formula()[clause_index as int],
                self.num_vars() as int,
            ),
            clause_clean(lits@),
            clause_in_range(lits@, self.num_vars()),
            clause_false(lits@, self.assignment@),
            follows_from(self.formula(), lits@, self.num_vars()),
            forall|w: int|
                0 <= w < self.num_vars() && #[trigger] in_decision_cut(
                    self.implication_graph@,
                    self.formula()[clause_index as int],
                    w,
                ) ==> lits@.contains(false_literal(self.assignment@, w)),
    {
        let ghost conflict = self.formula()[clause_index as int];
        let cut = self.decision_cut(clause_index);
        let lits = self.learned_literals(&cut, Ghost(conflict));
        proof {
            self.lemma_learned_follows(clause_index as int);
            assert forall|w: int|
                0 <= w < self.num_vars() && #[trigger] in_decision_cut(
                    self.implication_graph@,
                    conflict,
                    w,
                ) implies lits@.contains(false_literal(self.assignment@, w)) by {
                lemma_cut_clause_holds(
                    self.assignment@,
                    self.implication_graph@,
                    conflict,
                    self.num_vars() as int,
                    w,
                );
            }
        }
        lits
    }

    /// From a listed literal that is reached from the conflicting clause,
    /// reasons lead back to the first listed literal.
    pub proof fn lemma_reaches_first(
        &self,
        made: Seq<Lit>,
        level: usize,
        conflict: Seq<Lit>,
        k: int,
    )
        requires
            self.noting(made, level),
            self.implication_graph@.len() == self.num_vars(),
            0 <= k < made.len(),
            reached(self.implication_graph@, conflict, made[k].index as int),
        ensures
            reached(self.implication_graph@, conflict, made[0].index as int),
        decreases k,
    {
        if k > 0 {
            reveal(BCPSolver::noting);
            let graph = self.implication_graph@;
            let v = made[k].index as int;
            let node = graph[v]->0;
            assert(0 <= v < graph.len() && graph[v] is Some && leans_on(node.reason@, made, k));
            let i = choose|i: int|
                0 <= i < k && i < made.len() && node.reason@.contains((#[trigger] made[i]).index);
            let kk = choose|kk: int|
                0 <= kk < node.reason@.len() && node.reason@[kk] == made[i].index;
            assert(reason_step(graph, v, made[i].index as int));
            lemma_reached_on(graph, conflict, v, made[i].index as int);
            self.lemma_reaches_first(made, level, conflict, i);
        }
    }

    /// The variable of the assumed literal belongs to the cut of a conflict
    /// at a clause that watches the variable set last.
    pub proof fn lemma_assumed_in_cut(
        &self,
        made: Seq<Lit>,
        level: usize,
        c: int,
        cur: int,
    )
        requires
            self.shape_ok(),
            self.noting(made, level),
            made.len() > 0,
            made.last().index == cur,
            0 <= c < self.clauses@.len(),
            self.watching(c, cur),
        ensures
            in_decision_cut(
                self.implication_graph@,
                self.formula()[c],
                made[0].index as int,
            ),
    {
        let graph = self.implication_graph@;
        let conflict = self.formula()[c];
        assert(watch_ok(self.clauses@[c], self.num_vars()));
        let w = if self.watch(c, 0).index == cur {
            self.watch(c, 0)
        } else {
            self.watch(c, 1)
        };
        let p = choose|p: int| 0 <= p < conflict.len() && conflict[p] == w;
        lemma_reached_at_once(graph, conflict, p);
        self.lemma_reaches_first(made, level, conflict, made.len() - 1);
        assert(decided(graph, made[0].index as int)) by {
            reveal(BCPSolver::noting);
        }
    }

    /// The clause to learn from a conflict during the propagation of `lit`
    /// holds the negation of `lit`, and each other literal of it was false
    /// before the propagation began.
    pub proof fn lemma_learned_against(
        &self,
        start: BCPSolver,
        lit: Lit,
        queue: Seq<Lit>,
        done: int,
        reasons: Seq<usize>,
        made: Seq<Lit>,
        level: usize,
        c: int,
    )
        requires
            self.propagating(start, lit, queue, done, reasons),
            listing(start.formula(), start.assignment@, queue, done, made),
            self.noting(made, level),
            done >= 1,
            lit.index < start.num_vars(),
            self.num_vars() <= usize::MAX,
            0 <= c < self.clauses@.len(),
            clause_false(self.formula()[c], self.assignment@),
            in_decision_cut(self.implication_graph@, self.formula()[c], lit.index as int),
        ensures
            ({
                let learned = cut_clause(
                    self.assignment@,
                    self.implication_graph@,
                    self.formula()[c],
                    self.num_vars() as int,
                );
                &&& false_literal(self.assignment@, lit.index as int) == lit.negated()
                &&& learned.contains(lit.negated())
                &&& forall|p: int|
                    0 <= p < learned.len() && #[trigger] learned[p] != lit.negated()
                        ==> truth_value(learned[p], start.assignment@) == Assignment::Bot
            }),
    {
        let a = self.assignment@;
        let graph = self.implication_graph@;
        let conflict = self.formula()[c];
        let n = self.num_vars() as int;
        let learned = cut_clause(a, graph, conflict, n);
        assert(made.len() > 0 && made[0] == lit && queue[0] == lit) by {
            reveal(listing);
            reveal(BCPSolver::queue_ok);
        }
        assert(truth_value(lit, a) == Assignment::Top) by {
            reveal(BCPSolver::queue_ok);
        }
        assert(false_literal(a, lit.index as int) == lit.negated());
        lemma_cut_clause_holds(a, graph, conflict, n, lit.index as int);
        assert forall|p: int|
            0 <= p < learned.len() && #[trigger] learned[p] != lit.negated() implies truth_value(
            learned[p],
            start.assignment@,
        ) == Assignment::Bot by {
            let w = lemma_cut_clause_member(a, graph, conflict, n, p);
            assert(a[w] != Assignment::Unassigned) by {
                assert(self.graph_ok());
                assert(graph[w] is Some);
                reveal(BCPSolver::frame_ok);
            }
            assert(truth_value(learned[p], a) == Assignment::Bot);
            if start.assignment@[w] == Assignment::Unassigned {
                assert(in_queue(queue, done, w)) by {
                    reveal(BCPSolver::frame_ok);
                }
                let j = lemma_in_queue_witness(queue, done, w);
                assert(made.contains(queue[j])) by {
                    reveal(listing);
                }
                let k = choose|k: int| 0 <= k < made.len() && made[k] == queue[j];
                assert(k == 0) by {
                    reveal(BCPSolver::noting);
                }
                assert(w == lit.index);
            } else {
                assert(a[w] == start.assignment@[w]) by {
                    reveal(BCPSolver::frame_ok);
                }
            }
        }
    }

    /// Learns a clause from the conflict at a clause all of whose literals
    /// are false. Starting from the variables of that clause and following
    /// reasons, it collects the variables that have no reason; the learned
    /// clause holds, in the order of the variables, the literal on each of
    /// them that is false under its present value. The clause is appended
    /// to the store. It is true in every model of the clauses that the
    /// store held. A propagation that meets a conflict takes the two steps
    /// apart: it works the clause out at the conflict, and appends it when
    /// it has taken its assignments back.
    pub fn learn_clause_from_conflict(&mut self, clause_index: usize, level: usize)
        requires
            old(self).shape_ok(),
            old(self).graph_ok(),
            old(self).learning,
            explains(old(self).formula(), old(self).assignment@, old(self).implication_graph@),
            clause_index < old(self).clauses@.len(),
            clause_false(old(self).formula()[clause_index as int], old(self).assignment@),
            forall|v: int|
                0 <= v < old(self).num_vars() && #[trigger] old(self).assignment@[v]
                    != Assignment::Unassigned ==> old(self).implication_graph@[v] is Some,
        ensures
            final(self).shape_ok(),
            final(self).clauses@.len() == old(self).clauses@.len() + 1,
            forall|c: int|
                0 <= c < old(self).clauses@.len() ==> final(self).clauses@[c] == old(self).clauses@[c],
            final(self).formula().drop_last() == old(self).formula(),
            final(self).formula().last() == cut_clause(
                old(self).assignment@,
                old(self).implication_graph@,
                old(self).formula()[clause_index as int],
                old(self).num_vars() as int,
            ),
            clause_false(final(self).formula().last(), old(self).assignment@),
            follows_from(old(self).formula(), final(self).formula().last(), old(self).num_vars()),
            final(self).assignment == old(self).assignment,
            final(self).implication_graph == old(self).implication_graph,
            final(self).learning == old(self).learning,
            final(self).originals == old(self).originals,
            final(self).ranks == old(self).ranks,
            final(self).epochs == old(self).epochs,
            final(self).clock == old(self).clock,
            final(self).propagations == old(self).propagations,
            final(self).leaves == old(self).leaves,
    {
        let learned_lits = self.conflict_clause(clause_index);
        let clause = Clause::from_vec(learned_lits);
        let ghost before = *self;
        self.add_watched_clause(clause);
        proof {
            assert(self.formula().drop_last() == before.formula());
            assert(self.formula().last() == clause@);
        }
    }
}

/// The first model among those that agree with what a propagation has set
/// is the first among those that agree with the assignment before it and
/// with the assumed literal.
pub proof fn lemma_first_through_propagation(
    formula: Seq<Seq<Lit>>,
    a: Seq<Assignment>,
    lit: Lit,
    b: Seq<Assignment>,
    m: Seq<bool>,
)
    requires
        lit.index < a.len(),
        a[lit.index as int] == Assignment::Unassigned,
        grows(a, b),
        b[lit.index as int] == sign_value(lit.sign),
        follows(formula, a, lit, b),
        first_model_within(formula, b, m),
    ensures
        first_model_within(
            formula,
            with_value(a, lit.index as int, sign_value(lit.sign)),
            m,
        ),
{
    let assumed = with_value(a, lit.index as int, sign_value(lit.sign));
    assert(extends(m, assumed)) by {
        assert forall|w: int|
            0 <= w < assumed.len() && #[trigger] assumed[w] != Assignment::Unassigned implies m[w]
            == (assumed[w] == Assignment::Top) by {
            assert(b[w] == assumed[w]);
        }
    }
    assert forall|other: Seq<bool>|
        #[trigger] extends(other, assumed) && formula_true(formula, other) implies other == m
        || comes_before(m, other) by {
        assert(assumed[lit.index as int] != Assignment::Unassigned);
        assert(lit_true(lit, other));
        assert(extends(other, a)) by {
            assert forall|w: int|
                0 <= w < a.len() && #[trigger] a[w] != Assignment::Unassigned implies other[w] == (
                a[w] == Assignment::Top) by {
                assert(assumed[w] != Assignment::Unassigned);
            }
        }
        assert(extends(other, b));
    }
}

impl BCPSolver {
    /// What a search has done since `before`. The store keeps the clauses
    /// of `before`, and an engine that does not learn adds none. With `SAT`
    /// the assignment is total and the model holds its values; among the
    /// models of the original clauses that agree with the assignment of
    /// `before` it is the first in the order of the search. With `UNSAT`
    /// the assignment and the implication graph of `before` are back, and
    /// no model of the original clauses agrees with that assignment.
    pub open spec fn searched(&self, before: BCPSolver, res: SATResult) -> bool {
        &&& self.num_vars() == before.num_vars()
        &&& self.learning == before.learning
        &&& self.originals == before.originals
        &&& self.clauses@.len() >= before.clauses@.len()
        &&& self.formula().take(before.formula().len() as int) == before.formula()
        &&& !before.learning ==> self.formula() == before.formula()
        &&& match res {
            SATResult::SAT { model } => {
                &&& total(self.assignment@)
                &&& model.assignments@ == bools_of(self.assignment@)
                &&& first_model_within(
                    before.original_formula(),
                    before.assignment@,
                    model.assignments@,
                )
            },
            SATResult::UNSAT => {
                &&& self.restored(before)
                &&& refuted(before.original_formula(), before.assignment@)
            },
        }
    }

    /// What the search of one branch has done since `before`: as
    /// `searched`, with `lit` added to the assignment of `before`.
    pub open spec fn branched(&self, before: BCPSolver, lit: Lit, res: SATResult) -> bool {
        &&& self.num_vars() == before.num_vars()
        &&& self.learning == before.learning
        &&& self.originals == before.originals
        &&& self.clauses@.len() >= before.clauses@.len()
        &&& self.formula().take(before.formula().len() as int) == before.formula()
        &&& !before.learning ==> self.formula() == before.formula()
        &&& match res {
            SATResult::SAT { model } => {
                &&& total(self.assignment@)
                &&& model.assignments@ == bools_of(self.assignment@)
                &&& first_model_within(
                    before.original_formula(),
                    with_value(before.assignment@, lit.index as int, sign_value(lit.sign)),
                    model.assignments@,
                )
            },
            SATResult::UNSAT => {
                &&& self.restored(before)
                &&& refuted(
                    before.original_formula(),
                    with_value(before.assignment@, lit.index as int, sign_value(lit.sign)),
                )
            },
        }
    }

    /// Assumes `lit` at decision level `level`, propagates, and searches on
    /// below it, one level higher (the level stays where no higher number
    /// exists). When that search fails, the literals that the propagation
    /// set are taken back. No more propagations are started than a complete
    /// search tree over the other open variables has nodes, and no more
    /// branches come to their end than it has leaves.
    pub fn cdcl_branch(&mut self, lit: Lit, level: usize) -> (res: SATResult)
        requires
            old(self).wf(),
            lit.index < old(self).num_vars(),
            old(self).assignment@[lit.index as int] == Assignment::Unassigned,
        ensures
            final(self).wf(),
            final(self).branched(*old(self), lit, res),
            final(self).propagations@ <= old(self).propagations@ + search_size(
                (count_unassigned(old(self).assignment@) - 1) as nat,
            ),
            final(self).leaves@ <= old(self).leaves@ + leaf_count(
                (count_unassigned(old(self).assignment@) - 1) as nat,
            ),
        decreases count_unassigned(old(self).assignment@), 0nat,
    {
        let ghost start = *self;
        let ghost a0 = self.assignment@;
        let ghost original = self.original_formula();
        let ghost assumed = with_value(a0, lit.index as int, sign_value(lit.sign));
        match self.bcp(lit, level) {
            BcpResult::Implications(assigned) => {
                let ghost after = *self;
                let ghost a1 = self.assignment@;
                proof {
                    assert(grows(a0, a1));
                    assert(truth_value(assigned@[0], a1) == Assignment::Top);
                    lemma_count_unassigned_shrinks(a0, a1);
                    assert(after.original_formula() == original);
                    lemma_follows_original(start.formula(), start.originals@ as int, a0, lit, a1);
                    if count_unassigned(a1) + 1 < count_unassigned(a0) {
                        lemma_search_size_halves(
                            count_unassigned(a1),
                            (count_unassigned(a0) - 1) as nat,
                        );
                    }
                    lemma_leaf_count_grows(
                        count_unassigned(a1),
                        (count_unassigned(a0) - 1) as nat,
                    );
                }
                let next_level = if level < usize::MAX {
                    level + 1
                } else {
                    level
                };
                match self.cdcl_recursive(next_level) {
                    SATResult::SAT { model } => {
                        proof {
                            lemma_first_through_propagation(
                                original,
                                a0,
                                lit,
                                a1,
                                model.assignments@,
                            );
                        }
                        SATResult::SAT { model }
                    },
                    SATResult::UNSAT => {
                        let ghost below = *self;
                        self.unassign(assigned.as_slice());
                        proof {
                            after.lemma_propagated_advanced(start, lit, assigned@);
                            self.lemma_backtrack(below, after, start, assigned@);
                            assert(self.formula() == below.formula());
                            assert(original.take(original.len() as int) == original);
                            BCPSolver::lemma_branch_refuted(original, original, a0, lit, a1);
                        }
                        SATResult::UNSAT
                    },
                }
            },
            BcpResult::Conflict(_) => {
                proof {
                    let set = with_value(a0, lit.index as int, Assignment::Top);
                    assert(set[lit.index as int] != Assignment::Unassigned);
                    lemma_count_unassigned_shrinks(a0, set);
                    lemma_leaf_count_grows(0, (count_unassigned(a0) - 1) as nat);
                    assert(self.formula().take(start.formula().len() as int) == start.formula()) by {
                        if start.learning {
                            assert(self.formula().drop_last() == start.formula());
                        }
                    }
                    lemma_refuted_original(start.formula(), start.originals@ as int, assumed);
                    assert(self.clauses@.len() >= start.clauses@.len()) by {
                        assert(self.formula().len() == self.clauses@.len());
                        assert(start.formula().len() == start.clauses@.len());
                    }
                }
                SATResult::UNSAT
            },
        }
    }

    /// Searches for a model that agrees with the current assignment: takes
    /// the lowest unassigned variable and tries it true, then false, at
    /// decision level `level`. When no variable is open, the assignment is
    /// the model. Fewer propagations are started than a complete search
    /// tree over the open variables has nodes, and no more branches come to
    /// their end than it has leaves.
    pub fn cdcl_recursive(&mut self, level: usize) -> (res: SATResult)
        requires
            old(self).wf(),
        ensures
            final(self).wf(),
            final(self).searched(*old(self), res),
            final(self).propagations@ < old(self).propagations@ + search_size(
                count_unassigned(old(self).assignment@),
            ),
            final(self).leaves@ <= old(self).leaves@ + leaf_count(
                count_unassigned(old(self).assignment@),
            ),
        decreases count_unassigned(old(self).assignment@), 1nat,
    {
        let ghost start = *self;
        let ghost a0 = self.assignment@;
        let ghost original = self.original_formula();
        match self.next_unassigned_lit() {
            None => {
                proof {
                    self.lemma_total_model();
                    assert(self.formula().take(self.formula().len() as int) == self.formula());
                    lemma_first_when_total(original, a0);
                    lemma_leaf_count_grows(0, count_unassigned(a0));
                }
                let model = to_model(&self.assignment.assignments);
                self.leaves = Ghost(self.leaves@ + 1);
                proof {
                    self.lemma_counted(start);
                }
                SATResult::SAT { model }
            },
            Some(next_lit) => {
                let ghost d = next_lit.index as int;
                proof {
                    let set = with_value(a0, d, Assignment::Top);
                    assert(set[d] != Assignment::Unassigned);
                    lemma_count_unassigned_shrinks(a0, set);
                }
                match self.cdcl_branch(next_lit, level) {
                    SATResult::SAT { model } => {
                        proof {
                            lemma_first_in_true_branch(original, a0, d, model.assignments@);
                        }
                        return SATResult::SAT { model };
                    },
                    SATResult::UNSAT => {},
                }
                let ghost middle = *self;
                proof {
                    assert(middle.original_formula() == original) by {
                        assert(middle.original_formula() =~= original);
                    }
                }
                match self.cdcl_branch(negate(next_lit), level) {
                    SATResult::SAT { model } => {
                        proof {
                            assert(self.formula().take(start.formula().len() as int)
                                == start.formula()) by {
                                assert(self.formula().take(start.formula().len() as int)
                                    =~= start.formula());
                            }
                            lemma_first_in_false_branch(original, a0, d, model.assignments@);
                        }
                        return SATResult::SAT { model };
                    },
                    SATResult::UNSAT => {},
                }
                proof {
                    assert(self.formula().take(start.formula().len() as int) == start.formula()) by {
                        assert(self.formula().take(start.formula().len() as int)
                            =~= start.formula());
                    }
                    lemma_refuted_both_ways(original, a0, d);
                    assert(self.keeps_assigned(start)) by {
                        assert(middle.keeps_assigned(start));
                        assert(self.keeps_assigned(middle));
                    }
                }
                SATResult::UNSAT
            },
        }
    }
}

/// Decides the formula by search with clause learning.
///
/// The verdict is `SAT` exactly when some assignment of the `num_vars`
/// variables satisfies the formula, and the model returned is the first one
/// in the order of the search, which tries true before false from the
/// lowest variable on. The clauses learned on the way follow from the
/// formula, so they take no model away.
pub fn cdcl_algorithm(num_vars: usize, clauses: &Vec<Clause>) -> (res: SATResult)
    requires
        formula_in_range(formula_of(clauses@), num_vars as nat),
    ensures
        res is SAT <==> satisfiable(num_vars as nat, formula_of(clauses@)),
        res matches SATResult::SAT { model } ==> first_model(
            num_vars as nat,
            formula_of(clauses@),
            model.assignments@,
        ),
{
    let ghost formula = formula_of(clauses@);
    match BCPSolver::from_dimacs(num_vars, clauses) {
        Err(_) => {
            proof {
                lemma_empty_clause_unsatisfiable(num_vars as nat, formula);
            }
            SATResult::UNSAT
        },
        Ok(mut solver) => {
            let ghost start = solver;
            proof {
                assert(start.original_formula() == cleaned(formula)) by {
                    assert(start.formula().take(start.formula().len() as int) == start.formula());
                }
            }
            let res = solver.cdcl_recursive(0);
            proof {
                lemma_cleaning_keeps_satisfiability(num_vars as nat, formula);
                lemma_refuted_unassigned(num_vars as nat, cleaned(formula), start.assignment@);
                if res is SAT {
                    let values = res->model.assignments@;
                    lemma_first_model_of_all(
                        num_vars as nat,
                        cleaned(formula),
                        start.assignment@,
                        values,
                    );
                    lemma_first_model_of_cleaned(num_vars as nat, formula, values);
                    assert(satisfiable(num_vars as nat, formula));
                }
            }
            res
        },
    }
}

} // verus!
