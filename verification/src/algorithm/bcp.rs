//! The clause store with two watched literals per clause, and the unit
//! propagation that runs on it.

use std::collections::BTreeSet;
use vstd::prelude::*;
use vstd::std_specs::btree::increasing_seq;
use vstd::std_specs::cmp::OrdSpec;
use vstd::std_specs::iter::IteratorSpec;
use crate::algorithm::formula::{
    clause_false,
    clause_true,
    clause_in_range,
    count_unassigned,
    extends,
    formula_in_range,
    formula_of,
    formula_true,
    lemma_count_unassigned_shrinks,
    lit_true,
    refuted,
    truth_value,
    with_value,
};
use crate::algorithm::interface::{
    assignment_from_sign,
    lit_to_index,
    search_unassigned,
    sign_value,
    Assignment,
    Assignments,
    Clause,
    Lit,
    Sign,
};
use crate::algorithm::cdcl::false_literal;
use crate::algorithm::propagation::{lemma_linked_pop, lemma_listing_begins};
use crate::algorithm::utility::{
    clause_clean,
    cleaned,
    formula_clean,
    has_empty_clause,
    lemma_cleaned_equivalent,
    preprocess,
    PreprocessError,
};

verus! {

/// A clause together with its two watched literals. A clause of one literal
/// watches that literal twice.
#[derive(Debug)]
pub struct WatchedClause {
    pub watched: [Lit; 2],
    pub clause: Clause,
}

/// Why a variable has its value: the decision level at which it was set and
/// the variables whose values forced it. A decision has no reason.
#[derive(Debug)]
pub struct Node {
    pub level: usize,
    pub reason: Vec<usize>,
}

/// The outcome of one propagation.
#[derive(Debug)]
pub enum BcpResult {
    /// The clause with this index became false; what the propagation had
    /// assigned is unassigned again.
    Conflict(usize),
    /// The literals that were made true, each once, in the order in which
    /// they were made true, the assumed literal first.
    Implications(Vec<Lit>),
}

/// The propagation engine: clauses with their watches, the watch index, the
/// partial assignment and the implication graph.
pub struct BCPSolver {
    pub clauses: Vec<WatchedClause>,
    /// For each variable, the clauses that watch a literal on it.
    pub watches_for_var: Vec<BTreeSet<usize>>,
    pub assignment: Assignments,
    /// For each variable, its node while it has one.
    pub implication_graph: Vec<Option<Node>>,
    /// Whether a conflict adds a learned clause.
    pub learning: bool,
    /// How many clauses the store was built with; any later ones are learned.
    pub originals: Ghost<nat>,
    /// For each variable, the time at which its node was last written.
    pub ranks: Ghost<Seq<nat>>,
    /// The time of the next write to the implication graph.
    pub clock: Ghost<nat>,
    /// How many propagations have been started.
    pub propagations: Ghost<nat>,
    /// How many branches of a search have come to their end, in a conflict
    /// or in an assignment that leaves no variable open.
    pub leaves: Ghost<nat>,
    /// For each variable, the time at which the propagation began that
    /// gave the variable its value.
    pub epochs: Ghost<Seq<nat>>,
}

/// The watches of a clause are literals of the clause, on two different
/// variables unless the clause has a single literal.
pub open spec fn watch_ok(wc: WatchedClause, num_vars: nat) -> bool {
    let c = wc.clause@;
    &&& clause_clean(c)
    &&& clause_in_range(c, num_vars)
    &&& c.contains(wc.watched[0])
    &&& c.contains(wc.watched[1])
    &&& c.len() > 1 ==> wc.watched[0].index != wc.watched[1].index
}

impl BCPSolver {
    /// The number of variables.
    pub open spec fn num_vars(&self) -> nat {
        self.assignment@.len()
    }

    /// The clauses of the store, learned ones included.
    pub open spec fn formula(&self) -> Seq<Seq<Lit>> {
        Seq::new(self.clauses@.len(), |c: int| self.clauses@[c].clause@)
    }

    /// The clauses the store was built with.
    pub open spec fn original_formula(&self) -> Seq<Seq<Lit>> {
        self.formula().take(self.originals@ as int)
    }

    /// The literal in watch slot `slot` of clause `c`.
    pub open spec fn watch(&self, c: int, slot: int) -> Lit {
        self.clauses@[c].watched[slot]
    }

    /// Every clause watches its first literal in the first slot and, in
    /// the second slot, its second literal, or its first again if it has
    /// no other.
    pub open spec fn watches_at_front(&self) -> bool {
        forall|c: int|
            0 <= c < self.clauses@.len() ==> self.watch(c, 0) == (
            #[trigger] self.clauses@[c]).clause@[0] && self.watch(c, 1) == if self.clauses@[c].clause@.len()
                >= 2 {
                self.clauses@[c].clause@[1]
            } else {
                self.clauses@[c].clause@[0]
            }
    }

    /// Clause `c` watches a literal on variable `v`.
    pub open spec fn watching(&self, c: int, v: int) -> bool {
        self.watch(c, 0).index == v || self.watch(c, 1).index == v
    }

    /// The watch slot of clause `c` that holds a literal on variable `v`:
    /// the first, if it does, else the second.
    pub open spec fn slot_on(&self, c: int, v: int) -> int {
        if self.watch(c, 0).index == v {
            0
        } else {
            1
        }
    }

    /// The watch index lists, under each variable, exactly the clauses that
    /// watch it.
    pub open spec fn index_ok(&self) -> bool {
        forall|v: int, c: usize|
            #![trigger self.watches_for_var@[v]@.contains(c)]
            0 <= v < self.watches_for_var@.len() ==> (self.watches_for_var@[v]@.contains(c) <==> c
                < self.clauses@.len() && self.watching(c as int, v))
    }

    /// Sizes agree, every clause has proper watches and the watch index is
    /// exact. This part of the invariant does not depend on the assignment.
    pub open spec fn shape_ok(&self) -> bool {
        &&& self.watches_for_var@.len() == self.num_vars()
        &&& self.implication_graph@.len() == self.num_vars()
        &&& self.ranks@.len() == self.num_vars()
        &&& self.epochs@.len() == self.num_vars()
        &&& self.originals@ <= self.clauses@.len()
        &&& !self.learning ==> self.originals@ == self.clauses@.len()
        &&& forall|c: int|
            0 <= c < self.clauses@.len() ==> watch_ok(#[trigger] self.clauses@[c], self.num_vars())
        &&& self.index_ok()
    }

    /// Every reason of a node is an assigned variable whose own node was
    /// written earlier, and no node was written in the future.
    pub open spec fn graph_ok(&self) -> bool {
        forall|v: int|
            0 <= v < self.num_vars() ==> (#[trigger] self.implication_graph@[v] matches Some(node)
                ==> self.ranks@[v] < self.clock@ && forall|k: int|
                0 <= k < node.reason@.len() ==> {
                    let r = #[trigger] node.reason@[k];
                    &&& r < self.num_vars()
                    &&& self.assignment@[r as int] != Assignment::Unassigned
                    &&& self.ranks@[r as int] < self.ranks@[v]
                })
    }

    /// A variable has a node exactly while it has a value.
    pub open spec fn nodes_match(&self) -> bool {
        forall|v: int|
            0 <= v < self.num_vars() ==> ((#[trigger] self.implication_graph@[v] is Some) <==> (
            self.assignment@[v] != Assignment::Unassigned))
    }

    /// The two watches of clause `c` are not both false under `a`.
    pub open spec fn live(&self, c: int, a: Seq<Assignment>) -> bool {
        !(truth_value(self.watch(c, 0), a) == Assignment::Bot && truth_value(self.watch(c, 1), a)
            == Assignment::Bot)
    }

    /// No clause has both watches false under `a`.
    pub open spec fn watches_live(&self, a: Seq<Assignment>) -> bool {
        forall|c: int| 0 <= c < self.clauses@.len() ==> #[trigger] self.live(c, a)
    }

    /// If the watch in slot `slot` of clause `c` is false under `a`, the
    /// other watch of the clause is true under `a`, and got its value in the
    /// same propagation as the false one or in an earlier one.
    pub open spec fn backed(&self, c: int, slot: int, a: Seq<Assignment>) -> bool {
        truth_value(self.watch(c, slot), a) == Assignment::Bot ==> truth_value(
            self.watch(c, 1 - slot),
            a,
        ) == Assignment::Top && self.epochs@[self.watch(c, 1 - slot).index as int]
            <= self.epochs@[self.watch(c, slot).index as int]
    }

    /// Each watch of clause `c` that is false under `a` is backed by the
    /// other.
    pub open spec fn strong(&self, c: int, a: Seq<Assignment>) -> bool {
        self.backed(c, 0, a) && self.backed(c, 1, a)
    }

    /// In every original clause, a watch that is false under `a` is backed
    /// by the other watch.
    pub open spec fn watches_backed(&self, a: Seq<Assignment>) -> bool {
        forall|c: int| 0 <= c < self.originals@ ==> #[trigger] self.strong(c, a)
    }

    /// Every variable with a value got it in a propagation that began
    /// before now.
    pub open spec fn epochs_ok(&self) -> bool {
        forall|v: int|
            0 <= v < self.num_vars() && #[trigger] self.assignment@[v] != Assignment::Unassigned
                ==> self.epochs@[v] < self.clock@
    }

    /// The invariant that holds between propagations.
    pub open spec fn wf(&self) -> bool {
        &&& self.shape_ok()
        &&& self.graph_ok()
        &&& self.nodes_match()
        &&& self.watches_live(self.assignment@)
        &&& self.watches_backed(self.assignment@)
        &&& self.epochs_ok()
        &&& explains(self.formula(), self.assignment@, self.implication_graph@)
        &&& same_models(self.formula(), self.originals@ as int, self.num_vars())
    }
}

impl BCPSolver {
    /// A store without clauses over `num_vars` unassigned variables.
    fn empty(num_vars: usize) -> (s: BCPSolver)
        ensures
            s.wf(),
            s.learning,
            s.num_vars() == num_vars,
            s.clauses@.len() == 0,
            s.originals@ == 0,
            forall|v: int| 0 <= v < num_vars ==> s.assignment@[v] == Assignment::Unassigned,
    {
        let mut watches_for_var: Vec<BTreeSet<usize>> = Vec::new();
        let mut implication_graph: Vec<Option<Node>> = Vec::new();
        let mut v: usize = 0;
        while v < num_vars
            invariant
                v <= num_vars,
                watches_for_var@.len() == v,
                implication_graph@.len() == v,
                forall|w: int| 0 <= w < v ==> (#[trigger] watches_for_var@[w])@ == Set::<
                    usize,
                >::empty(),
                forall|w: int| 0 <= w < v ==> (#[trigger] implication_graph@[w]) is None,
            decreases num_vars - v,
        {
            watches_for_var.push(BTreeSet::new());
            implication_graph.push(None);
            v += 1;
        }
        proof {
            reveal(explains);
            reveal(same_models);
        }
        BCPSolver {
            clauses: Vec::new(),
            watches_for_var,
            assignment: Assignments::all_unassigned(num_vars),
            implication_graph,
            learning: true,
            originals: Ghost(0),
            ranks: Ghost(Seq::new(num_vars as nat, |v: int| 0nat)),
            epochs: Ghost(Seq::new(num_vars as nat, |v: int| 0nat)),
            clock: Ghost(0),
            propagations: Ghost(0),
            leaves: Ghost(0),
        }
    }

    /// Appends a clause with the given watches and enters it in the watch
    /// index under both watched variables.
    pub fn push_watched(&mut self, clause: Clause, watch1: Lit, watch2: Lit)
        requires
            old(self).shape_ok(),
            old(self).learning,
            watch_ok(WatchedClause { watched: [watch1, watch2], clause }, old(self).num_vars()),
        ensures
            final(self).shape_ok(),
            final(self).clauses@.len() == old(self).clauses@.len() + 1,
            forall|c: int|
                0 <= c < old(self).clauses@.len() ==> final(self).clauses@[c] == old(self).clauses@[c],
            final(self).clauses@[old(self).clauses@.len() as int].clause@ == clause@,
            final(self).watch(old(self).clauses@.len() as int, 0) == watch1,
            final(self).watch(old(self).clauses@.len() as int, 1) == watch2,
            final(self).formula() == old(self).formula().push(clause@),
            final(self).assignment == old(self).assignment,
            final(self).implication_graph == old(self).implication_graph,
            final(self).learning == old(self).learning,
            final(self).originals == old(self).originals,
            final(self).ranks == old(self).ranks,
            final(self).epochs == old(self).epochs,
            final(self).clock == old(self).clock,
            final(self).propagations == old(self).propagations,
            final(self).leaves == old(self).leaves,
    {
        broadcast use vstd::std_specs::btree::group_btree_axioms;

        let index = self.clauses.len();
        let ghost before = *self;
        proof {
            let wc = WatchedClause { watched: [watch1, watch2], clause };
            let k1 = choose|k: int| 0 <= k < clause@.len() && clause@[k] == watch1;
            let k2 = choose|k: int| 0 <= k < clause@.len() && clause@[k] == watch2;
            assert(wc.clause@.contains(wc.watched[0]));
            assert(wc.clause@.contains(wc.watched[1]));
            assert(clause@[k1].index < self.num_vars());
            assert(clause@[k2].index < self.num_vars());
        }
        self.clauses.push(WatchedClause { watched: [watch1, watch2], clause });
        self.watches_for_var[watch1.index].insert(index);
        self.watches_for_var[watch2.index].insert(index);
        proof {
            assert(self.formula() == before.formula().push(clause@));
            assert forall|v: int, c: usize|
                #![trigger self.watches_for_var@[v]@.contains(c)]
                0 <= v < self.watches_for_var@.len() implies (self.watches_for_var@[v]@.contains(c)
                <==> c < self.clauses@.len() && self.watching(c as int, v)) by {
                assert(before.watches_for_var@[v]@.contains(c) <==> c < before.clauses@.len()
                    && before.watching(c as int, v));
                if c < index {
                    assert(self.clauses@[c as int] == before.clauses@[c as int]);
                }
            }
        }
    }

    /// Builds the store for a formula: cleans it, gives each clause its
    /// first literal as first watch and its second literal, if it has one,
    /// as second watch, and leaves every variable unassigned. A formula with
    /// an empty clause is refused.
    pub fn build(num_vars: usize, dimacs: &Vec<Clause>, learning: bool) -> (r: Result<
        BCPSolver,
        PreprocessError,
    >)
        requires
            formula_in_range(formula_of(dimacs@), num_vars as nat),
        ensures
            r is Err <==> has_empty_clause(formula_of(dimacs@)),
            r matches Ok(s) ==> {
                &&& s.wf()
                &&& s.learning == learning
                &&& s.num_vars() == num_vars
                &&& s.formula() == cleaned(formula_of(dimacs@))
                &&& s.originals@ == s.clauses@.len()
                &&& s.watches_at_front()
                &&& forall|v: int| 0 <= v < num_vars ==> s.assignment@[v] == Assignment::Unassigned
            },
    {
        let ghost formula = formula_of(dimacs@);
        let cleaned_clauses = match preprocess(dimacs) {
            Ok(clauses) => clauses,
            Err(e) => {
                return Err(e);
            },
        };
        proof {
            lemma_cleaned_equivalent(formula, Seq::new(num_vars as nat, |v: int| true));
        }
        let ghost target = cleaned(formula);
        let mut solver = BCPSolver::empty(num_vars);
        let mut index: usize = 0;
        while index < cleaned_clauses.len()
            invariant
                index <= cleaned_clauses@.len(),
                formula_of(cleaned_clauses@) == target,
                formula_in_range(target, num_vars as nat),
                formula_clean(target),
                solver.shape_ok(),
                solver.graph_ok(),
                solver.nodes_match(),
                solver.learning,
                solver.num_vars() == num_vars,
                solver.originals@ == 0,
                solver.watches_at_front(),
                solver.formula() == target.take(index as int),
                forall|v: int|
                    0 <= v < num_vars ==> solver.assignment@[v] == Assignment::Unassigned,
            decreases cleaned_clauses@.len() - index,
        {
            let clause = &cleaned_clauses[index];
            proof {
                assert(clause@ == target[index as int]);
                assert(clause_clean(target[index as int]));
                assert(clause_in_range(target[index as int], num_vars as nat));
            }
            let watch1 = clause.lits[0];
            let watch2 = if clause.lits.len() > 1 {
                clause.lits[1]
            } else {
                clause.lits[0]
            };
            let ghost before = solver;
            let copy = clause.clone();
            proof {
                assert(copy@[0] == watch1);
                assert(copy@.len() > 1 ==> copy@[1] == watch2);
            }
            solver.push_watched(copy, watch1, watch2);
            proof {
                assert(target.take(index as int + 1) == target.take(index as int).push(
                    target[index as int],
                ));
            }
            index += 1;
        }
        proof {
            assert(target.take(cleaned_clauses@.len() as int) == target);
        }
        solver.originals = Ghost(solver.clauses@.len());
        solver.learning = learning;
        proof {
            assert forall|c: int| 0 <= c < solver.clauses@.len() implies #[trigger] solver.live(
                c,
                solver.assignment@,
            ) by {
                assert(watch_ok(solver.clauses@[c], solver.num_vars()));
                let w = solver.watch(c, 0);
                let k = choose|k: int|
                    0 <= k < solver.clauses@[c].clause@.len() && solver.clauses@[c].clause@[k] == w;
                assert(solver.clauses@[c].clause@[k].index < num_vars);
            }
            assert(explains(solver.formula(), solver.assignment@, solver.implication_graph@)) by {
                reveal(explains);
            }
            assert(solver.formula().take(solver.originals@ as int) == solver.formula());
            reveal(same_models);
        }
        Ok(solver)
    }

    /// Builds the store of a solver that learns from conflicts.
    pub fn from_dimacs(num_vars: usize, dimacs: &Vec<Clause>) -> (r: Result<
        BCPSolver,
        PreprocessError,
    >)
        requires
            formula_in_range(formula_of(dimacs@), num_vars as nat),
        ensures
            r is Err <==> has_empty_clause(formula_of(dimacs@)),
            r matches Ok(s) ==> {
                &&& s.wf()
                &&& s.learning
                &&& s.num_vars() == num_vars
                &&& s.formula() == cleaned(formula_of(dimacs@))
                &&& s.originals@ == s.clauses@.len()
                &&& s.watches_at_front()
                &&& forall|v: int| 0 <= v < num_vars ==> s.assignment@[v] == Assignment::Unassigned
            },
    {
        BCPSolver::build(num_vars, dimacs, true)
    }
}

/// The literal may take over a watch: it is true, or it is unassigned and
/// not the literal that the other watch holds.
pub open spec fn may_watch(lit: Lit, other: Lit, a: Seq<Assignment>) -> bool {
    (a[lit.index as int] == Assignment::Unassigned && lit != other) || truth_value(lit, a)
        == Assignment::Top
}

/// Position `p` holds the first literal of the clause, from position `start`
/// on, that may take over a watch beside `other`.
pub open spec fn first_to_watch(
    clause: Seq<Lit>,
    start: int,
    p: int,
    other: Lit,
    a: Seq<Assignment>,
) -> bool {
    &&& start <= p < clause.len()
    &&& may_watch(clause[p], other, a)
    &&& forall|q: int| start <= q < p ==> !may_watch(#[trigger] clause[q], other, a)
}

impl BCPSolver {
    /// The three-valued truth of a literal under the current assignment.
    pub fn truth_value_of_literal(&self, lit: Lit) -> (t: Assignment)
        requires
            lit.index < self.num_vars(),
        ensures
            t == truth_value(lit, self.assignment@),
    {
        let assignment = self.assignment.assignments[lit_to_index(lit)];
        match assignment {
            Assignment::Unassigned => Assignment::Unassigned,
            Assignment::Top => match lit.sign {
                Sign::Pos => Assignment::Top,
                Sign::Neg => Assignment::Bot,
            },
            Assignment::Bot => match lit.sign {
                Sign::Pos => Assignment::Bot,
                Sign::Neg => Assignment::Top,
            },
        }
    }

    /// The first literal of the clause, from position `start` on, that may
    /// take over a watch beside `other_watched`.
    pub fn first_candidate(&self, clause: &Clause, other_watched: Lit, start: usize) -> (r: Option<
        Lit,
    >)
        requires
            clause_in_range(clause@, self.num_vars()),
        ensures
            match r {
                Some(lit) => exists|p: int|
                    #[trigger] first_to_watch(clause@, start as int, p, other_watched, self.assignment@)
                        && clause@[p] == lit,
                None => forall|q: int|
                    start <= q < clause@.len() ==> !may_watch(
                        #[trigger] clause@[q],
                        other_watched,
                        self.assignment@,
                    ),
            },
    {
        let mut p: usize = start;
        while p < clause.lits.len()
            invariant
                start <= p,
                clause_in_range(clause@, self.num_vars()),
                forall|q: int|
                    start <= q < p && q < clause@.len() ==> !may_watch(
                        #[trigger] clause@[q],
                        other_watched,
                        self.assignment@,
                    ),
            decreases clause@.len() - p,
        {
            let lit = clause.lits[p];
            if (self.assignment.assignments[lit_to_index(lit)] == Assignment::Unassigned && lit
                != other_watched) || self.truth_value_of_literal(lit) == Assignment::Top {
                proof {
                    assert(first_to_watch(
                        clause@,
                        start as int,
                        p as int,
                        other_watched,
                        self.assignment@,
                    ));
                }
                return Some(lit);
            }
            p += 1;
        }
        None
    }

    /// The first literal of the clause, in its own order, that is true or is
    /// unassigned and not `other_watched`.
    pub fn find_next_watched_literal(&self, clause: &Clause, other_watched: Lit) -> (r: Option<
        Lit,
    >)
        requires
            clause_in_range(clause@, self.num_vars()),
        ensures
            match r {
                Some(lit) => exists|p: int|
                    #[trigger] first_to_watch(clause@, 0, p, other_watched, self.assignment@)
                        && clause@[p] == lit,
                None => forall|q: int|
                    0 <= q < clause@.len() ==> !may_watch(
                        #[trigger] clause@[q],
                        other_watched,
                        self.assignment@,
                    ),
            },
    {
        self.first_candidate(clause, other_watched, 0)
    }

    /// The positive literal of the lowest unassigned variable, if any
    /// variable is unassigned.
    pub fn next_unassigned_lit(&self) -> (r: Option<Lit>)
        ensures
            match r {
                Some(lit) => lit.sign == Sign::Pos && lit.index < self.num_vars()
                    && self.assignment@[lit.index as int] == Assignment::Unassigned && forall|
                    w: int,
                |
                    0 <= w < lit.index ==> self.assignment@[w] != Assignment::Unassigned,
                None => forall|w: int|
                    0 <= w < self.num_vars() ==> self.assignment@[w] != Assignment::Unassigned,
            },
    {
        match search_unassigned(&self.assignment.assignments) {
            Some(idx) => Some(Lit { index: idx, sign: Sign::Pos }),
            None => None,
        }
    }

    /// Takes the value and the node from the variable of each literal.
    pub fn unassign(&mut self, lits: &[Lit])
        requires
            old(self).implication_graph@.len() == old(self).num_vars(),
            forall|j: int| 0 <= j < lits@.len() ==> (#[trigger] lits@[j]).index < old(self).num_vars(),
        ensures
            final(self).num_vars() == old(self).num_vars(),
            final(self).implication_graph@.len() == old(self).num_vars(),
            forall|v: int|
                0 <= v < old(self).num_vars() ==> if in_queue(lits@, lits@.len() as int, v) {
                    #[trigger] final(self).assignment@[v] == Assignment::Unassigned
                        && final(self).implication_graph@[v] is None
                } else {
                    final(self).assignment@[v] == old(self).assignment@[v]
                        && final(self).implication_graph@[v] == old(self).implication_graph@[v]
                },
            final(self).clauses == old(self).clauses,
            final(self).watches_for_var == old(self).watches_for_var,
            final(self).learning == old(self).learning,
            final(self).originals == old(self).originals,
            final(self).ranks == old(self).ranks,
            final(self).epochs == old(self).epochs,
            final(self).clock == old(self).clock,
            final(self).propagations == old(self).propagations,
            final(self).leaves == old(self).leaves,
    {
        let mut i: usize = 0;
        proof {
            reveal(in_queue);
        }
        while i < lits.len()
            invariant
                i <= lits@.len(),
                self.num_vars() == old(self).num_vars(),
                self.implication_graph@.len() == old(self).num_vars(),
                forall|j: int|
                    0 <= j < lits@.len() ==> (#[trigger] lits@[j]).index < old(self).num_vars(),
                forall|v: int|
                    0 <= v < old(self).num_vars() ==> if in_queue(lits@, i as int, v) {
                        #[trigger] self.assignment@[v] == Assignment::Unassigned
                            && self.implication_graph@[v] is None
                    } else {
                        self.assignment@[v] == old(self).assignment@[v]
                            && self.implication_graph@[v] == old(self).implication_graph@[v]
                    },
                self.clauses == old(self).clauses,
                self.watches_for_var == old(self).watches_for_var,
                self.learning == old(self).learning,
                self.originals == old(self).originals,
                self.ranks == old(self).ranks,
                self.epochs == old(self).epochs,
                self.clock == old(self).clock,
                self.propagations == old(self).propagations,
                self.leaves == old(self).leaves,
            decreases lits@.len() - i,
        {
            let index = lit_to_index(lits[i]);
            let ghost before = *self;
            self.assignment.assignments[index] = Assignment::Unassigned;
            self.implication_graph[index] = None;
            proof {
                assert forall|v: int| 0 <= v < old(self).num_vars() implies if in_queue(
                    lits@,
                    i as int + 1,
                    v,
                ) {
                    #[trigger] self.assignment@[v] == Assignment::Unassigned
                        && self.implication_graph@[v] is None
                } else {
                    self.assignment@[v] == old(self).assignment@[v] && self.implication_graph@[v]
                        == old(self).implication_graph@[v]
                } by {
                    reveal(in_queue);
                    if v == index {
                        assert(lits@[i as int].index == v);
                    } else {
                        assert(self.assignment@[v] == before.assignment@[v]);
                        if in_queue(lits@, i as int + 1, v) {
                            let j = choose|j: int|
                                0 <= j < i + 1 && j < lits@.len() && (#[trigger] lits@[j]).index
                                    == v;
                            assert(j < i);
                        }
                    }
                }
            }
            i += 1;
        }
    }
}

/// The variables of the literals of `clause` other than `unit`, in order.
pub open spec fn other_vars(clause: Seq<Lit>, unit: Lit) -> Seq<usize>
    decreases clause.len(),
{
    if clause.len() == 0 {
        Seq::empty()
    } else {
        let init = other_vars(clause.drop_last(), unit);
        if clause.last() != unit {
            init.push(clause.last().index)
        } else {
            init
        }
    }
}

/// Each of `other_vars` is the variable of a literal of the clause that is
/// not `unit`.
pub proof fn lemma_other_vars(clause: Seq<Lit>, unit: Lit)
    ensures
        forall|k: int|
            0 <= k < other_vars(clause, unit).len() ==> exists|p: int|
                0 <= p < clause.len() && clause[p] != unit && (#[trigger] clause[p]).index
                    == #[trigger] other_vars(clause, unit)[k],
    decreases clause.len(),
{
    if clause.len() == 0 {
        assert(other_vars(clause, unit).len() == 0);
    } else {
        let init = clause.drop_last();
        lemma_other_vars(init, unit);
        assert forall|k: int| 0 <= k < other_vars(clause, unit).len() implies exists|p: int|
            0 <= p < clause.len() && clause[p] != unit && (#[trigger] clause[p]).index
                == #[trigger] other_vars(clause, unit)[k] by {
            if k < other_vars(init, unit).len() {
                let p = choose|p: int|
                    0 <= p < init.len() && init[p] != unit && (#[trigger] init[p]).index
                        == other_vars(init, unit)[k];
                assert(clause[p] == init[p]);
            } else {
                assert(clause[clause.len() - 1].index == other_vars(clause, unit)[k]);
            }
        }
    }
}

/// The variable of a literal of the clause other than `unit` is among the
/// other variables of the clause.
pub proof fn lemma_other_vars_nonempty(clause: Seq<Lit>, unit: Lit, p: int)
    requires
        0 <= p < clause.len(),
        clause[p] != unit,
    ensures
        other_vars(clause, unit).len() > 0,
        other_vars(clause, unit).contains(clause[p].index),
    decreases clause.len(),
{
    let init = other_vars(clause.drop_last(), unit);
    if p < clause.len() - 1 {
        lemma_other_vars_nonempty(clause.drop_last(), unit, p);
        let k = choose|k: int| 0 <= k < init.len() && init[k] == clause[p].index;
        assert(other_vars(clause, unit)[k] == clause[p].index);
    } else {
        assert(other_vars(clause, unit)[init.len() as int] == clause[p].index);
    }
}

/// Some literal among the first `upto` of the queue is on variable `v`.
#[verifier::opaque]
pub open spec fn in_queue(queue: Seq<Lit>, upto: int, v: int) -> bool {
    exists|j: int| 0 <= j < upto && j < queue.len() && (#[trigger] queue[j]).index == v
}

/// The variable of a queued literal is in the queue.
pub proof fn lemma_in_queue(queue: Seq<Lit>, upto: int, j: int)
    requires
        0 <= j < upto,
        j < queue.len(),
    ensures
        in_queue(queue, upto, queue[j].index as int),
{
    reveal(in_queue);
}

/// A position at which a variable of the queue occurs.
pub proof fn lemma_in_queue_witness(queue: Seq<Lit>, upto: int, v: int) -> (j: int)
    requires
        in_queue(queue, upto, v),
    ensures
        0 <= j < upto,
        j < queue.len(),
        queue[j].index == v,
{
    reveal(in_queue);
    choose|j: int| 0 <= j < upto && j < queue.len() && (#[trigger] queue[j]).index == v
}

/// A variable of the queue stays in it when the queue or the part looked
/// at grows.
pub proof fn lemma_in_queue_grows(
    queue: Seq<Lit>,
    upto: int,
    v: int,
    longer: Seq<Lit>,
    further: int,
)
    requires
        in_queue(queue, upto, v),
        upto <= further,
        queue.len() <= longer.len(),
        forall|j: int| 0 <= j < queue.len() ==> longer[j] == queue[j],
    ensures
        in_queue(longer, further, v),
{
    let j = lemma_in_queue_witness(queue, upto, v);
    assert(longer[j] == queue[j]);
    lemma_in_queue(longer, further, j);
}

/// Every model of the formula that agrees with `a` and makes `lit` true
/// makes every literal of the queue true.
#[verifier::opaque]
pub open spec fn entailed(formula: Seq<Seq<Lit>>, a: Seq<Assignment>, lit: Lit, queue: Seq<Lit>) -> bool {
    forall|m: Seq<bool>, j: int|
        #![trigger extends(m, a), queue[j]]
        formula_true(formula, m) && extends(m, a) && lit_true(lit, m) && 0 <= j < queue.len()
            ==> lit_true(queue[j], m)
}

impl BCPSolver {
    /// Clause `c` forces `lit`: it watches `lit`, and each of its other
    /// literals is false.
    pub open spec fn forces(&self, c: int, lit: Lit) -> bool {
        &&& 0 <= c < self.clauses@.len()
        &&& (self.watch(c, 0) == lit || self.watch(c, 1) == lit)
        &&& forall|p: int|
            0 <= p < self.clauses@[c].clause@.len() && #[trigger] self.clauses@[c].clause@[p] != lit
                ==> truth_value(self.clauses@[c].clause@[p], self.assignment@) == Assignment::Bot
    }

    /// The store still stands for the problem that `start` stood for.
    pub open spec fn same_problem(&self, start: BCPSolver) -> bool {
        &&& self.num_vars() == start.num_vars()
        &&& self.formula() == start.formula()
        &&& self.learning == start.learning
        &&& self.originals == start.originals
    }

    /// The queue of a propagation in progress: its first `done` literals
    /// have been made true, and each literal after the first is forced by
    /// the clause that queued it.
    #[verifier::opaque]
    pub open spec fn queue_ok(
        &self,
        start: BCPSolver,
        lit: Lit,
        queue: Seq<Lit>,
        done: int,
        reasons: Seq<usize>,
    ) -> bool {
        &&& 0 <= done <= queue.len()
        &&& queue.len() > 0
        &&& queue[0] == lit
        &&& reasons.len() == queue.len()
        &&& forall|j: int|
            0 <= j < queue.len() ==> (#[trigger] queue[j]).index < self.num_vars()
                && start.assignment@[queue[j].index as int] == Assignment::Unassigned
        &&& forall|j: int|
            0 <= j < done ==> truth_value(#[trigger] queue[j], self.assignment@) == Assignment::Top
        &&& forall|j: int|
            1 <= j < queue.len() ==> self.forces((#[trigger] reasons[j]) as int, queue[j])
    }

    /// What a propagation in progress has changed: only variables of
    /// literals already made true have a new value, a variable has a node
    /// exactly while it has a value, and what was assigned at the start
    /// keeps its node.
    #[verifier::opaque]
    pub open spec fn frame_ok(&self, start: BCPSolver, queue: Seq<Lit>, done: int) -> bool {
        &&& forall|v: int|
            0 <= v < self.num_vars() && #[trigger] self.assignment@[v] != start.assignment@[v]
                ==> in_queue(queue, done, v)
        &&& forall|v: int|
            0 <= v < self.num_vars() && #[trigger] self.assignment@[v] != Assignment::Unassigned
                ==> self.implication_graph@[v] is Some
        &&& forall|v: int|
            0 <= v < self.num_vars() && (#[trigger] self.implication_graph@[v]) is Some
                ==> self.assignment@[v] != Assignment::Unassigned
        &&& self.keeps_assigned(start)
    }

    /// Every variable that `before` had assigned has the same value, node
    /// and rank as then, and time has not run backwards.
    pub open spec fn keeps_assigned(&self, before: BCPSolver) -> bool {
        &&& before.clock@ <= self.clock@
        &&& forall|v: int|
            0 <= v < self.num_vars() && #[trigger] before.assignment@[v] != Assignment::Unassigned
                ==> self.assignment@[v] == before.assignment@[v] && self.implication_graph@[v]
                == before.implication_graph@[v] && self.ranks@[v] == before.ranks@[v]
                && self.epochs@[v] == before.epochs@[v]
    }

    /// What a propagation in progress keeps of the backing of watches: under
    /// the assignment at the start every false watch of an original clause
    /// is still backed; and the variables that have got a value since the
    /// start carry the time of the start, which has passed.
    #[verifier::opaque]
    pub open spec fn supporting(&self, start: BCPSolver) -> bool {
        &&& start.clock@ <= self.clock@
        &&& self.watches_backed(start.assignment@)
        &&& forall|v: int|
            0 <= v < self.num_vars() && #[trigger] self.assignment@[v] != Assignment::Unassigned
                ==> if start.assignment@[v] == Assignment::Unassigned {
                self.epochs@[v] == start.clock@ && start.clock@ < self.clock@
            } else {
                self.epochs@[v] < start.clock@
            }
    }

    /// Clause `c` has queued a literal that is still open and still in the
    /// queue behind the first `done` entries.
    pub open spec fn waits(&self, c: int, queue: Seq<Lit>, done: int, reasons: Seq<usize>) -> bool {
        exists|j: int|
            1 <= j && done <= j < queue.len() && (#[trigger] reasons[j]) == c && truth_value(
                queue[j],
                self.assignment@,
            ) == Assignment::Unassigned
    }

    /// Every original clause has its false watches backed, or waits for a
    /// literal that it has queued.
    #[verifier::opaque]
    pub open spec fn settled(&self, queue: Seq<Lit>, done: int, reasons: Seq<usize>) -> bool {
        forall|c: int|
            0 <= c < self.originals@ ==> #[trigger] self.strong(c, self.assignment@) || self.waits(
                c,
                queue,
                done,
                reasons,
            )
    }

    /// Among the clauses of `rest` is every original clause that has a
    /// false watch without backing and waits for no queued literal; and an
    /// original clause with two false watches has only false literals.
    #[verifier::opaque]
    pub open spec fn settling(
        &self,
        queue: Seq<Lit>,
        done: int,
        reasons: Seq<usize>,
        rest: Seq<usize>,
    ) -> bool {
        &&& forall|c: usize|
            c < self.originals@ && !#[trigger] self.strong(c as int, self.assignment@)
                && !self.waits(c as int, queue, done, reasons) ==> rest.contains(c)
        &&& forall|c: int|
            0 <= c < self.originals@ && !#[trigger] self.live(c, self.assignment@)
                ==> clause_false(self.formula()[c], self.assignment@)
    }

    /// The invariant of a propagation in progress.
    pub open spec fn propagating(
        &self,
        start: BCPSolver,
        lit: Lit,
        queue: Seq<Lit>,
        done: int,
        reasons: Seq<usize>,
    ) -> bool {
        &&& self.shape_ok()
        &&& self.graph_ok()
        &&& self.same_problem(start)
        &&& self.queue_ok(start, lit, queue, done, reasons)
        &&& self.frame_ok(start, queue, done)
        &&& entailed(start.formula(), start.assignment@, lit, queue)
        &&& self.watches_live(start.assignment@)
    }

    /// The walk over the clauses that watch variable `cur`: the variable has
    /// a value, and the clauses of `rest`, each listed once, watch it.
    pub open spec fn walk_ok(&self, rest: Seq<usize>, cur: int) -> bool {
        &&& 0 <= cur < self.num_vars()
        &&& self.assignment@[cur] != Assignment::Unassigned
        &&& rest.no_duplicates()
        &&& forall|i: int|
            0 <= i < rest.len() ==> (#[trigger] rest[i]) < self.clauses@.len() && self.watching(
                rest[i] as int,
                cur,
            )
    }

    /// Among the clauses of `rest` is every clause with two false
    /// watches and the forcing clause of every queued literal that has
    /// become false.
    #[verifier::opaque]
    pub open spec fn flagged(
        &self,
        queue: Seq<Lit>,
        done: int,
        reasons: Seq<usize>,
        rest: Seq<usize>,
    ) -> bool {
        &&& forall|j: int|
            done <= j < queue.len() && truth_value(#[trigger] queue[j], self.assignment@)
                == Assignment::Bot ==> rest.contains(reasons[j])
        &&& forall|c: usize|
            c < self.clauses@.len() && !#[trigger] self.live(c as int, self.assignment@)
                ==> rest.contains(c)
    }

    /// Where the walk stands: `rest` holds the clauses still to visit.
    pub open spec fn position_ok(
        &self,
        queue: Seq<Lit>,
        done: int,
        reasons: Seq<usize>,
        rest: Seq<usize>,
        cur: int,
    ) -> bool {
        &&& self.walk_ok(rest, cur)
        &&& self.flagged(queue, done, reasons, rest)
    }
}

impl BCPSolver {
    /// Moves the watch that a clause has on variable `old_var` to `new_lit`:
    /// the clause leaves the watch index under `old_var` and enters it under
    /// the variable of `new_lit`, and the watch slot that held the literal on
    /// `old_var` holds `new_lit`.
    pub fn rewatch(&mut self, clause_index: usize, old_var: usize, new_lit: Lit)
        requires
            old(self).shape_ok(),
            clause_index < old(self).clauses@.len(),
            old(self).watching(clause_index as int, old_var as int),
            old(self).clauses@[clause_index as int].clause@.contains(new_lit),
            new_lit.index != old(self).watch(clause_index as int, 0).index,
            new_lit.index != old(self).watch(clause_index as int, 1).index,
        ensures
            final(self).shape_ok(),
            final(self).clauses@.len() == old(self).clauses@.len(),
            forall|c: int|
                0 <= c < old(self).clauses@.len() && c != clause_index ==> final(self).clauses@[c]
                    == old(self).clauses@[c],
            final(self).clauses@[clause_index as int].clause == old(self).clauses@[clause_index as int].clause,
            final(self).watch(
                clause_index as int,
                old(self).slot_on(clause_index as int, old_var as int),
            ) == new_lit,
            final(self).watch(
                clause_index as int,
                1 - old(self).slot_on(clause_index as int, old_var as int),
            ) == old(self).watch(
                clause_index as int,
                1 - old(self).slot_on(clause_index as int, old_var as int),
            ),
            final(self).formula() == old(self).formula(),
            final(self).assignment == old(self).assignment,
            final(self).implication_graph == old(self).implication_graph,
            final(self).learning == old(self).learning,
            final(self).originals == old(self).originals,
            final(self).ranks == old(self).ranks,
            final(self).epochs == old(self).epochs,
            final(self).clock == old(self).clock,
            final(self).propagations == old(self).propagations,
            final(self).leaves == old(self).leaves,
    {
        broadcast use vstd::std_specs::btree::group_btree_axioms;

        let ghost before = *self;
        let slot: usize = if self.clauses[clause_index].watched[0].index == old_var {
            0
        } else {
            1
        };
        proof {
            assert(watch_ok(self.clauses@[clause_index as int], self.num_vars()));
            let clause = self.clauses@[clause_index as int].clause@;
            let p = choose|p: int| 0 <= p < clause.len() && clause[p] == new_lit;
            let w = self.watch(clause_index as int, slot as int);
            let q = choose|q: int| 0 <= q < clause.len() && clause[q] == w;
            assert(clause[p].index < self.num_vars());
            assert(clause[q].index < self.num_vars());
            assert(p != q);
            assert(clause.len() > 1);
        }
        self.watches_for_var[old_var].remove(&clause_index);
        self.watches_for_var[new_lit.index].insert(clause_index);
        self.clauses[clause_index].watched[slot] = new_lit;
        proof {
            assert(self.formula() == before.formula());
            assert forall|c: int| 0 <= c < self.clauses@.len() implies watch_ok(
                #[trigger] self.clauses@[c],
                self.num_vars(),
            ) by {
                assert(watch_ok(before.clauses@[c], before.num_vars()));
            }
            assert forall|v: int, c: usize|
                #![trigger self.watches_for_var@[v]@.contains(c)]
                0 <= v < self.watches_for_var@.len() implies (self.watches_for_var@[v]@.contains(c)
                <==> c < self.clauses@.len() && self.watching(c as int, v)) by {
                assert(before.watches_for_var@[v]@.contains(c) <==> c < before.clauses@.len()
                    && before.watching(c as int, v));
                if c < self.clauses@.len() && c != clause_index {
                    assert(self.clauses@[c as int] == before.clauses@[c as int]);
                }
            }
        }
    }

    /// Writes the node of a variable that is about to get a value.
    fn record_node(&mut self, index: usize, level: usize, reason: Vec<usize>)
        requires
            old(self).graph_ok(),
            old(self).implication_graph@.len() == old(self).num_vars(),
            old(self).ranks@.len() == old(self).num_vars(),
            index < old(self).num_vars(),
            old(self).assignment@[index as int] == Assignment::Unassigned,
            forall|v: int|
                0 <= v < old(self).num_vars() && #[trigger] old(self).assignment@[v]
                    != Assignment::Unassigned ==> old(self).implication_graph@[v] is Some,
            forall|k: int|
                0 <= k < reason@.len() ==> (#[trigger] reason@[k]) < old(self).num_vars()
                    && old(self).assignment@[reason@[k] as int] != Assignment::Unassigned,
        ensures
            final(self).graph_ok(),
            final(self).implication_graph@ == old(self).implication_graph@.update(
                index as int,
                Some(Node { level, reason }),
            ),
            final(self).ranks@ == old(self).ranks@.update(index as int, old(self).clock@),
            final(self).epochs == old(self).epochs,
            final(self).clock@ == old(self).clock@ + 1,
            final(self).propagations == old(self).propagations,
            final(self).leaves == old(self).leaves,
            final(self).clauses == old(self).clauses,
            final(self).watches_for_var == old(self).watches_for_var,
            final(self).assignment == old(self).assignment,
            final(self).learning == old(self).learning,
            final(self).originals == old(self).originals,
    {
        let ghost before = *self;
        self.implication_graph[index] = Some(Node { level, reason });
        self.ranks = Ghost(self.ranks@.update(index as int, self.clock@));
        self.clock = Ghost(self.clock@ + 1);
        proof {
            assert forall|v: int| 0 <= v < self.num_vars() implies (
            #[trigger] self.implication_graph@[v] matches Some(node) ==> self.ranks@[v]
                < self.clock@ && forall|k: int|
                0 <= k < node.reason@.len() ==> {
                    let r = #[trigger] node.reason@[k];
                    &&& r < self.num_vars()
                    &&& self.assignment@[r as int] != Assignment::Unassigned
                    &&& self.ranks@[r as int] < self.ranks@[v]
                }) by {
                if v == index {
                    assert forall|k: int| 0 <= k < reason@.len() implies {
                        let r = #[trigger] reason@[k];
                        &&& r < self.num_vars()
                        &&& self.assignment@[r as int] != Assignment::Unassigned
                        &&& self.ranks@[r as int] < self.ranks@[v]
                    } by {
                        let r = reason@[k];
                        assert(before.implication_graph@[r as int] is Some);
                    }
                } else {
                    assert(self.implication_graph@[v] == before.implication_graph@[v]);
                }
            }
        }
    }
}

/// The variables of the literals of the clause other than `unit`, in order.
fn reason_of(clause: &Clause, unit: Lit) -> (reason: Vec<usize>)
    ensures
        reason@ == other_vars(clause@, unit),
{
    let mut reason: Vec<usize> = Vec::new();
    let mut p: usize = 0;
    while p < clause.lits.len()
        invariant
            p <= clause@.len(),
            reason@ == other_vars(clause@.take(p as int), unit),
        decreases clause@.len() - p,
    {
        proof {
            assert(clause@.take(p as int + 1).drop_last() == clause@.take(p as int));
        }
        if clause.lits[p] != unit {
            reason.push(lit_to_index(clause.lits[p]));
        }
        p += 1;
    }
    proof {
        assert(clause@.take(clause@.len() as int) == clause@);
    }
    reason
}

/// Literal `x` is false under `a`, or one of the first `upto` literals of
/// `lits` is its negation.
pub open spec fn falsified(x: Lit, a: Seq<Assignment>, lits: Seq<Lit>, upto: int) -> bool {
    truth_value(x, a) == Assignment::Bot || exists|i: int|
        0 <= i < upto && i < lits.len() && #[trigger] lits[i] == x.negated()
}

/// The clause has two or more literals and holds the literal at position
/// `j` of `lits`, and each other literal of it is false under `a` or the
/// negation of a literal that stands before position `j`: the clause forces
/// the literal.
pub open spec fn derived_by(clause: Seq<Lit>, a: Seq<Assignment>, lits: Seq<Lit>, j: int) -> bool {
    &&& clause.len() >= 2
    &&& clause.contains(lits[j])
    &&& forall|p: int|
        0 <= p < clause.len() && #[trigger] clause[p] != lits[j] ==> falsified(
            clause[p],
            a,
            lits,
            j,
        )
}

/// Some clause of the formula forces the literal at position `j` of `lits`.
pub open spec fn derived(
    formula: Seq<Seq<Lit>>,
    a: Seq<Assignment>,
    lits: Seq<Lit>,
    j: int,
) -> bool {
    exists|c: int| 0 <= c < formula.len() && derived_by(#[trigger] formula[c], a, lits, j)
}

/// Each literal of `lits` after the first is forced by a clause of the
/// formula, given `a` and the literals before it: the list is a run of unit
/// propagation from its first literal.
#[verifier::opaque]
pub open spec fn derivation(formula: Seq<Seq<Lit>>, a: Seq<Assignment>, lits: Seq<Lit>) -> bool {
    forall|j: int| 1 <= j < lits.len() ==> #[trigger] derived(formula, a, lits, j)
}

/// Every literal of the clause is false under `a` or the negation of a
/// literal of `lits`.
pub open spec fn refuted_by(clause: Seq<Lit>, a: Seq<Assignment>, lits: Seq<Lit>) -> bool {
    forall|p: int|
        0 <= p < clause.len() ==> falsified(#[trigger] clause[p], a, lits, lits.len() as int)
}

/// The clause has two or more literals and holds `lit`, and each other
/// literal of it is false under `a` or the negation of a literal of
/// `made`.
pub open spec fn forced_by(clause: Seq<Lit>, a: Seq<Assignment>, made: Seq<Lit>, lit: Lit) -> bool {
    &&& clause.len() >= 2
    &&& clause.contains(lit)
    &&& forall|p: int|
        0 <= p < clause.len() && #[trigger] clause[p] != lit ==> falsified(
            clause[p],
            a,
            made,
            made.len() as int,
        )
}

/// Some clause of the formula forces `lit`, given `a` and the literals of
/// `made`.
pub open spec fn forced(formula: Seq<Seq<Lit>>, a: Seq<Assignment>, made: Seq<Lit>, lit: Lit) -> bool {
    exists|c: int| 0 <= c < formula.len() && forced_by(#[trigger] formula[c], a, made, lit)
}

/// The literals made true by a propagation in progress: `made` lists them
/// in the order in which they were made true, each variable once; it is a
/// run of unit propagation; it holds the literals among the first `done`
/// of the queue and no others; and each queued literal is forced by a
/// clause, given the literals of `made`.
#[verifier::opaque]
pub open spec fn listing(
    formula: Seq<Seq<Lit>>,
    a: Seq<Assignment>,
    queue: Seq<Lit>,
    done: int,
    made: Seq<Lit>,
) -> bool {
    &&& derivation(formula, a, made)
    &&& done > 0 ==> made.len() > 0 && made[0] == queue[0]
    &&& forall|k: int, l: int|
        0 <= k < l < made.len() ==> (#[trigger] made[k]).index != (#[trigger] made[l]).index
    &&& forall|i: int| 0 <= i < done && i < queue.len() ==> made.contains(#[trigger] queue[i])
    &&& forall|k: int| 0 <= k < made.len() ==> queue.take(done).contains(#[trigger] made[k])
    &&& forall|j: int| 1 <= j < queue.len() ==> #[trigger] forced(formula, a, made, queue[j])
}

/// The reasons that wait beside the queued literals: none beside the
/// first, and beside each other literal the other variables of the clause
/// that queued it, of which there is at least one.
#[verifier::opaque]
pub open spec fn reasoned(
    formula: Seq<Seq<Lit>>,
    queue: Seq<Lit>,
    reasons: Seq<usize>,
    queued: Seq<Vec<usize>>,
) -> bool {
    &&& queued.len() == queue.len()
    &&& reasons.len() == queue.len()
    &&& queue.len() > 0 ==> queued[0]@.len() == 0
    &&& forall|j: int|
        1 <= j < queue.len() ==> (#[trigger] reasons[j]) < formula.len() && queued[j]@
            == other_vars(formula[reasons[j] as int], queue[j]) && queued[j]@.len() > 0
}

/// The reason holds the variable of one of the first `k` literals of
/// `lits`.
pub open spec fn leans_on(reason: Seq<usize>, lits: Seq<Lit>, k: int) -> bool {
    exists|i: int| 0 <= i < k && i < lits.len() && reason.contains((#[trigger] lits[i]).index)
}

/// The reason that waits beside each queued literal but the first holds
/// the variable of a literal of `made`.
#[verifier::opaque]
pub open spec fn linked(queue: Seq<Lit>, queued: Seq<Vec<usize>>, made: Seq<Lit>) -> bool {
    forall|j: int|
        1 <= j < queue.len() && j < queued.len() ==> leans_on(
            (#[trigger] queued[j])@,
            made,
            made.len() as int,
        )
}

/// The literal on variable `v` that is true under the value that `a` gives
/// the variable.
pub open spec fn value_literal(a: Seq<Assignment>, v: int) -> Lit {
    Lit {
        index: v as usize,
        sign: if a[v] == Assignment::Top {
            Sign::Pos
        } else {
            Sign::Neg
        },
    }
}

/// The clause holds the true literal of variable `v`, every other literal
/// of it is false, and `reason` lists the variables of those others.
pub open spec fn justifies(
    clause: Seq<Lit>,
    a: Seq<Assignment>,
    v: int,
    reason: Seq<usize>,
) -> bool {
    &&& clause.contains(value_literal(a, v))
    &&& reason == other_vars(clause, value_literal(a, v))
    &&& forall|p: int|
        0 <= p < clause.len() && #[trigger] clause[p] != value_literal(a, v) ==> truth_value(
            clause[p],
            a,
        ) == Assignment::Bot
}

/// The node of variable `v` has no reason, or its reason lists the other
/// variables of a clause of the formula that forces the value of `v`.
pub open spec fn justified(
    formula: Seq<Seq<Lit>>,
    a: Seq<Assignment>,
    graph: Seq<Option<Node>>,
    v: int,
) -> bool {
    graph[v] matches Some(node) && (node.reason@.len() == 0 || exists|c: int|
        0 <= c < formula.len() && justifies(#[trigger] formula[c], a, v, node.reason@))
}

/// The node of every variable with a value is justified.
#[verifier::opaque]
pub open spec fn explains(formula: Seq<Seq<Lit>>, a: Seq<Assignment>, graph: Seq<Option<Node>>) -> bool {
    forall|v: int|
        0 <= v < a.len() && #[trigger] a[v] != Assignment::Unassigned ==> justified(
            formula,
            a,
            graph,
            v,
        )
}

/// Every model of `formula` over `num_vars` variables makes the clause
/// true.
pub open spec fn follows_from(formula: Seq<Seq<Lit>>, clause: Seq<Lit>, num_vars: nat) -> bool {
    forall|m: Seq<bool>|
        m.len() == num_vars && #[trigger] formula_true(formula, m) ==> clause_true(clause, m)
}

/// Every model of the first `upto` clauses of `formula` over `num_vars`
/// variables is a model of all of them.
#[verifier::opaque]
pub open spec fn same_models(formula: Seq<Seq<Lit>>, upto: int, num_vars: nat) -> bool {
    forall|m: Seq<bool>|
        m.len() == num_vars && #[trigger] formula_true(formula.take(upto), m) ==> formula_true(
            formula,
            m,
        )
}

/// No literal of the queue from position `from` on is false.
pub open spec fn pending_open(queue: Seq<Lit>, from: int, a: Seq<Assignment>) -> bool {
    forall|j: int| from <= j < queue.len() ==> truth_value(#[trigger] queue[j], a) != Assignment::Bot
}

/// `b` assigns every variable that `a` assigns, to the same value.
pub open spec fn grows(a: Seq<Assignment>, b: Seq<Assignment>) -> bool {
    &&& a.len() == b.len()
    &&& forall|v: int| 0 <= v < a.len() && #[trigger] a[v] != Assignment::Unassigned ==> b[v] == a[v]
}

/// Every model of the formula that agrees with `a` and makes `lit` true
/// agrees with `b`.
pub open spec fn follows(
    formula: Seq<Seq<Lit>>,
    a: Seq<Assignment>,
    lit: Lit,
    b: Seq<Assignment>,
) -> bool {
    forall|m: Seq<bool>|
        #[trigger] extends(m, a) && formula_true(formula, m) && lit_true(lit, m) ==> extends(m, b)
}

impl BCPSolver {
    /// What a propagation that ran to its end has done since `start`: it
    /// made the literals of `lits` true, in this order and each on another
    /// variable that was open, and changed no other variable; each literal
    /// after the assumed one is forced by a clause of two or more literals,
    /// given the literals before it; and every value that was set holds in
    /// every model of the formula that agrees with the assignment at the
    /// start and with the assumed literal.
    pub open spec fn propagated(&self, start: BCPSolver, lit: Lit, lits: Seq<Lit>) -> bool {
        &&& self.same_problem(start)
        &&& self.keeps_assigned(start)
        &&& lits.len() > 0
        &&& lits[0] == lit
        &&& forall|j: int|
            0 <= j < lits.len() ==> (#[trigger] lits[j]).index < self.num_vars()
                && start.assignment@[lits[j].index as int] == Assignment::Unassigned
                && truth_value(lits[j], self.assignment@) == Assignment::Top
        &&& forall|v: int|
            0 <= v < self.num_vars() && #[trigger] self.assignment@[v] != start.assignment@[v]
                ==> in_queue(lits, lits.len() as int, v) && self.epochs@[v] >= start.clock@
        &&& follows(start.formula(), start.assignment@, lit, self.assignment@)
        &&& derivation(start.formula(), start.assignment@, lits)
        &&& forall|k: int, l: int|
            0 <= k < l < lits.len() ==> (#[trigger] lits[k]).index != (#[trigger] lits[l]).index
    }

    /// Each listed literal has a node with the level `level`; the first has
    /// no reason, and each other has one that holds the variable of a
    /// literal listed before it.
    #[verifier::opaque]
    pub open spec fn noting(&self, lits: Seq<Lit>, level: usize) -> bool {
        forall|k: int|
            0 <= k < lits.len() ==> {
                let v = (#[trigger] lits[k]).index as int;
                &&& 0 <= v < self.num_vars()
                &&& self.implication_graph@[v] matches Some(node)
                &&& node.level == level
                &&& (k == 0 ==> node.reason@.len() == 0)
                &&& (k > 0 ==> node.reason@.len() > 0 && leans_on(node.reason@, lits, k))
            }
    }

    /// What has been written down of the literals that a propagation made
    /// true: the node of each has the level `level`; the node of the first
    /// has no reason; the node of each other holds as reason the other
    /// variables of a clause that holds the literal and of which every
    /// other literal is false.
    pub open spec fn noted(&self, lits: Seq<Lit>, level: usize) -> bool {
        forall|k: int|
            0 <= k < lits.len() ==> {
                let v = (#[trigger] lits[k]).index as int;
                &&& 0 <= v < self.num_vars()
                &&& self.implication_graph@[v] matches Some(node)
                &&& node.level == level
                &&& (k == 0 ==> node.reason@.len() == 0)
                &&& (k > 0 ==> node.reason@.len() > 0 && justified(
                    self.formula(),
                    self.assignment@,
                    self.implication_graph@,
                    v,
                ))
            }
    }

    /// The store is as `before` was, but for what has been counted.
    pub open spec fn counted_from(&self, before: BCPSolver) -> bool {
        &&& self.clauses == before.clauses
        &&& self.watches_for_var == before.watches_for_var
        &&& self.assignment == before.assignment
        &&& self.implication_graph == before.implication_graph
        &&& self.learning == before.learning
        &&& self.originals == before.originals
        &&& self.ranks == before.ranks
        &&& self.clock == before.clock
        &&& self.epochs == before.epochs
    }

    /// What the clause learned from a conflict under the assumed literal
    /// `lit` is like: it is true in every model of the clauses that the
    /// store held, it holds the negation of `lit`, and each other literal
    /// of it is false under the assignment at the start.
    pub open spec fn learned_against(start: BCPSolver, lit: Lit, clause: Seq<Lit>) -> bool {
        &&& follows_from(start.formula(), clause, start.num_vars())
        &&& clause.contains(lit.negated())
        &&& forall|p: int|
            0 <= p < clause.len() && #[trigger] clause[p] != lit.negated() ==> truth_value(
                clause[p],
                start.assignment@,
            ) == Assignment::Bot
    }

    /// What a propagation that met a conflict has left behind: assignment
    /// and implication graph are as at the start, no model of the formula
    /// agrees with the assignment at the start and with the assumed literal,
    /// and the store has one clause more if it learns, learned against the
    /// assumed literal, and is unchanged if it does not.
    pub open spec fn retreated(&self, start: BCPSolver, lit: Lit) -> bool {
        &&& self.num_vars() == start.num_vars()
        &&& self.learning == start.learning
        &&& self.originals == start.originals
        &&& self.assignment@ == start.assignment@
        &&& self.implication_graph@ == start.implication_graph@
        &&& self.keeps_assigned(start)
        &&& refuted(
            start.formula(),
            with_value(start.assignment@, lit.index as int, sign_value(lit.sign)),
        )
        &&& if start.learning {
            self.formula().len() == start.formula().len() + 1 && self.formula().drop_last()
                == start.formula() && BCPSolver::learned_against(
                start,
                lit,
                self.formula().last(),
            )
        } else {
            self.formula() == start.formula()
        }
    }
}

impl BCPSolver {
    /// Visits one clause that watches the variable just assigned. Returns
    /// `true` when the clause has become false. Otherwise a false watch has
    /// moved to another literal, or the clause has queued its last open
    /// literal, or nothing was to be done.
    fn visit_watcher(
        &mut self,
        clause_index: usize,
        queue: &mut Vec<Lit>,
        queued: &mut Vec<Vec<usize>>,
        Ghost(start): Ghost<BCPSolver>,
        Ghost(lit): Ghost<Lit>,
        Ghost(done): Ghost<int>,
        Ghost(reasons): Ghost<Seq<usize>>,
        Ghost(rest): Ghost<Seq<usize>>,
        Ghost(cur): Ghost<int>,
        Ghost(made): Ghost<Seq<Lit>>,
    ) -> (r: (bool, Ghost<Seq<usize>>))
        requires
            old(self).propagating(start, lit, old(queue)@, done, reasons),
            old(self).position_ok(old(queue)@, done, reasons, rest, cur),
            old(self).supporting(start),
            old(self).settling(old(queue)@, done, reasons, rest),
            listing(start.formula(), start.assignment@, old(queue)@, done, made),
            reasoned(start.formula(), old(queue)@, reasons, old(queued)@),
            linked(old(queue)@, old(queued)@, made),
            made.len() > 0,
            made.last().index == cur,
            done >= 1,
            rest.len() > 0,
            rest[0] == clause_index,
        ensures
            final(self).assignment == old(self).assignment,
            final(self).implication_graph == old(self).implication_graph,
            final(self).ranks == old(self).ranks,
            final(self).epochs == old(self).epochs,
            final(self).clock == old(self).clock,
            final(self).propagations == old(self).propagations,
            final(self).leaves == old(self).leaves,
            final(queue)@.len() >= old(queue)@.len(),
            !r.0 ==> final(self).supporting(start),
            !r.0 ==> listing(start.formula(), start.assignment@, final(queue)@, done, made),
            !r.0 ==> reasoned(start.formula(), final(queue)@, r.1@, final(queued)@),
            !r.0 ==> linked(final(queue)@, final(queued)@, made),
            !r.0 ==> final(self).settling(final(queue)@, done, r.1@, rest.drop_first()),
            r.0 ==> *final(self) == *old(self) && final(queue)@ == old(queue)@ && final(queued)@
                == old(queued)@ && clause_false(
                old(self).formula()[clause_index as int],
                old(self).assignment@,
            ),
            !r.0 ==> final(self).propagating(start, lit, final(queue)@, done, r.1@),
            !r.0 ==> final(self).position_ok(final(queue)@, done, r.1@, rest.drop_first(), cur),
    {
        let ghost before = *self;
        let ghost a = self.assignment@;
        let ghost clause = self.clauses@[clause_index as int].clause@;
        proof {
            assert(rest[0] < self.clauses@.len() && self.watching(rest[0] as int, cur));
            self.lemma_watch_in_range(clause_index as int);
            assert(watch_ok(self.clauses@[clause_index as int], self.num_vars()));
        }
        let watch0 = self.clauses[clause_index].watched[0];
        let watch1 = self.clauses[clause_index].watched[1];
        let truth0 = self.truth_value_of_literal(watch0);
        let truth1 = self.truth_value_of_literal(watch1);

        if truth0 == Assignment::Top || truth1 == Assignment::Top {
            proof {
                self.lemma_skip_keeps(start, lit, queue@, done, reasons, rest, cur);
                self.lemma_skip_settling(start, lit, queue@, done, reasons, rest);
            }
            return (false, Ghost(reasons));
        }
        let bot_watch_idx: usize = if truth0 == Assignment::Bot {
            0
        } else {
            1
        };
        let other_watch = if bot_watch_idx == 0 {
            watch1
        } else {
            watch0
        };
        proof {
            assert(truth_value(self.watch(clause_index as int, bot_watch_idx as int), a)
                == Assignment::Bot);
            assert(other_watch == self.watch(clause_index as int, 1 - bot_watch_idx));
        }
        let found = self.find_next_watched_literal(&self.clauses[clause_index].clause, other_watch);
        match found {
            Some(found_lit) => {
                proof {
                    let p = choose|p: int|
                        #[trigger] first_to_watch(clause, 0, p, other_watch, a) && clause[p]
                            == found_lit;
                    assert(clause.contains(found_lit));
                    assert(clause[p].index < self.num_vars());
                    self.lemma_not_forcing(
                        clause_index as int,
                        bot_watch_idx as int,
                        found_lit,
                        found_lit,
                    );
                }
                let bot_watch = if bot_watch_idx == 0 {
                    watch0
                } else {
                    watch1
                };
                proof {
                    assert(watch0.index != watch1.index);
                    assert(self.slot_on(clause_index as int, bot_watch.index as int)
                        == bot_watch_idx);
                }
                self.rewatch(clause_index, lit_to_index(bot_watch), found_lit);
                proof {
                    self.lemma_rewatch_keeps(
                        before,
                        start,
                        lit,
                        queue@,
                        done,
                        reasons,
                        rest,
                        cur,
                        bot_watch_idx as int,
                        found_lit,
                    );
                    self.lemma_rewatch_settling(
                        before,
                        start,
                        lit,
                        queue@,
                        done,
                        reasons,
                        rest,
                        bot_watch_idx as int,
                        found_lit,
                    );
                }
                (false, Ghost(reasons))
            },
            None => {
                proof {
                    assert forall|p: int|
                        0 <= p < clause.len() && #[trigger] clause[p]
                            != other_watch implies truth_value(clause[p], a)
                        == Assignment::Bot by {
                        assert(!may_watch(clause[p], other_watch, a));
                    }
                    assert(self.forces(clause_index as int, other_watch));
                }
                let unit_truth = self.truth_value_of_literal(other_watch);
                if unit_truth == Assignment::Bot {
                    proof {
                        self.lemma_forced_false(clause_index as int, other_watch);
                    }
                    return (true, Ghost(reasons));
                } else if unit_truth == Assignment::Top {
                    proof {
                        self.lemma_skip_keeps(start, lit, queue@, done, reasons, rest, cur);
                        self.lemma_skip_settling(start, lit, queue@, done, reasons, rest);
                    }
                    return (false, Ghost(reasons));
                }
                let reason = reason_of(&self.clauses[clause_index].clause, other_watch);
                proof {
                    let false_watch = self.watch(clause_index as int, bot_watch_idx as int);
                    let p = choose|p: int| 0 <= p < clause.len() && clause[p] == false_watch;
                    lemma_other_vars_nonempty(clause, other_watch, p);
                    assert(false_watch.index == cur);
                    assert(leans_on(reason@, made, made.len() as int)) by {
                        assert(reason@.contains(made[made.len() - 1].index));
                    }
                }
                let ghost old_queue = queue@;
                let ghost old_queued = queued@;
                let ghost reason_vars = reason@;
                queue.push(other_watch);
                queued.push(reason);
                proof {
                    self.lemma_enqueue_keeps(
                        start,
                        lit,
                        old_queue,
                        done,
                        reasons,
                        rest,
                        cur,
                        other_watch,
                    );
                    assert(reasons.len() == old_queue.len() && old_queue.len() > 0 && done
                        <= old_queue.len()) by {
                        reveal(BCPSolver::queue_ok);
                    }
                    self.lemma_enqueue_settling(start, old_queue, done, reasons, rest, other_watch);
                    self.lemma_listing_push(
                        start,
                        lit,
                        old_queue,
                        done,
                        reasons,
                        made,
                        clause_index as int,
                        other_watch,
                    );
                    assert(reasoned(
                        start.formula(),
                        queue@,
                        reasons.push(clause_index),
                        queued@,
                    )) by {
                        reveal(reasoned);
                        assert(start.formula()[clause_index as int] == clause);
                        assert forall|j: int| 1 <= j < queue@.len() implies (
                        #[trigger] reasons.push(clause_index)[j]) < start.formula().len()
                            && queued@[j]@ == other_vars(
                            start.formula()[reasons.push(clause_index)[j] as int],
                            queue@[j],
                        ) && queued@[j]@.len() > 0 by {
                            if j < old_queue.len() {
                                assert(reasons.push(clause_index)[j] == reasons[j]);
                                assert(queued@[j] == old_queued[j]);
                                assert(queue@[j] == old_queue[j]);
                            }
                        }
                    }
                    assert(old_queued.len() == old_queue.len()) by {
                        reveal(reasoned);
                    }
                    assert(linked(queue@, queued@, made)) by {
                        reveal(linked);
                        assert forall|j: int| 1 <= j < queue@.len() && j < queued@.len() implies leans_on(
                            (#[trigger] queued@[j])@,
                            made,
                            made.len() as int,
                        ) by {
                            if j < old_queued.len() {
                                assert(queued@[j] == old_queued[j]);
                                assert(leans_on(old_queued[j]@, made, made.len() as int));
                            } else {
                                assert(queued@[j]@ == reason_vars);
                            }
                        }
                    }
                }
                (false, Ghost(reasons.push(clause_index)))
            },
        }
    }
}

/// A copy of a list of variables.
fn copy_reason(reason: &Vec<usize>) -> (copy: Vec<usize>)
    ensures
        copy@ == reason@,
{
    let mut copy: Vec<usize> = Vec::new();
    let mut k: usize = 0;
    while k < reason.len()
        invariant
            k <= reason@.len(),
            copy@ == reason@.take(k as int),
        decreases reason@.len() - k,
    {
        copy.push(reason[k]);
        k += 1;
    }
    copy
}

impl BCPSolver {
    /// Retreats from a conflict at a clause all of whose literals are
    /// false. A learning engine works out the clause to learn from the
    /// implication graph as it stands. Then every literal that the
    /// propagation has made true loses value and node, and the clause to
    /// learn joins the store.
    fn retreat(
        &mut self,
        clause_index: usize,
        assigned_lits: &Vec<Lit>,
        level: usize,
        Ghost(start): Ghost<BCPSolver>,
        Ghost(lit): Ghost<Lit>,
        Ghost(queue): Ghost<Seq<Lit>>,
        Ghost(done): Ghost<int>,
        Ghost(reasons): Ghost<Seq<usize>>,
    )
        requires
            start.wf(),
            lit.index < start.num_vars(),
            start.assignment@[lit.index as int] == Assignment::Unassigned,
            old(self).propagating(start, lit, queue, done, reasons),
            old(self).supporting(start),
            listing(start.formula(), start.assignment@, queue, done, assigned_lits@),
            old(self).noting(assigned_lits@, level),
            explains(start.formula(), old(self).assignment@, old(self).implication_graph@),
            done >= 1,
            assigned_lits@.len() > 0,
            clause_index < old(self).clauses@.len(),
            old(self).watching(clause_index as int, assigned_lits@.last().index as int),
            clause_false(old(self).formula()[clause_index as int], old(self).assignment@),
        ensures
            final(self).wf(),
            final(self).retreated(start, lit),
            final(self).propagations == old(self).propagations,
            final(self).leaves@ == old(self).leaves@ + 1,
            clause_index < start.clauses@.len(),
            assigned_lits@[0] == lit,
            derivation(start.formula(), start.assignment@, assigned_lits@),
            refuted_by(start.formula()[clause_index as int], start.assignment@, assigned_lits@),
    {
        let ghost pre = *self;
        proof {
            self.lemma_conflict_derived(
                start,
                lit,
                queue,
                done,
                reasons,
                assigned_lits@,
                clause_index as int,
            );
            self.lemma_conflict_refutes(
                start,
                lit,
                queue,
                done,
                reasons,
                clause_index as int,
            );
            assert(self.formula() == start.formula());
            assert(self.clauses@.len() == start.clauses@.len()) by {
                assert(self.formula().len() == start.formula().len());
            }
        }
        let learned = if self.learning {
            proof {
                assert forall|v: int|
                    0 <= v < self.num_vars() && #[trigger] self.assignment@[v]
                        != Assignment::Unassigned implies self.implication_graph@[v]
                    is Some by {
                    reveal(BCPSolver::frame_ok);
                }
                self.lemma_assumed_in_cut(
                    assigned_lits@,
                    level,
                    clause_index as int,
                    assigned_lits@.last().index as int,
                );
            }
            let lits = self.conflict_clause(clause_index);
            proof {
                assert(self.num_vars() == self.assignment.assignments.len());
                self.lemma_learned_against(
                    start,
                    lit,
                    queue,
                    done,
                    reasons,
                    assigned_lits@,
                    level,
                    clause_index as int,
                );
            }
            Some(lits)
        } else {
            None
        };
        proof {
            assert forall|j: int| 0 <= j < assigned_lits@.len() implies (
            #[trigger] assigned_lits@[j]).index < self.num_vars() by {
                reveal(BCPSolver::noting);
            }
        }
        self.unassign(assigned_lits.as_slice());
        proof {
            assert(self.unassigned_from(pre, assigned_lits@));
            self.lemma_retreat(
                pre,
                start,
                lit,
                queue,
                done,
                reasons,
                assigned_lits@,
            );
        }
        match learned {
            Some(lits) => {
                let ghost retreated = *self;
                let ghost open = false_literal(pre.assignment@, lit.index as int);
                let ghost learned = lits@;
                proof {
                    assert(lits@.contains(open));
                    assert(truth_value(open, self.assignment@)
                        == Assignment::Unassigned);
                }
                self.add_watched_clause(Clause::from_vec(lits));
                proof {
                    self.lemma_installed(retreated, learned, open);
                    assert(self.formula().drop_last() == start.formula());
                    assert(self.formula().last() == learned);
                }
            },
            None => {},
        }
        let ghost uncounted = *self;
        self.leaves = Ghost(self.leaves@ + 1);
        proof {
            self.lemma_counted(uncounted);
            self.lemma_retreated_counted(uncounted, start, lit);
        }
    }
}

impl BCPSolver {
    /// Assumes `lit` at decision level `level` and propagates.
    ///
    /// The literal is queued. Each queued literal in turn, unless its
    /// variable has a value by then, is made true and listed, and its node
    /// is written with the level and the reason that was queued beside it;
    /// then every clause that watches its variable, as listed when the
    /// literal is made true and in ascending order of the clause indices, is
    /// visited. A clause with a true watch is passed over. Else a false
    /// watch moves to the first literal of the clause that is true or is
    /// unassigned and not the other watch. Where there is none, the other
    /// watch is queued if it is unassigned, with the other variables of the
    /// clause as its reason; if it is false, the clause is in conflict.
    ///
    /// On a conflict a learning engine works out the clause to learn from
    /// the implication graph as it stands. Then every literal that was made
    /// true loses value and node, so that assignment and implication graph
    /// are as before the call, and the clause to learn joins the store: the
    /// literal on the variable of `lit` is open in it, so that it does not
    /// come with two false watches.
    #[verifier::rlimit(40)]
    pub fn bcp(&mut self, lit: Lit, level: usize) -> (res: BcpResult)
        requires
            old(self).wf(),
            lit.index < old(self).num_vars(),
            old(self).assignment@[lit.index as int] == Assignment::Unassigned,
        ensures
            final(self).wf(),
            final(self).propagations@ == old(self).propagations@ + 1,
            final(self).leaves@ == old(self).leaves@ + if res is Conflict {
                1nat
            } else {
                0nat
            },
            match res {
                BcpResult::Implications(lits) => final(self).propagated(*old(self), lit, lits@)
                    && final(self).noted(lits@, level),
                BcpResult::Conflict(clause_index) => final(self).retreated(*old(self), lit)
                    && clause_index < old(self).clauses@.len() && exists|lits: Seq<Lit>|
                    #![trigger derivation(old(self).formula(), old(self).assignment@, lits)]
                    lits.len() > 0 && lits[0] == lit && derivation(
                        old(self).formula(),
                        old(self).assignment@,
                        lits,
                    ) && refuted_by(
                        old(self).formula()[clause_index as int],
                        old(self).assignment@,
                        lits,
                    ),
            },
    {
        self.propagations = Ghost(self.propagations@ + 1);
        let ghost start = *self;
        proof {
            start.lemma_counted(*old(self));
        }
        let mut queue: Vec<Lit> = Vec::new();
        queue.push(lit);
        let mut queued: Vec<Vec<usize>> = Vec::new();
        queued.push(Vec::new());
        let mut assigned_lits: Vec<Lit> = Vec::new();
        let ghost mut reasons: Seq<usize> = seq![0usize];
        proof {
            assert(queue@ == seq![lit]);
            self.lemma_start(lit);
            self.lemma_support_begins(lit);
            lemma_listing_begins(start.formula(), start.assignment@, lit);
            assert(reasoned(start.formula(), queue@, reasons, queued@)) by {
                reveal(reasoned);
            }
            assert(self.noting(assigned_lits@, level)) by {
                reveal(BCPSolver::noting);
            }
            assert(linked(queue@, queued@, assigned_lits@)) by {
                reveal(linked);
            }
        }
        let mut iterations: usize = 0;
        while iterations < queue.len()
            invariant
                start.counted_from(*old(self)),
                start.propagations@ == old(self).propagations@ + 1,
                start.leaves == old(self).leaves,
                self.propagations == start.propagations,
                self.leaves == start.leaves,
                start.wf(),
                lit.index < start.num_vars(),
                start.assignment@[lit.index as int] == Assignment::Unassigned,
                iterations <= queue@.len(),
                self.propagating(start, lit, queue@, iterations as int, reasons),
                self.watches_live(self.assignment@),
                pending_open(queue@, iterations as int, self.assignment@),
                self.supporting(start),
                self.settled(queue@, iterations as int, reasons),
                listing(
                    start.formula(),
                    start.assignment@,
                    queue@,
                    iterations as int,
                    assigned_lits@,
                ),
                reasoned(start.formula(), queue@, reasons, queued@),
                linked(queue@, queued@, assigned_lits@),
                self.noting(assigned_lits@, level),
                explains(start.formula(), self.assignment@, self.implication_graph@),
            decreases count_unassigned(self.assignment@), queue@.len() - iterations,
        {
            let current_lit = queue[iterations];
            let current_lit_idx = lit_to_index(current_lit);
            proof {
                assert(current_lit.index < self.num_vars()) by {
                    reveal(BCPSolver::queue_ok);
                }
            }
            if self.assignment.assignments[current_lit_idx] != Assignment::Unassigned {
                proof {
                    self.lemma_pass_by(start, lit, queue@, iterations as int, reasons);
                    self.lemma_pass_by_settled(queue@, iterations as int, reasons);
                    self.lemma_listing_pass_by(
                        start,
                        lit,
                        queue@,
                        iterations as int,
                        reasons,
                        assigned_lits@,
                    );
                }
                iterations += 1;
            } else {
                proof {
                    assert(queued@.len() == queue@.len()) by {
                        reveal(reasoned);
                    }
                }
                let reason = copy_reason(&queued[iterations]);
                let ghost before_pop = *self;
                let ghost made = assigned_lits@;
                let ghost node = Node { level, reason };
                proof {
                    self.lemma_reason_assigned(
                        start,
                        lit,
                        queue@,
                        iterations as int,
                        reasons,
                        queued@,
                    );
                    assert forall|v: int|
                        0 <= v < self.num_vars() && #[trigger] self.assignment@[v]
                            != Assignment::Unassigned implies self.implication_graph@[v]
                        is Some by {
                        reveal(BCPSolver::frame_ok);
                    }
                }
                self.record_node(current_lit_idx, level, reason);
                self.assignment.assignments[current_lit_idx] = assignment_from_sign(
                    current_lit.sign(),
                );
                self.epochs = Ghost(self.epochs@.update(current_lit_idx as int, start.clock@));
                assigned_lits.push(current_lit);
                let watchers = snapshot(&self.watches_for_var[current_lit_idx]);
                proof {
                    self.lemma_pop_keeps(
                        before_pop,
                        start,
                        lit,
                        queue@,
                        iterations as int,
                        reasons,
                        watchers@,
                        node,
                    );
                    self.lemma_pop_settling(
                        before_pop,
                        start,
                        lit,
                        queue@,
                        iterations as int,
                        reasons,
                        watchers@,
                        node,
                    );
                    before_pop.lemma_listing_pop(
                        start,
                        lit,
                        queue@,
                        iterations as int,
                        reasons,
                        made,
                    );
                    self.lemma_noting_pop(
                        before_pop,
                        start,
                        lit,
                        queue@,
                        iterations as int,
                        reasons,
                        queued@,
                        made,
                        level,
                        node,
                    );
                    self.lemma_explained_pop(
                        before_pop,
                        start,
                        lit,
                        queue@,
                        iterations as int,
                        reasons,
                        queued@,
                        node,
                    );
                    lemma_linked_pop(queue@, queued@, made, current_lit);
                    lemma_count_unassigned_shrinks(before_pop.assignment@, self.assignment@);
                    assert(watchers@.skip(0) == watchers@);
                }
                let ghost value_then = self.assignment@;
                let ghost graph_then = self.implication_graph;
                let mut k: usize = 0;
                while k < watchers.len()
                    invariant
                        start.counted_from(*old(self)),
                        start.propagations@ == old(self).propagations@ + 1,
                        start.leaves == old(self).leaves,
                        self.propagations == start.propagations,
                        self.leaves == start.leaves,
                        start.wf(),
                        lit.index < start.num_vars(),
                        start.assignment@[lit.index as int] == Assignment::Unassigned,
                        k <= watchers@.len(),
                        iterations < queue@.len(),
                        current_lit_idx == current_lit.index,
                        self.propagating(start, lit, queue@, iterations as int + 1, reasons),
                        self.position_ok(
                            queue@,
                            iterations as int + 1,
                            reasons,
                            watchers@.skip(k as int),
                            current_lit_idx as int,
                        ),
                        self.assignment@ == value_then,
                        self.implication_graph == graph_then,
                        self.supporting(start),
                        self.settling(
                            queue@,
                            iterations as int + 1,
                            reasons,
                            watchers@.skip(k as int),
                        ),
                        listing(
                            start.formula(),
                            start.assignment@,
                            queue@,
                            iterations as int + 1,
                            assigned_lits@,
                        ),
                        reasoned(start.formula(), queue@, reasons, queued@),
                        linked(queue@, queued@, assigned_lits@),
                        assigned_lits@.len() > 0,
                        assigned_lits@.last() == current_lit,
                        self.noting(assigned_lits@, level),
                        explains(start.formula(), self.assignment@, self.implication_graph@),
                    decreases watchers@.len() - k,
                {
                    let clause_index = watchers[k];
                    let ghost rest = watchers@.skip(k as int);
                    proof {
                        assert(rest[0] == clause_index);
                        assert(rest.drop_first() == watchers@.skip(k as int + 1));
                        assert(clause_index < self.clauses@.len());
                    }
                    let ghost at_visit = *self;
                    let (conflict, new_reasons) = self.visit_watcher(
                        clause_index,
                        &mut queue,
                        &mut queued,
                        Ghost(start),
                        Ghost(lit),
                        Ghost(iterations as int + 1),
                        Ghost(reasons),
                        Ghost(rest),
                        Ghost(current_lit_idx as int),
                        Ghost(assigned_lits@),
                    );
                    if conflict {
                        proof {
                            assert(self.watching(clause_index as int, current_lit_idx as int));
                        }
                        self.retreat(
                            clause_index,
                            &assigned_lits,
                            level,
                            Ghost(start),
                            Ghost(lit),
                            Ghost(queue@),
                            Ghost(iterations as int + 1),
                            Ghost(reasons),
                        );
                        proof {
                            self.lemma_retreated_since(start, *old(self), lit);
                        }
                        return BcpResult::Conflict(clause_index);
                    }
                    proof {
                        reasons = new_reasons@;
                        assert(iterations < queue@.len()) by {
                            reveal(BCPSolver::queue_ok);
                        }
                        assert(self.noting(assigned_lits@, level)) by {
                            reveal(BCPSolver::noting);
                            assert(at_visit.noting(assigned_lits@, level));
                        }
                    }
                    k += 1;
                }
                proof {
                    self.lemma_walk_done(
                        queue@,
                        iterations as int + 1,
                        reasons,
                        watchers@.skip(k as int),
                        current_lit_idx as int,
                    );
                    self.lemma_settling_done(
                        queue@,
                        iterations as int + 1,
                        reasons,
                        watchers@.skip(k as int),
                    );
                }
                iterations += 1;
            }
        }
        proof {
            self.lemma_finish(start, lit, queue@, reasons, assigned_lits@, level);
            self.lemma_propagated_since(start, *old(self), lit, assigned_lits@);
        }
        BcpResult::Implications(assigned_lits)
    }
}

/// A sequence is its own prefix of full length.
pub proof fn lemma_take_all<T>(s: Seq<T>)
    ensures
        s.take(s.len() as int) == s,
{
}

/// The elements of a set of clause indices, each once, in ascending order.
pub fn snapshot(set: &BTreeSet<usize>) -> (v: Vec<usize>)
    ensures
        v@.to_set() == set@,
        v@.no_duplicates(),
        forall|i: int, j: int| 0 <= i < j < v@.len() ==> v@[i] < v@[j],
{
    broadcast use vstd::std_specs::btree::group_btree_axioms;
    broadcast use vstd::laws_cmp::group_laws_cmp;

    let mut v: Vec<usize> = Vec::new();
    let it0 = set.iter();
    assert(it0.remaining().unref().to_set() == set@);
    assert(it0.remaining().no_duplicates());
    assert(increasing_seq(it0.remaining()));
    for x in it: it0
        invariant
            it.seq() == it0.remaining(),
            v@ == it.seq().take(it.index()).unref(),
    {
        v.push(*x);
        assert(it.seq().take(it.index() + 1).unref() == it.seq().take(it.index()).unref().push(*x));
    }
    proof {
        lemma_take_all(it0.remaining());
    }
    assert(v@.no_duplicates()) by {
        assert forall|i: int, j: int| 0 <= i < v@.len() && 0 <= j < v@.len() && i != j implies v@[i]
            != v@[j] by {
            assert(it0.remaining()[i] != it0.remaining()[j]);
        }
    }
    proof {
        assert(vstd::laws_cmp::obeys_cmp::<usize>());
        assert(vstd::laws_cmp::obeys_cmp::<&usize>());
        vstd::std_specs::btree::axiom_increasing_seq_meaning::<&usize>(it0.remaining());
    }
    assert forall|i: int, j: int| 0 <= i < j < v@.len() implies v@[i] < v@[j] by {
        let x = &it0.remaining()[i];
        let y = &it0.remaining()[j];
        assert(x.cmp_spec(y) is Less);
    }
    v
}

} // verus!
