//! Why each step of a propagation keeps the invariant of the engine.

use vstd::prelude::*;
use crate::algorithm::bcp::{
    derivation,
    derived,
    derived_by,
    entailed,
    explains,
    falsified,
    follows,
    follows_from,
    forced,
    forced_by,
    grows,
    in_queue,
    justified,
    justifies,
    leans_on,
    lemma_in_queue,
    lemma_in_queue_grows,
    lemma_in_queue_witness,
    lemma_other_vars,
    linked,
    listing,
    may_watch,
    other_vars,
    pending_open,
    reasoned,
    refuted_by,
    same_models,
    value_literal,
    watch_ok,
    BCPSolver,
    Node,
};
use crate::algorithm::formula::{
    bools_of,
    clause_false,
    clause_true,
    extends,
    formula_true,
    lemma_extends_truth,
    lemma_false_clause_refutes,
    lit_true,
    refuted,
    total,
    truth_value,
    with_value,
};
use crate::algorithm::interface::{sign_value, Assignment, Lit};
use crate::algorithm::utility::clause_clean;

verus! {

/// An element of `rest` other than its first is an element of its tail.
pub proof fn lemma_rest_advance(rest: Seq<usize>, x: usize)
    requires
        rest.contains(x),
        rest.len() > 0,
        x != rest[0],
    ensures
        rest.drop_first().contains(x),
{
    let i = choose|i: int| 0 <= i < rest.len() && rest[i] == x;
    assert(rest.drop_first()[i - 1] == x);
}

/// Two literals of a clean clause that differ are on different variables.
pub proof fn lemma_clean_distinct(clause: Seq<Lit>, x: Lit, y: Lit)
    requires
        clause_clean(clause),
        clause.contains(x),
        clause.contains(y),
        x != y,
    ensures
        x.index != y.index,
        clause.len() > 1,
{
    let p = choose|p: int| 0 <= p < clause.len() && clause[p] == x;
    let q = choose|q: int| 0 <= q < clause.len() && clause[q] == y;
    if p < q {
        assert(clause[p].index != clause[q].index);
    } else {
        assert(clause[q].index != clause[p].index);
    }
}

impl BCPSolver {
    /// The watches of a clause are literals on variables of the problem.
    pub proof fn lemma_watch_in_range(&self, c: int)
        requires
            self.shape_ok(),
            0 <= c < self.clauses@.len(),
        ensures
            self.watch(c, 0).index < self.num_vars(),
            self.watch(c, 1).index < self.num_vars(),
            self.clauses@[c].clause@.contains(self.watch(c, 0)),
            self.clauses@[c].clause@.contains(self.watch(c, 1)),
            clause_clean(self.clauses@[c].clause@),
    {
        let clause = self.clauses@[c].clause@;
        assert(watch_ok(self.clauses@[c], self.num_vars()));
        let first_at = choose|p: int| 0 <= p < clause.len() && clause[p] == self.watch(c, 0);
        let second_at = choose|p: int| 0 <= p < clause.len() && clause[p] == self.watch(c, 1);
        assert(clause[first_at].index < self.num_vars());
        assert(clause[second_at].index < self.num_vars());
    }

    /// A clause that forces a literal which is false has only false
    /// literals, its watches among them.
    pub proof fn lemma_forced_false(&self, c: int, lit: Lit)
        requires
            self.shape_ok(),
            self.forces(c, lit),
            truth_value(lit, self.assignment@) == Assignment::Bot,
        ensures
            clause_false(self.formula()[c], self.assignment@),
            !self.live(c, self.assignment@),
            forall|x: Lit|
                self.clauses@[c].clause@.contains(x) ==> truth_value(x, self.assignment@)
                    == Assignment::Bot,
    {
        let clause = self.clauses@[c].clause@;
        self.lemma_watch_in_range(c);
        assert forall|x: Lit| clause.contains(x) implies truth_value(x, self.assignment@)
            == Assignment::Bot by {
            let p = choose|p: int| 0 <= p < clause.len() && clause[p] == x;
            if clause[p] != lit {
            }
        }
        assert forall|j: int| 0 <= j < clause.len() implies truth_value(
            #[trigger] self.formula()[c][j],
            self.assignment@,
        ) == Assignment::Bot by {
            assert(clause.contains(clause[j]));
        }
    }

    /// During a propagation, a model of the formula that agrees with the
    /// assignment at the start and makes the assumed literal true agrees
    /// with the current assignment.
    pub proof fn lemma_model_follows(
        &self,
        start: BCPSolver,
        lit: Lit,
        queue: Seq<Lit>,
        done: int,
        reasons: Seq<usize>,
        m: Seq<bool>,
    )
        requires
            self.same_problem(start),
            self.queue_ok(start, lit, queue, done, reasons),
            self.frame_ok(start, queue, done),
            entailed(start.formula(), start.assignment@, lit, queue),
            formula_true(start.formula(), m),
            extends(m, start.assignment@),
            lit_true(lit, m),
        ensures
            extends(m, self.assignment@),
    {
        reveal(BCPSolver::queue_ok);
        reveal(BCPSolver::frame_ok);
        reveal(entailed);
        let a = self.assignment@;
        assert forall|v: int| 0 <= v < a.len() && #[trigger] a[v] != Assignment::Unassigned implies m[v]
            == (a[v] == Assignment::Top) by {
            if a[v] != start.assignment@[v] {
                let j = lemma_in_queue_witness(queue, done, v);
                assert(truth_value(queue[j], a) == Assignment::Top);
                assert(lit_true(queue[j], m));
            } else {
                assert(start.assignment@[v] != Assignment::Unassigned);
            }
        }
    }

    /// The walk moves on: once the first clause of `rest` has been visited,
    /// the others still watch the variable.
    pub proof fn lemma_walk_advances(&self, before: BCPSolver, rest: Seq<usize>, cur: int)
        requires
            before.walk_ok(rest, cur),
            rest.len() > 0,
            self.assignment@ == before.assignment@,
            self.clauses@.len() == before.clauses@.len(),
            forall|c: int|
                0 <= c < before.clauses@.len() && c != rest[0] ==> self.clauses@[c]
                    == before.clauses@[c],
        ensures
            self.walk_ok(rest.drop_first(), cur),
    {
        let tail = rest.drop_first();
        assert forall|i: int| 0 <= i < tail.len() implies (#[trigger] tail[i]) < self.clauses@.len()
            && self.watching(tail[i] as int, cur) by {
            assert(tail[i] == rest[i + 1]);
            assert(rest[i + 1] != rest[0]);
            assert(self.clauses@[tail[i] as int] == before.clauses@[tail[i] as int]);
        }
        assert forall|i: int, j: int| 0 <= i < tail.len() && 0 <= j < tail.len() && i != j implies tail[i]
            != tail[j] by {
            assert(tail[i] == rest[i + 1] && tail[j] == rest[j + 1]);
        }
    }

    /// Once the first clause of `rest` is known to have a watch that is not
    /// false, every clause that still needs a visit is in the tail.
    pub proof fn lemma_flags_advance(
        &self,
        start: BCPSolver,
        lit: Lit,
        queue: Seq<Lit>,
        done: int,
        reasons: Seq<usize>,
        rest: Seq<usize>,
    )
        requires
            self.shape_ok(),
            self.queue_ok(start, lit, queue, done, reasons),
            done >= 1,
            self.flagged(queue, done, reasons, rest),
            rest.len() > 0,
            rest[0] < self.clauses@.len(),
            self.live(rest[0] as int, self.assignment@),
        ensures
            self.flagged(queue, done, reasons, rest.drop_first()),
    {
        reveal(BCPSolver::queue_ok);
        reveal(BCPSolver::flagged);
        let tail = rest.drop_first();
        let a = self.assignment@;
        assert forall|j: int|
            done <= j < queue.len() && truth_value(#[trigger] queue[j], a)
                == Assignment::Bot implies tail.contains(reasons[j]) by {
            assert(self.forces(reasons[j] as int, queue[j]));
            self.lemma_forced_false(reasons[j] as int, queue[j]);
            lemma_rest_advance(rest, reasons[j]);
        }
        assert forall|c: usize|
            c < self.clauses@.len() && !#[trigger] self.live(c as int, a) implies tail.contains(c) by {
            lemma_rest_advance(rest, c);
        }
    }

    /// A clause with a literal that may take over a watch, a false watch and
    /// no true watch forces no queued literal.
    pub proof fn lemma_not_forcing(&self, c: int, slot: int, found: Lit, queued: Lit)
        requires
            self.shape_ok(),
            0 <= c < self.clauses@.len(),
            0 <= slot < 2,
            truth_value(self.watch(c, slot), self.assignment@) == Assignment::Bot,
            truth_value(self.watch(c, 1 - slot), self.assignment@) != Assignment::Top,
            self.clauses@[c].clause@.contains(found),
            found.index < self.num_vars(),
            may_watch(found, self.watch(c, 1 - slot), self.assignment@),
        ensures
            !self.forces(c, queued),
            found != self.watch(c, 0),
            found != self.watch(c, 1),
            found.index != self.watch(c, 0).index,
            found.index != self.watch(c, 1).index,
    {
        let clause = self.clauses@[c].clause@;
        self.lemma_watch_in_range(c);
        lemma_clean_distinct(clause, found, self.watch(c, 0));
        lemma_clean_distinct(clause, found, self.watch(c, 1));
        if self.forces(c, queued) {
            let p = choose|p: int| 0 <= p < clause.len() && clause[p] == found;
            assert(clause[p] == queued);
        }
    }
}

impl BCPSolver {
    /// The store differs from `before` at most in the watches of clause `c`.
    pub open spec fn differs_in_watches_of(&self, before: BCPSolver, c: int) -> bool {
        &&& self.clauses@.len() == before.clauses@.len()
        &&& forall|d: int|
            0 <= d < before.clauses@.len() && d != c ==> self.clauses@[d] == before.clauses@[d]
        &&& self.formula() == before.formula()
        &&& self.assignment == before.assignment
        &&& self.implication_graph == before.implication_graph
        &&& self.learning == before.learning
        &&& self.originals == before.originals
        &&& self.ranks == before.ranks
        &&& self.epochs == before.epochs
        &&& self.clock == before.clock
    }

    /// Moving a false watch to a literal that may take it over keeps the
    /// invariant of the propagation and lets the walk move on.
    pub proof fn lemma_rewatch_keeps(
        &self,
        before: BCPSolver,
        start: BCPSolver,
        lit: Lit,
        queue: Seq<Lit>,
        done: int,
        reasons: Seq<usize>,
        rest: Seq<usize>,
        cur: int,
        slot: int,
        found: Lit,
    )
        requires
            before.propagating(start, lit, queue, done, reasons),
            before.position_ok(queue, done, reasons, rest, cur),
            done >= 1,
            rest.len() > 0,
            0 <= slot < 2,
            truth_value(before.watch(rest[0] as int, slot), before.assignment@) == Assignment::Bot,
            truth_value(before.watch(rest[0] as int, 1 - slot), before.assignment@)
                != Assignment::Top,
            before.clauses@[rest[0] as int].clause@.contains(found),
            may_watch(found, before.watch(rest[0] as int, 1 - slot), before.assignment@),
            self.shape_ok(),
            self.differs_in_watches_of(before, rest[0] as int),
            self.watch(rest[0] as int, slot) == found,
            self.watch(rest[0] as int, 1 - slot) == before.watch(rest[0] as int, 1 - slot),
        ensures
            self.propagating(start, lit, queue, done, reasons),
            self.position_ok(queue, done, reasons, rest.drop_first(), cur),
    {
        reveal(BCPSolver::queue_ok);
        reveal(BCPSolver::frame_ok);
        reveal(BCPSolver::flagged);
        let c = rest[0] as int;
        let a = self.assignment@;
        assert(rest[0] < before.clauses@.len() && before.watching(c, cur));
        before.lemma_watch_in_range(c);
        let clause = before.clauses@[c].clause@;
        let p = choose|p: int| 0 <= p < clause.len() && clause[p] == found;
        assert(clause[p].index < self.num_vars());
        assert(self.graph_ok());
        assert(self.queue_ok(start, lit, queue, done, reasons)) by {
            assert forall|j: int| 1 <= j < queue.len() implies self.forces(
                (#[trigger] reasons[j]) as int,
                queue[j],
            ) by {
                assert(before.forces(reasons[j] as int, queue[j]));
                before.lemma_not_forcing(c, slot, found, queue[j]);
                assert(self.clauses@[reasons[j] as int] == before.clauses@[reasons[j] as int]);
            }
        }
        assert(self.frame_ok(start, queue, done));
        assert(truth_value(found, start.assignment@) != Assignment::Bot) by {
            if start.assignment@[found.index as int] != Assignment::Unassigned {
                assert(a[found.index as int] == start.assignment@[found.index as int]);
            }
        }
        assert(self.watches_live(start.assignment@)) by {
            assert forall|d: int| 0 <= d < self.clauses@.len() implies #[trigger] self.live(
                d,
                start.assignment@,
            ) by {
                assert(before.live(d, start.assignment@));
                if d != c {
                    assert(self.clauses@[d] == before.clauses@[d]);
                }
            }
        }
        assert(self.live(c, a));
        assert(self.flagged(queue, done, reasons, rest)) by {
            assert forall|d: usize|
                d < self.clauses@.len() && !#[trigger] self.live(d as int, a) implies rest.contains(
                d,
            ) by {
                assert(self.clauses@[d as int] == before.clauses@[d as int]);
                assert(!before.live(d as int, a));
            }
        }
        self.lemma_walk_advances(before, rest, cur);
        self.lemma_flags_advance(start, lit, queue, done, reasons, rest);
    }

    /// A literal queued by a clause whose other literals are all false is
    /// true in every model that the propagation still allows.
    pub proof fn lemma_enqueue_entailed(
        &self,
        start: BCPSolver,
        lit: Lit,
        queue: Seq<Lit>,
        done: int,
        reasons: Seq<usize>,
        c: int,
        unit: Lit,
    )
        requires
            self.shape_ok(),
            self.same_problem(start),
            self.queue_ok(start, lit, queue, done, reasons),
            self.frame_ok(start, queue, done),
            entailed(start.formula(), start.assignment@, lit, queue),
            self.forces(c, unit),
        ensures
            entailed(start.formula(), start.assignment@, lit, queue.push(unit)),
    {
        reveal(entailed);
        let longer = queue.push(unit);
        let clause = self.clauses@[c].clause@;
        let a = self.assignment@;
        assert(watch_ok(self.clauses@[c], self.num_vars()));
        assert forall|m: Seq<bool>, j: int|
            #![trigger extends(m, start.assignment@), longer[j]]
            formula_true(start.formula(), m) && extends(m, start.assignment@) && lit_true(lit, m)
                && 0 <= j < longer.len() implies lit_true(longer[j], m) by {
            if j < queue.len() {
                assert(longer[j] == queue[j]);
                assert(lit_true(queue[j], m));
            } else {
                self.lemma_model_follows(start, lit, queue, done, reasons, m);
                assert(start.formula()[c] == clause);
                assert(clause_true(start.formula()[c], m));
                let p = choose|p: int| 0 <= p < clause.len() && lit_true(#[trigger] clause[p], m);
                if clause[p] != unit {
                    assert(clause[p].index < a.len());
                    lemma_extends_truth(clause[p], a, m);
                }
            }
        }
    }

    /// The queue stays in order when a forced literal on an open variable
    /// joins it.
    pub proof fn lemma_enqueue_queue(
        &self,
        before: BCPSolver,
        start: BCPSolver,
        lit: Lit,
        queue: Seq<Lit>,
        done: int,
        reasons: Seq<usize>,
        c: usize,
        unit: Lit,
    )
        requires
            before.queue_ok(start, lit, queue, done, reasons),
            self.clauses == before.clauses,
            self.assignment == before.assignment,
            before.forces(c as int, unit),
            unit.index < before.num_vars(),
            start.assignment@[unit.index as int] == Assignment::Unassigned,
        ensures
            self.queue_ok(start, lit, queue.push(unit), done, reasons.push(c)),
    {
        reveal(BCPSolver::queue_ok);
        let a = self.assignment@;
        let longer = queue.push(unit);
        let more = reasons.push(c);
        assert forall|j: int| 0 <= j < longer.len() implies (#[trigger] longer[j]).index
            < self.num_vars() && start.assignment@[longer[j].index as int]
            == Assignment::Unassigned by {
            if j < queue.len() {
                assert(longer[j] == queue[j]);
            }
        }
        assert forall|j: int| 0 <= j < done implies truth_value(#[trigger] longer[j], a)
            == Assignment::Top by {
            assert(longer[j] == queue[j]);
        }
        assert forall|j: int| 1 <= j < longer.len() implies self.forces(
            (#[trigger] more[j]) as int,
            longer[j],
        ) by {
            if j < queue.len() {
                assert(before.forces(reasons[j] as int, queue[j]));
                assert(longer[j] == queue[j] && more[j] == reasons[j]);
            } else {
                assert(longer[j] == unit && more[j] == c);
            }
        }
    }

    /// The frame of the propagation stays when a literal joins the queue.
    pub proof fn lemma_enqueue_frame(&self, start: BCPSolver, queue: Seq<Lit>, done: int, unit: Lit)
        requires
            self.frame_ok(start, queue, done),
            0 <= done <= queue.len(),
        ensures
            self.frame_ok(start, queue.push(unit), done),
    {
        reveal(BCPSolver::frame_ok);
        let longer = queue.push(unit);
        assert forall|v: int|
            0 <= v < self.num_vars() && #[trigger] self.assignment@[v]
                != start.assignment@[v] implies in_queue(longer, done, v) by {
            lemma_in_queue_grows(queue, done, v, longer, done);
        }
    }

    /// The clauses that still need a visit stay listed when a literal on an
    /// open variable joins the queue.
    pub proof fn lemma_enqueue_flagged(
        &self,
        before: BCPSolver,
        queue: Seq<Lit>,
        done: int,
        reasons: Seq<usize>,
        rest: Seq<usize>,
        c: usize,
        unit: Lit,
    )
        requires
            before.flagged(queue, done, reasons, rest),
            reasons.len() == queue.len(),
            0 <= done,
            unit.index < before.num_vars(),
            self.clauses == before.clauses,
            self.assignment == before.assignment,
            self.originals == before.originals,
            before.assignment@[unit.index as int] == Assignment::Unassigned,
        ensures
            self.flagged(queue.push(unit), done, reasons.push(c), rest),
    {
        reveal(BCPSolver::flagged);
        let a = self.assignment@;
        let longer = queue.push(unit);
        let more = reasons.push(c);
        assert forall|j: int|
            done <= j < longer.len() && truth_value(#[trigger] longer[j], a)
                == Assignment::Bot implies rest.contains(more[j]) by {
            if j < queue.len() {
                assert(longer[j] == queue[j] && more[j] == reasons[j]);
            }
        }
        assert forall|d: usize|
            d < self.clauses@.len() && !#[trigger] self.live(d as int, a) implies rest.contains(d) by {
            assert(!before.live(d as int, a));
        }
    }

    /// Queuing the last open literal of a clause keeps the invariant of the
    /// propagation and lets the walk move on.
    pub proof fn lemma_enqueue_keeps(
        &self,
        start: BCPSolver,
        lit: Lit,
        queue: Seq<Lit>,
        done: int,
        reasons: Seq<usize>,
        rest: Seq<usize>,
        cur: int,
        unit: Lit,
    )
        requires
            self.propagating(start, lit, queue, done, reasons),
            self.position_ok(queue, done, reasons, rest, cur),
            done >= 1,
            rest.len() > 0,
            self.forces(rest[0] as int, unit),
            unit.index < self.num_vars(),
            self.assignment@[unit.index as int] == Assignment::Unassigned,
        ensures
            self.propagating(start, lit, queue.push(unit), done, reasons.push(rest[0])),
            self.position_ok(
                queue.push(unit),
                done,
                reasons.push(rest[0]),
                rest.drop_first(),
                cur,
            ),
    {
        let c = rest[0] as int;
        let a = self.assignment@;
        let longer = queue.push(unit);
        let more = reasons.push(rest[0]);
        assert(start.assignment@[unit.index as int] == Assignment::Unassigned) by {
            reveal(BCPSolver::frame_ok);
            assert(self.keeps_assigned(start));
        }
        assert(0 <= done <= queue.len() && reasons.len() == queue.len()) by {
            reveal(BCPSolver::queue_ok);
        }
        self.lemma_enqueue_queue(*self, start, lit, queue, done, reasons, rest[0], unit);
        self.lemma_enqueue_frame(start, queue, done, unit);
        self.lemma_enqueue_entailed(start, lit, queue, done, reasons, c, unit);
        self.lemma_enqueue_flagged(*self, queue, done, reasons, rest, rest[0], unit);
        assert(self.live(c, a)) by {
            self.lemma_watch_in_range(c);
        }
        self.lemma_walk_advances(*self, rest, cur);
        self.lemma_flags_advance(start, lit, longer, done, more, rest);
    }

    /// A visit that changes nothing, at a clause with a watch that is not
    /// false, lets the walk move on.
    pub proof fn lemma_skip_keeps(
        &self,
        start: BCPSolver,
        lit: Lit,
        queue: Seq<Lit>,
        done: int,
        reasons: Seq<usize>,
        rest: Seq<usize>,
        cur: int,
    )
        requires
            self.propagating(start, lit, queue, done, reasons),
            self.position_ok(queue, done, reasons, rest, cur),
            done >= 1,
            rest.len() > 0,
            self.live(rest[0] as int, self.assignment@),
        ensures
            self.position_ok(queue, done, reasons, rest.drop_first(), cur),
    {
        assert(rest[0] < self.clauses@.len() && self.watching(rest[0] as int, cur));
        self.lemma_walk_advances(*self, rest, cur);
        self.lemma_flags_advance(start, lit, queue, done, reasons, rest);
    }
}

/// A literal that has a truth value keeps it when the assignment grows.
pub proof fn lemma_truth_stays(lit: Lit, a: Seq<Assignment>, b: Seq<Assignment>)
    requires
        grows(a, b),
        lit.index < a.len(),
        truth_value(lit, a) != Assignment::Unassigned,
    ensures
        truth_value(lit, b) == truth_value(lit, a),
{
    assert(a[lit.index as int] != Assignment::Unassigned);
}

impl BCPSolver {
    /// The store differs from `before` in that `lit`, on a variable that was
    /// open, has been made true in a propagation that began at time `epoch`,
    /// and that `node` has been written for its variable.
    pub open spec fn differs_in_value_of(
        &self,
        before: BCPSolver,
        lit: Lit,
        epoch: nat,
        node: Node,
    ) -> bool {
        &&& self.clauses == before.clauses
        &&& self.watches_for_var == before.watches_for_var
        &&& before.assignment@[lit.index as int] == Assignment::Unassigned
        &&& self.implication_graph@ == before.implication_graph@.update(
            lit.index as int,
            Some(node),
        )
        &&& self.learning == before.learning
        &&& self.originals == before.originals
        &&& self.ranks@ == before.ranks@.update(lit.index as int, before.clock@)
        &&& self.epochs@ == before.epochs@.update(lit.index as int, epoch)
        &&& self.clock@ == before.clock@ + 1
        &&& self.assignment@ == before.assignment@.update(lit.index as int, sign_value(lit.sign))
        &&& forall|k: int|
            0 <= k < node.reason@.len() ==> (#[trigger] node.reason@[k]) < before.num_vars()
                && before.assignment@[node.reason@[k] as int] != Assignment::Unassigned
    }

    /// The propagation starts with the assumed literal alone in the queue.
    pub proof fn lemma_start(&self, lit: Lit)
        requires
            self.wf(),
            lit.index < self.num_vars(),
            self.assignment@[lit.index as int] == Assignment::Unassigned,
        ensures
            self.propagating(*self, lit, seq![lit], 0, seq![0usize]),
            pending_open(seq![lit], 0, self.assignment@),
    {
        reveal(BCPSolver::queue_ok);
        reveal(BCPSolver::frame_ok);
        reveal(entailed);
        assert(self.nodes_match());
    }

    /// Making the next queued literal true keeps the invariant of the
    /// propagation, and every clause that needs a visit watches the
    /// variable just set.
    pub proof fn lemma_pop_keeps(
        &self,
        before: BCPSolver,
        start: BCPSolver,
        lit: Lit,
        queue: Seq<Lit>,
        it: int,
        reasons: Seq<usize>,
        watchers: Seq<usize>,
        node: Node,
    )
        requires
            before.propagating(start, lit, queue, it, reasons),
            before.watches_live(before.assignment@),
            pending_open(queue, it, before.assignment@),
            0 <= it < queue.len(),
            queue[it].index < before.num_vars(),
            self.differs_in_value_of(before, queue[it], start.clock@, node),
            watchers.to_set() == before.watches_for_var@[queue[it].index as int]@,
            watchers.no_duplicates(),
        ensures
            self.propagating(start, lit, queue, it + 1, reasons),
            self.position_ok(queue, it + 1, reasons, watchers, queue[it].index as int),
            grows(before.assignment@, self.assignment@),
    {
        let cur = queue[it];
        let a = before.assignment@;
        let b = self.assignment@;
        assert(grows(a, b));
        assert(self.shape_ok()) by {
            assert(before.index_ok());
            assert forall|v: int, d: usize|
                #![trigger self.watches_for_var@[v]@.contains(d)]
                0 <= v < self.watches_for_var@.len() implies (self.watches_for_var@[v]@.contains(d)
                <==> d < self.clauses@.len() && self.watching(d as int, v)) by {
                assert(before.watches_for_var@[v]@.contains(d) <==> d < before.clauses@.len()
                    && before.watching(d as int, v));
            }
        }
        self.lemma_pop_graph(before, start, queue, it, node);
        assert(self.formula() == before.formula());
        self.lemma_pop_queue(before, start, lit, queue, it, reasons, node);
        self.lemma_pop_frame(before, start, lit, queue, it, reasons, node);
        assert(self.watches_live(start.assignment@)) by {
            assert forall|d: int| 0 <= d < self.clauses@.len() implies #[trigger] self.live(
                d,
                start.assignment@,
            ) by {
                assert(before.live(d, start.assignment@));
            }
        }
        self.lemma_pop_position(before, start, lit, queue, it, reasons, watchers, node);
    }

    /// The implication graph stays in order when the next queued literal is
    /// made true and its node is written.
    pub proof fn lemma_pop_graph(
        &self,
        before: BCPSolver,
        start: BCPSolver,
        queue: Seq<Lit>,
        it: int,
        node: Node,
    )
        requires
            before.shape_ok(),
            before.graph_ok(),
            before.frame_ok(start, queue, it),
            0 <= it < queue.len(),
            queue[it].index < before.num_vars(),
            self.differs_in_value_of(before, queue[it], start.clock@, node),
        ensures
            self.graph_ok(),
    {
        let cur = queue[it].index as int;
        assert forall|v: int| 0 <= v < self.num_vars() implies (
        #[trigger] self.implication_graph@[v] matches Some(node) ==> self.ranks@[v] < self.clock@
            && forall|k: int|
            0 <= k < node.reason@.len() ==> {
                let r = #[trigger] node.reason@[k];
                &&& r < self.num_vars()
                &&& self.assignment@[r as int] != Assignment::Unassigned
                &&& self.ranks@[r as int] < self.ranks@[v]
            }) by {
            if self.implication_graph@[v] is Some {
                let found = self.implication_graph@[v]->0;
                if v != cur {
                    assert(before.implication_graph@[v] == Some(found));
                }
                assert forall|k: int| 0 <= k < found.reason@.len() implies {
                    let r = #[trigger] found.reason@[k];
                    &&& r < self.num_vars()
                    &&& self.assignment@[r as int] != Assignment::Unassigned
                    &&& self.ranks@[r as int] < self.ranks@[v]
                } by {
                    let r = found.reason@[k] as int;
                    assert(before.assignment@[r] != Assignment::Unassigned);
                    assert(r != cur);
                    assert(before.implication_graph@[r] is Some) by {
                        reveal(BCPSolver::frame_ok);
                    }
                }
            }
        }
    }

    /// The queue stays in order when its next literal is made true.
    pub proof fn lemma_pop_queue(
        &self,
        before: BCPSolver,
        start: BCPSolver,
        lit: Lit,
        queue: Seq<Lit>,
        it: int,
        reasons: Seq<usize>,
        node: Node,
    )
        requires
            before.shape_ok(),
            before.queue_ok(start, lit, queue, it, reasons),
            0 <= it < queue.len(),
            self.differs_in_value_of(before, queue[it], start.clock@, node),
            grows(before.assignment@, self.assignment@),
        ensures
            self.queue_ok(start, lit, queue, it + 1, reasons),
    {
        reveal(BCPSolver::queue_ok);
        let a = before.assignment@;
        let b = self.assignment@;
        assert forall|j: int| 0 <= j < it + 1 implies truth_value(#[trigger] queue[j], b)
            == Assignment::Top by {
            if j < it {
                lemma_truth_stays(queue[j], a, b);
            }
        }
        assert forall|j: int| 1 <= j < queue.len() implies self.forces(
            (#[trigger] reasons[j]) as int,
            queue[j],
        ) by {
            let c = reasons[j] as int;
            assert(before.forces(c, queue[j]));
            let clause = before.clauses@[c].clause@;
            assert(watch_ok(before.clauses@[c], before.num_vars()));
            assert forall|p: int|
                0 <= p < clause.len() && #[trigger] clause[p] != queue[j] implies truth_value(
                clause[p],
                b,
            ) == Assignment::Bot by {
                lemma_truth_stays(clause[p], a, b);
            }
        }
    }

    /// The frame of the propagation stays when the next queued literal is
    /// made true.
    pub proof fn lemma_pop_frame(
        &self,
        before: BCPSolver,
        start: BCPSolver,
        lit: Lit,
        queue: Seq<Lit>,
        it: int,
        reasons: Seq<usize>,
        node: Node,
    )
        requires
            before.queue_ok(start, lit, queue, it, reasons),
            before.frame_ok(start, queue, it),
            before.same_problem(start),
            before.shape_ok(),
            0 <= it < queue.len(),
            self.differs_in_value_of(before, queue[it], start.clock@, node),
        ensures
            self.frame_ok(start, queue, it + 1),
    {
        reveal(BCPSolver::queue_ok);
        reveal(BCPSolver::frame_ok);
        let cur = queue[it];
        assert forall|v: int|
            0 <= v < self.num_vars() && #[trigger] self.assignment@[v]
                != start.assignment@[v] implies in_queue(queue, it + 1, v) by {
            if v == cur.index {
                lemma_in_queue(queue, it + 1, it);
            } else {
                assert(before.assignment@[v] != start.assignment@[v]);
                lemma_in_queue_grows(queue, it, v, queue, it + 1);
            }
        }
        assert forall|v: int|
            0 <= v < self.num_vars() && #[trigger] self.assignment@[v]
                != Assignment::Unassigned implies self.implication_graph@[v] is Some by {
            if v != cur.index {
                assert(before.assignment@[v] != Assignment::Unassigned);
            }
        }
        assert forall|v: int|
            0 <= v < self.num_vars() && (#[trigger] self.implication_graph@[v])
                is Some implies self.assignment@[v] != Assignment::Unassigned by {
            if v != cur.index {
                assert(before.implication_graph@[v] is Some);
            }
        }
        assert(self.keeps_assigned(start)) by {
            assert(before.keeps_assigned(start));
            assert(start.assignment@[cur.index as int] == Assignment::Unassigned);
        }
    }

    /// A queued literal whose variable has a value by the time its turn
    /// comes is true already, and is passed by.
    pub proof fn lemma_pass_by(
        &self,
        start: BCPSolver,
        lit: Lit,
        queue: Seq<Lit>,
        it: int,
        reasons: Seq<usize>,
    )
        requires
            self.propagating(start, lit, queue, it, reasons),
            pending_open(queue, it, self.assignment@),
            0 <= it < queue.len(),
            self.assignment@[queue[it].index as int] != Assignment::Unassigned,
        ensures
            self.propagating(start, lit, queue, it + 1, reasons),
            pending_open(queue, it + 1, self.assignment@),
    {
        assert(self.queue_ok(start, lit, queue, it + 1, reasons)) by {
            reveal(BCPSolver::queue_ok);
            assert(truth_value(queue[it], self.assignment@) != Assignment::Bot);
        }
        assert(self.frame_ok(start, queue, it + 1)) by {
            reveal(BCPSolver::frame_ok);
            assert forall|v: int|
                0 <= v < self.num_vars() && #[trigger] self.assignment@[v]
                    != start.assignment@[v] implies in_queue(queue, it + 1, v) by {
                lemma_in_queue_grows(queue, it, v, queue, it + 1);
            }
        }
    }

    /// The reason queued beside a literal lists variables that have a
    /// value.
    pub proof fn lemma_reason_assigned(
        &self,
        start: BCPSolver,
        lit: Lit,
        queue: Seq<Lit>,
        it: int,
        reasons: Seq<usize>,
        queued: Seq<Vec<usize>>,
    )
        requires
            self.propagating(start, lit, queue, it, reasons),
            reasoned(start.formula(), queue, reasons, queued),
            0 <= it < queue.len(),
        ensures
            forall|k: int|
                0 <= k < queued[it]@.len() ==> (#[trigger] queued[it]@[k]) < self.num_vars()
                    && self.assignment@[queued[it]@[k] as int] != Assignment::Unassigned,
    {
        reveal(reasoned);
        if it > 0 {
            let c = reasons[it] as int;
            let clause = start.formula()[c];
            assert(self.forces(c, queue[it])) by {
                reveal(BCPSolver::queue_ok);
            }
            assert(clause == self.clauses@[c].clause@);
            assert(watch_ok(self.clauses@[c], self.num_vars()));
            lemma_other_vars(clause, queue[it]);
            assert forall|k: int| 0 <= k < queued[it]@.len() implies (#[trigger] queued[it]@[k])
                < self.num_vars() && self.assignment@[queued[it]@[k] as int]
                != Assignment::Unassigned by {
                let p = choose|p: int|
                    0 <= p < clause.len() && clause[p] != queue[it] && (#[trigger] clause[p]).index
                        == other_vars(clause, queue[it])[k];
                assert(truth_value(clause[p], self.assignment@) == Assignment::Bot);
            }
        }
    }

    /// Once the next queued literal is true, every clause with two
    /// false watches and the forcing clause of every queued literal that is
    /// now false watch the variable just set.
    pub proof fn lemma_pop_position(
        &self,
        before: BCPSolver,
        start: BCPSolver,
        lit: Lit,
        queue: Seq<Lit>,
        it: int,
        reasons: Seq<usize>,
        watchers: Seq<usize>,
        node: Node,
    )
        requires
            before.shape_ok(),
            before.queue_ok(start, lit, queue, it, reasons),
            before.watches_live(before.assignment@),
            pending_open(queue, it, before.assignment@),
            0 <= it < queue.len(),
            queue[it].index < before.num_vars(),
            self.differs_in_value_of(before, queue[it], start.clock@, node),
            grows(before.assignment@, self.assignment@),
            watchers.to_set() == before.watches_for_var@[queue[it].index as int]@,
            watchers.no_duplicates(),
        ensures
            self.position_ok(queue, it + 1, reasons, watchers, queue[it].index as int),
    {
        reveal(BCPSolver::queue_ok);
        reveal(BCPSolver::flagged);
        broadcast use vstd::seq_lib::group_seq_properties;

        let cur = queue[it].index as int;
        let a = before.assignment@;
        let b = self.assignment@;
        assert(before.index_ok());
        assert forall|i: int| 0 <= i < watchers.len() implies (#[trigger] watchers[i])
            < self.clauses@.len() && self.watching(watchers[i] as int, cur) by {
            assert(watchers.to_set().contains(watchers[i]));
            assert(before.watches_for_var@[cur]@.contains(watchers[i]));
        }
        assert forall|j: int|
            it + 1 <= j < queue.len() && truth_value(#[trigger] queue[j], b)
                == Assignment::Bot implies watchers.contains(reasons[j]) by {
            assert(truth_value(queue[j], a) != Assignment::Bot);
            assert(queue[j].index == cur);
            assert(before.forces(reasons[j] as int, queue[j]));
            assert(before.watching(reasons[j] as int, cur));
            assert(before.watches_for_var@[cur]@.contains(reasons[j]));
            assert(watchers.to_set().contains(reasons[j]));
        }
        assert forall|d: usize|
            d < self.clauses@.len() && !#[trigger] self.live(d as int, b) implies watchers.contains(
            d,
        ) by {
            assert(before.live(d as int, a));
            before.lemma_watch_in_range(d as int);
            assert(before.watching(d as int, cur));
            assert(before.watches_for_var@[cur]@.contains(d));
            assert(watchers.to_set().contains(d));
        }
    }

    /// When no clause is left to visit, no queued literal is false and no
    /// clause has two false watches.
    pub proof fn lemma_walk_done(
        &self,
        queue: Seq<Lit>,
        done: int,
        reasons: Seq<usize>,
        rest: Seq<usize>,
        cur: int,
    )
        requires
            self.shape_ok(),
            self.position_ok(queue, done, reasons, rest, cur),
            rest.len() == 0,
        ensures
            pending_open(queue, done, self.assignment@),
            self.watches_live(self.assignment@),
    {
        reveal(BCPSolver::flagged);
        assert(self.clauses.len() == self.clauses@.len());
        assert forall|j: int| done <= j < queue.len() implies truth_value(
            #[trigger] queue[j],
            self.assignment@,
        ) != Assignment::Bot by {
            if truth_value(queue[j], self.assignment@) == Assignment::Bot {
                assert(rest.contains(reasons[j]));
            }
        }
        assert forall|c: int| 0 <= c < self.clauses@.len() implies #[trigger] self.live(
            c,
            self.assignment@,
        ) by {
            if !self.live(c, self.assignment@) {
                assert(c < self.clauses@.len());
                assert(rest.contains(c as usize));
            }
        }
    }

    /// During a propagation the variables with a node are those with a
    /// value.
    pub proof fn lemma_finish_nodes(&self, start: BCPSolver, queue: Seq<Lit>, done: int)
        requires
            self.frame_ok(start, queue, done),
        ensures
            self.nodes_match(),
    {
        reveal(BCPSolver::frame_ok);
    }

    /// What the queue says of the literals that a finished propagation set.
    pub proof fn lemma_finish_queue(
        &self,
        start: BCPSolver,
        lit: Lit,
        queue: Seq<Lit>,
        reasons: Seq<usize>,
    )
        requires
            self.queue_ok(start, lit, queue, queue.len() as int, reasons),
        ensures
            forall|j: int|
                0 <= j < queue.len() ==> (#[trigger] queue[j]).index < self.num_vars()
                    && start.assignment@[queue[j].index as int] == Assignment::Unassigned
                    && truth_value(queue[j], self.assignment@) == Assignment::Top,
            queue.len() > 0,
            queue[0] == lit,
    {
        reveal(BCPSolver::queue_ok);
    }

    /// A finished propagation changed only variables of queued literals.
    pub proof fn lemma_finish_frame(&self, start: BCPSolver, queue: Seq<Lit>)
        requires
            self.frame_ok(start, queue, queue.len() as int),
        ensures
            forall|v: int|
                0 <= v < self.num_vars() && #[trigger] self.assignment@[v] != start.assignment@[v]
                    ==> in_queue(queue, queue.len() as int, v),
            self.keeps_assigned(start),
    {
        reveal(BCPSolver::frame_ok);
    }

    /// Every value that a propagation has set holds in every model of the
    /// formula that agrees with the assignment at the start and with the
    /// assumed literal.
    pub proof fn lemma_finish_follows(
        &self,
        start: BCPSolver,
        lit: Lit,
        queue: Seq<Lit>,
        done: int,
        reasons: Seq<usize>,
    )
        requires
            self.same_problem(start),
            self.queue_ok(start, lit, queue, done, reasons),
            self.frame_ok(start, queue, done),
            entailed(start.formula(), start.assignment@, lit, queue),
        ensures
            follows(start.formula(), start.assignment@, lit, self.assignment@),
    {
        assert forall|m: Seq<bool>|
            #[trigger] extends(m, start.assignment@) && formula_true(start.formula(), m)
                && lit_true(lit, m) implies extends(m, self.assignment@) by {
            self.lemma_model_follows(start, lit, queue, done, reasons, m);
        }
    }

    /// A propagation whose queue is used up leaves the engine in order, with
    /// every listed literal true and its node written.
    pub proof fn lemma_finish(
        &self,
        start: BCPSolver,
        lit: Lit,
        queue: Seq<Lit>,
        reasons: Seq<usize>,
        made: Seq<Lit>,
        level: usize,
    )
        requires
            start.wf(),
            self.propagating(start, lit, queue, queue.len() as int, reasons),
            self.watches_live(self.assignment@),
            self.supporting(start),
            self.settled(queue, queue.len() as int, reasons),
            listing(start.formula(), start.assignment@, queue, queue.len() as int, made),
            self.noting(made, level),
            explains(start.formula(), self.assignment@, self.implication_graph@),
        ensures
            self.wf(),
            self.propagated(start, lit, made),
            self.noted(made, level),
    {
        assert(self.keeps_assigned(start)) by {
            reveal(BCPSolver::frame_ok);
        }
        self.lemma_settled_at_end(start, queue, reasons);
        self.lemma_finish_nodes(start, queue, queue.len() as int);
        self.lemma_finish_queue(start, lit, queue, reasons);
        self.lemma_finish_frame(start, queue);
        self.lemma_finish_follows(start, lit, queue, queue.len() as int, reasons);
        reveal(listing);
        assert(queue.take(queue.len() as int) == queue);
        assert forall|j: int| 0 <= j < made.len() implies (#[trigger] made[j]).index
            < self.num_vars() && start.assignment@[made[j].index as int] == Assignment::Unassigned
            && truth_value(made[j], self.assignment@) == Assignment::Top by {
            assert(queue.contains(made[j]));
        }
        assert forall|v: int|
            0 <= v < self.num_vars() && #[trigger] self.assignment@[v]
                != start.assignment@[v] implies in_queue(made, made.len() as int, v) by {
            let j = lemma_in_queue_witness(queue, queue.len() as int, v);
            assert(made.contains(queue[j]));
            let k = choose|k: int| 0 <= k < made.len() && made[k] == queue[j];
            lemma_in_queue(made, made.len() as int, k);
        }
        assert(self.noted(made, level)) by {
            reveal(BCPSolver::noting);
            reveal(explains);
            assert forall|k: int| 0 <= k < made.len() implies justified(
                self.formula(),
                self.assignment@,
                self.implication_graph@,
                (#[trigger] made[k]).index as int,
            ) by {
                assert(truth_value(made[k], self.assignment@) == Assignment::Top);
                assert(self.assignment@[made[k].index as int] != Assignment::Unassigned);
            }
        }
    }

    /// A clause that is false during a propagation shows that no model of
    /// the formula agrees with the assignment at the start and with the
    /// assumed literal.
    pub proof fn lemma_conflict_refutes(
        &self,
        start: BCPSolver,
        lit: Lit,
        queue: Seq<Lit>,
        done: int,
        reasons: Seq<usize>,
        c: int,
    )
        requires
            self.propagating(start, lit, queue, done, reasons),
            0 <= c < self.clauses@.len(),
            clause_false(self.formula()[c], self.assignment@),
            lit.index < start.num_vars(),
            start.assignment@[lit.index as int] == Assignment::Unassigned,
        ensures
            refuted(
                start.formula(),
                with_value(start.assignment@, lit.index as int, sign_value(lit.sign)),
            ),
    {
        let assumed = with_value(start.assignment@, lit.index as int, sign_value(lit.sign));
        assert(watch_ok(self.clauses@[c], self.num_vars()));
        assert forall|m: Seq<bool>| #[trigger] extends(m, assumed) implies !formula_true(
            start.formula(),
            m,
        ) by {
            if formula_true(start.formula(), m) {
                assert(assumed[lit.index as int] != Assignment::Unassigned);
                assert(lit_true(lit, m));
                assert(extends(m, start.assignment@)) by {
                    assert forall|v: int|
                        0 <= v < start.assignment@.len() && #[trigger] start.assignment@[v]
                            != Assignment::Unassigned implies m[v] == (start.assignment@[v]
                        == Assignment::Top) by {
                        assert(assumed[v] != Assignment::Unassigned);
                    }
                }
                self.lemma_model_follows(start, lit, queue, done, reasons, m);
                lemma_false_clause_refutes(self.formula()[c], self.assignment@, m);
                assert(clause_true(start.formula()[c], m));
            }
        }
    }
}

impl BCPSolver {
    /// The store came from `mid` by taking value and node from the variable
    /// of each literal of the list.
    pub open spec fn unassigned_from(&self, mid: BCPSolver, queue: Seq<Lit>) -> bool {
        &&& self.num_vars() == mid.num_vars()
        &&& self.implication_graph@.len() == mid.num_vars()
        &&& forall|v: int|
            0 <= v < mid.num_vars() ==> if in_queue(queue, queue.len() as int, v) {
                #[trigger] self.assignment@[v] == Assignment::Unassigned
                    && self.implication_graph@[v] is None
            } else {
                self.assignment@[v] == mid.assignment@[v] && self.implication_graph@[v]
                    == mid.implication_graph@[v]
            }
        &&& self.clauses == mid.clauses
        &&& self.watches_for_var == mid.watches_for_var
        &&& self.learning == mid.learning
        &&& self.originals == mid.originals
        &&& self.ranks == mid.ranks
        &&& self.epochs == mid.epochs
        &&& self.clock == mid.clock
    }

    /// Unassigning every literal that a propagation has made true gives back
    /// the assignment and the implication graph of its start.
    pub proof fn lemma_retreat_values(
        &self,
        pre: BCPSolver,
        start: BCPSolver,
        lit: Lit,
        queue: Seq<Lit>,
        done: int,
        reasons: Seq<usize>,
        made: Seq<Lit>,
    )
        requires
            start.wf(),
            pre.same_problem(start),
            pre.shape_ok(),
            pre.queue_ok(start, lit, queue, done, reasons),
            pre.frame_ok(start, queue, done),
            listing(start.formula(), start.assignment@, queue, done, made),
            self.unassigned_from(pre, made),
        ensures
            self.assignment@ == start.assignment@,
            self.implication_graph@ == start.implication_graph@,
            self.keeps_assigned(start),
    {
        reveal(BCPSolver::queue_ok);
        reveal(BCPSolver::frame_ok);
        reveal(listing);
        assert(start.nodes_match());
        assert forall|v: int| 0 <= v < start.num_vars() implies self.assignment@[v]
            == start.assignment@[v] && self.implication_graph@[v]
            == start.implication_graph@[v] by {
            if in_queue(made, made.len() as int, v) {
                let k = lemma_in_queue_witness(made, made.len() as int, v);
                assert(queue.take(done).contains(made[k]));
                let i = choose|i: int|
                    0 <= i < queue.take(done).len() && queue.take(done)[i] == made[k];
                assert(queue[i] == made[k]);
                assert(start.assignment@[queue[i].index as int] == Assignment::Unassigned);
                assert(start.implication_graph@[v] is None);
                assert(self.assignment@[v] == Assignment::Unassigned);
                assert(self.implication_graph@[v] is None);
            } else {
                assert(self.assignment@[v] == pre.assignment@[v]);
                assert(self.implication_graph@[v] == pre.implication_graph@[v]);
                if pre.assignment@[v] != start.assignment@[v] {
                    let j = lemma_in_queue_witness(queue, done, v);
                    assert(made.contains(queue[j]));
                    let k = choose|k: int| 0 <= k < made.len() && made[k] == queue[j];
                    lemma_in_queue(made, made.len() as int, k);
                }
                if start.assignment@[v] == Assignment::Unassigned {
                    assert(pre.implication_graph@[v] is None);
                } else {
                    assert(pre.implication_graph@[v] == start.implication_graph@[v]);
                }
            }
        }
        assert(self.assignment@ =~= start.assignment@);
        assert(self.implication_graph@ =~= start.implication_graph@);
        assert(pre.keeps_assigned(start));
    }

    /// After the retreat from a conflict the engine is in order again.
    pub proof fn lemma_retreat(
        &self,
        pre: BCPSolver,
        start: BCPSolver,
        lit: Lit,
        queue: Seq<Lit>,
        done: int,
        reasons: Seq<usize>,
        made: Seq<Lit>,
    )
        requires
            start.wf(),
            pre.propagating(start, lit, queue, done, reasons),
            pre.supporting(start),
            listing(start.formula(), start.assignment@, queue, done, made),
            self.unassigned_from(pre, made),
        ensures
            self.wf(),
            self.assignment@ == start.assignment@,
            self.implication_graph@ == start.implication_graph@,
            self.keeps_assigned(start),
            self.formula() == start.formula(),
    {
        self.lemma_retreat_values(pre, start, lit, queue, done, reasons, made);
        lemma_explains_extends(
            start.formula(),
            self.formula(),
            start.assignment@,
            start.implication_graph@,
        );
        assert(pre.keeps_assigned(start)) by {
            reveal(BCPSolver::frame_ok);
        }
        self.lemma_retreat_backed(pre, start);
        assert(self.shape_ok()) by {
            assert(pre.index_ok());
            assert forall|v: int, d: usize|
                #![trigger self.watches_for_var@[v]@.contains(d)]
                0 <= v < self.watches_for_var@.len() implies (self.watches_for_var@[v]@.contains(d)
                <==> d < self.clauses@.len() && self.watching(d as int, v)) by {
                assert(pre.watches_for_var@[v]@.contains(d) <==> d < pre.clauses@.len()
                    && pre.watching(d as int, v));
            }
        }
        assert(self.graph_ok()) by {
            assert(start.graph_ok());
            assert(start.nodes_match());
            assert forall|v: int| 0 <= v < self.num_vars() implies (
            #[trigger] self.implication_graph@[v] matches Some(node) ==> self.ranks@[v]
                < self.clock@ && forall|k: int|
                0 <= k < node.reason@.len() ==> {
                    let r = #[trigger] node.reason@[k];
                    &&& r < self.num_vars()
                    &&& self.assignment@[r as int] != Assignment::Unassigned
                    &&& self.ranks@[r as int] < self.ranks@[v]
                }) by {
                if self.implication_graph@[v] is Some {
                    assert(start.implication_graph@[v] is Some);
                    assert(start.assignment@[v] != Assignment::Unassigned);
                    let node = self.implication_graph@[v]->0;
                    assert forall|k: int| 0 <= k < node.reason@.len() implies {
                        let r = #[trigger] node.reason@[k];
                        &&& r < self.num_vars()
                        &&& self.assignment@[r as int] != Assignment::Unassigned
                        &&& self.ranks@[r as int] < self.ranks@[v]
                    } by {
                        let r = node.reason@[k];
                        assert(start.assignment@[r as int] != Assignment::Unassigned);
                    }
                }
            }
        }
        assert(self.nodes_match()) by {
            assert(start.nodes_match());
        }
        assert(self.watches_live(self.assignment@)) by {
            assert forall|c: int| 0 <= c < self.clauses@.len() implies #[trigger] self.live(
                c,
                self.assignment@,
            ) by {
                assert(pre.live(c, start.assignment@));
            }
        }
    }

}

impl BCPSolver {
    /// What a search below a propagation leaves behind when it fails: the
    /// assignment and the implication graph of `before`, the same problem,
    /// and the clauses of `before`, maybe followed by learned ones.
    pub open spec fn restored(&self, before: BCPSolver) -> bool {
        &&& self.num_vars() == before.num_vars()
        &&& self.learning == before.learning
        &&& self.originals == before.originals
        &&& self.assignment@ == before.assignment@
        &&& self.implication_graph@ == before.implication_graph@
        &&& self.keeps_assigned(before)
        &&& self.clauses@.len() >= before.clauses@.len()
        &&& self.formula().take(before.formula().len() as int) == before.formula()
    }

    /// Under a total assignment with the engine in order, every original
    /// clause is true.
    pub proof fn lemma_total_model(&self)
        requires
            self.wf(),
            total(self.assignment@),
        ensures
            formula_true(self.original_formula(), bools_of(self.assignment@)),
            extends(bools_of(self.assignment@), self.assignment@),
    {
        let a = self.assignment@;
        let m = bools_of(a);
        let f = self.original_formula();
        assert forall|c: int| 0 <= c < f.len() implies clause_true(#[trigger] f[c], m) by {
            assert(self.live(c, a));
            self.lemma_watch_in_range(c);
            let clause = self.clauses@[c].clause@;
            assert(f[c] == clause);
            let w = if truth_value(self.watch(c, 0), a) != Assignment::Bot {
                self.watch(c, 0)
            } else {
                self.watch(c, 1)
            };
            assert(a[w.index as int] != Assignment::Unassigned);
            assert(lit_true(w, m));
            let p = choose|p: int| 0 <= p < clause.len() && clause[p] == w;
            assert(lit_true(f[c][p], m));
        }
    }

    /// Since `base`, propagations have set the variables of `lits`, which
    /// were open then, and changed nothing else.
    pub open spec fn advanced_from(&self, base: BCPSolver, lits: Seq<Lit>) -> bool {
        &&& self.same_problem(base)
        &&& self.keeps_assigned(base)
        &&& forall|j: int|
            0 <= j < lits.len() ==> (#[trigger] lits[j]).index < self.num_vars()
                && base.assignment@[lits[j].index as int] == Assignment::Unassigned
        &&& forall|v: int|
            0 <= v < self.num_vars() && #[trigger] self.assignment@[v] != base.assignment@[v]
                ==> in_queue(lits, lits.len() as int, v) && self.epochs@[v] >= base.clock@
    }

    /// A propagation that ran to its end has advanced the engine by the
    /// literals it set.
    pub proof fn lemma_propagated_advanced(&self, start: BCPSolver, lit: Lit, lits: Seq<Lit>)
        requires
            self.propagated(start, lit, lits),
        ensures
            self.advanced_from(start, lits),
            grows(start.assignment@, self.assignment@),
            lit.index < self.num_vars(),
            self.assignment@[lit.index as int] == sign_value(lit.sign),
    {
        assert(truth_value(lits[0], self.assignment@) == Assignment::Top);
    }

    /// Advances add up.
    pub proof fn lemma_advanced_compose(
        &self,
        middle: BCPSolver,
        base: BCPSolver,
        first: Seq<Lit>,
        second: Seq<Lit>,
    )
        requires
            middle.advanced_from(base, first),
            self.advanced_from(middle, second),
        ensures
            self.advanced_from(base, first + second),
    {
        let lits = first + second;
        assert forall|j: int| 0 <= j < lits.len() implies (#[trigger] lits[j]).index
            < self.num_vars() && base.assignment@[lits[j].index as int]
            == Assignment::Unassigned by {
            if j < first.len() {
                assert(lits[j] == first[j]);
            } else {
                assert(lits[j] == second[j - first.len()]);
                assert(middle.assignment@[second[j - first.len()].index as int]
                    == Assignment::Unassigned);
            }
        }
        assert forall|v: int|
            0 <= v < self.num_vars() && #[trigger] self.assignment@[v]
                != base.assignment@[v] implies in_queue(lits, lits.len() as int, v) by {
            if middle.assignment@[v] != base.assignment@[v] {
                lemma_in_queue_grows(first, first.len() as int, v, lits, lits.len() as int);
            } else {
                let j = lemma_in_queue_witness(second, second.len() as int, v);
                assert(lits[first.len() + j] == second[j]);
                lemma_in_queue(lits, lits.len() as int, first.len() + j);
            }
        }
        assert(self.keeps_assigned(base));
    }

    /// An engine restored to a state is as far from a base as that state.
    pub proof fn lemma_restored_advanced(
        &self,
        state: BCPSolver,
        base: BCPSolver,
        lits: Seq<Lit>,
    )
        requires
            self.restored(state),
            self.formula() == state.formula(),
            state.advanced_from(base, lits),
        ensures
            self.advanced_from(base, lits),
    {
        assert(self.keeps_assigned(base));
    }

    /// Taking back the literals set since `start`, after the search below
    /// has failed and restored what it found, gives back the state of
    /// `start`.
    pub proof fn lemma_backtrack(
        &self,
        below: BCPSolver,
        after: BCPSolver,
        start: BCPSolver,
        lits: Seq<Lit>,
    )
        requires
            start.wf(),
            after.wf(),
            after.advanced_from(start, lits),
            below.wf(),
            below.restored(after),
            self.unassigned_from(below, lits),
        ensures
            self.wf(),
            self.restored(start),
    {
        assert forall|v: int| 0 <= v < start.num_vars() implies self.assignment@[v]
            == start.assignment@[v] && self.implication_graph@[v]
            == start.implication_graph@[v] by {
            assert(start.nodes_match());
            assert(after.nodes_match());
            if in_queue(lits, lits.len() as int, v) {
                let j = lemma_in_queue_witness(lits, lits.len() as int, v);
                assert(start.assignment@[lits[j].index as int] == Assignment::Unassigned);
                assert(start.implication_graph@[v] is None);
                assert(self.assignment@[v] == Assignment::Unassigned);
            } else {
                assert(self.assignment@[v] == below.assignment@[v]);
                assert(self.implication_graph@[v] == below.implication_graph@[v]);
                assert(after.assignment@[v] == start.assignment@[v]);
                if start.assignment@[v] == Assignment::Unassigned {
                    assert(start.implication_graph@[v] is None);
                    assert(after.implication_graph@[v] is None);
                } else {
                    assert(after.implication_graph@[v] == start.implication_graph@[v]);
                }
            }
        }
        assert(self.assignment@ =~= start.assignment@);
        assert(self.implication_graph@ =~= start.implication_graph@);
        assert(self.keeps_assigned(start)) by {
            assert(after.keeps_assigned(start));
            assert(below.keeps_assigned(after));
        }
        self.lemma_backtrack_backed(below, after, start, lits);
        assert(self.formula() == below.formula());
        assert(self.formula().take(start.formula().len() as int) == start.formula()) by {
            assert(after.formula() == start.formula());
        }
        lemma_explains_extends(
            start.formula(),
            self.formula(),
            start.assignment@,
            start.implication_graph@,
        );
        assert(self.shape_ok()) by {
            assert(below.index_ok());
            assert forall|v: int, d: usize|
                #![trigger self.watches_for_var@[v]@.contains(d)]
                0 <= v < self.watches_for_var@.len() implies (self.watches_for_var@[v]@.contains(d)
                <==> d < self.clauses@.len() && self.watching(d as int, v)) by {
                assert(below.watches_for_var@[v]@.contains(d) <==> d < below.clauses@.len()
                    && below.watching(d as int, v));
            }
        }
        assert(self.graph_ok()) by {
            assert(start.graph_ok());
            assert(start.nodes_match());
            assert forall|v: int| 0 <= v < self.num_vars() implies (
            #[trigger] self.implication_graph@[v] matches Some(node) ==> self.ranks@[v]
                < self.clock@ && forall|k: int|
                0 <= k < node.reason@.len() ==> {
                    let r = #[trigger] node.reason@[k];
                    &&& r < self.num_vars()
                    &&& self.assignment@[r as int] != Assignment::Unassigned
                    &&& self.ranks@[r as int] < self.ranks@[v]
                }) by {
                if self.implication_graph@[v] is Some {
                    assert(start.implication_graph@[v] is Some);
                    assert(start.assignment@[v] != Assignment::Unassigned);
                    let node = self.implication_graph@[v]->0;
                    assert forall|k: int| 0 <= k < node.reason@.len() implies {
                        let r = #[trigger] node.reason@[k];
                        &&& r < self.num_vars()
                        &&& self.assignment@[r as int] != Assignment::Unassigned
                        &&& self.ranks@[r as int] < self.ranks@[v]
                    } by {
                        let r = node.reason@[k];
                        assert(start.assignment@[r as int] != Assignment::Unassigned);
                    }
                }
            }
        }
        assert(self.nodes_match()) by {
            assert(start.nodes_match());
        }
        assert(self.watches_live(self.assignment@)) by {
            assert forall|c: int| 0 <= c < self.clauses@.len() implies #[trigger] self.live(
                c,
                self.assignment@,
            ) by {
                assert(below.live(c, below.assignment@));
                below.lemma_watch_in_range(c);
                let w0 = self.watch(c, 0);
                let w1 = self.watch(c, 1);
                if truth_value(w0, start.assignment@) == Assignment::Bot {
                    assert(after.assignment@[w0.index as int] == start.assignment@[w0.index as int]);
                }
                if truth_value(w1, start.assignment@) == Assignment::Bot {
                    assert(after.assignment@[w1.index as int] == start.assignment@[w1.index as int]);
                }
            }
        }
    }

    /// A branch is refuted when the propagation of its literal led to an
    /// assignment that is refuted, be it by a formula with more clauses.
    pub proof fn lemma_branch_refuted(
        formula: Seq<Seq<Lit>>,
        longer: Seq<Seq<Lit>>,
        a: Seq<Assignment>,
        lit: Lit,
        b: Seq<Assignment>,
    )
        requires
            lit.index < a.len(),
            a[lit.index as int] == Assignment::Unassigned,
            follows(formula, a, lit, b),
            formula.len() <= longer.len(),
            longer.take(formula.len() as int) == formula,
            refuted(longer, b),
        ensures
            refuted(longer, with_value(a, lit.index as int, sign_value(lit.sign))),
    {
        let assumed = with_value(a, lit.index as int, sign_value(lit.sign));
        assert forall|m: Seq<bool>| #[trigger] extends(m, assumed) implies !formula_true(
            longer,
            m,
        ) by {
            if formula_true(longer, m) {
                assert(formula_true(formula, m)) by {
                    assert forall|i: int| 0 <= i < formula.len() implies clause_true(
                        #[trigger] formula[i],
                        m,
                    ) by {
                        assert(formula[i] == longer[i]);
                    }
                }
                assert(assumed[lit.index as int] != Assignment::Unassigned);
                assert(lit_true(lit, m));
                assert(extends(m, a)) by {
                    assert forall|v: int|
                        0 <= v < a.len() && #[trigger] a[v] != Assignment::Unassigned implies m[v]
                        == (a[v] == Assignment::Top) by {
                        assert(assumed[v] != Assignment::Unassigned);
                    }
                }
                assert(extends(m, b));
            }
        }
    }
}

impl BCPSolver {
    /// After a conflict, every variable that was open before the
    /// propagation is open again and has no node.
    pub proof fn lemma_conflict_leaves_nothing(&self, start: BCPSolver, lit: Lit, v: int)
        requires
            start.wf(),
            self.retreated(start, lit),
            0 <= v < start.num_vars(),
            start.assignment@[v] == Assignment::Unassigned,
        ensures
            self.assignment@[v] == Assignment::Unassigned,
            self.implication_graph@[v] is None,
    {
        assert(start.nodes_match());
    }

    /// What a conflict has left behind, seen from before the propagation
    /// was counted.
    pub proof fn lemma_retreated_since(&self, start: BCPSolver, before: BCPSolver, lit: Lit)
        requires
            self.retreated(start, lit),
            start.counted_from(before),
        ensures
            self.retreated(before, lit),
            start.formula() == before.formula(),
    {
        assert(start.formula() == before.formula());
        assert(self.keeps_assigned(before)) by {
            assert(self.keeps_assigned(start));
        }
        if start.learning {
            assert(BCPSolver::learned_against(before, lit, self.formula().last()));
        }
    }

    /// What a conflict has left behind stays so when it is counted.
    pub proof fn lemma_retreated_counted(&self, uncounted: BCPSolver, start: BCPSolver, lit: Lit)
        requires
            uncounted.retreated(start, lit),
            self.counted_from(uncounted),
        ensures
            self.retreated(start, lit),
    {
        assert(self.formula() == uncounted.formula());
        assert(self.keeps_assigned(start)) by {
            assert(uncounted.keeps_assigned(start));
        }
    }

    /// What a propagation has done, seen from before it was counted.
    pub proof fn lemma_propagated_since(
        &self,
        start: BCPSolver,
        before: BCPSolver,
        lit: Lit,
        lits: Seq<Lit>,
    )
        requires
            self.propagated(start, lit, lits),
            start.counted_from(before),
        ensures
            self.propagated(before, lit, lits),
    {
        assert(start.formula() == before.formula());
        assert(self.keeps_assigned(before)) by {
            assert(self.keeps_assigned(start));
        }
    }

    /// Counting leaves the engine in order.
    pub proof fn lemma_counted(&self, before: BCPSolver)
        requires
            before.wf(),
            self.counted_from(before),
        ensures
            self.wf(),
            self.formula() == before.formula(),
    {
        assert(self.formula() == before.formula());
        assert(self.shape_ok()) by {
            assert(before.index_ok());
        }
        assert(self.graph_ok()) by {
            assert(before.graph_ok());
        }
        assert(self.nodes_match()) by {
            assert(before.nodes_match());
        }
        assert(self.watches_live(self.assignment@)) by {
            assert forall|c: int| 0 <= c < self.clauses@.len() implies #[trigger] self.live(
                c,
                self.assignment@,
            ) by {
                assert(before.live(c, before.assignment@));
            }
        }
        assert(self.watches_backed(self.assignment@)) by {
            assert forall|c: int| 0 <= c < self.originals@ implies #[trigger] self.strong(
                c,
                self.assignment@,
            ) by {
                assert(before.strong(c, before.assignment@));
            }
        }
        assert(self.epochs_ok()) by {
            assert(before.epochs_ok());
        }
    }

    /// With the engine in order, as it is before and after every
    /// propagation, no clause in the store, a learned one no more than
    /// another, has two false watches.
    pub proof fn lemma_watches_not_both_false(&self, c: int)
        requires
            self.wf(),
            0 <= c < self.clauses@.len(),
        ensures
            truth_value(self.watch(c, 0), self.assignment@) != Assignment::Bot || truth_value(
                self.watch(c, 1),
                self.assignment@,
            ) != Assignment::Bot,
    {
        assert(self.live(c, self.assignment@));
    }
}

impl BCPSolver {
    /// During a propagation, a literal that is false was false at the
    /// start or is the negation of a literal that has been made true.
    pub proof fn lemma_falsified_now(
        &self,
        start: BCPSolver,
        lit: Lit,
        queue: Seq<Lit>,
        done: int,
        reasons: Seq<usize>,
        x: Lit,
    )
        requires
            self.propagating(start, lit, queue, done, reasons),
            x.index < self.num_vars(),
            truth_value(x, self.assignment@) == Assignment::Bot,
        ensures
            falsified(x, start.assignment@, queue, done),
    {
        reveal(BCPSolver::queue_ok);
        reveal(BCPSolver::frame_ok);
        let v = x.index as int;
        if self.assignment@[v] != start.assignment@[v] {
            let i = lemma_in_queue_witness(queue, done, v);
            assert(truth_value(queue[i], self.assignment@) == Assignment::Top);
            assert(queue[i] == x.negated());
        } else {
            assert(truth_value(x, start.assignment@) == Assignment::Bot);
        }
    }

    /// During a propagation, a literal that is false was false at the
    /// start or is the negation of a literal that has been listed.
    pub proof fn lemma_falsified_made(
        &self,
        start: BCPSolver,
        lit: Lit,
        queue: Seq<Lit>,
        done: int,
        reasons: Seq<usize>,
        made: Seq<Lit>,
        x: Lit,
    )
        requires
            self.propagating(start, lit, queue, done, reasons),
            listing(start.formula(), start.assignment@, queue, done, made),
            x.index < self.num_vars(),
            truth_value(x, self.assignment@) == Assignment::Bot,
        ensures
            falsified(x, start.assignment@, made, made.len() as int),
    {
        self.lemma_falsified_now(start, lit, queue, done, reasons, x);
        if truth_value(x, start.assignment@) != Assignment::Bot {
            reveal(listing);
            let i = choose|i: int|
                0 <= i < done && i < queue.len() && #[trigger] queue[i] == x.negated();
            assert(made.contains(queue[i]));
        }
    }

    /// The listing stays when a clause queues its last open literal.
    pub proof fn lemma_listing_push(
        &self,
        start: BCPSolver,
        lit: Lit,
        queue: Seq<Lit>,
        done: int,
        reasons: Seq<usize>,
        made: Seq<Lit>,
        c: int,
        unit: Lit,
    )
        requires
            self.propagating(start, lit, queue, done, reasons),
            listing(start.formula(), start.assignment@, queue, done, made),
            self.forces(c, unit),
            truth_value(unit, self.assignment@) == Assignment::Unassigned,
            truth_value(self.watch(c, 0), self.assignment@) == Assignment::Bot || truth_value(
                self.watch(c, 1),
                self.assignment@,
            ) == Assignment::Bot,
        ensures
            listing(start.formula(), start.assignment@, queue.push(unit), done, made),
    {
        let formula = start.formula();
        let a = start.assignment@;
        let longer = queue.push(unit);
        let clause = self.clauses@[c].clause@;
        assert(0 <= done <= queue.len()) by {
            reveal(BCPSolver::queue_ok);
        }
        assert(watch_ok(self.clauses@[c], self.num_vars()));
        assert(formula[c] == clause);
        assert(forced_by(clause, a, made, unit)) by {
            let other = if truth_value(self.watch(c, 0), self.assignment@) == Assignment::Bot {
                self.watch(c, 0)
            } else {
                self.watch(c, 1)
            };
            let p = choose|p: int| 0 <= p < clause.len() && clause[p] == other;
            let q = choose|q: int| 0 <= q < clause.len() && clause[q] == unit;
            assert(p != q);
            assert forall|r: int| 0 <= r < clause.len() && #[trigger] clause[r] != unit implies falsified(
                clause[r],
                a,
                made,
                made.len() as int,
            ) by {
                self.lemma_falsified_made(start, lit, queue, done, reasons, made, clause[r]);
            }
        }
        assert(forced(formula, a, made, unit));
        reveal(listing);
        assert(longer.take(done) =~= queue.take(done));
        assert forall|i: int| 0 <= i < done && i < longer.len() implies made.contains(
            #[trigger] longer[i],
        ) by {
            assert(longer[i] == queue[i]);
        }
        assert forall|j: int| 1 <= j < longer.len() implies #[trigger] forced(
            formula,
            a,
            made,
            longer[j],
        ) by {
            if j < queue.len() {
                assert(longer[j] == queue[j]);
                assert(forced(formula, a, made, queue[j]));
            }
        }
    }

    /// The listing stays when a queued literal is passed by: it was listed
    /// when its variable got its value.
    pub proof fn lemma_listing_pass_by(
        &self,
        start: BCPSolver,
        lit: Lit,
        queue: Seq<Lit>,
        it: int,
        reasons: Seq<usize>,
        made: Seq<Lit>,
    )
        requires
            self.propagating(start, lit, queue, it, reasons),
            listing(start.formula(), start.assignment@, queue, it, made),
            pending_open(queue, it, self.assignment@),
            0 <= it < queue.len(),
            self.assignment@[queue[it].index as int] != Assignment::Unassigned,
        ensures
            listing(start.formula(), start.assignment@, queue, it + 1, made),
    {
        let x = queue[it];
        let v = x.index as int;
        assert(x.index < self.num_vars() && start.assignment@[v] == Assignment::Unassigned) by {
            reveal(BCPSolver::queue_ok);
        }
        assert(in_queue(queue, it, v)) by {
            reveal(BCPSolver::frame_ok);
        }
        let j = lemma_in_queue_witness(queue, it, v);
        assert(truth_value(queue[j], self.assignment@) == Assignment::Top) by {
            reveal(BCPSolver::queue_ok);
        }
        assert(truth_value(x, self.assignment@) != Assignment::Bot);
        assert(queue[j] == x);
        reveal(listing);
        assert(made.contains(queue[j]));
        assert forall|k: int| 0 <= k < made.len() implies queue.take(it + 1).contains(
            #[trigger] made[k],
        ) by {
            assert(queue.take(it).contains(made[k]));
            let i = choose|i: int| 0 <= i < queue.take(it).len() && queue.take(it)[i] == made[k];
            assert(queue.take(it + 1)[i] == made[k]);
        }
    }

    /// The listing stays when the next queued literal, on an open variable,
    /// is made true and listed.
    pub proof fn lemma_listing_pop(
        &self,
        start: BCPSolver,
        lit: Lit,
        queue: Seq<Lit>,
        it: int,
        reasons: Seq<usize>,
        made: Seq<Lit>,
    )
        requires
            self.propagating(start, lit, queue, it, reasons),
            listing(start.formula(), start.assignment@, queue, it, made),
            0 <= it < queue.len(),
            self.assignment@[queue[it].index as int] == Assignment::Unassigned,
        ensures
            listing(start.formula(), start.assignment@, queue, it + 1, made.push(queue[it])),
            it == 0 <==> made.len() == 0,
    {
        let formula = start.formula();
        let a = start.assignment@;
        let x = queue[it];
        let more = made.push(x);
        reveal(listing);
        reveal(derivation);
        if made.len() > 0 {
            assert(queue.take(it).contains(made[0]));
        }
        assert forall|k: int| 0 <= k < made.len() implies (#[trigger] made[k]).index
            != x.index by {
            assert(queue.take(it).contains(made[k]));
            let i = choose|i: int| 0 <= i < queue.take(it).len() && queue.take(it)[i] == made[k];
            assert(queue[i] == made[k]);
            assert(truth_value(queue[i], self.assignment@) == Assignment::Top) by {
                reveal(BCPSolver::queue_ok);
            }
        }
        assert forall|j: int| 1 <= j < more.len() implies #[trigger] derived(formula, a, more, j) by {
            if j < made.len() {
                assert(derived(formula, a, made, j));
                let d = choose|d: int|
                    0 <= d < formula.len() && derived_by(#[trigger] formula[d], a, made, j);
                assert(more[j] == made[j]);
                assert forall|p: int|
                    0 <= p < formula[d].len() && #[trigger] formula[d][p]
                        != more[j] implies falsified(formula[d][p], a, more, j) by {
                    assert(falsified(formula[d][p], a, made, j));
                    lemma_falsified_longer(formula[d][p], a, made, j, x);
                }
                assert(derived_by(formula[d], a, more, j));
            } else {
                assert(it >= 1);
                assert(forced(formula, a, made, queue[it]));
                let d = choose|d: int|
                    0 <= d < formula.len() && forced_by(#[trigger] formula[d], a, made, x);
                assert(more[j] == x);
                assert forall|p: int|
                    0 <= p < formula[d].len() && #[trigger] formula[d][p]
                        != more[j] implies falsified(formula[d][p], a, more, j) by {
                    assert(falsified(formula[d][p], a, made, made.len() as int));
                    lemma_falsified_longer(formula[d][p], a, made, made.len() as int, x);
                }
                assert(derived_by(formula[d], a, more, j));
            }
        }
        assert(more[0] == queue[0]) by {
            if made.len() > 0 {
                assert(more[0] == made[0]);
            } else {
                assert(it == 0);
            }
        }
        assert forall|k: int, l: int| 0 <= k < l < more.len() implies (#[trigger] more[k]).index != (
        #[trigger] more[l]).index by {
            if l < made.len() {
                assert(more[k] == made[k] && more[l] == made[l]);
            } else {
                assert(more[k] == made[k]);
            }
        }
        assert forall|i: int| 0 <= i < it + 1 && i < queue.len() implies more.contains(
            #[trigger] queue[i],
        ) by {
            if i < it {
                assert(made.contains(queue[i]));
                let k = choose|k: int| 0 <= k < made.len() && made[k] == queue[i];
                assert(more[k] == queue[i]);
            } else {
                assert(more[made.len() as int] == queue[i]);
            }
        }
        assert forall|k: int| 0 <= k < more.len() implies queue.take(it + 1).contains(
            #[trigger] more[k],
        ) by {
            if k < made.len() {
                assert(queue.take(it).contains(made[k]));
                let i = choose|i: int|
                    0 <= i < queue.take(it).len() && queue.take(it)[i] == made[k];
                assert(queue.take(it + 1)[i] == more[k]);
            } else {
                assert(queue.take(it + 1)[it] == more[k]);
            }
        }
        assert forall|j: int| 1 <= j < queue.len() implies #[trigger] forced(
            formula,
            a,
            more,
            queue[j],
        ) by {
            assert(forced(formula, a, made, queue[j]));
            let d = choose|d: int|
                0 <= d < formula.len() && forced_by(#[trigger] formula[d], a, made, queue[j]);
            assert forall|p: int|
                0 <= p < formula[d].len() && #[trigger] formula[d][p] != queue[j] implies falsified(
                formula[d][p],
                a,
                more,
                more.len() as int,
            ) by {
                assert(falsified(formula[d][p], a, made, made.len() as int));
                lemma_falsified_longer(formula[d][p], a, made, made.len() as int, x);
            }
            assert(forced_by(formula[d], a, more, queue[j]));
        }
    }

    /// The node written for a literal that is made true has the level of
    /// the propagation and the reason that was queued beside the literal.
    pub proof fn lemma_noting_pop(
        &self,
        before: BCPSolver,
        start: BCPSolver,
        lit: Lit,
        queue: Seq<Lit>,
        it: int,
        reasons: Seq<usize>,
        queued: Seq<Vec<usize>>,
        made: Seq<Lit>,
        level: usize,
        node: Node,
    )
        requires
            before.propagating(start, lit, queue, it, reasons),
            before.noting(made, level),
            listing(start.formula(), start.assignment@, queue, it, made),
            reasoned(start.formula(), queue, reasons, queued),
            linked(queue, queued, made),
            0 <= it < queue.len(),
            queue[it].index < before.num_vars(),
            self.differs_in_value_of(before, queue[it], start.clock@, node),
            node.level == level,
            node.reason@ == queued[it]@,
        ensures
            self.noting(made.push(queue[it]), level),
    {
        let x = queue[it];
        let more = made.push(x);
        before.lemma_listing_pop(start, lit, queue, it, reasons, made);
        reveal(BCPSolver::noting);
        reveal(listing);
        assert(more[made.len() as int] == x);
        assert(self.implication_graph@.len() == self.num_vars());
        assert(node.reason@.len() == 0 <==> it == 0) by {
            reveal(reasoned);
            if it > 0 {
                assert(reasons[it] < start.formula().len());
            }
        }
        assert(queued.len() == queue.len()) by {
            reveal(reasoned);
        }
        assert forall|k: int| 0 <= k < more.len() implies {
            let v = (#[trigger] more[k]).index as int;
            &&& 0 <= v < self.num_vars()
            &&& self.implication_graph@[v] matches Some(found)
            &&& found.level == level
            &&& (k == 0 ==> found.reason@.len() == 0)
            &&& (k > 0 ==> found.reason@.len() > 0 && leans_on(found.reason@, more, k))
        } by {
            if k < made.len() {
                assert(more[k] == made[k]);
                assert(more[k].index != more[made.len() as int].index);
                let found = before.implication_graph@[made[k].index as int]->0;
                assert(self.implication_graph@[made[k].index as int] == Some(found));
                if k > 0 {
                    assert(leans_on(found.reason@, made, k));
                    let i = choose|i: int|
                        0 <= i < k && i < made.len() && found.reason@.contains(
                            (#[trigger] made[i]).index,
                        );
                    assert(more[i] == made[i]);
                }
            } else {
                assert(more[k] == x);
                assert(self.implication_graph@[x.index as int] == Some(node));
                if k > 0 {
                    assert(leans_on(queued[it]@, made, made.len() as int)) by {
                        reveal(linked);
                    }
                    let i = choose|i: int|
                        0 <= i < made.len() && node.reason@.contains((#[trigger] made[i]).index);
                    assert(more[i] == made[i]);
                }
            }
        }
    }

    /// Every node stays justified when the next queued literal is made
    /// true and its node is written with the reason queued beside it.
    pub proof fn lemma_explained_pop(
        &self,
        before: BCPSolver,
        start: BCPSolver,
        lit: Lit,
        queue: Seq<Lit>,
        it: int,
        reasons: Seq<usize>,
        queued: Seq<Vec<usize>>,
        node: Node,
    )
        requires
            before.propagating(start, lit, queue, it, reasons),
            explains(start.formula(), before.assignment@, before.implication_graph@),
            reasoned(start.formula(), queue, reasons, queued),
            0 <= it < queue.len(),
            queue[it].index < before.num_vars(),
            self.differs_in_value_of(before, queue[it], start.clock@, node),
            node.reason@ == queued[it]@,
        ensures
            explains(start.formula(), self.assignment@, self.implication_graph@),
    {
        let formula = start.formula();
        let a = before.assignment@;
        let b = self.assignment@;
        let x = queue[it];
        reveal(explains);
        reveal(reasoned);
        assert(grows(a, b));
        assert(formula == before.formula());
        assert forall|v: int| 0 <= v < b.len() && #[trigger] b[v] != Assignment::Unassigned implies justified(
            formula,
            b,
            self.implication_graph@,
            v,
        ) by {
            if v == x.index {
                assert(value_literal(b, v) == x);
                if it > 0 {
                    let c = reasons[it] as int;
                    assert(before.forces(c, x)) by {
                        reveal(BCPSolver::queue_ok);
                    }
                    assert(watch_ok(before.clauses@[c], before.num_vars()));
                    assert(formula[c] == before.clauses@[c].clause@);
                    assert forall|p: int|
                        0 <= p < formula[c].len() && #[trigger] formula[c][p]
                            != x implies truth_value(formula[c][p], b) == Assignment::Bot by {
                        lemma_truth_stays(formula[c][p], a, b);
                    }
                    assert(justifies(formula[c], b, v, node.reason@));
                }
            } else {
                assert(a[v] != Assignment::Unassigned);
                assert(justified(formula, a, before.implication_graph@, v));
                assert(self.implication_graph@[v] == before.implication_graph@[v]);
                let found = before.implication_graph@[v]->0;
                assert(value_literal(b, v) == value_literal(a, v));
                if found.reason@.len() > 0 {
                    let c = choose|c: int|
                        0 <= c < formula.len() && justifies(#[trigger] formula[c], a, v, found.reason@);
                    assert(watch_ok(before.clauses@[c], before.num_vars()));
                    assert(formula[c] == before.clauses@[c].clause@);
                    assert forall|p: int|
                        0 <= p < formula[c].len() && #[trigger] formula[c][p] != value_literal(
                            b,
                            v,
                        ) implies truth_value(formula[c][p], b) == Assignment::Bot by {
                        lemma_truth_stays(formula[c][p], a, b);
                    }
                    assert(justifies(formula[c], b, v, found.reason@));
                }
            }
        }
    }

    /// A clause that is false during a propagation is refuted by the
    /// assignment at the start and the literals that were made true, which
    /// are a run of unit propagation from the assumed literal.
    pub proof fn lemma_conflict_derived(
        &self,
        start: BCPSolver,
        lit: Lit,
        queue: Seq<Lit>,
        done: int,
        reasons: Seq<usize>,
        made: Seq<Lit>,
        c: int,
    )
        requires
            self.propagating(start, lit, queue, done, reasons),
            listing(start.formula(), start.assignment@, queue, done, made),
            done >= 1,
            0 <= c < self.clauses@.len(),
            clause_false(self.formula()[c], self.assignment@),
        ensures
            made.len() > 0,
            made[0] == lit,
            derivation(start.formula(), start.assignment@, made),
            refuted_by(start.formula()[c], start.assignment@, made),
    {
        let clause = self.formula()[c];
        assert(watch_ok(self.clauses@[c], self.num_vars()));
        assert(queue.len() > 0 && queue[0] == lit) by {
            reveal(BCPSolver::queue_ok);
        }
        assert(made.len() > 0 && made[0] == lit && derivation(
            start.formula(),
            start.assignment@,
            made,
        )) by {
            reveal(listing);
        }
        assert forall|p: int| 0 <= p < clause.len() implies falsified(
            #[trigger] clause[p],
            start.assignment@,
            made,
            made.len() as int,
        ) by {
            self.lemma_falsified_made(start, lit, queue, done, reasons, made, clause[p]);
        }
    }
}

impl BCPSolver {
    /// The store differs from `before` in one clause more, whose first
    /// watch is its first literal and whose second watch may watch beside
    /// the first unless no later literal of the clause may.
    pub open spec fn installed_after(&self, before: BCPSolver, clause: Seq<Lit>) -> bool {
        let c = before.clauses@.len() as int;
        &&& self.clauses@.len() == c + 1
        &&& forall|d: int| 0 <= d < c ==> self.clauses@[d] == before.clauses@[d]
        &&& self.formula() == before.formula().push(clause)
        &&& self.watch(c, 0) == clause[0]
        &&& (forall|q: int|
            1 <= q < clause.len() ==> !may_watch(#[trigger] clause[q], clause[0], before.assignment@))
            || may_watch(self.watch(c, 1), clause[0], before.assignment@)
        &&& self.assignment == before.assignment
        &&& self.implication_graph == before.implication_graph
        &&& self.learning == before.learning
        &&& self.originals == before.originals
        &&& self.ranks == before.ranks
        &&& self.epochs == before.epochs
        &&& self.clock == before.clock
    }

    /// A clause that follows from the clauses in the store and has an open
    /// literal may join the store between propagations.
    pub proof fn lemma_installed(&self, before: BCPSolver, clause: Seq<Lit>, open: Lit)
        requires
            before.wf(),
            before.learning,
            self.shape_ok(),
            self.installed_after(before, clause),
            follows_from(before.formula(), clause, before.num_vars()),
            clause.contains(open),
            truth_value(open, before.assignment@) == Assignment::Unassigned,
        ensures
            self.wf(),
    {
        let a = self.assignment@;
        let c = before.clauses@.len() as int;
        assert(self.graph_ok()) by {
            assert(before.graph_ok());
        }
        assert(self.nodes_match()) by {
            assert(before.nodes_match());
        }
        assert(self.epochs_ok()) by {
            assert(before.epochs_ok());
        }
        assert(self.watches_backed(a)) by {
            assert forall|d: int| 0 <= d < self.originals@ implies #[trigger] self.strong(d, a) by {
                assert(before.strong(d, a));
                assert(self.clauses@[d] == before.clauses@[d]);
            }
        }
        assert(self.watches_live(a)) by {
            assert forall|d: int| 0 <= d < self.clauses@.len() implies #[trigger] self.live(d, a) by {
                if d < c {
                    assert(before.live(d, a));
                    assert(self.clauses@[d] == before.clauses@[d]);
                } else if truth_value(clause[0], a) == Assignment::Bot {
                    let p = choose|p: int| 0 <= p < clause.len() && clause[p] == open;
                    assert(may_watch(clause[p], clause[0], a));
                }
            }
        }
        lemma_explains_extends(
            before.formula(),
            self.formula(),
            before.assignment@,
            before.implication_graph@,
        );
        lemma_same_models_push(
            before.formula(),
            clause,
            before.originals@ as int,
            before.num_vars(),
        );
    }
}

/// What falsifies a literal still does when the list grows.
pub proof fn lemma_falsified_longer(
    x: Lit,
    a: Seq<Assignment>,
    made: Seq<Lit>,
    upto: int,
    extra: Lit,
)
    requires
        falsified(x, a, made, upto),
        upto <= made.len(),
    ensures
        falsified(x, a, made.push(extra), upto),
        falsified(x, a, made.push(extra), made.len() as int + 1),
{
    if truth_value(x, a) != Assignment::Bot {
        let i = choose|i: int| 0 <= i < upto && i < made.len() && #[trigger] made[i] == x.negated();
        assert(made.push(extra)[i] == x.negated());
    }
}

/// The reasons that wait in the queue still hold the variable of a listed
/// literal when one more literal is listed.
pub proof fn lemma_linked_pop(queue: Seq<Lit>, queued: Seq<Vec<usize>>, made: Seq<Lit>, x: Lit)
    requires
        linked(queue, queued, made),
    ensures
        linked(queue, queued, made.push(x)),
{
    reveal(linked);
    let more = made.push(x);
    assert forall|j: int| 1 <= j < queue.len() && j < queued.len() implies leans_on(
        (#[trigger] queued[j])@,
        more,
        more.len() as int,
    ) by {
        assert(leans_on(queued[j]@, made, made.len() as int));
        let i = choose|i: int|
            0 <= i < made.len() && queued[j]@.contains((#[trigger] made[i]).index);
        assert(more[i] == made[i]);
    }
}

/// Before anything is made true, nothing is listed.
pub proof fn lemma_listing_begins(formula: Seq<Seq<Lit>>, a: Seq<Assignment>, lit: Lit)
    ensures
        listing(formula, a, seq![lit], 0, Seq::empty()),
{
    reveal(listing);
    reveal(derivation);
}

/// Nodes that are justified by a formula are justified by any formula that
/// begins with its clauses.
pub proof fn lemma_explains_extends(
    formula: Seq<Seq<Lit>>,
    longer: Seq<Seq<Lit>>,
    a: Seq<Assignment>,
    graph: Seq<Option<Node>>,
)
    requires
        explains(formula, a, graph),
        formula.len() <= longer.len(),
        forall|c: int| 0 <= c < formula.len() ==> longer[c] == formula[c],
    ensures
        explains(longer, a, graph),
{
    reveal(explains);
    assert forall|v: int| 0 <= v < a.len() && #[trigger] a[v] != Assignment::Unassigned implies justified(
        longer,
        a,
        graph,
        v,
    ) by {
        assert(justified(formula, a, graph, v));
        let node = graph[v]->0;
        if node.reason@.len() > 0 {
            let c = choose|c: int|
                0 <= c < formula.len() && justifies(#[trigger] formula[c], a, v, node.reason@);
            assert(longer[c] == formula[c]);
        }
    }
}

/// A clause that follows from a formula may join it without a loss of
/// models.
pub proof fn lemma_same_models_push(
    formula: Seq<Seq<Lit>>,
    clause: Seq<Lit>,
    upto: int,
    num_vars: nat,
)
    requires
        same_models(formula, upto, num_vars),
        follows_from(formula, clause, num_vars),
        0 <= upto <= formula.len(),
    ensures
        same_models(formula.push(clause), upto, num_vars),
{
    reveal(same_models);
    let longer = formula.push(clause);
    assert(longer.take(upto) =~= formula.take(upto));
    assert forall|m: Seq<bool>|
        m.len() == num_vars && #[trigger] formula_true(longer.take(upto), m) implies formula_true(
        longer,
        m,
    ) by {
        assert(formula_true(formula, m));
        assert forall|i: int| 0 <= i < longer.len() implies clause_true(#[trigger] longer[i], m) by {
            if i < formula.len() {
                assert(longer[i] == formula[i]);
            }
        }
    }
}

/// Where the first clauses of a formula have no other models than all of
/// them, what refutes the formula refutes its first clauses.
pub proof fn lemma_refuted_original(formula: Seq<Seq<Lit>>, upto: int, a: Seq<Assignment>)
    requires
        same_models(formula, upto, a.len()),
        refuted(formula, a),
    ensures
        refuted(formula.take(upto), a),
{
    reveal(same_models);
    assert forall|m: Seq<bool>| #[trigger] extends(m, a) implies !formula_true(
        formula.take(upto),
        m,
    ) by {
        if formula_true(formula.take(upto), m) {
            assert(formula_true(formula, m));
        }
    }
}

/// Where the first clauses of a formula have no other models than all of
/// them, what follows from the formula follows from its first clauses.
pub proof fn lemma_follows_original(
    formula: Seq<Seq<Lit>>,
    upto: int,
    a: Seq<Assignment>,
    lit: Lit,
    b: Seq<Assignment>,
)
    requires
        same_models(formula, upto, a.len()),
        follows(formula, a, lit, b),
    ensures
        follows(formula.take(upto), a, lit, b),
{
    reveal(same_models);
    assert forall|m: Seq<bool>|
        #[trigger] extends(m, a) && formula_true(formula.take(upto), m) && lit_true(
            lit,
            m,
        ) implies extends(m, b) by {
        assert(formula_true(formula, m));
    }
}

} // verus!
