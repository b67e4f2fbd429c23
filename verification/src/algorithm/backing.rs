//! Why propagation leaves every false watch of an original clause backed
//! by a true one.

use vstd::prelude::*;
use crate::algorithm::bcp::{grows, watch_ok, BCPSolver, Node};
use crate::algorithm::formula::{clause_false, truth_value};
use crate::algorithm::interface::{Assignment, Lit};
use crate::algorithm::propagation::lemma_rest_advance;

verus! {

/// The literal at position `p` of the clause is open under `a` and every
/// other literal of the clause is false: the clause forces the literal.
pub open spec fn awaits(clause: Seq<Lit>, a: Seq<Assignment>, p: int) -> bool {
    &&& 0 <= p < clause.len()
    &&& truth_value(clause[p], a) == Assignment::Unassigned
    &&& forall|q: int|
        0 <= q < clause.len() && q != p ==> truth_value(#[trigger] clause[q], a)
            == Assignment::Bot
}

impl BCPSolver {
    /// During a propagation, a true watch beside a false one got its value
    /// no later than the false one.
    pub proof fn lemma_epoch_order(&self, start: BCPSolver, c: int, slot: int)
        requires
            self.shape_ok(),
            self.num_vars() == start.num_vars(),
            self.keeps_assigned(start),
            self.supporting(start),
            0 <= c < self.originals@,
            0 <= slot < 2,
            truth_value(self.watch(c, slot), self.assignment@) == Assignment::Bot,
            truth_value(self.watch(c, 1 - slot), self.assignment@) == Assignment::Top,
        ensures
            self.backed(c, slot, self.assignment@),
    {
        reveal(BCPSolver::supporting);
        self.lemma_watch_in_range(c);
        let x = self.watch(c, slot);
        let t = self.watch(c, 1 - slot);
        assert(self.assignment@[x.index as int] != Assignment::Unassigned);
        assert(self.assignment@[t.index as int] != Assignment::Unassigned);
        if start.assignment@[x.index as int] != Assignment::Unassigned {
            assert(truth_value(x, start.assignment@) == Assignment::Bot);
            assert(self.strong(c, start.assignment@));
            assert(self.backed(c, slot, start.assignment@));
        }
    }

    /// A propagation begins with every false watch backed.
    pub proof fn lemma_support_begins(&self, lit: Lit)
        requires
            self.wf(),
        ensures
            self.supporting(*self),
            self.settled(seq![lit], 0, seq![0usize]),
    {
        reveal(BCPSolver::supporting);
        reveal(BCPSolver::settled);
        assert(self.epochs_ok());
        assert forall|c: int| 0 <= c < self.originals@ implies #[trigger] self.strong(
            c,
            self.assignment@,
        ) by {
            assert(self.watches_backed(self.assignment@));
        }
    }

    /// Once the next queued literal is true, every original clause that has
    /// lost its backing watches the variable just set, and a clause with two
    /// false watches has only false literals.
    pub proof fn lemma_pop_settling(
        &self,
        before: BCPSolver,
        start: BCPSolver,
        lit: Lit,
        queue: Seq<Lit>,
        it: int,
        reasons: Seq<usize>,
        watchers: Seq<usize>,
        node: Node,
    )
        requires
            before.propagating(start, lit, queue, it, reasons),
            before.supporting(start),
            before.settled(queue, it, reasons),
            0 <= it < queue.len(),
            queue[it].index < before.num_vars(),
            self.differs_in_value_of(before, queue[it], start.clock@, node),
            grows(before.assignment@, self.assignment@),
            watchers.to_set() == before.watches_for_var@[queue[it].index as int]@,
            self.propagating(start, lit, queue, it + 1, reasons),
        ensures
            self.supporting(start),
            self.settling(queue, it + 1, reasons, watchers),
    {
        broadcast use vstd::seq_lib::group_seq_properties;

        let cur = queue[it].index as int;
        let a = before.assignment@;
        let b = self.assignment@;
        assert(start.assignment@[cur] == Assignment::Unassigned) by {
            reveal(BCPSolver::queue_ok);
        }
        assert(self.keeps_assigned(start) && before.keeps_assigned(start)) by {
            reveal(BCPSolver::frame_ok);
        }
        assert(self.supporting(start)) by {
            reveal(BCPSolver::supporting);
            assert forall|c: int| 0 <= c < self.originals@ implies #[trigger] self.strong(
                c,
                start.assignment@,
            ) by {
                assert(before.strong(c, start.assignment@));
                before.lemma_watch_in_range(c);
            }
        }
        assert(before.index_ok());
        assert(self.clauses.len() == self.clauses@.len());
        assert forall|c: usize|
            c < self.originals@ && !#[trigger] self.strong(c as int, b) && !self.waits(
                c as int,
                queue,
                it + 1,
                reasons,
            ) implies watchers.contains(c) by {
            before.lemma_watch_in_range(c as int);
            if !before.watching(c as int, cur) {
                assert(before.strong(c as int, a) || before.waits(c as int, queue, it, reasons))
                    by {
                    reveal(BCPSolver::settled);
                }
                if before.strong(c as int, a) {
                    assert(self.strong(c as int, b));
                } else {
                    let j = choose|j: int|
                        1 <= j && it <= j < queue.len() && (#[trigger] reasons[j]) == c
                            && truth_value(queue[j], a) == Assignment::Unassigned;
                    assert(before.forces(reasons[j] as int, queue[j])) by {
                        reveal(BCPSolver::queue_ok);
                    }
                    assert(queue[j].index != cur);
                    assert(truth_value(queue[j], b) == Assignment::Unassigned);
                }
            } else {
                assert(before.watches_for_var@[cur]@.contains(c));
                assert(watchers.to_set().contains(c));
            }
        }
        assert forall|c: int|
            0 <= c < self.originals@ && !#[trigger] self.live(c, b) implies clause_false(
            self.formula()[c],
            b,
        ) by {
            before.lemma_watch_in_range(c);
            assert(watch_ok(before.clauses@[c], before.num_vars()));
            let clause = before.clauses@[c].clause@;
            let x = before.watch(c, 0);
            let y = before.watch(c, 1);
            assert(before.strong(c, a) || before.waits(c, queue, it, reasons)) by {
                reveal(BCPSolver::settled);
            }
            if before.strong(c, a) {
                assert(truth_value(x, a) != Assignment::Bot);
                assert(truth_value(y, a) != Assignment::Bot);
                assert(x.index == cur && y.index == cur);
                assert(clause.len() == 1);
                let p = choose|p: int| 0 <= p < clause.len() && clause[p] == x;
                assert(clause[0] == x);
            } else {
                let j = choose|j: int|
                    1 <= j && it <= j < queue.len() && (#[trigger] reasons[j]) == c && truth_value(
                        queue[j],
                        a,
                    ) == Assignment::Unassigned;
                assert(self.forces(reasons[j] as int, queue[j])) by {
                    reveal(BCPSolver::queue_ok);
                }
                self.lemma_forced_false(c, queue[j]);
            }
        }
        assert(self.settling(queue, it + 1, reasons, watchers)) by {
            reveal(BCPSolver::settling);
        }
    }

    /// A clause with a true watch is settled, so the walk may pass it by.
    pub proof fn lemma_skip_settling(
        &self,
        start: BCPSolver,
        lit: Lit,
        queue: Seq<Lit>,
        done: int,
        reasons: Seq<usize>,
        rest: Seq<usize>,
    )
        requires
            self.propagating(start, lit, queue, done, reasons),
            self.supporting(start),
            self.settling(queue, done, reasons, rest),
            rest.len() > 0,
            rest[0] < self.clauses@.len(),
            truth_value(self.watch(rest[0] as int, 0), self.assignment@) == Assignment::Top
                || truth_value(self.watch(rest[0] as int, 1), self.assignment@)
                == Assignment::Top,
        ensures
            self.settling(queue, done, reasons, rest.drop_first()),
    {
        let c = rest[0] as int;
        let a = self.assignment@;
        assert(self.keeps_assigned(start)) by {
            reveal(BCPSolver::frame_ok);
        }
        if c < self.originals@ {
            if truth_value(self.watch(c, 0), a) == Assignment::Top {
                if truth_value(self.watch(c, 1), a) == Assignment::Bot {
                    self.lemma_epoch_order(start, c, 1);
                }
            } else {
                if truth_value(self.watch(c, 0), a) == Assignment::Bot {
                    self.lemma_epoch_order(start, c, 0);
                }
            }
            assert(self.strong(c, a));
        }
        self.lemma_settling_advances(queue, done, reasons, rest);
    }

    /// Once the first clause of `rest` is settled or is no original clause,
    /// every clause that still needs a visit is in the tail.
    pub proof fn lemma_settling_advances(
        &self,
        queue: Seq<Lit>,
        done: int,
        reasons: Seq<usize>,
        rest: Seq<usize>,
    )
        requires
            self.settling(queue, done, reasons, rest),
            rest.len() > 0,
            rest[0] < self.originals@ ==> self.strong(rest[0] as int, self.assignment@)
                || self.waits(rest[0] as int, queue, done, reasons),
        ensures
            self.settling(queue, done, reasons, rest.drop_first()),
    {
        reveal(BCPSolver::settling);
        let tail = rest.drop_first();
        assert forall|c: usize|
            c < self.originals@ && !#[trigger] self.strong(c as int, self.assignment@)
                && !self.waits(c as int, queue, done, reasons) implies tail.contains(c) by {
            lemma_rest_advance(rest, c);
        }
    }

    /// Moving a false watch to a literal that may take it over leaves the
    /// clause without a false watch.
    pub proof fn lemma_rewatch_settling(
        &self,
        before: BCPSolver,
        start: BCPSolver,
        lit: Lit,
        queue: Seq<Lit>,
        done: int,
        reasons: Seq<usize>,
        rest: Seq<usize>,
        slot: int,
        found: Lit,
    )
        requires
            before.propagating(start, lit, queue, done, reasons),
            before.supporting(start),
            before.settling(queue, done, reasons, rest),
            rest.len() > 0,
            rest[0] < before.clauses@.len(),
            0 <= slot < 2,
            truth_value(before.watch(rest[0] as int, slot), before.assignment@) == Assignment::Bot,
            truth_value(before.watch(rest[0] as int, 1 - slot), before.assignment@)
                != Assignment::Top,
            before.clauses@[rest[0] as int].clause@.contains(found),
            found.index < before.num_vars(),
            truth_value(found, before.assignment@) != Assignment::Bot,
            self.differs_in_watches_of(before, rest[0] as int),
            self.watch(rest[0] as int, slot) == found,
            self.watch(rest[0] as int, 1 - slot) == before.watch(rest[0] as int, 1 - slot),
        ensures
            self.supporting(start),
            self.settling(queue, done, reasons, rest.drop_first()),
    {
        let c = rest[0] as int;
        let a = self.assignment@;
        before.lemma_watch_in_range(c);
        let other = before.watch(c, 1 - slot);
        assert(before.keeps_assigned(start)) by {
            reveal(BCPSolver::frame_ok);
        }
        if c < self.originals@ {
            assert(truth_value(other, a) == Assignment::Unassigned) by {
                reveal(BCPSolver::settling);
                if truth_value(other, a) == Assignment::Bot {
                    assert(!before.live(c, a));
                    let clause = before.clauses@[c].clause@;
                    let p = choose|p: int| 0 <= p < clause.len() && clause[p] == found;
                    assert(truth_value(before.formula()[c][p], a) == Assignment::Bot);
                }
            }
            assert(self.strong(c, a));
            assert(truth_value(found, start.assignment@) != Assignment::Bot);
            assert(truth_value(other, start.assignment@) != Assignment::Bot);
            assert(self.strong(c, start.assignment@));
        }
        assert(self.supporting(start)) by {
            reveal(BCPSolver::supporting);
            assert forall|d: int| 0 <= d < self.originals@ implies #[trigger] self.strong(
                d,
                start.assignment@,
            ) by {
                if d != c {
                    assert(before.strong(d, start.assignment@));
                    assert(self.clauses@[d] == before.clauses@[d]);
                }
            }
        }
        assert(self.settling(queue, done, reasons, rest)) by {
            reveal(BCPSolver::settling);
            assert forall|d: usize|
                d < self.originals@ && !#[trigger] self.strong(d as int, a) && !self.waits(
                    d as int,
                    queue,
                    done,
                    reasons,
                ) implies rest.contains(d) by {
                if d != c {
                    assert(self.clauses@[d as int] == before.clauses@[d as int]);
                    assert(!before.strong(d as int, a));
                    assert(!before.waits(d as int, queue, done, reasons));
                }
            }
            assert forall|d: int|
                0 <= d < self.originals@ && !#[trigger] self.live(d, a) implies clause_false(
                self.formula()[d],
                a,
            ) by {
                if d != c {
                    assert(self.clauses@[d] == before.clauses@[d]);
                    assert(!before.live(d, a));
                }
            }
        }
        self.lemma_settling_advances(queue, done, reasons, rest);
    }

    /// A clause that has queued its last open literal waits for it.
    pub proof fn lemma_enqueue_settling(
        &self,
        start: BCPSolver,
        queue: Seq<Lit>,
        done: int,
        reasons: Seq<usize>,
        rest: Seq<usize>,
        unit: Lit,
    )
        requires
            self.settling(queue, done, reasons, rest),
            reasons.len() == queue.len(),
            0 <= done <= queue.len(),
            queue.len() > 0,
            rest.len() > 0,
            unit.index < self.num_vars(),
            self.assignment@[unit.index as int] == Assignment::Unassigned,
        ensures
            self.settling(queue.push(unit), done, reasons.push(rest[0]), rest.drop_first()),
    {
        let a = self.assignment@;
        let longer = queue.push(unit);
        let more = reasons.push(rest[0]);
        assert(self.waits(rest[0] as int, longer, done, more)) by {
            let j = queue.len() as int;
            assert(more[j] == rest[0] && longer[j] == unit);
        }
        assert(self.settling(longer, done, more, rest)) by {
            reveal(BCPSolver::settling);
            assert forall|d: usize|
                d < self.originals@ && !#[trigger] self.strong(d as int, a) && !self.waits(
                    d as int,
                    longer,
                    done,
                    more,
                ) implies rest.contains(d) by {
                if self.waits(d as int, queue, done, reasons) {
                    let j = choose|j: int|
                        1 <= j && done <= j < queue.len() && (#[trigger] reasons[j]) == d
                            && truth_value(queue[j], a) == Assignment::Unassigned;
                    assert(more[j] == reasons[j] && longer[j] == queue[j]);
                }
            }
        }
        self.lemma_settling_advances(longer, done, more, rest);
    }

    /// Passing by a queued literal whose variable has a value leaves every
    /// original clause settled.
    pub proof fn lemma_pass_by_settled(&self, queue: Seq<Lit>, it: int, reasons: Seq<usize>)
        requires
            self.settled(queue, it, reasons),
            0 <= it < queue.len(),
            self.assignment@[queue[it].index as int] != Assignment::Unassigned,
        ensures
            self.settled(queue, it + 1, reasons),
    {
        reveal(BCPSolver::settled);
        assert forall|c: int| 0 <= c < self.originals@ implies #[trigger] self.strong(
            c,
            self.assignment@,
        ) || self.waits(c, queue, it + 1, reasons) by {
            if !self.strong(c, self.assignment@) {
                assert(self.waits(c, queue, it, reasons));
                let j = choose|j: int|
                    1 <= j && it <= j < queue.len() && (#[trigger] reasons[j]) == c && truth_value(
                        queue[j],
                        self.assignment@,
                    ) == Assignment::Unassigned;
                assert(j != it);
            }
        }
    }

    /// When no clause is left to visit, every original clause is settled.
    pub proof fn lemma_settling_done(
        &self,
        queue: Seq<Lit>,
        done: int,
        reasons: Seq<usize>,
        rest: Seq<usize>,
    )
        requires
            self.shape_ok(),
            self.settling(queue, done, reasons, rest),
            rest.len() == 0,
        ensures
            self.settled(queue, done, reasons),
    {
        reveal(BCPSolver::settling);
        reveal(BCPSolver::settled);
        assert(self.clauses.len() == self.clauses@.len());
        assert forall|c: int| 0 <= c < self.originals@ implies #[trigger] self.strong(
            c,
            self.assignment@,
        ) || self.waits(c, queue, done, reasons) by {
            if !self.strong(c, self.assignment@) && !self.waits(c, queue, done, reasons) {
                assert(rest.contains(c as usize));
            }
        }
    }

    /// When the queue is used up, every false watch of an original clause is
    /// backed, and every variable set by the propagation carries its time.
    pub proof fn lemma_settled_at_end(
        &self,
        start: BCPSolver,
        queue: Seq<Lit>,
        reasons: Seq<usize>,
    )
        requires
            self.num_vars() == start.num_vars(),
            self.keeps_assigned(start),
            self.supporting(start),
            self.settled(queue, queue.len() as int, reasons),
        ensures
            self.watches_backed(self.assignment@),
            self.epochs_ok(),
            forall|v: int|
                0 <= v < self.num_vars() && #[trigger] self.assignment@[v] != start.assignment@[v]
                    ==> self.epochs@[v] >= start.clock@,
    {
        reveal(BCPSolver::supporting);
        reveal(BCPSolver::settled);
        assert forall|c: int| 0 <= c < self.originals@ implies #[trigger] self.strong(
            c,
            self.assignment@,
        ) by {
            assert(!self.waits(c, queue, queue.len() as int, reasons));
        }
    }

    /// After the retreat from a conflict every false watch of an original
    /// clause is backed.
    pub proof fn lemma_retreat_backed(
        &self,
        pre: BCPSolver,
        start: BCPSolver,
    )
        requires
            start.wf(),
            pre.num_vars() == start.num_vars(),
            pre.originals == start.originals,
            pre.originals@ <= pre.clauses@.len(),
            pre.keeps_assigned(start),
            pre.supporting(start),
            self.clauses == pre.clauses,
            self.originals == pre.originals,
            self.epochs == pre.epochs,
            self.clock == pre.clock,
            self.assignment@ == start.assignment@,
        ensures
            self.watches_backed(self.assignment@),
            self.epochs_ok(),
    {
        reveal(BCPSolver::supporting);
        assert forall|c: int| 0 <= c < self.originals@ implies #[trigger] self.strong(
            c,
            self.assignment@,
        ) by {
            assert(pre.strong(c, start.assignment@));
        }
        assert forall|v: int|
            0 <= v < self.num_vars() && #[trigger] self.assignment@[v]
                != Assignment::Unassigned implies self.epochs@[v] < self.clock@ by {
            assert(start.assignment@[v] != Assignment::Unassigned);
            assert(pre.assignment@[v] == start.assignment@[v]);
        }
    }

    /// Taking back what was set since `start` leaves every false watch of
    /// an original clause backed.
    pub proof fn lemma_backtrack_backed(
        &self,
        below: BCPSolver,
        after: BCPSolver,
        start: BCPSolver,
        lits: Seq<Lit>,
    )
        requires
            start.wf(),
            after.advanced_from(start, lits),
            below.wf(),
            below.restored(after),
            self.clauses == below.clauses,
            self.originals == below.originals,
            self.epochs == below.epochs,
            self.clock == below.clock,
            self.num_vars() == below.num_vars(),
            self.assignment@ == start.assignment@,
        ensures
            self.watches_backed(self.assignment@),
            self.epochs_ok(),
    {
        let a = start.assignment@;
        assert forall|v: int|
            0 <= v < self.num_vars() && #[trigger] a[v] != Assignment::Unassigned implies self.epochs@[v]
            == start.epochs@[v] && start.epochs@[v] < start.clock@ && below.assignment@[v]
            == a[v] by {
            assert(after.assignment@[v] == a[v]);
        }
        assert forall|c: int| 0 <= c < self.originals@ implies #[trigger] self.strong(c, a) by {
            assert(below.strong(c, below.assignment@));
            below.lemma_watch_in_range(c);
            let x = self.watch(c, 0);
            let y = self.watch(c, 1);
            if truth_value(x, a) == Assignment::Bot {
                assert(a[x.index as int] != Assignment::Unassigned);
                assert(truth_value(x, below.assignment@) == Assignment::Bot);
                assert(below.backed(c, 0, below.assignment@));
                if a[y.index as int] == Assignment::Unassigned {
                    assert(after.assignment@[y.index as int] != a[y.index as int]);
                }
            }
            if truth_value(y, a) == Assignment::Bot {
                assert(a[y.index as int] != Assignment::Unassigned);
                assert(truth_value(y, below.assignment@) == Assignment::Bot);
                assert(below.backed(c, 1, below.assignment@));
                if a[x.index as int] == Assignment::Unassigned {
                    assert(after.assignment@[x.index as int] != a[x.index as int]);
                }
            }
        }
    }

    /// With the engine in order, propagation has run to its end: no
    /// original clause is false, and none with two or more literals has all
    /// its literals false but one that is open.
    pub proof fn lemma_nothing_left_to_propagate(&self, c: int, p: int)
        requires
            self.wf(),
            0 <= c < self.originals@,
            0 <= p < self.formula()[c].len(),
        ensures
            !clause_false(self.formula()[c], self.assignment@),
            self.formula()[c].len() >= 2 ==> !awaits(self.formula()[c], self.assignment@, p),
    {
        let a = self.assignment@;
        let clause = self.clauses@[c].clause@;
        assert(self.formula()[c] == clause);
        assert(self.strong(c, a));
        self.lemma_watch_in_range(c);
        assert(watch_ok(self.clauses@[c], self.num_vars()));
        let x = self.watch(c, 0);
        let y = self.watch(c, 1);
        let i = choose|i: int| 0 <= i < clause.len() && clause[i] == x;
        let j = choose|j: int| 0 <= j < clause.len() && clause[j] == y;
        if clause_false(clause, a) {
            assert(truth_value(clause[i], a) == Assignment::Bot);
            assert(truth_value(clause[j], a) == Assignment::Bot);
        }
        if clause.len() >= 2 && awaits(clause, a, p) {
            assert(i != j);
            if i != p {
                assert(truth_value(clause[i], a) == Assignment::Bot);
                assert(truth_value(y, a) == Assignment::Top);
            } else {
                assert(truth_value(clause[j], a) == Assignment::Bot);
                assert(truth_value(x, a) == Assignment::Top);
            }
        }
    }
}

} // verus!
