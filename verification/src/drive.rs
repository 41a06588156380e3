//! The work-queue strategy in execution: single steps that a caller may
//! schedule itself, and loops that run the pending list empty.

use vstd::prelude::*;

use crate::arena::{Maze, Node};
use crate::queue::{
    eager_drain, eager_step, indices, lemma_eager_step, lemma_phased_step, pending, phased_drain,
    phased_step, weight,
};
use crate::state::Exploration;
use crate::laws::lemma_drive_matches_explore;
use crate::walk::{explore_walk, labels, lemma_labels_concat, Visit};

verus! {

impl Maze {
    /// One eager step: takes the last node off `work`, appends its label to
    /// `trace` and, if it is an unexplored branch, marks it explored and pushes
    /// its right and its left child. The pending list must not be empty.
    pub fn visit(&mut self, work: &mut Vec<usize>, trace: &mut Vec<String>)
        requires
            old(self).wf(),
            old(work)@.len() > 0,
            pending(old(self).shape(), indices(old(work)@)),
        ensures
            final(self).wf(),
            final(self).shape() == old(self).shape(),
            ({
                let s = eager_step(old(self).shape(), old(self).marks(), indices(old(work)@));
                &&& final(self).marks() == s.status
                &&& indices(final(work)@) == s.work
                &&& final(trace).deep_view() == old(trace).deep_view() + labels(
                    old(self).shape(),
                    seq![s.visit],
                )
            }),
    {
        let ghost g = self.shape();
        let ghost st = self.marks();
        let ghost queue = indices(work@);
        let ghost before = trace.deep_view();
        let ghost s = eager_step(g, st, queue);
        let n: usize = work.pop().expect("work stack should not be empty");
        assert(queue.last() == n);
        assert(indices(work@) =~= queue.drop_last());
        match self.node(n) {
            Node::Branch { label, left, right } => {
                let text: String = label.clone();
                let left: usize = *left;
                let right: usize = *right;
                trace.push(text);
                match self.status(n) {
                    Some(Exploration::UnExplored) => {
                        self.mark(n, Exploration::Explored);
                        work.push(right);
                        work.push(left);
                        assert(indices(work@) =~= s.work);
                    },
                    _ => {},
                }
            },
            Node::Leaf { label } => {
                trace.push(label.clone());
            },
        }
        assert(trace.deep_view() =~= before + labels(g, seq![s.visit]));
    }

    /// Runs eager steps until `work` is empty. The pending list must not be
    /// empty at the start.
    pub fn drain(&mut self, work: &mut Vec<usize>, trace: &mut Vec<String>)
        requires
            old(self).wf(),
            old(work)@.len() > 0,
            pending(old(self).shape(), indices(old(work)@)),
        ensures
            final(self).wf(),
            final(self).shape() == old(self).shape(),
            final(work)@.len() == 0,
            ({
                let w = eager_drain(old(self).shape(), old(self).marks(), indices(old(work)@));
                &&& final(self).marks() == w.status
                &&& final(trace).deep_view() == old(trace).deep_view() + labels(
                    old(self).shape(),
                    w.visits,
                )
            }),
    {
        let ghost g = self.shape();
        let ghost whole = eager_drain(g, self.marks(), indices(work@));
        let ghost before = trace.deep_view();
        let ghost mut done: Seq<Visit> = Seq::empty();
        proof {
            lemma_eager_step(g, self.marks(), indices(work@));
            done = seq![eager_step(g, self.marks(), indices(work@)).visit];
        }
        self.visit(work, trace);
        while work.len() != 0
            invariant
                self.wf(),
                self.shape() == g,
                pending(g, indices(work@)),
                trace.deep_view() == before + labels(g, done),
                whole.status == eager_drain(g, self.marks(), indices(work@)).status,
                whole.visits == done + eager_drain(g, self.marks(), indices(work@)).visits,
            decreases weight(self.marks()), work@.len(),
        {
            proof {
                let s = eager_step(g, self.marks(), indices(work@));
                lemma_eager_step(g, self.marks(), indices(work@));
                lemma_labels_concat(g, done, seq![s.visit]);
                let rest = eager_drain(g, s.status, s.work);
                assert(done + (seq![s.visit] + rest.visits) =~= done.push(s.visit) + rest.visits);
                assert(done + seq![s.visit] =~= done.push(s.visit));
                done = done.push(s.visit);
            }
            self.visit(work, trace);
        }
        assert(whole.visits =~= done);
    }

    /// Explores the maze from `root` with the eager work queue and returns the
    /// trace. Trace and status are those of the recursive `explore`.
    pub fn drive(&mut self, root: usize) -> (trace: Vec<String>)
        requires
            old(self).wf(),
            root < old(self).shape().len(),
        ensures
            final(self).wf(),
            final(self).shape() == old(self).shape(),
            final(self).marks() == eager_drain(
                old(self).shape(),
                old(self).marks(),
                seq![root as int],
            ).status,
            trace.deep_view() == labels(
                old(self).shape(),
                eager_drain(old(self).shape(), old(self).marks(), seq![root as int]).visits,
            ),
            eager_drain(old(self).shape(), old(self).marks(), seq![root as int]) == explore_walk(
                old(self).shape(),
                old(self).marks(),
                root as int,
            ),
    {
        proof {
            lemma_drive_matches_explore(self.shape(), self.marks(), root as int);
        }
        let mut work: Vec<usize> = Vec::new();
        work.push(root);
        assert(indices(work@) =~= seq![root as int]);
        let mut trace: Vec<String> = Vec::new();
        self.drain(&mut work, &mut trace);
        assert(trace.deep_view() =~= labels(
            old(self).shape(),
            eager_drain(old(self).shape(), old(self).marks(), seq![root as int]).visits,
        ));
        trace
    }

    /// One two-phase step: takes the last node off `work` and appends its label
    /// to `trace`. An unexplored branch becomes partially explored and pushes
    /// itself and its left child; a partially explored branch becomes explored
    /// and pushes its right child. The pending list must not be empty.
    pub fn visit_two_phase(&mut self, work: &mut Vec<usize>, trace: &mut Vec<String>)
        requires
            old(self).wf(),
            old(work)@.len() > 0,
            pending(old(self).shape(), indices(old(work)@)),
        ensures
            final(self).wf(),
            final(self).shape() == old(self).shape(),
            ({
                let s = phased_step(old(self).shape(), old(self).marks(), indices(old(work)@));
                &&& final(self).marks() == s.status
                &&& indices(final(work)@) == s.work
                &&& final(trace).deep_view() == old(trace).deep_view() + labels(
                    old(self).shape(),
                    seq![s.visit],
                )
            }),
    {
        let ghost g = self.shape();
        let ghost st = self.marks();
        let ghost queue = indices(work@);
        let ghost before = trace.deep_view();
        let ghost s = phased_step(g, st, queue);
        let n: usize = work.pop().expect("work stack should not be empty");
        assert(queue.last() == n);
        assert(indices(work@) =~= queue.drop_last());
        match self.node(n) {
            Node::Branch { label, left, right } => {
                let text: String = label.clone();
                let left: usize = *left;
                let right: usize = *right;
                trace.push(text);
                match self.status(n) {
                    Some(Exploration::UnExplored) => {
                        self.mark(n, Exploration::PartiallyExplored);
                        work.push(n);
                        work.push(left);
                        assert(indices(work@) =~= s.work);
                    },
                    Some(Exploration::PartiallyExplored) => {
                        self.mark(n, Exploration::Explored);
                        work.push(right);
                        assert(indices(work@) =~= s.work);
                    },
                    _ => {},
                }
            },
            Node::Leaf { label } => {
                trace.push(label.clone());
            },
        }
        assert(trace.deep_view() =~= before + labels(g, seq![s.visit]));
    }

    /// Runs two-phase steps until `work` is empty. The pending list must not be
    /// empty at the start.
    pub fn drain_two_phase(&mut self, work: &mut Vec<usize>, trace: &mut Vec<String>)
        requires
            old(self).wf(),
            old(work)@.len() > 0,
            pending(old(self).shape(), indices(old(work)@)),
        ensures
            final(self).wf(),
            final(self).shape() == old(self).shape(),
            final(work)@.len() == 0,
            ({
                let w = phased_drain(old(self).shape(), old(self).marks(), indices(old(work)@));
                &&& final(self).marks() == w.status
                &&& final(trace).deep_view() == old(trace).deep_view() + labels(
                    old(self).shape(),
                    w.visits,
                )
            }),
    {
        let ghost g = self.shape();
        let ghost whole = phased_drain(g, self.marks(), indices(work@));
        let ghost before = trace.deep_view();
        let ghost mut done: Seq<Visit> = Seq::empty();
        proof {
            lemma_phased_step(g, self.marks(), indices(work@));
            done = seq![phased_step(g, self.marks(), indices(work@)).visit];
        }
        self.visit_two_phase(work, trace);
        while work.len() != 0
            invariant
                self.wf(),
                self.shape() == g,
                pending(g, indices(work@)),
                trace.deep_view() == before + labels(g, done),
                whole.status == phased_drain(g, self.marks(), indices(work@)).status,
                whole.visits == done + phased_drain(g, self.marks(), indices(work@)).visits,
            decreases weight(self.marks()), work@.len(),
        {
            proof {
                let s = phased_step(g, self.marks(), indices(work@));
                lemma_phased_step(g, self.marks(), indices(work@));
                lemma_labels_concat(g, done, seq![s.visit]);
                let rest = phased_drain(g, s.status, s.work);
                assert(done + (seq![s.visit] + rest.visits) =~= done.push(s.visit) + rest.visits);
                assert(done + seq![s.visit] =~= done.push(s.visit));
                done = done.push(s.visit);
            }
            self.visit_two_phase(work, trace);
        }
        assert(whole.visits =~= done);
    }

    /// Explores the maze from `root` with the two-phase work queue and returns
    /// the trace, in which a branch is recorded when it is entered and again
    /// when it is resumed.
    pub fn drive_two_phase(&mut self, root: usize) -> (trace: Vec<String>)
        requires
            old(self).wf(),
            root < old(self).shape().len(),
        ensures
            final(self).wf(),
            final(self).shape() == old(self).shape(),
            final(self).marks() == phased_drain(
                old(self).shape(),
                old(self).marks(),
                seq![root as int],
            ).status,
            trace.deep_view() == labels(
                old(self).shape(),
                phased_drain(old(self).shape(), old(self).marks(), seq![root as int]).visits,
            ),
    {
        let mut work: Vec<usize> = Vec::new();
        work.push(root);
        assert(indices(work@) =~= seq![root as int]);
        let mut trace: Vec<String> = Vec::new();
        self.drain_two_phase(&mut work, &mut trace);
        assert(trace.deep_view() =~= labels(
            old(self).shape(),
            phased_drain(old(self).shape(), old(self).marks(), seq![root as int]).visits,
        ));
        trace
    }
}

} // verus!
