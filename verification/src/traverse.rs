//! The recursive strategy: depth-first walks that follow the call stack.

use vstd::prelude::*;

use crate::arena::{Maze, Node};
use crate::state::Exploration;
use crate::walk::{explore_walk, labels, lemma_labels_concat, unexplore_walk, Visit};

verus! {

impl Maze {
    /// Explores the maze from `root` and returns the trace: the label of every
    /// node arrived at, a branch before its children, left before right. A
    /// branch that was explored before is recorded and not entered again.
    pub fn explore(&mut self, root: usize) -> (trace: Vec<String>)
        requires
            old(self).wf(),
            root < old(self).shape().len(),
        ensures
            final(self).wf(),
            final(self).shape() == old(self).shape(),
            final(self).marks() == explore_walk(old(self).shape(), old(self).marks(), root as int).status,
            trace.deep_view() == labels(
                old(self).shape(),
                explore_walk(old(self).shape(), old(self).marks(), root as int).visits,
            ),
        decreases root,
    {
        let ghost g = self.shape();
        let ghost st = self.marks();
        let ghost here = Visit { node: root as int, seen: st[root as int] };
        let mut trace: Vec<String> = Vec::new();
        match self.node(root) {
            Node::Branch { label, left, right } => {
                let text: String = label.clone();
                let left: usize = *left;
                let right: usize = *right;
                trace.push(text);
                assert(trace.deep_view() =~= labels(g, seq![here]));
                match self.status(root) {
                    Some(Exploration::UnExplored) => {
                        self.mark(root, Exploration::Explored);
                        let ghost st1 = self.marks();
                        let mut below: Vec<String> = self.explore(left);
                        let ghost a = explore_walk(g, st1, left as int);
                        trace.append(&mut below);
                        let mut below: Vec<String> = self.explore(right);
                        let ghost b = explore_walk(g, a.status, right as int);
                        trace.append(&mut below);
                        proof {
                            lemma_labels_concat(g, seq![here], a.visits);
                            lemma_labels_concat(g, seq![here] + a.visits, b.visits);
                            assert(trace.deep_view() =~= labels(g, seq![here]) + labels(g, a.visits)
                                + labels(g, b.visits));
                        }
                    },
                    _ => {},
                }
            },
            Node::Leaf { label } => {
                trace.push(label.clone());
                assert(trace.deep_view() =~= labels(g, seq![here]));
            },
        }
        trace
    }

    /// Walks the maze from `root` as `explore` does, turning explored branches
    /// back to unexplored, and returns the trace. A branch that is not explored
    /// is recorded and not entered, so a shared branch is reset once.
    pub fn unexplore(&mut self, root: usize) -> (trace: Vec<String>)
        requires
            old(self).wf(),
            root < old(self).shape().len(),
        ensures
            final(self).wf(),
            final(self).shape() == old(self).shape(),
            final(self).marks() == unexplore_walk(old(self).shape(), old(self).marks(), root as int).status,
            trace.deep_view() == labels(
                old(self).shape(),
                unexplore_walk(old(self).shape(), old(self).marks(), root as int).visits,
            ),
        decreases root,
    {
        let ghost g = self.shape();
        let ghost st = self.marks();
        let ghost here = Visit { node: root as int, seen: st[root as int] };
        let mut trace: Vec<String> = Vec::new();
        match self.node(root) {
            Node::Branch { label, left, right } => {
                let text: String = label.clone();
                let left: usize = *left;
                let right: usize = *right;
                trace.push(text);
                assert(trace.deep_view() =~= labels(g, seq![here]));
                match self.status(root) {
                    Some(Exploration::Explored) => {
                        self.mark(root, Exploration::UnExplored);
                        let ghost st1 = self.marks();
                        let mut below: Vec<String> = self.unexplore(left);
                        let ghost a = unexplore_walk(g, st1, left as int);
                        trace.append(&mut below);
                        let mut below: Vec<String> = self.unexplore(right);
                        let ghost b = unexplore_walk(g, a.status, right as int);
                        trace.append(&mut below);
                        proof {
                            lemma_labels_concat(g, seq![here], a.visits);
                            lemma_labels_concat(g, seq![here] + a.visits, b.visits);
                            assert(trace.deep_view() =~= labels(g, seq![here]) + labels(g, a.visits)
                                + labels(g, b.visits));
                        }
                    },
                    _ => {},
                }
            },
            Node::Leaf { label } => {
                trace.push(label.clone());
                assert(trace.deep_view() =~= labels(g, seq![here]));
            },
        }
        trace
    }

    /// Explores the maze from `root` as `explore` does and appends the trace to
    /// `trace`, which the caller owns.
    pub fn explore_with_trace(&mut self, root: usize, trace: &mut Vec<String>)
        requires
            old(self).wf(),
            root < old(self).shape().len(),
        ensures
            final(self).wf(),
            final(self).shape() == old(self).shape(),
            final(self).marks() == explore_walk(old(self).shape(), old(self).marks(), root as int).status,
            final(trace).deep_view() == old(trace).deep_view() + labels(
                old(self).shape(),
                explore_walk(old(self).shape(), old(self).marks(), root as int).visits,
            ),
        decreases root,
    {
        let ghost g = self.shape();
        let ghost st = self.marks();
        let ghost here = Visit { node: root as int, seen: st[root as int] };
        let ghost before = trace.deep_view();
        match self.node(root) {
            Node::Branch { label, left, right } => {
                let text: String = label.clone();
                let left: usize = *left;
                let right: usize = *right;
                trace.push(text);
                assert(trace.deep_view() =~= before + labels(g, seq![here]));
                match self.status(root) {
                    Some(Exploration::UnExplored) => {
                        self.mark(root, Exploration::Explored);
                        let ghost st1 = self.marks();
                        self.explore_with_trace(left, trace);
                        let ghost a = explore_walk(g, st1, left as int);
                        self.explore_with_trace(right, trace);
                        let ghost b = explore_walk(g, a.status, right as int);
                        proof {
                            lemma_labels_concat(g, seq![here], a.visits);
                            lemma_labels_concat(g, seq![here] + a.visits, b.visits);
                            assert(trace.deep_view() =~= before + (labels(g, seq![here]) + labels(
                                g,
                                a.visits,
                            ) + labels(g, b.visits)));
                        }
                    },
                    _ => {},
                }
            },
            Node::Leaf { label } => {
                trace.push(label.clone());
                assert(trace.deep_view() =~= before + labels(g, seq![here]));
            },
        }
    }
}

} // verus!
