//! The mathematical model of a maze: its shape and the status of its nodes.

use vstd::prelude::*;

use crate::state::Exploration;

verus! {

/// What a node is, apart from its status: a label and, for a branch, the
/// indices of its two children.
pub enum Shape {
    Branch { label: Seq<char>, left: int, right: int },
    Leaf { label: Seq<char> },
}

impl Shape {
    /// The label of the node.
    pub open spec fn label(self) -> Seq<char> {
        match self {
            Shape::Branch { label, .. } => label,
            Shape::Leaf { label } => label,
        }
    }
}

/// Every child of a branch stands before the branch. A maze that is built
/// node by node, children first, is arranged like this, and so has no cycle.
pub open spec fn arranged(g: Seq<Shape>) -> bool {
    forall|n: int|
        0 <= n < g.len() ==> match #[trigger] g[n] {
            Shape::Branch { left, right, .. } => 0 <= left < n && 0 <= right < n,
            Shape::Leaf { .. } => true,
        }
}

/// The status table `st` fits the maze `g`: the maze is arranged, the table has
/// one entry for each node, and the entry of a leaf, which has no status of its
/// own, stays `UnExplored`.
pub open spec fn settled(g: Seq<Shape>, st: Seq<Exploration>) -> bool {
    &&& arranged(g)
    &&& st.len() == g.len()
    &&& forall|n: int| 0 <= n < g.len() && g[n] is Leaf ==> #[trigger] st[n] == Exploration::UnExplored
}

/// Every entry of the table is `UnExplored`.
pub open spec fn fresh(st: Seq<Exploration>) -> bool {
    forall|n: int| 0 <= n < st.len() ==> #[trigger] st[n] == Exploration::UnExplored
}

/// Node `b` can be reached from node `a` by following child edges, in zero or
/// more steps.
pub open spec fn reaches(g: Seq<Shape>, a: int, b: int) -> bool
    decreases a,
    when arranged(g) && 0 <= a < g.len()
{
    a == b || match g[a] {
        Shape::Branch { left, right, .. } => reaches(g, left, b) || reaches(g, right, b),
        Shape::Leaf { .. } => false,
    }
}

/// A node that is reached lies at or before the node it is reached from.
pub proof fn lemma_reaches_below(g: Seq<Shape>, a: int, b: int)
    requires
        arranged(g),
        0 <= a < g.len(),
        reaches(g, a, b),
    ensures
        0 <= b <= a,
    decreases a,
{
    if a != b {
        match g[a] {
            Shape::Branch { left, right, .. } => {
                if reaches(g, left, b) {
                    lemma_reaches_below(g, left, b);
                } else {
                    lemma_reaches_below(g, right, b);
                }
            },
            Shape::Leaf { .. } => {},
        }
    }
}

/// What is reached from a reached node is reached.
pub proof fn lemma_reaches_trans(g: Seq<Shape>, a: int, b: int, c: int)
    requires
        arranged(g),
        0 <= a < g.len(),
        reaches(g, a, b),
        reaches(g, b, c),
    ensures
        reaches(g, a, c),
    decreases a,
{
    if a != b {
        match g[a] {
            Shape::Branch { left, right, .. } => {
                if reaches(g, left, b) {
                    lemma_reaches_trans(g, left, b, c);
                } else {
                    lemma_reaches_trans(g, right, b, c);
                }
            },
            Shape::Leaf { .. } => {},
        }
    }
}

} // verus!
