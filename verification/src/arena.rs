//! The maze as it is held in memory: an arena of nodes, addressed by index,
//! with the exploration status of each node in a table beside it.

use vstd::prelude::*;

use crate::graph::{fresh, settled, Shape};
use crate::state::Exploration;

verus! {

/// A node of the maze. A child is named by its index in the arena.
#[derive(Clone, Debug)]
pub enum Node {
    Branch { label: String, left: usize, right: usize },
    Leaf { label: String },
}

impl View for Node {
    type V = Shape;

    open spec fn view(&self) -> Shape {
        match self {
            Node::Branch { label, left, right } => Shape::Branch {
                label: label@,
                left: *left as int,
                right: *right as int,
            },
            Node::Leaf { label } => Shape::Leaf { label: label@ },
        }
    }
}

/// A maze: nodes that are added one by one, children before their parents, and
/// never removed. A node may be the child of any number of later branches.
#[derive(Clone, Debug)]
pub struct Maze {
    nodes: Vec<Node>,
    status: Vec<Exploration>,
}

impl Maze {
    /// The shape of the maze: what each node is, by index.
    pub closed spec fn shape(&self) -> Seq<Shape> {
        self.nodes@.map_values(|node: Node| node@)
    }

    /// The status table of the maze, by index.
    pub closed spec fn marks(&self) -> Seq<Exploration> {
        self.status@
    }

    /// The invariant of the type: the status table fits the shape.
    pub open spec fn wf(&self) -> bool {
        settled(self.shape(), self.marks())
    }

    /// A maze without nodes.
    pub fn new() -> (maze: Maze)
        ensures
            maze.wf(),
            maze.shape() == Seq::<Shape>::empty(),
            maze.marks() == Seq::<Exploration>::empty(),
    {
        let maze = Maze { nodes: Vec::new(), status: Vec::new() };
        assert(maze.shape() =~= Seq::<Shape>::empty());
        maze
    }

    /// The number of nodes.
    pub fn len(&self) -> (count: usize)
        ensures
            count == self.shape().len(),
    {
        self.nodes.len()
    }

    /// Adds a leaf and returns its index.
    pub fn new_leaf(&mut self, label: &str) -> (id: usize)
        requires
            old(self).wf(),
        ensures
            final(self).wf(),
            id == old(self).shape().len(),
            final(self).shape() == old(self).shape().push(Shape::Leaf { label: label@ }),
            final(self).marks() == old(self).marks().push(Exploration::UnExplored),
    {
        let id: usize = self.nodes.len();
        self.nodes.push(Node::Leaf { label: label.to_owned() });
        self.status.push(Exploration::UnExplored);
        assert(self.shape() =~= old(self).shape().push(Shape::Leaf { label: label@ }));
        id
    }

    /// Adds an unexplored branch over two nodes of the maze and returns its
    /// index. Either child may already be the child of other branches.
    pub fn new_branch(&mut self, label: &str, left: usize, right: usize) -> (id: usize)
        requires
            old(self).wf(),
            left < old(self).shape().len(),
            right < old(self).shape().len(),
        ensures
            final(self).wf(),
            id == old(self).shape().len(),
            final(self).shape() == old(self).shape().push(
                Shape::Branch { label: label@, left: left as int, right: right as int },
            ),
            final(self).marks() == old(self).marks().push(Exploration::UnExplored),
    {
        let id: usize = self.nodes.len();
        self.nodes.push(Node::Branch { label: label.to_owned(), left, right });
        self.status.push(Exploration::UnExplored);
        assert(self.shape() =~= old(self).shape().push(
            Shape::Branch { label: label@, left: left as int, right: right as int },
        ));
        id
    }

    /// Node `n` as it stands in the arena.
    pub fn node(&self, n: usize) -> (node: &Node)
        requires
            self.wf(),
            n < self.shape().len(),
        ensures
            node@ == self.shape()[n as int],
            node@ matches Shape::Branch { left, right, .. } ==> left < n && right < n,
    {
        &self.nodes[n]
    }

    /// Sets the status of branch `n`.
    pub(crate) fn mark(&mut self, n: usize, status: Exploration)
        requires
            old(self).wf(),
            n < old(self).shape().len(),
            old(self).shape()[n as int] is Branch,
        ensures
            final(self).wf(),
            final(self).shape() == old(self).shape(),
            final(self).marks() == old(self).marks().update(n as int, status),
    {
        self.status[n] = status;
    }

    /// The label of node `n`.
    pub fn label(&self, n: usize) -> (text: &str)
        requires
            self.wf(),
            n < self.shape().len(),
        ensures
            text@ == self.shape()[n as int].label(),
    {
        match &self.nodes[n] {
            Node::Branch { label, .. } => label.as_str(),
            Node::Leaf { label } => label.as_str(),
        }
    }

    /// The children of node `n`, left and right, if it is a branch.
    pub fn children(&self, n: usize) -> (pair: Option<(usize, usize)>)
        requires
            self.wf(),
            n < self.shape().len(),
        ensures
            match self.shape()[n as int] {
                Shape::Branch { left, right, .. } => pair == Some((left as usize, right as usize))
                    && left < n && right < n,
                Shape::Leaf { .. } => pair is None,
            },
    {
        match &self.nodes[n] {
            Node::Branch { left, right, .. } => Some((*left, *right)),
            Node::Leaf { .. } => None,
        }
    }

    /// The status of node `n`, if it is a branch. A leaf has none.
    pub fn status(&self, n: usize) -> (found: Option<Exploration>)
        requires
            self.wf(),
            n < self.shape().len(),
        ensures
            found == if self.shape()[n as int] is Branch {
                Some(self.marks()[n as int])
            } else {
                None
            },
    {
        match &self.nodes[n] {
            Node::Branch { .. } => Some(self.status[n]),
            Node::Leaf { .. } => None,
        }
    }

    /// Whether no branch has been touched: every status is `UnExplored`.
    pub fn is_fresh(&self) -> (yes: bool)
        requires
            self.wf(),
        ensures
            yes == fresh(self.marks()),
    {
        let mut i: usize = 0;
        while i < self.status.len()
            invariant
                i <= self.status.len(),
                forall|n: int| 0 <= n < i ==> self.status@[n] == Exploration::UnExplored,
            decreases self.status.len() - i,
        {
            if self.status[i] != Exploration::UnExplored {
                return false;
            }
            i += 1;
        }
        true
    }
}

} // verus!
