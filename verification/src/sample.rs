//! A small maze with two shared nodes, ready to explore.

use vstd::prelude::*;

use crate::arena::Maze;
use crate::graph::{fresh, Shape};

verus! {

/// The shape of the sample maze. Its nodes stand in the order in which they
/// are built: the leaves `2`, `4`, `5` and `8`, then the branches `3` over `4`
/// and `5`, `1` over `2` and `3`, `7` over `5` and `8`, `6` over `3` and `7`,
/// and `0` over `1` and `6`. Branch `3` and leaf `5` have two parents each.
pub open spec fn sample_shape() -> Seq<Shape> {
    seq![
        Shape::Leaf { label: "2"@ },
        Shape::Leaf { label: "4"@ },
        Shape::Leaf { label: "5"@ },
        Shape::Leaf { label: "8"@ },
        Shape::Branch { label: "3"@, left: 1, right: 2 },
        Shape::Branch { label: "1"@, left: 0, right: 4 },
        Shape::Branch { label: "7"@, left: 2, right: 3 },
        Shape::Branch { label: "6"@, left: 4, right: 6 },
        Shape::Branch { label: "0"@, left: 5, right: 7 },
    ]
}

/// Builds the sample maze, unexplored, and returns it with the index of its
/// root, the branch `0`.
pub fn maze() -> (built: (Maze, usize))
    ensures
        built.0.wf(),
        built.0.shape() == sample_shape(),
        fresh(built.0.marks()),
        built.1 == 8,
{
    let mut maze = Maze::new();
    let leaf2: usize = maze.new_leaf("2");
    let leaf4: usize = maze.new_leaf("4");
    let leaf5: usize = maze.new_leaf("5");
    let leaf8: usize = maze.new_leaf("8");
    let branch3: usize = maze.new_branch("3", leaf4, leaf5);
    let branch1: usize = maze.new_branch("1", leaf2, branch3);
    let branch7: usize = maze.new_branch("7", leaf5, leaf8);
    let branch6: usize = maze.new_branch("6", branch3, branch7);
    let branch0: usize = maze.new_branch("0", branch1, branch6);
    assert(maze.shape() =~= sample_shape());
    (maze, branch0)
}

} // verus!
