//! The maze as lines of text, one line for each node on each path to it.

use vstd::prelude::*;
use vstd::string::StringExecFns;

use crate::arena::{Maze, Node};
use crate::graph::{arranged, Shape};
use crate::state::Exploration;

verus! {

/// The line that shows node `n` behind the indentation `indent`: a branch with
/// its label and status, a leaf with its label.
pub open spec fn line(g: Seq<Shape>, st: Seq<Exploration>, n: int, indent: Seq<char>) -> Seq<char> {
    match g[n] {
        Shape::Branch { label, .. } => indent + "Branch: "@ + label + " (Status: "@
            + st[n].name_spec() + ")"@,
        Shape::Leaf { label } => indent + "Leaf: "@ + label,
    }
}

/// The lines that show everything below `n`: the line of `n`, then the lines
/// below its left child and below its right child, two spaces further in. A
/// shared node is shown once under each of its parents.
pub open spec fn outline(g: Seq<Shape>, st: Seq<Exploration>, n: int, indent: Seq<char>) -> Seq<
    Seq<char>,
>
    decreases n,
    when arranged(g) && 0 <= n < g.len()
{
    match g[n] {
        Shape::Branch { left, right, .. } => seq![line(g, st, n, indent)] + outline(
            g,
            st,
            left,
            indent + "  "@,
        ) + outline(g, st, right, indent + "  "@),
        Shape::Leaf { .. } => seq![line(g, st, n, indent)],
    }
}

impl Maze {
    /// The lines that show the maze below `root`, each behind `indent`. The
    /// status of the maze is left as it is.
    pub fn visualize(&self, root: usize, indent: &str) -> (lines: Vec<String>)
        requires
            self.wf(),
            root < self.shape().len(),
        ensures
            lines.deep_view() == outline(self.shape(), self.marks(), root as int, indent@),
        decreases root,
    {
        let ghost g = self.shape();
        let ghost st = self.marks();
        let mut lines: Vec<String> = Vec::new();
        let mut text: String = indent.to_owned();
        match self.node(root) {
            Node::Branch { label, left, right } => {
                let left: usize = *left;
                let right: usize = *right;
                text.append("Branch: ");
                text.append(label.as_str());
                text.append(" (Status: ");
                match self.status(root) {
                    Some(status) => {
                        text.append(status.name());
                    },
                    None => {},
                }
                text.append(")");
                lines.push(text);
                assert(lines.deep_view() =~= seq![line(g, st, root as int, indent@)]);
                let mut deeper: String = indent.to_owned();
                deeper.append("  ");
                let mut below: Vec<String> = self.visualize(left, deeper.as_str());
                lines.append(&mut below);
                let mut below: Vec<String> = self.visualize(right, deeper.as_str());
                lines.append(&mut below);
                assert(lines.deep_view() =~= outline(g, st, root as int, indent@));
            },
            Node::Leaf { label } => {
                text.append("Leaf: ");
                text.append(label.as_str());
                lines.push(text);
                assert(lines.deep_view() =~= seq![line(g, st, root as int, indent@)]);
            },
        }
        lines
    }
}

} // verus!
