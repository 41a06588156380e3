//! The exploration status of a branch.

use vstd::prelude::*;

verus! {

/// How far the exploration of a branch has come.
///
/// The recursive walks and the eager work queue move a branch directly between
/// `UnExplored` and `Explored`. The two-phase work queue stops in between, at
/// `PartiallyExplored`, once the left child has been handed out and the right
/// child has not.
#[derive(Clone, Copy, Debug, PartialEq, Eq, Structural)]
pub enum Exploration {
    UnExplored,
    PartiallyExplored,
    Explored,
}

impl Exploration {
    /// The number of two-phase steps that still change a branch in this status.
    pub open spec fn remaining(self) -> nat {
        match self {
            Exploration::UnExplored => 2,
            Exploration::PartiallyExplored => 1,
            Exploration::Explored => 0,
        }
    }

    /// The name of the status, as it is shown to a reader.
    pub fn name(self) -> (text: &'static str)
        ensures
            text@ == self.name_spec(),
    {
        match self {
            Exploration::UnExplored => "UnExplored",
            Exploration::PartiallyExplored => "PartiallyExplored",
            Exploration::Explored => "Explored",
        }
    }

    /// The characters of [`Exploration::name`].
    pub open spec fn name_spec(self) -> Seq<char> {
        match self {
            Exploration::UnExplored => "UnExplored"@,
            Exploration::PartiallyExplored => "PartiallyExplored"@,
            Exploration::Explored => "Explored"@,
        }
    }
}

} // verus!
