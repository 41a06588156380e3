//! What holds of the traversals, whatever the maze.
//!
//! Each law is stated over the model: the shape `g`, a status table `st` that
//! is settled on it, and the walks and drains that the traversal functions
//! are specified by.

use vstd::prelude::*;

use crate::graph::{fresh, lemma_reaches_below, reaches, settled, Shape};
use crate::phases::{
    entered_and_resumed, in_order, later, lemma_phased_drain_push, lemma_phased_entered,
    lemma_phased_order, lemma_phased_resumed, lemma_phased_walk, lemma_phased_walk_fills,
    lemma_phased_walk_twice, phased_walk, unshared,
};
use crate::queue::{eager_drain, lemma_eager_drain_push, phased_drain};
use crate::state::Exploration;
use crate::walk::{
    all_reached, children_walked, entered_once, explore_walk, labels, lemma_sweep,
    lemma_sweep_children, lemma_sweep_fills, lemma_sweep_mirror, lemma_sweep_once, same_path,
    unexplore_walk, Visit,
};

verus! {

/// The eager work queue keeps the order of the recursion. On every maze and
/// from every status table, the eager drain started with `root` alone arrives
/// at the same nodes in the same order as the exploring walk from `root`, finds
/// the same status at each arrival, and leaves the same status table. Shared
/// nodes make no difference: the pending list is a stack.
pub proof fn lemma_drive_matches_explore(g: Seq<Shape>, st: Seq<Exploration>, root: int)
    requires
        settled(g, st),
        0 <= root < g.len(),
    ensures
        eager_drain(g, st, seq![root]) == explore_walk(g, st, root),
{
    let none = Seq::<int>::empty();
    let w = explore_walk(g, st, root);
    lemma_eager_drain_push(g, st, none, root);
    lemma_sweep(g, st, root, Exploration::UnExplored, Exploration::Explored);
    assert(none.push(root) =~= seq![root]);
    assert(w.visits + Seq::<Visit>::empty() =~= w.visits);
}

/// A branch is entered once. In one exploration, by the recursion or by the
/// eager work queue, only the first arrival at a branch can find it unexplored:
/// however many corridors lead to a branch, its children are walked at most
/// once.
pub proof fn lemma_explore_enters_once(g: Seq<Shape>, st: Seq<Exploration>, root: int)
    requires
        settled(g, st),
        0 <= root < g.len(),
    ensures
        entered_once(g, explore_walk(g, st, root).visits, Exploration::UnExplored),
        entered_once(g, eager_drain(g, st, seq![root]).visits, Exploration::UnExplored),
{
    lemma_sweep_once(g, st, root, Exploration::UnExplored, Exploration::Explored);
    lemma_drive_matches_explore(g, st, root);
}

/// Every corridor is walked. In one exploration, by the recursion or by the
/// eager work queue, an arrival that finds a branch unexplored is followed at
/// once by an arrival at its left child and later by an arrival at its right
/// child: a shared node is recorded under each parent that the exploration
/// enters.
pub proof fn lemma_explore_walks_children(g: Seq<Shape>, st: Seq<Exploration>, root: int)
    requires
        settled(g, st),
        0 <= root < g.len(),
    ensures
        children_walked(g, explore_walk(g, st, root).visits, Exploration::UnExplored),
        children_walked(g, eager_drain(g, st, seq![root]).visits, Exploration::UnExplored),
{
    lemma_sweep_children(g, st, root, Exploration::UnExplored, Exploration::Explored);
    lemma_drive_matches_explore(g, st, root);
}

/// A branch is reset once. In one reset, only the first arrival at a branch can
/// find it explored: the children of a shared branch are walked at most once.
pub proof fn lemma_unexplore_resets_once(g: Seq<Shape>, st: Seq<Exploration>, root: int)
    requires
        settled(g, st),
        0 <= root < g.len(),
    ensures
        entered_once(g, unexplore_walk(g, st, root).visits, Exploration::Explored),
{
    lemma_sweep_once(g, st, root, Exploration::Explored, Exploration::UnExplored);
}

/// The exploration from `root` meets no branch that is explored already: every
/// branch that it arrives at was unexplored, or partially explored, before the
/// exploration began.
pub open spec fn untrodden(g: Seq<Shape>, st: Seq<Exploration>, root: int) -> bool {
    forall|k: int|
        0 <= k < explore_walk(g, st, root).visits.len() ==> {
            let x = (#[trigger] explore_walk(g, st, root).visits[k]).node;
            g[x] is Branch ==> st[x] != Exploration::Explored
        }
}

/// Where every branch that `root` reaches is unexplored, the exploration from
/// `root` meets no branch that is explored already.
pub proof fn lemma_unexplored_is_untrodden(g: Seq<Shape>, st: Seq<Exploration>, root: int)
    requires
        settled(g, st),
        0 <= root < g.len(),
        all_reached(g, st, root, Exploration::UnExplored),
    ensures
        untrodden(g, st, root),
{
    let first = explore_walk(g, st, root);
    lemma_sweep(g, st, root, Exploration::UnExplored, Exploration::Explored);
    assert forall|k: int| 0 <= k < first.visits.len() implies {
        let x = (#[trigger] first.visits[k]).node;
        g[x] is Branch ==> st[x] != Exploration::Explored
    } by {
        let x: int = first.visits[k].node;
        assert(reaches(g, root, x));
        lemma_reaches_below(g, root, x);
    }
}

/// Explore, reset, explore. Where the exploration from `root` meets no branch
/// that is explored already, the reset that follows it arrives at the same
/// nodes in the same order, returns the same trace and restores the status
/// table exactly, and a second exploration repeats the first, arrival by
/// arrival. If the whole table was fresh before, it is fresh again after the
/// reset.
pub proof fn lemma_reset_round_trip(g: Seq<Shape>, st: Seq<Exploration>, root: int)
    requires
        settled(g, st),
        0 <= root < g.len(),
        untrodden(g, st, root),
    ensures
        ({
            let first = explore_walk(g, st, root);
            let reset = unexplore_walk(g, first.status, root);
            let second = explore_walk(g, reset.status, root);
            &&& same_path(first.visits, reset.visits)
            &&& labels(g, reset.visits) == labels(g, first.visits)
            &&& reset.status == st
            &&& second == first
            &&& fresh(st) ==> fresh(reset.status)
        }),
{
    let first = explore_walk(g, st, root);
    let reset = unexplore_walk(g, first.status, root);
    lemma_sweep(g, st, root, Exploration::UnExplored, Exploration::Explored);
    lemma_sweep(g, first.status, root, Exploration::Explored, Exploration::UnExplored);
    assert forall|k: int| 0 <= k < first.visits.len() implies {
        let x = (#[trigger] first.visits[k]).node;
        g[x] is Branch ==> (st[x] == Exploration::UnExplored <==> first.status[x]
            == Exploration::Explored)
    } by {
        let x: int = first.visits[k].node;
        assert(reaches(g, root, x));
        lemma_reaches_below(g, root, x);
    }
    lemma_sweep_mirror(g, st, first.status, root, Exploration::UnExplored, Exploration::Explored);
    assert(reset.status =~= st);
    assert(labels(g, reset.visits) =~= labels(g, first.visits));
}

/// An exploration leaves nothing out. Where every branch that `root` reaches
/// is unexplored, the exploration from `root` leaves all of them explored.
pub proof fn lemma_explore_completes(g: Seq<Shape>, st: Seq<Exploration>, root: int)
    requires
        settled(g, st),
        0 <= root < g.len(),
        all_reached(g, st, root, Exploration::UnExplored),
    ensures
        all_reached(g, explore_walk(g, st, root).status, root, Exploration::Explored),
{
    lemma_sweep_fills(g, st, root, Exploration::UnExplored, Exploration::Explored);
}

/// The pending list stands in for the call stack. The two-phase drain started
/// with `root` alone does what the two-phase walk from `root` does.
pub proof fn lemma_two_phase_is_walk(g: Seq<Shape>, st: Seq<Exploration>, root: int)
    requires
        settled(g, st),
        0 <= root < g.len(),
    ensures
        phased_drain(g, st, seq![root]) == phased_walk(g, st, root),
{
    let none = Seq::<int>::empty();
    let w = phased_walk(g, st, root);
    lemma_phased_drain_push(g, st, none, root);
    lemma_phased_walk(g, st, root);
    assert(none.push(root) =~= seq![root]);
    assert(w.visits + Seq::<Visit>::empty() =~= w.visits);
}

/// The two phases come in order. In a two-phase drain from `root`, whenever two
/// arrivals are at the same branch, the later one found it in a later status:
/// a branch is never resumed before it was entered, never entered twice and
/// never resumed twice, on any maze and from any status table.
pub proof fn lemma_two_phase_order(g: Seq<Shape>, st: Seq<Exploration>, root: int)
    requires
        settled(g, st),
        0 <= root < g.len(),
    ensures
        in_order(g, phased_drain(g, st, seq![root]).visits),
{
    lemma_two_phase_is_walk(g, st, root);
    lemma_phased_order(g, st, root);
}

/// Both strategies end alike. Where every branch that `root` reaches is
/// unexplored, the two-phase drain from `root` leaves the status table that the
/// exploring walk leaves: every branch that `root` reaches is explored, and
/// nothing else has changed.
pub proof fn lemma_two_phase_completes(g: Seq<Shape>, st: Seq<Exploration>, root: int)
    requires
        settled(g, st),
        0 <= root < g.len(),
        all_reached(g, st, root, Exploration::UnExplored),
    ensures
        all_reached(g, phased_drain(g, st, seq![root]).status, root, Exploration::Explored),
        phased_drain(g, st, seq![root]).status == explore_walk(g, st, root).status,
{
    lemma_two_phase_is_walk(g, st, root);
    lemma_phased_walk(g, st, root);
    lemma_phased_walk_fills(g, st, root);
    lemma_sweep(g, st, root, Exploration::UnExplored, Exploration::Explored);
    lemma_sweep_fills(g, st, root, Exploration::UnExplored, Exploration::Explored);
    assert(phased_drain(g, st, seq![root]).status =~= explore_walk(g, st, root).status);
}

/// Enter once, resume once. Where every branch that `root` reaches is
/// unexplored, the two-phase drain from `root` enters each such branch `b`
/// exactly once, at the position `at.0`, and resumes it exactly once, at the
/// later position `at.1`. Every other arrival at `b` finds it explored.
pub proof fn lemma_two_phase_enters_and_resumes(
    g: Seq<Shape>,
    st: Seq<Exploration>,
    root: int,
    b: int,
) -> (at: (int, int))
    requires
        settled(g, st),
        0 <= root < g.len(),
        all_reached(g, st, root, Exploration::UnExplored),
        reaches(g, root, b),
        g[b] is Branch,
    ensures
        ({
            let visits = phased_drain(g, st, seq![root]).visits;
            &&& 0 <= at.0 < at.1 < visits.len()
            &&& visits[at.0] == Visit { node: b, seen: Exploration::UnExplored }
            &&& visits[at.1] == Visit { node: b, seen: Exploration::PartiallyExplored }
            &&& forall|k: int|
                0 <= k < visits.len() && k != at.0 && k != at.1 && (#[trigger] visits[k]).node == b
                    ==> visits[k].seen == Exploration::Explored
        }),
{
    let visits = phased_drain(g, st, seq![root]).visits;
    lemma_reaches_below(g, root, b);
    lemma_two_phase_is_walk(g, st, root);
    lemma_two_phase_completes(g, st, root);
    lemma_phased_order(g, st, root);
    let i: int = lemma_phased_entered(g, st, root, b);
    let j: int = lemma_phased_resumed(g, st, root, b);
    assert(i < j) by {
        if j < i {
            assert(later(visits[j].seen, visits[i].seen));
        }
    }
    assert forall|k: int|
        0 <= k < visits.len() && k != i && k != j && (#[trigger] visits[k]).node == b implies visits[k].seen
        == Exploration::Explored by {
        if k < i {
            assert(later(visits[k].seen, visits[i].seen));
        } else {
            assert(later(visits[i].seen, visits[k].seen));
            if k < j {
                assert(later(visits[k].seen, visits[j].seen));
            } else {
                assert(later(visits[j].seen, visits[k].seen));
            }
        }
    }
    (i, j)
}

/// No other node that `root` reaches bears the label of `b`.
pub open spec fn label_unique(g: Seq<Shape>, root: int, b: int) -> bool {
    forall|c: int|
        0 <= c < g.len() && c != b && #[trigger] reaches(g, root, c) ==> g[c].label() != g[b].label()
}

/// Two arrivals, two labels. Let every branch that `root` reaches be
/// unexplored, and none of them be shared. Then the two-phase drain from `root`
/// arrives at each such branch `b` exactly twice: at the position `at.0` it
/// finds `b` unexplored, at the later position `at.1` it finds `b` partially
/// explored, and no other arrival is at `b`. If moreover the label of `b` is
/// unique below `root`, it stands in the trace at these two positions and
/// nowhere else.
pub proof fn lemma_two_phase_twice(g: Seq<Shape>, st: Seq<Exploration>, root: int, b: int) -> (at: (
    int,
    int,
))
    requires
        settled(g, st),
        0 <= root < g.len(),
        all_reached(g, st, root, Exploration::UnExplored),
        unshared(g, root),
        reaches(g, root, b),
        g[b] is Branch,
    ensures
        entered_and_resumed(phased_drain(g, st, seq![root]).visits, b, at.0, at.1),
        label_unique(g, root, b) ==> forall|k: int|
            0 <= k < phased_drain(g, st, seq![root]).visits.len() ==> (#[trigger] labels(
                g,
                phased_drain(g, st, seq![root]).visits,
            )[k] == g[b].label() <==> k == at.0 || k == at.1),
{
    let w = phased_drain(g, st, seq![root]);
    lemma_two_phase_is_walk(g, st, root);
    lemma_phased_walk(g, st, root);
    let at = lemma_phased_walk_twice(g, st, root, b);
    if label_unique(g, root, b) {
        assert forall|k: int| 0 <= k < w.visits.len() implies (#[trigger] labels(g, w.visits)[k]
            == g[b].label() <==> k == at.0 || k == at.1) by {
            let c: int = w.visits[k].node;
            assert(reaches(g, root, c));
            lemma_reaches_below(g, root, c);
        }
    }
    at
}

} // verus!
