//! The work-queue strategy: a pending list of nodes, worked off one step at a
//! time. The list is a stack: the node pushed last is taken first.

use vstd::prelude::*;

use crate::graph::{settled, Shape};
use crate::state::Exploration;
use crate::walk::{explore_walk, lemma_sweep, Visit, Walk};

verus! {

/// The outcome of one step: the new status table, the new pending list and the
/// arrival that the step recorded.
pub struct Step {
    pub status: Seq<Exploration>,
    pub work: Seq<int>,
    pub visit: Visit,
}

/// Every entry of the pending list is a node of the maze.
pub open spec fn pending(g: Seq<Shape>, work: Seq<int>) -> bool {
    forall|i: int| 0 <= i < work.len() ==> 0 <= #[trigger] work[i] < g.len()
}

/// The pending list of indices as the model has it.
pub open spec fn indices(work: Seq<usize>) -> Seq<int> {
    work.map_values(|n: usize| n as int)
}

/// One eager step on a pending list that is not empty. The last node is taken
/// and recorded. If it is an unexplored branch it becomes explored, and its
/// children are pushed, right and then left, so that the left one is taken
/// first.
pub open spec fn eager_step(g: Seq<Shape>, st: Seq<Exploration>, work: Seq<int>) -> Step
    recommends
        work.len() > 0,
{
    let n: int = work.last();
    let rest = work.drop_last();
    let visit = Visit { node: n, seen: st[n] };
    match g[n] {
        Shape::Branch { left, right, .. } => if st[n] == Exploration::UnExplored {
            Step {
                status: st.update(n, Exploration::Explored),
                work: rest.push(right).push(left),
                visit,
            }
        } else {
            Step { status: st, work: rest, visit }
        },
        Shape::Leaf { .. } => Step { status: st, work: rest, visit },
    }
}

/// One two-phase step on a pending list that is not empty. The last node is
/// taken and recorded. An unexplored branch becomes partially explored and
/// pushes itself and then its left child; a partially explored branch becomes
/// explored and pushes its right child; an explored branch and a leaf push
/// nothing.
pub open spec fn phased_step(g: Seq<Shape>, st: Seq<Exploration>, work: Seq<int>) -> Step
    recommends
        work.len() > 0,
{
    let n: int = work.last();
    let rest = work.drop_last();
    let visit = Visit { node: n, seen: st[n] };
    match g[n] {
        Shape::Branch { left, right, .. } => match st[n] {
            Exploration::UnExplored => Step {
                status: st.update(n, Exploration::PartiallyExplored),
                work: rest.push(n).push(left),
                visit,
            },
            Exploration::PartiallyExplored => Step {
                status: st.update(n, Exploration::Explored),
                work: rest.push(right),
                visit,
            },
            Exploration::Explored => Step { status: st, work: rest, visit },
        },
        Shape::Leaf { .. } => Step { status: st, work: rest, visit },
    }
}

/// The number of two-phase steps that can still change the table. No step
/// raises it, and a step that does not lower it shortens the pending list:
/// this is why every drain ends.
pub open spec fn weight(st: Seq<Exploration>) -> nat
    decreases st.len(),
{
    if st.len() == 0 {
        0
    } else {
        weight(st.drop_last()) + st.last().remaining()
    }
}

/// Changing one entry changes the weight by the difference of the two.
pub proof fn lemma_weight_update(st: Seq<Exploration>, n: int, to: Exploration)
    requires
        0 <= n < st.len(),
    ensures
        weight(st.update(n, to)) + st[n].remaining() == weight(st) + to.remaining(),
    decreases st.len(),
{
    if n == st.len() - 1 {
        assert(st.update(n, to).drop_last() =~= st.drop_last());
    } else {
        assert(st.update(n, to).drop_last() =~= st.drop_last().update(n, to));
        lemma_weight_update(st.drop_last(), n, to);
    }
}

/// A step brings the drain nearer to its end and keeps table and list valid.
pub open spec fn advances(g: Seq<Shape>, st: Seq<Exploration>, work: Seq<int>, s: Step) -> bool {
    &&& settled(g, s.status)
    &&& pending(g, s.work)
    &&& 0 <= s.visit.node < g.len()
    &&& weight(s.status) < weight(st) || (weight(s.status) == weight(st) && s.work.len() < work.len())
}

/// Every eager step advances.
pub proof fn lemma_eager_step(g: Seq<Shape>, st: Seq<Exploration>, work: Seq<int>)
    requires
        settled(g, st),
        pending(g, work),
        work.len() > 0,
    ensures
        advances(g, st, work, eager_step(g, st, work)),
{
    let n: int = work.last();
    lemma_weight_update(st, n, Exploration::Explored);
}

/// Every two-phase step advances.
pub proof fn lemma_phased_step(g: Seq<Shape>, st: Seq<Exploration>, work: Seq<int>)
    requires
        settled(g, st),
        pending(g, work),
        work.len() > 0,
    ensures
        advances(g, st, work, phased_step(g, st, work)),
{
    let n: int = work.last();
    lemma_weight_update(st, n, Exploration::Explored);
    lemma_weight_update(st, n, Exploration::PartiallyExplored);
}

/// The eager drain: eager steps until the pending list is empty.
pub open spec fn eager_drain(g: Seq<Shape>, st: Seq<Exploration>, work: Seq<int>) -> Walk
    decreases weight(st), work.len(),
    when settled(g, st) && pending(g, work)
    via eager_drain_ends
{
    if work.len() == 0 {
        Walk { status: st, visits: Seq::empty() }
    } else {
        let s = eager_step(g, st, work);
        let tail = eager_drain(g, s.status, s.work);
        Walk { status: tail.status, visits: seq![s.visit] + tail.visits }
    }
}

#[via_fn]
proof fn eager_drain_ends(g: Seq<Shape>, st: Seq<Exploration>, work: Seq<int>) {
    if work.len() != 0 {
        lemma_eager_step(g, st, work);
    }
}

/// The two-phase drain: two-phase steps until the pending list is empty.
pub open spec fn phased_drain(g: Seq<Shape>, st: Seq<Exploration>, work: Seq<int>) -> Walk
    decreases weight(st), work.len(),
    when settled(g, st) && pending(g, work)
    via phased_drain_ends
{
    if work.len() == 0 {
        Walk { status: st, visits: Seq::empty() }
    } else {
        let s = phased_step(g, st, work);
        let tail = phased_drain(g, s.status, s.work);
        Walk { status: tail.status, visits: seq![s.visit] + tail.visits }
    }
}

#[via_fn]
proof fn phased_drain_ends(g: Seq<Shape>, st: Seq<Exploration>, work: Seq<int>) {
    if work.len() != 0 {
        lemma_phased_step(g, st, work);
    }
}

/// With `n` on top of the pending list, the eager drain first does what the
/// exploring walk from `n` does, and then drains the rest of the list.
pub proof fn lemma_eager_drain_push(g: Seq<Shape>, st: Seq<Exploration>, rest: Seq<int>, n: int)
    requires
        settled(g, st),
        pending(g, rest),
        0 <= n < g.len(),
    ensures
        ({
            let w = explore_walk(g, st, n);
            let tail = eager_drain(g, w.status, rest);
            eager_drain(g, st, rest.push(n)) == Walk {
                status: tail.status,
                visits: w.visits + tail.visits,
            }
        }),
    decreases n,
{
    let work = rest.push(n);
    let w = explore_walk(g, st, n);
    let tail = eager_drain(g, w.status, rest);
    let s = eager_step(g, st, work);
    let here = Visit { node: n, seen: st[n] };
    assert(work.last() == n);
    assert(work.drop_last() =~= rest);
    lemma_eager_step(g, st, work);
    match g[n] {
        Shape::Branch { left, right, .. } => {
            if st[n] == Exploration::UnExplored {
                let st1 = st.update(n, Exploration::Explored);
                let a = explore_walk(g, st1, left);
                let b = explore_walk(g, a.status, right);
                lemma_sweep(g, st1, left, Exploration::UnExplored, Exploration::Explored);
                lemma_sweep(g, a.status, right, Exploration::UnExplored, Exploration::Explored);
                lemma_eager_drain_push(g, st1, rest.push(right), left);
                lemma_eager_drain_push(g, a.status, rest, right);
                assert(s.work == rest.push(right).push(left));
                assert(seq![here] + (a.visits + (b.visits + tail.visits)) =~= (seq![here] + a.visits
                    + b.visits) + tail.visits);
            } else {
                assert(seq![here] + tail.visits =~= w.visits + tail.visits);
            }
        },
        Shape::Leaf { .. } => {
            assert(seq![here] + tail.visits =~= w.visits + tail.visits);
        },
    }
}

} // verus!
