//! The two-phase walk: what the two-phase work queue does to one node and
//! everything below it, written as a recursion.

use vstd::prelude::*;

use crate::graph::{arranged, lemma_reaches_below, lemma_reaches_trans, reaches, settled, Shape};
use crate::queue::{lemma_phased_step, pending, phased_drain, phased_step, Step};
use crate::state::Exploration;
use crate::walk::{all_reached, confined, ripe, Visit, Walk};

verus! {

/// The two-phase walk from `n`. An unexplored branch is entered, its left
/// child is walked, the branch is resumed, and its right child is walked. A
/// partially explored branch is resumed, and its right child is walked. An
/// explored branch and a leaf are recorded and nothing more.
pub open spec fn phased_walk(g: Seq<Shape>, st: Seq<Exploration>, n: int) -> Walk
    decreases n,
    when arranged(g) && 0 <= n < g.len()
{
    let here = Visit { node: n, seen: st[n] };
    match g[n] {
        Shape::Branch { left, right, .. } => match st[n] {
            Exploration::UnExplored => {
                let a = phased_walk(g, st.update(n, Exploration::PartiallyExplored), left);
                let again = Visit { node: n, seen: Exploration::PartiallyExplored };
                let b = phased_walk(g, a.status.update(n, Exploration::Explored), right);
                Walk { status: b.status, visits: seq![here] + a.visits + seq![again] + b.visits }
            },
            Exploration::PartiallyExplored => {
                let b = phased_walk(g, st.update(n, Exploration::Explored), right);
                Walk { status: b.status, visits: seq![here] + b.visits }
            },
            Exploration::Explored => Walk { status: st, visits: seq![here] },
        },
        Shape::Leaf { .. } => Walk { status: st, visits: seq![here] },
    }
}

/// Status `b` comes after status `a` in the life of a branch: it is further
/// on, or it is `Explored`, where a branch stays.
pub open spec fn later(a: Exploration, b: Exploration) -> bool {
    b.remaining() < a.remaining() || b == Exploration::Explored
}

/// What holds of the two-phase walk `w` from `n` on the table `st`: the table
/// stays settled, the walk is confined, no status goes back, every arrival
/// saw a status that its node had at the start or later, and the walk leaves
/// each branch in a status later than every arrival at it saw.
pub open spec fn advanced(g: Seq<Shape>, st: Seq<Exploration>, n: int, w: Walk) -> bool {
    &&& settled(g, w.status)
    &&& confined(g, st, n, w)
    &&& forall|i: int| 0 <= i < st.len() ==> (#[trigger] w.status[i]).remaining() <= st[i].remaining()
    &&& forall|k: int|
        0 <= k < w.visits.len() ==> {
            let v = #[trigger] w.visits[k];
            &&& v.seen.remaining() <= st[v.node].remaining()
            &&& g[v.node] is Branch ==> later(v.seen, w.status[v.node])
        }
}

/// Every two-phase walk is `advanced`.
pub proof fn lemma_phased_walk(g: Seq<Shape>, st: Seq<Exploration>, n: int)
    requires
        settled(g, st),
        0 <= n < g.len(),
    ensures
        advanced(g, st, n, phased_walk(g, st, n)),
    decreases n,
{
    let w = phased_walk(g, st, n);
    let here = Visit { node: n, seen: st[n] };
    assert(reaches(g, n, n));
    match g[n] {
        Shape::Branch { left, right, .. } => match st[n] {
            Exploration::UnExplored => {
                let st1 = st.update(n, Exploration::PartiallyExplored);
                let a = phased_walk(g, st1, left);
                let again = Visit { node: n, seen: Exploration::PartiallyExplored };
                let st2 = a.status.update(n, Exploration::Explored);
                let b = phased_walk(g, st2, right);
                lemma_phased_walk(g, st1, left);
                lemma_phased_walk(g, st2, right);
                assert(w.visits == seq![here] + a.visits + seq![again] + b.visits);
                let split: int = a.visits.len() as int + 1;
                assert forall|i: int| 0 <= i < st.len() && #[trigger] w.status[i] != st[i] implies reaches(
                    g,
                    n,
                    i,
                ) && g[i] is Branch by {
                    if i != n {
                        if b.status[i] != st2[i] {
                            assert(reaches(g, right, i));
                        } else {
                            assert(a.status[i] != st1[i]);
                            assert(reaches(g, left, i));
                        }
                    }
                }
                assert forall|k: int| 0 <= k < w.visits.len() implies {
                    let v = #[trigger] w.visits[k];
                    &&& reaches(g, n, v.node)
                    &&& v.seen.remaining() <= st[v.node].remaining()
                    &&& g[v.node] is Branch ==> later(v.seen, w.status[v.node])
                } by {
                    let v = w.visits[k];
                    if k == 0 {
                        assert(v == here);
                    } else if k < split {
                        assert(v == a.visits[k - 1]);
                        assert(reaches(g, left, v.node));
                        lemma_reaches_below(g, left, v.node);
                    } else if k == split {
                        assert(v == again);
                    } else {
                        assert(v == b.visits[k - split - 1]);
                        assert(reaches(g, right, v.node));
                        lemma_reaches_below(g, right, v.node);
                    }
                }
            },
            Exploration::PartiallyExplored => {
                let st1 = st.update(n, Exploration::Explored);
                let b = phased_walk(g, st1, right);
                lemma_phased_walk(g, st1, right);
                assert(w.visits == seq![here] + b.visits);
                assert forall|i: int| 0 <= i < st.len() && #[trigger] w.status[i] != st[i] implies reaches(
                    g,
                    n,
                    i,
                ) && g[i] is Branch by {
                    if i != n {
                        assert(reaches(g, right, i));
                    }
                }
                assert forall|k: int| 0 <= k < w.visits.len() implies {
                    let v = #[trigger] w.visits[k];
                    &&& reaches(g, n, v.node)
                    &&& v.seen.remaining() <= st[v.node].remaining()
                    &&& g[v.node] is Branch ==> later(v.seen, w.status[v.node])
                } by {
                    let v = w.visits[k];
                    if k == 0 {
                        assert(v == here);
                    } else {
                        assert(v == b.visits[k - 1]);
                        assert(reaches(g, right, v.node));
                        lemma_reaches_below(g, right, v.node);
                    }
                }
            },
            Exploration::Explored => {},
        },
        Shape::Leaf { .. } => {},
    }
}

/// Whenever two arrivals are at the same branch, the later one found it in a
/// later status than the earlier one did.
pub open spec fn in_order(g: Seq<Shape>, visits: Seq<Visit>) -> bool {
    forall|i: int, j: int|
        0 <= i < j < visits.len() && (#[trigger] visits[i]).node == (#[trigger] visits[j]).node
            && g[visits[j].node] is Branch ==> later(visits[i].seen, visits[j].seen)
}

/// The arrivals of a two-phase walk at one branch are in order.
pub proof fn lemma_phased_order(g: Seq<Shape>, st: Seq<Exploration>, n: int)
    requires
        settled(g, st),
        0 <= n < g.len(),
    ensures
        in_order(g, phased_walk(g, st, n).visits),
    decreases n,
{
    let w = phased_walk(g, st, n);
    let here = Visit { node: n, seen: st[n] };
    match g[n] {
        Shape::Branch { left, right, .. } => match st[n] {
            Exploration::UnExplored => {
                let st1 = st.update(n, Exploration::PartiallyExplored);
                let a = phased_walk(g, st1, left);
                let again = Visit { node: n, seen: Exploration::PartiallyExplored };
                let st2 = a.status.update(n, Exploration::Explored);
                let b = phased_walk(g, st2, right);
                lemma_phased_walk(g, st1, left);
                lemma_phased_walk(g, st2, right);
                lemma_phased_order(g, st1, left);
                lemma_phased_order(g, st2, right);
                assert(w.visits == seq![here] + a.visits + seq![again] + b.visits);
                let split: int = a.visits.len() as int + 1;
                assert forall|i: int, j: int|
                    0 <= i < j < w.visits.len() && (#[trigger] w.visits[i]).node == (
                    #[trigger] w.visits[j]).node && g[w.visits[j].node] is Branch implies later(
                    w.visits[i].seen,
                    w.visits[j].seen,
                ) by {
                    let x: int = w.visits[j].node;
                    if i > 0 && i < split {
                        assert(w.visits[i] == a.visits[i - 1]);
                        lemma_reaches_below(g, left, w.visits[i].node);
                    }
                    if i > split {
                        assert(w.visits[i] == b.visits[i - split - 1]);
                    }
                    if j < split {
                        assert(w.visits[j] == a.visits[j - 1]);
                        lemma_reaches_below(g, left, x);
                    } else if j > split {
                        assert(w.visits[j] == b.visits[j - split - 1]);
                        lemma_reaches_below(g, right, x);
                    }
                }
            },
            Exploration::PartiallyExplored => {
                let st1 = st.update(n, Exploration::Explored);
                let b = phased_walk(g, st1, right);
                lemma_phased_walk(g, st1, right);
                lemma_phased_order(g, st1, right);
                assert(w.visits == seq![here] + b.visits);
                assert forall|i: int, j: int|
                    0 <= i < j < w.visits.len() && (#[trigger] w.visits[i]).node == (
                    #[trigger] w.visits[j]).node && g[w.visits[j].node] is Branch implies later(
                    w.visits[i].seen,
                    w.visits[j].seen,
                ) by {
                    assert(w.visits[j] == b.visits[j - 1]);
                    lemma_reaches_below(g, right, w.visits[j].node);
                    if i > 0 {
                        assert(w.visits[i] == b.visits[i - 1]);
                    }
                }
            },
            Exploration::Explored => {},
        },
        Shape::Leaf { .. } => {},
    }
}

/// With `n` on top of the pending list, the two-phase drain first does what
/// the two-phase walk from `n` does, and then drains the rest of the list.
pub proof fn lemma_phased_drain_push(g: Seq<Shape>, st: Seq<Exploration>, rest: Seq<int>, n: int)
    requires
        settled(g, st),
        pending(g, rest),
        0 <= n < g.len(),
    ensures
        ({
            let w = phased_walk(g, st, n);
            let tail = phased_drain(g, w.status, rest);
            phased_drain(g, st, rest.push(n)) == Walk {
                status: tail.status,
                visits: w.visits + tail.visits,
            }
        }),
    decreases n,
{
    let work = rest.push(n);
    let w = phased_walk(g, st, n);
    let tail = phased_drain(g, w.status, rest);
    let here = Visit { node: n, seen: st[n] };
    assert(work.last() == n);
    assert(work.drop_last() =~= rest);
    lemma_phased_step(g, st, work);
    match g[n] {
        Shape::Branch { left, right, .. } => match st[n] {
            Exploration::UnExplored => {
                let st1 = st.update(n, Exploration::PartiallyExplored);
                let a = phased_walk(g, st1, left);
                let again = Visit { node: n, seen: Exploration::PartiallyExplored };
                let st2 = a.status.update(n, Exploration::Explored);
                let b = phased_walk(g, st2, right);
                lemma_phased_walk(g, st1, left);
                lemma_phased_walk(g, st2, right);
                lemma_phased_drain_push(g, st1, work, left);
                assert(a.status[n] == Exploration::PartiallyExplored) by {
                    if a.status[n] != st1[n] {
                        lemma_reaches_below(g, left, n);
                    }
                }
                lemma_phased_step(g, a.status, work);
                assert(phased_step(g, a.status, work) == Step {
                    status: st2,
                    work: rest.push(right),
                    visit: again,
                });
                lemma_phased_drain_push(g, st2, rest, right);
                assert(seq![here] + (a.visits + (seq![again] + (b.visits + tail.visits))) =~= (
                seq![here] + a.visits + seq![again] + b.visits) + tail.visits);
            },
            Exploration::PartiallyExplored => {
                let st1 = st.update(n, Exploration::Explored);
                let b = phased_walk(g, st1, right);
                lemma_phased_walk(g, st1, right);
                lemma_phased_drain_push(g, st1, rest, right);
                assert(seq![here] + (b.visits + tail.visits) =~= (seq![here] + b.visits)
                    + tail.visits);
            },
            Exploration::Explored => {
                assert(seq![here] + tail.visits =~= w.visits + tail.visits);
            },
        },
        Shape::Leaf { .. } => {
            assert(seq![here] + tail.visits =~= w.visits + tail.visits);
        },
    }
}

/// No branch below `n` is shared: no branch can be reached from `n` along two
/// different paths. Leaves may be shared.
pub open spec fn unshared(g: Seq<Shape>, n: int) -> bool
    decreases n,
    when arranged(g) && 0 <= n < g.len()
{
    match g[n] {
        Shape::Branch { left, right, .. } => {
            &&& unshared(g, left)
            &&& unshared(g, right)
            &&& forall|b: int|
                0 <= b < g.len() && #[trigger] reaches(g, left, b) && reaches(g, right, b) ==> g[b] is Leaf
        },
        Shape::Leaf { .. } => true,
    }
}

/// Among `visits`, the arrivals at `b` are exactly two: the one at position
/// `i`, which found `b` unexplored, and the one at the later position `j`,
/// which found it partially explored.
pub open spec fn entered_and_resumed(visits: Seq<Visit>, b: int, i: int, j: int) -> bool {
    &&& 0 <= i < j < visits.len()
    &&& visits[i] == Visit { node: b, seen: Exploration::UnExplored }
    &&& visits[j] == Visit { node: b, seen: Exploration::PartiallyExplored }
    &&& forall|k: int| 0 <= k < visits.len() && k != i && k != j ==> (#[trigger] visits[k]).node != b
}

/// Where the branches below `n` are unexplored and unshared, the two-phase walk
/// from `n` arrives at each of them exactly twice, first to enter and then to
/// resume. The result is the two positions.
pub proof fn lemma_phased_walk_twice(g: Seq<Shape>, st: Seq<Exploration>, n: int, b: int) -> (at: (
    int,
    int,
))
    requires
        settled(g, st),
        0 <= n < g.len(),
        all_reached(g, st, n, Exploration::UnExplored),
        unshared(g, n),
        reaches(g, n, b),
        g[b] is Branch,
    ensures
        entered_and_resumed(phased_walk(g, st, n).visits, b, at.0, at.1),
    decreases n,
{
    let w = phased_walk(g, st, n);
    let here = Visit { node: n, seen: st[n] };
    assert(reaches(g, n, n));
    lemma_reaches_below(g, n, b);
    match g[n] {
        Shape::Branch { left, right, .. } => {
            let st1 = st.update(n, Exploration::PartiallyExplored);
            let a = phased_walk(g, st1, left);
            let again = Visit { node: n, seen: Exploration::PartiallyExplored };
            let st2 = a.status.update(n, Exploration::Explored);
            let c = phased_walk(g, st2, right);
            lemma_phased_walk(g, st1, left);
            lemma_phased_walk(g, st2, right);
            assert(w.visits == seq![here] + a.visits + seq![again] + c.visits);
            let split: int = a.visits.len() as int + 1;
            assert forall|k: int| 1 <= k < split implies #[trigger] w.visits[k] == a.visits[k - 1]
                && reaches(g, left, w.visits[k].node) && w.visits[k].node < n by {
                lemma_reaches_below(g, left, a.visits[k - 1].node);
            }
            assert forall|k: int| split < k < w.visits.len() implies #[trigger] w.visits[k]
                == c.visits[k - split - 1] && reaches(g, right, w.visits[k].node) && w.visits[k].node
                < n by {
                lemma_reaches_below(g, right, c.visits[k - split - 1].node);
            }
            assert(w.visits[0] == here);
            assert(w.visits[split] == again);
            if b == n {
                (0, split)
            } else if reaches(g, left, b) {
                assert forall|x: int|
                    0 <= x < g.len() && #[trigger] reaches(g, left, x) && g[x] is Branch implies st1[x]
                    == Exploration::UnExplored by {
                    lemma_reaches_below(g, left, x);
                    assert(reaches(g, n, x));
                }
                let inner = lemma_phased_walk_twice(g, st1, left, b);
                assert(w.visits[inner.0 + 1] == a.visits[inner.0]);
                assert(w.visits[inner.1 + 1] == a.visits[inner.1]);
                assert forall|k: int|
                    0 <= k < w.visits.len() && k != inner.0 + 1 && k != inner.1 + 1 implies (
                #[trigger] w.visits[k]).node != b by {
                    if 1 <= k < split {
                        assert(a.visits[k - 1].node != b);
                    }
                }
                (inner.0 + 1, inner.1 + 1)
            } else {
                assert(reaches(g, right, b));
                assert forall|x: int|
                    0 <= x < g.len() && #[trigger] reaches(g, right, x) && g[x] is Branch implies st2[x]
                    == Exploration::UnExplored by {
                    lemma_reaches_below(g, right, x);
                    assert(reaches(g, n, x));
                    if a.status[x] != st1[x] {
                        assert(reaches(g, left, x));
                    }
                }
                let inner = lemma_phased_walk_twice(g, st2, right, b);
                assert(w.visits[inner.0 + split + 1] == c.visits[inner.0]);
                assert(w.visits[inner.1 + split + 1] == c.visits[inner.1]);
                assert forall|k: int|
                    0 <= k < w.visits.len() && k != inner.0 + split + 1 && k != inner.1 + split + 1 implies (
                #[trigger] w.visits[k]).node != b by {
                    if split < k {
                        assert(c.visits[k - split - 1].node != b);
                    }
                }
                (inner.0 + split + 1, inner.1 + split + 1)
            }
        },
        Shape::Leaf { .. } => (0, 0),
    }
}

/// A two-phase walk over a table that is ripe for exploring leaves every branch
/// that it can reach explored.
pub proof fn lemma_phased_walk_fills(g: Seq<Shape>, st: Seq<Exploration>, n: int)
    requires
        settled(g, st),
        0 <= n < g.len(),
        ripe(g, st, n, Exploration::UnExplored, Exploration::Explored),
    ensures
        all_reached(g, phased_walk(g, st, n).status, n, Exploration::Explored),
    decreases n,
{
    let w = phased_walk(g, st, n);
    assert(reaches(g, n, n));
    match g[n] {
        Shape::Branch { left, right, .. } => {
            if st[n] == Exploration::UnExplored {
                let st1 = st.update(n, Exploration::PartiallyExplored);
                let a = phased_walk(g, st1, left);
                let st2 = a.status.update(n, Exploration::Explored);
                let c = phased_walk(g, st2, right);
                lemma_phased_walk(g, st1, left);
                lemma_phased_walk(g, st2, right);
                assert forall|x: int|
                    0 <= x < g.len() && #[trigger] reaches(g, left, x) && g[x] is Branch implies {
                    &&& st1[x] == Exploration::UnExplored || st1[x] == Exploration::Explored
                    &&& st1[x] == Exploration::Explored ==> all_reached(g, st1, x, Exploration::Explored)
                } by {
                    lemma_reaches_below(g, left, x);
                    assert(reaches(g, n, x));
                    if st1[x] == Exploration::Explored {
                        assert forall|y: int|
                            0 <= y < g.len() && #[trigger] reaches(g, x, y) && g[y] is Branch implies st1[y]
                            == Exploration::Explored by {
                            lemma_reaches_below(g, x, y);
                        }
                    }
                }
                lemma_phased_walk_fills(g, st1, left);
                assert forall|x: int|
                    0 <= x < g.len() && #[trigger] reaches(g, right, x) && g[x] is Branch implies {
                    &&& st2[x] == Exploration::UnExplored || st2[x] == Exploration::Explored
                    &&& st2[x] == Exploration::Explored ==> all_reached(g, st2, x, Exploration::Explored)
                } by {
                    lemma_reaches_below(g, right, x);
                    assert(reaches(g, n, x));
                    if a.status[x] != st1[x] {
                        assert(reaches(g, left, x));
                    }
                    if st2[x] == Exploration::Explored {
                        assert forall|y: int|
                            0 <= y < g.len() && #[trigger] reaches(g, x, y) && g[y] is Branch implies st2[y]
                            == Exploration::Explored by {
                            lemma_reaches_below(g, x, y);
                            if st1[x] == Exploration::Explored {
                                assert(st[y] == Exploration::Explored);
                                assert(a.status[y].remaining() <= st1[y].remaining());
                            } else {
                                assert(reaches(g, left, x));
                                lemma_reaches_trans(g, left, x, y);
                            }
                        }
                    }
                }
                lemma_phased_walk_fills(g, st2, right);
                assert forall|x: int|
                    0 <= x < g.len() && #[trigger] reaches(g, n, x) && g[x] is Branch implies w.status[x]
                    == Exploration::Explored by {
                    assert(c.status[x].remaining() <= st2[x].remaining());
                    if x == n {
                    } else if reaches(g, right, x) {
                    } else {
                        assert(reaches(g, left, x));
                    }
                }
            }
        },
        Shape::Leaf { .. } => {},
    }
}

/// If a two-phase walk moved the unexplored branch `x` on, it entered it: the
/// result is the position of an arrival that found `x` unexplored.
pub proof fn lemma_phased_entered(g: Seq<Shape>, st: Seq<Exploration>, n: int, x: int) -> (k: int)
    requires
        settled(g, st),
        0 <= n < g.len(),
        0 <= x < g.len(),
        g[x] is Branch,
        st[x] == Exploration::UnExplored,
        phased_walk(g, st, n).status[x] != Exploration::UnExplored,
    ensures
        0 <= k < phased_walk(g, st, n).visits.len(),
        phased_walk(g, st, n).visits[k] == (Visit { node: x, seen: Exploration::UnExplored }),
    decreases n,
{
    let w = phased_walk(g, st, n);
    let here = Visit { node: n, seen: st[n] };
    match g[n] {
        Shape::Branch { left, right, .. } => match st[n] {
            Exploration::UnExplored => {
                let st1 = st.update(n, Exploration::PartiallyExplored);
                let a = phased_walk(g, st1, left);
                let again = Visit { node: n, seen: Exploration::PartiallyExplored };
                let st2 = a.status.update(n, Exploration::Explored);
                let c = phased_walk(g, st2, right);
                lemma_phased_walk(g, st1, left);
                lemma_phased_walk(g, st2, right);
                assert(w.visits == seq![here] + a.visits + seq![again] + c.visits);
                let split: int = a.visits.len() as int + 1;
                if x == n {
                    0
                } else if a.status[x] != Exploration::UnExplored {
                    let k: int = lemma_phased_entered(g, st1, left, x);
                    assert(w.visits[k + 1] == a.visits[k]);
                    k + 1
                } else {
                    let k: int = lemma_phased_entered(g, st2, right, x);
                    assert(w.visits[k + split + 1] == c.visits[k]);
                    k + split + 1
                }
            },
            Exploration::PartiallyExplored => {
                let st1 = st.update(n, Exploration::Explored);
                let c = phased_walk(g, st1, right);
                lemma_phased_walk(g, st1, right);
                assert(w.visits == seq![here] + c.visits);
                let k: int = lemma_phased_entered(g, st1, right, x);
                assert(w.visits[k + 1] == c.visits[k]);
                k + 1
            },
            Exploration::Explored => 0,
        },
        Shape::Leaf { .. } => 0,
    }
}

/// If a two-phase walk brought the branch `x` to `Explored`, it resumed it: the
/// result is the position of an arrival that found `x` partially explored.
pub proof fn lemma_phased_resumed(g: Seq<Shape>, st: Seq<Exploration>, n: int, x: int) -> (k: int)
    requires
        settled(g, st),
        0 <= n < g.len(),
        0 <= x < g.len(),
        g[x] is Branch,
        st[x] != Exploration::Explored,
        phased_walk(g, st, n).status[x] == Exploration::Explored,
    ensures
        0 <= k < phased_walk(g, st, n).visits.len(),
        phased_walk(g, st, n).visits[k] == (Visit { node: x, seen: Exploration::PartiallyExplored }),
    decreases n,
{
    let w = phased_walk(g, st, n);
    let here = Visit { node: n, seen: st[n] };
    match g[n] {
        Shape::Branch { left, right, .. } => match st[n] {
            Exploration::UnExplored => {
                let st1 = st.update(n, Exploration::PartiallyExplored);
                let a = phased_walk(g, st1, left);
                let again = Visit { node: n, seen: Exploration::PartiallyExplored };
                let st2 = a.status.update(n, Exploration::Explored);
                let c = phased_walk(g, st2, right);
                lemma_phased_walk(g, st1, left);
                lemma_phased_walk(g, st2, right);
                assert(w.visits == seq![here] + a.visits + seq![again] + c.visits);
                let split: int = a.visits.len() as int + 1;
                if x == n {
                    assert(w.visits[split] == again);
                    split
                } else if a.status[x] == Exploration::Explored {
                    let k: int = lemma_phased_resumed(g, st1, left, x);
                    assert(w.visits[k + 1] == a.visits[k]);
                    k + 1
                } else {
                    let k: int = lemma_phased_resumed(g, st2, right, x);
                    assert(w.visits[k + split + 1] == c.visits[k]);
                    k + split + 1
                }
            },
            Exploration::PartiallyExplored => {
                let st1 = st.update(n, Exploration::Explored);
                let c = phased_walk(g, st1, right);
                lemma_phased_walk(g, st1, right);
                assert(w.visits == seq![here] + c.visits);
                if x == n {
                    0
                } else {
                    let k: int = lemma_phased_resumed(g, st1, right, x);
                    assert(w.visits[k + 1] == c.visits[k]);
                    k + 1
                }
            },
            Exploration::Explored => 0,
        },
        Shape::Leaf { .. } => 0,
    }
}

} // verus!
