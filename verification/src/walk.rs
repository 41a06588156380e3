//! Recursive walks: what a depth-first walk from a node visits, in which
//! order, and which status it leaves behind.

use vstd::prelude::*;

use crate::graph::{arranged, lemma_reaches_below, lemma_reaches_trans, reaches, settled, Shape};
use crate::state::Exploration;

verus! {

/// One arrival at a node: which node, and the status that the walk found there.
/// At a leaf the status found is always `UnExplored`.
pub struct Visit {
    pub node: int,
    pub seen: Exploration,
}

/// The outcome of a traversal: the status table it leaves and its arrivals in
/// the order in which they happened.
pub struct Walk {
    pub status: Seq<Exploration>,
    pub visits: Seq<Visit>,
}

/// The trace of a traversal: the label of each node it arrived at, in order.
pub open spec fn labels(g: Seq<Shape>, visits: Seq<Visit>) -> Seq<Seq<char>> {
    Seq::new(visits.len(), |k: int| g[visits[k].node].label())
}

/// The depth-first walk from `n` that turns status `from` into status `to`.
///
/// Every arrival is recorded. A branch found in status `from` is set to `to`,
/// and the walk goes on into its left child and then into its right child. A
/// branch found in any other status, and a leaf, ends the walk at this point.
pub open spec fn sweep(
    g: Seq<Shape>,
    st: Seq<Exploration>,
    n: int,
    from: Exploration,
    to: Exploration,
) -> Walk
    decreases n,
    when arranged(g) && 0 <= n < g.len()
{
    let here = Visit { node: n, seen: st[n] };
    match g[n] {
        Shape::Branch { left, right, .. } => if st[n] == from {
            let a = sweep(g, st.update(n, to), left, from, to);
            let b = sweep(g, a.status, right, from, to);
            Walk { status: b.status, visits: seq![here] + a.visits + b.visits }
        } else {
            Walk { status: st, visits: seq![here] }
        },
        Shape::Leaf { .. } => Walk { status: st, visits: seq![here] },
    }
}

/// The exploring walk: unexplored branches become explored.
pub open spec fn explore_walk(g: Seq<Shape>, st: Seq<Exploration>, n: int) -> Walk {
    sweep(g, st, n, Exploration::UnExplored, Exploration::Explored)
}

/// The resetting walk: explored branches become unexplored again.
pub open spec fn unexplore_walk(g: Seq<Shape>, st: Seq<Exploration>, n: int) -> Walk {
    sweep(g, st, n, Exploration::Explored, Exploration::UnExplored)
}

/// The walk `w`, started at `n` on the table `st`, stays within what `n`
/// reaches: it begins with the arrival at `n`, arrives only at nodes reached
/// from `n`, and changes the status of such branches only.
pub open spec fn confined(g: Seq<Shape>, st: Seq<Exploration>, n: int, w: Walk) -> bool {
    &&& w.status.len() == st.len()
    &&& w.visits.len() >= 1
    &&& w.visits[0] == Visit { node: n, seen: st[n] }
    &&& forall|k: int| 0 <= k < w.visits.len() ==> reaches(g, n, (#[trigger] w.visits[k]).node)
    &&& forall|i: int|
        0 <= i < st.len() && #[trigger] w.status[i] != st[i] ==> reaches(g, n, i) && g[i] is Branch
}

/// What holds of the sweep `w` from `n` on the table `st`: the table stays
/// settled, the walk is confined, a status changes only from `from` to `to`,
/// every arrival saw either the first status of its node or `to`, and no
/// branch that was arrived at is left in status `from`.
pub open spec fn swept(
    g: Seq<Shape>,
    st: Seq<Exploration>,
    n: int,
    from: Exploration,
    to: Exploration,
    w: Walk,
) -> bool {
    &&& settled(g, w.status)
    &&& confined(g, st, n, w)
    &&& forall|i: int|
        0 <= i < st.len() && #[trigger] w.status[i] != st[i] ==> st[i] == from && w.status[i] == to
    &&& forall|k: int|
        0 <= k < w.visits.len() ==> {
            let v = #[trigger] w.visits[k];
            &&& v.seen == st[v.node] || v.seen == to
            &&& g[v.node] is Branch && from != to ==> w.status[v.node] != from
        }
}

/// The trace of two walks in a row is the trace of the first followed by the
/// trace of the second.
pub proof fn lemma_labels_concat(g: Seq<Shape>, a: Seq<Visit>, b: Seq<Visit>)
    ensures
        labels(g, a + b) == labels(g, a) + labels(g, b),
{
    assert(labels(g, a + b) =~= labels(g, a) + labels(g, b));
}

/// Every sweep is `swept`.
pub proof fn lemma_sweep(g: Seq<Shape>, st: Seq<Exploration>, n: int, from: Exploration, to: Exploration)
    requires
        settled(g, st),
        0 <= n < g.len(),
    ensures
        swept(g, st, n, from, to, sweep(g, st, n, from, to)),
    decreases n,
{
    let w = sweep(g, st, n, from, to);
    let here = Visit { node: n, seen: st[n] };
    match g[n] {
        Shape::Branch { left, right, .. } => {
            if st[n] == from {
                let st1 = st.update(n, to);
                let a = sweep(g, st1, left, from, to);
                let b = sweep(g, a.status, right, from, to);
                lemma_sweep(g, st1, left, from, to);
                lemma_sweep(g, a.status, right, from, to);
                assert(w.visits == seq![here] + a.visits + b.visits);
                assert forall|i: int| 0 <= i < st.len() && #[trigger] w.status[i] != st[i] implies reaches(
                    g,
                    n,
                    i,
                ) && g[i] is Branch && st[i] == from && w.status[i] == to by {
                    if i != n {
                        if b.status[i] != a.status[i] {
                            assert(reaches(g, right, i));
                        } else {
                            assert(a.status[i] != st1[i]);
                            assert(reaches(g, left, i));
                        }
                    } else {
                        if b.status[n] != a.status[n] {
                            lemma_reaches_below(g, right, n);
                        }
                        if a.status[n] != st1[n] {
                            lemma_reaches_below(g, left, n);
                        }
                    }
                }
                assert forall|k: int| 0 <= k < w.visits.len() implies {
                    let v = #[trigger] w.visits[k];
                    &&& reaches(g, n, v.node)
                    &&& v.seen == st[v.node] || v.seen == to
                    &&& g[v.node] is Branch && from != to ==> w.status[v.node] != from
                } by {
                    let v = w.visits[k];
                    if k == 0 {
                        assert(v == here);
                        if b.status[n] != a.status[n] {
                            lemma_reaches_below(g, right, n);
                        }
                        if a.status[n] != st1[n] {
                            lemma_reaches_below(g, left, n);
                        }
                    } else if k < 1 + a.visits.len() {
                        assert(v == a.visits[k - 1]);
                        assert(reaches(g, left, v.node));
                        lemma_reaches_below(g, left, v.node);
                    } else {
                        assert(v == b.visits[k - 1 - a.visits.len()]);
                        assert(reaches(g, right, v.node));
                        lemma_reaches_below(g, right, v.node);
                    }
                }
            }
        },
        Shape::Leaf { .. } => {},
    }
}

/// Whenever two arrivals are at the same branch, the later one did not find it
/// in status `from`.
pub open spec fn entered_once(g: Seq<Shape>, visits: Seq<Visit>, from: Exploration) -> bool {
    forall|i: int, j: int|
        0 <= i < j < visits.len() && (#[trigger] visits[i]).node == (#[trigger] visits[j]).node
            && g[visits[j].node] is Branch ==> visits[j].seen != from
}

/// A sweep enters each branch at most once, however many corridors lead to it.
pub proof fn lemma_sweep_once(g: Seq<Shape>, st: Seq<Exploration>, n: int, from: Exploration, to: Exploration)
    requires
        settled(g, st),
        0 <= n < g.len(),
        from != to,
    ensures
        entered_once(g, sweep(g, st, n, from, to).visits, from),
    decreases n,
{
    let w = sweep(g, st, n, from, to);
    let here = Visit { node: n, seen: st[n] };
    match g[n] {
        Shape::Branch { left, right, .. } => {
            if st[n] == from {
                let st1 = st.update(n, to);
                let a = sweep(g, st1, left, from, to);
                let b = sweep(g, a.status, right, from, to);
                lemma_sweep(g, st1, left, from, to);
                lemma_sweep(g, a.status, right, from, to);
                lemma_sweep_once(g, st1, left, from, to);
                lemma_sweep_once(g, a.status, right, from, to);
                assert(w.visits == seq![here] + a.visits + b.visits);
                let split: int = a.visits.len() as int + 1;
                assert forall|i: int, j: int|
                    0 <= i < j < w.visits.len() && (#[trigger] w.visits[i]).node == (
                    #[trigger] w.visits[j]).node && g[w.visits[j].node] is Branch implies w.visits[j].seen
                    != from by {
                    let x: int = w.visits[j].node;
                    if j < split {
                        assert(w.visits[j] == a.visits[j - 1]);
                        lemma_reaches_below(g, left, x);
                        if i > 0 {
                            assert(w.visits[i] == a.visits[i - 1]);
                        }
                    } else {
                        assert(w.visits[j] == b.visits[j - split]);
                        lemma_reaches_below(g, right, x);
                        if i >= split {
                            assert(w.visits[i] == b.visits[i - split]);
                        } else if i > 0 {
                            assert(w.visits[i] == a.visits[i - 1]);
                        }
                    }
                }
            }
        },
        Shape::Leaf { .. } => {},
    }
}

/// Every branch reached from `n` has status `s`.
pub open spec fn all_reached(g: Seq<Shape>, st: Seq<Exploration>, n: int, s: Exploration) -> bool {
    forall|b: int| 0 <= b < g.len() && #[trigger] reaches(g, n, b) && g[b] is Branch ==> st[b] == s
}

/// The table is ready for a sweep from `n`: every branch reached from `n` has
/// status `from` or `to`, and below one that has status `to` every branch has
/// status `to`.
pub open spec fn ripe(g: Seq<Shape>, st: Seq<Exploration>, n: int, from: Exploration, to: Exploration) -> bool {
    forall|b: int|
        0 <= b < g.len() && #[trigger] reaches(g, n, b) && g[b] is Branch ==> {
            &&& st[b] == from || st[b] == to
            &&& st[b] == to ==> all_reached(g, st, b, to)
        }
}

/// A sweep over a ripe table leaves every branch that it can reach in status
/// `to`.
pub proof fn lemma_sweep_fills(g: Seq<Shape>, st: Seq<Exploration>, n: int, from: Exploration, to: Exploration)
    requires
        settled(g, st),
        0 <= n < g.len(),
        from != to,
        ripe(g, st, n, from, to),
    ensures
        all_reached(g, sweep(g, st, n, from, to).status, n, to),
    decreases n,
{
    let w = sweep(g, st, n, from, to);
    assert(reaches(g, n, n));
    match g[n] {
        Shape::Branch { left, right, .. } => {
            if st[n] == from {
                let st1 = st.update(n, to);
                let a = sweep(g, st1, left, from, to);
                let b = sweep(g, a.status, right, from, to);
                lemma_sweep(g, st1, left, from, to);
                lemma_sweep(g, a.status, right, from, to);
                assert forall|x: int|
                    0 <= x < g.len() && #[trigger] reaches(g, left, x) && g[x] is Branch implies {
                    &&& st1[x] == from || st1[x] == to
                    &&& st1[x] == to ==> all_reached(g, st1, x, to)
                } by {
                    lemma_reaches_below(g, left, x);
                    assert(reaches(g, n, x));
                    if st1[x] == to {
                        assert forall|y: int|
                            0 <= y < g.len() && #[trigger] reaches(g, x, y) && g[y] is Branch implies st1[y]
                            == to by {
                            lemma_reaches_below(g, x, y);
                        }
                    }
                }
                lemma_sweep_fills(g, st1, left, from, to);
                assert forall|x: int|
                    0 <= x < g.len() && #[trigger] reaches(g, right, x) && g[x] is Branch implies {
                    &&& a.status[x] == from || a.status[x] == to
                    &&& a.status[x] == to ==> all_reached(g, a.status, x, to)
                } by {
                    lemma_reaches_below(g, right, x);
                    assert(reaches(g, n, x));
                    if a.status[x] == to {
                        assert forall|y: int|
                            0 <= y < g.len() && #[trigger] reaches(g, x, y) && g[y] is Branch implies a.status[y]
                            == to by {
                            lemma_reaches_below(g, x, y);
                            if st1[x] == to {
                                assert(st[y] == to);
                            } else {
                                assert(reaches(g, left, x));
                                lemma_reaches_trans(g, left, x, y);
                            }
                        }
                    }
                }
                lemma_sweep_fills(g, a.status, right, from, to);
                assert forall|x: int|
                    0 <= x < g.len() && #[trigger] reaches(g, n, x) && g[x] is Branch implies w.status[x]
                    == to by {
                    if x == n {
                        if b.status[n] != a.status[n] {
                            lemma_reaches_below(g, right, n);
                        }
                        if a.status[n] != st1[n] {
                            lemma_reaches_below(g, left, n);
                        }
                    } else if reaches(g, right, x) {
                    } else {
                        assert(reaches(g, left, x));
                    }
                }
            }
        },
        Shape::Leaf { .. } => {},
    }
}

/// The two walks arrive at the same nodes in the same order.
pub open spec fn same_path(a: Seq<Visit>, b: Seq<Visit>) -> bool {
    &&& a.len() == b.len()
    &&& forall|k: int| 0 <= k < a.len() ==> (#[trigger] a[k]).node == b[k].node
}

/// Where the sweep from `n` over the table `s` arrives, the table `t` is the
/// mirror image of `s`: a branch arrived at has status `to` in `t` exactly if
/// it has status `from` in `s`.
pub open spec fn mirrored(
    g: Seq<Shape>,
    s: Seq<Exploration>,
    t: Seq<Exploration>,
    n: int,
    from: Exploration,
    to: Exploration,
) -> bool {
    forall|k: int|
        0 <= k < sweep(g, s, n, from, to).visits.len() ==> {
            let x = (#[trigger] sweep(g, s, n, from, to).visits[k]).node;
            g[x] is Branch ==> (s[x] == from <==> t[x] == to)
        }
}

/// On mirrored tables, a sweep and the opposite sweep take the same path and
/// change the status of the same branches.
pub proof fn lemma_sweep_mirror(
    g: Seq<Shape>,
    s: Seq<Exploration>,
    t: Seq<Exploration>,
    n: int,
    from: Exploration,
    to: Exploration,
)
    requires
        settled(g, s),
        settled(g, t),
        0 <= n < g.len(),
        from != to,
        mirrored(g, s, t, n, from, to),
    ensures
        same_path(sweep(g, s, n, from, to).visits, sweep(g, t, n, to, from).visits),
        forall|x: int|
            0 <= x < g.len() ==> ((#[trigger] sweep(g, s, n, from, to).status[x]) != s[x] <==> sweep(
                g,
                t,
                n,
                to,
                from,
            ).status[x] != t[x]),
    decreases n,
{
    let e = sweep(g, s, n, from, to);
    let u = sweep(g, t, n, to, from);
    lemma_sweep(g, s, n, from, to);
    assert(e.visits[0].node == n);
    match g[n] {
        Shape::Branch { left, right, .. } => {
            if s[n] == from {
                let s1 = s.update(n, to);
                let t1 = t.update(n, from);
                let ea = sweep(g, s1, left, from, to);
                let ua = sweep(g, t1, left, to, from);
                let eb = sweep(g, ea.status, right, from, to);
                let ub = sweep(g, ua.status, right, to, from);
                lemma_sweep(g, s1, left, from, to);
                lemma_sweep(g, t1, left, to, from);
                lemma_sweep(g, ea.status, right, from, to);
                lemma_sweep(g, ua.status, right, to, from);
                assert(e.visits == seq![Visit { node: n, seen: s[n] }] + ea.visits + eb.visits);
                assert(u.visits == seq![Visit { node: n, seen: t[n] }] + ua.visits + ub.visits);
                let split: int = ea.visits.len() as int + 1;
                assert forall|k: int| 0 <= k < ea.visits.len() implies {
                    let x = (#[trigger] ea.visits[k]).node;
                    g[x] is Branch ==> (s1[x] == from <==> t1[x] == to)
                } by {
                    assert(e.visits[k + 1] == ea.visits[k]);
                    lemma_reaches_below(g, left, ea.visits[k].node);
                }
                lemma_sweep_mirror(g, s1, t1, left, from, to);
                assert forall|k: int| 0 <= k < eb.visits.len() implies {
                    let x = (#[trigger] eb.visits[k]).node;
                    g[x] is Branch ==> (ea.status[x] == from <==> ua.status[x] == to)
                } by {
                    let x: int = eb.visits[k].node;
                    assert(e.visits[k + split] == eb.visits[k]);
                    lemma_reaches_below(g, right, x);
                    assert(ea.status[x] != s1[x] <==> ua.status[x] != t1[x]);
                }
                lemma_sweep_mirror(g, ea.status, ua.status, right, from, to);
                assert forall|k: int| 0 <= k < e.visits.len() implies (#[trigger] e.visits[k]).node
                    == u.visits[k].node by {
                    if 0 < k < split {
                        assert(e.visits[k] == ea.visits[k - 1]);
                        assert(u.visits[k] == ua.visits[k - 1]);
                    } else if k >= split {
                        assert(e.visits[k] == eb.visits[k - split]);
                        assert(u.visits[k] == ub.visits[k - split]);
                    }
                }
                assert forall|x: int| 0 <= x < g.len() implies ((#[trigger] e.status[x]) != s[x]
                    <==> u.status[x] != t[x]) by {
                    assert(ea.status[x] != s1[x] <==> ua.status[x] != t1[x]);
                    assert(eb.status[x] != ea.status[x] <==> ub.status[x] != ua.status[x]);
                    if x == n {
                        if eb.status[n] != ea.status[n] {
                            lemma_reaches_below(g, right, n);
                        }
                        if ea.status[n] != s1[n] {
                            lemma_reaches_below(g, left, n);
                        }
                    }
                }
            }
        },
        Shape::Leaf { .. } => {},
    }
}

/// The arrival at position `k` is at a branch, and the arrival at a later
/// position `m` is at the right child of that branch.
pub open spec fn right_child_at(g: Seq<Shape>, visits: Seq<Visit>, k: int, m: int) -> bool {
    k < m < visits.len() && visits[m].node == g[visits[k].node]->right
}

/// The arrival at position `k` is at a branch and is followed at once by an
/// arrival at its left child, and later by an arrival at its right child.
pub open spec fn walked_from(g: Seq<Shape>, visits: Seq<Visit>, k: int) -> bool {
    &&& k + 1 < visits.len()
    &&& visits[k + 1].node == g[visits[k].node]->left
    &&& exists|m: int| right_child_at(g, visits, k, m)
}

/// Both children are walked from every arrival that found a branch in status
/// `from`.
pub open spec fn children_walked(g: Seq<Shape>, visits: Seq<Visit>, from: Exploration) -> bool {
    forall|k: int|
        0 <= k < visits.len() && g[visits[k].node] is Branch && visits[k].seen == from
            ==> #[trigger] walked_from(g, visits, k)
}

/// A sweep walks both children of every branch that it enters.
pub proof fn lemma_sweep_children(g: Seq<Shape>, st: Seq<Exploration>, n: int, from: Exploration, to: Exploration)
    requires
        settled(g, st),
        0 <= n < g.len(),
    ensures
        children_walked(g, sweep(g, st, n, from, to).visits, from),
    decreases n,
{
    let w = sweep(g, st, n, from, to);
    let here = Visit { node: n, seen: st[n] };
    match g[n] {
        Shape::Branch { left, right, .. } => {
            if st[n] == from {
                let st1 = st.update(n, to);
                let a = sweep(g, st1, left, from, to);
                let b = sweep(g, a.status, right, from, to);
                lemma_sweep(g, st1, left, from, to);
                lemma_sweep(g, a.status, right, from, to);
                lemma_sweep_children(g, st1, left, from, to);
                lemma_sweep_children(g, a.status, right, from, to);
                assert(w.visits == seq![here] + a.visits + b.visits);
                let split: int = a.visits.len() as int + 1;
                assert forall|k: int|
                    0 <= k < w.visits.len() && g[w.visits[k].node] is Branch && w.visits[k].seen
                        == from implies #[trigger] walked_from(g, w.visits, k) by {
                    if k == 0 {
                        assert(w.visits[1] == a.visits[0]);
                        assert(w.visits[split] == b.visits[0]);
                        assert(right_child_at(g, w.visits, k, split));
                    } else if k < split {
                        let inner: int = k - 1;
                        assert(w.visits[k] == a.visits[inner]);
                        assert(walked_from(g, a.visits, inner));
                        let m: int = choose|m: int| right_child_at(g, a.visits, inner, m);
                        assert(w.visits[k + 1] == a.visits[k]);
                        assert(w.visits[m + 1] == a.visits[m]);
                        assert(right_child_at(g, w.visits, k, m + 1));
                    } else {
                        let inner: int = k - split;
                        assert(w.visits[k] == b.visits[inner]);
                        assert(walked_from(g, b.visits, inner));
                        let m: int = choose|m: int| right_child_at(g, b.visits, inner, m);
                        assert(w.visits[k + 1] == b.visits[inner + 1]);
                        assert(w.visits[m + split] == b.visits[m]);
                        assert(right_child_at(g, w.visits, k, m + split));
                    }
                }
            }
        },
        Shape::Leaf { .. } => {},
    }
}

} // verus!
