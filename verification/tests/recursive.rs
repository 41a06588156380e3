use maze::{maze, Exploration, Maze};

fn strings(labels: &[&str]) -> Vec<String> {
    labels.iter().map(|label| label.to_string()).collect()
}

/// root over a and b; a over c and a leaf; b over c and a leaf; c over two leaves.
fn diamond() -> (Maze, usize, usize) {
    let mut m = Maze::new();
    let x: usize = m.new_leaf("x");
    let y: usize = m.new_leaf("y");
    let c: usize = m.new_branch("c", x, y);
    let p: usize = m.new_leaf("p");
    let q: usize = m.new_leaf("q");
    let a: usize = m.new_branch("a", c, p);
    let b: usize = m.new_branch("b", c, q);
    let root: usize = m.new_branch("root", a, b);
    (m, root, c)
}

#[test]
fn sample_explore_with_trace() {
    let (mut m, root) = maze();
    let mut trace: Vec<String> = Vec::new();
    m.explore_with_trace(root, &mut trace);
    assert_eq!(trace, strings(&["0", "1", "2", "3", "4", "5", "6", "3", "7", "5", "8"]));
}

#[test]
fn sample_explore_returns_the_same_trace() {
    let (mut m, root) = maze();
    let trace = m.explore(root);
    assert_eq!(trace, strings(&["0", "1", "2", "3", "4", "5", "6", "3", "7", "5", "8"]));
}

#[test]
fn explore_with_trace_appends_to_what_is_there() {
    let (mut m, root) = maze();
    let mut trace: Vec<String> = strings(&["start"]);
    m.explore_with_trace(root, &mut trace);
    assert_eq!(
        trace,
        strings(&["start", "0", "1", "2", "3", "4", "5", "6", "3", "7", "5", "8"])
    );
}

#[test]
fn explore_marks_every_branch_explored() {
    let (mut m, root) = maze();
    m.explore(root);
    for n in 0..m.len() {
        match m.children(n) {
            Some(_) => assert_eq!(m.status(n), Some(Exploration::Explored)),
            None => assert_eq!(m.status(n), None),
        }
    }
    assert!(!m.is_fresh());
}

#[test]
fn second_explore_records_the_root_only() {
    let (mut m, root) = maze();
    m.explore(root);
    assert_eq!(m.explore(root), strings(&["0"]));
    let mut trace: Vec<String> = Vec::new();
    m.explore_with_trace(root, &mut trace);
    assert_eq!(trace, strings(&["0"]));
}

#[test]
fn explore_of_a_leaf_records_the_leaf() {
    let (mut m, _) = maze();
    assert_eq!(m.explore(2), strings(&["5"]));
    assert_eq!(m.explore(2), strings(&["5"]));
    assert!(m.is_fresh());
}

#[test]
fn explore_below_the_root_leaves_the_rest_untouched() {
    let (mut m, root) = maze();
    assert_eq!(m.explore(4), strings(&["3", "4", "5"]));
    assert_eq!(m.status(4), Some(Exploration::Explored));
    assert_eq!(m.status(root), Some(Exploration::UnExplored));
    assert_eq!(m.explore(root), strings(&["0", "1", "2", "3", "6", "3", "7", "5", "8"]));
}

#[test]
fn diamond_enters_the_shared_branch_once() {
    let (mut m, root, _) = diamond();
    let trace = m.explore(root);
    assert_eq!(trace, strings(&["root", "a", "c", "x", "y", "p", "b", "c", "q"]));
    assert_eq!(trace.iter().filter(|label| label.as_str() == "c").count(), 2);
    assert_eq!(trace.iter().filter(|label| label.as_str() == "x").count(), 1);
    assert_eq!(trace.iter().filter(|label| label.as_str() == "y").count(), 1);
}

#[test]
fn shared_leaf_is_recorded_on_every_path() {
    let (mut m, root) = maze();
    let trace = m.explore(root);
    assert_eq!(trace.iter().filter(|label| label.as_str() == "5").count(), 2);
}

#[test]
fn unexplore_walks_like_explore_and_resets() {
    let (mut m, root) = maze();
    let first = m.explore(root);
    let reset = m.unexplore(root);
    assert_eq!(reset, first);
    assert!(m.is_fresh());
    for n in 0..m.len() {
        if m.children(n).is_some() {
            assert_eq!(m.status(n), Some(Exploration::UnExplored));
        }
    }
}

#[test]
fn explore_unexplore_explore_repeats_the_trace() {
    let (mut m, root) = maze();
    let mut first: Vec<String> = Vec::new();
    m.explore_with_trace(root, &mut first);
    m.unexplore(root);
    let second = m.explore(root);
    assert_eq!(second, first);
    assert_eq!(second, strings(&["0", "1", "2", "3", "4", "5", "6", "3", "7", "5", "8"]));
}

#[test]
fn diamond_round_trip() {
    let (mut m, root, c) = diamond();
    let first = m.explore(root);
    assert_eq!(m.status(c), Some(Exploration::Explored));
    let reset = m.unexplore(root);
    assert_eq!(reset, strings(&["root", "a", "c", "x", "y", "p", "b", "c", "q"]));
    assert_eq!(m.status(c), Some(Exploration::UnExplored));
    assert!(m.is_fresh());
    assert_eq!(m.explore(root), first);
}

#[test]
fn unexplore_of_an_unexplored_branch_records_it_only() {
    let (mut m, root) = maze();
    assert_eq!(m.unexplore(root), strings(&["0"]));
    assert!(m.is_fresh());
}

#[test]
fn unexplore_stops_at_unexplored_branches() {
    let (mut m, root) = maze();
    m.explore(4);
    assert_eq!(m.unexplore(root), strings(&["0"]));
    assert_eq!(m.status(4), Some(Exploration::Explored));
    assert_eq!(m.unexplore(4), strings(&["3", "4", "5"]));
    assert!(m.is_fresh());
}

#[test]
fn explore_without_reset_differs_after_partial_reset() {
    let (mut m, root) = maze();
    m.explore(root);
    m.unexplore(7);
    assert_eq!(m.explore(root), strings(&["0"]));
    assert_eq!(m.explore(7), strings(&["6", "3", "4", "5", "7", "5", "8"]));
}

#[test]
fn round_trip_around_a_partially_explored_branch() {
    let (mut m, root) = maze();
    let mut work: Vec<usize> = vec![7];
    let mut trace: Vec<String> = Vec::new();
    m.visit_two_phase(&mut work, &mut trace);
    assert_eq!(m.status(7), Some(Exploration::PartiallyExplored));
    let first = m.explore(root);
    assert_eq!(first, strings(&["0", "1", "2", "3", "4", "5", "6"]));
    let reset = m.unexplore(root);
    assert_eq!(reset, first);
    assert_eq!(m.status(7), Some(Exploration::PartiallyExplored));
    for n in [4, 5, 6, 8] {
        assert_eq!(m.status(n), Some(Exploration::UnExplored));
    }
    assert_eq!(m.explore(root), first);
}

#[test]
fn branch_explored_beforehand_breaks_the_round_trip() {
    let (mut m, root) = maze();
    m.explore(4);
    let first = m.explore(root);
    assert_eq!(first, strings(&["0", "1", "2", "3", "6", "3", "7", "5", "8"]));
    let reset = m.unexplore(root);
    assert_eq!(reset, strings(&["0", "1", "2", "3", "4", "5", "6", "3", "7", "5", "8"]));
    assert!(m.is_fresh());
    let second = m.explore(root);
    assert_eq!(second, strings(&["0", "1", "2", "3", "4", "5", "6", "3", "7", "5", "8"]));
    assert_ne!(second, first);
}
