use maze::{maze, Exploration, Maze};

fn strings(labels: &[&str]) -> Vec<String> {
    labels.iter().map(|label| label.to_string()).collect()
}

/// A plain binary tree of depth two: no node has two parents.
fn tree() -> (Maze, usize) {
    let mut m = Maze::new();
    let a: usize = m.new_leaf("a");
    let b: usize = m.new_leaf("b");
    let c: usize = m.new_leaf("c");
    let d: usize = m.new_leaf("d");
    let l: usize = m.new_branch("l", a, b);
    let r: usize = m.new_branch("r", c, d);
    let t: usize = m.new_branch("t", l, r);
    (m, t)
}

#[test]
fn drive_on_a_tree_matches_explore() {
    let (mut walked, root) = tree();
    let (mut driven, _) = tree();
    let by_walk = walked.explore(root);
    let by_queue = driven.drive(root);
    assert_eq!(by_walk, strings(&["t", "l", "a", "b", "r", "c", "d"]));
    assert_eq!(by_queue, by_walk);
    for n in 0..walked.len() {
        assert_eq!(driven.status(n), walked.status(n));
    }
}

#[test]
fn drive_on_the_sample_matches_explore() {
    let (mut walked, root) = maze();
    let (mut driven, _) = maze();
    let by_walk = walked.explore(root);
    let by_queue = driven.drive(root);
    assert_eq!(by_queue, strings(&["0", "1", "2", "3", "4", "5", "6", "3", "7", "5", "8"]));
    assert_eq!(by_queue, by_walk);
    for n in 0..walked.len() {
        assert_eq!(driven.status(n), walked.status(n));
    }
}

#[test]
fn drive_after_drive_records_the_root_only() {
    let (mut m, root) = maze();
    m.drive(root);
    assert_eq!(m.drive(root), strings(&["0"]));
    m.unexplore(root);
    assert!(m.is_fresh());
}

#[test]
fn visit_takes_the_last_node_and_pushes_right_then_left() {
    let (mut m, root) = maze();
    let mut work: Vec<usize> = vec![root];
    let mut trace: Vec<String> = Vec::new();
    m.visit(&mut work, &mut trace);
    assert_eq!(trace, strings(&["0"]));
    assert_eq!(work, vec![7, 5]);
    assert_eq!(m.status(root), Some(Exploration::Explored));
    m.visit(&mut work, &mut trace);
    assert_eq!(trace, strings(&["0", "1"]));
    assert_eq!(work, vec![7, 4, 0]);
    m.visit(&mut work, &mut trace);
    assert_eq!(trace, strings(&["0", "1", "2"]));
    assert_eq!(work, vec![7, 4]);
}

#[test]
fn visit_of_an_explored_branch_pushes_nothing() {
    let (mut m, root) = maze();
    m.explore(root);
    let mut work: Vec<usize> = vec![2, root];
    let mut trace: Vec<String> = Vec::new();
    m.visit(&mut work, &mut trace);
    assert_eq!(trace, strings(&["0"]));
    assert_eq!(work, vec![2]);
}

#[test]
fn drain_works_off_the_whole_list() {
    let (mut m, _) = maze();
    let mut work: Vec<usize> = vec![6, 4];
    let mut trace: Vec<String> = strings(&["start"]);
    m.drain(&mut work, &mut trace);
    assert!(work.is_empty());
    assert_eq!(trace, strings(&["start", "3", "4", "5", "7", "5", "8"]));
    assert_eq!(m.status(4), Some(Exploration::Explored));
    assert_eq!(m.status(6), Some(Exploration::Explored));
    assert_eq!(m.status(7), Some(Exploration::UnExplored));
}

#[test]
fn two_phase_on_a_tree_records_each_branch_twice() {
    let (mut m, root) = tree();
    let trace = m.drive_two_phase(root);
    assert_eq!(trace, strings(&["t", "l", "a", "l", "b", "t", "r", "c", "r", "d"]));
    for branch in ["t", "l", "r"] {
        let places: Vec<usize> =
            (0..trace.len()).filter(|&k| trace[k] == branch).collect();
        assert_eq!(places.len(), 2);
        assert!(places[0] < places[1]);
    }
    for leaf in ["a", "b", "c", "d"] {
        assert_eq!(trace.iter().filter(|label| label.as_str() == leaf).count(), 1);
    }
    for n in 0..m.len() {
        if m.children(n).is_some() {
            assert_eq!(m.status(n), Some(Exploration::Explored));
        }
    }
}

#[test]
fn two_phase_on_the_sample_records_the_shared_branch_a_third_time() {
    let (mut m, root) = maze();
    let trace = m.drive_two_phase(root);
    assert_eq!(
        trace,
        strings(&[
            "0", "1", "2", "1", "3", "4", "3", "5", "0", "6", "3", "6", "7", "5", "7", "8"
        ])
    );
    assert_eq!(trace.iter().filter(|label| label.as_str() == "3").count(), 3);
    assert_eq!(trace.iter().filter(|label| label.as_str() == "0").count(), 2);
}

#[test]
fn visit_two_phase_enters_then_resumes() {
    let (mut m, root) = maze();
    let mut work: Vec<usize> = vec![root];
    let mut trace: Vec<String> = Vec::new();
    m.visit_two_phase(&mut work, &mut trace);
    assert_eq!(trace, strings(&["0"]));
    assert_eq!(work, vec![8, 5]);
    assert_eq!(m.status(root), Some(Exploration::PartiallyExplored));
    let mut work: Vec<usize> = vec![root];
    m.visit_two_phase(&mut work, &mut trace);
    assert_eq!(trace, strings(&["0", "0"]));
    assert_eq!(work, vec![7]);
    assert_eq!(m.status(root), Some(Exploration::Explored));
    let mut work: Vec<usize> = vec![root];
    m.visit_two_phase(&mut work, &mut trace);
    assert_eq!(trace, strings(&["0", "0", "0"]));
    assert!(work.is_empty());
    assert_eq!(m.status(root), Some(Exploration::Explored));
}

#[test]
fn visit_two_phase_of_a_leaf_records_it() {
    let (mut m, _) = maze();
    let mut work: Vec<usize> = vec![4, 1];
    let mut trace: Vec<String> = Vec::new();
    m.visit_two_phase(&mut work, &mut trace);
    assert_eq!(trace, strings(&["4"]));
    assert_eq!(work, vec![4]);
    assert!(m.is_fresh());
}

#[test]
fn two_phase_can_be_stopped_and_resumed() {
    let (mut m, root) = maze();
    let mut work: Vec<usize> = vec![root];
    let mut trace: Vec<String> = Vec::new();
    for _ in 0..5 {
        m.visit_two_phase(&mut work, &mut trace);
    }
    assert_eq!(trace, strings(&["0", "1", "2", "1", "3"]));
    assert_eq!(m.status(8), Some(Exploration::PartiallyExplored));
    assert_eq!(m.status(5), Some(Exploration::Explored));
    assert_eq!(m.status(4), Some(Exploration::PartiallyExplored));
    m.drain_two_phase(&mut work, &mut trace);
    assert!(work.is_empty());
    assert_eq!(
        trace,
        strings(&[
            "0", "1", "2", "1", "3", "4", "3", "5", "0", "6", "3", "6", "7", "5", "7", "8"
        ])
    );
}

#[test]
fn partially_explored_branch_is_neither_explored_nor_reset() {
    let (mut m, root) = maze();
    let mut work: Vec<usize> = vec![root];
    let mut trace: Vec<String> = Vec::new();
    m.visit_two_phase(&mut work, &mut trace);
    assert_eq!(m.explore(root), strings(&["0"]));
    assert_eq!(m.unexplore(root), strings(&["0"]));
    assert_eq!(m.status(root), Some(Exploration::PartiallyExplored));
    assert_eq!(m.drive(root), strings(&["0"]));
}
