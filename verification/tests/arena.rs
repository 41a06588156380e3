use maze::{maze, Exploration, Maze, Node};

#[test]
fn new_maze_is_empty() {
    let m = Maze::new();
    assert_eq!(m.len(), 0);
    assert!(m.is_fresh());
}

#[test]
fn nodes_are_numbered_in_the_order_they_are_added() {
    let mut m = Maze::new();
    assert_eq!(m.new_leaf("a"), 0);
    assert_eq!(m.new_leaf("b"), 1);
    assert_eq!(m.new_branch("c", 0, 1), 2);
    assert_eq!(m.new_branch("d", 2, 2), 3);
    assert_eq!(m.len(), 4);
}

#[test]
fn leaf_has_a_label_and_nothing_else() {
    let mut m = Maze::new();
    let a: usize = m.new_leaf("only");
    assert_eq!(m.label(a), "only");
    assert_eq!(m.children(a), None);
    assert_eq!(m.status(a), None);
    assert!(matches!(m.node(a), Node::Leaf { label } if label == "only"));
}

#[test]
fn branch_starts_unexplored() {
    let mut m = Maze::new();
    let a: usize = m.new_leaf("a");
    let b: usize = m.new_leaf("b");
    let c: usize = m.new_branch("c", a, b);
    assert_eq!(m.label(c), "c");
    assert_eq!(m.children(c), Some((a, b)));
    assert_eq!(m.status(c), Some(Exploration::UnExplored));
    assert!(matches!(
        m.node(c),
        Node::Branch { label, left: 0, right: 1 } if label == "c"
    ));
}

#[test]
fn sample_maze_has_the_stated_shape() {
    let (m, root) = maze();
    assert_eq!(root, 8);
    assert_eq!(m.len(), 9);
    let labels: Vec<&str> = (0..m.len()).map(|n| m.label(n)).collect();
    assert_eq!(labels, vec!["2", "4", "5", "8", "3", "1", "7", "6", "0"]);
    assert_eq!(m.children(4), Some((1, 2)));
    assert_eq!(m.children(5), Some((0, 4)));
    assert_eq!(m.children(6), Some((2, 3)));
    assert_eq!(m.children(7), Some((4, 6)));
    assert_eq!(m.children(8), Some((5, 7)));
    for leaf in 0..4 {
        assert_eq!(m.children(leaf), None);
    }
    assert!(m.is_fresh());
}

#[test]
fn status_names() {
    assert_eq!(Exploration::UnExplored.name(), "UnExplored");
    assert_eq!(Exploration::PartiallyExplored.name(), "PartiallyExplored");
    assert_eq!(Exploration::Explored.name(), "Explored");
}

#[test]
fn visualize_fresh_sample() {
    let (m, root) = maze();
    let lines = m.visualize(root, "");
    let expected: Vec<String> = vec![
        "Branch: 0 (Status: UnExplored)",
        "  Branch: 1 (Status: UnExplored)",
        "    Leaf: 2",
        "    Branch: 3 (Status: UnExplored)",
        "      Leaf: 4",
        "      Leaf: 5",
        "  Branch: 6 (Status: UnExplored)",
        "    Branch: 3 (Status: UnExplored)",
        "      Leaf: 4",
        "      Leaf: 5",
        "    Branch: 7 (Status: UnExplored)",
        "      Leaf: 5",
        "      Leaf: 8",
    ]
    .into_iter()
    .map(|line| line.to_string())
    .collect();
    assert_eq!(lines, expected);
}

#[test]
fn visualize_shows_the_status_and_keeps_it() {
    let (mut m, root) = maze();
    m.explore(4);
    let mut work: Vec<usize> = vec![6];
    let mut trace: Vec<String> = Vec::new();
    m.visit_two_phase(&mut work, &mut trace);
    let lines = m.visualize(7, "> ");
    let expected: Vec<String> = vec![
        "> Branch: 6 (Status: UnExplored)",
        ">   Branch: 3 (Status: Explored)",
        ">     Leaf: 4",
        ">     Leaf: 5",
        ">   Branch: 7 (Status: PartiallyExplored)",
        ">     Leaf: 5",
        ">     Leaf: 8",
    ]
    .into_iter()
    .map(|line| line.to_string())
    .collect();
    assert_eq!(lines, expected);
    assert_eq!(m.status(root), Some(Exploration::UnExplored));
    assert_eq!(m.status(4), Some(Exploration::Explored));
    assert_eq!(m.status(6), Some(Exploration::PartiallyExplored));
}

#[test]
fn visualize_of_a_leaf_is_one_line() {
    let (m, _) = maze();
    assert_eq!(m.visualize(3, "--"), vec!["--Leaf: 8".to_string()]);
}
