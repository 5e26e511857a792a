use tasktree::{Config, Task, TaskNode, Tree};

fn task(deps: &[&str], symbolic: bool, complete: bool) -> Task {
    let mut t = Task::default();
    t.depends_on = deps.iter().map(|d| d.to_string()).collect();
    t.symbolic = symbolic;
    t.complete = complete;
    t
}

fn complete(tree: &Tree, name: &str) -> bool {
    tree.get(&name.to_string()).unwrap().complete
}

#[test]
fn symbolic_resolution_reaches_fixpoint() {
    let mut tree = Tree::new();
    tree.insert("top".to_string(), task(&["mid"], true, false));
    tree.insert("mid".to_string(), task(&["a", "b"], true, false));
    tree.insert("a".to_string(), task(&[], false, true));
    tree.insert("b".to_string(), task(&[], false, true));
    tree.insert("open".to_string(), task(&["a", "c"], true, false));
    tree.insert("c".to_string(), task(&[], false, false));
    tree.insert("dangling".to_string(), task(&["missing"], true, false));
    tree.resolve_symbolic();
    assert!(complete(&tree, "mid"));
    assert!(complete(&tree, "top"));
    assert!(!complete(&tree, "open"));
    assert!(!complete(&tree, "dangling"));
    // running it again changes nothing
    tree.resolve_symbolic();
    assert!(complete(&tree, "top"));
    assert!(!complete(&tree, "open"));
}

#[test]
fn resolution_never_uncompletes() {
    let mut tree = Tree::new();
    tree.insert("s".to_string(), task(&["x"], true, true));
    tree.insert("x".to_string(), task(&[], false, false));
    tree.resolve_symbolic();
    assert!(complete(&tree, "s"));
    assert!(!complete(&tree, "x"));
}

#[test]
fn populate_builds_root_nodes_and_edges() {
    let mut tree = Tree::new();
    tree.insert("a".to_string(), task(&["b", "nowhere"], false, false));
    tree.insert("b".to_string(), task(&[], false, true));
    assert!(tree.populate_tree().is_ok());
    assert_eq!(tree.tree.node_count(), 3);
    assert_eq!(tree.tree.edge_count(), 3);
    let labels: Vec<String> = tree.tree.node_weights().map(|n: &TaskNode| n.label()).collect();
    assert_eq!(labels, vec!["root".to_string(), "a: false".to_string(), "b: true".to_string()]);
    let edges: Vec<(usize, usize, bool)> = tree
        .tree
        .raw_edges()
        .iter()
        .map(|e| (e.source().index(), e.target().index(), e.weight))
        .collect();
    assert_eq!(edges, vec![(0, 1, false), (0, 2, false), (1, 2, true)]);
}

#[test]
fn merge_right_hand_side_wins() {
    let mut left = Tree::new();
    let mut x = task(&[], false, false);
    x.description = "X".to_string();
    left.insert("a".to_string(), x);
    left.insert("only_left".to_string(), task(&[], false, false));
    let mut right = Tree::new();
    let mut y = task(&["only_left"], false, true);
    y.description = "Y".to_string();
    right.insert("a".to_string(), y);
    let merged = left.add(&right);
    assert_eq!(merged.tasks.len(), 2);
    let a = merged.get(&"a".to_string()).unwrap();
    assert_eq!(a.description, "Y");
    assert_eq!(a.depends_on, vec!["only_left".to_string()]);
    assert!(a.complete);
    assert_eq!(merged.tree.node_count(), 3);
}

#[test]
fn add_assign_merges_in_place() {
    let mut left = Tree::new();
    left.insert("a".to_string(), task(&[], false, false));
    let mut right = Tree::new();
    right.insert("b".to_string(), task(&[], false, true));
    right.insert("s".to_string(), task(&["b"], true, false));
    left.add_assign(&right);
    assert_eq!(left.tasks.len(), 3);
    assert!(complete(&left, "s"));
    assert_eq!(left.tree.node_count(), 4);
}

#[test]
fn remove_and_set_complete() {
    let mut tree = Tree::new();
    tree.insert("a".to_string(), task(&[], false, false));
    tree.insert("b".to_string(), task(&[], false, false));
    assert!(tree.set_complete(&"a".to_string(), true));
    assert!(!tree.set_complete(&"zzz".to_string(), true));
    assert!(complete(&tree, "a"));
    assert!(tree.remove(&"a".to_string()).is_some());
    assert!(tree.remove(&"a".to_string()).is_none());
    assert_eq!(tree.tasks.len(), 1);
    assert!(tree.get(&"a".to_string()).is_none());
}

#[test]
fn insert_replaces_existing_name() {
    let mut tree = Tree::new();
    tree.insert("a".to_string(), task(&[], false, false));
    tree.insert("a".to_string(), task(&[], false, true));
    assert_eq!(tree.tasks.len(), 1);
    assert!(complete(&tree, "a"));
}

#[test]
fn node_labels() {
    let root = TaskNode { name: "whatever".to_string(), complete: false, is_root: true };
    assert_eq!(root.label(), "root");
    let node = TaskNode { name: "write".to_string(), complete: true, is_root: false };
    assert_eq!(node.label(), "write: true");
}

#[test]
fn config_defaults_and_overrides() {
    let c = Config::default();
    assert_eq!(c.pomodoro_length, 1200);
    assert_eq!(c.short_break_length, 300);
    assert_eq!(c.long_break_length, 900);
    assert_eq!(c.long_break_after, 4);
    let c = c.add(60, 10, 30, 2);
    assert_eq!(c.pomodoro_length, 60);
    assert_eq!(c.short_break_length, 10);
    assert_eq!(c.long_break_length, 30);
    assert_eq!(c.long_break_after, 2);
}

#[test]
fn task_default_is_empty() {
    let t = Task::default();
    assert!(t.description.is_empty());
    assert!(t.estimated_time.is_none());
    assert!(t.depends_on.is_empty());
    assert!(!t.symbolic && !t.complete);
    assert!(t.due.is_none());
    let copy = t.duplicate();
    assert!(copy.depends_on.is_empty());
}
