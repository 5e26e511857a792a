use tasktree::{ImpossibleTaskReason, Task, TaskTreeCoreError, Tree};

const HOUR: u64 = 60 * 60;

fn task(estimate: Option<u64>, deps: &[&str], symbolic: bool, complete: bool, due: Option<i64>) -> Task {
    let mut t = Task::default();
    t.estimated_time = estimate;
    t.depends_on = deps.iter().map(|d| d.to_string()).collect();
    t.symbolic = symbolic;
    t.complete = complete;
    t.due = due;
    t
}

fn now() -> i64 {
    std::time::SystemTime::now()
        .duration_since(std::time::UNIX_EPOCH)
        .unwrap()
        .as_secs() as i64
}

fn good_tree() -> Tree {
    let mut tree = Tree::new();
    let day = 24 * 60 * 60;
    tree.insert("a".to_string(), task(Some(HOUR), &["b"], false, false, Some(now() + day)));
    tree.insert("b".to_string(), task(Some(HOUR / 2), &[], false, false, Some(now() + day)));
    tree.insert("done".to_string(), task(None, &["a", "b"], true, false, None));
    tree
}

fn count_impossible(errors: &[TaskTreeCoreError], name: &str, why: ImpossibleTaskReason) -> usize {
    errors
        .iter()
        .filter(|e| matches!(e, TaskTreeCoreError::ImpossibleTaskError { task_name, reason } if task_name == name && *reason == why))
        .count()
}

#[test]
fn lint_succeeds() {
    let mut tree = good_tree();
    assert!(tree.populate_tree().is_ok());
    assert!(tree.lint_tree().is_ok());
}

#[test]
fn lint_fails_in_past() {
    let mut tree = Tree::new();
    tree.insert("late".to_string(), task(Some(60), &[], false, false, Some(now() - 3600)));
    assert!(tree.populate_tree().is_ok());
    let errors = tree.lint_tree().unwrap_err();
    assert_eq!(count_impossible(&errors, "late", ImpossibleTaskReason::DueInPast), 1);
}

#[test]
fn lint_fails_not_enough_time() {
    let mut tree = good_tree();
    let mut a = tree.get(&"a".to_string()).unwrap().duplicate();
    a.due = Some(now() + 1);
    tree.insert("a".to_string(), a);
    assert!(tree.populate_tree().is_ok());
    let errors = tree.lint_tree().unwrap_err();
    assert_eq!(count_impossible(&errors, "a", ImpossibleTaskReason::NotEnoughTime), 1);
}

#[test]
fn end_to_end_not_enough_time_then_complete() {
    let now = 1_000_000;
    let mut tree = Tree::new();
    tree.insert("root_task".to_string(), task(Some(30 * 60), &["sub"], false, false, Some(now + 3600)));
    tree.insert("sub".to_string(), task(Some(40 * 60), &[], false, false, None));
    let errors = tree.lint_tree_at(now).unwrap_err();
    assert_eq!(errors.len(), 1);
    assert_eq!(count_impossible(&errors, "root_task", ImpossibleTaskReason::NotEnoughTime), 1);
    assert!(tree.set_complete(&"sub".to_string(), true));
    assert!(tree.lint_tree_at(now).is_ok());
}

#[test]
fn due_exactly_now_passes() {
    let now = 5_000;
    let mut tree = Tree::new();
    tree.insert("t".to_string(), task(Some(0), &[], false, false, Some(now)));
    assert!(tree.lint_tree_at(now).is_ok());
}

#[test]
fn due_one_second_ago_is_in_past() {
    let now = 5_000;
    let mut tree = Tree::new();
    tree.insert("t".to_string(), task(Some(0), &[], false, false, Some(now - 1)));
    let errors = tree.lint_tree_at(now).unwrap_err();
    assert_eq!(errors.len(), 1);
    assert_eq!(count_impossible(&errors, "t", ImpossibleTaskReason::DueInPast), 1);
}

#[test]
fn transitive_estimates_exceed_due() {
    let now = 0;
    let mut tree = Tree::new();
    tree.insert("top".to_string(), task(Some(10), &["mid"], false, false, Some(100)));
    tree.insert("mid".to_string(), task(Some(50), &["low"], false, false, None));
    tree.insert("low".to_string(), task(Some(41), &[], false, false, None));
    let errors = tree.lint_tree_at(now).unwrap_err();
    assert_eq!(count_impossible(&errors, "top", ImpossibleTaskReason::NotEnoughTime), 1);
    // exactly enough time once the lowest estimate shrinks by one second
    tree.insert("low".to_string(), task(Some(40), &[], false, false, None));
    assert!(tree.lint_tree_at(now).is_ok());
}

#[test]
fn completed_dependency_stops_the_descent() {
    let mut tree = Tree::new();
    tree.insert("top".to_string(), task(Some(10), &["mid"], false, false, Some(20)));
    tree.insert("mid".to_string(), task(Some(500), &["low"], false, true, None));
    tree.insert("low".to_string(), task(Some(500), &[], false, false, None));
    assert!(tree.lint_tree_at(0).is_ok());
}

#[test]
fn back_edge_is_a_cycle() {
    let mut tree = Tree::new();
    tree.insert("a".to_string(), task(None, &["b"], false, false, Some(-100)));
    tree.insert("b".to_string(), task(None, &["a"], false, false, None));
    let errors = tree.lint_tree_at(0).unwrap_err();
    let cycles: Vec<(String, String)> = errors
        .iter()
        .filter_map(|e| match e {
            TaskTreeCoreError::CyclicDependency { task_name, dependency } => Some((task_name.clone(), dependency.clone())),
            _ => None,
        })
        .collect();
    assert_eq!(cycles, vec![("b".to_string(), "a".to_string()), ("a".to_string(), "b".to_string())]);
    // the schedule check is skipped when a cycle was found
    assert_eq!(errors.len(), 2);
}

#[test]
fn acyclic_tree_has_no_cycle_findings() {
    let mut tree = Tree::new();
    tree.insert("a".to_string(), task(None, &["b", "c"], false, false, None));
    tree.insert("b".to_string(), task(None, &["c"], false, false, None));
    tree.insert("c".to_string(), task(None, &[], false, false, None));
    assert!(tree.lint_tree_at(0).is_ok());
}

#[test]
fn self_dependency_is_a_cycle() {
    let mut tree = Tree::new();
    tree.insert("a".to_string(), task(None, &["a"], false, false, None));
    let errors = tree.lint_tree_at(0).unwrap_err();
    assert_eq!(errors.len(), 1);
    assert!(matches!(&errors[0], TaskTreeCoreError::CyclicDependency { task_name, dependency } if task_name == "a" && dependency == "a"));
}

#[test]
fn anchoring_of_symbolic_tasks() {
    let mut tree = Tree::new();
    tree.insert("real".to_string(), task(None, &[], false, false, None));
    tree.insert("anchored".to_string(), task(None, &["real"], true, false, None));
    tree.insert("chained".to_string(), task(None, &["anchored"], true, false, None));
    tree.insert("empty".to_string(), task(None, &[], true, false, None));
    assert!(tree.lint_tree_at(0).is_ok());

    let mut floating = Tree::new();
    floating.insert("x".to_string(), task(None, &["y"], true, false, None));
    floating.insert("y".to_string(), task(None, &["x"], true, false, None));
    floating.insert("z".to_string(), task(None, &["x"], true, false, None));
    let errors = floating.lint_tree_at(0).unwrap_err();
    let names: Vec<String> = errors
        .iter()
        .filter_map(|e| match e {
            TaskTreeCoreError::FloatingSymbolic { task_name } => Some(task_name.clone()),
            _ => None,
        })
        .collect();
    assert_eq!(names, vec!["x".to_string(), "y".to_string(), "z".to_string()]);
    // floating findings come first
    assert!(matches!(&errors[0], TaskTreeCoreError::FloatingSymbolic { .. }));
}

#[test]
fn missing_dependency_reported_once_per_name() {
    let mut tree = Tree::new();
    tree.insert("a".to_string(), task(None, &["ghost", "b", "ghost", "other"], false, false, None));
    tree.insert("b".to_string(), task(None, &[], false, false, None));
    let errors = tree.lint_tree_at(0).unwrap_err();
    let missing: Vec<(String, String)> = errors
        .iter()
        .filter_map(|e| match e {
            TaskTreeCoreError::NonexistentDependency { task_name, dependency } => Some((task_name.clone(), dependency.clone())),
            _ => None,
        })
        .collect();
    assert_eq!(missing, vec![("a".to_string(), "ghost".to_string()), ("a".to_string(), "other".to_string())]);
    assert_eq!(errors.len(), 2);
}

#[test]
fn findings_come_in_report_order() {
    let mut tree = Tree::new();
    tree.insert("s".to_string(), task(None, &["nowhere"], true, false, None));
    tree.insert("late".to_string(), task(None, &[], false, false, Some(-1)));
    let errors = tree.lint_tree_at(0).unwrap_err();
    assert_eq!(errors.len(), 3);
    assert!(matches!(&errors[0], TaskTreeCoreError::FloatingSymbolic { task_name } if task_name == "s"));
    assert!(matches!(&errors[1], TaskTreeCoreError::NonexistentDependency { task_name, dependency } if task_name == "s" && dependency == "nowhere"));
    assert!(matches!(&errors[2], TaskTreeCoreError::ImpossibleTaskError { task_name, reason: ImpossibleTaskReason::DueInPast } if task_name == "late"));
}
