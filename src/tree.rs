//! The task tree: a list of uniquely named tasks and the dependency graph
//! derived from it.

use petgraph::Graph;
use vstd::prelude::*;
use vstd::string::StringExecFns;

use crate::fixpoint::{
    close, closure, deps, lemma_iterate_len, find, find_task, lemma_find, view_entries, Entries, Rule,
};
use crate::graph::{
    graph_add_edge, graph_add_node, graph_edges, graph_nodes, new_graph, GRAPH_INDEX_LIMIT,
};
use crate::laws::{lemma_insert_entry, lemma_merge_right_wins};
use crate::model::{Task, TaskNode, TaskView};

verus! {

/// A task tree. `tasks` holds (name, task) pairs in insertion order; `tree` is
/// the derived dependency graph, rebuilt by `populate_tree`.
pub struct Tree {
    pub tasks: Vec<(String, Task)>,
    pub tree: Graph<TaskNode, bool>,
}

impl View for Tree {
    type V = Entries;

    open spec fn view(&self) -> Entries {
        view_entries(self.tasks@)
    }
}

/// No two tasks share a name.
pub open spec fn unique_names(t: Entries) -> bool {
    forall|i: int, j: int| 0 <= i < t.len() && 0 <= j < t.len() && i != j ==> t[i].0 != t[j].0
}

/// The completion flags of the tasks, in order.
pub open spec fn complete_flags(t: Entries) -> Seq<bool> {
    Seq::new(t.len(), |i: int| t[i].1.complete)
}

/// The tasks with their completion flags replaced by `c`.
pub open spec fn with_flags(t: Entries, c: Seq<bool>) -> Entries {
    Seq::new(
        t.len(),
        |i: int| (t[i].0, TaskView { complete: c[i], ..t[i].1 }),
    )
}

/// The tasks after symbolic resolution: a symbolic task is marked complete once
/// all of its dependencies are, repeated until nothing changes.
pub open spec fn resolved(t: Entries) -> Entries {
    with_flags(t, closure(t, Rule::Resolve, complete_flags(t)))
}

/// The nodes of the derived graph: the root, then one per task.
pub open spec fn expected_nodes(t: Entries) -> Seq<(Seq<char>, bool, bool)> {
    seq![("root"@, true, true)] + Seq::new(t.len(), |i: int| (t[i].0, t[i].1.complete, false))
}

/// The edges from the root to every task node.
pub open spec fn root_edges(n: nat) -> Seq<(int, int, bool)> {
    Seq::new(n, |i: int| (0, i + 1, false))
}

/// The edges for the first `k` dependencies of task `i`; a dependency that
/// names no task has no edge.
pub open spec fn task_edges(t: Entries, i: int, k: nat) -> Seq<(int, int, bool)>
    decreases k,
{
    if k == 0 {
        Seq::empty()
    } else {
        let j = find(t, deps(t, i)[k - 1]);
        task_edges(t, i, (k - 1) as nat) + if j >= 0 {
            seq![(i + 1, j + 1, t[j].1.complete)]
        } else {
            Seq::empty()
        }
    }
}

/// The dependency edges of the first `m` tasks.
pub open spec fn dep_edges(t: Entries, m: nat) -> Seq<(int, int, bool)>
    decreases m,
{
    if m == 0 {
        Seq::empty()
    } else {
        dep_edges(t, (m - 1) as nat) + task_edges(t, m - 1, deps(t, m - 1).len())
    }
}

/// The edges of the derived graph.
pub open spec fn expected_edges(t: Entries) -> Seq<(int, int, bool)> {
    root_edges(t.len()) + dep_edges(t, t.len())
}

/// `g` is the dependency graph of the tasks `t`.
pub open spec fn graph_of(g: Graph<TaskNode, bool>, t: Entries) -> bool {
    graph_nodes(g) == expected_nodes(t) && graph_edges(g) == expected_edges(t)
}

/// The number of dependency names of the first `m` tasks.
pub open spec fn total_deps(t: Entries, m: nat) -> nat
    decreases m,
{
    if m == 0 {
        0
    } else {
        total_deps(t, (m - 1) as nat) + deps(t, m - 1).len()
    }
}

/// The graph of `t` stays within petgraph's index limit.
pub open spec fn graph_fits(t: Entries) -> bool {
    t.len() + 1 <= GRAPH_INDEX_LIMIT && t.len() + total_deps(t, t.len()) <= GRAPH_INDEX_LIMIT
}

/// `t` with the task `name` inserted, replacing a task of that name.
pub open spec fn insert_entry(t: Entries, name: Seq<char>, task: TaskView) -> Entries {
    let j = find(t, name);
    if j >= 0 {
        t.update(j, (name, task))
    } else {
        t.push((name, task))
    }
}

/// `a` with the first `m` tasks of `b` inserted in order.
pub open spec fn merge_prefix(a: Entries, b: Entries, m: nat) -> Entries
    decreases m,
{
    if m == 0 {
        a
    } else {
        insert_entry(merge_prefix(a, b, (m - 1) as nat), b[m - 1].0, b[m - 1].1)
    }
}

/// The union of two task lists; on a shared name the task of `b` wins.
pub open spec fn merged(a: Entries, b: Entries) -> Entries {
    merge_prefix(a, b, b.len())
}

/// `t` without the task `name`.
pub open spec fn remove_entry(t: Entries, name: Seq<char>) -> Entries {
    let j = find(t, name);
    if j >= 0 {
        t.remove(j)
    } else {
        t
    }
}

/// `t` with the completion flag of the task `name` set to `complete`.
pub open spec fn set_complete_entry(t: Entries, name: Seq<char>, complete: bool) -> Entries {
    let j = find(t, name);
    if j >= 0 {
        t.update(j, (t[j].0, TaskView { complete, ..t[j].1 }))
    } else {
        t
    }
}

impl Default for Tree {
    fn default() -> (r: Tree)
        ensures
            r.wf(),
            r@ == Seq::<(Seq<char>, TaskView)>::empty(),
            graph_nodes(r.tree) == Seq::<(Seq<char>, bool, bool)>::empty(),
            graph_edges(r.tree) == Seq::<(int, int, bool)>::empty(),
    {
        Tree::new()
    }
}

/// The graph of a tree exceeds petgraph's index limit.
pub struct GraphTooLarge;

pub proof fn lemma_task_edges_len(t: Entries, i: int, k: nat)
    ensures
        task_edges(t, i, k).len() <= k,
    decreases k,
{
    if k > 0 {
        lemma_task_edges_len(t, i, (k - 1) as nat);
    }
}

pub proof fn lemma_dep_edges_len(t: Entries, m: nat)
    ensures
        dep_edges(t, m).len() <= total_deps(t, m),
    decreases m,
{
    if m > 0 {
        lemma_dep_edges_len(t, (m - 1) as nat);
        lemma_task_edges_len(t, m - 1, deps(t, m - 1).len());
    }
}

pub proof fn lemma_total_deps_mono(t: Entries, m: nat, n: nat)
    requires
        m <= n,
    ensures
        total_deps(t, m) <= total_deps(t, n),
    decreases n,
{
    if m < n {
        lemma_total_deps_mono(t, m, (n - 1) as nat);
    }
}

pub proof fn lemma_total_deps_same(t: Entries, u: Entries, m: nat)
    requires
        m <= t.len(),
        t.len() == u.len(),
        forall|i: int| 0 <= i < t.len() ==> deps(t, i) == deps(u, i),
    ensures
        total_deps(t, m) == total_deps(u, m),
    decreases m,
{
    if m > 0 {
        lemma_total_deps_same(t, u, (m - 1) as nat);
    }
}

/// Trees with the same names in the same order have unique names together.
pub proof fn lemma_same_names_unique(t: Entries, u: Entries)
    requires
        t.len() == u.len(),
        forall|q: int| 0 <= q < t.len() ==> t[q].0 == u[q].0,
    ensures
        unique_names(t) == unique_names(u),
{
}

/// Resolution keeps the names.
pub proof fn lemma_resolved_names(t: Entries)
    ensures
        resolved(t).len() == t.len(),
        forall|q: int| 0 <= q < t.len() ==> resolved(t)[q].0 == t[q].0,
        unique_names(resolved(t)) == unique_names(t),
{
    lemma_same_names_unique(resolved(t), t);
}

impl Tree {
    /// The tree is well formed: no two tasks share a name.
    pub open spec fn wf(&self) -> bool {
        unique_names(self@)
    }

    /// An empty tree with an empty graph.
    pub fn new() -> (r: Tree)
        ensures
            r.wf(),
            r@ == Seq::<(Seq<char>, TaskView)>::empty(),
            graph_nodes(r.tree) == Seq::<(Seq<char>, bool, bool)>::empty(),
            graph_edges(r.tree) == Seq::<(int, int, bool)>::empty(),
    {
        let r = Tree { tasks: Vec::new(), tree: new_graph() };
        assert(r@ =~= Seq::<(Seq<char>, TaskView)>::empty());
        r
    }

    /// Whether the graph of this tree stays within petgraph's index limit.
    pub fn fits_graph(&self) -> (r: bool)
        ensures
            r == graph_fits(self@),
    {
        let ghost t = self@;
        let n = self.tasks.len();
        if n >= GRAPH_INDEX_LIMIT {
            return false;
        }
        let mut total: usize = n;
        let mut i: usize = 0;
        while i < n
            invariant
                n == self.tasks.len(),
                t == self@,
                i <= n,
                total == n + total_deps(t, i as nat),
                total <= GRAPH_INDEX_LIMIT,
            decreases n - i,
        {
            let len = self.tasks[i].1.depends_on.len();
            assert(deps(t, i as int).len() == len);
            if len > GRAPH_INDEX_LIMIT - total {
                proof {
                    lemma_total_deps_mono(t, (i + 1) as nat, n as nat);
                }
                return false;
            }
            total = total + len;
            i = i + 1;
        }
        true
    }

    /// Runs symbolic resolution to its fixpoint, overwriting completion flags.
    pub fn resolve_symbolic(&mut self)
        ensures
            final(self)@ == resolved(old(self)@),
            final(self).tree == old(self).tree,
            final(self).wf() == old(self).wf(),
    {
        let ghost t = self@;
        proof {
            lemma_resolved_names(t);
        }
        let n = self.tasks.len();
        let mut init: Vec<bool> = Vec::new();
        let mut i: usize = 0;
        while i < n
            invariant
                n == self.tasks.len(),
                t == self@,
                i <= n,
                init@ == complete_flags(t).take(i as int),
            decreases n - i,
        {
            init.push(self.tasks[i].1.complete);
            i = i + 1;
            assert(init@ =~= complete_flags(t).take(i as int));
        }
        assert(init@ =~= complete_flags(t));
        let flags = close(&self.tasks, Rule::Resolve, init);
        proof {
            lemma_iterate_len(t, Rule::Resolve, complete_flags(t), t.len());
        }
        i = 0;
        while i < n
            invariant
                n == self.tasks.len(),
                flags@ == closure(t, Rule::Resolve, complete_flags(t)),
                flags@.len() == n,
                t.len() == n,
                i <= n,
                self.tree == old(self).tree,
                self@.len() == n,
                forall|q: int| 0 <= q < i ==> self@[q] == with_flags(t, flags@)[q],
                forall|q: int| i <= q < n ==> self@[q] == t[q],
            decreases n - i,
        {
            let ghost before = self.tasks@;
            self.tasks[i].1.complete = flags[i];
            proof {
                assert(self.tasks@ == before.update(i as int, self.tasks@[i as int]));
                assert(self@[i as int] == with_flags(t, flags@)[i as int]);
                assert forall|q: int| 0 <= q < n && q != i implies self@[q] == view_entries(before)[q] by {
                    assert(self.tasks@[q] == before[q]);
                }
                assert forall|q: int| 0 <= q <= i implies self@[q] == with_flags(t, flags@)[q] by {
                    if q < i {
                        assert(self@[q] == view_entries(before)[q]);
                    }
                }
            }
            i = i + 1;
        }
        assert(self@ =~= resolved(t));
    }

    /// Adds the dependency edges of task `i` to `g`.
    fn add_task_edges(&self, g: &mut Graph<TaskNode, bool>, i: usize)
        requires
            i < self.tasks.len(),
            graph_nodes(*old(g)).len() == self.tasks.len() + 1,
            graph_edges(*old(g)).len() + deps(self@, i as int).len() <= GRAPH_INDEX_LIMIT,
        ensures
            graph_nodes(*final(g)) == graph_nodes(*old(g)),
            graph_edges(*final(g)) == graph_edges(*old(g)) + task_edges(
                self@,
                i as int,
                deps(self@, i as int).len(),
            ),
    {
        let ghost t = self@;
        let dl = &self.tasks[i].1.depends_on;
        assert(deps(t, i as int) == dl@.map_values(|s: String| s@));
        let mut k: usize = 0;
        while k < dl.len()
            invariant
                t == self@,
                i < self.tasks.len(),
                deps(t, i as int) == dl@.map_values(|s: String| s@),
                k <= dl.len(),
                graph_nodes(*g) == graph_nodes(*old(g)),
                graph_nodes(*old(g)).len() == self.tasks.len() + 1,
                graph_edges(*old(g)).len() + dl.len() <= GRAPH_INDEX_LIMIT,
                graph_edges(*g) == graph_edges(*old(g)) + task_edges(t, i as int, k as nat),
            decreases dl.len() - k,
        {
            proof {
                lemma_task_edges_len(t, i as int, k as nat);
                lemma_find(t, deps(t, i as int)[k as int]);
                assert(deps(t, i as int)[k as int] == dl@[k as int]@);
            }
            match find_task(&self.tasks, &dl[k]) {
                Some(j) => {
                    graph_add_edge(g, i + 1, j + 1, self.tasks[j].1.complete);
                },
                None => {},
            }
            k = k + 1;
            proof {
                assert(graph_edges(*g) =~= graph_edges(*old(g)) + task_edges(t, i as int, k as nat));
            }
        }
    }

    /// Rebuilds the derived graph: runs symbolic resolution, then adds a root
    /// node, one node per task with an edge from the root, and an edge from each
    /// task to each of its dependencies that names a task, labelled with that
    /// dependency's completion. A dependency that names no task gets no edge; the
    /// lint pass reports it. Fails, changing nothing, when the graph would pass
    /// petgraph's index limit.
    pub fn populate_tree(&mut self) -> (r: Result<(), GraphTooLarge>)
        ensures
            r is Ok <==> graph_fits(old(self)@),
            r is Ok ==> final(self)@ == resolved(old(self)@) && graph_of(
                final(self).tree,
                final(self)@,
            ),
            r is Err ==> final(self)@ == old(self)@ && final(self).tree == old(self).tree,
            final(self).wf() == old(self).wf(),
    {
        if !self.fits_graph() {
            return Err(GraphTooLarge);
        }
        let ghost t0 = self@;
        self.resolve_symbolic();
        let ghost t = self@;
        let n = self.tasks.len();
        proof {
            lemma_iterate_len(t0, Rule::Resolve, complete_flags(t0), t0.len());
            lemma_total_deps_same(t, t0, n as nat);
            reveal_strlit("root");
            lemma_dep_edges_len(t, n as nat);
        }
        let mut g = new_graph();
        graph_add_node(
            &mut g,
            TaskNode { name: String::from_str("root"), complete: true, is_root: true },
        );
        let mut i: usize = 0;
        while i < n
            invariant
                t == self@,
                n == self.tasks.len(),
                n + 1 <= GRAPH_INDEX_LIMIT,
                i <= n,
                graph_nodes(g) == expected_nodes(t).take(i + 1),
                graph_edges(g) == root_edges(i as nat),
            decreases n - i,
        {
            graph_add_node(
                &mut g,
                TaskNode {
                    name: self.tasks[i].0.clone(),
                    complete: self.tasks[i].1.complete,
                    is_root: false,
                },
            );
            graph_add_edge(&mut g, 0, i + 1, false);
            i = i + 1;
            assert(graph_nodes(g) =~= expected_nodes(t).take(i + 1));
            assert(graph_edges(g) =~= root_edges(i as nat));
        }
        assert(graph_nodes(g) =~= expected_nodes(t));
        i = 0;
        while i < n
            invariant
                t == self@,
                n == self.tasks.len(),
                n + total_deps(t, n as nat) <= GRAPH_INDEX_LIMIT,
                i <= n,
                graph_nodes(g) == expected_nodes(t),
                graph_edges(g) == root_edges(n as nat) + dep_edges(t, i as nat),
            decreases n - i,
        {
            proof {
                lemma_dep_edges_len(t, i as nat);
                lemma_total_deps_mono(t, (i + 1) as nat, n as nat);
            }
            self.add_task_edges(&mut g, i);
            i = i + 1;
            assert(graph_edges(g) =~= root_edges(n as nat) + dep_edges(t, i as nat));
        }
        self.tree = g;
        Ok(())
    }

    /// Inserts the task `name`, replacing a task of that name in place.
    pub fn insert(&mut self, name: String, task: Task)
        ensures
            final(self)@ == insert_entry(old(self)@, name@, task@),
            final(self).tree == old(self).tree,
            old(self).wf() ==> final(self).wf(),
    {
        proof {
            lemma_find(self@, name@);
            lemma_insert_entry(self@, name@, task@);
        }
        match find_task(&self.tasks, &name) {
            Some(j) => {
                self.tasks.set(j, (name, task));
                assert(self@ =~= insert_entry(old(self)@, name@, task@));
            },
            None => {
                self.tasks.push((name, task));
                assert(self@ =~= insert_entry(old(self)@, name@, task@));
            },
        }
    }

    /// Removes the task `name`, returning it.
    pub fn remove(&mut self, name: &String) -> (r: Option<Task>)
        ensures
            final(self)@ == remove_entry(old(self)@, name@),
            final(self).tree == old(self).tree,
            match r {
                Some(task) => find(old(self)@, name@) >= 0 && task@ == old(self)@[find(
                    old(self)@,
                    name@,
                )].1,
                None => find(old(self)@, name@) < 0,
            },
            old(self).wf() ==> final(self).wf(),
    {
        proof {
            lemma_find(self@, name@);
        }
        match find_task(&self.tasks, name) {
            Some(j) => {
                let (_, task) = self.tasks.remove(j);
                assert(self@ =~= remove_entry(old(self)@, name@));
                proof {
                    let o = old(self)@;
                    if unique_names(o) {
                        assert forall|a: int, b: int|
                            0 <= a < self@.len() && 0 <= b < self@.len() && a != b implies self@[a].0
                            != self@[b].0 by {
                            let oa = if a < j { a } else { a + 1 };
                            let ob = if b < j { b } else { b + 1 };
                            assert(self@[a] == o[oa] && self@[b] == o[ob]);
                        }
                    }
                }
                Some(task)
            },
            None => None,
        }
    }

    /// Sets the completion flag of the task `name`; says whether it exists.
    pub fn set_complete(&mut self, name: &String, complete: bool) -> (r: bool)
        ensures
            final(self)@ == set_complete_entry(old(self)@, name@, complete),
            final(self).tree == old(self).tree,
            r == (find(old(self)@, name@) >= 0),
            final(self).wf() == old(self).wf(),
    {
        proof {
            lemma_find(self@, name@);
            let u = set_complete_entry(self@, name@, complete);
            lemma_same_names_unique(self@, u);
        }
        match find_task(&self.tasks, name) {
            Some(j) => {
                self.tasks[j].1.complete = complete;
                assert(self@ =~= set_complete_entry(old(self)@, name@, complete));
                true
            },
            None => false,
        }
    }

    /// The task called `name`.
    pub fn get(&self, name: &String) -> (r: Option<&Task>)
        ensures
            match r {
                Some(task) => find(self@, name@) >= 0 && task@ == self@[find(self@, name@)].1,
                None => find(self@, name@) < 0,
            },
    {
        proof {
            lemma_find(self@, name@);
        }
        match find_task(&self.tasks, name) {
            Some(j) => Some(&self.tasks[j].1),
            None => None,
        }
    }

    /// Merges `other` into this tree (a task of `other` replaces one of the
    /// same name) and rebuilds the graph.
    pub fn add_assign(&mut self, other: &Tree)
        requires
            graph_fits(merged(old(self)@, other@)),
        ensures
            final(self)@ == resolved(merged(old(self)@, other@)),
            graph_of(final(self).tree, final(self)@),
            old(self).wf() && other.wf() ==> final(self).wf(),
    {
        let ghost a = self@;
        proof {
            if other.wf() {
                lemma_merge_right_wins(a, other@);
            }
        }
        let mut i: usize = 0;
        while i < other.tasks.len()
            invariant
                i <= other.tasks.len(),
                self@ == merge_prefix(a, other@, i as nat),
            decreases other.tasks.len() - i,
        {
            self.insert(other.tasks[i].0.clone(), other.tasks[i].1.duplicate());
            i = i + 1;
        }
        let r = self.populate_tree();
        match r {
            Ok(()) => {},
            Err(_) => {
                assert(false);
            },
        }
    }

    /// The merge of two trees: a task of `other` replaces one of the same name.
    /// The graph is rebuilt.
    pub fn add(self, other: &Tree) -> (r: Tree)
        requires
            graph_fits(merged(self@, other@)),
        ensures
            r@ == resolved(merged(self@, other@)),
            graph_of(r.tree, r@),
            self.wf() && other.wf() ==> r.wf(),
    {
        let mut r = self;
        r.add_assign(other);
        r
    }
}

} // verus!
