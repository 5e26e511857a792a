//! The lint pass: floating symbolic tasks, cyclic dependencies, missing
//! dependencies and infeasible schedules.

use vstd::prelude::*;

use crate::fixpoint::{
    all_false,
    close, closure, deps, find, find_task, lemma_find, lemma_iterate_len, view_entries, Entries,
    Rule,
};
use crate::clock::now_timestamp;
use crate::model::Task;
use crate::tree::Tree;

verus! {

/// Why a task cannot be finished in time.
#[derive(Clone, Copy, PartialEq, Eq, Structural, Debug)]
pub enum ImpossibleTaskReason {
    /// The estimated time of the task and its unfinished dependencies extends
    /// past the due date.
    NotEnoughTime,
    /// The task is due in the past and is not complete.
    DueInPast,
}

/// A lint finding.
#[derive(Clone, Debug)]
pub enum TaskTreeCoreError {
    ImpossibleTaskError { task_name: String, reason: ImpossibleTaskReason },
    FloatingSymbolic { task_name: String },
    NonexistentDependency { task_name: String, dependency: String },
    CyclicDependency { task_name: String, dependency: String },
}

/// The mathematical value of a finding.
pub enum Finding {
    Impossible(Seq<char>, ImpossibleTaskReason),
    Floating(Seq<char>),
    Missing(Seq<char>, Seq<char>),
    Cyclic(Seq<char>, Seq<char>),
}

impl View for TaskTreeCoreError {
    type V = Finding;

    open spec fn view(&self) -> Finding {
        match self {
            TaskTreeCoreError::ImpossibleTaskError { task_name, reason } => Finding::Impossible(
                task_name@,
                *reason,
            ),
            TaskTreeCoreError::FloatingSymbolic { task_name } => Finding::Floating(task_name@),
            TaskTreeCoreError::NonexistentDependency { task_name, dependency } => Finding::Missing(
                task_name@,
                dependency@,
            ),
            TaskTreeCoreError::CyclicDependency { task_name, dependency } => Finding::Cyclic(
                task_name@,
                dependency@,
            ),
        }
    }
}

/// The values of a list of findings.
pub open spec fn findings_view(v: Seq<TaskTreeCoreError>) -> Seq<Finding> {
    v.map_values(|e: TaskTreeCoreError| e@)
}

pub proof fn lemma_findings_push(s: Seq<TaskTreeCoreError>, e: TaskTreeCoreError)
    ensures
        findings_view(s.push(e)) == findings_view(s).push(e@),
{
    assert(findings_view(s.push(e)) =~= findings_view(s).push(e@));
}

// ---- floating symbolic tasks ----

/// Which tasks are anchored: a task is anchored when one of its dependencies is
/// an existing task that is not symbolic or is itself anchored.
pub open spec fn anchored(t: Entries) -> Seq<bool> {
    closure(t, Rule::Anchor, all_false(t.len()))
}

/// The floating findings among the first `m` tasks: symbolic tasks with at
/// least one dependency that are not anchored.
pub open spec fn floating_upto(t: Entries, a: Seq<bool>, m: nat) -> Seq<Finding>
    decreases m,
{
    if m == 0 {
        Seq::empty()
    } else {
        let i = m - 1;
        floating_upto(t, a, i as nat) + if t[i].1.symbolic && deps(t, i).len() > 0 && !a[i] {
            seq![Finding::Floating(t[i].0)]
        } else {
            Seq::empty()
        }
    }
}

pub open spec fn floating_findings(t: Entries) -> Seq<Finding> {
    floating_upto(t, anchored(t), t.len())
}

// ---- missing dependencies ----

/// The missing-dependency findings for the first `k` dependencies of task `i`:
/// one per name that no task has, at its first occurrence in the list.
pub open spec fn missing_of(t: Entries, i: int, k: nat) -> Seq<Finding>
    decreases k,
{
    if k == 0 {
        Seq::empty()
    } else {
        let d = deps(t, i)[k - 1];
        missing_of(t, i, (k - 1) as nat) + if find(t, d) < 0 && !deps(t, i).take(k - 1).contains(
            d,
        ) {
            seq![Finding::Missing(t[i].0, d)]
        } else {
            Seq::empty()
        }
    }
}

pub open spec fn missing_upto(t: Entries, m: nat) -> Seq<Finding>
    decreases m,
{
    if m == 0 {
        Seq::empty()
    } else {
        missing_upto(t, (m - 1) as nat) + missing_of(t, m - 1, deps(t, m - 1).len())
    }
}

pub open spec fn missing_findings(t: Entries) -> Seq<Finding> {
    missing_upto(t, t.len())
}

/// Appends the floating-symbolic findings.
fn lint_floating(tasks: &Vec<(String, Task)>, out: &mut Vec<TaskTreeCoreError>)
    ensures
        findings_view(final(out)@) == findings_view(old(out)@) + floating_findings(
            view_entries(tasks@),
        ),
{
    let ghost t = view_entries(tasks@);
    let n = tasks.len();
    let mut init: Vec<bool> = Vec::new();
    let mut i: usize = 0;
    while i < n
        invariant
            n == tasks.len(),
            i <= n,
            init@ == Seq::new(i as nat, |q: int| false),
        decreases n - i,
    {
        init.push(false);
        i = i + 1;
        assert(init@ =~= Seq::new(i as nat, |q: int| false));
    }
    let a = close(tasks, Rule::Anchor, init);
    proof {
        lemma_iterate_len(t, Rule::Anchor, all_false(t.len()), t.len());
    }
    i = 0;
    while i < n
        invariant
            n == tasks.len(),
            t == view_entries(tasks@),
            a@ == anchored(t),
            a@.len() == n,
            i <= n,
            findings_view(out@) == findings_view(old(out)@) + floating_upto(t, a@, i as nat),
        decreases n - i,
    {
        let ghost before = out@;
        assert(deps(t, i as int).len() == tasks[i as int].1.depends_on.len());
        if tasks[i].1.symbolic && tasks[i].1.depends_on.len() > 0 && !a[i] {
            let e = TaskTreeCoreError::FloatingSymbolic { task_name: tasks[i].0.clone() };
            proof {
                lemma_findings_push(before, e);
            }
            out.push(e);
        }
        i = i + 1;
        assert(findings_view(out@) =~= findings_view(old(out)@) + floating_upto(t, a@, i as nat));
    }
}

/// Whether `name` occurs among the first `k` names of `names`.
fn occurs_before(names: &Vec<String>, k: usize, name: &String) -> (r: bool)
    requires
        k <= names.len(),
    ensures
        r == names@.map_values(|s: String| s@).take(k as int).contains(name@),
{
    let ghost s = names@.map_values(|s: String| s@);
    let mut q: usize = 0;
    while q < k
        invariant
            q <= k,
            k <= names.len(),
            s == names@.map_values(|s: String| s@),
            forall|p: int| 0 <= p < q ==> s[p] != name@,
        decreases k - q,
    {
        if names[q] == *name {
            assert(s.take(k as int)[q as int] == name@);
            return true;
        }
        q = q + 1;
    }
    assert(!s.take(k as int).contains(name@)) by {
        assert forall|p: int| 0 <= p < k implies s.take(k as int)[p] != name@ by {
            assert(s.take(k as int)[p] == s[p]);
        }
    }
    false
}

/// Appends the missing-dependency findings.
fn lint_missing(tasks: &Vec<(String, Task)>, out: &mut Vec<TaskTreeCoreError>)
    ensures
        findings_view(final(out)@) == findings_view(old(out)@) + missing_findings(
            view_entries(tasks@),
        ),
{
    let ghost t = view_entries(tasks@);
    let n = tasks.len();
    let mut i: usize = 0;
    while i < n
        invariant
            n == tasks.len(),
            t == view_entries(tasks@),
            i <= n,
            findings_view(out@) == findings_view(old(out)@) + missing_upto(t, i as nat),
        decreases n - i,
    {
        let dl = &tasks[i].1.depends_on;
        assert(deps(t, i as int) == dl@.map_values(|s: String| s@));
        let ghost start = out@;
        let mut k: usize = 0;
        while k < dl.len()
            invariant
                n == tasks.len(),
                t == view_entries(tasks@),
                i < n,
                k <= dl.len(),
                deps(t, i as int) == dl@.map_values(|s: String| s@),
                findings_view(start) == findings_view(old(out)@) + missing_upto(t, i as nat),
                findings_view(out@) == findings_view(start) + missing_of(t, i as int, k as nat),
            decreases dl.len() - k,
        {
            proof {
                assert(deps(t, i as int)[k as int] == dl@[k as int]@);
            }
            let missing = match find_task(tasks, &dl[k]) {
                Some(_) => false,
                None => true,
            };
            let ghost before = out@;
            if missing && !occurs_before(dl, k, &dl[k]) {
                let e = TaskTreeCoreError::NonexistentDependency {
                    task_name: tasks[i].0.clone(),
                    dependency: dl[k].clone(),
                };
                proof {
                    lemma_findings_push(before, e);
                }
                out.push(e);
            }
            k = k + 1;
            assert(findings_view(out@) =~= findings_view(start) + missing_of(
                t,
                i as int,
                k as nat,
            ));
        }
        i = i + 1;
        assert(findings_view(out@) =~= findings_view(old(out)@) + missing_upto(t, i as nat));
    }
}

// ---- cyclic dependencies ----

/// The first position at or after `k` in the dependency list of task `i` that
/// names a task on `path`, or -1.
pub open spec fn first_on_path(t: Entries, i: int, path: Seq<int>, k: int) -> int
    decreases deps(t, i).len() - k,
{
    if k < 0 || k >= deps(t, i).len() {
        -1
    } else if find(t, deps(t, i)[k]) >= 0 && path.contains(find(t, deps(t, i)[k])) {
        k
    } else {
        first_on_path(t, i, path, k + 1)
    }
}

/// The cycle witnesses found by a depth-first walk from task `i`, reached along
/// `path`: when a dependency of `i` lies on the path (or is `i`), the edge to the
/// first such dependency; otherwise the witnesses of the walks into each
/// existing dependency, in order.
pub open spec fn walk(t: Entries, i: int, path: Seq<int>) -> Seq<(int, int)>
    decreases t.len() - path.len(), 1int, 0int,
{
    if path.len() >= t.len() {
        Seq::empty()
    } else {
        let p = path.push(i);
        let k = first_on_path(t, i, p, 0);
        if k >= 0 {
            seq![(i, find(t, deps(t, i)[k]))]
        } else {
            walk_deps(t, i, p, 0)
        }
    }
}

/// The witnesses of the walks into the dependencies of `i` from position `k` on.
pub open spec fn walk_deps(t: Entries, i: int, p: Seq<int>, k: int) -> Seq<(int, int)>
    decreases t.len() - p.len() + 1, 0int, deps(t, i).len() - k,
{
    if p.len() > t.len() || k < 0 || k >= deps(t, i).len() {
        Seq::empty()
    } else {
        let j = find(t, deps(t, i)[k]);
        (if j >= 0 {
            walk(t, j, p)
        } else {
            Seq::empty()
        }) + walk_deps(t, i, p, k + 1)
    }
}

/// The witnesses of the walks from each of the first `m` tasks.
pub open spec fn all_walks(t: Entries, m: nat) -> Seq<(int, int)>
    decreases m,
{
    if m == 0 {
        Seq::empty()
    } else {
        all_walks(t, (m - 1) as nat) + walk(t, m - 1, Seq::empty())
    }
}

/// `s` with each element kept at its first occurrence only.
pub open spec fn dedup(s: Seq<(int, int)>) -> Seq<(int, int)>
    decreases s.len(),
{
    if s.len() == 0 {
        s
    } else {
        let d = dedup(s.drop_last());
        if d.contains(s.last()) {
            d
        } else {
            d.push(s.last())
        }
    }
}

/// The distinct cycle witness edges, as (task, dependency) indices.
pub open spec fn cycle_edges(t: Entries) -> Seq<(int, int)> {
    dedup(all_walks(t, t.len()))
}

pub open spec fn cyclic_findings(t: Entries) -> Seq<Finding> {
    cycle_edges(t).map_values(|e: (int, int)| Finding::Cyclic(t[e.0].0, t[e.1].0))
}

pub open spec fn int_path(p: Seq<usize>) -> Seq<int> {
    p.map_values(|x: usize| x as int)
}

pub open spec fn int_pairs(s: Seq<(usize, usize)>) -> Seq<(int, int)> {
    s.map_values(|e: (usize, usize)| (e.0 as int, e.1 as int))
}

proof fn lemma_walk_in_range(t: Entries, i: int, path: Seq<int>)
    requires
        0 <= i < t.len(),
    ensures
        forall|q: int|
            0 <= q < walk(t, i, path).len() ==> 0 <= #[trigger] walk(t, i, path)[q].0 < t.len()
                && 0 <= walk(t, i, path)[q].1 < t.len(),
    decreases t.len() - path.len(), 1int, 0int,
{
    if path.len() < t.len() {
        let p = path.push(i);
        let k = first_on_path(t, i, p, 0);
        if k >= 0 {
            lemma_first_on_path(t, i, p, 0);
            lemma_find(t, deps(t, i)[k]);
            assert(walk(t, i, path) == seq![(i, find(t, deps(t, i)[k]))]);
        } else {
            lemma_walk_deps_in_range(t, i, p, 0);
            assert(walk(t, i, path) == walk_deps(t, i, p, 0));
        }
    }
}

proof fn lemma_walk_deps_in_range(t: Entries, i: int, p: Seq<int>, k: int)
    ensures
        forall|q: int|
            0 <= q < walk_deps(t, i, p, k).len() ==> 0 <= #[trigger] walk_deps(t, i, p, k)[q].0
                < t.len() && 0 <= walk_deps(t, i, p, k)[q].1 < t.len(),
    decreases t.len() - p.len() + 1, 0int, deps(t, i).len() - k,
{
    if !(p.len() > t.len() || k < 0 || k >= deps(t, i).len()) {
        let j = find(t, deps(t, i)[k]);
        lemma_find(t, deps(t, i)[k]);
        lemma_walk_deps_in_range(t, i, p, k + 1);
        let a = if j >= 0 {
            walk(t, j, p)
        } else {
            Seq::empty()
        };
        if j >= 0 {
            lemma_walk_in_range(t, j, p);
        }
        let b = walk_deps(t, i, p, k + 1);
        assert forall|q: int| 0 <= q < (a + b).len() implies 0 <= #[trigger] (a + b)[q].0 < t.len() && 0 <= (
        a + b)[q].1 < t.len() by {
            if q >= a.len() {
                assert((a + b)[q] == b[q - a.len()]);
            }
        }
    }
}

pub proof fn lemma_first_on_path(t: Entries, i: int, p: Seq<int>, k: int)
    requires
        0 <= k,
    ensures
        first_on_path(t, i, p, k) >= 0 ==> k <= first_on_path(t, i, p, k) < deps(t, i).len()
            && find(t, deps(t, i)[first_on_path(t, i, p, k)]) >= 0 && p.contains(
            find(t, deps(t, i)[first_on_path(t, i, p, k)]),
        ),
        first_on_path(t, i, p, k) < 0 ==> forall|q: int|
            k <= q < deps(t, i).len() ==> !(find(t, #[trigger] deps(t, i)[q]) >= 0 && p.contains(
                find(t, deps(t, i)[q]),
            )),
    decreases deps(t, i).len() - k,
{
    if k < deps(t, i).len() {
        lemma_first_on_path(t, i, p, k + 1);
    }
}

proof fn lemma_all_walks_in_range(t: Entries, m: nat)
    requires
        m <= t.len(),
    ensures
        forall|q: int|
            0 <= q < all_walks(t, m).len() ==> 0 <= #[trigger] all_walks(t, m)[q].0 < t.len() && 0
                <= all_walks(t, m)[q].1 < t.len(),
    decreases m,
{
    if m > 0 {
        lemma_all_walks_in_range(t, (m - 1) as nat);
        lemma_walk_in_range(t, m - 1, Seq::empty());
        let a = all_walks(t, (m - 1) as nat);
        let b = walk(t, m - 1, Seq::empty());
        assert forall|q: int| 0 <= q < (a + b).len() implies 0 <= #[trigger] (a + b)[q].0 < t.len() && 0 <= (
        a + b)[q].1 < t.len() by {
            if q >= a.len() {
                assert((a + b)[q] == b[q - a.len()]);
            }
        }
    }
}

/// Whether `x` is on the path.
fn path_contains(p: &Vec<usize>, x: usize) -> (r: bool)
    ensures
        r == int_path(p@).contains(x as int),
{
    let mut q: usize = 0;
    while q < p.len()
        invariant
            q <= p.len(),
            forall|z: int| 0 <= z < q ==> p@[z] != x,
        decreases p.len() - q,
    {
        if p[q] == x {
            assert(int_path(p@)[q as int] == x as int);
            return true;
        }
        q = q + 1;
    }
    assert(!int_path(p@).contains(x as int)) by {
        assert forall|z: int| 0 <= z < p.len() implies int_path(p@)[z] != x as int by {}
    }
    false
}

/// The task named by the first dependency of `i` that lies on `p`.
fn first_on_path_exec(tasks: &Vec<(String, Task)>, i: usize, p: &Vec<usize>) -> (r: Option<usize>)
    requires
        i < tasks.len(),
    ensures
        match r {
            Some(j) => first_on_path(view_entries(tasks@), i as int, int_path(p@), 0) >= 0 && j
                == find(
                view_entries(tasks@),
                deps(view_entries(tasks@), i as int)[first_on_path(
                    view_entries(tasks@),
                    i as int,
                    int_path(p@),
                    0,
                )],
            ),
            None => first_on_path(view_entries(tasks@), i as int, int_path(p@), 0) < 0,
        },
{
    let ghost t = view_entries(tasks@);
    let dl = &tasks[i].1.depends_on;
    assert(deps(t, i as int) == dl@.map_values(|s: String| s@));
    let mut k: usize = 0;
    while k < dl.len()
        invariant
            t == view_entries(tasks@),
            i < tasks.len(),
            k <= dl.len(),
            deps(t, i as int) == dl@.map_values(|s: String| s@),
            first_on_path(t, i as int, int_path(p@), 0) == first_on_path(
                t,
                i as int,
                int_path(p@),
                k as int,
            ),
        decreases dl.len() - k,
    {
        proof {
            assert(deps(t, i as int)[k as int] == dl@[k as int]@);
            lemma_find(t, deps(t, i as int)[k as int]);
        }
        match find_task(tasks, &dl[k]) {
            Some(j) => {
                if path_contains(p, j) {
                    return Some(j);
                }
            },
            None => {},
        }
        k = k + 1;
    }
    None
}

/// A copy of `p` with `x` appended.
fn extend_path(p: &Vec<usize>, x: usize) -> (r: Vec<usize>)
    ensures
        int_path(r@) == int_path(p@).push(x as int),
{
    let mut r: Vec<usize> = Vec::new();
    let mut q: usize = 0;
    while q < p.len()
        invariant
            q <= p.len(),
            r@ == p@.take(q as int),
        decreases p.len() - q,
    {
        r.push(p[q]);
        q = q + 1;
        assert(r@ =~= p@.take(q as int));
    }
    assert(r@ =~= p@);
    r.push(x);
    assert(int_path(r@) =~= int_path(p@).push(x as int));
    r
}

/// Appends the witnesses of the walk from task `i` along `path`.
fn walk_exec(
    tasks: &Vec<(String, Task)>,
    i: usize,
    path: &Vec<usize>,
    out: &mut Vec<(usize, usize)>,
)
    requires
        i < tasks.len(),
    ensures
        int_pairs(final(out)@) == int_pairs(old(out)@) + walk(
            view_entries(tasks@),
            i as int,
            int_path(path@),
        ),
    decreases tasks.len() - path.len(),
{
    let ghost t = view_entries(tasks@);
    let ghost path_i = int_path(path@);
    if path.len() >= tasks.len() {
        assert(int_pairs(out@) =~= int_pairs(old(out)@) + walk(t, i as int, path_i));
        return;
    }
    let p = extend_path(path, i);
    let ghost pi = int_path(p@);
    assert(pi.len() == p@.len() && path_i.len() == path@.len());
    match first_on_path_exec(tasks, i, &p) {
        Some(j) => {
            let ghost before = out@;
            out.push((i, j));
            assert(int_pairs(out@) =~= int_pairs(before) + walk(t, i as int, path_i));
        },
        None => {
            let dl = &tasks[i].1.depends_on;
            assert(deps(t, i as int) == dl@.map_values(|s: String| s@));
            let mut k: usize = 0;
            while k < dl.len()
                invariant
                    t == view_entries(tasks@),
                    i < tasks.len(),
                    k <= dl.len(),
                    pi == int_path(p@),
                    p@.len() == path@.len() + 1,
                    path@.len() < tasks.len(),
                    deps(t, i as int) == dl@.map_values(|s: String| s@),
                    int_pairs(out@) + walk_deps(t, i as int, pi, k as int) == int_pairs(old(out)@)
                        + walk_deps(t, i as int, pi, 0),
                decreases dl.len() - k,
            {
                proof {
                    assert(deps(t, i as int)[k as int] == dl@[k as int]@);
                    lemma_find(t, deps(t, i as int)[k as int]);
                }
                let ghost before = out@;
                match find_task(tasks, &dl[k]) {
                    Some(j) => {
                        walk_exec(tasks, j, &p, out);
                    },
                    None => {},
                }
                k = k + 1;
                assert(int_pairs(out@) + walk_deps(t, i as int, pi, k as int) =~= int_pairs(before)
                    + walk_deps(t, i as int, pi, (k - 1) as int));
            }
            assert(walk_deps(t, i as int, pi, k as int) =~= Seq::<(int, int)>::empty());
            assert(int_pairs(out@) =~= int_pairs(old(out)@) + walk(t, i as int, path_i));
        },
    }
}

/// Whether the pair is in `s`.
fn pair_in(s: &Vec<(usize, usize)>, e: (usize, usize)) -> (r: bool)
    ensures
        r == int_pairs(s@).contains((e.0 as int, e.1 as int)),
{
    let mut q: usize = 0;
    while q < s.len()
        invariant
            q <= s.len(),
            forall|z: int| 0 <= z < q ==> s@[z] != e,
        decreases s.len() - q,
    {
        if s[q].0 == e.0 && s[q].1 == e.1 {
            assert(int_pairs(s@)[q as int] == (e.0 as int, e.1 as int));
            return true;
        }
        q = q + 1;
    }
    assert(!int_pairs(s@).contains((e.0 as int, e.1 as int))) by {
        assert forall|z: int| 0 <= z < s.len() implies int_pairs(s@)[z] != (
        e.0 as int,
        e.1 as int,
        ) by {}
    }
    false
}

/// The distinct cycle witness edges of the tasks.
fn find_cycle_edges(tasks: &Vec<(String, Task)>) -> (r: Vec<(usize, usize)>)
    ensures
        int_pairs(r@) == cycle_edges(view_entries(tasks@)),
{
    let ghost t = view_entries(tasks@);
    let mut all: Vec<(usize, usize)> = Vec::new();
    let empty: Vec<usize> = Vec::new();
    assert(int_path(empty@) =~= Seq::<int>::empty());
    let mut s: usize = 0;
    while s < tasks.len()
        invariant
            t == view_entries(tasks@),
            s <= tasks.len(),
            int_path(empty@) == Seq::<int>::empty(),
            int_pairs(all@) == all_walks(t, s as nat),
        decreases tasks.len() - s,
    {
        walk_exec(tasks, s, &empty, &mut all);
        s = s + 1;
    }
    let mut r: Vec<(usize, usize)> = Vec::new();
    let mut q: usize = 0;
    while q < all.len()
        invariant
            q <= all.len(),
            int_pairs(r@) == dedup(int_pairs(all@).take(q as int)),
        decreases all.len() - q,
    {
        let e = all[q];
        assert(int_pairs(all@).take(q + 1).drop_last() =~= int_pairs(all@).take(q as int));
        if !pair_in(&r, e) {
            r.push(e);
        }
        q = q + 1;
        assert(int_pairs(r@) =~= dedup(int_pairs(all@).take(q as int)));
    }
    assert(int_pairs(all@).take(all.len() as int) =~= int_pairs(all@));
    r
}

/// Appends the cyclic-dependency findings; says whether there were any.
fn lint_cyclic(tasks: &Vec<(String, Task)>, out: &mut Vec<TaskTreeCoreError>) -> (r: bool)
    ensures
        findings_view(final(out)@) == findings_view(old(out)@) + cyclic_findings(
            view_entries(tasks@),
        ),
        r == (cycle_edges(view_entries(tasks@)).len() > 0),
{
    let ghost t = view_entries(tasks@);
    let edges = find_cycle_edges(tasks);
    proof {
        let all = all_walks(t, t.len());
        lemma_all_walks_in_range(t, t.len());
        lemma_dedup_sub(all);
        assert forall|z: int| 0 <= z < edges.len() implies (#[trigger] edges@[z]).0 < tasks.len()
            && edges@[z].1 < tasks.len() by {
            let x = int_pairs(edges@)[z];
            assert(dedup(all)[z] == x);
            assert(dedup(all).contains(x));
            assert(all.contains(x));
            let w = choose|w: int| 0 <= w < all.len() && all[w] == x;
            assert(0 <= all[w].0 < t.len());
        }
    }
    let mut q: usize = 0;
    while q < edges.len()
        invariant
            t == view_entries(tasks@),
            q <= edges.len(),
            int_pairs(edges@) == cycle_edges(t),
            forall|z: int|
                0 <= z < edges.len() ==> (#[trigger] edges@[z]).0 < tasks.len() && edges@[z].1
                    < tasks.len(),
            findings_view(out@) == findings_view(old(out)@) + cyclic_findings(t).take(q as int),
        decreases edges.len() - q,
    {
        proof {
            assert(int_pairs(edges@)[q as int] == cycle_edges(t)[q as int]);
        }
        let (a, b) = edges[q];
        let e = TaskTreeCoreError::CyclicDependency {
            task_name: tasks[a].0.clone(),
            dependency: tasks[b].0.clone(),
        };
        let ghost before = out@;
        proof {
            lemma_findings_push(before, e);
        }
        out.push(e);
        q = q + 1;
        assert(findings_view(out@) =~= findings_view(old(out)@) + cyclic_findings(t).take(
            q as int,
        ));
    }
    assert(cyclic_findings(t).take(q as int) =~= cyclic_findings(t));
    edges.len() > 0
}

/// Every element of `dedup(s)` is an element of `s`.
pub proof fn lemma_dedup_sub(s: Seq<(int, int)>)
    ensures
        forall|x: (int, int)| dedup(s).contains(x) ==> s.contains(x),
        dedup(s).len() == 0 <==> s.len() == 0,
    decreases s.len(),
{
    if s.len() > 0 {
        lemma_dedup_sub(s.drop_last());
        let d = dedup(s.drop_last());
        assert forall|x: (int, int)| dedup(s).contains(x) implies s.contains(x) by {
            if d.contains(x) {
                assert(s.drop_last().contains(x));
                let z = choose|z: int| 0 <= z < s.drop_last().len() && s.drop_last()[z] == x;
                assert(s[z] == x);
            } else {
                if d.contains(s.last()) {
                    assert(dedup(s) == d);
                } else {
                    assert(dedup(s) == d.push(s.last()));
                    let z = choose|z: int| 0 <= z < dedup(s).len() && dedup(s)[z] == x;
                    assert(z == d.len());
                }
                assert(s[s.len() - 1] == x);
            }
        }
        if d.contains(s.last()) {
            assert(d.len() > 0);
        } else {
            assert(d.push(s.last()).len() > 0);
        }
    }
}

// ---- infeasible schedules ----

/// The estimated time of task `j` in seconds; absent counts as zero.
pub open spec fn est(t: Entries, j: int) -> int {
    match t[j].1.estimated_time {
        Some(e) => e as int,
        None => 0,
    }
}

/// The time still needed for task `j` and, below it, for its dependencies: a
/// complete task (or a name with no task) needs nothing and is not descended
/// into. `fuel` bounds the depth of the descent.
pub open spec fn pending(t: Entries, j: int, fuel: nat) -> int
    decreases fuel as int, 1int, 0int,
{
    if fuel == 0 || j < 0 || j >= t.len() || t[j].1.complete {
        0
    } else {
        est(t, j) + pending_deps(t, j, deps(t, j).len(), (fuel - 1) as nat)
    }
}

/// The time still needed for the first `k` dependencies of task `j`.
pub open spec fn pending_deps(t: Entries, j: int, k: nat, fuel: nat) -> int
    decreases fuel as int, 2int, k as int,
{
    if k == 0 || j < 0 || j >= t.len() || k > deps(t, j).len() {
        0
    } else {
        pending_deps(t, j, (k - 1) as nat, fuel) + pending(t, find(t, deps(t, j)[k - 1]), fuel)
    }
}

/// The time needed to finish task `i`: its own estimate plus what its
/// dependencies still need. The descent is bounded by the number of tasks, which
/// no chain of dependencies without a cycle reaches.
pub open spec fn completion_time(t: Entries, i: int) -> int {
    est(t, i) + pending_deps(t, i, deps(t, i).len(), t.len())
}

/// The schedule finding for task `i` at time `now`, if any.
pub open spec fn timing_of(t: Entries, i: int, now: i64) -> Seq<Finding> {
    match t[i].1.due {
        None => Seq::empty(),
        Some(due) => if due < now && !t[i].1.complete {
            seq![Finding::Impossible(t[i].0, ImpossibleTaskReason::DueInPast)]
        } else if now + completion_time(t, i) > due {
            seq![Finding::Impossible(t[i].0, ImpossibleTaskReason::NotEnoughTime)]
        } else {
            Seq::empty()
        },
    }
}

pub open spec fn timing_upto(t: Entries, m: nat, now: i64) -> Seq<Finding>
    decreases m,
{
    if m == 0 {
        Seq::empty()
    } else {
        timing_upto(t, (m - 1) as nat, now) + timing_of(t, m - 1, now)
    }
}

pub open spec fn timing_findings(t: Entries, now: i64) -> Seq<Finding> {
    timing_upto(t, t.len(), now)
}

/// `x` capped at the largest `u128`.
pub open spec fn cap(x: int) -> int {
    if x > u128::MAX {
        u128::MAX as int
    } else {
        x
    }
}

proof fn lemma_pending_nonneg(t: Entries, j: int, fuel: nat)
    ensures
        pending(t, j, fuel) >= 0,
    decreases fuel as int, 1int, 0int,
{
    if !(fuel == 0 || j < 0 || j >= t.len() || t[j].1.complete) {
        lemma_pending_deps_nonneg(t, j, deps(t, j).len(), (fuel - 1) as nat);
    }
}

proof fn lemma_pending_deps_nonneg(t: Entries, j: int, k: nat, fuel: nat)
    ensures
        pending_deps(t, j, k, fuel) >= 0,
    decreases fuel as int, 2int, k as int,
{
    if !(k == 0 || j < 0 || j >= t.len() || k > deps(t, j).len()) {
        lemma_pending_deps_nonneg(t, j, (k - 1) as nat, fuel);
        lemma_pending_nonneg(t, find(t, deps(t, j)[k - 1]), fuel);
    }
}

fn est_exec(task: &Task) -> (r: u128)
    ensures
        r == match task.estimated_time {
            Some(e) => e as int,
            None => 0int,
        },
{
    match task.estimated_time {
        Some(e) => e as u128,
        None => 0,
    }
}

/// The capped time still needed for task `j`.
fn pending_exec(tasks: &Vec<(String, Task)>, j: usize, fuel: usize) -> (r: u128)
    requires
        j < tasks.len(),
    ensures
        r == cap(pending(view_entries(tasks@), j as int, fuel as nat)),
    decreases fuel, 1usize,
{
    let ghost t = view_entries(tasks@);
    if fuel == 0 || tasks[j].1.complete {
        return 0;
    }
    let own = est_exec(&tasks[j].1);
    let rest = pending_deps_exec(tasks, j, fuel - 1);
    proof {
        lemma_pending_deps_nonneg(t, j as int, deps(t, j as int).len(), (fuel - 1) as nat);
    }
    own.saturating_add(rest)
}

/// The capped time still needed for all dependencies of task `j`.
fn pending_deps_exec(tasks: &Vec<(String, Task)>, j: usize, fuel: usize) -> (r: u128)
    requires
        j < tasks.len(),
    ensures
        r == cap(
            pending_deps(
                view_entries(tasks@),
                j as int,
                deps(view_entries(tasks@), j as int).len(),
                fuel as nat,
            ),
        ),
    decreases fuel, 2usize,
{
    let ghost t = view_entries(tasks@);
    let dl = &tasks[j].1.depends_on;
    assert(deps(t, j as int) == dl@.map_values(|s: String| s@));
    let mut acc: u128 = 0;
    let mut k: usize = 0;
    while k < dl.len()
        invariant
            t == view_entries(tasks@),
            j < tasks.len(),
            k <= dl.len(),
            deps(t, j as int) == dl@.map_values(|s: String| s@),
            acc == cap(pending_deps(t, j as int, k as nat, fuel as nat)),
        decreases dl.len() - k,
    {
        proof {
            assert(deps(t, j as int)[k as int] == dl@[k as int]@);
            lemma_find(t, deps(t, j as int)[k as int]);
            lemma_pending_deps_nonneg(t, j as int, k as nat, fuel as nat);
            lemma_pending_nonneg(t, find(t, deps(t, j as int)[k as int]), fuel as nat);
        }
        let p = match find_task(tasks, &dl[k]) {
            Some(d) => pending_exec(tasks, d, fuel),
            None => 0,
        };
        acc = acc.saturating_add(p);
        k = k + 1;
    }
    acc
}

/// Appends the schedule findings at time `now`.
fn lint_timing(tasks: &Vec<(String, Task)>, now: i64, out: &mut Vec<TaskTreeCoreError>)
    ensures
        findings_view(final(out)@) == findings_view(old(out)@) + timing_findings(
            view_entries(tasks@),
            now,
        ),
{
    let ghost t = view_entries(tasks@);
    let n = tasks.len();
    let mut i: usize = 0;
    while i < n
        invariant
            n == tasks.len(),
            t == view_entries(tasks@),
            i <= n,
            findings_view(out@) == findings_view(old(out)@) + timing_upto(t, i as nat, now),
        decreases n - i,
    {
        let ghost before = out@;
        match tasks[i].1.due {
            None => {},
            Some(due) => {
                if due < now && !tasks[i].1.complete {
                    let e = TaskTreeCoreError::ImpossibleTaskError {
                        task_name: tasks[i].0.clone(),
                        reason: ImpossibleTaskReason::DueInPast,
                    };
                    proof {
                        lemma_findings_push(before, e);
                    }
                    out.push(e);
                } else {
                    let own = est_exec(&tasks[i].1);
                    let rest = pending_deps_exec(tasks, i, n);
                    proof {
                        lemma_pending_deps_nonneg(t, i as int, deps(t, i as int).len(), n as nat);
                    }
                    let total = own.saturating_add(rest);
                    assert(total == cap(completion_time(t, i as int)));
                    let diff: i128 = due as i128 - now as i128;
                    if diff < 0 || total > diff as u128 {
                        let e = TaskTreeCoreError::ImpossibleTaskError {
                            task_name: tasks[i].0.clone(),
                            reason: ImpossibleTaskReason::NotEnoughTime,
                        };
                        proof {
                            lemma_findings_push(before, e);
                        }
                        out.push(e);
                    }
                }
            },
        }
        i = i + 1;
        assert(findings_view(out@) =~= findings_view(old(out)@) + timing_upto(t, i as nat, now));
    }
}

// ---- the whole pass ----

/// All findings of the lint pass at time `now`, in report order: floating
/// symbolic tasks, cyclic dependencies, missing dependencies, then (only when no
/// cycle was found) infeasible schedules.
pub open spec fn lint_findings(t: Entries, now: i64) -> Seq<Finding> {
    floating_findings(t) + cyclic_findings(t) + missing_findings(t) + if cycle_edges(t).len()
        == 0 {
        timing_findings(t, now)
    } else {
        Seq::empty()
    }
}

/// `r` is the outcome of linting `t` at time `now`: success exactly when there
/// is no finding, else every finding in order.
pub open spec fn lint_outcome(r: Result<(), Vec<TaskTreeCoreError>>, t: Entries, now: i64) -> bool {
    match r {
        Ok(()) => lint_findings(t, now).len() == 0,
        Err(v) => v@.len() > 0 && findings_view(v@) == lint_findings(t, now),
    }
}

impl Tree {
    /// Lints the tree at the time `now` (a Unix timestamp in seconds).
    pub fn lint_tree_at(&self, now: i64) -> (r: Result<(), Vec<TaskTreeCoreError>>)
        ensures
            lint_outcome(r, self@, now),
    {
        let mut out: Vec<TaskTreeCoreError> = Vec::new();
        assert(findings_view(out@) =~= Seq::<Finding>::empty());
        lint_floating(&self.tasks, &mut out);
        let cyclic = lint_cyclic(&self.tasks, &mut out);
        lint_missing(&self.tasks, &mut out);
        if !cyclic {
            lint_timing(&self.tasks, now, &mut out);
        }
        assert(findings_view(out@) =~= lint_findings(self@, now));
        if out.len() == 0 {
            Ok(())
        } else {
            Err(out)
        }
    }

    /// Lints the tree at the current time of the wall clock.
    pub fn lint_tree(&self) -> (r: Result<(), Vec<TaskTreeCoreError>>)
        ensures
            exists|now: i64| lint_outcome(r, self@, now),
    {
        let now = now_timestamp();
        self.lint_tree_at(now)
    }
}

} // verus!
