//! Monotone propagation of boolean flags over the tasks of a tree, run to its
//! fixpoint. Two rules use it: symbolic completion and anchoring.

use vstd::prelude::*;

use crate::model::{Task, TaskView};

verus! {

/// The tasks of a tree as (name, task) pairs, in storage order.
pub type Entries = Seq<(Seq<char>, TaskView)>;

/// The first index whose name is `name`, or -1.
pub open spec fn find_from(t: Entries, name: Seq<char>, i: int) -> int
    decreases t.len() - i,
{
    if i < 0 || i >= t.len() {
        -1
    } else if t[i].0 == name {
        i
    } else {
        find_from(t, name, i + 1)
    }
}

/// The index of the task called `name`, or -1 when there is none.
pub open spec fn find(t: Entries, name: Seq<char>) -> int {
    find_from(t, name, 0)
}

/// The names of the dependencies of task `i`.
pub open spec fn deps(t: Entries, i: int) -> Seq<Seq<char>> {
    t[i].1.depends_on
}

pub proof fn lemma_find_from(t: Entries, name: Seq<char>, i: int)
    requires
        0 <= i <= t.len(),
    ensures
        -1 <= find_from(t, name, i) < t.len(),
        find_from(t, name, i) >= 0 ==> i <= find_from(t, name, i) && t[find_from(t, name, i)].0
            == name,
        find_from(t, name, i) >= 0 ==> forall|k: int|
            i <= k < find_from(t, name, i) ==> t[k].0 != name,
        find_from(t, name, i) < 0 <==> forall|k: int| i <= k < t.len() ==> t[k].0 != name,
    decreases t.len() - i,
{
    if i < t.len() && t[i].0 != name {
        lemma_find_from(t, name, i + 1);
    }
}

pub proof fn lemma_find(t: Entries, name: Seq<char>)
    ensures
        -1 <= find(t, name) < t.len(),
        find(t, name) >= 0 ==> t[find(t, name)].0 == name,
        find(t, name) < 0 <==> forall|k: int| 0 <= k < t.len() ==> t[k].0 != name,
        forall|k: int| 0 <= k < t.len() && t[k].0 == name ==> find(t, name) <= k,
{
    lemma_find_from(t, name, 0);
}

/// The two propagation rules.
#[derive(Clone, Copy, PartialEq, Eq, Structural)]
pub enum Rule {
    /// A symbolic task becomes complete once every dependency is complete.
    Resolve,
    /// A task with a dependency that is real work, or anchored, is anchored.
    Anchor,
}

/// Whether the flag of dependency `name` is set (a missing task never is).
pub open spec fn flag_of(t: Entries, c: Seq<bool>, name: Seq<char>) -> bool {
    find(t, name) >= 0 && c[find(t, name)]
}

/// Whether `rule` sets the flag of task `i` given the flags `c`.
pub open spec fn triggered(t: Entries, rule: Rule, c: Seq<bool>, i: int) -> bool {
    match rule {
        Rule::Resolve => t[i].1.symbolic && forall|k: int|
            0 <= k < deps(t, i).len() ==> #[trigger] flag_of(t, c, deps(t, i)[k]),
        Rule::Anchor => exists|k: int|
            0 <= k < deps(t, i).len() && find(t, #[trigger] deps(t, i)[k]) >= 0 && (!t[find(
                t,
                deps(t, i)[k],
            )].1.symbolic || c[find(t, deps(t, i)[k])]),
    }
}

/// One pass of `rule` over every task: flags are only ever set.
pub open spec fn propagate(t: Entries, rule: Rule, c: Seq<bool>) -> Seq<bool> {
    Seq::new(c.len(), |i: int| c[i] || triggered(t, rule, c, i))
}

/// `n` passes of `rule` starting from `c`.
pub open spec fn iterate(t: Entries, rule: Rule, c: Seq<bool>, n: nat) -> Seq<bool>
    decreases n,
{
    if n == 0 {
        c
    } else {
        propagate(t, rule, iterate(t, rule, c, (n - 1) as nat))
    }
}

/// The fixpoint of `rule` from `c`: as many passes as there are tasks suffice.
pub open spec fn closure(t: Entries, rule: Rule, c: Seq<bool>) -> Seq<bool> {
    iterate(t, rule, c, t.len())
}

/// `n` flags, none set.
pub open spec fn all_false(n: nat) -> Seq<bool> {
    Seq::new(n, |q: int| false)
}

/// The number of set flags.
pub open spec fn count_true(c: Seq<bool>) -> nat
    decreases c.len(),
{
    if c.len() == 0 {
        0
    } else {
        count_true(c.drop_last()) + if c.last() {
            1nat
        } else {
            0nat
        }
    }
}

pub proof fn lemma_count_bound(c: Seq<bool>)
    ensures
        count_true(c) <= c.len(),
    decreases c.len(),
{
    if c.len() > 0 {
        lemma_count_bound(c.drop_last());
    }
}

/// Setting flags never lowers the count, and setting one raises it.
pub proof fn lemma_count_grows(c: Seq<bool>, d: Seq<bool>)
    requires
        c.len() == d.len(),
        forall|i: int| 0 <= i < c.len() && c[i] ==> d[i],
    ensures
        count_true(c) <= count_true(d),
        c != d ==> count_true(c) < count_true(d),
    decreases c.len(),
{
    if c.len() == 0 {
        assert(c =~= d);
    } else {
        let n = c.len() - 1;
        assert(c[n] ==> d[n]);
        assert forall|i: int| 0 <= i < n && c.drop_last()[i] implies d.drop_last()[i] by {
            assert(c.drop_last()[i] == c[i]);
            assert(d.drop_last()[i] == d[i]);
        }
        lemma_count_grows(c.drop_last(), d.drop_last());
        assert(count_true(c) == count_true(c.drop_last()) + if c[n] { 1nat } else { 0nat });
        assert(count_true(d) == count_true(d.drop_last()) + if d[n] { 1nat } else { 0nat });
        if c.drop_last() != d.drop_last() {
            assert(count_true(c.drop_last()) < count_true(d.drop_last()));
        }
        if c != d && c.drop_last() == d.drop_last() {
            assert(c.last() != d.last()) by {
                if c.last() == d.last() {
                    assert forall|i: int| 0 <= i < c.len() implies c[i] == d[i] by {
                        if i < c.len() - 1 {
                            assert(c[i] == c.drop_last()[i]);
                            assert(d[i] == d.drop_last()[i]);
                        }
                    }
                    assert(c =~= d);
                }
            }
        }
    }
}

pub proof fn lemma_iterate_len(t: Entries, rule: Rule, c: Seq<bool>, n: nat)
    ensures
        iterate(t, rule, c, n).len() == c.len(),
    decreases n,
{
    if n > 0 {
        lemma_iterate_len(t, rule, c, (n - 1) as nat);
    }
}

/// Passes only set flags.
pub proof fn lemma_iterate_inflates(t: Entries, rule: Rule, c: Seq<bool>, m: nat, n: nat)
    requires
        m <= n,
    ensures
        forall|i: int|
            0 <= i < c.len() && #[trigger] iterate(t, rule, c, m)[i] ==> iterate(t, rule, c, n)[i],
    decreases n,
{
    if m < n {
        lemma_iterate_inflates(t, rule, c, m, (n - 1) as nat);
        lemma_iterate_len(t, rule, c, (n - 1) as nat);
    }
}

/// Once a pass changes nothing, further passes change nothing.
pub proof fn lemma_iterate_stable(t: Entries, rule: Rule, c: Seq<bool>, k: nat, n: nat)
    requires
        k <= n,
        propagate(t, rule, iterate(t, rule, c, k)) == iterate(t, rule, c, k),
    ensures
        iterate(t, rule, c, n) == iterate(t, rule, c, k),
    decreases n,
{
    if k < n {
        lemma_iterate_stable(t, rule, c, k, (n - 1) as nat);
    }
}

/// Passes that change something raise the count, so the fixpoint is reached
/// within as many passes as there are flags.
pub proof fn lemma_iterate_count(t: Entries, rule: Rule, c: Seq<bool>, k: nat)
    requires
        forall|j: nat|
            j < k ==> propagate(t, rule, iterate(t, rule, c, j)) != iterate(t, rule, c, j),
    ensures
        count_true(iterate(t, rule, c, k)) >= k,
    decreases k,
{
    if k > 0 {
        let p = iterate(t, rule, c, (k - 1) as nat);
        lemma_iterate_count(t, rule, c, (k - 1) as nat);
        lemma_iterate_len(t, rule, c, (k - 1) as nat);
        lemma_count_grows(p, propagate(t, rule, p));
    }
}

/// The index of the first task called `name`.
pub fn find_task(tasks: &Vec<(String, Task)>, name: &String) -> (r: Option<usize>)
    ensures
        match r {
            Some(i) => find(view_entries(tasks@), name@) == i,
            None => find(view_entries(tasks@), name@) == -1,
        },
{
    let ghost t = view_entries(tasks@);
    let mut i: usize = 0;
    while i < tasks.len()
        invariant
            i <= tasks.len(),
            t == view_entries(tasks@),
            find(t, name@) == find_from(t, name@, i as int),
        decreases tasks.len() - i,
    {
        if tasks[i].0 == *name {
            return Some(i);
        }
        i = i + 1;
    }
    None
}

/// The entries of a stored task list.
pub open spec fn view_entries(tasks: Seq<(String, Task)>) -> Entries {
    tasks.map_values(|e: (String, Task)| (e.0@, e.1@))
}

/// Whether `rule` sets the flag of task `i` given the flags `c`.
fn triggered_exec(tasks: &Vec<(String, Task)>, rule: Rule, c: &Vec<bool>, i: usize) -> (r: bool)
    requires
        i < tasks.len(),
        c.len() == tasks.len(),
    ensures
        r == triggered(view_entries(tasks@), rule, c@, i as int),
{
    let ghost t = view_entries(tasks@);
    let dl = &tasks[i].1.depends_on;
    assert(deps(t, i as int) == dl@.map_values(|s: String| s@));
    let mut k: usize = 0;
    match rule {
        Rule::Resolve => {
            if !tasks[i].1.symbolic {
                return false;
            }
            while k < dl.len()
                invariant
                    k <= dl.len(),
                    t == view_entries(tasks@),
                    c.len() == tasks.len(),
                    rule == Rule::Resolve,
                    t[i as int].1.symbolic,
                    deps(t, i as int) == dl@.map_values(|s: String| s@),
                    forall|q: int| 0 <= q < k ==> #[trigger] flag_of(t, c@, deps(t, i as int)[q]),
                decreases dl.len() - k,
            {
                let ghost d = deps(t, i as int)[k as int];
                proof {
                    lemma_find(t, d);
                    assert(d == dl@[k as int]@);
                }
                match find_task(tasks, &dl[k]) {
                    Some(j) => {
                        if !c[j] {
                            assert(!flag_of(t, c@, deps(t, i as int)[k as int]));
                            return false;
                        }
                    },
                    None => {
                        assert(!flag_of(t, c@, deps(t, i as int)[k as int]));
                        return false;
                    },
                }
                k = k + 1;
            }
            true
        },
        Rule::Anchor => {
            while k < dl.len()
                invariant
                    k <= dl.len(),
                    t == view_entries(tasks@),
                    c.len() == tasks.len(),
                    rule == Rule::Anchor,
                    deps(t, i as int) == dl@.map_values(|s: String| s@),
                    forall|q: int|
                        0 <= q < k ==> !(find(t, #[trigger] deps(t, i as int)[q]) >= 0 && (!t[find(
                            t,
                            deps(t, i as int)[q],
                        )].1.symbolic || c@[find(t, deps(t, i as int)[q])])),
                decreases dl.len() - k,
            {
                let ghost d = deps(t, i as int)[k as int];
                proof {
                    lemma_find(t, d);
                    assert(d == dl@[k as int]@);
                }
                match find_task(tasks, &dl[k]) {
                    Some(j) => {
                        if !tasks[j].1.symbolic || c[j] {
                            assert(find(t, deps(t, i as int)[k as int]) == j);
                            assert(t[j as int].1.symbolic == tasks@[j as int].1.symbolic);
                            return true;
                        }
                    },
                    None => {},
                }
                k = k + 1;
            }
            false
        },
    }
}

/// One pass of `rule`; also says whether any flag changed.
fn propagate_exec(tasks: &Vec<(String, Task)>, rule: Rule, c: &Vec<bool>) -> (r: (Vec<bool>, bool))
    requires
        c.len() == tasks.len(),
    ensures
        r.0@ == propagate(view_entries(tasks@), rule, c@),
        r.1 <==> r.0@ != c@,
{
    let ghost t = view_entries(tasks@);
    let mut next: Vec<bool> = Vec::new();
    let mut changed = false;
    let mut i: usize = 0;
    while i < c.len()
        invariant
            i <= c.len(),
            c.len() == tasks.len(),
            t == view_entries(tasks@),
            next@.len() == i,
            forall|q: int| 0 <= q < i ==> next@[q] == (c@[q] || triggered(t, rule, c@, q)),
            changed <==> exists|q: int| 0 <= q < i && next@[q] != c@[q],
        decreases c.len() - i,
    {
        let b = c[i] || triggered_exec(tasks, rule, c, i);
        if b != c[i] {
            changed = true;
        }
        next.push(b);
        i = i + 1;
    }
    assert(next@ =~= propagate(t, rule, c@));
    if !changed {
        assert(next@ =~= c@);
    }
    (next, changed)
}

/// Runs `rule` from the flags `init` until a pass changes nothing.
pub fn close(tasks: &Vec<(String, Task)>, rule: Rule, init: Vec<bool>) -> (r: Vec<bool>)
    requires
        init.len() == tasks.len(),
    ensures
        r@ == closure(view_entries(tasks@), rule, init@),
{
    let ghost t = view_entries(tasks@);
    let mut cur = init;
    let ghost mut k: nat = 0;
    loop
        invariant
            t == view_entries(tasks@),
            cur.len() == tasks.len(),
            init@.len() == tasks.len(),
            cur@ == iterate(t, rule, init@, k),
            k <= count_true(cur@),
            forall|j: nat|
                j < k ==> propagate(t, rule, iterate(t, rule, init@, j)) != iterate(
                    t,
                    rule,
                    init@,
                    j,
                ),
        ensures
            cur@ == iterate(t, rule, init@, k),
            propagate(t, rule, cur@) == cur@,
            k <= tasks.len(),
        decreases tasks.len() - count_true(cur@),
    {
        proof {
            lemma_count_bound(cur@);
        }
        let (next, changed) = propagate_exec(tasks, rule, &cur);
        if !changed {
            break;
        }
        proof {
            lemma_count_grows(cur@, next@);
            lemma_iterate_count(t, rule, init@, k + 1);
            lemma_iterate_len(t, rule, init@, k + 1);
            lemma_count_bound(next@);
            k = k + 1;
        }
        cur = next;
    }
    proof {
        lemma_iterate_stable(t, rule, init@, k, t.len());
    }
    cur
}

} // verus!
