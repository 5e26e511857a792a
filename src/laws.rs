//! Laws of symbolic resolution, merging, anchoring, cycle detection and the
//! schedule check.

use vstd::prelude::*;

use crate::fixpoint::{
    all_false,
    closure, deps, find, find_from, flag_of, iterate, lemma_count_bound, lemma_find,
    lemma_iterate_count, lemma_iterate_inflates, lemma_iterate_len, lemma_iterate_stable,
    propagate, triggered, Entries, Rule,
};
use crate::lint::{
    missing_findings, missing_of, missing_upto, all_walks, cyclic_findings, first_on_path, lemma_dedup_sub, lemma_first_on_path, walk,
    walk_deps, anchored, floating_findings, floating_upto, completion_time, est, pending, pending_deps, timing_of, Finding, ImpossibleTaskReason,
};
use crate::model::TaskView;
use crate::tree::{
    complete_flags, insert_entry, merge_prefix, merged, resolved, unique_names, with_flags,
};

verus! {

/// The fixpoint is reached: one more pass changes nothing.
pub proof fn lemma_closure_is_fixpoint(t: Entries, rule: Rule, c: Seq<bool>)
    requires
        c.len() == t.len(),
    ensures
        propagate(t, rule, closure(t, rule, c)) == closure(t, rule, c),
{
    let n = t.len();
    if exists|j: nat| j <= n && propagate(t, rule, iterate(t, rule, c, j)) == iterate(t, rule, c, j) {
        let j = choose|j: nat|
            j <= n && propagate(t, rule, iterate(t, rule, c, j)) == iterate(t, rule, c, j);
        lemma_iterate_stable(t, rule, c, j, n);
    } else {
        lemma_iterate_count(t, rule, c, n + 1);
        lemma_iterate_len(t, rule, c, n + 1);
        lemma_count_bound(iterate(t, rule, c, n + 1));
    }
}

/// Symbolic resolution never turns a complete task incomplete.
pub proof fn lemma_resolve_monotone(t: Entries)
    ensures
        resolved(t).len() == t.len(),
        forall|i: int|
            0 <= i < t.len() && t[i].1.complete ==> #[trigger] resolved(t)[i].1.complete,
{
    lemma_iterate_len(t, Rule::Resolve, complete_flags(t), t.len());
    lemma_iterate_inflates(t, Rule::Resolve, complete_flags(t), 0, t.len());
    assert forall|i: int| 0 <= i < t.len() && t[i].1.complete implies #[trigger] resolved(
        t,
    )[i].1.complete by {
        assert(iterate(t, Rule::Resolve, complete_flags(t), 0)[i]);
    }
}

proof fn lemma_find_same_names(t: Entries, u: Entries, name: Seq<char>, i: int)
    requires
        t.len() == u.len(),
        forall|q: int| 0 <= q < t.len() ==> t[q].0 == u[q].0,
    ensures
        find_from(t, name, i) == find_from(u, name, i),
    decreases t.len() - i,
{
    if 0 <= i < t.len() {
        lemma_find_same_names(t, u, name, i + 1);
    }
}

proof fn lemma_iterate_same_shape(t: Entries, u: Entries, rule: Rule, c: Seq<bool>, n: nat)
    requires
        t.len() == u.len(),
        forall|q: int| 0 <= q < t.len() ==> t[q].0 == u[q].0,
        forall|q: int| 0 <= q < t.len() ==> t[q].1.symbolic == u[q].1.symbolic,
        forall|q: int| 0 <= q < t.len() ==> deps(t, q) == deps(u, q),
        c.len() == t.len(),
    ensures
        iterate(t, rule, c, n) == iterate(u, rule, c, n),
    decreases n,
{
    assert forall|name: Seq<char>| find(t, name) == find(u, name) by {
        lemma_find_same_names(t, u, name, 0);
    }
    if n > 0 {
        lemma_iterate_same_shape(t, u, rule, c, (n - 1) as nat);
        let x = iterate(t, rule, c, (n - 1) as nat);
        lemma_iterate_len(t, rule, c, (n - 1) as nat);
        assert forall|i: int| 0 <= i < x.len() implies triggered(t, rule, x, i) == triggered(
            u,
            rule,
            x,
            i,
        ) by {
            assert(deps(t, i) == deps(u, i));
            assert forall|k: int| 0 <= k < deps(t, i).len() implies find(t, deps(t, i)[k]) == find(
                u,
                deps(u, i)[k],
            ) && (find(t, deps(t, i)[k]) >= 0 ==> t[find(t, deps(t, i)[k])].1.symbolic == u[find(
                u,
                deps(u, i)[k],
            )].1.symbolic) && flag_of(t, x, deps(t, i)[k]) == flag_of(u, x, deps(u, i)[k]) by {
                lemma_find_same_names(t, u, deps(t, i)[k], 0);
                lemma_find(t, deps(t, i)[k]);
            }
            match rule {
                Rule::Resolve => {},
                Rule::Anchor => {
                    if triggered(t, rule, x, i) {
                        let k = choose|k: int|
                            0 <= k < deps(t, i).len() && find(t, #[trigger] deps(t, i)[k]) >= 0 && (
                            !t[find(t, deps(t, i)[k])].1.symbolic || x[find(t, deps(t, i)[k])]);
                        assert(find(u, deps(u, i)[k]) >= 0);
                    }
                    if triggered(u, rule, x, i) {
                        let k = choose|k: int|
                            0 <= k < deps(u, i).len() && find(u, #[trigger] deps(u, i)[k]) >= 0 && (
                            !u[find(u, deps(u, i)[k])].1.symbolic || x[find(u, deps(u, i)[k])]);
                        assert(find(t, deps(t, i)[k]) >= 0);
                    }
                },
            }
        }
        assert(propagate(t, rule, x) =~= propagate(u, rule, x));
    }
}

/// Running symbolic resolution twice gives the same tasks as running it once.
pub proof fn lemma_resolve_idempotent(t: Entries)
    ensures
        resolved(resolved(t)) == resolved(t),
{
    let c = closure(t, Rule::Resolve, complete_flags(t));
    let r = resolved(t);
    lemma_iterate_len(t, Rule::Resolve, complete_flags(t), t.len());
    lemma_closure_is_fixpoint(t, Rule::Resolve, complete_flags(t));
    assert(complete_flags(r) =~= c);
    lemma_iterate_same_shape(r, t, Rule::Resolve, c, 0);
    lemma_iterate_same_shape(r, t, Rule::Resolve, c, 1);
    lemma_iterate_stable(r, Rule::Resolve, c, 0, r.len());
    assert(closure(r, Rule::Resolve, complete_flags(r)) == c);
    assert(resolved(r) =~= r);
}

/// What inserting a task does to lookups: the inserted name finds the new task,
/// every other name finds what it found before, and names stay unique.
pub proof fn lemma_insert_entry(t: Entries, n: Seq<char>, v: TaskView)
    ensures
        find(insert_entry(t, n, v), n) >= 0,
        insert_entry(t, n, v)[find(insert_entry(t, n, v), n)] == (n, v),
        forall|x: Seq<char>|
            x != n ==> #[trigger] find(insert_entry(t, n, v), x) == find(t, x) && (find(t, x) >= 0
                ==> insert_entry(t, n, v)[find(t, x)] == t[find(t, x)]),
        unique_names(t) ==> unique_names(insert_entry(t, n, v)),
{
    let ins = insert_entry(t, n, v);
    lemma_find(t, n);
    lemma_find(ins, n);
    let j = find(t, n);
    if j >= 0 {
        assert forall|q: int| 0 <= q < t.len() implies t[q].0 == ins[q].0 by {}
        assert forall|x: Seq<char>| x != n implies #[trigger] find(ins, x) == find(t, x) && (find(
            t,
            x,
        ) >= 0 ==> ins[find(t, x)] == t[find(t, x)]) by {
            lemma_find_same_names(t, ins, x, 0);
            lemma_find(t, x);
        }
    } else {
        assert(ins[t.len() as int].0 == n);
        assert forall|x: Seq<char>| x != n implies #[trigger] find(ins, x) == find(t, x) && (find(
            t,
            x,
        ) >= 0 ==> ins[find(t, x)] == t[find(t, x)]) by {
            lemma_find(t, x);
            lemma_find(ins, x);
            if find(t, x) >= 0 {
                assert(ins[find(t, x)].0 == x);
            }
            if find(ins, x) >= 0 {
                assert(find(ins, x) < t.len());
                assert(t[find(ins, x)].0 == x);
            }
        }
    }
}

/// Merging keeps, for every name of the right-hand tree, exactly its task
/// there: a task of the right-hand side replaces one of the same name whole.
pub proof fn lemma_merge_right_wins(l: Entries, r: Entries)
    requires
        unique_names(r),
    ensures
        forall|k: int|
            0 <= k < r.len() ==> find(merged(l, r), #[trigger] r[k].0) >= 0 && merged(l, r)[find(
                merged(l, r),
                r[k].0,
            )] == r[k],
        unique_names(l) ==> unique_names(merged(l, r)),
{
    lemma_merge_prefix(l, r, r.len());
}

proof fn lemma_merge_prefix(l: Entries, r: Entries, m: nat)
    requires
        unique_names(r),
        m <= r.len(),
    ensures
        forall|k: int|
            0 <= k < m ==> find(merge_prefix(l, r, m), #[trigger] r[k].0) >= 0 && merge_prefix(
                l,
                r,
                m,
            )[find(merge_prefix(l, r, m), r[k].0)] == r[k],
        unique_names(l) ==> unique_names(merge_prefix(l, r, m)),
    decreases m,
{
    if m > 0 {
        let prev = merge_prefix(l, r, (m - 1) as nat);
        lemma_merge_prefix(l, r, (m - 1) as nat);
        lemma_insert_entry(prev, r[m - 1].0, r[m - 1].1);
        assert forall|k: int| 0 <= k < m implies find(merge_prefix(l, r, m), #[trigger] r[k].0)
            >= 0 && merge_prefix(l, r, m)[find(merge_prefix(l, r, m), r[k].0)] == r[k] by {
            if k < m - 1 {
                assert(r[k].0 != r[m - 1].0);
            }
        }
    }
}

/// Merging `{a: x}` with `{a: y}` gives the single task `{a: y}`.
pub proof fn lemma_merge_single(a: Seq<char>, x: TaskView, y: TaskView)
    ensures
        merged(seq![(a, x)], seq![(a, y)]) == seq![(a, y)],
{
    let l = seq![(a, x)];
    assert(find_from(l, a, 0) == 0);
    assert(merge_prefix(l, seq![(a, y)], 0) == l);
    assert(merged(l, seq![(a, y)]) =~= seq![(a, y)]);
}

proof fn lemma_pending_deps_zero(t: Entries, i: int, k: nat, fuel: nat)
    requires
        0 <= i < t.len(),
        k <= deps(t, i).len(),
        forall|q: int|
            0 <= q < deps(t, i).len() ==> find(t, #[trigger] deps(t, i)[q]) < 0 || t[find(
                t,
                deps(t, i)[q],
            )].1.complete,
    ensures
        pending_deps(t, i, k, fuel) == 0,
    decreases k,
{
    if k > 0 {
        lemma_pending_deps_zero(t, i, (k - 1) as nat, fuel);
        let d = deps(t, i)[k - 1];
        lemma_find(t, d);
        assert(find(t, d) < 0 || t[find(t, d)].1.complete);
        assert(pending(t, find(t, d), fuel) == 0);
    }
}

/// The schedule check at its boundary: a task due exactly now with no estimate
/// and no incomplete dependency passes; an incomplete task due one second ago
/// is due in the past; a task whose own and pending dependency time exceeds
/// the time left before its due date has not enough time.
pub proof fn lemma_feasibility_boundary(t: Entries, i: int, now: i64)
    requires
        0 <= i < t.len(),
    ensures
        t[i].1.due == Some(now) && est(t, i) == 0 && (forall|q: int|
            0 <= q < deps(t, i).len() ==> find(t, #[trigger] deps(t, i)[q]) < 0 || t[find(
                t,
                deps(t, i)[q],
            )].1.complete) ==> timing_of(t, i, now) == Seq::<Finding>::empty(),
        now > i64::MIN && t[i].1.due == Some((now - 1) as i64) && !t[i].1.complete ==> timing_of(
            t,
            i,
            now,
        ) == seq![Finding::Impossible(t[i].0, ImpossibleTaskReason::DueInPast)],
        forall|due: i64|
            t[i].1.due == Some(due) && (due >= now || t[i].1.complete) && completion_time(t, i)
                > due - now ==> #[trigger] timing_of(t, i, now) == seq![
                Finding::Impossible(t[i].0, ImpossibleTaskReason::NotEnoughTime),
            ],
{
    if t[i].1.due == Some(now) && est(t, i) == 0 && (forall|q: int|
        0 <= q < deps(t, i).len() ==> find(t, #[trigger] deps(t, i)[q]) < 0 || t[find(
            t,
            deps(t, i)[q],
        )].1.complete) {
        lemma_pending_deps_zero(t, i, deps(t, i).len(), t.len());
    }
}

proof fn lemma_anchor_sound(t: Entries, k: nat)
    ensures
        forall|i: int|
            0 <= i < t.len() && #[trigger] iterate(t, Rule::Anchor, all_false(t.len()), k)[i]
                ==> triggered(t, Rule::Anchor, iterate(t, Rule::Anchor, all_false(t.len()), k), i),
    decreases k,
{
    let f = all_false(t.len());
    if k > 0 {
        lemma_anchor_sound(t, (k - 1) as nat);
        let c = iterate(t, Rule::Anchor, f, (k - 1) as nat);
        let d = iterate(t, Rule::Anchor, f, k);
        lemma_iterate_len(t, Rule::Anchor, f, (k - 1) as nat);
        lemma_iterate_inflates(t, Rule::Anchor, f, (k - 1) as nat, k);
        assert forall|i: int| 0 <= i < t.len() && #[trigger] d[i] implies triggered(
            t,
            Rule::Anchor,
            d,
            i,
        ) by {
            assert(triggered(t, Rule::Anchor, c, i));
            let w = choose|w: int|
                0 <= w < deps(t, i).len() && find(t, #[trigger] deps(t, i)[w]) >= 0 && (!t[find(
                    t,
                    deps(t, i)[w],
                )].1.symbolic || c[find(t, deps(t, i)[w])]);
            lemma_find(t, deps(t, i)[w]);
            assert(find(t, deps(t, i)[w]) >= 0 && (!t[find(t, deps(t, i)[w])].1.symbolic || d[find(
                t,
                deps(t, i)[w],
            )]));
        }
    }
}

proof fn lemma_floating_upto(t: Entries, a: Seq<bool>, m: nat)
    requires
        m <= t.len(),
    ensures
        forall|q: int|
            0 <= q < m && t[q].1.symbolic && deps(t, q).len() > 0 && !a[q] ==> floating_upto(
                t,
                a,
                m,
            ).contains(Finding::Floating(#[trigger] t[q].0)),
        forall|x: Seq<char>|
            #[trigger] floating_upto(t, a, m).contains(Finding::Floating(x)) ==> exists|q: int|
                0 <= q < m && t[q].0 == x && !a[q],
    decreases m,
{
    if m > 0 {
        lemma_floating_upto(t, a, (m - 1) as nat);
        let prev = floating_upto(t, a, (m - 1) as nat);
        let cur = floating_upto(t, a, m);
        let i = m - 1;
        assert forall|q: int|
            0 <= q < m && t[q].1.symbolic && deps(t, q).len() > 0 && !a[q] implies cur.contains(
            Finding::Floating(#[trigger] t[q].0),
        ) by {
            if q < i {
                let z = choose|z: int| 0 <= z < prev.len() && prev[z] == Finding::Floating(t[q].0);
                assert(cur[z] == prev[z]);
            } else {
                assert(cur[prev.len() as int] == Finding::Floating(t[q].0));
            }
        }
        assert forall|x: Seq<char>| #[trigger] cur.contains(Finding::Floating(x)) implies exists|
            q: int,
        | 0 <= q < m && t[q].0 == x && !a[q] by {
            let z = choose|z: int| 0 <= z < cur.len() && cur[z] == Finding::Floating(x);
            if z < prev.len() {
                assert(prev[z] == cur[z]);
                assert(prev.contains(Finding::Floating(x)));
            } else {
                assert(t[i].0 == x && !a[i]);
            }
        }
    }
}

/// A symbolic task whose only dependency is an existing task that is not
/// symbolic is never reported floating; one whose only dependency is an
/// existing symbolic task that is not anchored is reported floating.
pub proof fn lemma_anchoring(t: Entries, i: int)
    requires
        0 <= i < t.len(),
        t[i].1.symbolic,
        deps(t, i).len() == 1,
        find(t, deps(t, i)[0]) >= 0,
    ensures
        unique_names(t) && !t[find(t, deps(t, i)[0])].1.symbolic ==> !floating_findings(
            t,
        ).contains(Finding::Floating(t[i].0)),
        t[find(t, deps(t, i)[0])].1.symbolic && !anchored(t)[find(t, deps(t, i)[0])]
            ==> floating_findings(t).contains(Finding::Floating(t[i].0)),
{
    let f = all_false(t.len());
    let a = anchored(t);
    let j = find(t, deps(t, i)[0]);
    lemma_find(t, deps(t, i)[0]);
    lemma_iterate_len(t, Rule::Anchor, f, t.len());
    lemma_floating_upto(t, a, t.len());
    if !t[j].1.symbolic {
        lemma_iterate_len(t, Rule::Anchor, f, 0);
        assert(triggered(t, Rule::Anchor, f, i));
        assert(iterate(t, Rule::Anchor, f, 1)[i]);
        lemma_iterate_inflates(t, Rule::Anchor, f, 1, t.len());
        assert(a[i]);
        if unique_names(t) && floating_findings(t).contains(Finding::Floating(t[i].0)) {
            let q = choose|q: int| 0 <= q < t.len() && t[q].0 == t[i].0 && !a[q];
            assert(q == i);
        }
    }
    if t[j].1.symbolic && !a[j] {
        lemma_anchor_sound(t, t.len());
        if a[i] {
            assert(triggered(t, Rule::Anchor, a, i));
            let w = choose|w: int|
                0 <= w < deps(t, i).len() && find(t, #[trigger] deps(t, i)[w]) >= 0 && (!t[find(
                    t,
                    deps(t, i)[w],
                )].1.symbolic || a[find(t, deps(t, i)[w])]);
            assert(w == 0);
        }
    }
}

/// Task `a` lists a dependency that names task `b`.
pub open spec fn dep_edge(t: Entries, a: int, b: int) -> bool {
    0 <= a < t.len() && exists|k: int| 0 <= k < deps(t, a).len() && find(t, #[trigger] deps(t, a)[k]) == b
}

/// Each task of `p` depends on the next.
pub open spec fn is_chain(t: Entries, p: Seq<int>) -> bool {
    forall|m: int| 0 <= m < p.len() - 1 ==> #[trigger] dep_edge(t, p[m], p[m + 1])
}

/// Some tasks depend on each other in a circle.
pub open spec fn has_cycle(t: Entries) -> bool {
    exists|p: Seq<int>| p.len() > 0 && #[trigger] is_chain(t, p) && dep_edge(t, p.last(), p[0])
}

proof fn lemma_walk_sound(t: Entries, i: int, path: Seq<int>)
    requires
        0 <= i < t.len(),
        is_chain(t, path.push(i)),
    ensures
        walk(t, i, path).len() > 0 ==> has_cycle(t),
    decreases t.len() - path.len(), 1int, 0int,
{
    if path.len() < t.len() {
        let p = path.push(i);
        let k = first_on_path(t, i, p, 0);
        if k >= 0 {
            lemma_first_on_path(t, i, p, 0);
            let b = find(t, deps(t, i)[k]);
            let m = choose|m: int| 0 <= m < p.len() && p[m] == b;
            let c = p.subrange(m, p.len() as int);
            assert forall|z: int| 0 <= z < c.len() - 1 implies #[trigger] dep_edge(t, c[z], c[z + 1]) by {
                assert(c[z] == p[m + z] && c[z + 1] == p[m + z + 1]);
            }
            assert(c.last() == i);
            assert(dep_edge(t, c.last(), c[0]));
            assert(is_chain(t, c));
        } else {
            lemma_walk_deps_sound(t, i, p, 0);
        }
    }
}

proof fn lemma_walk_deps_sound(t: Entries, i: int, p: Seq<int>, k: int)
    requires
        0 <= i < t.len(),
        p.len() > 0,
        p.last() == i,
        is_chain(t, p),
    ensures
        walk_deps(t, i, p, k).len() > 0 ==> has_cycle(t),
    decreases t.len() - p.len() + 1, 0int, deps(t, i).len() - k,
{
    if !(p.len() > t.len() || k < 0 || k >= deps(t, i).len()) {
        let j = find(t, deps(t, i)[k]);
        lemma_find(t, deps(t, i)[k]);
        lemma_walk_deps_sound(t, i, p, k + 1);
        if j >= 0 {
            let q = p.push(j);
            assert(dep_edge(t, i, j));
            assert forall|z: int| 0 <= z < q.len() - 1 implies #[trigger] dep_edge(t, q[z], q[z + 1]) by {
                if z < p.len() - 1 {
                    assert(q[z] == p[z] && q[z + 1] == p[z + 1]);
                }
            }
            lemma_walk_sound(t, j, p);
        }
    }
}

proof fn lemma_all_walks_sound(t: Entries, m: nat)
    requires
        m <= t.len(),
    ensures
        all_walks(t, m).len() > 0 ==> has_cycle(t),
    decreases m,
{
    if m > 0 {
        lemma_all_walks_sound(t, (m - 1) as nat);
        let e = Seq::<int>::empty();
        assert(e.push(m - 1).len() == 1);
        assert(is_chain(t, e.push(m - 1)));
        lemma_walk_sound(t, m - 1, e);
    }
}

proof fn lemma_walk_deps_nonempty(t: Entries, i: int, p: Seq<int>, k0: int, k: int)
    requires
        0 <= k0 <= k < deps(t, i).len(),
        p.len() <= t.len(),
        find(t, deps(t, i)[k]) >= 0,
        walk(t, find(t, deps(t, i)[k]), p).len() > 0,
    ensures
        walk_deps(t, i, p, k0).len() > 0,
    decreases k - k0,
{
    if k0 < k {
        lemma_walk_deps_nonempty(t, i, p, k0 + 1, k);
    }
}

proof fn lemma_all_walks_nonempty(t: Entries, m: nat, s: int)
    requires
        0 <= s < m,
        walk(t, s, Seq::empty()).len() > 0,
    ensures
        all_walks(t, m).len() > 0,
    decreases m,
{
    if s < m - 1 {
        lemma_all_walks_nonempty(t, (m - 1) as nat, s);
    }
}

/// Cycle detection reports nothing on tasks whose dependencies form no cycle,
/// and reports at least one witness when two tasks depend on each other.
pub proof fn lemma_cycle_detection(t: Entries)
    ensures
        !has_cycle(t) ==> cyclic_findings(t).len() == 0,
        forall|a: int, b: int|
            0 <= a < t.len() && 0 <= b < t.len() && a != b && #[trigger] dep_edge(t, a, b)
                && #[trigger] dep_edge(t, b, a) ==> cyclic_findings(t).len() > 0,
{
    lemma_dedup_sub(all_walks(t, t.len()));
    lemma_all_walks_sound(t, t.len());
    assert forall|a: int, b: int|
        0 <= a < t.len() && 0 <= b < t.len() && a != b && #[trigger] dep_edge(t, a, b)
            && #[trigger] dep_edge(t, b, a) implies cyclic_findings(t).len() > 0 by {
        let e = Seq::<int>::empty();
        let pa = e.push(a);
        if first_on_path(t, a, pa, 0) < 0 {
            let k = choose|k: int| 0 <= k < deps(t, a).len() && find(t, #[trigger] deps(t, a)[k]) == b;
            let pb = pa.push(b);
            let kb = choose|k: int| 0 <= k < deps(t, b).len() && find(t, #[trigger] deps(t, b)[k]) == a;
            lemma_first_on_path(t, b, pb, 0);
            assert(pb[0] == a);
            assert(pb.contains(a));
            assert(first_on_path(t, b, pb, 0) >= 0);
            assert(walk(t, b, pa).len() > 0);
            lemma_walk_deps_nonempty(t, a, pa, 0, k);
        }
        assert(walk(t, a, e).len() > 0);
        lemma_all_walks_nonempty(t, t.len(), a);
    }
}

/// How many times `f` occurs in `s`.
pub open spec fn occurrences(s: Seq<Finding>, f: Finding) -> nat
    decreases s.len(),
{
    if s.len() == 0 {
        0
    } else {
        occurrences(s.drop_last(), f) + if s.last() == f {
            1nat
        } else {
            0nat
        }
    }
}

proof fn lemma_occurrences_concat(a: Seq<Finding>, b: Seq<Finding>, f: Finding)
    ensures
        occurrences(a + b, f) == occurrences(a, f) + occurrences(b, f),
    decreases b.len(),
{
    if b.len() == 0 {
        assert(a + b =~= a);
    } else {
        lemma_occurrences_concat(a, b.drop_last(), f);
        assert((a + b).drop_last() =~= a + b.drop_last());
        assert((a + b).last() == b.last());
    }
}

proof fn lemma_missing_of_occurrences(t: Entries, i: int, k: nat, name: Seq<char>, d: Seq<char>)
    requires
        0 <= i < t.len(),
        k <= deps(t, i).len(),
        find(t, d) < 0,
    ensures
        occurrences(missing_of(t, i, k), Finding::Missing(name, d)) == if t[i].0 == name
            && deps(t, i).take(k as int).contains(d) {
            1nat
        } else {
            0nat
        },
    decreases k,
{
    let f = Finding::Missing(name, d);
    if k == 0 {
        assert(!deps(t, i).take(0).contains(d));
    } else {
        let dk = deps(t, i)[k - 1];
        lemma_missing_of_occurrences(t, i, (k - 1) as nat, name, d);
        let piece = if find(t, dk) < 0 && !deps(t, i).take(k - 1).contains(dk) {
            seq![Finding::Missing(t[i].0, dk)]
        } else {
            Seq::<Finding>::empty()
        };
        lemma_occurrences_concat(missing_of(t, i, (k - 1) as nat), piece, f);
        assert(deps(t, i).take(k as int) =~= deps(t, i).take(k - 1).push(dk));
        assert(missing_of(t, i, k) == missing_of(t, i, (k - 1) as nat) + piece);
        if piece.len() == 1 {
            assert(piece.drop_last() =~= Seq::<Finding>::empty());
            assert(occurrences(piece.drop_last(), f) == 0);
            assert(piece.last() == Finding::Missing(t[i].0, dk));
        } else {
            assert(occurrences(piece, f) == 0);
        }
        assert(occurrences(piece, f) == if piece.len() == 1 && t[i].0 == name && dk == d {
            1nat
        } else {
            0nat
        });
        if deps(t, i).take(k - 1).contains(d) {
            let z = choose|z: int| 0 <= z < k - 1 && #[trigger] deps(t, i).take(k - 1)[z] == d;
            assert(deps(t, i).take(k as int)[z] == d);
        }
        if deps(t, i).take(k as int).contains(d) && dk != d {
            let z = choose|z: int| 0 <= z < k && #[trigger] deps(t, i).take(k as int)[z] == d;
            assert(deps(t, i).take(k - 1)[z] == d);
        }
        if dk == d {
            assert(deps(t, i).take(k as int)[k - 1] == d);
        }
    }
}

proof fn lemma_missing_upto_occurrences(t: Entries, m: nat, i: int, d: Seq<char>)
    requires
        unique_names(t),
        0 <= i < t.len(),
        m <= t.len(),
        find(t, d) < 0,
    ensures
        occurrences(missing_upto(t, m), Finding::Missing(t[i].0, d)) == if i < m && deps(
            t,
            i,
        ).contains(d) {
            1nat
        } else {
            0nat
        },
    decreases m,
{
    if m > 0 {
        let q = m - 1;
        lemma_missing_upto_occurrences(t, (m - 1) as nat, i, d);
        lemma_occurrences_concat(
            missing_upto(t, (m - 1) as nat),
            missing_of(t, q, deps(t, q).len()),
            Finding::Missing(t[i].0, d),
        );
        lemma_missing_of_occurrences(t, q, deps(t, q).len(), t[i].0, d);
        assert(deps(t, q).take(deps(t, q).len() as int) =~= deps(t, q));
    }
}

/// A dependency name that no task has yields exactly one missing-dependency
/// finding for each task that lists it, however often it is listed.
pub proof fn lemma_missing_exactly_once(t: Entries, i: int, d: Seq<char>)
    requires
        unique_names(t),
        0 <= i < t.len(),
        deps(t, i).contains(d),
        find(t, d) < 0,
    ensures
        occurrences(missing_findings(t), Finding::Missing(t[i].0, d)) == 1,
{
    lemma_missing_upto_occurrences(t, t.len(), i, d);
}

} // verus!
