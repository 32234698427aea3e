//! Recursive component-dependency resolution: a depth-first walk whose
//! post-order gives a dependencies-first install order; the stack of
//! components being visited detects cycles, and the error names the cycle.
use vstd::prelude::*;

use crate::project::manifest::{contains_key, is_installed, InstalledComponent};
use crate::registry::{Component, ComponentId, Registry, RegistryError, is_component_path};
use crate::text::{str_eq, views};

verus! {

/// One component to install, in dependency order.
pub struct ResolvedInstall<'a> {
    pub id: ComponentId,
    pub component: &'a Component,
    /// Requested explicitly (vs pulled in as a dependency).
    pub requested: bool,
}

/// `p` is a path whose component is usable: indexed, parsed, and declaring
/// that very path.
pub open spec fn usable_path(reg: &Registry, p: Seq<char>) -> bool {
    exists|id: ComponentId| id.path() == p && #[trigger] reg.is_usable(id)
}

/// `s` holds no path twice.
pub open spec fn distinct(s: Seq<Seq<char>>) -> bool {
    forall|i: int, j: int| 0 <= i < s.len() && 0 <= j < s.len() && i != j ==> s[i] != s[j]
}

/// Each path of `c` after the first is a dependency of the one before it.
pub open spec fn is_dependency_chain(reg: &Registry, c: Seq<Seq<char>>) -> bool {
    forall|i: int| 0 <= i < c.len() - 1 ==> reg.deps(#[trigger] c[i]).contains(c[i + 1])
}

/// `c` is a dependency cycle: a chain of usable components that ends where
/// it starts.
pub open spec fn is_dependency_cycle(reg: &Registry, c: Seq<Seq<char>>) -> bool {
    &&& c.len() >= 2
    &&& c[0] == c[c.len() - 1]
    &&& forall|i: int| 0 <= i < c.len() - 1 ==> usable_path(reg, #[trigger] c[i])
    &&& is_dependency_chain(reg, c)
}

/// The paths of the installs, in order.
pub open spec fn order_paths(order: Seq<ResolvedInstall>) -> Seq<Seq<char>> {
    order.map_values(|r: ResolvedInstall| r.id.path())
}

/// The paths of the ids, in order.
pub open spec fn id_paths(ids: Seq<ComponentId>) -> Seq<Seq<char>> {
    ids.map_values(|id: ComponentId| id.path())
}

/// What a resolved install order guarantees:
/// every entry is a usable component carrying the registry's own record,
/// none is already installed, none appears twice, and every dependency of an
/// entry is installed or comes earlier in the order.
pub open spec fn is_install_order(
    reg: &Registry,
    installed: Seq<(String, InstalledComponent)>,
    order: Seq<ResolvedInstall>,
) -> bool {
    &&& forall|k: int| 0 <= k < order.len() ==> {
            &&& reg.is_usable((#[trigger] order[k]).id)
            &&& *order[k].component == reg.spec_component(order[k].id.path())
            &&& !is_installed(installed, order[k].id.path())
        }
    &&& distinct(order_paths(order))
    &&& forall|k: int, e: int| 0 <= k < order.len() && 0 <= e < reg.deps(order[k].id.path()).len() ==> {
            let d = #[trigger] reg.deps(order[k].id.path())[e];
            is_installed(installed, d) || exists|m: int| 0 <= m < k && order_paths(order)[m] == d
        }
}

/// `c` is a walk of the dependency graph from one of `roots`: each path
/// after the first is a dependency of the one before it, and every path but
/// the last is a usable component.
pub open spec fn is_walk_from(reg: &Registry, roots: Seq<Seq<char>>, c: Seq<Seq<char>>) -> bool {
    &&& c.len() >= 1
    &&& roots.contains(c[0])
    &&& is_dependency_chain(reg, c)
    &&& forall|i: int| 0 <= i < c.len() - 1 ==> usable_path(reg, #[trigger] c[i])
}

/// `p` is one of `roots` or, through usable components, one of their
/// transitive dependencies.
pub open spec fn reaches(reg: &Registry, roots: Seq<Seq<char>>, p: Seq<char>) -> bool {
    exists|c: Seq<Seq<char>>| #[trigger] is_walk_from(reg, roots, c) && c.last() == p
}

/// What a failed resolution carries: a genuine defect of the registry,
/// met on the way from `roots`: a dependency cycle (the ids along it, each
/// once, the first repeated at the end), a dependency that is
/// not a component path, or a component that is not in the index, could
/// not be read, or declares another path than its own.
pub open spec fn is_resolution_defect(reg: &Registry, roots: Seq<Seq<char>>, e: RegistryError) -> bool {
    match e {
        RegistryError::Cycle(c) => is_dependency_cycle(reg, views(c@)) && reaches(reg, roots, views(c@)[0])
            && distinct(views(c@).drop_last()),
        RegistryError::InvalidDependency { component, dependency } => {
            &&& usable_path(reg, component@)
            &&& reg.deps(component@).contains(dependency@)
            &&& !is_component_path(dependency@)
            &&& reaches(reg, roots, component@)
        },
        RegistryError::UnknownComponent(m) => exists|id: ComponentId|
            #[trigger] reaches(reg, roots, id.path()) && !reg.is_indexed(id.path()) && m@ == reg.unknown_message(id),
        RegistryError::Load(_) => exists|id: ComponentId|
            #[trigger] reaches(reg, roots, id.path()) && reg.is_indexed(id.path()) && !reg.is_loaded(id),
        RegistryError::Inconsistent(_) => exists|id: ComponentId|
            #[trigger] reaches(reg, roots, id.path()) && reg.is_indexed(id.path()) && reg.is_loaded(id)
                && !reg.is_usable(id),
    }
}

/// A walk to a usable component extends to any of its dependencies.
proof fn lemma_walk_extends(reg: &Registry, roots: Seq<Seq<char>>, p: Seq<char>, q: Seq<char>)
    requires
        reaches(reg, roots, p),
        usable_path(reg, p),
        reg.deps(p).contains(q),
    ensures
        reaches(reg, roots, q),
{
    let c = choose|c: Seq<Seq<char>>| #[trigger] is_walk_from(reg, roots, c) && c.last() == p;
    let d = c.push(q);
    assert(d[0] == c[0]);
    assert forall|i: int| 0 <= i < d.len() - 1 implies reg.deps(#[trigger] d[i]).contains(d[i + 1]) by {
        assert(d[i] == c[i]);
        if i < c.len() - 1 {
            assert(d[i + 1] == c[i + 1]);
        }
    }
    assert forall|i: int| 0 <= i < d.len() - 1 implies usable_path(reg, #[trigger] d[i]) by {
        assert(d[i] == c[i]);
    }
    assert(is_walk_from(reg, roots, d));
}

/// Every component on a stack that starts at a root is reached.
proof fn lemma_stack_reached(reg: &Registry, roots: Seq<Seq<char>>, st: Seq<Seq<char>>, pos: int)
    requires
        0 <= pos < st.len(),
        roots.contains(st[0]),
        is_dependency_chain(reg, st),
        forall|i: int| 0 <= i < st.len() ==> usable_path(reg, #[trigger] st[i]),
    ensures
        reaches(reg, roots, st[pos]),
{
    let c = st.take(pos + 1);
    assert(c[0] == st[0]);
    assert forall|i: int| 0 <= i < c.len() - 1 implies reg.deps(#[trigger] c[i]).contains(c[i + 1]) by {
        assert(c[i] == st[i]);
        assert(c[i + 1] == st[i + 1]);
    }
    assert forall|i: int| 0 <= i < c.len() - 1 implies usable_path(reg, #[trigger] c[i]) by {
        assert(c[i] == st[i]);
    }
    assert(c.last() == st[pos]);
    assert(is_walk_from(reg, roots, c));
}

/// A root is reached.
proof fn lemma_root_reached(reg: &Registry, roots: Seq<Seq<char>>, p: Seq<char>)
    requires
        roots.contains(p),
    ensures
        reaches(reg, roots, p),
{
    let c = seq![p];
    assert(c[0] == p);
    assert(is_walk_from(reg, roots, c));
}

/// Every path on a walk from the roots is done, when every root is done and
/// the done paths are closed under dependencies.
proof fn lemma_walk_done(reg: &Registry, roots: Seq<Seq<char>>, done: Seq<Seq<char>>, c: Seq<Seq<char>>, i: int)
    requires
        is_walk_from(reg, roots, c),
        0 <= i < c.len(),
        forall|q: Seq<char>| #[trigger] roots.contains(q) ==> done.contains(q),
        forall|j: int, e: int| 0 <= j < done.len() && 0 <= e < reg.deps(done[j]).len()
            ==> done.contains(#[trigger] reg.deps(done[j])[e]),
    ensures
        done.contains(c[i]),
    decreases i,
{
    if i > 0 {
        lemma_walk_done(reg, roots, done, c, i - 1);
        let j = choose|j: int| 0 <= j < done.len() && done[j] == c[i - 1];
        assert(reg.deps(c[i - 1]).contains(c[i]));
        let ds = reg.deps(c[i - 1]);
        let e = choose|e: int| 0 <= e < ds.len() && #[trigger] ds[e] == c[i];
        assert(done.contains(reg.deps(done[j])[e]));
    }
}

/// `p` is one of the first `n` roots and no root before it reaches it.
pub open spec fn first_visit_upto(reg: &Registry, roots: Seq<Seq<char>>, n: int, p: Seq<char>) -> bool {
    exists|q: int| 0 <= q < n && #[trigger] roots[q] == p && !reaches(reg, roots.take(q), p)
}

/// `p` is a root that no earlier root reaches: the components `resolve`
/// marks as requested.
pub open spec fn is_first_visit(reg: &Registry, roots: Seq<Seq<char>>, p: Seq<char>) -> bool {
    first_visit_upto(reg, roots, roots.len() as int, p)
}

/// A defect met on the way from some roots is met on the way from more.
proof fn lemma_defect_more_roots(reg: &Registry, r1: Seq<Seq<char>>, r2: Seq<Seq<char>>, e: RegistryError)
    requires
        is_resolution_defect(reg, r1, e),
        forall|x: Seq<char>| #[trigger] r1.contains(x) ==> r2.contains(x),
    ensures
        is_resolution_defect(reg, r2, e),
{
    match e {
        RegistryError::Cycle(c) => {
            lemma_reaches_more_roots(reg, r1, r2, views(c@)[0]);
        },
        RegistryError::InvalidDependency { component, dependency } => {
            lemma_reaches_more_roots(reg, r1, r2, component@);
        },
        RegistryError::UnknownComponent(m) => {
            let id = choose|id: ComponentId| #[trigger] reaches(reg, r1, id.path()) && !reg.is_indexed(id.path())
                && m@ == reg.unknown_message(id);
            lemma_reaches_more_roots(reg, r1, r2, id.path());
        },
        RegistryError::Load(_) => {
            let id = choose|id: ComponentId| #[trigger] reaches(reg, r1, id.path()) && reg.is_indexed(id.path())
                && !reg.is_loaded(id);
            lemma_reaches_more_roots(reg, r1, r2, id.path());
        },
        RegistryError::Inconsistent(_) => {
            let id = choose|id: ComponentId| #[trigger] reaches(reg, r1, id.path()) && reg.is_indexed(id.path())
                && reg.is_loaded(id) && !reg.is_usable(id);
            lemma_reaches_more_roots(reg, r1, r2, id.path());
        },
    }
}

/// `new` is `old` with entries appended.
#[verifier::opaque]
pub open spec fn extends(old: Seq<ResolvedInstall>, new: Seq<ResolvedInstall>) -> bool {
    new.len() >= old.len() && new.take(old.len() as int) == old
}

/// Of the entries of `order` from `from` on, only those for `p` can be
/// marked requested, and only when `requested` is set.
#[verifier::opaque]
pub open spec fn marks_only(from: int, order: Seq<ResolvedInstall>, requested: bool, p: Seq<char>) -> bool {
    forall|k: int| from <= k < order.len() && (#[trigger] order[k]).requested ==> requested && order[k].id.path() == p
}

/// Appending twice is appending.
proof fn lemma_extends_trans(a: Seq<ResolvedInstall>, b: Seq<ResolvedInstall>, c: Seq<ResolvedInstall>)
    requires
        extends(a, b),
        extends(b, c),
    ensures
        extends(a, c),
{
    reveal(extends);
    assert(c.take(b.len() as int).take(a.len() as int) =~= c.take(a.len() as int));
}

/// Entries appended by a call that marks nothing keep an order that marks
/// nothing from `from` on.
proof fn lemma_marks_nothing_trans(from: int, b: Seq<ResolvedInstall>, c: Seq<ResolvedInstall>, q: Seq<char>, q2: Seq<char>)
    requires
        0 <= from <= b.len(),
        extends(b, c),
        marks_only(from, b, false, q),
        marks_only(b.len() as int, c, false, q2),
    ensures
        marks_only(from, c, false, q),
        c.len() >= b.len(),
{
    reveal(extends);
    reveal(marks_only);
    assert forall|k: int| from <= k < c.len() && (#[trigger] c[k]).requested implies false && c[k].id.path() == q by {
        if k < b.len() {
            assert(c.take(b.len() as int)[k] == c[k]);
        }
    }
}

/// More roots reach at least as much.
proof fn lemma_reaches_more_roots(reg: &Registry, r1: Seq<Seq<char>>, r2: Seq<Seq<char>>, p: Seq<char>)
    requires
        reaches(reg, r1, p),
        forall|x: Seq<char>| #[trigger] r1.contains(x) ==> r2.contains(x),
    ensures
        reaches(reg, r2, p),
{
    let c = choose|c: Seq<Seq<char>>| #[trigger] is_walk_from(reg, r1, c) && c.last() == p;
    assert(r1.contains(c[0]));
    assert(is_walk_from(reg, r2, c));
}

/// The walk's bookkeeping for some roots holds for more roots.
proof fn lemma_walk_more_roots(
    reg: &Registry,
    installed: Seq<(String, InstalledComponent)>,
    r1: Seq<Seq<char>>,
    r2: Seq<Seq<char>>,
    done: Seq<Seq<char>>,
    order: Seq<ResolvedInstall>,
)
    requires
        walk_invariant(reg, installed, r1, done, order),
        forall|x: Seq<char>| #[trigger] r1.contains(x) ==> r2.contains(x),
    ensures
        walk_invariant(reg, installed, r2, done, order),
{
    reveal(walk_invariant);
    assert forall|i: int| 0 <= i < done.len() implies reaches(reg, r2, #[trigger] done[i]) by {
        lemma_reaches_more_roots(reg, r1, r2, done[i]);
    }
}

/// `c` is the cycle met when `p` is reached again while on `stack`: the
/// stack from `p` on, then `p`.
#[verifier::opaque]
pub open spec fn is_stack_cycle(stack: Seq<Seq<char>>, p: Seq<char>, c: Seq<Seq<char>>) -> bool {
    exists|pos: int| 0 <= pos < stack.len() && #[trigger] stack[pos] == p
        && c == stack.subrange(pos, stack.len() as int).push(p)
}

/// Every requested entry of `order` is a first visit among the first `r`
/// roots.
#[verifier::opaque]
pub open spec fn requested_are_first_visits(reg: &Registry, roots: Seq<Seq<char>>, r: int, order: Seq<ResolvedInstall>) -> bool {
    forall|k: int| 0 <= k < order.len() && (#[trigger] order[k]).requested
        ==> first_visit_upto(reg, roots, r, order[k].id.path())
}

/// Every first visit among the first `r` roots that is not installed has a
/// requested entry in `order`.
#[verifier::opaque]
pub open spec fn first_visits_requested(
    reg: &Registry,
    installed: Seq<(String, InstalledComponent)>,
    roots: Seq<Seq<char>>,
    r: int,
    order: Seq<ResolvedInstall>,
) -> bool {
    forall|q: int| 0 <= q < r && !reaches(reg, roots.take(q), #[trigger] roots[q]) && !is_installed(installed, roots[q])
        ==> exists|k: int| 0 <= k < order.len() && (#[trigger] order[k]).id.path() == roots[q] && order[k].requested
}

/// Before root `r` is visited: the walk holds for one root more, the root
/// is reached, and it is done exactly when an earlier root reaches it.
proof fn lemma_before_root(
    reg: &Registry,
    installed: Seq<(String, InstalledComponent)>,
    roots: Seq<Seq<char>>,
    r: int,
    done: Seq<Seq<char>>,
    order: Seq<ResolvedInstall>,
)
    requires
        0 <= r < roots.len(),
        walk_invariant(reg, installed, roots.take(r), done, order),
        forall|q: int| 0 <= q < r ==> done.contains(#[trigger] roots[q]),
    ensures
        walk_invariant(reg, installed, roots.take(r + 1), done, order),
        reaches(reg, roots.take(r + 1), roots[r]),
        roots.take(r + 1).contains(roots[r]),
        done.contains(roots[r]) <==> reaches(reg, roots.take(r), roots[r]),
        forall|x: Seq<char>| #[trigger] roots.take(r + 1).contains(x) ==> roots.contains(x),
{
    reveal(walk_invariant);
    let pre = roots.take(r);
    let pre1 = roots.take(r + 1);
    let p = roots[r];
    assert forall|x: Seq<char>| #[trigger] pre.contains(x) implies pre1.contains(x) by {
        let q = choose|q: int| 0 <= q < pre.len() && pre[q] == x;
        assert(pre1[q] == x);
    }
    assert forall|x: Seq<char>| #[trigger] pre1.contains(x) implies roots.contains(x) by {
        let q = choose|q: int| 0 <= q < pre1.len() && pre1[q] == x;
        assert(roots[q] == x);
    }
    lemma_walk_more_roots(reg, installed, pre, pre1, done, order);
    assert(pre1[r] == p);
    lemma_root_reached(reg, pre1, p);
    assert forall|x: Seq<char>| #[trigger] pre.contains(x) implies done.contains(x) by {
        let q = choose|q: int| 0 <= q < pre.len() && pre[q] == x;
        assert(roots[q] == x);
    }
    if reaches(reg, pre, p) {
        let c = choose|c: Seq<Seq<char>>| #[trigger] is_walk_from(reg, pre, c) && c.last() == p;
        lemma_walk_done(reg, pre, done, c, c.len() - 1);
    }
    if done.contains(p) {
        let i = choose|i: int| 0 <= i < done.len() && done[i] == p;
        assert(reaches(reg, pre, done[i]));
    }
}

/// After root `r` was visited, the requested marks cover one root more.
proof fn lemma_after_root(
    reg: &Registry,
    installed: Seq<(String, InstalledComponent)>,
    roots: Seq<Seq<char>>,
    r: int,
    d0: Seq<Seq<char>>,
    o0: Seq<ResolvedInstall>,
    o1: Seq<ResolvedInstall>,
)
    requires
        0 <= r < roots.len(),
        requested_are_first_visits(reg, roots, r, o0),
        first_visits_requested(reg, installed, roots, r, o0),
        d0.contains(roots[r]) <==> reaches(reg, roots.take(r), roots[r]),
        extends(o0, o1),
        marks_only(o0.len() as int, o1, true, roots[r]),
        d0.contains(roots[r]) ==> o1 == o0,
        !d0.contains(roots[r]) && !is_installed(installed, roots[r]) ==>
            o1.len() > o0.len() && o1.last().id.path() == roots[r] && o1.last().requested,
    ensures
        requested_are_first_visits(reg, roots, r + 1, o1),
        first_visits_requested(reg, installed, roots, r + 1, o1),
{
    reveal(extends);
    reveal(marks_only);
    reveal(requested_are_first_visits);
    reveal(first_visits_requested);
    let p = roots[r];
    assert forall|k: int| 0 <= k < o1.len() && (#[trigger] o1[k]).requested
        implies first_visit_upto(reg, roots, r + 1, o1[k].id.path()) by {
        if k < o0.len() {
            assert(o1.take(o0.len() as int)[k] == o1[k]);
            assert(o0[k] == o1[k]);
            let q = choose|q: int| 0 <= q < r && #[trigger] roots[q] == o0[k].id.path()
                && !reaches(reg, roots.take(q), o0[k].id.path());
        } else {
            assert(o1[k].id.path() == p);
            assert(!d0.contains(p));
        }
    }
    assert forall|q: int| 0 <= q < r + 1 && !reaches(reg, roots.take(q), #[trigger] roots[q])
        && !is_installed(installed, roots[q])
        implies exists|k: int| 0 <= k < o1.len() && (#[trigger] o1[k]).id.path() == roots[q] && o1[k].requested by {
        if q < r {
            let k = choose|k: int| 0 <= k < o0.len() && (#[trigger] o0[k]).id.path() == roots[q] && o0[k].requested;
            assert(o1.take(o0.len() as int)[k] == o1[k]);
        } else {
            assert(o1[o1.len() - 1].id.path() == p);
        }
    }
}

/// In a finished order of distinct paths, an entry is requested exactly
/// when its path is a first visit.
proof fn lemma_requested_exactly(
    reg: &Registry,
    installed: Seq<(String, InstalledComponent)>,
    roots: Seq<Seq<char>>,
    order: Seq<ResolvedInstall>,
)
    requires
        requested_are_first_visits(reg, roots, roots.len() as int, order),
        first_visits_requested(reg, installed, roots, roots.len() as int, order),
        distinct(order_paths(order)),
        forall|k: int| 0 <= k < order.len() ==> !is_installed(installed, (#[trigger] order[k]).id.path()),
    ensures
        forall|k: int| 0 <= k < order.len() ==>
            ((#[trigger] order[k]).requested <==> is_first_visit(reg, roots, order[k].id.path())),
{
    reveal(requested_are_first_visits);
    reveal(first_visits_requested);
    let op = order_paths(order);
    assert forall|k: int| 0 <= k < order.len() implies
        ((#[trigger] order[k]).requested <==> is_first_visit(reg, roots, order[k].id.path())) by {
        if is_first_visit(reg, roots, order[k].id.path()) {
            let q = choose|q: int| 0 <= q < roots.len() && #[trigger] roots[q] == order[k].id.path()
                && !reaches(reg, roots.take(q), order[k].id.path());
            assert(!is_installed(installed, roots[q]));
            let k2 = choose|k2: int| 0 <= k2 < order.len() && (#[trigger] order[k2]).id.path() == roots[q] && order[k2].requested;
            assert(op[k2] == op[k]);
        }
    }
}

/// The walk's bookkeeping between calls.
#[verifier::opaque]
pub open spec fn walk_invariant(
    reg: &Registry,
    installed: Seq<(String, InstalledComponent)>,
    roots: Seq<Seq<char>>,
    done: Seq<Seq<char>>,
    order: Seq<ResolvedInstall>,
) -> bool {
    &&& is_install_order(reg, installed, order)
    &&& forall|i: int| 0 <= i < done.len() ==> usable_path(reg, #[trigger] done[i])
    &&& forall|i: int| 0 <= i < done.len() ==> reaches(reg, roots, #[trigger] done[i])
    &&& forall|i: int, e: int| 0 <= i < done.len() && 0 <= e < reg.deps(done[i]).len()
            ==> done.contains(#[trigger] reg.deps(done[i])[e])
    &&& forall|i: int| 0 <= i < done.len() ==>
            is_installed(installed, #[trigger] done[i]) || order_paths(order).contains(done[i])
    &&& forall|k: int| 0 <= k < order.len() ==> done.contains(#[trigger] order_paths(order)[k])
    &&& forall|k: int| 0 <= k < order.len() && (#[trigger] order[k]).requested ==> roots.contains(order[k].id.path())
}

/// The stack of components being visited: distinct, indexed, usable, each
/// a dependency of the one below it, none finished yet.
pub open spec fn stack_invariant(reg: &Registry, stack: Seq<Seq<char>>, done: Seq<Seq<char>>) -> bool {
    &&& distinct(stack)
    &&& forall|i: int| 0 <= i < stack.len() ==> usable_path(reg, #[trigger] stack[i])
    &&& forall|i: int| 0 <= i < stack.len() ==> reg.is_indexed(#[trigger] stack[i])
    &&& forall|i: int| 0 <= i < stack.len() ==> !done.contains(#[trigger] stack[i])
    &&& is_dependency_chain(reg, stack)
}

/// Resolve `roots` and their transitive component dependencies into install
/// order. Components already recorded in `installed` are skipped (not
/// re-vendored) but still walked so their dependencies are checked.
#[verifier::spinoff_prover]
#[verifier::rlimit(100)]
pub fn resolve<'a>(
    registry: &'a Registry,
    roots: &[ComponentId],
    installed: &Vec<(String, InstalledComponent)>,
) -> (res: Result<Vec<ResolvedInstall<'a>>, RegistryError>)
    ensures
        res matches Ok(order) ==> {
            &&& is_install_order(registry, installed@, order@)
            &&& forall|r: int| 0 <= r < roots@.len() ==> is_installed(installed@, #[trigger] roots@[r].path())
                    || order_paths(order@).contains(roots@[r].path())
            &&& forall|k: int| 0 <= k < order@.len() && (#[trigger] order@[k]).requested
                    ==> id_paths(roots@).contains(order@[k].id.path())
            &&& forall|k: int| 0 <= k < order@.len() ==>
                    ((#[trigger] order@[k]).requested <==> is_first_visit(registry, id_paths(roots@), order@[k].id.path()))
            &&& forall|k: int| 0 <= k < order@.len() ==> reaches(registry, id_paths(roots@), #[trigger] order_paths(order@)[k])
            &&& forall|p: Seq<char>| #[trigger] reaches(registry, id_paths(roots@), p) && !is_installed(installed@, p)
                    ==> order_paths(order@).contains(p)
        },
        res matches Err(e) ==> is_resolution_defect(registry, id_paths(roots@), e),
{
    let mut order: Vec<ResolvedInstall<'a>> = Vec::new();
    let mut done: Vec<String> = Vec::new();
    let mut stack: Vec<ComponentId> = Vec::new();
    let ghost rootp = id_paths(roots@);
    let mut r: usize = 0;
    proof {
        reveal(resolve_progress);
        reveal(walk_invariant);
        reveal(requested_are_first_visits);
        reveal(first_visits_requested);
        assert(rootp.take(0) =~= Seq::<Seq<char>>::empty());
    }
    while r < roots.len()
        invariant
            r <= roots@.len(),
            rootp == id_paths(roots@),
            stack@.len() == 0,
            resolve_progress(registry, installed@, rootp, r as int, views(done@), order@),
        decreases roots@.len() - r,
    {
        visit_root(registry, roots, r, installed, &mut done, &mut stack, &mut order)?;
        r = r + 1;
    }
    proof {
        lemma_resolve_done(registry, installed@, rootp, views(done@), order@);
        assert forall|q: int| 0 <= q < roots@.len() implies is_installed(installed@, #[trigger] roots@[q].path())
            || order_paths(order@).contains(roots@[q].path()) by {
            assert(rootp[q] == roots@[q].path());
        }
    }
    Ok(order)
}

/// Once every root was visited: the order is an install order of exactly
/// the missing components the roots reach, each reached, every root
/// installed or in the order, and the requested marks set exactly for the
/// first visits of roots.
proof fn lemma_resolve_done(
    reg: &Registry,
    installed: Seq<(String, InstalledComponent)>,
    rootp: Seq<Seq<char>>,
    d: Seq<Seq<char>>,
    order: Seq<ResolvedInstall>,
)
    requires
        resolve_progress(reg, installed, rootp, rootp.len() as int, d, order),
    ensures
        is_install_order(reg, installed, order),
        forall|q: int| 0 <= q < rootp.len() ==> is_installed(installed, #[trigger] rootp[q])
            || order_paths(order).contains(rootp[q]),
        forall|k: int| 0 <= k < order.len() && (#[trigger] order[k]).requested ==> rootp.contains(order[k].id.path()),
        forall|k: int| 0 <= k < order.len() ==> reaches(reg, rootp, #[trigger] order_paths(order)[k]),
        forall|p: Seq<char>| #[trigger] reaches(reg, rootp, p) && !is_installed(installed, p)
            ==> order_paths(order).contains(p),
        forall|k: int| 0 <= k < order.len() ==>
            ((#[trigger] order[k]).requested <==> is_first_visit(reg, rootp, order[k].id.path())),
{
    reveal(walk_invariant);
    reveal(resolve_progress);
    assert(rootp.take(rootp.len() as int) =~= rootp);
    let op = order_paths(order);
    assert forall|q: int| 0 <= q < rootp.len() implies is_installed(installed, #[trigger] rootp[q])
        || op.contains(rootp[q]) by {
        let i = choose|i: int| 0 <= i < d.len() && d[i] == rootp[q];
    }
    assert forall|k: int| 0 <= k < order.len() implies reaches(reg, rootp, #[trigger] op[k]) by {
        assert(d.contains(op[k]));
        let i = choose|i: int| 0 <= i < d.len() && d[i] == op[k];
    }
    assert forall|x: Seq<char>| #[trigger] rootp.contains(x) implies d.contains(x) by {
        let q = choose|q: int| 0 <= q < rootp.len() && rootp[q] == x;
    }
    assert forall|p: Seq<char>| #[trigger] reaches(reg, rootp, p) && !is_installed(installed, p)
        implies op.contains(p) by {
        let c = choose|c: Seq<Seq<char>>| #[trigger] is_walk_from(reg, rootp, c) && c.last() == p;
        lemma_walk_done(reg, rootp, d, c, c.len() - 1);
        let i = choose|i: int| 0 <= i < d.len() && d[i] == p;
    }
    lemma_requested_exactly(reg, installed, rootp, order);
}

/// What `resolve` keeps once the first `r` roots were visited: the walk's
/// bookkeeping for those roots, each of them done, and the requested marks
/// set exactly for their first visits.
#[verifier::opaque]
pub open spec fn resolve_progress(
    reg: &Registry,
    installed: Seq<(String, InstalledComponent)>,
    roots: Seq<Seq<char>>,
    r: int,
    done: Seq<Seq<char>>,
    order: Seq<ResolvedInstall>,
) -> bool {
    &&& 0 <= r <= roots.len()
    &&& walk_invariant(reg, installed, roots.take(r), done, order)
    &&& forall|q: int| 0 <= q < r ==> done.contains(#[trigger] roots[q])
    &&& requested_are_first_visits(reg, roots, r, order)
    &&& first_visits_requested(reg, installed, roots, r, order)
}

/// Visit root `r` (requested), keeping `resolve`'s bookkeeping for one
/// root more, or fail with a defect met on the way from the roots.
#[verifier::spinoff_prover]
#[verifier::rlimit(100)]
fn visit_root<'a>(
    registry: &'a Registry,
    roots: &[ComponentId],
    r: usize,
    installed: &Vec<(String, InstalledComponent)>,
    done: &mut Vec<String>,
    stack: &mut Vec<ComponentId>,
    order: &mut Vec<ResolvedInstall<'a>>,
) -> (res: Result<(), RegistryError>)
    requires
        r < roots@.len(),
        old(stack)@.len() == 0,
        resolve_progress(registry, installed@, id_paths(roots@), r as int, views(old(done)@), old(order)@),
    ensures
        res matches Err(e) ==> is_resolution_defect(registry, id_paths(roots@), e),
        res is Ok ==> final(stack)@.len() == 0,
        res is Ok ==> resolve_progress(registry, installed@, id_paths(roots@), r + 1, views(final(done)@), final(order)@),
{
    let ghost rootp = id_paths(roots@);
    let ghost d0 = views(done@);
    let ghost o0 = order@;
    proof {
        assert(walk_invariant(registry, installed@, rootp.take(r as int), d0, o0)
            && (forall|q: int| 0 <= q < r ==> d0.contains(#[trigger] rootp[q]))
            && requested_are_first_visits(registry, rootp, r as int, o0)
            && first_visits_requested(registry, installed@, rootp, r as int, o0)) by {
            reveal(resolve_progress);
        }
        lemma_before_root(registry, installed@, rootp, r as int, d0, o0);
        assert(rootp[r as int] == roots@[r as int].path());
    }
    match visit(registry, &roots[r], true, installed, done, stack, order, Ghost(rootp.take(r + 1))) {
        Ok(()) => {},
        Err(e) => {
            proof { lemma_defect_more_roots(registry, rootp.take(r + 1), rootp, e); }
            return Err(e);
        },
    }
    proof {
        lemma_after_root(registry, installed@, rootp, r as int, d0, o0, order@);
        let d1 = views(done@);
        assert forall|q: int| 0 <= q < r + 1 implies d1.contains(#[trigger] rootp[q]) by {
            if q < r {
                assert(d0.contains(rootp[q]));
            }
        }
        assert(resolve_progress(registry, installed@, rootp, r + 1, d1, order@)) by {
            reveal(resolve_progress);
        }
    }
    Ok(())
}

/// Whether `key` is among `v`.
fn contains_str(v: &Vec<String>, key: &str) -> (res: bool)
    ensures
        res == views(v@).contains(key@),
{
    let mut i: usize = 0;
    while i < v.len()
        invariant
            i <= v@.len(),
            forall|j: int| 0 <= j < i ==> views(v@)[j] != key@,
        decreases v@.len() - i,
    {
        if str_eq(v[i].as_str(), key) {
            assert(views(v@)[i as int] == key@);
            return true;
        }
        i = i + 1;
    }
    false
}

/// Where on the stack `key` is being visited, if it is.
fn stack_position(stack: &Vec<ComponentId>, key: &str) -> (res: Option<usize>)
    ensures
        res matches Some(p) ==> p < stack@.len() && id_paths(stack@)[p as int] == key@,
        res is None ==> !id_paths(stack@).contains(key@),
{
    let mut i: usize = 0;
    while i < stack.len()
        invariant
            i <= stack@.len(),
            forall|j: int| 0 <= j < i ==> id_paths(stack@)[j] != key@,
        decreases stack@.len() - i,
    {
        let p = stack[i].to_string();
        if str_eq(p.as_str(), key) {
            return Some(i);
        }
        i = i + 1;
    }
    None
}

/// A stack of distinct indexed paths is no longer than the index.
proof fn lemma_stack_bound(reg: &Registry, stack: Seq<Seq<char>>)
    requires
        distinct(stack),
        forall|i: int| 0 <= i < stack.len() ==> reg.is_indexed(#[trigger] stack[i]),
    ensures
        stack.len() <= reg.index.entries_view().len(),
{
    broadcast use vstd::seq_lib::seq_to_set_is_finite;
    let keys = reg.keys();
    assert(stack.no_duplicates());
    stack.unique_seq_to_set();
    keys.lemma_cardinality_of_set();
    assert forall|p: Seq<char>| stack.to_set().contains(p) implies keys.to_set().contains(p) by {
        let i = choose|i: int| 0 <= i < stack.len() && stack[i] == p;
        assert(reg.is_indexed(stack[i]));
        let j = choose|j: int| 0 <= j < reg.index.entries_view().len() && (#[trigger] reg.index.entries_view()[j]).0@ == p;
        assert(keys[j] == p);
    }
    vstd::set_lib::lemma_len_subset(stack.to_set(), keys.to_set());
}

/// The stack from `pos` on, then `key` again: the ids along a cycle.
#[verifier::spinoff_prover]
#[verifier::rlimit(50)]
fn cycle_through(
    registry: &Registry,
    stack: &Vec<ComponentId>,
    pos: usize,
    key: String,
    id: &ComponentId,
) -> (cycle: Vec<String>)
    requires
        pos < stack@.len(),
        id_paths(stack@)[pos as int] == key@,
        key@ == id.path(),
        forall|i: int| 0 <= i < stack@.len() ==> usable_path(registry, #[trigger] id_paths(stack@)[i]),
        is_dependency_chain(registry, id_paths(stack@)),
        registry.deps(stack@.last().path()).contains(id.path()),
        distinct(id_paths(stack@)),
    ensures
        is_dependency_cycle(registry, views(cycle@)),
        views(cycle@)[0] == id_paths(stack@)[pos as int],
        views(cycle@) == id_paths(stack@).subrange(pos as int, stack@.len() as int).push(id.path()),
        distinct(views(cycle@).drop_last()),
{
    let ghost st0 = id_paths(stack@);
    let mut cycle: Vec<String> = Vec::new();
    let mut j: usize = pos;
    while j < stack.len()
        invariant
            pos <= j <= stack@.len(),
            st0 == id_paths(stack@),
            views(cycle@) == st0.subrange(pos as int, j as int),
        decreases stack@.len() - j,
    {
        let p = stack[j].to_string();
        let ghost before = cycle@;
        cycle.push(p);
        proof {
            assert(views(cycle@) =~= views(before).push(p@));
            assert(st0[j as int] == p@);
            assert(views(cycle@) =~= st0.subrange(pos as int, j + 1));
        }
        j = j + 1;
    }
    let ghost before = cycle@;
    cycle.push(key);
    proof {
        let c = views(cycle@);
        assert(c =~= views(before).push(id.path()));
        assert(c =~= st0.subrange(pos as int, st0.len() as int).push(id.path()));
        assert forall|i: int| 0 <= i < c.len() - 1 implies registry.deps(#[trigger] c[i]).contains(c[i + 1]) by {
            if i < c.len() - 2 {
                assert(c[i] == st0[pos + i]);
                assert(c[i + 1] == st0[pos + i + 1]);
                assert(registry.deps(st0[pos + i]).contains(st0[pos + i + 1]));
            } else {
                assert(c[i] == st0[st0.len() - 1]);
            }
        }
        assert forall|i: int| 0 <= i < c.len() - 1 implies usable_path(registry, #[trigger] c[i]) by {
            assert(c[i] == st0[pos + i]);
        }
        assert(c[0] == st0[pos as int]);
        assert(c.drop_last() =~= st0.subrange(pos as int, st0.len() as int));
        assert forall|i: int, j: int| 0 <= i < c.drop_last().len() && 0 <= j < c.drop_last().len() && i != j
            implies c.drop_last()[i] != c.drop_last()[j] by {
            assert(c.drop_last()[i] == st0[pos + i]);
            assert(c.drop_last()[j] == st0[pos + j]);
        }
    }
    cycle
}

/// Pushing a usable, indexed path that is neither on the stack nor done, and
/// that the stack's top depends on, keeps the stack well-formed and within
/// the index's size.
proof fn lemma_push_keeps_stack(reg: &Registry, st0: Seq<Seq<char>>, p: Seq<char>, done: Seq<Seq<char>>)
    requires
        stack_invariant(reg, st0, done),
        usable_path(reg, p),
        reg.is_indexed(p),
        !st0.contains(p),
        !done.contains(p),
        st0.len() > 0 ==> reg.deps(st0.last()).contains(p),
    ensures
        stack_invariant(reg, st0.push(p), done),
        st0.len() + 1 <= reg.index.entries_view().len(),
{
    let ns = st0.push(p);
    assert forall|i: int| 0 <= i < ns.len() implies reg.is_indexed(#[trigger] ns[i]) by {
        if i < st0.len() { assert(ns[i] == st0[i]); }
    }
    assert forall|i: int| 0 <= i < ns.len() implies usable_path(reg, #[trigger] ns[i]) by {
        if i < st0.len() { assert(ns[i] == st0[i]); }
    }
    assert forall|i: int| 0 <= i < ns.len() implies !done.contains(#[trigger] ns[i]) by {
        if i < st0.len() { assert(ns[i] == st0[i]); }
    }
    assert forall|i: int| 0 <= i < ns.len() - 1 implies reg.deps(#[trigger] ns[i]).contains(ns[i + 1]) by {
        assert(ns[i] == st0[i]);
        if i < st0.len() - 1 { assert(ns[i + 1] == st0[i + 1]); }
    }
    assert(distinct(ns)) by {
        assert forall|i: int, j: int| 0 <= i < ns.len() && 0 <= j < ns.len() && i != j implies ns[i] != ns[j] by {
            if i < st0.len() && j < st0.len() {
                assert(ns[i] == st0[i] && ns[j] == st0[j]);
            } else if i < st0.len() {
                assert(ns[i] == st0[i]);
            } else if j < st0.len() {
                assert(ns[j] == st0[j]);
            }
        }
    }
    lemma_stack_bound(reg, ns);
}

/// Finishing a visited path: once all its dependencies are done, marking it
/// done (and queueing it unless installed) keeps the walk well-formed.
proof fn lemma_finish(
    reg: &Registry,
    installed: Seq<(String, InstalledComponent)>,
    roots: Seq<Seq<char>>,
    done: Seq<Seq<char>>,
    order: Seq<ResolvedInstall>,
    new_order: Seq<ResolvedInstall>,
    r: ResolvedInstall,
)
    requires
        walk_invariant(reg, installed, roots, done, order),
        reg.is_usable(r.id),
        *r.component == reg.spec_component(r.id.path()),
        !done.contains(r.id.path()),
        forall|t: int| 0 <= t < reg.deps(r.id.path()).len() ==> done.contains(#[trigger] reg.deps(r.id.path())[t]),
        r.requested ==> roots.contains(r.id.path()),
        reaches(reg, roots, r.id.path()),
        new_order == if is_installed(installed, r.id.path()) { order } else { order.push(r) },
    ensures
        walk_invariant(reg, installed, roots, done.push(r.id.path()), new_order),
{
    reveal(walk_invariant);
    let p = r.id.path();
    let nd = done.push(p);
    assert(usable_path(reg, p));
    assert forall|i: int| 0 <= i < nd.len() implies usable_path(reg, #[trigger] nd[i]) by {
        if i < done.len() { assert(nd[i] == done[i]); }
    }
    assert forall|i: int| 0 <= i < nd.len() implies reaches(reg, roots, #[trigger] nd[i]) by {
        if i < done.len() { assert(nd[i] == done[i]); }
    }
    assert forall|q: Seq<char>| done.contains(q) implies nd.contains(q) by {
        let i = choose|i: int| 0 <= i < done.len() && done[i] == q;
        assert(nd[i] == q);
    }
    assert(nd.contains(p)) by { assert(nd[nd.len() - 1] == p); }
    assert forall|i: int, e: int| 0 <= i < nd.len() && 0 <= e < reg.deps(nd[i]).len()
        implies nd.contains(#[trigger] reg.deps(nd[i])[e]) by {
        if i < done.len() {
            assert(nd[i] == done[i]);
            assert(done.contains(reg.deps(done[i])[e]));
        } else {
            assert(nd[i] == p);
            assert(done.contains(reg.deps(p)[e]));
        }
    }
    let op = order_paths(order);
    let nop = order_paths(new_order);
    if !is_installed(installed, p) {
        assert(nop =~= op.push(p));
    } else {
        assert(nop =~= op);
    }
    assert forall|q: Seq<char>| op.contains(q) implies nop.contains(q) by {
        let i = choose|i: int| 0 <= i < op.len() && op[i] == q;
        assert(nop[i] == q);
    }
    assert forall|i: int| 0 <= i < nd.len() implies
        is_installed(installed, #[trigger] nd[i]) || nop.contains(nd[i]) by {
        if i < done.len() {
            assert(nd[i] == done[i]);
        } else if !is_installed(installed, p) {
            assert(nop[nop.len() - 1] == p);
        }
    }
    assert forall|k: int| 0 <= k < new_order.len() implies nd.contains(#[trigger] nop[k]) by {
        if k < order.len() {
            assert(nop[k] == op[k]);
            assert(done.contains(op[k]));
        } else {
            assert(nop[k] == p);
        }
    }
    assert forall|k: int| 0 <= k < new_order.len() && (#[trigger] new_order[k]).requested
        implies roots.contains(new_order[k].id.path()) by {
        if k < order.len() { assert(new_order[k] == order[k]); }
    }
    if !is_installed(installed, p) {
        assert(!op.contains(p)) by {
            if op.contains(p) {
                let k = choose|k: int| 0 <= k < op.len() && op[k] == p;
                assert(done.contains(op[k]));
            }
        }
        assert(distinct(nop)) by {
            assert forall|i: int, j: int| 0 <= i < nop.len() && 0 <= j < nop.len() && i != j implies nop[i] != nop[j] by {
                if i < op.len() && j < op.len() {
                    assert(nop[i] == op[i] && nop[j] == op[j]);
                } else if i < op.len() {
                    assert(nop[i] == op[i]);
                } else if j < op.len() {
                    assert(nop[j] == op[j]);
                }
            }
        }
        assert forall|k: int| 0 <= k < new_order.len() implies {
            &&& reg.is_usable((#[trigger] new_order[k]).id)
            &&& *new_order[k].component == reg.spec_component(new_order[k].id.path())
            &&& !is_installed(installed, new_order[k].id.path())
        } by {
            if k < order.len() { assert(new_order[k] == order[k]); }
        }
        assert forall|k: int, e: int| 0 <= k < new_order.len() && 0 <= e < reg.deps(new_order[k].id.path()).len() implies {
            let d = #[trigger] reg.deps(new_order[k].id.path())[e];
            is_installed(installed, d) || exists|m: int| 0 <= m < k && nop[m] == d
        } by {
            let d = reg.deps(new_order[k].id.path())[e];
            if k < order.len() {
                assert(new_order[k] == order[k]);
                if !is_installed(installed, d) {
                    let m = choose|m: int| 0 <= m < k && op[m] == d;
                    assert(nop[m] == d);
                }
            } else {
                assert(new_order[k] == r);
                assert(done.contains(d));
                let i = choose|i: int| 0 <= i < done.len() && done[i] == d;
                if !is_installed(installed, d) {
                    assert(op.contains(d));
                    let m = choose|m: int| 0 <= m < op.len() && op[m] == d;
                    assert(nop[m] == d);
                }
            }
        }
    }
}

#[verifier::rlimit(50)]
fn visit<'a>(
    registry: &'a Registry,
    id: &ComponentId,
    requested: bool,
    installed: &Vec<(String, InstalledComponent)>,
    done: &mut Vec<String>,
    stack: &mut Vec<ComponentId>,
    order: &mut Vec<ResolvedInstall<'a>>,
    Ghost(roots): Ghost<Seq<Seq<char>>>,
) -> (res: Result<(), RegistryError>)
    requires
        walk_invariant(registry, installed@, roots, views(old(done)@), old(order)@),
        stack_invariant(registry, id_paths(old(stack)@), views(old(done)@)),
        old(stack)@.len() > 0 ==> registry.deps(old(stack)@.last().path()).contains(id.path()),
        old(stack)@.len() > 0 ==> roots.contains(id_paths(old(stack)@)[0]),
        old(stack)@.len() == 0 ==> roots.contains(id.path()),
        reaches(registry, roots, id.path()),
        requested ==> roots.contains(id.path()),
    ensures
        res matches Err(e) ==> is_resolution_defect(registry, roots, e),
        !views(old(done)@).contains(id.path()) && id_paths(old(stack)@).contains(id.path()) ==> {
            &&& final(done)@ == old(done)@
            &&& final(order)@ == old(order)@
            &&& final(stack)@ == old(stack)@
            &&& (res matches Err(RegistryError::Cycle(c)) && is_stack_cycle(id_paths(old(stack)@), id.path(), views(c@)))
        },
        res is Ok ==> extends(old(order)@, final(order)@),
        res is Ok ==> marks_only(old(order)@.len() as int, final(order)@, requested, id.path()),
        res is Ok && views(old(done)@).contains(id.path()) ==> final(order)@ == old(order)@,
        res is Ok && !views(old(done)@).contains(id.path()) && !is_installed(installed@, id.path()) ==>
            final(order)@.len() > old(order)@.len() && final(order)@.last().id.path() == id.path()
            && final(order)@.last().requested == requested,
        res is Ok ==> {
            &&& walk_invariant(registry, installed@, roots, views(final(done)@), final(order)@)
            &&& views(final(done)@).contains(id.path())
            &&& forall|p: Seq<char>| #[trigger] views(old(done)@).contains(p)
                    ==> views(final(done)@).contains(p)
            &&& final(stack)@ == old(stack)@
            &&& stack_invariant(registry, id_paths(final(stack)@), views(final(done)@))
        },
    decreases registry.index.entries_view().len() - old(stack)@.len(),
{
    let key = id.to_string();
    if contains_str(done, key.as_str()) {
        proof {
            reveal(extends);
            reveal(marks_only);
            assert(order@.take(order@.len() as int) =~= order@);
        }
        return Ok(());
    }
    let ghost st0 = id_paths(stack@);
    match stack_position(stack, key.as_str()) {
        Some(pos) => {
            let cycle = cycle_through(registry, stack, pos, key, id);
            proof {
                lemma_stack_reached(registry, roots, st0, pos as int);
                reveal(is_stack_cycle);
                assert(st0[pos as int] == id.path());
            }
            return Err(RegistryError::Cycle(cycle));
        },
        None => {},
    }
    let component = match registry.component(id) {
        Ok(c) => c,
        Err(e) => {
            proof {
                assert(reaches(registry, roots, id.path()));
            }
            return Err(e);
        },
    };
    proof { lemma_push_keeps_stack(registry, st0, id.path(), views(done@)); }
    stack.push(id.clone());
    assert(id_paths(stack@) =~= st0.push(id.path()));
    let ghost deps = registry.deps(id.path());
    let ghost stack1 = stack@;
    let ghost done0 = views(done@);
    let n = component.dependencies.components.len();
    assert(deps.len() == n);
    let mut e: usize = 0;
    proof {
        reveal(extends);
        reveal(marks_only);
        assert(order@.take(old(order)@.len() as int) =~= old(order)@);
    }
    while e < n
        invariant
            n == component.dependencies.components@.len(),
            deps == registry.deps(id.path()),
            *component == registry.spec_component(id.path()),
            registry.is_usable(*id),
            e <= n,
            stack@ == stack1,
            stack1 == old(stack)@.push(*id),
            id_paths(stack1) == st0.push(id.path()),
            st0 == id_paths(old(stack)@),
            !st0.contains(id.path()),
            !views(old(done)@).contains(id.path()),
            extends(old(order)@, order@),
            order@.len() >= old(order)@.len(),
            marks_only(old(order)@.len() as int, order@, false, id.path()),
            stack1.len() <= registry.index.entries_view().len(),
            walk_invariant(registry, installed@, roots, views(done@), order@),
            stack_invariant(registry, id_paths(stack@), views(done@)),
            forall|p: Seq<char>| #[trigger] done0.contains(p) ==> views(done@).contains(p),
            forall|t: int| 0 <= t < e ==> views(done@).contains(#[trigger] deps[t]),
            requested ==> roots.contains(id.path()),
            reaches(registry, roots, id.path()),
            roots.contains(id_paths(stack@)[0]),
        decreases n - e,
    {
        let dep_path = &component.dependencies.components[e].0;
        assert(dep_path@ == deps[e as int]);
        let dep_id = match ComponentId::parse(dep_path.as_str()) {
            Ok(d) => d,
            Err(_) => {
                let k2 = id.to_string();
                proof {
                    assert(registry.deps(k2@).contains(dep_path@)) by {
                        assert(deps[e as int] == dep_path@);
                    }
                    assert(usable_path(registry, id.path()));
                }
                return Err(RegistryError::InvalidDependency { component: k2, dependency: dep_path.clone() });
            },
        };
        let ghost done_before = views(done@);
        proof {
            assert(registry.deps(id.path()).contains(dep_id.path())) by {
                assert(deps[e as int] == dep_id.path());
            }
            assert(usable_path(registry, id.path()));
            lemma_walk_extends(registry, roots, id.path(), dep_id.path());
        }
        let ghost order_before = order@;
        visit(registry, &dep_id, false, installed, done, stack, order, Ghost(roots))?;
        proof {
            lemma_marks_nothing_trans(old(order)@.len() as int, order_before, order@, id.path(), dep_id.path());
            lemma_extends_trans(old(order)@, order_before, order@);
        }
        proof {
            assert forall|t: int| 0 <= t < e + 1 implies views(done@).contains(#[trigger] deps[t]) by {
                if t < e {
                    assert(done_before.contains(deps[t]));
                }
            }
        }
        e = e + 1;
    }
    assert(id_paths(stack@)[st0.len() as int] == id.path());
    assert(!views(done@).contains(id.path()));
    stack.pop();
    assert(stack@ =~= old(stack)@);
    let ghost done1 = views(done@);
    let ghost order1 = order@;
    let k3 = id.to_string();
    done.push(k3);
    assert(views(done@) =~= done1.push(id.path()));
    let inst = contains_key(installed, key.as_str());
    let r = ResolvedInstall { id: id.clone(), component, requested };
    let ghost rg = r;
    if !inst {
        order.push(r);
    }
    proof {
        reveal(extends);
        reveal(marks_only);
        if !inst {
            assert(order@.take(old(order)@.len() as int) =~= order1.take(old(order)@.len() as int));
            assert(order@.take(order1.len() as int) =~= order1);
        }
        assert forall|k: int| old(order)@.len() <= k < order@.len() && (#[trigger] order@[k]).requested
            implies requested && order@[k].id.path() == id.path() by {
            if k < order1.len() {
                assert(order@[k] == order1[k]);
            }
        }
        lemma_finish(registry, installed@, roots, done1, order1, order@, rg);
        assert forall|p: Seq<char>| #[trigger] views(old(done)@).contains(p) implies views(done@).contains(p) by {
            assert(done0.contains(p));
            assert(done1.contains(p));
            let i = choose|i: int| 0 <= i < done1.len() && done1[i] == p;
            assert(views(done@)[i] == p);
        }
        assert(views(done@).contains(id.path())) by { assert(views(done@)[views(done@).len() - 1] == id.path()); }
        let ns = id_paths(stack@);
        assert forall|i: int| 0 <= i < ns.len() implies !views(done@).contains(#[trigger] ns[i]) by {
            assert(id_paths(stack1)[i] == ns[i]);
            assert(!done1.contains(ns[i]));
            assert(ns[i] != id.path()) by {
                assert(st0[i] == ns[i]);
            }
            if views(done@).contains(ns[i]) {
                let j = choose|j: int| 0 <= j < views(done@).len() && views(done@)[j] == ns[i];
                if j < done1.len() { assert(done1[j] == ns[i]); }
            }
        }
    }
    Ok(())
}

} // verus!
