//! Transitive dependency resolution: the dependencies of dependencies, in
//! dependency-first order, each package once, with cycles broken.
//!
//! The search walks each dependency before the package that needs it. A
//! dependency that is still open when a package is finished closes a cycle:
//! it is not waited for, and it is placed after the package instead.
use crate::catalog::Catalog;
use crate::package::Package;
use crate::resolve::{dep_matches, resolves_to, sole_candidate};
use vstd::prelude::*;

verus! {

/// Package `p` depends on catalog position `v`: one of its dependency
/// identifiers resolves there.
pub open spec fn depends_on(p: Package, cat: Seq<Package>, v: int) -> bool {
    exists|d: int|
        0 <= d < p.latest.dependencies@.len() && resolves_to(
            (#[trigger] p.latest.dependencies@[d])@,
            cat,
            v,
        )
}

/// `s` is a non-empty chain of catalog positions, each package depending
/// on the next.
pub open spec fn is_chain(cat: Seq<Package>, s: Seq<int>) -> bool {
    &&& s.len() >= 1
    &&& forall|i: int| 0 <= i < s.len() ==> 0 <= #[trigger] s[i] < cat.len()
    &&& forall|i: int|
        0 <= i < s.len() - 1 ==> #[trigger] depends_on(cat[s[i]], cat, s[i + 1])
}

/// A chain leads from position `a` to position `b`.
pub open spec fn leads_to(cat: Seq<Package>, a: int, b: int) -> bool {
    exists|s: Seq<int>| #[trigger] is_chain(cat, s) && s[0] == a && s.last() == b
}

/// Position `b` is reached from `target` through a chain of dependencies.
pub open spec fn from_target(target: Package, cat: Seq<Package>, b: int) -> bool {
    exists|s: Seq<int>|
        #[trigger] is_chain(cat, s) && depends_on(target, cat, s[0]) && s.last() == b
}

/// The package at position `v` is the target itself.
pub open spec fn is_target(target: Package, cat: Seq<Package>, v: int) -> bool {
    cat[v].full_name@ == target.full_name@
}

/// Dependency `v` of the package at `out[p]` is accounted for: it is the
/// target, or it stands before position `p`, or it stands at or after `p`
/// and leads back to `out[p]`, closing a cycle.
pub open spec fn placed(target: Package, cat: Seq<Package>, out: Seq<usize>, p: int, v: int) -> bool {
    ||| is_target(target, cat, v)
    ||| exists|q: int| 0 <= q < p && out[q] == v
    ||| exists|q: int| p <= q < out.len() && out[q] == v && leads_to(cat, v, out[p] as int)
}

/// During the search, a dependency may also still be open (`mark` 1).
spec fn placed_now(
    target: Package,
    cat: Seq<Package>,
    out: Seq<usize>,
    mark: Seq<u8>,
    p: int,
    v: int,
) -> bool {
    ||| placed(target, cat, out, p, v)
    ||| mark[v] == 1 && leads_to(cat, v, out[p] as int)
}

/// The number of unseen positions.
spec fn zeros(m: Seq<u8>) -> nat
    decreases m.len(),
{
    if m.len() == 0 {
        0
    } else {
        zeros(m.drop_last()) + if m.last() == 0 {
            1nat
        } else {
            0nat
        }
    }
}

proof fn lemma_zeros_le_len(m: Seq<u8>)
    ensures
        zeros(m) <= m.len(),
    decreases m.len(),
{
    if m.len() > 0 {
        lemma_zeros_le_len(m.drop_last());
    }
}

proof fn lemma_zeros_mono(a: Seq<u8>, b: Seq<u8>)
    requires
        a.len() == b.len(),
        forall|i: int| 0 <= i < b.len() && b[i] == 0 ==> a[i] == 0,
    ensures
        zeros(b) <= zeros(a),
    decreases a.len(),
{
    if a.len() > 0 {
        let a0 = a.drop_last();
        let b0 = b.drop_last();
        assert forall|i: int| 0 <= i < b0.len() && b0[i] == 0 implies a0[i] == 0 by {
            assert(b0[i] == b[i] && a0[i] == a[i]);
        }
        lemma_zeros_mono(a0, b0);
    }
}

proof fn lemma_zeros_open(m: Seq<u8>, u: int)
    requires
        0 <= u < m.len(),
        m[u] == 0,
    ensures
        zeros(m.update(u, 1)) + 1 == zeros(m),
    decreases m.len(),
{
    let m1 = m.update(u, 1);
    if u == m.len() - 1 {
        assert(m1.drop_last() =~= m.drop_last());
    } else {
        assert(m1.drop_last() =~= m.drop_last().update(u, 1));
        lemma_zeros_open(m.drop_last(), u);
    }
}

proof fn lemma_resolves_unique(dep: Seq<char>, cat: Seq<Package>, a: int, b: int)
    requires
        resolves_to(dep, cat, a),
        resolves_to(dep, cat, b),
    ensures
        a == b,
{
    if a != b {
        assert(!dep_matches(dep, cat[b]));
    }
}

/// A chain from the `i`-th element of a chain to its end.
proof fn lemma_chain_suffix(cat: Seq<Package>, s: Seq<int>, i: int)
    requires
        is_chain(cat, s),
        0 <= i < s.len(),
    ensures
        is_chain(cat, s.subrange(i, s.len() as int)),
{
    let t = s.subrange(i, s.len() as int);
    assert forall|k: int| 0 <= k < t.len() - 1 implies #[trigger] depends_on(
        cat[t[k]],
        cat,
        t[k + 1],
    ) by {
        assert(t[k] == s[i + k] && t[k + 1] == s[i + k + 1]);
        assert(depends_on(cat[s[i + k]], cat, s[i + k + 1]));
    }
}

/// Entry `w` is reached from the package that the target's `k`-th
/// dependency identifier resolves to.
pub open spec fn reached_from_dep(target: Package, cat: Seq<Package>, k: int, w: int) -> bool {
    exists|v: int|
        #[trigger] resolves_to(target.latest.dependencies@[k]@, cat, v) && leads_to(cat, v, w)
}

/// `groups[q]` is the index, in the target's dependency list, of the
/// dependency through which entry `q` was first reached. The groups follow
/// the order of that list, each entry is reached from its group's
/// dependency, and a direct dependency never stands in a later group than
/// its own.
pub open spec fn grouped_by_dependency(
    target: Package,
    cat: Seq<Package>,
    out: Seq<usize>,
    groups: Seq<int>,
) -> bool {
    let deps = target.latest.dependencies@;
    &&& groups.len() == out.len()
    &&& forall|q1: int, q2: int|
        0 <= q1 <= q2 < out.len() ==> (#[trigger] groups[q1]) <= (#[trigger] groups[q2])
    &&& forall|q: int|
        0 <= q < out.len() ==> 0 <= #[trigger] groups[q] < deps.len() && reached_from_dep(
            target,
            cat,
            groups[q],
            out[q] as int,
        )
    &&& forall|k: int, q: int|
        0 <= k < deps.len() && 0 <= q < out.len() && #[trigger] resolves_to(
            deps[k]@,
            cat,
            #[trigger] out[q] as int,
        ) ==> groups[q] <= k
}

/// Everything the search keeps true between steps.
spec fn search_inv(target: Package, cat: Seq<Package>, mark: Seq<u8>, out: Seq<usize>) -> bool {
    &&& mark.len() == cat.len()
    &&& forall|v: int| 0 <= v < cat.len() ==> #[trigger] mark[v] <= 2
    &&& forall|q: int| 0 <= q < out.len() ==> (#[trigger] out[q]) < cat.len()
    &&& forall|v: int|
        0 <= v < cat.len() ==> (#[trigger] mark[v] == 2 <==> exists|q: int|
            0 <= q < out.len() && out[q] == v)
    &&& forall|q1: int, q2: int|
        0 <= q1 < q2 < out.len() ==> (#[trigger] out[q1]) != (#[trigger] out[q2])
    &&& forall|q: int| 0 <= q < out.len() ==> !is_target(target, cat, #[trigger] out[q] as int)
    &&& forall|q: int| 0 <= q < out.len() ==> from_target(target, cat, #[trigger] out[q] as int)
    &&& forall|p: int, v: int|
        0 <= p < out.len() && #[trigger] depends_on(cat[out[p] as int], cat, v) ==> placed_now(
            target,
            cat,
            out,
            mark,
            p,
            v,
        )
}

/// The open positions: the target's and those on the current path.
spec fn open_marks(target: Package, cat: Seq<Package>, mark: Seq<u8>, path: Seq<int>) -> bool {
    forall|v: int|
        0 <= v < cat.len() ==> (#[trigger] mark[v] == 1 <==> (is_target(target, cat, v)
            || path.contains(v)))
}

/// Visits the package at position `u`, reached along `path`: its
/// dependencies first, then the package itself.
fn visit(
    u: usize,
    target: &Package,
    catalog: &Catalog,
    mark: &mut Vec<u8>,
    out: &mut Vec<usize>,
    Ghost(path): Ghost<Seq<int>>,
    budget: usize,
)
    requires
        search_inv(*target, catalog@, old(mark)@, old(out)@),
        u < catalog@.len(),
        old(mark)@[u as int] == 0,
        open_marks(*target, catalog@, old(mark)@, path),
        is_chain(catalog@, path.push(u as int)),
        depends_on(*target, catalog@, path.push(u as int)[0]),
        zeros(old(mark)@) <= budget,
    ensures
        search_inv(*target, catalog@, final(mark)@, final(out)@),
        final(mark)@.len() == old(mark)@.len(),
        final(mark)@[u as int] == 2,
        forall|v: int|
            0 <= v < old(mark)@.len() && v != u && old(mark)@[v] != 0
                ==> #[trigger] final(mark)@[v] == old(mark)@[v],
        forall|v: int|
            0 <= v < old(mark)@.len() && old(mark)@[v] == 0 ==> #[trigger] final(mark)@[v] == 0
                || final(mark)@[v] == 2,
        old(out)@.len() <= final(out)@.len(),
        forall|q: int| 0 <= q < old(out)@.len() ==> #[trigger] final(out)@[q] == old(out)@[q],
        forall|q: int|
            old(out)@.len() <= q < final(out)@.len() ==> leads_to(
                catalog@,
                path.push(u as int)[0],
                #[trigger] final(out)@[q] as int,
            ),
    decreases budget,
{
    let ghost mark0 = mark@;
    let ghost out0 = out@;
    proof {
        lemma_zeros_open(mark@, u as int);
    }
    mark.set(u, 1);
    let ghost here = path.push(u as int);
    assert(here[path.len() as int] == u as int);
    assert(here.contains(u as int));
    assert forall|v: int| 0 <= v < catalog@.len() implies (#[trigger] mark@[v] == 1 <==> (
    is_target(*target, catalog@, v) || here.contains(v))) by {
        if v != u {
            assert(path.contains(v) <==> here.contains(v)) by {
                if here.contains(v) {
                    let k = choose|k: int| 0 <= k < here.len() && here[k] == v;
                    assert(path[k] == v);
                }
                if path.contains(v) {
                    let k = choose|k: int| 0 <= k < path.len() && path[k] == v;
                    assert(here[k] == v);
                }
            }
        }
    }
    let deps = &catalog.packages[u].latest.dependencies;
    let mut d: usize = 0;
    while d < deps.len()
        invariant
            deps == &catalog@[u as int].latest.dependencies,
            u < catalog@.len(),
            here == path.push(u as int),
            is_chain(catalog@, here),
            depends_on(*target, catalog@, here[0]),
            search_inv(*target, catalog@, mark@, out@),
            mark@[u as int] == 1,
            open_marks(*target, catalog@, mark@, here),
            mark@.len() == mark0.len(),
            forall|v: int|
                0 <= v < mark0.len() && v != u && mark0[v] != 0 ==> #[trigger] mark@[v]
                    == mark0[v],
            forall|v: int|
                0 <= v < mark0.len() && v != u && mark0[v] == 0 ==> #[trigger] mark@[v] == 0
                    || mark@[v] == 2,
            out0.len() <= out@.len(),
            forall|q: int| 0 <= q < out0.len() ==> #[trigger] out@[q] == out0[q],
            forall|q: int|
                out0.len() <= q < out@.len() ==> leads_to(catalog@, here[0], #[trigger] out@[q] as int),
            zeros(mark@) + 1 <= budget,
            d <= deps@.len(),
            forall|k: int, v: int|
                0 <= k < d && #[trigger] resolves_to(deps@[k]@, catalog@, v) ==> mark@[v] != 0,
        decreases deps@.len() - d,
    {
        let c = sole_candidate(&deps[d], catalog);
        match c {
            Some(v) => {
                if mark[v] == 0 {
                    let ghost before = mark@;
                    let ghost out_before = out@;
                    proof {
                        assert(depends_on(catalog@[u as int], catalog@, v as int)) by {
                            assert(resolves_to(deps@[d as int]@, catalog@, v as int));
                        }
                        let next = here.push(v as int);
                        assert(next.drop_last() == here);
                        assert forall|i: int| 0 <= i < next.len() - 1 implies #[trigger] depends_on(
                            catalog@[next[i]],
                            catalog@,
                            next[i + 1],
                        ) by {
                            if i < here.len() - 1 {
                                assert(next[i] == here[i] && next[i + 1] == here[i + 1]);
                            }
                        }
                        assert(next[0] == here[0]);
                    }
                    visit(v, target, catalog, mark, out, Ghost(here), budget - 1);
                    proof {
                        lemma_zeros_mono(before, mark@);
                        assert(here.push(v as int)[0] == here[0]);
                        assert forall|q: int| out0.len() <= q < out@.len() implies leads_to(
                            catalog@,
                            here[0],
                            #[trigger] out@[q] as int,
                        ) by {
                            if q < out_before.len() {
                                assert(out@[q] == out_before[q]);
                            }
                        }
                    }
                }
            },
            None => {},
        }
        proof {
            assert forall|k: int, w: int|
                0 <= k < d + 1 && #[trigger] resolves_to(deps@[k]@, catalog@, w) implies mark@[w]
                != 0 by {
                if k == d {
                    match c {
                        Some(v) => lemma_resolves_unique(deps@[k]@, catalog@, v as int, w),
                        None => {},
                    }
                }
            }
        }
        d = d + 1;
    }
    let ghost mark1 = mark@;
    let ghost out1 = out@;
    mark.set(u, 2);
    out.push(u);
    proof {
        let p = out1.len() as int;
        assert(out@[p] == u);
        assert forall|q: int| 0 <= q < out1.len() implies #[trigger] out@[q] == out1[q] by {}
        assert(is_chain(catalog@, here) && here.last() == u);
        assert(leads_to(catalog@, here[0], u as int));
        assert forall|q: int| out0.len() <= q < out@.len() implies leads_to(
            catalog@,
            path.push(u as int)[0],
            #[trigger] out@[q] as int,
        ) by {
            if q < p {
                assert(out@[q] == out1[q]);
            }
        }
        assert forall|v: int| 0 <= v < catalog@.len() implies (#[trigger] mark@[v] == 2 <==> exists|
            q: int,
        | 0 <= q < out@.len() && out@[q] == v) by {
            if v == u {
                assert(out@[p] == v);
            } else {
                if exists|q: int| 0 <= q < out@.len() && out@[q] == v {
                    let q = choose|q: int| 0 <= q < out@.len() && out@[q] == v;
                    assert(q < p);
                    assert(out1[q] == v);
                }
                if mark@[v] == 2 {
                    assert(mark1[v] == 2);
                    let q = choose|q: int| 0 <= q < out1.len() && out1[q] == v;
                    assert(out@[q] == v);
                }
            }
        }
        assert forall|q1: int, q2: int|
            0 <= q1 < q2 < out@.len() implies (#[trigger] out@[q1]) != (#[trigger] out@[q2]) by {
            if q2 == p {
                assert(out1[q1] == out@[q1]);
                if out1[q1] == u {
                    assert(mark1[u as int] == 2);
                }
            } else {
                assert(out1[q1] == out@[q1] && out1[q2] == out@[q2]);
            }
        }
        assert(!is_target(*target, catalog@, u as int)) by {
            if is_target(*target, catalog@, u as int) {
                assert(mark0[u as int] == 1);
            }
        }
        assert(from_target(*target, catalog@, u as int)) by {
            assert(is_chain(catalog@, here) && here.last() == u);
        }
        assert forall|q: int| 0 <= q < out@.len() implies !is_target(
            *target,
            catalog@,
            #[trigger] out@[q] as int,
        ) && from_target(*target, catalog@, out@[q] as int) by {
            if q < p {
                assert(out@[q] == out1[q]);
            }
        }
        assert forall|pp: int, v: int|
            0 <= pp < out@.len() && #[trigger] depends_on(
                catalog@[out@[pp] as int],
                catalog@,
                v,
            ) implies placed_now(*target, catalog@, out@, mark@, pp, v) by {
            if pp < p {
                assert(out@[pp] == out1[pp]);
                assert(placed_now(*target, catalog@, out1, mark1, pp, v));
                if exists|q: int| 0 <= q < pp && out1[q] == v {
                    let q = choose|q: int| 0 <= q < pp && out1[q] == v;
                    assert(out@[q] == v);
                } else if exists|q: int|
                    pp <= q < out1.len() && out1[q] == v && leads_to(catalog@, v, out1[pp] as int) {
                    let q = choose|q: int|
                        pp <= q < out1.len() && out1[q] == v && leads_to(
                            catalog@,
                            v,
                            out1[pp] as int,
                        );
                    assert(out@[q] == v);
                } else if !is_target(*target, catalog@, v) {
                    assert(mark1[v] == 1 && leads_to(catalog@, v, out1[pp] as int));
                    if v == u {
                        assert(out@[p] == v);
                    }
                }
            } else {
                assert(pp == p);
                let w = choose|k: int|
                    0 <= k < deps@.len() && resolves_to(
                        (#[trigger] deps@[k])@,
                        catalog@,
                        v,
                    );
                assert(mark1[v] != 0);
                if v == u {
                    let s = seq![u as int];
                    assert(is_chain(catalog@, s));
                    assert(leads_to(catalog@, v, out@[pp] as int));
                    assert(out@[p] == v);
                } else if mark1[v] == 2 {
                    let q = choose|q: int| 0 <= q < out1.len() && out1[q] == v;
                    assert(out@[q] == v);
                } else if !is_target(*target, catalog@, v) {
                    assert(here.contains(v));
                    let k = choose|k: int| 0 <= k < here.len() && here[k] == v;
                    lemma_chain_suffix(catalog@, here, k);
                    let s = here.subrange(k, here.len() as int);
                    assert(s[0] == v && s.last() == u);
                    assert(leads_to(catalog@, v, out@[pp] as int));
                    assert(mark@[v] == 1);
                }
            }
        }
    }
}

/// Every package that `target` needs, directly or through other packages,
/// as catalog positions in dependency-first order.
///
/// Each position appears once and the target's own position never does.
/// Every package the target depends on is there, and so is every package
/// that one of them depends on, and each entry is reached from the target
/// through a chain of dependencies. A dependency of an entry stands before
/// it, unless it is the target or it leads back to the entry: there the
/// dependency closes a cycle, which is broken by placing it after.
/// Entries are grouped by the dependency of the target through which they
/// were first reached, and the groups follow the target's dependency list,
/// so each package keeps the place where it was first seen.
pub fn resolve_all(target: &Package, catalog: &Catalog) -> (r: Vec<usize>)
    ensures
        forall|q: int|
            0 <= q < r@.len() ==> (#[trigger] r@[q]) < catalog@.len() && !is_target(
                *target,
                catalog@,
                r@[q] as int,
            ),
        forall|q1: int, q2: int| 0 <= q1 < q2 < r@.len() ==> (#[trigger] r@[q1]) != (#[trigger] r@[q2]),
        forall|v: int|
            #[trigger] depends_on(*target, catalog@, v) && !is_target(*target, catalog@, v)
                ==> exists|q: int| 0 <= q < r@.len() && r@[q] == v,
        forall|q: int| 0 <= q < r@.len() ==> from_target(*target, catalog@, #[trigger] r@[q] as int),
        forall|p: int, v: int|
            0 <= p < r@.len() && #[trigger] depends_on(catalog@[r@[p] as int], catalog@, v)
                ==> placed(*target, catalog@, r@, p, v),
        exists|groups: Seq<int>| #[trigger] grouped_by_dependency(*target, catalog@, r@, groups),
{
    let n = catalog.packages.len();
    let mut mark: Vec<u8> = Vec::new();
    let mut i: usize = 0;
    while i < n
        invariant
            n == catalog@.len(),
            i <= n,
            mark@.len() == i,
            forall|v: int|
                0 <= v < i ==> (#[trigger] mark@[v] == 1 <==> is_target(*target, catalog@, v)),
            forall|v: int| 0 <= v < i ==> (#[trigger] mark@[v] == 0 || mark@[v] == 1),
        decreases n - i,
    {
        if catalog.packages[i].full_name == target.full_name {
            mark.push(1);
        } else {
            mark.push(0);
        }
        i = i + 1;
    }
    let mut out: Vec<usize> = Vec::new();
    let ghost empty = Seq::<int>::empty();
    assert(open_marks(*target, catalog@, mark@, empty));
    let deps = &target.latest.dependencies;
    let ghost mut groups = Seq::<int>::empty();
    let mut d: usize = 0;
    while d < deps.len()
        invariant
            deps == &target.latest.dependencies,
            n == catalog@.len(),
            groups.len() == out@.len(),
            forall|q1: int, q2: int|
                0 <= q1 <= q2 < out@.len() ==> (#[trigger] groups[q1]) <= (#[trigger] groups[q2]),
            forall|q: int|
                0 <= q < out@.len() ==> 0 <= #[trigger] groups[q] < d && reached_from_dep(
                    *target,
                    catalog@,
                    groups[q],
                    out@[q] as int,
                ),
            forall|k: int, q: int|
                0 <= k < d && 0 <= q < out@.len() && #[trigger] resolves_to(
                    deps@[k]@,
                    catalog@,
                    #[trigger] out@[q] as int,
                ) ==> groups[q] <= k,
            search_inv(*target, catalog@, mark@, out@),
            open_marks(*target, catalog@, mark@, empty),
            empty == Seq::<int>::empty(),
            d <= deps@.len(),
            forall|k: int, v: int|
                0 <= k < d && #[trigger] resolves_to(deps@[k]@, catalog@, v) ==> mark@[v] != 0,
        decreases deps@.len() - d,
    {
        let c = sole_candidate(&deps[d], catalog);
        let ghost mark_before = mark@;
        let ghost out_before = out@;
        match c {
            Some(v) => {
                if mark[v] == 0 {
                    proof {
                        lemma_zeros_le_len(mark@);
                        let s = seq![v as int];
                        assert(empty.push(v as int) =~= s);
                        assert(is_chain(catalog@, s));
                        assert(depends_on(*target, catalog@, v as int)) by {
                            assert(resolves_to(deps@[d as int]@, catalog@, v as int));
                        }
                    }
                    visit(v, target, catalog, &mut mark, &mut out, Ghost(empty), n);
                }
            },
            None => {},
        }
        proof {
            assert forall|k: int, w: int|
                0 <= k < d + 1 && #[trigger] resolves_to(deps@[k]@, catalog@, w) implies mark@[w]
                != 0 by {
                if k == d {
                    match c {
                        Some(v) => lemma_resolves_unique(deps@[k]@, catalog@, v as int, w),
                        None => {},
                    }
                }
            }
            let added = (out@.len() - out_before.len()) as nat;
            let g0 = groups;
            groups = g0 + Seq::new(added, |i: int| d as int);
            assert forall|q: int| 0 <= q < out_before.len() implies #[trigger] out@[q]
                == out_before[q] by {}
            assert forall|q: int| out_before.len() <= q < out@.len() implies mark_before[
                #[trigger] out@[q] as int] == 0 by {
                let w = out@[q] as int;
                if mark_before[w] == 2 {
                    let q0 = choose|q0: int| 0 <= q0 < out_before.len() && out_before[q0] == w;
                    assert(out@[q0] == out@[q]);
                } else if mark_before[w] == 1 {
                    assert(!empty.contains(w));
                    assert(is_target(*target, catalog@, w));
                }
            }
            assert forall|q: int| out_before.len() <= q < out@.len() implies reached_from_dep(
                *target,
                catalog@,
                d as int,
                #[trigger] out@[q] as int,
            ) by {
                let v = c->Some_0;
                assert(resolves_to(deps@[d as int]@, catalog@, v as int));
                assert(empty.push(v as int)[0] == v as int);
            }
            assert forall|q1: int, q2: int|
                0 <= q1 <= q2 < out@.len() implies (#[trigger] groups[q1]) <= (
                #[trigger] groups[q2]) by {
                if q2 < out_before.len() {
                    assert(groups[q1] == g0[q1] && groups[q2] == g0[q2]);
                } else if q1 < out_before.len() {
                    assert(groups[q1] == g0[q1]);
                }
            }
            assert forall|q: int| 0 <= q < out@.len() implies 0 <= #[trigger] groups[q] < d + 1
                && reached_from_dep(*target, catalog@, groups[q], out@[q] as int) by {
                if q < out_before.len() {
                    assert(groups[q] == g0[q]);
                    assert(out@[q] == out_before[q]);
                }
            }
            assert forall|k: int, q: int|
                0 <= k < d + 1 && 0 <= q < out@.len() && #[trigger] resolves_to(
                    deps@[k]@,
                    catalog@,
                    #[trigger] out@[q] as int,
                ) implies groups[q] <= k by {
                if q < out_before.len() {
                    assert(groups[q] == g0[q]);
                    assert(out@[q] == out_before[q]);
                    if k == d {
                        assert(g0[q] < d);
                    }
                } else {
                    assert(mark_before[out@[q] as int] == 0);
                    if k < d {
                        assert(mark_before[out@[q] as int] != 0);
                    }
                }
            }
        }
        d = d + 1;
    }
    proof {
        assert forall|p: int, v: int|
            0 <= p < out@.len() && #[trigger] depends_on(catalog@[out@[p] as int], catalog@, v)
                implies placed(*target, catalog@, out@, p, v) by {
            assert(placed_now(*target, catalog@, out@, mark@, p, v));
        }
        assert forall|v: int|
            #[trigger] depends_on(*target, catalog@, v) && !is_target(*target, catalog@, v)
                implies exists|q: int| 0 <= q < out@.len() && out@[q] == v by {
            let k = choose|k: int|
                0 <= k < deps@.len() && resolves_to((#[trigger] deps@[k])@, catalog@, v);
            assert(mark@[v] != 0);
            assert(!empty.contains(v));
            assert(mark@[v] == 2);
        }
        assert(grouped_by_dependency(*target, catalog@, out@, groups));
    }
    out
}

} // verus!
