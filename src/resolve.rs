//! Dependency resolution: each dependency identifier names the one catalog
//! package whose `full_name` starts it; identifiers that fit no package, or
//! more than one, are left out.
use crate::catalog::Catalog;
use crate::package::Package;
use crate::text::{chars_of, is_prefix, starts_with};
use vstd::prelude::*;

verus! {

/// `p` fits dependency identifier `dep`: `dep` starts with its `full_name`.
pub open spec fn dep_matches(dep: Seq<char>, p: Package) -> bool {
    is_prefix(p.full_name@, dep)
}

/// The catalog packages that fit `dep`, in catalog order.
pub open spec fn candidates(dep: Seq<char>, cat: Seq<Package>) -> Seq<Package> {
    cat.filter(|p: Package| dep_matches(dep, p))
}

/// What `dep` resolves to: its candidate when it has exactly one, else
/// nothing.
pub open spec fn dep_target(dep: Seq<char>, cat: Seq<Package>) -> Seq<Package> {
    if candidates(dep, cat).len() == 1 {
        candidates(dep, cat)
    } else {
        seq![]
    }
}

/// The packages that the dependency list `deps` resolves to, in the order
/// of `deps`.
pub open spec fn resolution(deps: Seq<String>, cat: Seq<Package>) -> Seq<Package>
    decreases deps.len(),
{
    if deps.len() == 0 {
        seq![]
    } else {
        resolution(deps.drop_last(), cat) + dep_target(deps.last()@, cat)
    }
}

/// Dependency identifier `dep` resolves to catalog position `v`: the
/// package there is the only one that fits it.
pub open spec fn resolves_to(dep: Seq<char>, cat: Seq<Package>, v: int) -> bool {
    &&& 0 <= v < cat.len()
    &&& dep_matches(dep, cat[v])
    &&& forall|j: int| 0 <= j < cat.len() && j != v ==> !dep_matches(dep, #[trigger] cat[j])
}

/// The packages at positions `ks` of `cat`.
pub open spec fn at_positions(cat: Seq<Package>, ks: Seq<usize>) -> Seq<Package> {
    ks.map_values(|k: usize| cat[k as int])
}

proof fn lemma_candidates_step(dep: Seq<char>, cat: Seq<Package>, i: int)
    requires
        0 <= i < cat.len(),
    ensures
        candidates(dep, cat.subrange(0, i + 1)) == if dep_matches(dep, cat[i]) {
            candidates(dep, cat.subrange(0, i)).push(cat[i])
        } else {
            candidates(dep, cat.subrange(0, i))
        },
{
    let s = cat.subrange(0, i + 1);
    assert(s.drop_last() =~= cat.subrange(0, i));
    reveal(Seq::filter);
}

proof fn lemma_resolution_concat(a: Seq<String>, b: Seq<String>, cat: Seq<Package>)
    ensures
        resolution(a + b, cat) == resolution(a, cat) + resolution(b, cat),
    decreases b.len(),
{
    if b.len() == 0 {
        assert(a + b =~= a);
        assert(resolution(a, cat) + resolution(b, cat) =~= resolution(a, cat));
    } else {
        assert((a + b).drop_last() =~= a + b.drop_last());
        assert((a + b).last() == b.last());
        lemma_resolution_concat(a, b.drop_last(), cat);
        assert(resolution(a, cat) + resolution(b.drop_last(), cat) + dep_target(b.last()@, cat)
            =~= resolution(a, cat) + (resolution(b.drop_last(), cat) + dep_target(
            b.last()@,
            cat,
        )));
    }
}

proof fn lemma_two_candidates(dep: Seq<char>, cat: Seq<Package>, i: int, j: int)
    requires
        0 <= i < j < cat.len(),
        dep_matches(dep, cat[i]),
        dep_matches(dep, cat[j]),
    ensures
        candidates(dep, cat).len() >= 2,
    decreases cat.len(),
{
    reveal(Seq::filter);
    let front = cat.drop_last();
    assert(front[i] == cat[i]);
    if j == cat.len() - 1 {
        front.lemma_filter_contains(|p: Package| dep_matches(dep, p), i);
        assert(candidates(dep, front).contains(cat[i]));
    } else {
        assert(front[j] == cat[j]);
        lemma_two_candidates(dep, front, i, j);
    }
}

/// Determinism: two resolutions of one target against one catalog give the
/// same packages in the same order.
pub proof fn lemma_resolution_deterministic(
    target: Package,
    cat: Seq<Package>,
    r1: Seq<usize>,
    r2: Seq<usize>,
)
    requires
        at_positions(cat, r1) == resolution(target.latest.dependencies@, cat),
        at_positions(cat, r2) == resolution(target.latest.dependencies@, cat),
    ensures
        at_positions(cat, r1) == at_positions(cat, r2),
{
}

/// Ambiguity: a dependency identifier that two catalog packages both fit
/// resolves to nothing, and the resolution is the same as if it were not
/// listed.
pub proof fn lemma_ambiguous_dependency_dropped(
    deps: Seq<String>,
    cat: Seq<Package>,
    k: int,
    i: int,
    j: int,
)
    requires
        0 <= k < deps.len(),
        0 <= i < cat.len(),
        0 <= j < cat.len(),
        i != j,
        dep_matches(deps[k]@, cat[i]),
        dep_matches(deps[k]@, cat[j]),
    ensures
        dep_target(deps[k]@, cat) == Seq::<Package>::empty(),
        resolution(deps, cat) == resolution(deps.remove(k), cat),
{
    if i < j {
        lemma_two_candidates(deps[k]@, cat, i, j);
    } else {
        lemma_two_candidates(deps[k]@, cat, j, i);
    }
    let front = deps.subrange(0, k);
    let back = deps.subrange(k + 1, deps.len() as int);
    let one = seq![deps[k]];
    assert(deps =~= front + one + back);
    assert(deps.remove(k) =~= front + back);
    assert(one.drop_last() =~= Seq::<String>::empty());
    assert(one.last() == deps[k]);
    assert(resolution(one.drop_last(), cat) == Seq::<Package>::empty());
    assert(resolution(one, cat) =~= Seq::<Package>::empty());
    lemma_resolution_concat(front + one, back, cat);
    lemma_resolution_concat(front, one, cat);
    lemma_resolution_concat(front, back, cat);
    assert(resolution(front, cat) + resolution(one, cat) =~= resolution(front, cat));
}

/// The position of the one catalog package that fits `dep`, if exactly one
/// does.
pub(crate) fn sole_candidate(dep: &String, catalog: &Catalog) -> (r: Option<usize>)
    ensures
        match r {
            Some(k) => k < catalog@.len() && dep_target(dep@, catalog@) == seq![catalog@[k as int]]
                && resolves_to(dep@, catalog@, k as int),
            None => dep_target(dep@, catalog@) == Seq::<Package>::empty() && forall|v: int|
                !resolves_to(dep@, catalog@, v),
        },
{
    let d = chars_of(dep.as_str());
    let n = catalog.packages.len();
    let mut count: usize = 0;
    let mut found: usize = 0;
    let mut second: usize = 0;
    let mut i: usize = 0;
    while i < n
        invariant
            d@ == dep@,
            n == catalog@.len(),
            i <= n,
            count as int == candidates(dep@, catalog@.subrange(0, i as int)).len(),
            count <= i,
            count >= 1 ==> found < i && candidates(dep@, catalog@.subrange(0, i as int))[0]
                == catalog@[found as int],
            count == 0 ==> forall|j: int| 0 <= j < i ==> !dep_matches(dep@, #[trigger] catalog@[j]),
            count >= 1 ==> dep_matches(dep@, catalog@[found as int]),
            count == 1 ==> forall|j: int|
                0 <= j < i && j != found ==> !dep_matches(dep@, #[trigger] catalog@[j]),
            count >= 2 ==> second < i && second != found && dep_matches(
                dep@,
                catalog@[second as int],
            ),
        decreases n - i,
    {
        proof {
            lemma_candidates_step(dep@, catalog@, i as int);
        }
        if starts_with(&d, catalog.packages[i].full_name.as_str()) {
            if count == 0 {
                found = i;
            } else if count == 1 {
                second = i;
            }
            count = count + 1;
        }
        i = i + 1;
    }
    assert(catalog@.subrange(0, n as int) =~= catalog@);
    if count == 1 {
        assert(candidates(dep@, catalog@) =~= seq![catalog@[found as int]]);
        Some(found)
    } else {
        assert forall|v: int| !resolves_to(dep@, catalog@, v) by {
            if count >= 2 && v != found as int {
                assert(!dep_matches(dep@, catalog@[found as int]) || !resolves_to(dep@, catalog@, v));
            }
            if count >= 2 && v == found as int {
                assert(!dep_matches(dep@, catalog@[second as int]) || !resolves_to(dep@, catalog@, v));
            }
        }
        None
    }
}

/// The catalog positions of the packages to fetch before `target`: for
/// each of its dependency identifiers in order, the one package that fits
/// it. Only the target's own dependency list is read.
pub fn resolve(target: &Package, catalog: &Catalog) -> (r: Vec<usize>)
    ensures
        forall|i: int| 0 <= i < r@.len() ==> (#[trigger] r@[i]) < catalog@.len(),
        at_positions(catalog@, r@) == resolution(target.latest.dependencies@, catalog@),
{
    let deps = &target.latest.dependencies;
    let mut r: Vec<usize> = Vec::new();
    let mut i: usize = 0;
    while i < deps.len()
        invariant
            deps == &target.latest.dependencies,
            i <= deps@.len(),
            forall|j: int| 0 <= j < r@.len() ==> (#[trigger] r@[j]) < catalog@.len(),
            at_positions(catalog@, r@) == resolution(deps@.subrange(0, i as int), catalog@),
        decreases deps@.len() - i,
    {
        let ghost before = r@;
        proof {
            let s = deps@.subrange(0, i + 1);
            assert(s.drop_last() =~= deps@.subrange(0, i as int));
        }
        match sole_candidate(&deps[i], catalog) {
            Some(k) => {
                r.push(k);
                assert(at_positions(catalog@, r@) =~= at_positions(catalog@, before).push(
                    catalog@[k as int],
                ));
                assert(at_positions(catalog@, r@) =~= resolution(
                    deps@.subrange(0, i + 1),
                    catalog@,
                ));
            },
            None => {
                assert(at_positions(catalog@, r@) =~= resolution(
                    deps@.subrange(0, i + 1),
                    catalog@,
                ));
            },
        }
        i = i + 1;
    }
    assert(deps@.subrange(0, deps@.len() as int) =~= deps@);
    r
}

} // verus!
