use vstd::prelude::*;

use crate::platform::{applies, applies_spec, EdgeKind, Platform, Target};
use crate::version::{req_matches, same_version, version_lt, Version, VersionReq};

verus! {

/// A requirement on the package with index `package` in the registry.
#[derive(Debug)]
pub struct Dependency {
    pub package: usize,
    pub req: VersionReq,
}

/// A requirement as a manifest declares it: with its kind and the platform
/// it is limited to.
#[derive(Debug)]
pub struct TargetedDependency {
    pub dep: Dependency,
    pub kind: EdgeKind,
    pub platform: Option<Platform>,
}

/// The requirements among `ts` whose platform applies to `host` and
/// `targets` for their kind, in order.
pub open spec fn applicable(ts: Seq<TargetedDependency>, host: Target, targets: Seq<Target>) -> Seq<
    Dependency,
>
    decreases ts.len(),
{
    if ts.len() == 0 {
        Seq::empty()
    } else {
        let rest = applicable(ts.drop_last(), host, targets);
        if applies_spec(ts.last().platform, host, targets, ts.last().kind) {
            rest.push(ts.last().dep)
        } else {
            rest
        }
    }
}

/// Keeps the requirements that apply when building on `host` for
/// `targets`; the others never become obligations.
pub fn retain_applicable(ts: Vec<TargetedDependency>, host: &Target, targets: &Vec<Target>) -> (r: Vec<
    Dependency,
>)
    ensures
        r@ == applicable(ts@, *host, targets@),
{
    let ghost all = ts@;
    let n = ts.len();
    let mut rest = ts;
    let mut out: Vec<Dependency> = Vec::new();
    let mut i: usize = 0;
    while rest.len() > 0
        invariant
            i + rest@.len() == all.len(),
            all.len() == n,
            rest@ == all.skip(i as int),
            out@ == applicable(all.take(i as int), *host, targets@),
        decreases rest@.len(),
    {
        let t = rest.remove(0);
        proof {
            assert(t == all[i as int]);
            assert(all.take(i + 1).drop_last() =~= all.take(i as int));
            assert(rest@ =~= all.skip(i + 1));
        }
        if applies(&t.platform, host, targets, t.kind) {
            out.push(t.dep);
        }
        i = i + 1;
    }
    assert(all.take(i as int) =~= all);
    out
}

/// One published version of a package, with the requirements it declares.
#[derive(Debug)]
pub struct Candidate {
    pub version: Version,
    pub yanked: bool,
    pub deps: Vec<Dependency>,
}

/// Memoised registry data: for each package index, its candidates, newest
/// first.
#[derive(Debug)]
pub struct Registry {
    pub packages: Vec<Vec<Candidate>>,
}

/// Who demands a requirement: a root (`None`), or candidate `c` of package `p`
/// (`Some((p, c))`); `index` picks the requirement in that list.
#[derive(Clone, Copy, Debug)]
pub struct Requirement {
    pub requirer: Option<(usize, usize)>,
    pub index: usize,
}

/// The package on which the search found no consistent candidate, and the
/// requirements implicated there.
#[derive(Debug)]
pub struct Conflict {
    pub package: usize,
    pub chain: Vec<Requirement>,
}

#[derive(Debug)]
pub enum ResolveError {
    NoVersionSatisfies(Conflict),
}

pub open spec fn n_packages(reg: Registry) -> int {
    reg.packages@.len() as int
}

pub open spec fn cand(reg: Registry, p: int, c: int) -> Candidate {
    reg.packages@[p]@[c]
}

pub open spec fn deps_of(reg: Registry, p: int, c: int) -> Seq<Dependency> {
    cand(reg, p, c).deps@
}

/// Candidate `c` of package `p` exists, and is not yanked unless the lock
/// hint pins it.
pub open spec fn allowed(reg: Registry, lock: Seq<Option<usize>>, p: int, c: int) -> bool {
    &&& 0 <= p < n_packages(reg)
    &&& 0 <= c < reg.packages@[p]@.len()
    &&& (!cand(reg, p, c).yanked || (p < lock.len() && lock[p] == Some(c as usize)))
}

/// The candidate assigned to the dependency's package satisfies its predicate.
pub open spec fn satisfied(reg: Registry, a: Seq<Option<usize>>, d: Dependency) -> bool {
    &&& d.package < a.len()
    &&& d.package < n_packages(reg)
    &&& match a[d.package as int] {
        Some(c) => c < reg.packages@[d.package as int]@.len() && req_matches(
            d.req.comparators@,
            cand(reg, d.package as int, c as int).version,
        ),
        None => false,
    }
}

pub open spec fn assigned_allowed(
    reg: Registry,
    lock: Seq<Option<usize>>,
    a: Seq<Option<usize>>,
) -> bool {
    &&& a.len() == n_packages(reg)
    &&& forall|p: int|
        0 <= p < a.len() && #[trigger] a[p] is Some ==> allowed(reg, lock, p, a[p]->Some_0 as int)
}

pub open spec fn roots_satisfied(reg: Registry, roots: Seq<Dependency>, a: Seq<Option<usize>>) -> bool {
    forall|i: int| 0 <= i < roots.len() ==> satisfied(reg, a, #[trigger] roots[i])
}

pub open spec fn deps_satisfied(reg: Registry, a: Seq<Option<usize>>) -> bool {
    forall|p: int, j: int|
        0 <= p < a.len() && a[p] is Some && 0 <= j < deps_of(reg, p, a[p]->Some_0 as int).len()
            ==> #[trigger] satisfied(reg, a, deps_of(reg, p, a[p]->Some_0 as int)[j])
}

/// A complete answer: `a[p]` is the candidate chosen for package `p`, if any.
/// Every chosen candidate is allowed, and every requirement of a root or of a
/// chosen candidate is met by the candidate chosen for its package.
pub open spec fn valid(
    reg: Registry,
    roots: Seq<Dependency>,
    lock: Seq<Option<usize>>,
    a: Seq<Option<usize>>,
) -> bool {
    &&& assigned_allowed(reg, lock, a)
    &&& roots_satisfied(reg, roots, a)
    &&& deps_satisfied(reg, a)
}

/// `s` keeps every choice that `a` made.
pub open spec fn extends(s: Seq<Option<usize>>, a: Seq<Option<usize>>) -> bool {
    &&& s.len() == a.len()
    &&& forall|p: int| 0 <= p < a.len() && #[trigger] a[p] is Some ==> s[p] == a[p]
}

/// Where `s` and `r` both choose for a package, they choose alike.
pub open spec fn overlap_agrees(s: Seq<Option<usize>>, r: Seq<Option<usize>>) -> bool {
    forall|p: int|
        0 <= p < r.len() && #[trigger] r[p] is Some && p < s.len() && s[p] is Some ==> s[p] == r[p]
}

/// `s` chooses for every package that `r` chooses for.
pub open spec fn covers(s: Seq<Option<usize>>, r: Seq<Option<usize>>) -> bool {
    forall|p: int| 0 <= p < r.len() && #[trigger] r[p] is Some ==> p < s.len() && s[p] is Some
}

/// `r` picks no package that it could leave out: every choice list that
/// keeps `a`'s choices, meets every requirement in force, and agrees with
/// `r` where both choose, chooses for every package that `r` does.
pub open spec fn minimal_over(
    reg: Registry,
    roots: Seq<Dependency>,
    a: Seq<Option<usize>>,
    r: Seq<Option<usize>>,
) -> bool {
    forall|s: Seq<Option<usize>>|
        extends(s, a) && roots_satisfied(reg, roots, s) && deps_satisfied(reg, s) && #[trigger] overlap_agrees(
            s,
            r,
        ) ==> covers(s, r)
}

/// `r` picks no package that it could leave out (see `minimal_over`), from
/// no earlier choice.
pub open spec fn minimal(reg: Registry, roots: Seq<Dependency>, r: Seq<Option<usize>>) -> bool {
    forall|s: Seq<Option<usize>>|
        s.len() == r.len() && roots_satisfied(reg, roots, s) && deps_satisfied(reg, s)
            && #[trigger] overlap_agrees(s, r) ==> covers(s, r)
}

/// Every choice that `b` makes, `h` makes too.
pub open spec fn agrees(b: Seq<Option<usize>>, h: Seq<Option<usize>>) -> bool {
    forall|p: int| 0 <= p < b.len() && #[trigger] b[p] is Some ==> p < h.len() && h[p] == b[p]
}

/// The requirement that `q` points at, when it stands in range.
pub open spec fn requirement_dep(reg: Registry, roots: Seq<Dependency>, q: Requirement) -> Dependency {
    match q.requirer {
        None => roots[q.index as int],
        Some((p, c)) => deps_of(reg, p as int, c as int)[q.index as int],
    }
}

/// `q` points at a requirement of a root or of some candidate in the registry.
pub open spec fn genuine(reg: Registry, roots: Seq<Dependency>, q: Requirement) -> bool {
    match q.requirer {
        None => q.index < roots.len(),
        Some((p, c)) => p < n_packages(reg) && c < reg.packages@[p as int]@.len() && q.index
            < deps_of(reg, p as int, c as int).len(),
    }
}

/// `q` is a requirement in force under `a`: a root's, or one of a chosen
/// candidate's.
pub open spec fn in_force(
    reg: Registry,
    roots: Seq<Dependency>,
    a: Seq<Option<usize>>,
    q: Requirement,
) -> bool {
    &&& genuine(reg, roots, q)
    &&& match q.requirer {
        None => true,
        Some((p, c)) => p < a.len() && a[p as int] == Some(c),
    }
}

pub open spec fn unassigned(a: Seq<Option<usize>>) -> nat
    decreases a.len(),
{
    if a.len() == 0 {
        0
    } else {
        unassigned(a.drop_last()) + if a.last() is None {
            1nat
        } else {
            0nat
        }
    }
}

/// No valid answer extends `a` with candidate `c` for package `p`.
pub open spec fn excluded(
    reg: Registry,
    roots: Seq<Dependency>,
    lock: Seq<Option<usize>>,
    a: Seq<Option<usize>>,
    p: int,
    c: int,
) -> bool {
    forall|s: Seq<Option<usize>>|
        extends(s, a) && #[trigger] s[p] == Some(c as usize) ==> !valid(reg, roots, lock, s)
}

proof fn lemma_unassigned_update(a: Seq<Option<usize>>, p: int, x: usize)
    requires
        0 <= p < a.len(),
        a[p] is None,
    ensures
        unassigned(a.update(p, Some(x))) + 1 == unassigned(a),
    decreases a.len(),
{
    let b = a.update(p, Some(x));
    if p == a.len() - 1 {
        assert(b.drop_last() =~= a.drop_last());
    } else {
        lemma_unassigned_update(a.drop_last(), p, x);
        assert(b.drop_last() =~= a.drop_last().update(p, Some(x)));
    }
}

fn is_satisfied(reg: &Registry, a: &Vec<Option<usize>>, d: &Dependency) -> (r: bool)
    ensures
        r == satisfied(*reg, a@, *d),
{
    if d.package >= a.len() || d.package >= reg.packages.len() {
        return false;
    }
    match a[d.package] {
        Some(c) => c < reg.packages[d.package].len() && d.req.matches(
            &reg.packages[d.package][c].version,
        ),
        None => false,
    }
}

/// The first requirement in force under `a` that its package's chosen
/// candidate does not meet: roots first, then packages in index order.
fn first_unsatisfied(reg: &Registry, roots: &Vec<Dependency>, a: &Vec<Option<usize>>) -> (r:
    Option<Requirement>)
    requires
        a@.len() == n_packages(*reg),
        forall|p: int|
            0 <= p < a@.len() && #[trigger] a@[p] is Some ==> (a@[p]->Some_0 as int)
                < reg.packages@[p]@.len(),
    ensures
        r is None ==> roots_satisfied(*reg, roots@, a@) && deps_satisfied(*reg, a@),
        r is Some ==> in_force(*reg, roots@, a@, r->Some_0) && !satisfied(
            *reg,
            a@,
            requirement_dep(*reg, roots@, r->Some_0),
        ),
{
    let mut i: usize = 0;
    while i < roots.len()
        invariant
            i <= roots@.len(),
            forall|k: int| 0 <= k < i ==> satisfied(*reg, a@, #[trigger] roots@[k]),
        decreases roots@.len() - i,
    {
        if !is_satisfied(reg, a, &roots[i]) {
            return Some(Requirement { requirer: None, index: i });
        }
        i = i + 1;
    }
    let mut p: usize = 0;
    while p < a.len()
        invariant
            p <= a@.len(),
            a@.len() == n_packages(*reg),
            forall|q: int|
                0 <= q < a@.len() && #[trigger] a@[q] is Some ==> (a@[q]->Some_0 as int)
                    < reg.packages@[q]@.len(),
            forall|q: int, j: int|
                0 <= q < p && a@[q] is Some && 0 <= j < deps_of(*reg, q, a@[q]->Some_0 as int).len()
                    ==> #[trigger] satisfied(*reg, a@, deps_of(*reg, q, a@[q]->Some_0 as int)[j]),
        decreases a@.len() - p,
    {
        if let Some(c) = a[p] {
            assert(a@[p as int] is Some);
            assert((c as int) < reg.packages@[p as int]@.len());
            let deps = &reg.packages[p][c].deps;
            let mut j: usize = 0;
            while j < deps.len()
                invariant
                    j <= deps@.len(),
                    p < a@.len(),
                    a@.len() == n_packages(*reg),
                    (c as int) < reg.packages@[p as int]@.len(),
                    a@[p as int] == Some(c),
                    deps@ == deps_of(*reg, p as int, c as int),
                    forall|k: int| 0 <= k < j ==> #[trigger] satisfied(*reg, a@, deps@[k]),
                decreases deps@.len() - j,
            {
                if !is_satisfied(reg, a, &deps[j]) {
                    return Some(Requirement { requirer: Some((p, c)), index: j });
                }
                j = j + 1;
            }
        }
        p = p + 1;
    }
    None
}

/// Every requirement in force under `a` on package `p`.
fn requirements_on(reg: &Registry, roots: &Vec<Dependency>, a: &Vec<Option<usize>>, p: usize) -> (r:
    Vec<Requirement>)
    requires
        a@.len() == n_packages(*reg),
        forall|q: int|
            0 <= q < a@.len() && #[trigger] a@[q] is Some ==> (a@[q]->Some_0 as int)
                < reg.packages@[q]@.len(),
    ensures
        forall|k: int|
            0 <= k < r@.len() ==> in_force(*reg, roots@, a@, #[trigger] r@[k])
                && requirement_dep(*reg, roots@, r@[k]).package == p,
{
    let mut out: Vec<Requirement> = Vec::new();
    let mut i: usize = 0;
    while i < roots.len()
        invariant
            i <= roots@.len(),
            forall|k: int|
                0 <= k < out@.len() ==> in_force(*reg, roots@, a@, #[trigger] out@[k])
                    && requirement_dep(*reg, roots@, out@[k]).package == p,
        decreases roots@.len() - i,
    {
        if roots[i].package == p {
            out.push(Requirement { requirer: None, index: i });
        }
        i = i + 1;
    }
    let mut q: usize = 0;
    while q < a.len()
        invariant
            q <= a@.len(),
            a@.len() == n_packages(*reg),
            forall|x: int|
                0 <= x < a@.len() && #[trigger] a@[x] is Some ==> (a@[x]->Some_0 as int)
                    < reg.packages@[x]@.len(),
            forall|k: int|
                0 <= k < out@.len() ==> in_force(*reg, roots@, a@, #[trigger] out@[k])
                    && requirement_dep(*reg, roots@, out@[k]).package == p,
        decreases a@.len() - q,
    {
        if let Some(c) = a[q] {
            assert(a@[q as int] is Some);
            let deps = &reg.packages[q][c].deps;
            let mut j: usize = 0;
            while j < deps.len()
                invariant
                    j <= deps@.len(),
                    q < a@.len(),
                    a@.len() == n_packages(*reg),
                    (c as int) < reg.packages@[q as int]@.len(),
                    a@[q as int] == Some(c),
                    deps@ == deps_of(*reg, q as int, c as int),
                    forall|k: int|
                        0 <= k < out@.len() ==> in_force(*reg, roots@, a@, #[trigger] out@[k])
                            && requirement_dep(*reg, roots@, out@[k]).package == p,
                decreases deps@.len() - j,
            {
                if deps[j].package == p {
                    out.push(Requirement { requirer: Some((q, c)), index: j });
                }
                j = j + 1;
            }
        }
        q = q + 1;
    }
    out
}

proof fn lemma_in_force_kept(
    reg: Registry,
    roots: Seq<Dependency>,
    lock: Seq<Option<usize>>,
    a: Seq<Option<usize>>,
    s: Seq<Option<usize>>,
    q: Requirement,
)
    requires
        extends(s, a),
        in_force(reg, roots, a, q),
        roots_satisfied(reg, roots, s),
        deps_satisfied(reg, s),
    ensures
        satisfied(reg, s, requirement_dep(reg, roots, q)),
{
    match q.requirer {
        None => {
            assert(satisfied(reg, s, roots[q.index as int]));
        },
        Some((p, c)) => {
            assert(a[p as int] is Some);
            assert(s[p as int] == Some(c));
            assert(satisfied(reg, s, deps_of(reg, p as int, s[p as int]->Some_0 as int)[q.index as int]));
        },
    }
}

/// Where `q` in force wants package `p`, which `a` leaves open, a candidate
/// that is not allowed or does not meet `q` is in no valid answer.
proof fn lemma_unfit_excluded(
    reg: Registry,
    roots: Seq<Dependency>,
    lock: Seq<Option<usize>>,
    a: Seq<Option<usize>>,
    q: Requirement,
    c: int,
)
    requires
        in_force(reg, roots, a, q),
        requirement_dep(reg, roots, q).package < a.len(),
        0 <= c <= usize::MAX,
        !allowed(reg, lock, requirement_dep(reg, roots, q).package as int, c) || !req_matches(
            requirement_dep(reg, roots, q).req.comparators@,
            cand(reg, requirement_dep(reg, roots, q).package as int, c).version,
        ),
    ensures
        excluded(reg, roots, lock, a, requirement_dep(reg, roots, q).package as int, c),
{
    let p = requirement_dep(reg, roots, q).package as int;
    assert forall|s: Seq<Option<usize>>|
        extends(s, a) && #[trigger] s[p] == Some(c as usize) implies !valid(reg, roots, lock, s) by {
        if valid(reg, roots, lock, s) {
            lemma_in_force_kept(reg, roots, lock, a, s, q);
            assert(s[p] is Some);
        }
    }
}

/// Chooses candidate `c` for the open package `p` and searches on.
fn try_candidate(
    reg: &Registry,
    roots: &Vec<Dependency>,
    lock: &Vec<Option<usize>>,
    a: &mut Vec<Option<usize>>,
    p: usize,
    c: usize,
) -> (r: Result<(), Conflict>)
    requires
        assigned_allowed(*reg, lock@, old(a)@),
        p < old(a)@.len(),
        old(a)@[p as int] is None,
        allowed(*reg, lock@, p as int, c as int),
    ensures
        r is Ok ==> valid(*reg, roots@, lock@, final(a)@) && extends(final(a)@, old(a)@),
        r is Err ==> final(a)@ == old(a)@ && excluded(*reg, roots@, lock@, old(a)@, p as int, c as int),
        r is Err ==> forall|k: int|
            0 <= k < r->Err_0.chain@.len() ==> genuine(*reg, roots@, #[trigger] r->Err_0.chain@[k])
                && requirement_dep(*reg, roots@, r->Err_0.chain@[k]).package == r->Err_0.package,
        r is Ok && valid(*reg, roots@, lock@, lock@) && extends(lock@, old(a)@) && lock@[p as int]
            == Some(c) ==> agrees(final(a)@, lock@),
        r is Ok ==> final(a)@[p as int] == Some(c) && forall|s: Seq<Option<usize>>|
            extends(s, old(a)@) && #[trigger] s[p as int] == Some(c) && roots_satisfied(*reg, roots@, s)
                && deps_satisfied(*reg, s) && overlap_agrees(s, final(a)@) ==> covers(s, final(a)@),
    decreases unassigned(old(a)@), 0nat,
{
    let ghost a0 = a@;
    a.set(p, Some(c));
    proof {
        lemma_unassigned_update(a0, p as int, c);
        assert(assigned_allowed(*reg, lock@, a@)) by {
            assert forall|x: int| 0 <= x < a@.len() && #[trigger] a@[x] is Some implies allowed(
                *reg,
                lock@,
                x,
                a@[x]->Some_0 as int,
            ) by {
                if x != p {
                    assert(a0[x] is Some);
                }
            }
        }
    }
    proof {
        if valid(*reg, roots@, lock@, lock@) && extends(lock@, a0) && lock@[p as int] == Some(c) {
            assert forall|x: int| 0 <= x < a@.len() && #[trigger] a@[x] is Some implies lock@[x]
                == a@[x] by {
                if x != p {
                    assert(a0[x] is Some);
                }
            }
        }
    }
    let r = search(reg, roots, lock, a);
    match r {
        Ok(()) => {
            proof {
                let a1 = a0.update(p as int, Some(c));
                assert forall|x: int| 0 <= x < a0.len() && #[trigger] a0[x] is Some implies a@[x]
                    == a0[x] by {
                    assert(a1[x] is Some);
                }
                assert(a1[p as int] is Some);
                assert forall|s: Seq<Option<usize>>|
                    extends(s, a0) && #[trigger] s[p as int] == Some(c) && roots_satisfied(*reg, roots@, s)
                        && deps_satisfied(*reg, s) && overlap_agrees(s, a@) implies covers(s, a@) by {
                    assert forall|x: int| 0 <= x < a1.len() && #[trigger] a1[x] is Some implies s[x]
                        == a1[x] by {
                        if x != p {
                            assert(a0[x] is Some);
                        }
                    }
                    assert(extends(s, a1));
                }
            }
            Ok(())
        },
        Err(cf) => {
            a.set(p, None);
            proof {
                assert(a@ =~= a0);
                let a1 = a0.update(p as int, Some(c));
                assert forall|s: Seq<Option<usize>>|
                    extends(s, a0) && #[trigger] s[p as int] == Some(c) implies !valid(
                        *reg,
                        roots@,
                        lock@,
                        s,
                    ) by {
                    assert forall|x: int| 0 <= x < a1.len() && #[trigger] a1[x] is Some implies s[x]
                        == a1[x] by {
                        if x != p {
                            assert(a0[x] is Some);
                        }
                    }
                    assert(extends(s, a1));
                }
            }
            Err(cf)
        },
    }
}

/// Depth-first search from the partial answer `a`: on success `a` holds a
/// valid answer that keeps its earlier choices; on failure `a` is as it was
/// and no valid answer keeps them.
fn search(
    reg: &Registry,
    roots: &Vec<Dependency>,
    lock: &Vec<Option<usize>>,
    a: &mut Vec<Option<usize>>,
) -> (r: Result<(), Conflict>)
    requires
        assigned_allowed(*reg, lock@, old(a)@),
    ensures
        r is Ok ==> valid(*reg, roots@, lock@, final(a)@) && extends(final(a)@, old(a)@),
        r is Err ==> final(a)@ == old(a)@ && forall|s: Seq<Option<usize>>|
            extends(s, old(a)@) ==> !valid(*reg, roots@, lock@, s),
        r is Err ==> forall|k: int|
            0 <= k < r->Err_0.chain@.len() ==> genuine(*reg, roots@, #[trigger] r->Err_0.chain@[k])
                && requirement_dep(*reg, roots@, r->Err_0.chain@[k]).package == r->Err_0.package,
        valid(*reg, roots@, lock@, lock@) && extends(lock@, old(a)@) ==> r is Ok && agrees(
            final(a)@,
            lock@,
        ),
        r is Ok ==> minimal_over(*reg, roots@, old(a)@, final(a)@),
    decreases unassigned(old(a)@), 1nat,
{
    let ghost a0 = a@;
    proof {
        assert forall|x: int| 0 <= x < a@.len() && #[trigger] a@[x] is Some implies (a@[x]->Some_0
            as int) < reg.packages@[x]@.len() by {
            assert(allowed(*reg, lock@, x, a@[x]->Some_0 as int));
        }
    }
    let q = match first_unsatisfied(reg, roots, a) {
        None => {
            proof {
                if valid(*reg, roots@, lock@, lock@) && extends(lock@, a0) {
                    assert forall|x: int| 0 <= x < a0.len() && #[trigger] a0[x] is Some implies x
                        < lock@.len() && lock@[x] == a0[x] by {}
                }
                assert forall|s: Seq<Option<usize>>|
                    extends(s, a0) && roots_satisfied(*reg, roots@, s) && deps_satisfied(*reg, s)
                        && #[trigger] overlap_agrees(s, a0) implies covers(s, a0) by {
                    assert forall|x: int| 0 <= x < a0.len() && #[trigger] a0[x] is Some implies x
                        < s.len() && s[x] is Some by {}
                }
            }
            return Ok(());
        },
        Some(q) => q,
    };
    let d = match q.requirer {
        None => &roots[q.index],
        Some((rp, rc)) => &reg.packages[rp][rc].deps[q.index],
    };
    assert(*d == requirement_dep(*reg, roots@, q));
    let p = d.package;
    if p >= a.len() || a[p].is_some() {
        proof {
            assert forall|s: Seq<Option<usize>>| extends(s, a0) implies !valid(
                *reg,
                roots@,
                lock@,
                s,
            ) by {
                if valid(*reg, roots@, lock@, s) {
                    lemma_in_force_kept(*reg, roots@, lock@, a0, s, q);
                    assert(a0[p as int] is Some);
                }
            }
        }
        let chain = requirements_on(reg, roots, a, p);
        return Err(Conflict { package: p, chain });
    }
    let n_c = reg.packages[p].len();
    let hint: Option<usize> = if p < lock.len() {
        lock[p]
    } else {
        None
    };
    let mut last = Conflict { package: p, chain: vec![q] };
    proof {
        if valid(*reg, roots@, lock@, lock@) && extends(lock@, a0) {
            lemma_in_force_kept(*reg, roots@, lock@, a0, lock@, q);
        }
    }
    if let Some(h) = hint {
        if h < n_c {
            if d.req.matches(&reg.packages[p][h].version) {
                match try_candidate(reg, roots, lock, a, p, h) {
                    Ok(()) => {
                        proof {
                            assert forall|s: Seq<Option<usize>>|
                                extends(s, a0) && roots_satisfied(*reg, roots@, s) && deps_satisfied(*reg, s)
                                    && #[trigger] overlap_agrees(s, a@) implies covers(s, a@) by {
                                lemma_in_force_kept(*reg, roots@, lock@, a0, s, q);
                                assert(a@[p as int] is Some);
                                assert(s[p as int] == Some(h));
                            }
                        }
                        return Ok(());
                    },
                    Err(cf) => {
                        last = cf;
                    },
                }
            } else {
                proof {
                    lemma_unfit_excluded(*reg, roots@, lock@, a0, q, h as int);
                }
            }
        }
    }
    proof {
        if valid(*reg, roots@, lock@, lock@) && extends(lock@, a0) {
            let h = hint->Some_0 as int;
            assert(excluded(*reg, roots@, lock@, a0, p as int, h));
            assert(lock@[p as int] == Some(h as usize));
        }
    }
    let mut c: usize = 0;
    while c < n_c
        invariant
            a@ == a0,
            a0 == old(a)@,
            assigned_allowed(*reg, lock@, a0),
            p < a0.len(),
            a0[p as int] is None,
            n_c == reg.packages@[p as int]@.len(),
            *d == requirement_dep(*reg, roots@, q),
            d.package == p,
            in_force(*reg, roots@, a0, q),
            hint == (if (p as int) < lock@.len() { lock@[p as int] } else { None::<usize> }),
            hint is Some && hint->Some_0 < n_c ==> excluded(
                *reg,
                roots@,
                lock@,
                a0,
                p as int,
                hint->Some_0 as int,
            ),
            forall|k: int|
                0 <= k < last.chain@.len() ==> genuine(*reg, roots@, #[trigger] last.chain@[k])
                    && requirement_dep(*reg, roots@, last.chain@[k]).package == last.package,
            forall|x: int| 0 <= x < c ==> #[trigger] excluded(*reg, roots@, lock@, a0, p as int, x),
            !(valid(*reg, roots@, lock@, lock@) && extends(lock@, a0)),
        decreases n_c - c,
    {
        let fits = d.req.matches(&reg.packages[p][c].version);
        let open = !reg.packages[p][c].yanked || hint == Some(c);
        if hint == Some(c) {
        } else if fits && open {
            match try_candidate(reg, roots, lock, a, p, c) {
                Ok(()) => {
                    proof {
                        assert forall|s: Seq<Option<usize>>|
                            extends(s, a0) && roots_satisfied(*reg, roots@, s) && deps_satisfied(*reg, s)
                                && #[trigger] overlap_agrees(s, a@) implies covers(s, a@) by {
                            lemma_in_force_kept(*reg, roots@, lock@, a0, s, q);
                            assert(a@[p as int] is Some);
                            assert(s[p as int] == Some(c));
                        }
                    }
                    return Ok(());
                },
                Err(cf) => {
                    last = cf;
                },
            }
        } else {
            proof {
                lemma_unfit_excluded(*reg, roots@, lock@, a0, q, c as int);
            }
        }
        c = c + 1;
    }
    proof {
        assert forall|s: Seq<Option<usize>>| extends(s, a0) implies !valid(*reg, roots@, lock@, s) by {
            if valid(*reg, roots@, lock@, s) {
                lemma_in_force_kept(*reg, roots@, lock@, a0, s, q);
                let x = s[p as int]->Some_0 as int;
                assert(excluded(*reg, roots@, lock@, a0, p as int, x));
            }
        }
    }
    Err(last)
}

/// Picks a candidate for every package that the roots need, directly or
/// through the candidates picked. `lock` pins a preferred candidate per
/// package: it is tried first and may be yanked; otherwise candidates are tried
/// in registry order, newest first, skipping yanked ones.
pub fn resolve(registry: &Registry, roots: &Vec<Dependency>, lock: &Vec<Option<usize>>) -> (r: Result<
    Vec<Option<usize>>,
    ResolveError,
>)
    ensures
        r is Ok <==> exists|s: Seq<Option<usize>>| valid(*registry, roots@, lock@, s),
        r is Ok ==> valid(*registry, roots@, lock@, r->Ok_0@),
        r is Ok ==> minimal(*registry, roots@, r->Ok_0@),
        r matches Err(ResolveError::NoVersionSatisfies(cf)) ==> forall|k: int|
            0 <= k < cf.chain@.len() ==> genuine(*registry, roots@, #[trigger] cf.chain@[k])
                && requirement_dep(*registry, roots@, cf.chain@[k]).package == cf.package,
        valid(*registry, roots@, lock@, lock@) ==> r is Ok && agrees(r->Ok_0@, lock@),
{
    let mut a: Vec<Option<usize>> = Vec::new();
    let n = registry.packages.len();
    while a.len() < n
        invariant
            a@.len() <= n,
            n == n_packages(*registry),
            forall|x: int| 0 <= x < a@.len() ==> #[trigger] a@[x] is None,
        decreases n - a@.len(),
    {
        a.push(None);
    }
    let ghost a0 = a@;
    assert forall|s: Seq<Option<usize>>| s.len() == a0.len() implies extends(s, a0) by {
        assert forall|x: int| 0 <= x < a0.len() && #[trigger] a0[x] is Some implies s[x] == a0[x] by {}
    }
    match search(registry, roots, lock, &mut a) {
        Ok(()) => {
            proof {
                assert forall|s: Seq<Option<usize>>|
                    s.len() == a@.len() && roots_satisfied(*registry, roots@, s) && deps_satisfied(
                        *registry,
                        s,
                    ) && #[trigger] overlap_agrees(s, a@) implies covers(s, a@) by {
                    assert(extends(s, a0));
                }
            }
            Ok(a)
        },
        Err(cf) => Err(ResolveError::NoVersionSatisfies(cf)),
    }
}

/// An answer, taken as the lock hint, is a valid answer under that hint; by
/// the contract of `resolve`, resolving again with it succeeds and keeps every
/// choice that the new answer makes.
pub proof fn lemma_answer_is_valid_lock(
    reg: Registry,
    roots: Seq<Dependency>,
    lock: Seq<Option<usize>>,
    a: Seq<Option<usize>>,
)
    requires
        valid(reg, roots, lock, a),
    ensures
        valid(reg, roots, a, a),
{
    assert forall|p: int| 0 <= p < a.len() && #[trigger] a[p] is Some implies allowed(
        reg,
        a,
        p,
        a[p]->Some_0 as int,
    ) by {
        assert(allowed(reg, lock, p, a[p]->Some_0 as int));
    }
}

/// The lock hint pins a yanked candidate of package `p`.
pub open spec fn pins_yanked(reg: Registry, lock: Seq<Option<usize>>, p: int) -> bool {
    &&& 0 <= p < lock.len()
    &&& p < n_packages(reg)
    &&& lock[p] is Some
    &&& (lock[p]->Some_0 as int) < reg.packages@[p]@.len()
    &&& cand(reg, p, lock[p]->Some_0 as int).yanked
}

/// The packages, in increasing order, whose locked version has since been
/// yanked: resolution keeps them, and the caller warns.
pub fn locked_yanked(registry: &Registry, lock: &Vec<Option<usize>>) -> (r: Vec<usize>)
    ensures
        forall|k: int| 0 <= k < r@.len() ==> pins_yanked(*registry, lock@, #[trigger] r@[k] as int),
        forall|k: int, j: int| 0 <= k < j < r@.len() ==> r@[k] < r@[j],
        forall|p: int| #[trigger] pins_yanked(*registry, lock@, p) ==> exists|k: int|
            0 <= k < r@.len() && r@[k] == p,
{
    let mut out: Vec<usize> = Vec::new();
    let mut p: usize = 0;
    while p < lock.len()
        invariant
            p <= lock@.len(),
            forall|k: int| 0 <= k < out@.len() ==> pins_yanked(*registry, lock@, #[trigger] out@[k] as int),
            forall|k: int| 0 <= k < out@.len() ==> #[trigger] out@[k] < p,
            forall|k: int, j: int| 0 <= k < j < out@.len() ==> out@[k] < out@[j],
            forall|q: int| 0 <= q < p && #[trigger] pins_yanked(*registry, lock@, q) ==> exists|k: int|
                0 <= k < out@.len() && out@[k] == q,
        decreases lock@.len() - p,
    {
        let ghost before = out@;
        if let Some(c) = lock[p] {
            if p < registry.packages.len() && c < registry.packages[p].len()
                && registry.packages[p][c].yanked {
                out.push(p);
                assert(out@[out@.len() - 1] == p);
            }
        }
        proof {
            assert forall|q: int| 0 <= q <= p && #[trigger] pins_yanked(*registry, lock@, q) implies exists|
                k: int,
            | 0 <= k < out@.len() && out@[k] == q by {
                if q < p {
                    let k = choose|k: int| 0 <= k < before.len() && before[k] == q;
                    assert(out@[k] == before[k]);
                } else {
                    assert(out@[out@.len() - 1] == p);
                }
            }
        }
        p = p + 1;
    }
    out
}

/// Resolving again with an answer as the lock hint gives that answer back:
/// `a` is what `resolve` gave under some hint, and `b` what it gives with
/// `a` as the hint (by `lemma_answer_is_valid_lock`, `resolve` then succeeds
/// and its answer agrees with `a`).
pub proof fn lemma_relock_identical(
    reg: Registry,
    roots: Seq<Dependency>,
    lock: Seq<Option<usize>>,
    a: Seq<Option<usize>>,
    b: Seq<Option<usize>>,
)
    requires
        valid(reg, roots, lock, a),
        minimal(reg, roots, a),
        valid(reg, roots, a, b),
        agrees(b, a),
    ensures
        b == a,
{
    assert(overlap_agrees(b, a));
    assert(covers(b, a));
    assert forall|p: int| 0 <= p < a.len() implies b[p] == a[p] by {
        if a[p] is Some {
            assert(b[p] is Some);
        } else if b[p] is Some {
            assert(a[p] == b[p]);
        }
    }
    assert(b =~= a);
}

/// Each package's candidates stand in strictly descending version order.
pub open spec fn newest_first(reg: Registry) -> bool {
    forall|p: int, i: int, j: int|
        0 <= p < n_packages(reg) && 0 <= i < j < reg.packages@[p]@.len() ==> version_lt(
            #[trigger] cand(reg, p, j).version,
            #[trigger] cand(reg, p, i).version,
        )
}

proof fn lemma_version_lt_transitive(a: Version, b: Version, c: Version)
    requires
        version_lt(a, b),
        version_lt(b, c),
    ensures
        version_lt(a, c),
{
}

proof fn lemma_version_lt_total(a: Version, b: Version)
    ensures
        version_lt(a, b) || version_lt(b, a) || same_version(a, b),
{
}

impl Candidate {
    /// A candidate whose requirements are those of `deps` that apply when
    /// building on `host` for `targets`.
    pub fn for_targets(
        version: Version,
        yanked: bool,
        deps: Vec<TargetedDependency>,
        host: &Target,
        targets: &Vec<Target>,
    ) -> (r: Candidate)
        ensures
            r.version == version,
            r.yanked == yanked,
            r.deps@ == applicable(deps@, *host, targets@),
    {
        Candidate { version, yanked, deps: retain_applicable(deps, host, targets) }
    }
}

impl Registry {
    /// A registry of `n` packages with no candidates yet.
    pub fn new(n: usize) -> (r: Registry)
        ensures
            n_packages(r) == n,
            forall|p: int| 0 <= p < n ==> (#[trigger] r.packages@[p])@.len() == 0,
            newest_first(r),
    {
        let mut packages: Vec<Vec<Candidate>> = Vec::new();
        while packages.len() < n
            invariant
                packages@.len() <= n,
                forall|p: int| 0 <= p < packages@.len() ==> (#[trigger] packages@[p])@.len() == 0,
            decreases n - packages@.len(),
        {
            packages.push(Vec::new());
        }
        Registry { packages }
    }

    /// Adds a candidate to package `package`, in its place among the others,
    /// newest first. Refused (`false`, nothing changed) when the package index
    /// is out of range or the version is already there.
    pub fn add_version(&mut self, package: usize, candidate: Candidate) -> (r: bool)
        requires
            newest_first(*old(self)),
        ensures
            newest_first(*final(self)),
            r == (package < n_packages(*old(self)) && forall|i: int|
                0 <= i < old(self).packages@[package as int]@.len() ==> !same_version(
                    #[trigger] cand(*old(self), package as int, i).version,
                    candidate.version,
                )),
            !r ==> *final(self) == *old(self),
            r ==> n_packages(*final(self)) == n_packages(*old(self)),
            r ==> forall|p: int|
                0 <= p < n_packages(*old(self)) && p != package ==> #[trigger] final(self).packages@[p]
                    == old(self).packages@[p],
            r ==> exists|i: int|
                0 <= i <= old(self).packages@[package as int]@.len()
                    && final(self).packages@[package as int]@
                    == old(self).packages@[package as int]@.insert(i, candidate),
    {
        if package >= self.packages.len() {
            return false;
        }
        let ghost old_reg = *self;
        let mut i: usize = 0;
        let n = self.packages[package].len();
        while i < n
            invariant
                *self == old_reg,
                package < n_packages(old_reg),
                n == old_reg.packages@[package as int]@.len(),
                i <= n,
                newest_first(old_reg),
                forall|k: int| 0 <= k < i ==> version_lt(
                    candidate.version,
                    #[trigger] cand(old_reg, package as int, k).version,
                ),
            ensures
                *self == old_reg,
                i <= n,
                forall|k: int| 0 <= k < i ==> version_lt(
                    candidate.version,
                    #[trigger] cand(old_reg, package as int, k).version,
                ),
                i < n ==> version_lt(cand(old_reg, package as int, i as int).version, candidate.version),
            decreases n - i,
        {
            let v = self.packages[package][i].version;
            if v.same(&candidate.version) {
                assert(same_version(cand(*old(self), package as int, i as int).version, candidate.version));
                return false;
            }
            if v.less_than(&candidate.version) {
                break;
            }
            proof {
                lemma_version_lt_total(v, candidate.version);
            }
            i = i + 1;
        }
        proof {
            assert forall|k: int| 0 <= k < n implies !same_version(
                #[trigger] cand(old_reg, package as int, k).version,
                candidate.version,
            ) by {
                if k >= i {
                    if k > i {
                        lemma_version_lt_transitive(
                            cand(old_reg, package as int, k).version,
                            cand(old_reg, package as int, i as int).version,
                            candidate.version,
                        );
                    }
                }
            }
        }
        let mut list = self.packages.remove(package);
        list.insert(i, candidate);
        self.packages.insert(package, list);
        proof {
            let old_list = old_reg.packages@[package as int]@;
            assert(self.packages@ =~= old_reg.packages@.update(package as int, list));
            assert forall|p: int, x: int, y: int|
                0 <= p < n_packages(*self) && 0 <= x < y < self.packages@[p]@.len() implies version_lt(
                #[trigger] cand(*self, p, y).version,
                #[trigger] cand(*self, p, x).version,
            ) by {
                if p == package {
                    let o = |k: int| cand(old_reg, p, k);
                    if y < i {
                        assert(cand(*self, p, y) == o(y));
                        assert(cand(*self, p, x) == o(x));
                    } else if y == i {
                        assert(cand(*self, p, x) == o(x));
                        assert(version_lt(candidate.version, cand(old_reg, package as int, x).version));
                    } else if x == i {
                        assert(cand(*self, p, y) == o(y - 1));
                        assert(version_lt(cand(old_reg, package as int, i as int).version, candidate.version));
                        if y - 1 > i {
                            assert(version_lt(cand(old_reg, p, y - 1).version, cand(old_reg, p, i as int).version));
                            lemma_version_lt_transitive(
                                cand(old_reg, p, y - 1).version,
                                cand(old_reg, p, i as int).version,
                                candidate.version,
                            );
                        }
                    } else if x < i {
                        assert(cand(*self, p, y) == o(y - 1));
                        assert(cand(*self, p, x) == o(x));
                        assert(version_lt(cand(old_reg, p, y - 1).version, cand(old_reg, p, x).version));
                    } else {
                        assert(cand(*self, p, y) == o(y - 1));
                        assert(cand(*self, p, x) == o(x - 1));
                        assert(version_lt(cand(old_reg, p, y - 1).version, cand(old_reg, p, x - 1).version));
                    }
                } else {
                    assert(cand(*self, p, y) == cand(old_reg, p, y));
                    assert(cand(*self, p, x) == cand(old_reg, p, x));
                }
            }
        }
        true
    }
}

} // verus!
