use cargo_resolver::resolver::{
    locked_yanked, resolve, Candidate, Dependency, Registry, ResolveError, TargetedDependency,
};
use cargo_resolver::platform::{CfgExpr, EdgeKind, Platform, Target};
use cargo_resolver::version::{Comparator, Op, Version, VersionReq};

fn ver(major: u64, minor: u64, patch: u64) -> Version {
    Version::new(major, minor, patch)
}

fn cmp(op: Op, v: Version) -> Comparator {
    Comparator { op, version: v }
}

fn dep(package: usize, comparators: Vec<Comparator>) -> Dependency {
    Dependency { package, req: VersionReq::new(comparators) }
}

fn plain(v: Version, deps: Vec<Dependency>) -> Candidate {
    Candidate { version: v, yanked: false, deps }
}

// Package 0 is A, package 1 is B.
fn a_needs_b() -> Registry {
    let mut reg = Registry::new(2);
    let range = vec![cmp(Op::GreaterEq, ver(1, 0, 0)), cmp(Op::Less, ver(2, 0, 0))];
    assert!(reg.add_version(0, plain(ver(1, 0, 0), vec![dep(1, range)])));
    assert!(reg.add_version(1, plain(ver(1, 0, 0), vec![])));
    assert!(reg.add_version(1, plain(ver(1, 5, 0), vec![])));
    assert!(reg.add_version(1, plain(ver(2, 0, 0), vec![])));
    reg
}

fn version_of(reg: &Registry, pkg: usize, a: &Vec<Option<usize>>) -> Version {
    reg.packages[pkg][a[pkg].unwrap()].version
}

#[test]
fn registry_keeps_newest_first() {
    let reg = a_needs_b();
    let vs: Vec<u64> = reg.packages[1].iter().map(|c| c.version.minor + 10 * c.version.major).collect();
    assert_eq!(vs, vec![20, 15, 10]);
}

#[test]
fn registry_refuses_duplicate_and_unknown_package() {
    let mut reg = a_needs_b();
    assert!(!reg.add_version(1, plain(ver(1, 5, 0), vec![])));
    assert!(!reg.add_version(7, plain(ver(1, 0, 0), vec![])));
    assert_eq!(reg.packages[1].len(), 3);
}

#[test]
fn picks_newest_matching_without_lock() {
    let reg = a_needs_b();
    let roots = vec![dep(0, vec![cmp(Op::Caret, ver(1, 0, 0))])];
    let a = resolve(&reg, &roots, &vec![]).unwrap();
    let b = version_of(&reg, 1, &a);
    assert_eq!((b.major, b.minor, b.patch), (1, 5, 0));
}

#[test]
fn keeps_compatible_locked_version() {
    let reg = a_needs_b();
    let roots = vec![dep(0, vec![cmp(Op::Caret, ver(1, 0, 0))])];
    // B 1.0.0 is the last candidate, newest first.
    let lock = vec![None, Some(2)];
    let a = resolve(&reg, &roots, &lock).unwrap();
    let b = version_of(&reg, 1, &a);
    assert_eq!((b.major, b.minor, b.patch), (1, 0, 0));
}

#[test]
fn relocking_a_result_gives_it_back() {
    let reg = a_needs_b();
    let roots = vec![dep(0, vec![cmp(Op::Caret, ver(1, 0, 0))])];
    let first = resolve(&reg, &roots, &vec![]).unwrap();
    let second = resolve(&reg, &roots, &first).unwrap();
    assert_eq!(first, second);
}

#[test]
fn incompatible_lock_is_dropped() {
    let reg = a_needs_b();
    let roots = vec![dep(0, vec![cmp(Op::Caret, ver(1, 0, 0))])];
    // B 2.0.0 no longer meets A's range.
    let lock = vec![None, Some(0)];
    let a = resolve(&reg, &roots, &lock).unwrap();
    let b = version_of(&reg, 1, &a);
    assert_eq!((b.major, b.minor), (1, 5));
}

#[test]
fn yanked_skipped_unless_locked() {
    let mut reg = Registry::new(1);
    assert!(reg.add_version(0, plain(ver(1, 0, 0), vec![])));
    assert!(reg.add_version(0, Candidate { version: ver(1, 1, 0), yanked: true, deps: vec![] }));
    let roots = vec![dep(0, vec![cmp(Op::Caret, ver(1, 0, 0))])];
    let a = resolve(&reg, &roots, &vec![]).unwrap();
    assert_eq!(a, vec![Some(1)]);
    let b = resolve(&reg, &roots, &vec![Some(0)]).unwrap();
    assert_eq!(b, vec![Some(0)]);
}

#[test]
fn pre_release_needs_exact_request() {
    let mut reg = Registry::new(1);
    assert!(reg.add_version(0, plain(ver(1, 0, 0), vec![])));
    let pre = Version { major: 1, minor: 1, patch: 0, pre: Some(1) };
    assert!(reg.add_version(0, plain(pre, vec![])));
    let loose = vec![dep(0, vec![cmp(Op::Caret, ver(1, 0, 0))])];
    assert_eq!(resolve(&reg, &loose, &vec![]).unwrap(), vec![Some(1)]);
    let exact = vec![dep(0, vec![cmp(Op::Exact, pre)])];
    assert_eq!(resolve(&reg, &exact, &vec![]).unwrap(), vec![Some(0)]);
}

#[test]
fn backtracks_to_older_candidate() {
    // Root needs 0 and 1; 0's newest wants 1 at ^2, which does not exist.
    let mut reg = Registry::new(2);
    assert!(reg.add_version(0, plain(ver(1, 0, 0), vec![dep(1, vec![cmp(Op::Caret, ver(1, 0, 0))])])));
    assert!(reg.add_version(0, plain(ver(1, 1, 0), vec![dep(1, vec![cmp(Op::Caret, ver(2, 0, 0))])])));
    assert!(reg.add_version(1, plain(ver(1, 3, 0), vec![])));
    let roots = vec![dep(0, vec![cmp(Op::Caret, ver(1, 0, 0))])];
    let a = resolve(&reg, &roots, &vec![]).unwrap();
    assert_eq!(a, vec![Some(1), Some(0)]);
}

#[test]
fn conflicting_requirers_are_named() {
    // A = 0 and D = 1 are roots; both need C = 2.
    let mut reg = Registry::new(3);
    assert!(reg.add_version(0, plain(ver(1, 0, 0), vec![dep(2, vec![cmp(Op::Caret, ver(1, 0, 0))])])));
    assert!(reg.add_version(1, plain(ver(1, 0, 0), vec![dep(2, vec![cmp(Op::Caret, ver(2, 0, 0))])])));
    assert!(reg.add_version(2, plain(ver(1, 2, 0), vec![])));
    assert!(reg.add_version(2, plain(ver(2, 1, 0), vec![])));
    let roots = vec![
        dep(0, vec![cmp(Op::Caret, ver(1, 0, 0))]),
        dep(1, vec![cmp(Op::Caret, ver(1, 0, 0))]),
    ];
    match resolve(&reg, &roots, &vec![]) {
        Err(ResolveError::NoVersionSatisfies(cf)) => {
            assert_eq!(cf.package, 2);
            let requirers: Vec<Option<(usize, usize)>> = cf.chain.iter().map(|q| q.requirer).collect();
            assert_eq!(requirers, vec![Some((0, 0)), Some((1, 0))]);
            let majors: Vec<u64> = cf
                .chain
                .iter()
                .map(|q| {
                    let (p, c) = q.requirer.unwrap();
                    reg.packages[p][c].deps[q.index].req.comparators[0].version.major
                })
                .collect();
            assert_eq!(majors, vec![1, 2]);
        }
        other => panic!("expected a conflict, got {:?}", other),
    }
}

#[test]
fn missing_package_fails() {
    let reg = Registry::new(1);
    let roots = vec![dep(0, vec![cmp(Op::Caret, ver(1, 0, 0))])];
    match resolve(&reg, &roots, &vec![]) {
        Err(ResolveError::NoVersionSatisfies(cf)) => assert_eq!(cf.package, 0),
        other => panic!("expected a conflict, got {:?}", other),
    }
}

#[test]
fn no_roots_resolve_to_nothing() {
    let reg = a_needs_b();
    assert_eq!(resolve(&reg, &vec![], &vec![]).unwrap(), vec![None, None]);
}

#[test]
fn platform_limited_requirements_are_dropped() {
    let linux = Target { triple: 1, cfg: vec![(10, 11)] };
    let windows = Target { triple: 2, cfg: vec![(10, 12)] };
    let only_windows = || Some(Platform::Cfg(CfgExpr::Predicate(10, 12)));
    let deps = vec![
        TargetedDependency { dep: dep(1, vec![]), kind: EdgeKind::Normal, platform: only_windows() },
        TargetedDependency { dep: dep(2, vec![]), kind: EdgeKind::Normal, platform: None },
        TargetedDependency { dep: dep(3, vec![]), kind: EdgeKind::Build, platform: only_windows() },
    ];
    let c = Candidate::for_targets(ver(1, 0, 0), false, deps, &linux, &vec![windows]);
    let kept: Vec<usize> = c.deps.iter().map(|d| d.package).collect();
    assert_eq!(kept, vec![1, 2]);
}

#[test]
fn yanked_locks_are_listed() {
    let mut reg = Registry::new(2);
    assert!(reg.add_version(0, Candidate { version: ver(1, 0, 0), yanked: true, deps: vec![] }));
    assert!(reg.add_version(1, Candidate { version: ver(1, 0, 0), yanked: true, deps: vec![] }));
    assert!(reg.add_version(1, plain(ver(1, 1, 0), vec![])));
    // Package 1's lock pins 1.1.0, which is not yanked; index 9 is out of range.
    assert_eq!(locked_yanked(&reg, &vec![Some(0), Some(0), Some(9)]), vec![0]);
    assert_eq!(locked_yanked(&reg, &vec![Some(0), Some(1)]), vec![0, 1]);
    assert_eq!(locked_yanked(&reg, &vec![]), Vec::<usize>::new());
}
