use cargo_resolver::version::{Comparator, Op, Version, VersionReq};

fn ver(major: u64, minor: u64, patch: u64) -> Version {
    Version::new(major, minor, patch)
}

fn one(op: Op, v: Version) -> VersionReq {
    VersionReq::new(vec![Comparator { op, version: v }])
}

#[test]
fn ordering_of_versions() {
    assert!(ver(1, 2, 3).less_than(&ver(1, 10, 0)));
    assert!(!ver(2, 0, 0).less_than(&ver(1, 99, 99)));
    let pre = Version { major: 1, minor: 0, patch: 0, pre: Some(2) };
    assert!(pre.less_than(&ver(1, 0, 0)));
    assert!(Version { pre: Some(1), ..pre }.less_than(&pre));
    assert!(ver(1, 0, 0).same(&ver(1, 0, 0)));
    assert!(!pre.same(&ver(1, 0, 0)));
}

#[test]
fn caret_ranges() {
    let r = one(Op::Caret, ver(1, 2, 3));
    assert!(r.matches(&ver(1, 2, 3)));
    assert!(r.matches(&ver(1, 9, 0)));
    assert!(!r.matches(&ver(2, 0, 0)));
    assert!(!r.matches(&ver(1, 2, 2)));
    let z = one(Op::Caret, ver(0, 2, 3));
    assert!(z.matches(&ver(0, 2, 9)));
    assert!(!z.matches(&ver(0, 3, 0)));
    let zz = one(Op::Caret, ver(0, 0, 3));
    assert!(zz.matches(&ver(0, 0, 3)));
    assert!(!zz.matches(&ver(0, 0, 4)));
}

#[test]
fn tilde_and_bounds() {
    let t = one(Op::Tilde, ver(1, 2, 0));
    assert!(t.matches(&ver(1, 2, 7)));
    assert!(!t.matches(&ver(1, 3, 0)));
    let range = VersionReq::new(vec![
        Comparator { op: Op::GreaterEq, version: ver(1, 0, 0) },
        Comparator { op: Op::Less, version: ver(2, 0, 0) },
    ]);
    assert!(range.matches(&ver(1, 5, 0)));
    assert!(!range.matches(&ver(2, 0, 0)));
    assert!(!range.matches(&ver(0, 9, 0)));
    assert!(one(Op::Greater, ver(1, 0, 0)).matches(&ver(1, 0, 1)));
    assert!(!one(Op::Greater, ver(1, 0, 0)).matches(&ver(1, 0, 0)));
    assert!(one(Op::LessEq, ver(1, 0, 0)).matches(&ver(1, 0, 0)));
    assert!(one(Op::Exact, ver(1, 0, 0)).matches(&ver(1, 0, 0)));
    assert!(!one(Op::Exact, ver(1, 0, 0)).matches(&ver(1, 0, 1)));
}

#[test]
fn pre_release_only_when_named() {
    let pre = Version { major: 1, minor: 3, patch: 0, pre: Some(1) };
    assert!(!one(Op::Caret, ver(1, 0, 0)).matches(&pre));
    assert!(one(Op::Exact, pre).matches(&pre));
    assert!(VersionReq::new(vec![]).matches(&ver(3, 0, 0)));
    assert!(!VersionReq::new(vec![]).matches(&pre));
}
