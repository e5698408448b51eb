use cargo_resolver::lockfile::{parse, preference, serialize, FormatError, Pin};
use cargo_resolver::resolver::{resolve, Candidate, Dependency, Registry};
use cargo_resolver::version::{Comparator, Op, Version, VersionReq};

fn ver(major: u64, minor: u64, patch: u64) -> Version {
    Version::new(major, minor, patch)
}

fn caret(package: usize, v: Version) -> Dependency {
    Dependency { package, req: VersionReq::new(vec![Comparator { op: Op::Caret, version: v }]) }
}

fn plain(v: Version, deps: Vec<Dependency>) -> Candidate {
    Candidate { version: v, yanked: false, deps }
}

fn small_registry() -> Registry {
    let mut reg = Registry::new(3);
    assert!(reg.add_version(0, plain(ver(1, 2, 3), vec![caret(2, ver(0, 4, 0))])));
    assert!(reg.add_version(1, plain(ver(9, 9, 9), vec![])));
    assert!(reg.add_version(2, plain(ver(0, 4, 1), vec![])));
    assert!(reg.add_version(2, plain(Version { major: 0, minor: 4, patch: 2, pre: Some(10) }, vec![])));
    reg
}

fn same(a: &Version, b: &Version) -> bool {
    a.same(b)
}

#[test]
fn serialize_exact_text() {
    let reg = small_registry();
    let text = serialize(&reg, &vec![Some(0), None, None]);
    let expected = "lock v1\n0000000000000000 0000000000000001.0000000000000002.0000000000000003\n";
    assert_eq!(String::from_utf8(text).unwrap(), expected);
}

#[test]
fn serialize_pre_release_and_order() {
    let reg = small_registry();
    // Package 2's newest is the pre-release 0.4.2-10, at index 0.
    let text = serialize(&reg, &vec![Some(0), None, Some(0)]);
    let expected = "lock v1\n\
        0000000000000000 0000000000000001.0000000000000002.0000000000000003\n\
        0000000000000002 0000000000000000.0000000000000004.0000000000000002-000000000000000a\n";
    assert_eq!(String::from_utf8(text).unwrap(), expected);
}

#[test]
fn parse_reads_back_what_serialize_wrote() {
    let reg = small_registry();
    let answer = vec![Some(0), Some(0), Some(0)];
    let text = serialize(&reg, &answer);
    let pins = parse(&text).unwrap();
    assert_eq!(pins.len(), 3);
    for (p, pin) in pins.iter().enumerate() {
        assert_eq!(pin.package, p);
        assert!(same(&pin.version, &reg.packages[p][0].version));
    }
    assert_eq!(serialize(&reg, &answer), text);
}

#[test]
fn parse_rejects_bad_text() {
    let reg = small_registry();
    let good = serialize(&reg, &vec![Some(0), None, None]);
    let mut truncated = good.clone();
    truncated.pop();
    assert!(matches!(parse(&truncated), Err(FormatError::Malformed)));
    let mut wrong_marker = good.clone();
    wrong_marker[6] = b'2';
    assert!(matches!(parse(&wrong_marker), Err(FormatError::Malformed)));
    let mut upper = good.clone();
    upper[8] = b'A';
    assert!(matches!(parse(&upper), Err(FormatError::Malformed)));
    assert!(matches!(parse(&b"".to_vec()), Err(FormatError::Malformed)));
    assert_eq!(parse(&b"lock v1\n".to_vec()).unwrap().len(), 0);
}

#[test]
fn preference_maps_versions_to_candidates() {
    let reg = small_registry();
    let pins = vec![
        Pin { package: 2, version: ver(0, 4, 1) },
        Pin { package: 1, version: ver(1, 0, 0) },
        Pin { package: 7, version: ver(1, 0, 0) },
    ];
    assert_eq!(preference(&reg, &pins), vec![None, None, Some(1)]);
}

#[test]
fn re_resolving_from_lockfile_is_stable() {
    let reg = small_registry();
    let roots = vec![caret(0, ver(1, 0, 0))];
    // Pin package 2 to its release 0.4.1 rather than the pre-release.
    let first = resolve(&reg, &roots, &vec![None, None, Some(1)]).unwrap();
    let text = serialize(&reg, &first);
    let lock = preference(&reg, &parse(&text).unwrap());
    assert_eq!(lock, first);
    let second = resolve(&reg, &roots, &lock).unwrap();
    assert_eq!(second, first);
    assert_eq!(serialize(&reg, &second), text);
}
