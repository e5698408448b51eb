use cargo_resolver::platform::{applies, CfgExpr, EdgeKind, Platform, Target};

const OS: u32 = 1;
const LINUX: u32 = 2;
const WINDOWS: u32 = 3;
const ARCH: u32 = 4;
const X86_64: u32 = 5;

fn linux() -> Target {
    Target { triple: 100, cfg: vec![(OS, LINUX), (ARCH, X86_64)] }
}

fn windows() -> Target {
    Target { triple: 200, cfg: vec![(OS, WINDOWS), (ARCH, X86_64)] }
}

fn pred(k: u32, v: u32) -> CfgExpr {
    CfgExpr::Predicate(k, v)
}

#[test]
fn cfg_expressions_evaluate() {
    let t = linux();
    assert!(pred(OS, LINUX).eval_on(&t));
    assert!(!pred(OS, WINDOWS).eval_on(&t));
    assert!(CfgExpr::Any(vec![pred(OS, WINDOWS), pred(ARCH, X86_64)]).eval_on(&t));
    assert!(!CfgExpr::All(vec![pred(OS, WINDOWS), pred(ARCH, X86_64)]).eval_on(&t));
    assert!(CfgExpr::Not(Box::new(pred(OS, WINDOWS))).eval_on(&t));
    assert!(!CfgExpr::Any(vec![]).eval_on(&t));
    assert!(CfgExpr::All(vec![]).eval_on(&t));
}

#[test]
fn platform_by_name_or_cfg() {
    assert!(Platform::Name(100).matches(&linux()));
    assert!(!Platform::Name(100).matches(&windows()));
    assert!(Platform::Cfg(pred(OS, WINDOWS)).matches(&windows()));
}

#[test]
fn edge_kept_when_any_target_matches() {
    let cond = Some(Platform::Cfg(pred(OS, WINDOWS)));
    let host = linux();
    assert!(!applies(&cond, &host, &vec![linux()], EdgeKind::Normal));
    assert!(applies(&cond, &host, &vec![linux(), windows()], EdgeKind::Normal));
    assert!(applies(&cond, &host, &vec![windows()], EdgeKind::Development));
    assert!(applies(&None, &host, &vec![], EdgeKind::Normal));
}

#[test]
fn build_edges_use_the_host() {
    let cond = Some(Platform::Cfg(pred(OS, WINDOWS)));
    assert!(!applies(&cond, &linux(), &vec![windows()], EdgeKind::Build));
    assert!(applies(&cond, &windows(), &vec![linux()], EdgeKind::Build));
}
