use cargo_resolver::feature::{
    activate, Activation, Edge, Feature, FeatureError, FeatureValue, Node, Request, Unification,
    DEFAULT_FEATURE,
};
use cargo_resolver::platform::{CfgExpr, Platform};
use std::cmp::Ordering;

// Interned names used below.
const OPTIONAL_DEP: u32 = 10;
const BASE: u32 = 11;
const EXTRA: u32 = 20;
const FEAT_X: u32 = 21;
const OTHER: u32 = 22;

fn edge(name: u32, target: usize, optional: bool) -> Edge {
    Edge { name, target, optional, default_features: true }
}

fn feature(name: u32, children: Vec<FeatureValue>) -> Feature {
    Feature::new_feature(name, None, children)
}

// Node 0 is P, node 1 is optional_dep, node 2 is base.
fn graph(extra: Vec<FeatureValue>) -> Vec<Node> {
    vec![
        Node {
            package: 0,
            features: vec![feature(EXTRA, extra)],
            edges: vec![edge(OPTIONAL_DEP, 1, true), edge(BASE, 2, false)],
        },
        Node { package: 1, features: vec![], edges: vec![] },
        Node { package: 2, features: vec![feature(FEAT_X, vec![]), feature(OTHER, vec![])], edges: vec![] },
    ]
}

fn run(g: &Vec<Node>, node: usize, value: FeatureValue) -> Result<Activation, FeatureError> {
    activate(g, &vec![Request { node, value }], Unification::PerTargetKind)
}

#[test]
fn extra_turns_on_optional_dep_and_base_feature() {
    let g = graph(vec![
        FeatureValue::Dep(OPTIONAL_DEP),
        FeatureValue::DepFeature { dep: BASE, feature: FEAT_X, weak: false },
    ]);
    let st = run(&g, 0, FeatureValue::Feature(EXTRA)).unwrap();
    assert_eq!(st.active[0], vec![true]);
    assert_eq!(st.included[0], vec![true, true]);
    assert_eq!(st.active[2], vec![true, false]);
}

#[test]
fn optional_edge_stays_out_when_not_asked() {
    let g = graph(vec![]);
    let st = activate(&g, &vec![], Unification::PerTargetKind).unwrap();
    assert_eq!(st.included[0], vec![false, true]);
    assert_eq!(st.active[0], vec![false]);
}

#[test]
fn weak_feature_waits_for_its_edge() {
    let weak = vec![FeatureValue::DepFeature { dep: OPTIONAL_DEP, feature: FEAT_X, weak: true }];
    let mut g = graph(weak);
    g[1].features.push(feature(FEAT_X, vec![]));
    let st = run(&g, 0, FeatureValue::Feature(EXTRA)).unwrap();
    assert_eq!(st.included[0], vec![false, true]);
    assert_eq!(st.active[1], vec![false]);
    // Once the edge is included for another reason, the weak feature applies.
    let both = vec![
        Request { node: 0, value: FeatureValue::Feature(EXTRA) },
        Request { node: 0, value: FeatureValue::Dep(OPTIONAL_DEP) },
    ];
    let st = activate(&g, &both, Unification::PerTargetKind).unwrap();
    assert_eq!(st.included[0], vec![true, true]);
    assert_eq!(st.active[1], vec![true]);
}

#[test]
fn default_feature_follows_edge() {
    let mut g = graph(vec![]);
    g[2].features.push(feature(DEFAULT_FEATURE, vec![FeatureValue::Feature(OTHER)]));
    let st = activate(&g, &vec![], Unification::PerTargetKind).unwrap();
    assert_eq!(st.active[2], vec![false, true, true]);
    g[0].edges[1].default_features = false;
    let st = activate(&g, &vec![], Unification::PerTargetKind).unwrap();
    assert_eq!(st.active[2], vec![false, false, false]);
}

#[test]
fn self_reference_settles() {
    let g = vec![Node {
        package: 0,
        features: vec![
            feature(EXTRA, vec![FeatureValue::Feature(OTHER)]),
            feature(OTHER, vec![FeatureValue::Feature(EXTRA)]),
        ],
        edges: vec![],
    }];
    let st = run(&g, 0, FeatureValue::Feature(OTHER)).unwrap();
    assert_eq!(st.active[0], vec![true, true]);
}

#[test]
fn undeclared_feature_is_reported() {
    let g = graph(vec![FeatureValue::DepFeature { dep: BASE, feature: 99, weak: false }]);
    match run(&g, 0, FeatureValue::Feature(EXTRA)) {
        Err(FeatureError::FeatureNotFound { node, value }) => {
            assert_eq!(node, 0);
            assert_eq!(value, FeatureValue::DepFeature { dep: BASE, feature: 99, weak: false });
        }
        other => panic!("expected FeatureNotFound, got {:?}", other),
    }
    match run(&g, 0, FeatureValue::Feature(98)) {
        Err(FeatureError::FeatureNotFound { node, value }) => {
            assert_eq!((node, value), (0, FeatureValue::Feature(98)));
        }
        other => panic!("expected FeatureNotFound, got {:?}", other),
    }
}

#[test]
fn dep_prefix_needs_optional_edge() {
    let g = graph(vec![FeatureValue::Dep(BASE)]);
    assert!(matches!(
        run(&g, 0, FeatureValue::Feature(EXTRA)),
        Err(FeatureError::FeatureNotFound { node: 0, value: FeatureValue::Dep(BASE) })
    ));
}

#[test]
fn request_on_unknown_node_is_reported() {
    let g = graph(vec![]);
    assert!(matches!(
        run(&g, 5, FeatureValue::Feature(EXTRA)),
        Err(FeatureError::FeatureNotFound { node: 5, .. })
    ));
}

#[test]
fn activation_repeats_exactly() {
    let g = graph(vec![FeatureValue::Dep(OPTIONAL_DEP)]);
    let a = run(&g, 0, FeatureValue::Feature(EXTRA)).unwrap();
    let b = run(&g, 0, FeatureValue::Feature(EXTRA)).unwrap();
    assert_eq!(a.active, b.active);
    assert_eq!(a.included, b.included);
}

#[test]
fn feature_accessors() {
    let f = Feature::new_feature(
        EXTRA,
        Some(Platform::Cfg(CfgExpr::Predicate(1, 2))),
        vec![FeatureValue::new(FEAT_X), FeatureValue::Dep(BASE)],
    );
    assert_eq!(f.name(), FeatureValue::Feature(EXTRA));
    assert!(matches!(f.platform(), Some(Platform::Cfg(CfgExpr::Predicate(1, 2)))));
    assert_eq!(f.children_values(), &vec![FeatureValue::Feature(FEAT_X), FeatureValue::Dep(BASE)]);
    assert!(!f.is_dep());
    let d = Feature { name: FeatureValue::Dep(BASE), child_feature_values: vec![], platform: None };
    assert!(d.is_dep());
    assert!(d.platform().is_none());
    assert!(FeatureValue::Dep(1).has_dep_prefix());
    assert!(!FeatureValue::new(1).has_dep_prefix());
}

#[test]
fn features_order_by_name() {
    let a = feature(EXTRA, vec![]);
    let b = feature(FEAT_X, vec![FeatureValue::Dep(BASE)]);
    let d = Feature { name: FeatureValue::Dep(1), child_feature_values: vec![], platform: None };
    assert_eq!(a.compare(&b), Ordering::Less);
    assert_eq!(b.compare(&a), Ordering::Greater);
    assert_eq!(a.compare(&feature(EXTRA, vec![FeatureValue::Feature(OTHER)])), Ordering::Equal);
    assert_eq!(b.compare(&d), Ordering::Less);
    let strong = FeatureValue::DepFeature { dep: 1, feature: 2, weak: false };
    let weak = FeatureValue::DepFeature { dep: 1, feature: 2, weak: true };
    assert!(strong.less_than(&weak));
    assert!(!weak.less_than(&strong));
}

#[test]
fn unified_mode_shares_features_across_target_kinds() {
    // Nodes 0 and 1 are one package built for the host and for the target.
    let one_package = || {
        vec![
            Node { package: 7, features: vec![feature(EXTRA, vec![]), feature(OTHER, vec![])], edges: vec![] },
            Node { package: 7, features: vec![feature(EXTRA, vec![]), feature(OTHER, vec![])], edges: vec![] },
        ]
    };
    let g = one_package();
    let req = vec![Request { node: 0, value: FeatureValue::Feature(EXTRA) }];
    let apart = activate(&g, &req, Unification::PerTargetKind).unwrap();
    assert_eq!(apart.active, vec![vec![true, false], vec![false, false]]);
    let shared = activate(&g, &req, Unification::Unified).unwrap();
    assert_eq!(shared.active, vec![vec![true, false], vec![true, false]]);
}
