use vstd::prelude::*;

use crate::platform::Platform;

verus! {

/// The interned name of the feature that an edge turns on in its target
/// unless it asks for no default features.
pub const DEFAULT_FEATURE: u32 = 0;

/// One thing a feature turns on. Names are interned ids.
#[derive(Clone, Copy, Debug, PartialEq, Eq, Structural)]
pub enum FeatureValue {
    /// Another feature of the same package.
    Feature(u32),
    /// The optional dependency edge of that name (`dep:name`).
    Dep(u32),
    /// A feature of a dependency (`dep/feature`); a weak one (`dep?/feature`)
    /// takes effect only where the edge is included for another reason.
    DepFeature { dep: u32, feature: u32, weak: bool },
}

impl FeatureValue {
    pub fn new(name: u32) -> (r: FeatureValue)
        ensures
            r == FeatureValue::Feature(name),
    {
        FeatureValue::Feature(name)
    }

    /// Whether the value names an optional dependency (`dep:`).
    pub fn has_dep_prefix(&self) -> (r: bool)
        ensures
            r == (*self is Dep),
    {
        matches!(self, FeatureValue::Dep(_))
    }
}

/// A feature declared in a manifest: its name, what it turns on, and the
/// platform it is limited to (`None` for every platform).
#[derive(Debug)]
pub struct Feature {
    pub name: FeatureValue,
    pub child_feature_values: Vec<FeatureValue>,
    pub platform: Option<Platform>,
}

impl Feature {
    pub fn new_feature(name: u32, platform: Option<Platform>, children: Vec<FeatureValue>) -> (r:
        Feature)
        ensures
            r.name == FeatureValue::Feature(name),
            r.platform == platform,
            r.child_feature_values@ == children@,
    {
        Feature { name: FeatureValue::new(name), platform, child_feature_values: children }
    }

    pub fn name(&self) -> (r: FeatureValue)
        ensures
            r == self.name,
    {
        self.name
    }

    /// `None`: built for all platforms; otherwise only for the one given.
    pub fn platform(&self) -> (r: Option<&Platform>)
        ensures
            r == match self.platform {
                Some(p) => Some(&p),
                None => None::<&Platform>,
            },
    {
        match &self.platform {
            Some(p) => Some(p),
            None => None,
        }
    }

    pub fn children_values(&self) -> (r: &Vec<FeatureValue>)
        ensures
            r@ == self.child_feature_values@,
    {
        &self.child_feature_values
    }

    pub fn is_dep(&self) -> (r: bool)
        ensures
            r == (self.name is Dep),
    {
        self.name.has_dep_prefix()
    }
}

pub open spec fn value_rank(v: FeatureValue) -> int {
    match v {
        FeatureValue::Feature(_) => 0,
        FeatureValue::Dep(_) => 1,
        FeatureValue::DepFeature { .. } => 2,
    }
}

/// Feature values in order: by kind (feature, `dep:`, `dep/feature`), then by
/// their names, a strong `dep/feature` before a weak one.
pub open spec fn value_lt(a: FeatureValue, b: FeatureValue) -> bool {
    if value_rank(a) != value_rank(b) {
        value_rank(a) < value_rank(b)
    } else {
        match (a, b) {
            (FeatureValue::Feature(x), FeatureValue::Feature(y)) => x < y,
            (FeatureValue::Dep(x), FeatureValue::Dep(y)) => x < y,
            (
                FeatureValue::DepFeature { dep: d1, feature: f1, weak: w1 },
                FeatureValue::DepFeature { dep: d2, feature: f2, weak: w2 },
            ) => d1 < d2 || (d1 == d2 && (f1 < f2 || (f1 == f2 && !w1 && w2))),
            _ => false,
        }
    }
}

impl FeatureValue {
    pub fn less_than(&self, other: &FeatureValue) -> (r: bool)
        ensures
            r == value_lt(*self, *other),
    {
        match (self, other) {
            (FeatureValue::Feature(x), FeatureValue::Feature(y)) => *x < *y,
            (FeatureValue::Dep(x), FeatureValue::Dep(y)) => *x < *y,
            (
                FeatureValue::DepFeature { dep: d1, feature: f1, weak: w1 },
                FeatureValue::DepFeature { dep: d2, feature: f2, weak: w2 },
            ) => *d1 < *d2 || (*d1 == *d2 && (*f1 < *f2 || (*f1 == *f2 && !*w1 && *w2))),
            (FeatureValue::Feature(_), _) => true,
            (FeatureValue::Dep(_), FeatureValue::DepFeature { .. }) => true,
            _ => false,
        }
    }
}

impl Feature {
    /// Features order by name alone.
    pub fn compare(&self, other: &Feature) -> (r: core::cmp::Ordering)
        ensures
            r == core::cmp::Ordering::Less <==> value_lt(self.name, other.name),
            r == core::cmp::Ordering::Greater <==> value_lt(other.name, self.name),
            r == core::cmp::Ordering::Equal <==> self.name == other.name,
    {
        if self.name.less_than(&other.name) {
            core::cmp::Ordering::Less
        } else if other.name.less_than(&self.name) {
            core::cmp::Ordering::Greater
        } else {
            core::cmp::Ordering::Equal
        }
    }
}

/// An edge of the resolved graph from a package to node `target`, under the
/// dependency name `name`.
#[derive(Clone, Copy, Debug)]
pub struct Edge {
    pub name: u32,
    pub target: usize,
    pub optional: bool,
    pub default_features: bool,
}

/// A resolved package under one target kind: the package it is, its
/// declared features and its outgoing edges. Nodes of one package under
/// different target kinds share `package`.
#[derive(Debug)]
pub struct Node {
    pub package: usize,
    pub features: Vec<Feature>,
    pub edges: Vec<Edge>,
}

/// Whether a package's features are activated apart for each target kind it
/// is built for, or as one set over the whole graph.
#[derive(Clone, Copy, Debug)]
pub enum Unification {
    PerTargetKind,
    Unified,
}

/// A feature value asked for on a node from outside (the command line, or a
/// root's default features).
#[derive(Clone, Copy, Debug)]
pub struct Request {
    pub node: usize,
    pub value: FeatureValue,
}

/// For each node, which of its features are active and which of its edges
/// are included, by index.
#[derive(Debug)]
pub struct Activation {
    pub active: Vec<Vec<bool>>,
    pub included: Vec<Vec<bool>>,
}

#[derive(Debug)]
pub enum FeatureError {
    FeatureNotFound { node: usize, value: FeatureValue },
    CycleDetected,
}

pub open spec fn graph_wf(g: Seq<Node>) -> bool {
    forall|n: int, e: int|
        0 <= n < g.len() && 0 <= e < g[n].edges@.len() ==> #[trigger] g[n].edges@[e].target < g.len()
}

pub open spec fn shaped(g: Seq<Node>, st: Activation) -> bool {
    &&& st.active@.len() == g.len()
    &&& st.included@.len() == g.len()
    &&& forall|n: int| 0 <= n < g.len() ==> (#[trigger] st.active@[n])@.len() == g[n].features@.len()
    &&& forall|n: int| 0 <= n < g.len() ==> (#[trigger] st.included@[n])@.len() == g[n].edges@.len()
}

pub open spec fn declares(g: Seq<Node>, n: int, id: u32) -> bool {
    exists|i: int| 0 <= i < g[n].features@.len() && #[trigger] g[n].features@[i].name == FeatureValue::Feature(id)
}

pub open spec fn feature_on(g: Seq<Node>, st: Activation, n: int, id: u32) -> bool {
    exists|i: int|
        0 <= i < g[n].features@.len() && #[trigger] g[n].features@[i].name == FeatureValue::Feature(id)
            && st.active@[n]@[i]
}

pub open spec fn included(st: Activation, n: int, e: int) -> bool {
    st.included@[n]@[e]
}

/// The value `v`, turned on at node `n`, is in effect under `st`.
pub open spec fn value_holds(g: Seq<Node>, st: Activation, n: int, v: FeatureValue) -> bool {
    match v {
        FeatureValue::Feature(id) => feature_on(g, st, n, id),
        FeatureValue::Dep(d) => exists|e: int|
            0 <= e < g[n].edges@.len() && #[trigger] g[n].edges@[e].name == d && g[n].edges@[e].optional
                && included(st, n, e),
        FeatureValue::DepFeature { dep, feature, weak } => exists|e: int|
            0 <= e < g[n].edges@.len() && #[trigger] g[n].edges@[e].name == dep && (!weak ==> included(
                st,
                n,
                e,
            )) && (included(st, n, e) ==> feature_on(g, st, g[n].edges@[e].target as int, feature)),
    }
}

/// The value `v` at node `n` names a feature or optional dependency that
/// was never declared.
pub open spec fn missing(g: Seq<Node>, n: int, v: FeatureValue) -> bool {
    match v {
        FeatureValue::Feature(id) => !declares(g, n, id),
        FeatureValue::Dep(d) => forall|e: int|
            0 <= e < g[n].edges@.len() ==> !(#[trigger] g[n].edges@[e].name == d && g[n].edges@[e].optional),
        FeatureValue::DepFeature { dep, feature, weak } => forall|e: int|
            0 <= e < g[n].edges@.len() && #[trigger] g[n].edges@[e].name == dep ==> !declares(
                g,
                g[n].edges@[e].target as int,
                feature,
            ),
    }
}

/// Flags only go from off to on.
pub open spec fn grows(a: Activation, b: Activation) -> bool {
    &&& forall|n: int, i: int|
        0 <= n < a.active@.len() && 0 <= i < a.active@[n]@.len() && #[trigger] a.active@[n]@[i]
            ==> b.active@[n]@[i]
    &&& forall|n: int, e: int|
        0 <= n < a.included@.len() && 0 <= e < a.included@[n]@.len() && #[trigger] a.included@[n]@[e]
            ==> b.included@[n]@[e]
}

pub open spec fn count_row(r: Seq<bool>) -> nat
    decreases r.len(),
{
    if r.len() == 0 {
        0
    } else {
        count_row(r.drop_last()) + if r.last() {
            1nat
        } else {
            0nat
        }
    }
}

pub open spec fn count_rows(rows: Seq<Vec<bool>>, upto: int) -> nat
    decreases upto,
{
    if upto <= 0 {
        0
    } else {
        count_rows(rows, upto - 1) + count_row(rows[upto - 1]@)
    }
}

/// How many flags are on.
pub open spec fn measure(st: Activation) -> nat {
    count_rows(st.active@, st.active@.len() as int) + count_rows(st.included@, st.included@.len() as int)
}

/// How many flags there are: features and edges of the nodes below `upto`.
pub open spec fn flag_total(g: Seq<Node>, upto: int) -> nat
    decreases upto,
{
    if upto <= 0 {
        0
    } else {
        flag_total(g, upto - 1) + g[upto - 1].features@.len() + g[upto - 1].edges@.len()
    }
}

proof fn lemma_count_row_le(r: Seq<bool>)
    ensures
        count_row(r) <= r.len(),
    decreases r.len(),
{
    if r.len() > 0 {
        lemma_count_row_le(r.drop_last());
    }
}

proof fn lemma_count_row_set(r: Seq<bool>, i: int)
    requires
        0 <= i < r.len(),
        !r[i],
    ensures
        count_row(r.update(i, true)) == count_row(r) + 1,
    decreases r.len(),
{
    let u = r.update(i, true);
    if i == r.len() - 1 {
        assert(u.drop_last() =~= r.drop_last());
    } else {
        lemma_count_row_set(r.drop_last(), i);
        assert(u.drop_last() =~= r.drop_last().update(i, true));
    }
}

/// Rows that differ only in row `n` count the same but for that row.
proof fn lemma_count_rows_one(a: Seq<Vec<bool>>, b: Seq<Vec<bool>>, n: int, upto: int)
    requires
        0 <= n < upto <= a.len(),
        a.len() == b.len(),
        forall|m: int| 0 <= m < a.len() && m != n ==> #[trigger] b[m] == a[m],
    ensures
        count_rows(b, upto) + count_row(a[n]@) == count_rows(a, upto) + count_row(b[n]@),
    decreases upto,
{
    if upto - 1 > n {
        lemma_count_rows_one(a, b, n, upto - 1);
        assert(b[upto - 1] == a[upto - 1]);
    } else {
        lemma_count_rows_prefix(a, b, n, n);
    }
}

proof fn lemma_count_rows_prefix(a: Seq<Vec<bool>>, b: Seq<Vec<bool>>, n: int, k: int)
    requires
        0 <= k <= n < a.len(),
        a.len() == b.len(),
        forall|m: int| 0 <= m < a.len() && m != n ==> #[trigger] b[m] == a[m],
    ensures
        count_rows(b, k) == count_rows(a, k),
    decreases k,
{
    if k > 0 {
        lemma_count_rows_prefix(a, b, n, k - 1);
        assert(b[k - 1] == a[k - 1]);
    }
}

proof fn lemma_measure_bounded(g: Seq<Node>, st: Activation, upto: int)
    requires
        shaped(g, st),
        0 <= upto <= g.len(),
    ensures
        count_rows(st.active@, upto) + count_rows(st.included@, upto) <= flag_total(g, upto),
    decreases upto,
{
    if upto > 0 {
        lemma_measure_bounded(g, st, upto - 1);
        lemma_count_row_le(st.active@[upto - 1]@);
        lemma_count_row_le(st.included@[upto - 1]@);
    }
}

fn set_flag(rows: &mut Vec<Vec<bool>>, n: usize, i: usize)
    requires
        n < old(rows)@.len(),
        i < old(rows)@[n as int]@.len(),
        !old(rows)@[n as int]@[i as int],
    ensures
        count_rows(final(rows)@, final(rows)@.len() as int) == count_rows(old(rows)@, old(rows)@.len() as int) + 1,
        final(rows)@.len() == old(rows)@.len(),
        forall|m: int| 0 <= m < old(rows)@.len() && m != n ==> #[trigger] final(rows)@[m] == old(rows)@[m],
        final(rows)@[n as int]@ == old(rows)@[n as int]@.update(i as int, true),
{
    let ghost before = rows@;
    let mut row = rows.remove(n);
    let ghost r0 = row@;
    row.set(i, true);
    rows.insert(n, row);
    proof {
        lemma_count_row_set(r0, i as int);
        assert forall|m: int| 0 <= m < before.len() && m != n implies #[trigger] rows@[m] == before[m] by {}
        lemma_count_rows_one(before, rows@, n as int, before.len() as int);
    }
}

/// The index of a feature of node `n` named `id`, if one is declared.
fn find_feature(g: &Vec<Node>, n: usize, id: u32) -> (r: Option<usize>)
    requires
        n < g@.len(),
    ensures
        r is None ==> !declares(g@, n as int, id),
        r matches Some(i) ==> i < g@[n as int].features@.len() && g@[n as int].features@[i as int].name
            == FeatureValue::Feature(id),
{
    let fs = &g[n].features;
    let mut i: usize = 0;
    while i < fs.len()
        invariant
            i <= fs@.len(),
            fs@ == g@[n as int].features@,
            forall|j: int| 0 <= j < i ==> #[trigger] fs@[j].name != FeatureValue::Feature(id),
        decreases fs@.len() - i,
    {
        if fs[i].name == FeatureValue::Feature(id) {
            return Some(i);
        }
        i = i + 1;
    }
    None
}

/// Puts value `v` into effect at node `n`, turning flags on as needed.
/// `changed` is set where a flag was turned on.
fn apply(g: &Vec<Node>, n: usize, v: FeatureValue, st: &mut Activation, changed: &mut bool) -> (r:
    Result<(), FeatureError>)
    requires
        graph_wf(g@),
        n < g@.len(),
        shaped(g@, *old(st)),
    ensures
        shaped(g@, *final(st)),
        grows(*old(st), *final(st)),
        *final(changed) || (*final(st) == *old(st) && *final(changed) == *old(changed)),
        *old(changed) ==> *final(changed),
        measure(*final(st)) >= measure(*old(st)),
        *final(changed) && !*old(changed) ==> measure(*final(st)) > measure(*old(st)),
        r is Ok ==> value_holds(g@, *final(st), n as int, v),
        r is Err ==> r == Err::<(), FeatureError>(FeatureError::FeatureNotFound { node: n, value: v })
            && missing(g@, n as int, v),
{
    let ghost st0 = *st;
    match v {
        FeatureValue::Feature(id) => match find_feature(g, n, id) {
            None => Err(FeatureError::FeatureNotFound { node: n, value: v }),
            Some(i) => {
                if !st.active[n][i] {
                    set_flag(&mut st.active, n, i);
                    *changed = true;
                }
                proof {
                    assert(st.active@[n as int]@[i as int]);
                    assert(g@[n as int].features@[i as int].name == FeatureValue::Feature(id));
                }
                Ok(())
            },
        },
        FeatureValue::Dep(d) => {
            let es = &g[n].edges;
            let mut e: usize = 0;
            while e < es.len()
                invariant
                    e <= es@.len(),
                    es@ == g@[n as int].edges@,
                    forall|j: int| 0 <= j < e ==> !(#[trigger] es@[j].name == d && es@[j].optional),
                ensures
                    e <= es@.len(),
                    e < es@.len() ==> es@[e as int].name == d && es@[e as int].optional,
                    forall|j: int| 0 <= j < e ==> !(#[trigger] es@[j].name == d && es@[j].optional),
                decreases es@.len() - e,
            {
                if es[e].name == d && es[e].optional {
                    break;
                }
                e = e + 1;
            }
            if e == es.len() {
                return Err(FeatureError::FeatureNotFound { node: n, value: v });
            }
            if !st.included[n][e] {
                set_flag(&mut st.included, n, e);
                *changed = true;
            }
            proof {
                assert(included(*st, n as int, e as int));
                assert(g@[n as int].edges@[e as int].name == d);
            }
            Ok(())
        },
        FeatureValue::DepFeature { dep, feature, weak } => {
            let es = &g[n].edges;
            let mut e: usize = 0;
            let mut found: Option<usize> = None;
            while e < es.len()
                invariant_except_break
                    found is None,
                invariant
                    e <= es@.len(),
                    n < g@.len(),
                    graph_wf(g@),
                    es@ == g@[n as int].edges@,
                    forall|j: int|
                        0 <= j < e && #[trigger] es@[j].name == dep ==> !declares(
                            g@,
                            es@[j].target as int,
                            feature,
                        ),
                ensures
                    e <= es@.len(),
                    found is None ==> e == es@.len(),
                    forall|j: int|
                        0 <= j < e && #[trigger] es@[j].name == dep ==> !declares(
                            g@,
                            es@[j].target as int,
                            feature,
                        ),
                    found matches Some(i) ==> e < es@.len() && es@[e as int].name == dep && (i as int)
                        < g@[es@[e as int].target as int].features@.len() && g@[es@[e as int].target as int].features@[i as int].name
                        == FeatureValue::Feature(feature),
                decreases es@.len() - e,
            {
                if es[e].name == dep {
                    assert(es@[e as int].target < g@.len());
                    let t = es[e].target;
                    found = find_feature(g, t, feature);
                    assert(found is None ==> !declares(g@, es@[e as int].target as int, feature));
                    if found.is_some() {
                        break;
                    }
                }
                e = e + 1;
            }
            let i = match found {
                None => {
                    return Err(FeatureError::FeatureNotFound { node: n, value: v });
                },
                Some(i) => i,
            };
            let t = es[e].target;
            assert(t < g@.len());
            if !weak && !st.included[n][e] {
                set_flag(&mut st.included, n, e);
                *changed = true;
            }
            let ghost st2 = *st;
            if st.included[n][e] && !st.active[t][i] {
                set_flag(&mut st.active, t, i);
                *changed = true;
            }
            proof {
                assert(st.included@[n as int] == st2.included@[n as int]);
                assert(!weak ==> included(*st, n as int, e as int));
                if included(*st, n as int, e as int) {
                    assert(st.active@[t as int]@[i as int]);
                    assert(g@[t as int].features@[i as int].name == FeatureValue::Feature(feature));
                }
                assert(g@[n as int].edges@[e as int].name == dep);
            }
            Ok(())
        },
    }
}

pub open spec fn child(g: Seq<Node>, n: int, i: int, k: int) -> FeatureValue {
    g[n].features@[i].child_feature_values@[k]
}

pub open spec fn n_children(g: Seq<Node>, n: int, i: int) -> int {
    g[n].features@[i].child_feature_values@.len() as int
}

pub open spec fn nonoptional_included(g: Seq<Node>, st: Activation) -> bool {
    forall|n: int, e: int|
        0 <= n < g.len() && 0 <= e < g[n].edges@.len() && !g[n].edges@[e].optional ==> #[trigger] included(
            st,
            n,
            e,
        )
}

/// The values of every active feature of the nodes below `upto` are in effect.
pub open spec fn features_hold(g: Seq<Node>, st: Activation, upto: int) -> bool {
    forall|n: int, i: int, k: int|
        0 <= n < upto && 0 <= i < g[n].features@.len() && st.active@[n]@[i] && 0 <= k < n_children(
            g,
            n,
            i,
        ) ==> #[trigger] value_holds(g, st, n, child(g, n, i, k))
}

/// Every included edge of the nodes below `upto` that wants its target's
/// default feature has it on, where the target declares one.
pub open spec fn defaults_hold(g: Seq<Node>, st: Activation, upto: int) -> bool {
    forall|n: int, e: int|
        0 <= n < upto && 0 <= e < g[n].edges@.len() && #[trigger] included(st, n, e)
            && g[n].edges@[e].default_features && declares(g, g[n].edges@[e].target as int, DEFAULT_FEATURE)
            ==> feature_on(g, st, g[n].edges@[e].target as int, DEFAULT_FEATURE)
}

/// A feature active on a node below `upto` is in effect on every node of
/// the same package.
pub open spec fn shared_hold(g: Seq<Node>, st: Activation, upto: int) -> bool {
    forall|n: int, i: int, m: int|
        0 <= n < upto && 0 <= i < g[n].features@.len() && st.active@[n]@[i] && 0 <= m < g.len()
            && g[m].package == g[n].package ==> #[trigger] value_holds(g, st, m, g[n].features@[i].name)
}

/// The activation is closed: nothing that an active feature or an included
/// edge turns on is left off.
pub open spec fn closed(g: Seq<Node>, st: Activation) -> bool {
    &&& shaped(g, st)
    &&& nonoptional_included(g, st)
    &&& features_hold(g, st, g.len() as int)
    &&& defaults_hold(g, st, g.len() as int)
}

pub open spec fn requests_hold(g: Seq<Node>, reqs: Seq<Request>, st: Activation) -> bool {
    forall|j: int|
        0 <= j < reqs.len() ==> (#[trigger] reqs[j]).node < g.len() && value_holds(
            g,
            st,
            reqs[j].node as int,
            reqs[j].value,
        )
}

proof fn lemma_grows_keeps_nonoptional(g: Seq<Node>, a: Activation, b: Activation)
    requires
        shaped(g, a),
        nonoptional_included(g, a),
        grows(a, b),
    ensures
        nonoptional_included(g, b),
{
    assert forall|n: int, e: int|
        0 <= n < g.len() && 0 <= e < g[n].edges@.len() && !g[n].edges@[e].optional implies #[trigger] included(
        b,
        n,
        e,
    ) by {
        assert(included(a, n, e));
        assert(a.included@[n]@[e]);
    }
}

/// `value` is asked for on `node` by a request, listed by a feature that
/// `node` declares, or the name of a feature of a node of the same package.
pub open spec fn referenced(g: Seq<Node>, reqs: Seq<Request>, node: int, value: FeatureValue) -> bool {
    ||| exists|j: int| 0 <= j < reqs.len() && (#[trigger] reqs[j]).node == node && reqs[j].value == value
    ||| (0 <= node < g.len() && exists|i: int, k: int|
        0 <= i < g[node].features@.len() && 0 <= k < n_children(g, node, i) && #[trigger] child(
            g,
            node,
            i,
            k,
        ) == value)
    ||| (0 <= node < g.len() && exists|n: int, i: int|
        0 <= n < g.len() && g[n].package == g[node].package && 0 <= i < g[n].features@.len()
            && #[trigger] g[n].features@[i].name == value)
}

fn initial(g: &Vec<Node>) -> (r: Activation)
    ensures
        shaped(g@, r),
        nonoptional_included(g@, r),
{
    let mut st = Activation { active: Vec::new(), included: Vec::new() };
    let mut n: usize = 0;
    while n < g.len()
        invariant
            n <= g@.len(),
            st.active@.len() == n,
            st.included@.len() == n,
            forall|m: int| 0 <= m < n ==> (#[trigger] st.active@[m])@.len() == g@[m].features@.len(),
            forall|m: int| 0 <= m < n ==> (#[trigger] st.included@[m])@.len() == g@[m].edges@.len(),
            forall|m: int, e: int|
                0 <= m < n && 0 <= e < g@[m].edges@.len() && !g@[m].edges@[e].optional
                    ==> #[trigger] included(st, m, e),
        decreases g@.len() - n,
    {
        let mut a: Vec<bool> = Vec::new();
        while a.len() < g[n].features.len()
            invariant
                n < g@.len(),
                a@.len() <= g@[n as int].features@.len(),
            decreases g@[n as int].features@.len() - a@.len(),
        {
            a.push(false);
        }
        let mut inc: Vec<bool> = Vec::new();
        while inc.len() < g[n].edges.len()
            invariant
                n < g@.len(),
                inc@.len() <= g@[n as int].edges@.len(),
                forall|e: int| 0 <= e < inc@.len() && !g@[n as int].edges@[e].optional ==> #[trigger] inc@[e],
            decreases g@[n as int].edges@.len() - inc@.len(),
        {
            let o = g[n].edges[inc.len()].optional;
            inc.push(!o);
        }
        let ghost prev = st;
        st.active.push(a);
        st.included.push(inc);
        proof {
            assert forall|m: int, e: int|
                0 <= m <= n && 0 <= e < g@[m].edges@.len() && !g@[m].edges@[e].optional
                    implies #[trigger] included(st, m, e) by {
                if m < n {
                    assert(included(prev, m, e));
                }
            }
        }
        n = n + 1;
    }
    st
}

/// Turns on what the requests name and, from there, everything that the
/// active features and included edges turn on, until nothing changes.
/// Fails on a reference to a feature or optional dependency that was never
/// declared, and where the bound on passes runs out. Under `Unified`, a
/// feature active on one node is turned on for every node of its package.
pub fn activate(g: &Vec<Node>, requests: &Vec<Request>, mode: Unification) -> (r: Result<
    Activation,
    FeatureError,
>)
    requires
        graph_wf(g@),
    ensures
        r matches Ok(st) ==> closed(g@, st) && requests_hold(g@, requests@, st),
        r is Ok && mode is Unified ==> shared_hold(g@, r->Ok_0, g@.len() as int),
        flag_total(g@, g@.len() as int) + 1 < usize::MAX ==> !(r matches Err(
            FeatureError::CycleDetected,
        )),
        r matches Err(FeatureError::FeatureNotFound { node, value }) ==> (node >= g@.len() || missing(
            g@,
            node as int,
            value,
        )) && referenced(g@, requests@, node as int, value),
{
    let mut st = initial(g);
    let mut bound: usize = 1;
    let mut exact = true;
    let mut n: usize = 0;
    while n < g.len()
        invariant
            n <= g@.len(),
            exact ==> bound == 1 + flag_total(g@, n as int),
            !exact ==> flag_total(g@, n as int) + 1 >= usize::MAX,
        decreases g@.len() - n,
    {
        let f = g[n].features.len();
        let e = g[n].edges.len();
        if exact && f < usize::MAX - bound && e < usize::MAX - bound - f {
            bound = bound + f + e;
        } else {
            exact = false;
            bound = usize::MAX;
        }
        n = n + 1;
    }
    let mut round: usize = 0;
    while round < bound
        invariant
            graph_wf(g@),
            shaped(g@, st),
            nonoptional_included(g@, st),
            exact ==> bound == 1 + flag_total(g@, g@.len() as int),
            !exact ==> flag_total(g@, g@.len() as int) + 1 >= usize::MAX,
            round <= measure(st),
        decreases bound - round,
    {
        let ghost st0 = st;
        let mut changed = false;
        let mut k: usize = 0;
        while k < requests.len()
            invariant
                graph_wf(g@),
                shaped(g@, st),
                nonoptional_included(g@, st),
                k <= requests@.len(),
                !changed ==> st == st0,
                measure(st) >= measure(st0),
                changed ==> measure(st) > measure(st0),
                !changed ==> requests_hold(g@, requests@.take(k as int), st),
            decreases requests@.len() - k,
        {
            let rq = requests[k];
            assert(requests@[k as int] == rq);
            if rq.node >= g.len() {
                return Err(FeatureError::FeatureNotFound { node: rq.node, value: rq.value });
            }
            let ghost before = st;
            match apply(g, rq.node, rq.value, &mut st, &mut changed) {
                Err(e) => {
                    return Err(e);
                },
                Ok(()) => {},
            }
            proof {
                lemma_grows_keeps_nonoptional(g@, before, st);
                if !changed {
                    assert(requests@.take(k + 1) =~= requests@.take(k as int).push(rq));
                }
            }
            k = k + 1;
        }
        assert(requests@.take(requests@.len() as int) =~= requests@);
        let mut n: usize = 0;
        while n < g.len()
            invariant
                graph_wf(g@),
                shaped(g@, st),
                nonoptional_included(g@, st),
                n <= g@.len(),
                !changed ==> st == st0,
                measure(st) >= measure(st0),
                changed ==> measure(st) > measure(st0),
                !changed ==> requests_hold(g@, requests@, st),
                !changed ==> features_hold(g@, st, n as int),
            decreases g@.len() - n,
        {
            let mut i: usize = 0;
            while i < g[n].features.len()
                invariant
                    graph_wf(g@),
                    shaped(g@, st),
                    nonoptional_included(g@, st),
                    n < g@.len(),
                    i <= g@[n as int].features@.len(),
                    !changed ==> st == st0,
                    measure(st) >= measure(st0),
                    changed ==> measure(st) > measure(st0),
                    !changed ==> requests_hold(g@, requests@, st),
                    !changed ==> features_hold(g@, st, n as int),
                    !changed ==> forall|i2: int, k: int|
                        0 <= i2 < i && st.active@[n as int]@[i2] && 0 <= k < n_children(g@, n as int, i2)
                            ==> #[trigger] value_holds(g@, st, n as int, child(g@, n as int, i2, k)),
                decreases g@[n as int].features@.len() - i,
            {
                if st.active[n][i] {
                    let vs = &g[n].features[i].child_feature_values;
                    let mut k: usize = 0;
                    while k < vs.len()
                        invariant
                            graph_wf(g@),
                            shaped(g@, st),
                            nonoptional_included(g@, st),
                            n < g@.len(),
                            i < g@[n as int].features@.len(),
                            vs@ == g@[n as int].features@[i as int].child_feature_values@,
                            k <= vs@.len(),
                            !changed ==> st == st0,
                            measure(st) >= measure(st0),
                            changed ==> measure(st) > measure(st0),
                            !changed ==> requests_hold(g@, requests@, st),
                            !changed ==> features_hold(g@, st, n as int),
                            !changed ==> forall|i2: int, k2: int|
                                0 <= i2 < i && st.active@[n as int]@[i2] && 0 <= k2 < n_children(
                                    g@,
                                    n as int,
                                    i2,
                                ) ==> #[trigger] value_holds(g@, st, n as int, child(g@, n as int, i2, k2)),
                            !changed ==> forall|k2: int|
                                0 <= k2 < k ==> #[trigger] value_holds(
                                    g@,
                                    st,
                                    n as int,
                                    child(g@, n as int, i as int, k2),
                                ),
                        decreases vs@.len() - k,
                    {
                        let ghost before = st;
                        match apply(g, n, vs[k], &mut st, &mut changed) {
                            Err(e) => {
                                assert(child(g@, n as int, i as int, k as int) == vs@[k as int]);
                                return Err(e);
                            },
                            Ok(()) => {},
                        }
                        proof {
                            lemma_grows_keeps_nonoptional(g@, before, st);
                        }
                        k = k + 1;
                    }
                }
                i = i + 1;
            }
            n = n + 1;
        }
        let mut n: usize = 0;
        while n < g.len()
            invariant
                graph_wf(g@),
                shaped(g@, st),
                nonoptional_included(g@, st),
                n <= g@.len(),
                !changed ==> st == st0,
                measure(st) >= measure(st0),
                changed ==> measure(st) > measure(st0),
                !changed ==> requests_hold(g@, requests@, st),
                !changed ==> features_hold(g@, st, g@.len() as int),
                !changed ==> defaults_hold(g@, st, n as int),
            decreases g@.len() - n,
        {
            let mut e: usize = 0;
            while e < g[n].edges.len()
                invariant
                    graph_wf(g@),
                    shaped(g@, st),
                    nonoptional_included(g@, st),
                    n < g@.len(),
                    e <= g@[n as int].edges@.len(),
                    !changed ==> st == st0,
                    measure(st) >= measure(st0),
                    changed ==> measure(st) > measure(st0),
                    !changed ==> requests_hold(g@, requests@, st),
                    !changed ==> features_hold(g@, st, g@.len() as int),
                    !changed ==> defaults_hold(g@, st, n as int),
                    !changed ==> forall|e2: int|
                        0 <= e2 < e && #[trigger] included(st, n as int, e2)
                            && g@[n as int].edges@[e2].default_features && declares(
                            g@,
                            g@[n as int].edges@[e2].target as int,
                            DEFAULT_FEATURE,
                        ) ==> feature_on(g@, st, g@[n as int].edges@[e2].target as int, DEFAULT_FEATURE),
                decreases g@[n as int].edges@.len() - e,
            {
                let edge = g[n].edges[e];
                assert(edge.target < g@.len());
                if st.included[n][e] && edge.default_features {
                    if let Some(d) = find_feature(g, edge.target, DEFAULT_FEATURE) {
                        assert(declares(g@, edge.target as int, DEFAULT_FEATURE)) by {
                            assert(g@[edge.target as int].features@[d as int].name == FeatureValue::Feature(
                                DEFAULT_FEATURE,
                            ));
                        }
                        let ghost before = st;
                        match apply(g, edge.target, FeatureValue::Feature(DEFAULT_FEATURE), &mut st, &mut changed) {
                            Err(e) => {
                                return Err(e);
                            },
                            Ok(()) => {},
                        }
                        proof {
                            lemma_grows_keeps_nonoptional(g@, before, st);
                        }
                    }
                }
                e = e + 1;
            }
            n = n + 1;
        }
        let mut n: usize = 0;
        while n < g.len()
            invariant
                graph_wf(g@),
                shaped(g@, st),
                nonoptional_included(g@, st),
                n <= g@.len(),
                !changed ==> st == st0,
                measure(st) >= measure(st0),
                changed ==> measure(st) > measure(st0),
                !changed ==> requests_hold(g@, requests@, st),
                !changed ==> features_hold(g@, st, g@.len() as int),
                !changed ==> defaults_hold(g@, st, g@.len() as int),
                !changed && mode is Unified ==> shared_hold(g@, st, n as int),
            decreases g@.len() - n,
        {
            let mut i: usize = 0;
            while i < g[n].features.len()
                invariant
                    graph_wf(g@),
                    shaped(g@, st),
                    nonoptional_included(g@, st),
                    n < g@.len(),
                    i <= g@[n as int].features@.len(),
                    !changed ==> st == st0,
                    measure(st) >= measure(st0),
                    changed ==> measure(st) > measure(st0),
                    !changed ==> requests_hold(g@, requests@, st),
                    !changed ==> features_hold(g@, st, g@.len() as int),
                    !changed ==> defaults_hold(g@, st, g@.len() as int),
                    !changed && mode is Unified ==> shared_hold(g@, st, n as int),
                    !changed && mode is Unified ==> forall|i2: int, m: int|
                        0 <= i2 < i && st.active@[n as int]@[i2] && 0 <= m < g@.len() && g@[m].package
                            == g@[n as int].package ==> #[trigger] value_holds(
                            g@,
                            st,
                            m,
                            g@[n as int].features@[i2].name,
                        ),
                decreases g@[n as int].features@.len() - i,
            {
                if matches!(mode, Unification::Unified) && st.active[n][i] {
                    let name = g[n].features[i].name;
                    let mut m: usize = 0;
                    while m < g.len()
                        invariant
                            graph_wf(g@),
                            shaped(g@, st),
                            nonoptional_included(g@, st),
                            mode is Unified,
                            n < g@.len(),
                            i < g@[n as int].features@.len(),
                            name == g@[n as int].features@[i as int].name,
                            m <= g@.len(),
                            !changed ==> st == st0,
                            measure(st) >= measure(st0),
                            changed ==> measure(st) > measure(st0),
                            !changed ==> requests_hold(g@, requests@, st),
                            !changed ==> features_hold(g@, st, g@.len() as int),
                            !changed ==> defaults_hold(g@, st, g@.len() as int),
                            !changed ==> shared_hold(g@, st, n as int),
                            !changed ==> forall|i2: int, m2: int|
                                0 <= i2 < i && st.active@[n as int]@[i2] && 0 <= m2 < g@.len()
                                    && g@[m2].package == g@[n as int].package ==> #[trigger] value_holds(
                                    g@,
                                    st,
                                    m2,
                                    g@[n as int].features@[i2].name,
                                ),
                            !changed ==> forall|m2: int|
                                0 <= m2 < m && g@[m2].package == g@[n as int].package
                                    ==> #[trigger] value_holds(g@, st, m2, name),
                        decreases g@.len() - m,
                    {
                        if g[m].package == g[n].package {
                            let ghost before = st;
                            match apply(g, m, name, &mut st, &mut changed) {
                                Err(e) => {
                                    assert(g@[n as int].features@[i as int].name == name);
                                    return Err(e);
                                },
                                Ok(()) => {},
                            }
                            proof {
                                lemma_grows_keeps_nonoptional(g@, before, st);
                            }
                        }
                        m = m + 1;
                    }
                }
                i = i + 1;
            }
            n = n + 1;
        }
        if !changed {
            return Ok(st);
        }
        round = round + 1;
    }
    proof {
        lemma_measure_bounded(g@, st, g@.len() as int);
    }
    Err(FeatureError::CycleDetected)
}

} // verus!
