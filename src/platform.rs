use vstd::prelude::*;

verus! {

broadcast use {vstd::std_specs::vec::axiom_vec_decreases_to_view, vstd::seq::axiom_seq_index_decreases};

/// A condition over target predicates, such as `all(unix, target_arch = "x86_64")`.
/// Keys and values are interned names.
#[derive(Debug)]
pub enum CfgExpr {
    Any(Vec<CfgExpr>),
    All(Vec<CfgExpr>),
    Not(Box<CfgExpr>),
    Predicate(u32, u32),
}

/// Where a dependency or feature applies: one named target triple, or every
/// target that meets a condition.
#[derive(Debug)]
pub enum Platform {
    Name(u32),
    Cfg(CfgExpr),
}

/// A target descriptor: its triple and the key/value predicates it sets.
#[derive(Debug)]
pub struct Target {
    pub triple: u32,
    pub cfg: Vec<(u32, u32)>,
}

/// Which target an edge is built for: build-time dependencies for the host,
/// the others for the compile targets.
#[derive(Clone, Copy, Debug)]
pub enum EdgeKind {
    Normal,
    Build,
    Development,
}

pub open spec fn sets(t: Target, key: u32, value: u32) -> bool {
    exists|i: int| 0 <= i < t.cfg@.len() && #[trigger] t.cfg@[i] == (key, value)
}

pub open spec fn eval(e: CfgExpr, t: Target) -> bool
    decreases e,
{
    match e {
        CfgExpr::Any(es) => exists|i: int| 0 <= i < es@.len() && eval(#[trigger] es@[i], t),
        CfgExpr::All(es) => forall|i: int| 0 <= i < es@.len() ==> eval(#[trigger] es@[i], t),
        CfgExpr::Not(x) => !eval(*x, t),
        CfgExpr::Predicate(k, v) => sets(t, k, v),
    }
}

pub open spec fn platform_matches(p: Platform, t: Target) -> bool {
    match p {
        Platform::Name(n) => n == t.triple,
        Platform::Cfg(e) => eval(e, t),
    }
}

/// An edge stays when its condition holds for at least one of the targets
/// that its kind is built for.
pub open spec fn applies_spec(
    cond: Option<Platform>,
    host: Target,
    targets: Seq<Target>,
    kind: EdgeKind,
) -> bool {
    match cond {
        None => true,
        Some(p) => match kind {
            EdgeKind::Build => platform_matches(p, host),
            _ => exists|i: int| 0 <= i < targets.len() && platform_matches(p, #[trigger] targets[i]),
        },
    }
}

impl Target {
    pub fn sets_pair(&self, key: u32, value: u32) -> (r: bool)
        ensures
            r == sets(*self, key, value),
    {
        let mut i: usize = 0;
        while i < self.cfg.len()
            invariant
                i <= self.cfg@.len(),
                forall|j: int| 0 <= j < i ==> self.cfg@[j] != (key, value),
            decreases self.cfg@.len() - i,
        {
            let (k, v) = self.cfg[i];
            if k == key && v == value {
                assert(self.cfg@[i as int] == (key, value));
                return true;
            }
            i = i + 1;
        }
        false
    }
}

impl CfgExpr {
    pub fn eval_on(&self, t: &Target) -> (r: bool)
        ensures
            r == eval(*self, *t),
        decreases self,
    {
        match self {
            CfgExpr::Any(es) => {
                assert(*self is Any && self->Any_0 == *es);
                let mut i: usize = 0;
                while i < es.len()
                    invariant
                        i <= es@.len(),
                        *self is Any,
                        self->Any_0 == *es,
                        forall|j: int| 0 <= j < i ==> !eval(#[trigger] es@[j], *t),
                    decreases es@.len() - i,
                {
                    proof {
                        assert(decreases_to!(*self => self->Any_0));
                        assert(decreases_to!(self->Any_0 => self->Any_0@));
                        assert(decreases_to!(self->Any_0@ => self->Any_0@[i as int]));
                    }
                    if es[i].eval_on(t) {
                        assert(eval(es@[i as int], *t));
                        return true;
                    }
                    i = i + 1;
                }
                assert(!eval(*self, *t));
                false
            },
            CfgExpr::All(es) => {
                let mut i: usize = 0;
                while i < es.len()
                    invariant
                        i <= es@.len(),
                        *self is All,
                        self->All_0 == *es,
                        forall|j: int| 0 <= j < i ==> eval(#[trigger] es@[j], *t),
                    decreases es@.len() - i,
                {
                    proof {
                        assert(decreases_to!(*self => self->All_0));
                        assert(decreases_to!(self->All_0 => self->All_0@));
                        assert(decreases_to!(self->All_0@ => self->All_0@[i as int]));
                    }
                    if !es[i].eval_on(t) {
                        return false;
                    }
                    i = i + 1;
                }
                assert(eval(*self, *t));
                true
            },
            CfgExpr::Not(x) => !x.eval_on(t),
            CfgExpr::Predicate(k, v) => t.sets_pair(*k, *v),
        }
    }
}

impl Platform {
    pub fn matches(&self, t: &Target) -> (r: bool)
        ensures
            r == platform_matches(*self, *t),
    {
        match self {
            Platform::Name(n) => *n == t.triple,
            Platform::Cfg(e) => e.eval_on(t),
        }
    }
}

/// Whether an edge with condition `cond` and kind `kind` is kept when
/// building on `host` for `targets`.
pub fn applies(cond: &Option<Platform>, host: &Target, targets: &Vec<Target>, kind: EdgeKind) -> (r:
    bool)
    ensures
        r == applies_spec(*cond, *host, targets@, kind),
{
    match cond {
        None => true,
        Some(p) => match kind {
            EdgeKind::Build => p.matches(host),
            _ => {
                let mut i: usize = 0;
                while i < targets.len()
                    invariant
                        i <= targets@.len(),
                        *cond == Some(*p),
                        !(kind is Build),
                        forall|j: int| 0 <= j < i ==> !platform_matches(*p, #[trigger] targets@[j]),
                    decreases targets@.len() - i,
                {
                    if p.matches(&targets[i]) {
                        assert(platform_matches(*p, targets@[i as int]));
                        return true;
                    }
                    i = i + 1;
                }
                false
            },
        },
    }
}

} // verus!
