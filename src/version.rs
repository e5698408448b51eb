use vstd::prelude::*;

verus! {

/// A semantic version. `pre` is the pre-release number, if any: `1.2.0-3` has
/// `pre == Some(3)` and orders below `1.2.0`.
#[derive(Clone, Copy, Debug)]
pub struct Version {
    pub major: u64,
    pub minor: u64,
    pub patch: u64,
    pub pre: Option<u64>,
}

/// How one comparator of a predicate relates a candidate to its version.
#[derive(Clone, Copy, Debug)]
pub enum Op {
    Exact,
    Greater,
    GreaterEq,
    Less,
    LessEq,
    /// `~1.2.3`: at least the version, same major and minor.
    Tilde,
    /// `^1.2.3`: at least the version, same left-most non-zero component.
    Caret,
}

#[derive(Clone, Copy, Debug)]
pub struct Comparator {
    pub op: Op,
    pub version: Version,
}

/// A semantic-version predicate: every comparator must hold.
#[derive(Clone, Debug)]
pub struct VersionReq {
    pub comparators: Vec<Comparator>,
}

/// Strict order of versions: by major, minor, patch, then a pre-release below
/// the release, and pre-releases by number.
pub open spec fn version_lt(a: Version, b: Version) -> bool {
    if a.major != b.major {
        a.major < b.major
    } else if a.minor != b.minor {
        a.minor < b.minor
    } else if a.patch != b.patch {
        a.patch < b.patch
    } else {
        match (a.pre, b.pre) {
            (Some(x), Some(y)) => x < y,
            (Some(_), None) => true,
            _ => false,
        }
    }
}

pub open spec fn same_version(a: Version, b: Version) -> bool {
    a.major == b.major && a.minor == b.minor && a.patch == b.patch && a.pre == b.pre
}

pub open spec fn version_le(a: Version, b: Version) -> bool {
    version_lt(a, b) || same_version(a, b)
}

pub open spec fn comparator_holds(c: Comparator, v: Version) -> bool {
    let w = c.version;
    match c.op {
        Op::Exact => same_version(v, w),
        Op::Greater => version_lt(w, v),
        Op::GreaterEq => version_le(w, v),
        Op::Less => version_lt(v, w),
        Op::LessEq => version_le(v, w),
        Op::Tilde => version_le(w, v) && v.major == w.major && v.minor == w.minor,
        Op::Caret => version_le(w, v) && if w.major > 0 {
            v.major == w.major
        } else if w.minor > 0 {
            v.major == 0 && v.minor == w.minor
        } else {
            v.major == 0 && v.minor == 0 && v.patch == w.patch
        },
    }
}

/// A pre-release is eligible only for a predicate that names it exactly.
pub open spec fn pre_release_named(cs: Seq<Comparator>, v: Version) -> bool {
    v.pre.is_none() || exists|i: int| 0 <= i < cs.len() && same_version(#[trigger] cs[i].version, v)
}

pub open spec fn req_matches(cs: Seq<Comparator>, v: Version) -> bool {
    &&& forall|i: int| 0 <= i < cs.len() ==> comparator_holds(#[trigger] cs[i], v)
    &&& pre_release_named(cs, v)
}

impl Version {
    pub fn new(major: u64, minor: u64, patch: u64) -> (r: Version)
        ensures
            r.major == major && r.minor == minor && r.patch == patch && r.pre.is_none(),
    {
        Version { major, minor, patch, pre: None }
    }

    pub fn same(&self, other: &Version) -> (r: bool)
        ensures
            r == same_version(*self, *other),
    {
        self.major == other.major && self.minor == other.minor && self.patch == other.patch
            && match (self.pre, other.pre) {
            (Some(x), Some(y)) => x == y,
            (None, None) => true,
            _ => false,
        }
    }

    pub fn less_than(&self, other: &Version) -> (r: bool)
        ensures
            r == version_lt(*self, *other),
    {
        if self.major != other.major {
            self.major < other.major
        } else if self.minor != other.minor {
            self.minor < other.minor
        } else if self.patch != other.patch {
            self.patch < other.patch
        } else {
            match (self.pre, other.pre) {
                (Some(x), Some(y)) => x < y,
                (Some(_), None) => true,
                _ => false,
            }
        }
    }
}

impl Comparator {
    pub fn holds(&self, v: &Version) -> (r: bool)
        ensures
            r == comparator_holds(*self, *v),
    {
        let w = &self.version;
        match self.op {
            Op::Exact => v.same(w),
            Op::Greater => w.less_than(v),
            Op::GreaterEq => w.less_than(v) || w.same(v),
            Op::Less => v.less_than(w),
            Op::LessEq => v.less_than(w) || v.same(w),
            Op::Tilde => (w.less_than(v) || w.same(v)) && v.major == w.major && v.minor == w.minor,
            Op::Caret => (w.less_than(v) || w.same(v)) && if w.major > 0 {
                v.major == w.major
            } else if w.minor > 0 {
                v.major == 0 && v.minor == w.minor
            } else {
                v.major == 0 && v.minor == 0 && v.patch == w.patch
            },
        }
    }
}

impl VersionReq {
    pub fn new(comparators: Vec<Comparator>) -> (r: VersionReq)
        ensures
            r.comparators@ == comparators@,
    {
        VersionReq { comparators }
    }

    /// Whether `v` satisfies every comparator, and, if it is a pre-release,
    /// one comparator names it.
    pub fn matches(&self, v: &Version) -> (r: bool)
        ensures
            r == req_matches(self.comparators@, *v),
    {
        let cs = &self.comparators;
        let mut named = v.pre.is_none();
        let mut i: usize = 0;
        while i < cs.len()
            invariant
                i <= cs@.len(),
                cs@ == self.comparators@,
                forall|j: int| 0 <= j < i ==> comparator_holds(#[trigger] cs@[j], *v),
                named == (v.pre.is_none() || exists|j: int|
                    0 <= j < i && same_version(#[trigger] cs@[j].version, *v)),
            decreases cs@.len() - i,
        {
            let c = cs[i];
            if !c.holds(v) {
                assert(!comparator_holds(cs@[i as int], *v));
                return false;
            }
            if c.version.same(v) {
                named = true;
            }
            i = i + 1;
        }
        named
    }
}

} // verus!
