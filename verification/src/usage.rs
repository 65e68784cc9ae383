//! Stack-usage arithmetic: exact values, lower bounds, and their maxima.
use vstd::prelude::*;

verus! {

/// Local stack usage of one symbol: known exactly, or not at all.
#[derive(Clone, Copy, PartialEq, Eq, Structural, Debug)]
pub enum Local {
    Exact(u64),
    Unknown,
}

/// Bound on the maximum stack usage of any call path rooted at a node:
/// either exact, or only a lower bound (cycles, unknown locals, or untyped
/// external symbols make exactness unattainable).
#[derive(Clone, Copy, PartialEq, Eq, Structural, Debug)]
pub enum Max {
    Exact(u64),
    LowerBound(u64),
}

impl Max {
    /// The numeric payload of the bound.
    pub open spec fn payload(self) -> int {
        match self {
            Max::Exact(n) => n as int,
            Max::LowerBound(n) => n as int,
        }
    }

    /// Whether the bound is exact.
    pub open spec fn is_exact(self) -> bool {
        self is Exact
    }
}

impl Local {
    /// What an unknown local contributes to a lower bound: nothing.
    pub open spec fn contribution(self) -> int {
        match self {
            Local::Exact(n) => n as int,
            Local::Unknown => 0,
        }
    }
}

/// A `Local` lifted into the `Max` domain: an unknown local becomes the
/// lower bound zero.
pub open spec fn spec_lift(l: Local) -> Max {
    match l {
        Local::Exact(n) => Max::Exact(n),
        Local::Unknown => Max::LowerBound(0),
    }
}

/// Sum of two bounds: exact only when both are exact.
pub open spec fn spec_add(a: Max, b: Max) -> Max
    recommends
        a.payload() + b.payload() <= u64::MAX,
{
    if a is Exact && b is Exact {
        Max::Exact((a.payload() + b.payload()) as u64)
    } else {
        Max::LowerBound((a.payload() + b.payload()) as u64)
    }
}

/// Maximum of two bounds: exact only when both are exact.
pub open spec fn spec_max2(a: Max, b: Max) -> Max {
    let p = if a.payload() >= b.payload() {
        a.payload()
    } else {
        b.payload()
    };
    if a is Exact && b is Exact {
        Max::Exact(p as u64)
    } else {
        Max::LowerBound(p as u64)
    }
}

/// Maximum of a non-empty sequence of bounds.
pub open spec fn spec_max_of(s: Seq<Max>) -> Max
    recommends
        s.len() > 0,
    decreases s.len(),
{
    if s.len() <= 1 {
        s[0]
    } else {
        spec_max2(spec_max_of(s.drop_last()), s.last())
    }
}

impl From<Local> for Max {
    /// Lifts a local value into the `Max` domain.
    fn from(val: Local) -> (r: Max)
        ensures
            r == spec_lift(val),
    {
        match val {
            Local::Exact(n) => Max::Exact(n),
            Local::Unknown => Max::LowerBound(0),
        }
    }
}

impl vstd::std_specs::convert::FromSpecImpl<Local> for Max {
    open spec fn obeys_from_spec() -> bool {
        true
    }

    open spec fn from_spec(val: Local) -> Max {
        spec_lift(val)
    }
}

impl Max {
    /// Adds a callee bound and a caller's local usage.
    pub fn add_local(self, rhs: Local) -> (r: Max)
        requires
            self.payload() + rhs.contribution() <= u64::MAX,
        ensures
            r == spec_add(self, spec_lift(rhs)),
    {
        match (self, rhs) {
            (Max::Exact(lhs), Local::Exact(n)) => Max::Exact(lhs + n),
            (Max::Exact(lhs), Local::Unknown) => Max::LowerBound(lhs),
            (Max::LowerBound(lhs), Local::Exact(n)) => Max::LowerBound(lhs + n),
            (Max::LowerBound(lhs), Local::Unknown) => Max::LowerBound(lhs),
        }
    }

    /// Adds two bounds.
    pub fn add_max(self, rhs: Max) -> (r: Max)
        requires
            self.payload() + rhs.payload() <= u64::MAX,
        ensures
            r == spec_add(self, rhs),
    {
        match (self, rhs) {
            (Max::Exact(lhs), Max::Exact(n)) => Max::Exact(lhs + n),
            (Max::Exact(lhs), Max::LowerBound(n)) => Max::LowerBound(lhs + n),
            (Max::LowerBound(lhs), Max::Exact(n)) => Max::LowerBound(lhs + n),
            (Max::LowerBound(lhs), Max::LowerBound(n)) => Max::LowerBound(lhs + n),
        }
    }
}

/// The larger of two bounds; degrades to a lower bound when either side is one.
pub fn max(lhs: Max, rhs: Max) -> (r: Max)
    ensures
        r == spec_max2(lhs, rhs),
{
    match (lhs, rhs) {
        (Max::Exact(a), Max::Exact(b)) => Max::Exact(
            if a >= b {
                a
            } else {
                b
            },
        ),
        (Max::Exact(a), Max::LowerBound(b)) => Max::LowerBound(
            if a >= b {
                a
            } else {
                b
            },
        ),
        (Max::LowerBound(a), Max::Exact(b)) => Max::LowerBound(
            if a >= b {
                a
            } else {
                b
            },
        ),
        (Max::LowerBound(a), Max::LowerBound(b)) => Max::LowerBound(
            if a >= b {
                a
            } else {
                b
            },
        ),
    }
}

/// The maximum of a list of bounds, `None` when the list is empty.
pub fn max_of(xs: &Vec<Max>) -> (r: Option<Max>)
    ensures
        r is Some <==> xs@.len() > 0,
        xs@.len() > 0 ==> r == Some(spec_max_of(xs@)),
{
    if xs.len() == 0 {
        None
    } else {
        let mut acc = xs[0];
        let mut i: usize = 1;
        while i < xs.len()
            invariant
                1 <= i <= xs@.len(),
                acc == spec_max_of(xs@.take(i as int)),
            decreases xs@.len() - i,
        {
            proof {
                assert(xs@.take(i + 1).drop_last() =~= xs@.take(i as int));
                assert(xs@.take(i + 1).last() == xs@[i as int]);
            }
            acc = max(acc, xs[i]);
            i = i + 1;
        }
        proof {
            assert(xs@.take(xs@.len() as int) =~= xs@);
        }
        Some(acc)
    }
}

/// Every element of a non-empty sequence is bounded by its maximum, and the
/// maximum's payload is attained by some element.
pub proof fn lemma_max_of_bounds(s: Seq<Max>)
    requires
        s.len() > 0,
    ensures
        forall|i: int| 0 <= i < s.len() ==> s[i].payload() <= spec_max_of(s).payload(),
        exists|i: int| 0 <= i < s.len() && s[i].payload() == spec_max_of(s).payload(),
    decreases s.len(),
{
    if s.len() > 1 {
        lemma_max_of_bounds(s.drop_last());
        let sub = s.drop_last();
        assert(forall|i: int| 0 <= i < s.len() - 1 ==> s[i] == sub[i]);
        let j = choose|j: int| 0 <= j < sub.len() && sub[j].payload() == spec_max_of(
            sub,
        ).payload();
        if spec_max_of(s).payload() == spec_max_of(sub).payload() {
            assert(s[j].payload() == spec_max_of(s).payload());
        } else {
            assert(s[s.len() - 1].payload() == spec_max_of(s).payload());
        }
    }
}

/// The maximum of a non-empty sequence is exact exactly when every element is.
pub proof fn lemma_max_of_exact(s: Seq<Max>)
    requires
        s.len() > 0,
    ensures
        spec_max_of(s).is_exact() <==> (forall|i: int| 0 <= i < s.len() ==> s[i].is_exact()),
    decreases s.len(),
{
    if s.len() > 1 {
        lemma_max_of_exact(s.drop_last());
        let sub = s.drop_last();
        assert(forall|i: int| 0 <= i < s.len() - 1 ==> s[i] == sub[i]);
        assert(s[s.len() - 1] == s.last());
    }
}

} // verus!
