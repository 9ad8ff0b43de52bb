//! What is known of a function's kind, as a join semilattice.
use vstd::prelude::*;

verus! {

/// What is known of a function's kind.
#[derive(Clone, Copy, PartialEq, Eq, PartialOrd, Ord, Debug, Structural)]
pub enum KindPin {
    Unpinned,
    Compute,
    Data,
    Plain,
    Sum(usize),
    Conflict,
}

impl Default for KindPin {
    fn default() -> (r: KindPin)
        ensures
            r == KindPin::Unpinned,
    {
        KindPin::Unpinned
    }
}

/// What two pins say together.
pub open spec fn join_s(a: KindPin, b: KindPin) -> KindPin {
    if a == b || b is Unpinned {
        a
    } else if a is Unpinned {
        b
    } else if a is Data && (b is Plain || b is Sum) {
        b
    } else if b is Data && (a is Plain || a is Sum) {
        a
    } else {
        KindPin::Conflict
    }
}

/// Whether `b` says all that `a` says.
pub open spec fn pin_le(a: KindPin, b: KindPin) -> bool {
    join_s(a, b) == b
}

impl KindPin {
    /// What the two pins say together.
    pub fn join(self, other: KindPin) -> (r: KindPin)
        ensures
            r == join_s(self, other),
    {
        match (self, other) {
            (KindPin::Unpinned, p) => p,
            (p, KindPin::Unpinned) => p,
            (KindPin::Conflict, _) => KindPin::Conflict,
            (_, KindPin::Conflict) => KindPin::Conflict,
            (KindPin::Compute, KindPin::Compute) => KindPin::Compute,
            (KindPin::Compute, _) => KindPin::Conflict,
            (_, KindPin::Compute) => KindPin::Conflict,
            (KindPin::Data, p) => p,
            (p, KindPin::Data) => p,
            (KindPin::Plain, KindPin::Plain) => KindPin::Plain,
            (KindPin::Sum(a), KindPin::Sum(b)) => if a == b {
                KindPin::Sum(a)
            } else {
                KindPin::Conflict
            },
            _ => KindPin::Conflict,
        }
    }

    /// Whether the pin says that the function is data.
    pub fn is_data(&self) -> (r: bool)
        ensures
            r == (self is Data || self is Plain || self is Sum),
    {
        match self {
            KindPin::Data => true,
            KindPin::Plain => true,
            KindPin::Sum(_) => true,
            _ => false,
        }
    }

    /// How many witnesses the function binds, where that is known.
    pub fn arity(&self) -> (r: Option<usize>)
        ensures
            r == arity_s(*self),
    {
        match self {
            KindPin::Sum(n) => Some(*n),
            KindPin::Plain => Some(0),
            _ => None,
        }
    }
}

/// How many witnesses a function so pinned binds.
pub open spec fn arity_s(p: KindPin) -> Option<usize> {
    match p {
        KindPin::Sum(n) => Some(n),
        KindPin::Plain => Some(0),
        _ => None,
    }
}

/// The order in which pins are joined does not matter.
pub proof fn law_join_commutes(a: KindPin, b: KindPin)
    ensures
        join_s(a, b) == join_s(b, a),
{
}

/// The grouping in which pins are joined does not matter.
pub proof fn law_join_associates(a: KindPin, b: KindPin, c: KindPin)
    ensures
        join_s(join_s(a, b), c) == join_s(a, join_s(b, c)),
{
}

/// Joining a pin with itself adds nothing.
pub proof fn law_join_is_idempotent(a: KindPin)
    ensures
        join_s(a, a) == a,
{
}

/// No pin adds nothing, and a conflict stays one.
pub proof fn law_join_ends(a: KindPin)
    ensures
        join_s(KindPin::Unpinned, a) == a,
        join_s(KindPin::Conflict, a) == KindPin::Conflict,
{
}

/// A join says all that either pin says, and no more than what says both.
pub proof fn law_join_is_the_least_upper_bound(a: KindPin, b: KindPin, c: KindPin)
    ensures
        pin_le(a, join_s(a, b)),
        pin_le(b, join_s(a, b)),
        pin_le(a, c) && pin_le(b, c) ==> pin_le(join_s(a, b), c),
{
}

/// Two pins that say all of each other are one.
pub proof fn law_pins_are_ordered(a: KindPin, b: KindPin, c: KindPin)
    ensures
        pin_le(a, b) && pin_le(b, a) ==> a == b,
        pin_le(a, b) && pin_le(b, c) ==> pin_le(a, c),
{
}

} // verus!
