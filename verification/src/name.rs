//! Names: spelled, minted, the refinement element, and de Bruijn references to
//! an enclosing function's binder.
use vstd::prelude::*;
use crate::text::{
    lemma_text_lt_irreflexive, lemma_text_lt_total, lemma_text_lt_transitive, nat_text, owned,
    push_str, same_text, show_u64, text_before, text_lt,
};

verus! {

/// The spelling of the refinement element binder.
pub const REFINEMENT_BINDER: &'static str = "__elem";

/// A variable's identity.
#[derive(Debug)]
pub enum Name {
    /// A name as the source spells it.
    Raw(String),
    /// A minted name: a spelling and the identity that sets it apart.
    Fresh(String, u64),
    /// The element a refinement predicate speaks of.
    Elem,
    /// A reference to the function that many codomain crossings out, and how
    /// its argument is spelled where that is known.
    PiBound(u32, Option<String>),
}

/// The mathematical content of a [`Name`].
pub enum NameS {
    Raw(Seq<char>),
    Fresh(Seq<char>, u64),
    Elem,
    PiBound(u32, Option<Seq<char>>),
}

impl NameS {
    /// The name without the spelling of a reference to a function, which is no
    /// part of what it refers to.
    pub open spec fn ident(self) -> NameS {
        match self {
            NameS::PiBound(k, _) => NameS::PiBound(k, None),
            _ => self,
        }
    }

    /// The spelling a name is introduced with.
    pub open spec fn base(self) -> Seq<char> {
        match self {
            NameS::Raw(s) => s,
            NameS::Fresh(s, _) => s,
            NameS::Elem => REFINEMENT_BINDER@,
            NameS::PiBound(_, Some(s)) => s,
            NameS::PiBound(k, None) => seq!['#'] + nat_text(k as nat),
        }
    }

    /// The record field a name's history occupies: its spelling, told apart by
    /// identity where the name was minted.
    pub open spec fn field_key(self) -> Seq<char> {
        match self {
            NameS::Fresh(s, uid) => s + seq!['_'] + nat_text(uid as nat),
            _ => self.base(),
        }
    }

    pub open spec fn pi_bound_index(self) -> Option<u32> {
        match self {
            NameS::PiBound(k, _) => Some(k),
            _ => None,
        }
    }

    spec fn rank(self) -> int {
        match self {
            NameS::Raw(_) => 0,
            NameS::Fresh(_, _) => 1,
            NameS::Elem => 2,
            NameS::PiBound(_, _) => 3,
        }
    }

    /// The order of names: by form, then spelling, then identity.
    pub closed spec fn lt(self, other: NameS) -> bool {
        if self.rank() != other.rank() {
            self.rank() < other.rank()
        } else {
            match (self, other) {
                (NameS::Raw(a), NameS::Raw(b)) => text_lt(a, b),
                (NameS::Fresh(a, m), NameS::Fresh(b, n)) => text_lt(a, b) || (a == b && m < n),
                (NameS::PiBound(j, a), NameS::PiBound(k, b)) => j < k || (j == k && match (a, b) {
                    (None, Some(_)) => true,
                    (Some(s), Some(t)) => text_lt(s, t),
                    _ => false,
                }),
                _ => false,
            }
        }
    }
}

/// No name comes before itself.
pub proof fn lemma_name_lt_irreflexive(a: NameS)
    ensures
        !a.lt(a),
{
    match a {
        NameS::Raw(s) => lemma_text_lt_irreflexive(s),
        NameS::Fresh(s, _) => lemma_text_lt_irreflexive(s),
        NameS::PiBound(_, Some(s)) => lemma_text_lt_irreflexive(s),
        _ => {}
    }
}

/// Of two different names one comes before the other.
pub proof fn lemma_name_lt_total(a: NameS, b: NameS)
    ensures
        a.lt(b) || b.lt(a) || a == b,
{
    match (a, b) {
        (NameS::Raw(s), NameS::Raw(t)) => lemma_text_lt_total(s, t),
        (NameS::Fresh(s, _), NameS::Fresh(t, _)) => lemma_text_lt_total(s, t),
        (NameS::PiBound(_, Some(s)), NameS::PiBound(_, Some(t))) => lemma_text_lt_total(s, t),
        _ => {}
    }
}

/// The order of names is transitive.
pub proof fn lemma_name_lt_transitive(a: NameS, b: NameS, c: NameS)
    requires
        a.lt(b),
        b.lt(c),
    ensures
        a.lt(c),
{
    match (a, b, c) {
        (NameS::Raw(r), NameS::Raw(s), NameS::Raw(t)) => lemma_text_lt_transitive(r, s, t),
        (NameS::Fresh(r, _), NameS::Fresh(s, _), NameS::Fresh(t, _)) => {
            if text_lt(r, s) && text_lt(s, t) {
                lemma_text_lt_transitive(r, s, t);
            }
        },
        (
            NameS::PiBound(_, Some(r)),
            NameS::PiBound(_, Some(s)),
            NameS::PiBound(_, Some(t)),
        ) => {
            if text_lt(r, s) && text_lt(s, t) {
                lemma_text_lt_transitive(r, s, t);
            }
        },
        _ => {}
    }
}

impl View for Name {
    type V = NameS;

    open spec fn view(&self) -> NameS {
        match self {
            Name::Raw(s) => NameS::Raw(s@),
            Name::Fresh(s, uid) => NameS::Fresh(s@, *uid),
            Name::Elem => NameS::Elem,
            Name::PiBound(k, None) => NameS::PiBound(*k, None),
            Name::PiBound(k, Some(s)) => NameS::PiBound(*k, Some(s@)),
        }
    }
}

impl Clone for Name {
    fn clone(&self) -> (r: Name)
        ensures
            r@ == self@,
    {
        match self {
            Name::Raw(s) => Name::Raw(s.clone()),
            Name::Fresh(s, uid) => Name::Fresh(s.clone(), *uid),
            Name::Elem => Name::Elem,
            Name::PiBound(k, None) => Name::PiBound(*k, None),
            Name::PiBound(k, Some(s)) => Name::PiBound(*k, Some(s.clone())),
        }
    }
}

impl Name {
    /// The name spelled `s`.
    pub fn raw(s: &str) -> (r: Name)
        ensures
            r@ == NameS::Raw(s@),
    {
        Name::Raw(owned(s))
    }

    /// The refinement element binder.
    pub fn elem() -> (r: Name)
        ensures
            r@ == NameS::Elem,
    {
        Name::Elem
    }

    /// A reference to the function `index` codomain crossings out, spelled as
    /// its argument `named` is.
    pub fn pi_bound(index: u32, named: &Name) -> (r: Name)
        ensures
            r@ == NameS::PiBound(index, Some(named@.base())),
    {
        Name::PiBound(index, Some(named.to_text()))
    }

    /// A reference to the function `index` codomain crossings out.
    pub fn pi_bound_bare(index: u32) -> (r: Name)
        ensures
            r@ == NameS::PiBound(index, None),
    {
        Name::PiBound(index, None)
    }

    /// Whether the two names are one, however a reference to a function is
    /// spelled.
    pub fn same_ident(&self, other: &Name) -> (r: bool)
        ensures
            r == (self@.ident() == other@.ident()),
    {
        match (self, other) {
            (Name::PiBound(j, _), Name::PiBound(k, _)) => *j == *k,
            _ => self.same(other),
        }
    }

    /// Whether the two names are the same name.
    pub fn same(&self, other: &Name) -> (r: bool)
        ensures
            r == (self@ == other@),
    {
        match (self, other) {
            (Name::Raw(a), Name::Raw(b)) => same_text(a.as_str(), b.as_str()),
            (Name::Fresh(a, m), Name::Fresh(b, n)) => *m == *n && same_text(a.as_str(), b.as_str()),
            (Name::Elem, Name::Elem) => true,
            (Name::PiBound(j, None), Name::PiBound(k, None)) => *j == *k,
            (Name::PiBound(j, Some(a)), Name::PiBound(k, Some(b))) => *j == *k && same_text(
                a.as_str(),
                b.as_str(),
            ),
            _ => false,
        }
    }

    /// Whether this name comes before `other`.
    pub fn before(&self, other: &Name) -> (r: bool)
        ensures
            r == self@.lt(other@),
    {
        match (self, other) {
            (Name::Raw(a), Name::Raw(b)) => text_before(a.as_str(), b.as_str()),
            (Name::Fresh(a, m), Name::Fresh(b, n)) => {
                text_before(a.as_str(), b.as_str())
                    || (same_text(a.as_str(), b.as_str()) && *m < *n)
            },
            (Name::PiBound(j, a), Name::PiBound(k, b)) => *j < *k || (*j == *k && match (a, b) {
                (None, Some(_)) => true,
                (Some(s), Some(t)) => text_before(s.as_str(), t.as_str()),
                _ => false,
            }),
            (Name::Raw(_), Name::Fresh(_, _)) => true,
            (Name::Raw(_), Name::Elem) => true,
            (Name::Raw(_), Name::PiBound(_, _)) => true,
            (Name::Fresh(_, _), Name::Elem) => true,
            (Name::Fresh(_, _), Name::PiBound(_, _)) => true,
            (Name::Elem, Name::PiBound(_, _)) => true,
            _ => false,
        }
    }

    /// The spelling the name is introduced with.
    pub fn base(&self) -> (r: String)
        ensures
            r@ == self@.base(),
    {
        match self {
            Name::Raw(s) => s.clone(),
            Name::Fresh(s, _) => s.clone(),
            Name::Elem => owned(REFINEMENT_BINDER),
            Name::PiBound(_, Some(s)) => s.clone(),
            Name::PiBound(k, None) => {
                proof { reveal_strlit("#"); }
                let mut out = owned("#");
                push_str(&mut out, show_u64(*k as u64).as_str());
                assert(out@ =~= self@.base());
                out
            },
        }
    }

    /// The name as it prints: its spelling.
    pub fn to_text(&self) -> (r: String)
        ensures
            r@ == self@.base(),
    {
        self.base()
    }

    /// The record field this name's history occupies.
    pub fn field_key(&self) -> (r: String)
        ensures
            r@ == self@.field_key(),
    {
        match self {
            Name::Fresh(s, uid) => {
                proof { reveal_strlit("_"); }
                let mut out = s.clone();
                push_str(&mut out, "_");
                push_str(&mut out, show_u64(*uid).as_str());
                assert(out@ =~= self@.field_key());
                out
            },
            _ => self.base(),
        }
    }

    /// The index of a reference to an enclosing function.
    pub fn pi_bound_index(&self) -> (r: Option<u32>)
        ensures
            r == self@.pi_bound_index(),
    {
        match self {
            Name::PiBound(k, _) => Some(*k),
            _ => None,
        }
    }

    /// Whether this is the refinement element binder.
    pub fn is_elem(&self) -> (r: bool)
        ensures
            r == (self@ == NameS::Elem),
    {
        match self {
            Name::Elem => true,
            _ => false,
        }
    }
}

/// The names of a sequence.
pub open spec fn names_view(v: Seq<Name>) -> Seq<NameS> {
    Seq::new(v.len(), |i: int| v[i]@)
}

/// Copies a list of names.
pub fn clone_names(v: &Vec<Name>) -> (r: Vec<Name>)
    ensures
        names_view(r@) == names_view(v@),
{
    let mut out: Vec<Name> = Vec::new();
    let mut i: usize = 0;
    while i < v.len()
        invariant
            i <= v.len(),
            out.len() == i,
            forall|j: int| 0 <= j < i ==> (#[trigger] out@[j])@ == v@[j]@,
        decreases v.len() - i,
    {
        out.push(v[i].clone());
        i = i + 1;
    }
    assert(names_view(out@) =~= names_view(v@));
    out
}

/// Whether `n` is among `v`.
pub fn has_name(v: &Vec<Name>, n: &Name) -> (r: bool)
    ensures
        r == names_view(v@).contains(n@),
{
    let mut i: usize = 0;
    while i < v.len()
        invariant
            i <= v.len(),
            forall|j: int| 0 <= j < i ==> names_view(v@)[j] != n@,
        decreases v.len() - i,
    {
        if v[i].same(n) {
            assert(names_view(v@)[i as int] == n@);
            return true;
        }
        i = i + 1;
    }
    false
}

/// The source of minted names.
pub struct NameSupply {
    pub next: u64,
}

impl NameSupply {
    pub fn new() -> (r: NameSupply)
        ensures
            r.next == 0,
    {
        NameSupply { next: 0 }
    }

    /// The identity after `uid`; identities start over after the last one.
    pub open spec fn after(uid: u64) -> u64 {
        if uid == u64::MAX { 0 } else { (uid + 1) as u64 }
    }

    /// Mints a name spelled `base`.
    pub fn fresh(&mut self, base: &str) -> (r: Name)
        ensures
            r@ == NameS::Fresh(base@, old(self).next),
            final(self).next == Self::after(old(self).next),
    {
        let uid: u64 = self.next;
        self.next = if uid == u64::MAX { 0 } else { uid + 1 };
        Name::Fresh(owned(base), uid)
    }
}

} // verus!
