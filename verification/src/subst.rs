//! Substitutions: building, composing and inverting them, and applying them to
//! terms and types.
use std::rc::Rc;
use vstd::prelude::*;
use crate::ast::{Expr, ExprS, HeadS, Refinement, Type, TypedExprNode};
use crate::built::{lemma_range_is_leafy, lemma_references_are_leaves};
use crate::equality::expr_eq;
use crate::name::{Name, NameS, lemma_name_lt_irreflexive, names_view};
use crate::name_map::{NameMap, names_ascending};
use crate::pi::{Mapping, MappingS};
use crate::refine_eq::{eq_refinement_predicate, same_pred};
use crate::scope::{free_in, is_free, own_ref};
use crate::subst_laws::{
    applied_in_turn, handles_agree, law_applying_a_composition, law_composing_with_identity,
    law_composition_of_names, value_of_name, value_sub,
};
use crate::subst_types::{ends_well, law_discharged_name_is_gone, stored, targeted};
use crate::substitution::{
    Subst, SubstS, is_live, strip_iterate_markers, sub_expr, sub_ok, sub_pred, sub_ty,
    sub_ty_ok, subst_expr, subst_type, without,
};

verus! {

/// What `k` stands for under `a` and then `b`, where that is not `k` itself.
pub open spec fn then_at(a: SubstS, b: SubstS, k: NameS) -> Option<MappingS> {
    let composed = if a.dom().contains(k) {
        match a[k] {
            MappingS::Rename(to) => if b.dom().contains(to) {
                Some(b[to])
            } else {
                Some(MappingS::Rename(to))
            },
            MappingS::Discharge(t) => Some(MappingS::Discharge(sub_expr(false, b, t))),
        }
    } else if b.dom().contains(k) {
        Some(b[k])
    } else {
        None
    };
    match composed {
        Some(MappingS::Rename(to)) => if to == k { None } else { composed },
        Some(MappingS::Discharge(t)) => if t.head == HeadS::Var(k) { None } else { composed },
        None => None,
    }
}

/// The substitution `a` and then `b`.
pub open spec fn then_s(a: SubstS, b: SubstS) -> SubstS {
    if a == Map::<NameS, MappingS>::empty() {
        b
    } else if b == Map::<NameS, MappingS>::empty() {
        a
    } else {
        Map::new(|k: NameS| then_at(a, b, k) is Some, |k: NameS| then_at(a, b, k)->0)
    }
}

/// Whether `b` may act on every term `a` puts in.
pub open spec fn acts_on_range(b: SubstS, a: SubstS) -> bool {
    forall|n: NameS| #[trigger]
        a.dom().contains(n) ==> (a[n] matches MappingS::Discharge(t) ==> sub_ok(false, b, t))
}

/// Whether `ab` is to `a` and `b` as a composition is to its parts: one that
/// replaces nothing leaves the other, a name stands for what `b` makes of what it
/// stands for under `a`, and a term becomes what `b` makes of what `a` makes of it.
pub open spec fn composed_of(a: SubstS, b: SubstS, ab: SubstS) -> bool {
    &&& a == Map::<NameS, MappingS>::empty() ==> ab == b
    &&& b == Map::<NameS, MappingS>::empty() ==> ab == a
    &&& forall|n: NameS| #[trigger]
        value_of_name(ab, n) == value_sub(b, value_of_name(a, n))
    &&& forall|in_place: bool, e: Expr| #[trigger]
        sub_ok(in_place, a, e.view()) && handles_agree(a, b, e.view()) ==> applied_in_turn(
            in_place,
            a,
            b,
            ab,
            e.view(),
        )
}

/// Whether `sigma` only renames, and no two names to one.
pub open spec fn invertible(sigma: SubstS) -> bool {
    &&& forall|k: NameS| #[trigger] sigma.dom().contains(k) ==> sigma[k] is Rename
    &&& forall|j: NameS, k: NameS| #[trigger]
        sigma.dom().contains(j) && #[trigger] sigma.dom().contains(k) && sigma[j] == sigma[k] ==> j == k
}

/// The inverse of a renaming.
pub open spec fn inverse_of(sigma: SubstS, tau: SubstS) -> bool {
    &&& forall|n: NameS| #[trigger]
        tau.dom().contains(n) <==> exists|k: NameS| #[trigger]
            sigma.dom().contains(k) && sigma[k] == MappingS::Rename(n)
    &&& forall|k: NameS| #[trigger]
        sigma.dom().contains(k) ==> (sigma[k] matches MappingS::Rename(n) && tau.dom().contains(n)
            && tau[n] == MappingS::Rename(k))
}

/// Whether `k` is among the first `i` of `keys`.
pub open spec fn seen(keys: Seq<NameS>, i: int, k: NameS) -> bool {
    exists|j: int| 0 <= j < i && keys[j] == k
}

pub proof fn lemma_seen_step(keys: Seq<NameS>, i: int)
    requires
        0 <= i < keys.len(),
    ensures
        forall|k: NameS| #[trigger] seen(keys, i + 1, k) <==> seen(keys, i, k) || keys[i] == k,
{
    assert forall|k: NameS| #[trigger] seen(keys, i + 1, k) <==> seen(keys, i, k) || keys[i]
        == k by {
        if seen(keys, i + 1, k) {
            let j = choose|j: int| 0 <= j < i + 1 && keys[j] == k;
            if j < i {
                assert(0 <= j < i && keys[j] == k);
            }
        }
        if seen(keys, i, k) {
            let j = choose|j: int| 0 <= j < i && keys[j] == k;
            assert(0 <= j < i + 1 && keys[j] == k);
        }
        if keys[i] == k {
            assert(0 <= i < i + 1 && keys[i] == k);
        }
    }
}

pub proof fn lemma_seen_all(keys: Seq<NameS>)
    ensures
        forall|k: NameS| #[trigger] seen(keys, keys.len() as int, k) <==> keys.contains(k),
{
    assert forall|k: NameS| #[trigger]
        seen(keys, keys.len() as int, k) <==> keys.contains(k) by {
        if keys.contains(k) {
            let j = choose|j: int| 0 <= j < keys.len() && keys[j] == k;
            assert(0 <= j < keys.len() && keys[j] == k);
        }
    }
}

/// `env` as a substitution of what is free in `e`.
pub open spec fn env_subst(env: Map<NameS, ExprS>, e: ExprS) -> SubstS {
    Map::new(
        |n: NameS| env.dom().contains(n) && free_in(n, e),
        |n: NameS| MappingS::Discharge(env[n]),
    )
}

/// The terms of an environment.
pub open spec fn env_view(m: Map<NameS, Expr>) -> Map<NameS, ExprS> {
    m.map_values(|e: Expr| e.view())
}

/// A discharge of a variable reads as a renaming to it.
pub open spec fn as_correspondence(m: MappingS) -> MappingS {
    match m {
        MappingS::Discharge(t) => match t.head {
            HeadS::Var(n) => MappingS::Rename(n),
            _ => m,
        },
        _ => m,
    }
}

/// Whether two names stand for the same: the same name, or the same term, its
/// types counted where `exact`.
pub open spec fn same_mapping(exact: bool, a: MappingS, b: MappingS) -> bool {
    match (a, b) {
        (MappingS::Rename(x), MappingS::Rename(y)) => x.ident() == y.ident(),
        (MappingS::Discharge(s), MappingS::Discharge(t)) => if exact {
            expr_eq(s, t)
        } else {
            same_pred(s, t)
        },
        _ => false,
    }
}

/// Whether two substitutions act on the same names in the same way.
pub open spec fn same_subst(exact: bool, a: SubstS, b: SubstS) -> bool {
    a.dom() == b.dom() && forall|k: NameS| #[trigger]
        a.dom().contains(k) ==> same_mapping(exact, a[k], b[k])
}

/// A discharge of a name that is not free changes nothing.
proof fn lemma_discharged(n: NameS, t: ExprS, e: ExprS)
    ensures
        !free_in(n, e) ==> sub_expr(
            true,
            Map::<NameS, MappingS>::empty().insert(n, MappingS::Discharge(t)),
            e,
        ) == e,
{
    let s = Map::<NameS, MappingS>::empty().insert(n, MappingS::Discharge(t));
    if !free_in(n, e) {
        assert forall|k: NameS| #[trigger] s.dom().contains(k) implies !free_in(k, e) by {
            assert(k == n);
        }
        assert(!is_live(s, e));
    }
}

impl Subst {
    /// The substitution of `to` for `from`.
    pub fn rename(from: Name, to: Name) -> (r: Subst)
        requires
            !(from@ is PiBound),
        ensures
            r.view() == Map::<NameS, MappingS>::empty().insert(from@, MappingS::Rename(to@)),
    {
        Subst::id().with(from, Mapping::Rename(to))
    }

    /// The substitution of `term` for `binder`.
    pub fn discharge(binder: Name, term: Expr) -> (r: Subst)
        requires
            !(binder@ is PiBound),
        ensures
            r.view() == Map::<NameS, MappingS>::empty().insert(
                binder@,
                MappingS::Discharge(term.view()),
            ),
    {
        Subst::id().with(binder, Mapping::Discharge(Box::new(term)))
    }

    /// The names the substitution acts on, in ascending order.
    pub fn binders(&self) -> (r: Vec<Name>)
        ensures
            names_ascending(names_view(r@)),
            forall|n: NameS| names_view(r@).contains(n) <==> self.view().dom().contains(n),
    {
        let out = self.map.keys();
        proof {
            assert forall|n: NameS| names_view(out@).contains(n) <==> self.view().dom().contains(
                n,
            ) by {
                assert(self.map.view().dom().contains(n) <==> self.map.keys_view().contains(n));
            }
        }
        out
    }

    /// Replaces each discharged term by what `f` makes of it.
    pub fn for_each_discharge_term_mut<F: Fn(&Expr) -> Expr>(&mut self, f: F)
        requires
            forall|t: &Expr| f.requires((t,)),
        ensures
            final(self).view().dom() == old(self).view().dom(),
            forall|k: NameS| #[trigger]
                old(self).map.view().dom().contains(k) ==> match old(self).map.view()[k] {
                    Mapping::Rename(to) => final(self).view()[k] == MappingS::Rename(to@),
                    Mapping::Discharge(t) => exists|q: Expr| #[trigger]
                        f.ensures((&*t,), q) && final(self).view()[k] == MappingS::Discharge(
                            q.view(),
                        ),
                },
    {
        let n: usize = self.map.len();
        let ghost keys = self.map.keys_view();
        let ghost whole = self.map.view();
        let mut out = Subst::id();
        let mut i: usize = 0;
        while i < n
            invariant
                i <= n,
                n == keys.len(),
                keys == self.map.keys_view(),
                whole == self.map.view(),
                forall|t: &Expr| f.requires((t,)),
                names_ascending(keys),
                forall|k: NameS| #[trigger]
                    out.view().dom().contains(k) <==> seen(keys, i as int, k),
                forall|j: int|
                    0 <= j < i ==> match whole[#[trigger] keys[j]] {
                        Mapping::Rename(to) => out.view()[keys[j]] == MappingS::Rename(to@),
                        Mapping::Discharge(t) => exists|q: Expr| #[trigger]
                            f.ensures((&*t,), q) && out.view()[keys[j]] == MappingS::Discharge(
                                q.view(),
                            ),
                    },
            decreases n - i,
        {
            let key = self.map.key(i);
            let ghost before = out.view();
            let m = match self.map.value(i) {
                Mapping::Rename(to) => Mapping::Rename(to.clone()),
                Mapping::Discharge(t) => {
                    let q = f(&**t);
                    Mapping::Discharge(Box::new(q))
                },
            };
            let ghost mv = m.view();
            out = out.with(key.clone(), m);
            proof {
                lemma_seen_step(keys, i as int);
                assert forall|j: int| 0 <= j < i implies keys[j] != keys[i as int] by {
                    lemma_name_lt_irreflexive(keys[j]);
                    assert(keys[j].lt(keys[i as int]));
                }
                assert forall|j: int| 0 <= j < i implies out.view()[#[trigger] keys[j]]
                    == before[keys[j]] by {}
            }
            i = i + 1;
        }
        proof {
            lemma_seen_all(keys);
            assert(out.view().dom() =~= self.view().dom()) by {
                assert forall|k: NameS| out.view().dom().contains(k) <==> self.view().dom().contains(
                    k,
                ) by {
                    assert(whole.dom().contains(k) <==> keys.contains(k));
                }
            }
            assert forall|k: NameS| #[trigger] whole.dom().contains(k) implies match whole[k] {
                Mapping::Rename(to) => out.view()[k] == MappingS::Rename(to@),
                Mapping::Discharge(t) => exists|q: Expr| #[trigger]
                    f.ensures((&*t,), q) && out.view()[k] == MappingS::Discharge(q.view()),
            } by {
                assert(keys.contains(k));
                let j = choose|j: int| 0 <= j < keys.len() && keys[j] == k;
                assert(keys[j] == k);
            }
        }
        *self = out;
    }

    /// The renamings and the discharges, apart.
    pub fn split_renames(&self) -> (r: (Subst, Subst))
        ensures
            r.0.view() == Map::new(
                |k: NameS| self.view().dom().contains(k) && self.view()[k] is Rename,
                |k: NameS| self.view()[k],
            ),
            r.1.view() == Map::new(
                |k: NameS| self.view().dom().contains(k) && self.view()[k] is Discharge,
                |k: NameS| self.view()[k],
            ),
            r.0.view().dom().disjoint(r.1.view().dom()),
            r.0.view().union_prefer_right(r.1.view()) == self.view(),
    {
        let n: usize = self.map.len();
        let ghost keys = self.map.keys_view();
        let ghost whole = self.view();
        let mut ren = Subst::id();
        let mut term = Subst::id();
        let mut i: usize = 0;
        while i < n
            invariant
                i <= n,
                n == keys.len(),
                keys == self.map.keys_view(),
                whole == self.view(),
                forall|k: NameS| #[trigger]
                    ren.view().dom().contains(k) <==> seen(keys, i as int, k)
                        && whole[k] is Rename,
                forall|k: NameS| #[trigger]
                    term.view().dom().contains(k) <==> seen(keys, i as int, k)
                        && whole[k] is Discharge,
                forall|k: NameS| #[trigger]
                    ren.view().dom().contains(k) ==> ren.view()[k] == whole[k],
                forall|k: NameS| #[trigger]
                    term.view().dom().contains(k) ==> term.view()[k] == whole[k],
            decreases n - i,
        {
            let key = self.map.key(i);
            let m = self.map.value(i).clone();
            proof {
                lemma_seen_step(keys, i as int);
                assert(m.view() == whole[keys[i as int]]);
            }
            match m {
                Mapping::Rename(to) => {
                    ren = ren.with(key.clone(), Mapping::Rename(to));
                },
                Mapping::Discharge(t) => {
                    term = term.with(key.clone(), Mapping::Discharge(t));
                },
            }
            i = i + 1;
        }
        proof {
            lemma_seen_all(keys);
            assert forall|k: NameS| whole.dom().contains(k) <==> keys.contains(k) by {
                assert(self.map.view().dom().contains(k) <==> keys.contains(k));
            }
            assert(ren.view() =~= Map::new(
                |k: NameS| whole.dom().contains(k) && whole[k] is Rename,
                |k: NameS| whole[k],
            ));
            assert(term.view() =~= Map::new(
                |k: NameS| whole.dom().contains(k) && whole[k] is Discharge,
                |k: NameS| whole[k],
            ));
        }
        (ren, term)
    }

    /// Whether the two act on the same names in the same way, the types of the
    /// terms they put in aside.
    pub fn eq_modulo_ty_slots(&self, other: &Subst) -> (r: bool)
        ensures
            r == same_subst(false, self.view(), other.view()),
    {
        self.agrees_with(other, false)
    }

    /// Whether the two act on the same names in the same way.
    pub fn same(&self, other: &Subst) -> (r: bool)
        ensures
            r == same_subst(true, self.view(), other.view()),
    {
        self.agrees_with(other, true)
    }

    fn agrees_with(&self, other: &Subst, exact: bool) -> (r: bool)
        ensures
            r == same_subst(exact, self.view(), other.view()),
    {
        let n: usize = self.map.len();
        let m: usize = other.map.len();
        let ghost ka = self.map.keys_view();
        let ghost kb = other.map.keys_view();
        let ghost a = self.view();
        let ghost b = other.view();
        proof {
            assert forall|k: NameS| a.dom().contains(k) <==> ka.contains(k) by {
                assert(self.map.view().dom().contains(k) <==> ka.contains(k));
            }
            assert forall|k: NameS| b.dom().contains(k) <==> kb.contains(k) by {
                assert(other.map.view().dom().contains(k) <==> kb.contains(k));
            }
        }
        let mut i: usize = 0;
        while i < n
            invariant
                i <= n,
                n == ka.len(),
                ka == self.map.keys_view(),
                a == self.view(),
                b == other.view(),
                forall|k: NameS| a.dom().contains(k) <==> ka.contains(k),
                forall|j: int|
                    0 <= j < i ==> b.dom().contains(#[trigger] ka[j]) && same_mapping(
                        exact,
                        a[ka[j]],
                        b[ka[j]],
                    ),
            decreases n - i,
        {
            let key = self.map.key(i);
            let agree = match (self.map.value(i), other.get(key)) {
                (Mapping::Rename(x), Some(Mapping::Rename(y))) => x.same_ident(y),
                (Mapping::Discharge(s), Some(Mapping::Discharge(t))) => if exact {
                    s.same(t)
                } else {
                    eq_refinement_predicate(s, t)
                },
                _ => false,
            };
            if !agree {
                assert(a.dom().contains(key@));
                return false;
            }
            i = i + 1;
        }
        let mut i: usize = 0;
        while i < m
            invariant
                i <= m,
                m == kb.len(),
                kb == other.map.keys_view(),
                a == self.view(),
                b == other.view(),
                forall|k: NameS| b.dom().contains(k) <==> kb.contains(k),
                forall|j: int| 0 <= j < i ==> a.dom().contains(#[trigger] kb[j]),
            decreases m - i,
        {
            let key = other.map.key(i);
            if self.get(key).is_none() {
                assert(b.dom().contains(key@));
                return false;
            }
            i = i + 1;
        }
        proof {
            assert forall|k: NameS| a.dom().contains(k) <==> b.dom().contains(k) by {
                if a.dom().contains(k) {
                    assert(ka.contains(k));
                    let j = choose|j: int| 0 <= j < ka.len() && ka[j] == k;
                    assert(b.dom().contains(ka[j]));
                }
                if b.dom().contains(k) {
                    assert(kb.contains(k));
                    let j = choose|j: int| 0 <= j < kb.len() && kb[j] == k;
                    assert(a.dom().contains(kb[j]));
                }
            }
            assert(a.dom() =~= b.dom());
            assert forall|k: NameS| #[trigger] a.dom().contains(k) implies same_mapping(
                exact,
                a[k],
                b[k],
            ) by {
                assert(ka.contains(k));
                let j = choose|j: int| 0 <= j < ka.len() && ka[j] == k;
                assert(same_mapping(exact, a[ka[j]], b[ka[j]]));
            }
        }
        true
    }

    /// Adds what `k` stands for under `a` and then `b`.
    fn compose_at(a: &Subst, b: &Subst, k: &Name, out: Subst) -> (r: Subst)
        requires
            acts_on_range(b.view(), a.view()),
        ensures
            r.view() == (match then_at(a.view(), b.view(), k@) {
                Some(m) => out.view().insert(k@, m),
                None => out.view(),
            }),
    {
        let composed: Option<Mapping> = match a.get(k) {
            Some(Mapping::Rename(to)) => match b.get(to) {
                Some(m) => Some(m.clone()),
                None => Some(Mapping::Rename(to.clone())),
            },
            Some(Mapping::Discharge(t)) => Some(
                Mapping::Discharge(Box::new(subst_expr(false, b, t))),
            ),
            None => match b.get(k) {
                Some(m) => Some(m.clone()),
                None => None,
            },
        };
        match composed {
            Some(Mapping::Rename(to)) => {
                if to.same(k) {
                    out
                } else {
                    out.with(k.clone(), Mapping::Rename(to))
                }
            },
            Some(Mapping::Discharge(t)) => {
                let is_identity = match &t.node {
                    TypedExprNode::Var(n) => n.same(k),
                    _ => false,
                };
                if is_identity {
                    out
                } else {
                    out.with(k.clone(), Mapping::Discharge(t))
                }
            },
            None => out,
        }
    }

    /// This substitution followed by `b`. Composing with the substitution that
    /// replaces nothing gives the other one back. Applied to a term it gives the
    /// value that this one and then `b` give, unless this one renames a handle that
    /// `b` then discharges. Where nothing is typed yet it gives the very term, unless
    /// this one sends away an annotated reference that `b` sends back.
    pub fn followed_by(&self, b: &Subst) -> (r: Subst)
        requires
            acts_on_range(b.view(), self.view()),
        ensures
            r.view() == then_s(self.view(), b.view()),
            composed_of(self.view(), b.view(), r.view()),
    {
        let a = self;
        proof {
            lemma_range_is_leafy(*a);
            lemma_range_is_leafy(*b);
            law_composing_with_identity(a.view());
            law_composing_with_identity(b.view());
            assert forall|n: NameS| #[trigger]
                value_of_name(then_s(a.view(), b.view()), n) == value_sub(
                    b.view(),
                    value_of_name(a.view(), n),
                ) by {
                law_composition_of_names(a.view(), b.view(), n);
            }
            assert forall|in_place: bool, e: Expr| #[trigger]
                sub_ok(in_place, a.view(), e.view()) && handles_agree(
                    a.view(),
                    b.view(),
                    e.view(),
                ) implies applied_in_turn(
                in_place,
                a.view(),
                b.view(),
                then_s(a.view(), b.view()),
                e.view(),
            ) by {
                lemma_references_are_leaves(e);
                law_applying_a_composition(in_place, a.view(), b.view(), e.view());
            }
        }
        if a.is_id() {
            return b.clone();
        }
        if b.is_id() {
            return a.clone();
        }
        let ghost av = a.view();
        let ghost bv = b.view();
        let ka = a.binders();
        let kb = b.binders();
        let ghost va = names_view(ka@);
        let ghost vb = names_view(kb@);
        let mut out = Subst::id();
        let mut i: usize = 0;
        while i < ka.len()
            invariant
                i <= ka.len(),
                va == names_view(ka@),
                av == a.view(),
                bv == b.view(),
                acts_on_range(bv, av),
                forall|k: NameS| #[trigger]
                    out.view().dom().contains(k) <==> seen(va, i as int, k) && then_at(
                        av,
                        bv,
                        k,
                    ) is Some,
                forall|k: NameS| #[trigger]
                    out.view().dom().contains(k) ==> Some(out.view()[k]) == then_at(av, bv, k),
            decreases ka.len() - i,
        {
            proof {
                lemma_seen_step(va, i as int);
            }
            out = Subst::compose_at(a, b, &ka[i], out);
            i = i + 1;
        }
        proof {
            lemma_seen_all(va);
        }
        let mut i: usize = 0;
        while i < kb.len()
            invariant
                i <= kb.len(),
                vb == names_view(kb@),
                av == a.view(),
                bv == b.view(),
                acts_on_range(bv, av),
                forall|k: NameS| #[trigger]
                    out.view().dom().contains(k) <==> (va.contains(k) || seen(vb, i as int, k)) && then_at(av, bv, k) is Some,
                forall|k: NameS| #[trigger]
                    out.view().dom().contains(k) ==> Some(out.view()[k]) == then_at(av, bv, k),
            decreases kb.len() - i,
        {
            proof {
                lemma_seen_step(vb, i as int);
            }
            out = Subst::compose_at(a, b, &kb[i], out);
            i = i + 1;
        }
        proof {
            lemma_seen_all(vb);
            assert forall|k: NameS| out.view().dom().contains(k) <==> then_at(av, bv, k) is Some by {
                if then_at(av, bv, k) is Some {
                    assert(av.dom().contains(k) || bv.dom().contains(k));
                    assert(va.contains(k) || vb.contains(k));
                }
            }
            assert(out.view() =~= then_s(av, bv));
        }
        out
    }

    /// The substitution `a` and then `b`.
    pub fn then(a: &Subst, b: &Subst) -> (r: Subst)
        requires
            acts_on_range(b.view(), a.view()),
        ensures
            r.view() == then_s(a.view(), b.view()),
            composed_of(a.view(), b.view(), r.view()),
    {
        a.followed_by(b)
    }

    /// This substitution with `k` renamed to `x`.
    pub fn extended_rename(&self, k: Name, x: Name) -> (r: Subst)
        ensures
            r.view() == self.view().insert(k@, MappingS::Rename(x@)),
    {
        self.clone().with(k, Mapping::Rename(x))
    }

    /// This substitution with every discharge of a variable read as a renaming.
    pub fn licensed_correspondence_view(&self) -> (r: Subst)
        ensures
            r.view() == self.view().map_values(|m: MappingS| as_correspondence(m)),
    {
        let n: usize = self.map.len();
        let ghost keys = self.map.keys_view();
        let ghost whole = self.view();
        let mut out = Subst::id();
        let mut i: usize = 0;
        while i < n
            invariant
                i <= n,
                n == keys.len(),
                keys == self.map.keys_view(),
                whole == self.view(),
                forall|k: NameS| #[trigger]
                    out.view().dom().contains(k) <==> seen(keys, i as int, k),
                forall|k: NameS| #[trigger]
                    out.view().dom().contains(k) ==> out.view()[k] == as_correspondence(whole[k]),
            decreases n - i,
        {
            let key = self.map.key(i);
            let m = match self.map.value(i) {
                Mapping::Rename(to) => Mapping::Rename(to.clone()),
                Mapping::Discharge(t) => match &t.node {
                    TypedExprNode::Var(x) => Mapping::Rename(x.clone()),
                    _ => Mapping::Discharge(Box::new((**t).clone())),
                },
            };
            proof {
                lemma_seen_step(keys, i as int);
                assert(m.view() == as_correspondence(whole[keys[i as int]]));
            }
            out = out.with(key.clone(), m);
            i = i + 1;
        }
        proof {
            lemma_seen_all(keys);
            assert forall|k: NameS| whole.dom().contains(k) <==> keys.contains(k) by {
                assert(self.map.view().dom().contains(k) <==> keys.contains(k));
            }
            assert(out.view() =~= whole.map_values(|m: MappingS| as_correspondence(m)));
        }
        out
    }

    /// The inverse, where the substitution is a renaming of no two names to one.
    pub fn invert(&self) -> (r: Option<Subst>)
        ensures
            r is Some <==> invertible(self.view()),
            r matches Some(tau) ==> inverse_of(self.view(), tau.view()),
    {
        let n: usize = self.map.len();
        let ghost keys = self.map.keys_view();
        let ghost whole = self.view();
        proof {
            assert forall|k: NameS| whole.dom().contains(k) <==> keys.contains(k) by {
                assert(self.map.view().dom().contains(k) <==> keys.contains(k));
            }
        }
        let mut out = Subst::id();
        let mut i: usize = 0;
        while i < n
            invariant
                i <= n,
                n == keys.len(),
                keys == self.map.keys_view(),
                whole == self.view(),
                names_ascending(keys),
                forall|k: NameS| whole.dom().contains(k) <==> keys.contains(k),
                forall|j: int| 0 <= j < i ==> whole[#[trigger] keys[j]] is Rename,
                forall|x: NameS| #[trigger]
                    out.view().dom().contains(x) <==> exists|j: int|
                        0 <= j < i && whole[#[trigger] keys[j]] == MappingS::Rename(x),
                forall|j: int|
                    0 <= j < i ==> out.view().dom().contains(whole[#[trigger] keys[j]]->Rename_0)
                        && out.view()[whole[keys[j]]->Rename_0] == MappingS::Rename(keys[j]),
                forall|j: int, k: int|
                    0 <= j < i && 0 <= k < i && whole[#[trigger] keys[j]] == whole[#[trigger] keys[k]]
                        ==> j == k,
            decreases n - i,
        {
            let key = self.map.key(i);
            assert(whole.dom().contains(key@));
            match self.map.value(i) {
                Mapping::Rename(to) => {
                    if out.get(to).is_some() {
                        proof {
                            let j = choose|j: int|
                                0 <= j < i && whole[#[trigger] keys[j]] == MappingS::Rename(to@);
                            assert(whole.dom().contains(keys[j])) by {
                                assert(keys.contains(keys[j]));
                            }
                            assert(keys[j].lt(keys[i as int]));
                            lemma_name_lt_irreflexive(keys[j]);
                            assert(whole[keys[j]] == whole[keys[i as int]]);
                            assert(!invertible(whole));
                        }
                        return None;
                    }
                    let ghost before = out.view();
                    out = out.with(to.clone(), Mapping::Rename(key.clone()));
                    proof {
                        assert(whole[keys[i as int]] == MappingS::Rename(to@));
                        assert forall|x: NameS| #[trigger]
                            out.view().dom().contains(x) <==> exists|j: int|
                                0 <= j < i + 1 && whole[#[trigger] keys[j]] == MappingS::Rename(
                                    x,
                                ) by {
                            if before.dom().contains(x) {
                                let j = choose|j: int|
                                    0 <= j < i && whole[#[trigger] keys[j]] == MappingS::Rename(x);
                                assert(0 <= j < i + 1 && whole[keys[j]] == MappingS::Rename(x));
                            }
                            if x == to@ {
                                assert(whole[keys[i as int]] == MappingS::Rename(x));
                            }
                            if exists|j: int|
                                0 <= j < i + 1 && whole[#[trigger] keys[j]] == MappingS::Rename(x) {
                                let j = choose|j: int|
                                    0 <= j < i + 1 && whole[#[trigger] keys[j]] == MappingS::Rename(
                                        x,
                                    );
                                if j < i {
                                    assert(before.dom().contains(x));
                                }
                            }
                        }
                        assert forall|j: int| 0 <= j < i implies whole[#[trigger] keys[j]]
                            != whole[keys[i as int]] by {
                            if whole[keys[j]] == MappingS::Rename(to@) {
                                assert(before.dom().contains(to@));
                            }
                        }
                    }
                },
                Mapping::Discharge(t) => {
                    assert(whole[key@] is Discharge);
                    return None;
                },
            }
            i = i + 1;
        }
        proof {
            assert forall|k: NameS| #[trigger] whole.dom().contains(k) implies whole[k] is Rename by {
                assert(keys.contains(k));
                let j = choose|j: int| 0 <= j < keys.len() && keys[j] == k;
                assert(whole[keys[j]] is Rename);
            }
            assert forall|j: NameS, k: NameS| #[trigger]
                whole.dom().contains(j) && #[trigger] whole.dom().contains(k) && whole[j]
                    == whole[k] implies j == k by {
                assert(keys.contains(j) && keys.contains(k));
                let p = choose|p: int| 0 <= p < keys.len() && keys[p] == j;
                let q = choose|q: int| 0 <= q < keys.len() && keys[q] == k;
                assert(whole[keys[p]] == whole[keys[q]]);
            }
            let tau = out.view();
            assert forall|x: NameS| #[trigger] tau.dom().contains(x) <==> exists|k: NameS| #[trigger]
                whole.dom().contains(k) && whole[k] == MappingS::Rename(x) by {
                if tau.dom().contains(x) {
                    let j = choose|j: int|
                        0 <= j < n && whole[#[trigger] keys[j]] == MappingS::Rename(x);
                    assert(keys.contains(keys[j]));
                    assert(whole.dom().contains(keys[j]));
                }
                if exists|k: NameS| #[trigger]
                    whole.dom().contains(k) && whole[k] == MappingS::Rename(x) {
                    let k = choose|k: NameS| #[trigger]
                        whole.dom().contains(k) && whole[k] == MappingS::Rename(x);
                    assert(keys.contains(k));
                    let j = choose|j: int| 0 <= j < keys.len() && keys[j] == k;
                    assert(whole[keys[j]] == MappingS::Rename(x));
                }
            }
            assert forall|k: NameS| #[trigger] whole.dom().contains(k) implies (
            whole[k] matches MappingS::Rename(x) && tau.dom().contains(x) && tau[x]
                == MappingS::Rename(k)) by {
                assert(keys.contains(k));
                let j = choose|j: int| 0 <= j < keys.len() && keys[j] == k;
                assert(whole[keys[j]] is Rename);
            }
        }
        Some(out)
    }

    /// The substitution in a term, transported to a new term.
    pub fn apply_expr(&self, e: &Expr) -> (r: Expr)
        requires
            sub_ok(false, self.view(), e.view()),
        ensures
            r.view() == sub_expr(false, self.view(), e.view()),
    {
        subst_expr(false, self, e)
    }

    /// The substitution in a type, transported to a new type.
    pub fn apply_type(&self, ty: &Type) -> (r: Type)
        requires
            sub_ty_ok(false, self.view(), ty.view()),
        ensures
            r.view() == sub_ty(false, self.view(), ty.view()),
    {
        subst_type(false, self, ty)
    }

    /// The substitution in a term, in place.
    pub fn rewrite_expr(&self, e: &mut Expr)
        requires
            sub_ok(true, self.view(), old(e).view()),
        ensures
            final(e).view() == sub_expr(true, self.view(), old(e).view()),
    {
        let out = subst_expr(true, self, e);
        *e = out;
    }

    /// The substitution in a type, in place.
    pub fn rewrite_type(&self, ty: &mut Type)
        requires
            sub_ty_ok(true, self.view(), old(ty).view()),
        ensures
            final(ty).view() == sub_ty(true, self.view(), old(ty).view()),
    {
        let out = subst_type(true, self, ty);
        *ty = out;
    }

    /// Substitutes `term` for `binder` in `e`, in place. The name is then free
    /// nowhere in `e`, its type slots included, if it was not free in `term`. Two
    /// kinds of occurrence outlast a discharge. A channel or a handle named
    /// `binder` keeps its name unless `term` is a reference, which it then takes
    /// the name of. And a function type that names its argument `binder`, yet
    /// refers to it by that name and not by an index, hides that reference: where
    /// such a function is composed anew, its codomain comes out from under it.
    pub fn discharge_in_place(e: &mut Expr, binder: &Name, term: &Expr)
        requires
            !(binder@ is PiBound),
            sub_ok(
                true,
                Map::<NameS, MappingS>::empty().insert(binder@, MappingS::Discharge(term.view())),
                old(e).view(),
            ),
        ensures
            final(e).view() == sub_expr(
                true,
                Map::<NameS, MappingS>::empty().insert(binder@, MappingS::Discharge(term.view())),
                old(e).view(),
            ),
            !free_in(binder@, old(e).view()) ==> final(e).view() == old(e).view(),
            ({
                &&& !free_in(binder@, term.view())
                &&& term.view().head is Var || !targeted(binder@, old(e).view())
                &&& stored(binder@, old(e).view())
                &&& ends_well(binder@, term.view().ty())
            }) ==> !free_in(binder@, final(e).view()),
    {
        let ghost whole = Map::<NameS, MappingS>::empty().insert(
            binder@,
            MappingS::Discharge(term.view()),
        );
        proof {
            lemma_discharged(binder@, term.view(), e.view());
            assert(term.view().tys.len() > 0);
            if !free_in(binder@, term.view()) && (term.view().head is Var || !targeted(
                binder@,
                e.view(),
            )) && stored(binder@, e.view()) && ends_well(binder@, term.view().ty()) {
                if let HeadS::Var(m) = term.view().head {
                    assert(own_ref(term.view().head) == Some(m));
                }
                law_discharged_name_is_gone(whole, e.view(), binder@);
            }
        }
        if !is_free(binder, e) {
            return;
        }
        let s = Subst::discharge(binder.clone(), term.clone());
        s.rewrite_expr(e);
    }

    /// What of `env` is free in `e`, as a substitution.
    pub fn live_env(e: &Expr, env: &NameMap<Expr>) -> (r: Subst)
        ensures
            r.view() == env_subst(env_view(env.view()), e.view()),
    {
        let n: usize = env.len();
        let ghost keys = env.keys_view();
        let ghost whole = env_view(env.view());
        let mut out = Subst::id();
        let mut i: usize = 0;
        while i < n
            invariant
                i <= n,
                n == keys.len(),
                keys == env.keys_view(),
                whole == env_view(env.view()),
                forall|k: NameS| #[trigger]
                    out.view().dom().contains(k) <==> seen(keys, i as int, k) && free_in(
                        k,
                        e.view(),
                    ),
                forall|k: NameS| #[trigger]
                    out.view().dom().contains(k) ==> out.view()[k] == MappingS::Discharge(whole[k]),
            decreases n - i,
        {
            let key = env.key(i);
            proof {
                lemma_seen_step(keys, i as int);
            }
            if is_free(key, e) {
                let t = env.value(i).clone();
                out = out.with(key.clone(), Mapping::Discharge(Box::new(t)));
            }
            i = i + 1;
        }
        proof {
            lemma_seen_all(keys);
            assert forall|k: NameS| whole.dom().contains(k) <==> keys.contains(k) by {
                assert(env.view().dom().contains(k) <==> keys.contains(k));
            }
            assert(out.view() =~= env_subst(whole, e.view()));
        }
        out
    }

    /// Substitutes the terms of `env` in `e`, all at once.
    pub fn discharge_env_in_place(e: Expr, env: &NameMap<Expr>) -> (r: Expr)
        requires
            sub_ok(true, env_subst(env_view(env.view()), e.view()), e.view()),
        ensures
            r.view() == sub_expr(true, env_subst(env_view(env.view()), e.view()), e.view()),
    {
        let live = Subst::live_env(&e, env);
        subst_expr(true, &live, &e)
    }

    /// What the substitution makes of a restriction.
    pub fn force_refinement(&self, r: &Refinement) -> (out: Refinement)
        requires
            sub_ok(
                false,
                without(self.view(), seq![NameS::Elem]),
                r.predicate.view(),
            ),
        ensures
            out.predicate.view() == sub_pred(false, self.view(), r.predicate.view()),
    {
        let elem = Name::elem();
        let inner = self.shadow(&elem);
        if !inner.acts_on(&r.predicate) {
            return r.clone();
        }
        let p = subst_expr(false, &inner, &r.predicate);
        Refinement::born(Rc::new(strip_iterate_markers(&p)))
    }
}

} // verus!
