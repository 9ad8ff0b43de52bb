//! Building types and reading their parts.

use std::rc::Rc;
use vstd::prelude::*;
use crate::ast::{
    BaseType, Expr, ExprS, FieldKey, FieldKeyS, FunKind, FunKindS, FunKindVarId, HistoryKind,
    InferVar, Openness, Refinement, Type, TypeHeadS, TypeS, Witness, WitnessS, arm_keys_view,
    arm_types_view, field_names_view, field_types_view, leaf_ty, node_ty, types_view,
    witness_types_view, witnesses_view,
};
use crate::kind::{BoundsS, FunKindVar, KindVars, empty_bounds};
use crate::kind_pin::KindPin;
use crate::kind_vars::binders_of;
use crate::make::{arrow_ty, codomain_of, domain_of, hole_ty, record_ty, tuple_ty, unresolved};
use crate::name::{Name, NameS, NameSupply};
use crate::pi::{close_pi_binder, closed_ty, peeled};
use crate::refinement_set::{RefinementSet, law_a_set_has_no_duplicates, set_extend};
use crate::sharing::share_all;
use crate::substitution::fun_like_s;
use crate::text::{owned, same_text};
use crate::tree::{expr_refs_view, type_refs_view};

verus! {

/// The tag of a present value.
pub const V_SOME: &'static str = "some";

/// The tag of an absent value.
pub const V_NONE: &'static str = "none";

/// A closed variant type.
pub open spec fn variant_ty(keys: Seq<FieldKeyS>, ts: Seq<TypeS>) -> TypeS {
    node_ty(TypeHeadS::Variant(keys, Openness::Closed), ts)
}

/// The type of a value that may be absent.
pub open spec fn option_ty(payload: TypeS) -> TypeS {
    variant_ty(
        seq![FieldKeyS::Name(V_NONE@), FieldKeyS::Name(V_SOME@)],
        seq![leaf_ty(TypeHeadS::Base(BaseType::Unit)), payload],
    )
}

/// The payload of a closed variant of exactly the two tags, absent first.
pub open spec fn option_payload_s(t: TypeS) -> Option<TypeS> {
    if t.head == TypeHeadS::Variant(
        seq![FieldKeyS::Name(V_NONE@), FieldKeyS::Name(V_SOME@)],
        Openness::Closed,
    ) {
        Some(t.kids[1])
    } else {
        None
    }
}

/// The dependent function type over `name`: the codomain refers to it by index.
pub open spec fn pi_type(name: NameS, kind: FunKindS, range: Seq<TypeS>, d: TypeS, c: TypeS) -> TypeS {
    node_ty(TypeHeadS::Fun(Some(name), kind), range.push(d).push(closed_ty(name, c)))
}

/// `t` under further restrictions; a restricted type stays restricted once.
pub open spec fn refined_ty(t: TypeS, preds: Seq<ExprS>) -> TypeS {
    if preds.len() == 0 {
        t
    } else if t.head is Refinement {
        TypeS { head: TypeHeadS::Refinement, kids: t.kids, preds: set_extend(t.preds, preds) }
    } else {
        TypeS { head: TypeHeadS::Refinement, kids: seq![t], preds }
    }
}

/// Whether a function type binds witnesses.
pub open spec fn is_sum(t: TypeS) -> bool {
    t.head matches TypeHeadS::Fun(_, FunKindS::Data(Some(ws))) && ws.len() > 0
}

/// The witnesses a function type binds.
pub open spec fn sum_of(t: TypeS) -> Seq<WitnessS> {
    match t.head {
        TypeHeadS::Fun(_, k) => binders_of(k),
        _ => Seq::empty(),
    }
}

/// `rebuilt` with the binders of `exemplar`, where that is a sum.
pub open spec fn sum_like_s(exemplar: TypeS, rebuilt: TypeS) -> TypeS {
    if is_sum(exemplar) && rebuilt.head is Fun {
        fun_like_s(exemplar, domain_of(rebuilt).unwrap(), codomain_of(rebuilt).unwrap())
    } else {
        rebuilt
    }
}

/// The kind a function reading of `t` has.
pub open spec fn kind_read(t: TypeS) -> Option<FunKindS> {
    match peeled(t).head {
        TypeHeadS::Fun(_, k) => Some(k),
        TypeHeadS::Infer(v) => Some(FunKindS::Var(v.fun_kind)),
        _ => None,
    }
}

/// Whether some position of `t` is not settled yet.
pub open spec fn unsettled(t: TypeS) -> bool
    decreases t,
{
    t.head is Infer || t.head is Hole || t.head is SharedHole || t.head is BoundedHole
        || t.head is Refinement || exists|i: int|
        0 <= i < t.kids.len() && unsettled(#[trigger] t.kids[i])
}

/// The restrictions `t` carries anywhere, outermost first.
pub open spec fn all_restrictions(t: TypeS) -> Seq<ExprS>
    decreases t, t.kids.len() + 1,
{
    t.preds + all_restrictions_upto(t, t.kids.len())
}

/// The restrictions in the first `n` components of `t`.
pub open spec fn all_restrictions_upto(t: TypeS, n: nat) -> Seq<ExprS>
    decreases t, n,
{
    if n == 0 || n > t.kids.len() {
        Seq::empty()
    } else {
        all_restrictions_upto(t, (n - 1) as nat) + all_restrictions(t.kids[n - 1])
    }
}

/// Whether `t` is a stored history of this kind.
pub open spec fn is_history(t: TypeS, kind: HistoryKind) -> bool {
    t.head == TypeHeadS::History(kind)
}

impl Type {
    /// The tuple of `elems`; the unit type where there are none.
    pub fn tuple(elems: Vec<Type>) -> (r: Type)
        ensures
            r.view() == (if elems@.len() == 0 {
                leaf_ty(TypeHeadS::Base(BaseType::Unit))
            } else {
                tuple_ty(types_view(elems@))
            }),
    {
        if elems.len() == 0 {
            return Type::Base(BaseType::Unit);
        }
        Type::Tuple(elems)
    }

    /// The record of `fields`; the unit type where there are none.
    pub fn record(fields: Vec<(String, Type)>) -> (r: Type)
        ensures
            r.view() == (if fields@.len() == 0 {
                leaf_ty(TypeHeadS::Base(BaseType::Unit))
            } else {
                record_ty(field_names_view(fields@), field_types_view(fields@))
            }),
    {
        if fields.len() == 0 {
            return Type::Base(BaseType::Unit);
        }
        Type::Record(fields)
    }

    /// The type of a value that may be absent.
    pub fn option_of(payload: Type) -> (r: Type)
        ensures
            r.view() == option_ty(payload.view()),
    {
        let mut arms: Vec<(FieldKey, Type)> = Vec::new();
        arms.push((FieldKey::Name(owned(V_NONE)), Type::Base(BaseType::Unit)));
        arms.push((FieldKey::Name(owned(V_SOME)), payload));
        assert(arm_keys_view(arms@) =~= seq![FieldKeyS::Name(V_NONE@), FieldKeyS::Name(V_SOME@)]);
        assert(arm_types_view(arms@) =~= seq![
            leaf_ty(TypeHeadS::Base(BaseType::Unit)),
            payload.view(),
        ]);
        Type::variant(arms)
    }

    /// What a possibly absent value is when present: the payload of a closed
    /// variant of exactly the two tags, absent first.
    pub fn option_payload(&self) -> (r: Option<&Type>)
        ensures
            match r {
                Some(p) => option_payload_s(self.view()) == Some(p.view()),
                None => option_payload_s(self.view()) is None,
            },
    {
        let ghost want = seq![FieldKeyS::Name(V_NONE@), FieldKeyS::Name(V_SOME@)];
        match self {
            Type::Variant(arms, Openness::Closed) => {
                let ghost got = arm_keys_view(arms@);
                assert(got.len() == arms@.len());
                if arms.len() != 2 {
                    assert(got.len() != want.len());
                    return None;
                }
                let first = key_is(&arms[0].0, V_NONE);
                let second = key_is(&arms[1].0, V_SOME);
                assert(got[0] == arms@[0].0.view());
                assert(got[1] == arms@[1].0.view());
                if first && second {
                    assert(got =~= want);
                    assert(self.view().kids == arm_types_view(arms@));
                    assert(arm_types_view(arms@)[1] == arms@[1].1.view());
                    Some(&arms[1].1)
                } else {
                    assert(want[0] == FieldKeyS::Name(V_NONE@));
                    assert(want[1] == FieldKeyS::Name(V_SOME@));
                    None
                }
            },
            _ => None,
        }
    }

    /// A variant of exactly these tags.
    pub fn variant(arms: Vec<(FieldKey, Type)>) -> (r: Type)
        ensures
            r.view() == variant_ty(arm_keys_view(arms@), arm_types_view(arms@)),
    {
        Type::Variant(arms, Openness::Closed)
    }

    /// A variant of these tags and perhaps others.
    pub fn open_variant(arms: Vec<(FieldKey, Type)>) -> (r: Type)
        ensures
            r.view() == node_ty(
                TypeHeadS::Variant(arm_keys_view(arms@), Openness::Open),
                arm_types_view(arms@),
            ),
    {
        Type::Variant(arms, Openness::Open)
    }

    /// The computation whose codomain may refer to its argument as `name`.
    pub fn pi(name: Name, domain: Type, codomain: Type) -> (r: Type)
        ensures
            r.view() == pi_type(
                name@,
                FunKindS::Compute,
                Seq::empty(),
                domain.view(),
                codomain.view(),
            ),
    {
        Type::pi_kinded(name, domain, codomain, FunKind::Compute)
    }

    /// The function of this kind whose codomain may refer to its argument as
    /// `name`.
    pub fn pi_kinded(name: Name, domain: Type, codomain: Type, fun_kind: FunKind) -> (r: Type)
        ensures
            r.view() == pi_type(
                name@,
                fun_kind.view(),
                fun_kind.types_view(),
                domain.view(),
                codomain.view(),
            ),
    {
        let codomain = close_pi_binder(&name, &codomain);
        Type::Fun {
            name: Some(name),
            fun_kind,
            domain: Box::new(domain),
            codomain: Box::new(codomain),
        }
    }

    /// The kind of a function type, restricted or not.
    pub fn fun_kind(&self) -> (r: Option<&FunKind>)
        ensures
            match (r, peeled(self.view()).head) {
                (Some(k), TypeHeadS::Fun(_, v)) => k.view() == v,
                (None, TypeHeadS::Fun(_, _)) => false,
                (Some(_), _) => false,
                (None, _) => true,
            },
    {
        match self.peel_refinements() {
            Type::Fun { fun_kind, .. } => Some(fun_kind),
            _ => None,
        }
    }

    /// The dependent function over `name` whose kind is not known yet.
    pub fn pi_eliminated(name: Name, domain: Type, codomain: Type, vars: &mut KindVars) -> (r: Type)
        requires
            old(vars).view().len() < u32::MAX,
        ensures
            r.view() == pi_type(
                name@,
                FunKindS::Var(FunKindVarId(old(vars).view().len() as u32)),
                Seq::empty(),
                domain.view(),
                codomain.view(),
            ),
            final(vars).view() == old(vars).view().push(empty_bounds()),
            final(vars).next_witness == old(vars).next_witness,
    {
        let k = FunKind::fresh_var(vars);
        assert(k.types_view() =~= Seq::empty());
        Type::pi_kinded(name, domain, codomain, k)
    }

    /// The function whose kind is not known yet.
    pub fn fun_eliminated(domain: Type, codomain: Type, vars: &mut KindVars) -> (r: Type)
        requires
            old(vars).view().len() < u32::MAX,
        ensures
            r.view() == arrow_ty(
                None,
                FunKindS::Var(FunKindVarId(old(vars).view().len() as u32)),
                domain.view(),
                codomain.view(),
            ),
            final(vars).view() == old(vars).view().push(empty_bounds()),
            final(vars).next_witness == old(vars).next_witness,
    {
        let fun_kind = FunKind::fresh_var(vars);
        assert(fun_kind.types_view() =~= Seq::empty());
        let out = Type::Fun {
            name: None,
            fun_kind,
            domain: Box::new(domain),
            codomain: Box::new(codomain),
        };
        assert(out.view().kids =~= seq![domain.view(), codomain.view()]);
        out
    }

    /// The function known only to be data.
    pub fn consumer_fun(domain: Type, codomain: Type, vars: &mut KindVars) -> (r: Type)
        requires
            old(vars).view().len() < u32::MAX,
        ensures
            r.view() == arrow_ty(
                None,
                FunKindS::Var(FunKindVarId(old(vars).view().len() as u32)),
                domain.view(),
                codomain.view(),
            ),
            final(vars).view() == old(vars).view().push(
                BoundsS { stamped: KindPin::Data, ..empty_bounds() },
            ),
            final(vars).next_witness == old(vars).next_witness,
    {
        let fun_kind = FunKind::fresh_data(vars);
        assert(fun_kind.types_view() =~= Seq::empty());
        let out = Type::Fun {
            name: None,
            fun_kind,
            domain: Box::new(domain),
            codomain: Box::new(codomain),
        };
        assert(out.view().kids =~= seq![domain.view(), codomain.view()]);
        out
    }

    /// `rebuilt` with the binders of `exemplar`, where that is a sum.
    pub fn sum_like(exemplar: &Type, rebuilt: Type) -> (r: Type)
        ensures
            r.view() == sum_like_s(exemplar.view(), rebuilt.view()),
    {
        let sums = exemplar.sum().is_some();
        let d = rebuilt.domain();
        let c = rebuilt.codomain();
        match (d, c) {
            (Some(d), Some(c)) => if sums {
                Type::fun_like(exemplar, d, c)
            } else {
                rebuilt
            },
            _ => rebuilt,
        }
    }

    /// The function like `exemplar`, or the hole where either side is not known
    /// yet.
    pub fn fun_like_or_hole(exemplar: &Type, domain: &Type, codomain: &Type) -> (r: Type)
        ensures
            r.view() == (if unresolved(domain.view()) || unresolved(codomain.view()) {
                hole_ty()
            } else {
                fun_like_s(exemplar.view(), domain.view(), codomain.view())
            }),
    {
        if domain.is_unresolved() || codomain.is_unresolved() {
            Type::Hole
        } else {
            Type::fun_like(exemplar, domain.clone(), codomain.clone())
        }
    }

    /// `base` under further restrictions; a restricted type stays restricted
    /// once.
    pub fn refined(base: Type, refinements: RefinementSet) -> (r: Type)
        ensures
            r.view() == refined_ty(base.view(), refinements.view()),
    {
        if refinements.is_empty() {
            return base;
        }
        match base {
            Type::Refinement(inner, existing) => Type::Refinement(
                inner,
                existing.union(&refinements),
            ),
            bare => Type::Refinement(Box::new(bare), refinements),
        }
    }

    /// `base` under one further restriction.
    pub fn refined_one(base: Type, refinement: Refinement) -> (r: Type)
        ensures
            r.view() == refined_ty(base.view(), seq![refinement.predicate.view()]),
    {
        Type::refined(base, RefinementSet::one(refinement))
    }

    /// The restrictions of the type itself.
    pub fn refinements(&self) -> (r: Vec<&Refinement>)
        ensures
            r@.len() == self.view().preds.len(),
            forall|i: int|
                0 <= i < r@.len() ==> (#[trigger] r@[i]).predicate.view() == self.view().preds[i],
    {
        match self {
            Type::Refinement(_, set) => {
                assert(self.view().preds == set.view());
                set.iter()
            },
            _ => Vec::new(),
        }
    }

    /// The kind a function reading of the type has: a function's own, or that
    /// of an inference variable.
    pub fn fun_kind_of(&self) -> (r: Option<FunKind>)
        ensures
            match (r, kind_read(self.view())) {
                (Some(k), Some(v)) => k.view() == v,
                (None, None) => true,
                _ => false,
            },
    {
        match self.peel_refinements() {
            Type::Fun { fun_kind, .. } => Some(fun_kind.clone()),
            Type::Infer(v) => Some(FunKind::Var(v.fun_kind)),
            _ => None,
        }
    }

    /// The value type of an overwritten history.
    pub fn mut_value_type(&self) -> (r: Option<&Type>)
        ensures
            match r {
                Some(t) => is_history(peeled(self.view()), HistoryKind::Overwrite) && t.view()
                    == peeled(self.view()).kids[0],
                None => !is_history(peeled(self.view()), HistoryKind::Overwrite),
            },
    {
        match self.peel_refinements() {
            Type::History { value, domain, history_kind: HistoryKind::Overwrite } => {
                assert(peeled(self.view()).kids[0] == value.view());
                Some(&**value)
            },
            _ => None,
        }
    }

    /// The domain and value type of an appended history.
    pub fn as_feed(&self) -> (r: Option<(&Type, &Type)>)
        ensures
            match r {
                Some((d, v)) => is_history(peeled(self.view()), HistoryKind::Append) && d.view()
                    == peeled(self.view()).kids[1] && v.view() == peeled(self.view()).kids[0],
                None => !is_history(peeled(self.view()), HistoryKind::Append),
            },
    {
        match self.peel_refinements() {
            Type::History { value, domain, history_kind: HistoryKind::Append } => {
                assert(peeled(self.view()).kids[0] == value.view());
                assert(peeled(self.view()).kids[1] == domain.view());
                Some((&**domain, &**value))
            },
            _ => None,
        }
    }

    /// Whether the type is that of a history, of either kind.
    pub fn is_handle(&self) -> (r: bool)
        ensures
            r == (peeled(self.view()).head is History),
    {
        match self.peel_refinements() {
            Type::History { .. } => true,
            _ => false,
        }
    }

    /// Data over every key of `key`.
    pub fn full_map_of(key: Type, value: Type, supply: &mut NameSupply) -> (r: Type)
        ensures
            r.view() == pi_type(
                NameS::Fresh("__map_k"@, old(supply).next),
                FunKindS::Data(None),
                Seq::empty(),
                key.view(),
                value.view(),
            ),
            final(supply).next == NameSupply::after(old(supply).next),
    {
        let name = supply.fresh("__map_k");
        let k = FunKind::Data(None);
        assert(k.types_view() =~= Seq::empty());
        Type::pi_kinded(name, key, value, k)
    }

    /// The witnesses a function type binds, outermost first, where it binds any.
    pub fn sum(&self) -> (r: Option<&Vec<Witness>>)
        ensures
            match r {
                Some(ws) => is_sum(self.view()) && witnesses_view(ws@) == sum_of(self.view())
                    && self.view().kids.take(self.view().kids.len() - 2) == witness_types_view(ws@),
                None => !is_sum(self.view()),
            },
    {
        match self {
            Type::Fun { name, fun_kind, domain, codomain } => match fun_kind {
                FunKind::Data(Some(ws)) => if ws.len() > 0 {
                    assert(fun_kind.types_view() == witness_types_view(ws@));
                    assert(self.view().kids.take(self.view().kids.len() - 2) =~= witness_types_view(
                        ws@,
                    ));
                    Some(ws)
                } else {
                    None
                },
                _ => None,
            },
            _ => None,
        }
    }

    /// The inference variable numbered `uid`, with a function kind of its own.
    pub fn infer(uid: u32, vars: &mut KindVars) -> (r: Type)
        requires
            old(vars).view().len() < u32::MAX,
        ensures
            r.view() == leaf_ty(
                TypeHeadS::Infer(
                    InferVar { uid, fun_kind: FunKindVarId(old(vars).view().len() as u32) },
                ),
            ),
            final(vars).view() == old(vars).view().push(empty_bounds()),
            final(vars).next_witness == old(vars).next_witness,
    {
        let v = FunKindVar::fresh(vars);
        Type::Infer(InferVar { uid, fun_kind: v.uid })
    }

    /// Whether some position of the type is not settled yet.
    pub fn holds_an_unresolved_position(&self) -> (r: bool)
        ensures
            r == unsettled(self.view()),
        decreases self.view(),
    {
        let here = match self {
            Type::Infer(_) => true,
            Type::Hole => true,
            Type::SharedHole(_) => true,
            Type::BoundedHole(_) => true,
            Type::Refinement(_, _) => true,
            _ => false,
        };
        if here {
            return true;
        }
        let ghost tv = self.view();
        let kids = self.walk_children();
        assert(kids@.len() == tv.kids.len());
        let mut i: usize = 0;
        while i < kids.len()
            invariant
                i <= kids.len(),
                tv == self.view(),
                kids@.len() == tv.kids.len(),
                type_refs_view(kids@) == tv.kids,
                forall|j: int| 0 <= j < i ==> !unsettled(#[trigger] tv.kids[j]),
            decreases kids.len() - i,
        {
            assert(kids@[i as int].view() == tv.kids[i as int]);
            assert(decreases_to!(tv => tv.kids[i as int]));
            if kids[i].holds_an_unresolved_position() {
                return true;
            }
            i = i + 1;
        }
        false
    }

    /// The restrictions the type carries anywhere, outermost first.
    pub fn walk_refinements(&self) -> (r: Vec<&Expr>)
        ensures
            expr_refs_view(r@) == all_restrictions(self.view()),
        decreases self.view(),
    {
        let ghost tv = self.view();
        let mut out = self.predicates();
        let kids = self.walk_children();
        assert(kids@.len() == tv.kids.len());
        assert(expr_refs_view(out@) =~= tv.preds + all_restrictions_upto(tv, 0));
        let mut i: usize = 0;
        while i < kids.len()
            invariant
                i <= kids.len(),
                tv == self.view(),
                kids@.len() == tv.kids.len(),
                type_refs_view(kids@) == tv.kids,
                expr_refs_view(out@) == tv.preds + all_restrictions_upto(tv, i as nat),
            decreases kids.len() - i,
        {
            assert(kids@[i as int].view() == tv.kids[i as int]);
            assert(decreases_to!(tv => tv.kids[i as int]));
            let ghost before = out@;
            let mut more = kids[i].walk_refinements();
            let ghost added = more@;
            out.append(&mut more);
            assert(expr_refs_view(out@) =~= expr_refs_view(before) + expr_refs_view(added));
            assert(expr_refs_view(out@) =~= tv.preds + all_restrictions_upto(tv, (i + 1) as nat));
            i = i + 1;
        }
        out
    }
}

/// Whether `accs` are the results of folding `f` over types viewed as `kids`.
pub open spec fn folds<T, F: Fn(T, &Type) -> T>(
    f: F,
    kids: Seq<TypeS>,
    accs: Seq<T>,
    init: T,
    last: T,
) -> bool {
    &&& accs.len() == kids.len() + 1
    &&& accs[0] == init
    &&& accs[kids.len() as int] == last
    &&& forall|i: int| 0 <= i < kids.len() ==> fold_step(f, #[trigger] kids[i], accs[i], accs[i + 1])
}

/// Whether `f` may take `a` to `b` at a type viewed as `t`.
pub open spec fn fold_step<T, F: Fn(T, &Type) -> T>(f: F, t: TypeS, a: T, b: T) -> bool {
    exists|x: &Type| #[trigger] x.view() == t && call_ensures(f, (a, x), b)
}

/// Whether `f` may turn a type viewed as `t` into one viewed as `u`.
pub open spec fn may_turn<F: Fn(&Type) -> Type>(f: F, t: TypeS, u: TypeS) -> bool {
    exists|x: &Type, y: Type|
        #[trigger] x.view() == t && #[trigger] y.view() == u && call_ensures(f, (x,), y)
}

impl Type {
    /// Replaces each component by what `f` makes of it.
    pub fn walk_children_mut<F: Fn(&Type) -> Type>(&mut self, f: F)
        requires
            forall|x: &Type| #[trigger] call_requires(f, (x,)),
        ensures
            final(self).view().head == old(self).view().head,
            final(self).view().preds == old(self).view().preds,
            final(self).view().kids.len() == old(self).view().kids.len(),
            forall|i: int|
                0 <= i < old(self).view().kids.len() ==> may_turn(
                    f,
                    #[trigger] old(self).view().kids[i],
                    final(self).view().kids[i],
                ),
    {
        let ghost tv = self.view();
        let kids = self.walk_children();
        let preds = self.shared_predicates();
        assert(kids@.len() == tv.kids.len());
        let mut ks: Vec<Type> = Vec::new();
        let mut i: usize = 0;
        while i < kids.len()
            invariant
                i <= kids.len(),
                ks.len() == i,
                kids@.len() == tv.kids.len(),
                type_refs_view(kids@) == tv.kids,
                forall|x: &Type| #[trigger] call_requires(f, (x,)),
                forall|j: int|
                    0 <= j < i ==> may_turn(f, #[trigger] tv.kids[j], ks@[j].view()),
            decreases kids.len() - i,
        {
            assert(kids@[i as int].view() == tv.kids[i as int]);
            let k = f(kids[i]);
            assert(may_turn(f, tv.kids[i as int], k.view()));
            ks.push(k);
            i = i + 1;
        }
        let ps = share_all(&preds);
        proof {
            law_a_set_has_no_duplicates(tv.preds);
        }
        let out = self.rebuild(ks, ps);
        assert(forall|j: int| 0 <= j < ks@.len() ==> out.view().kids[j] == ks@[j].view());
        *self = out;
    }

    /// Folds `f` over the components, in order.
    pub fn fold_children<T, F: Fn(T, &Type) -> T>(&self, init: T, f: F) -> (r: T)
        requires
            forall|a: T, x: &Type| #[trigger] call_requires(f, (a, x)),
        ensures
            exists|accs: Seq<T>| #[trigger] folds(f, self.view().kids, accs, init, r),
    {
        let ghost tv = self.view();
        let ghost start = init;
        let kids = self.walk_children();
        assert(kids@.len() == tv.kids.len());
        let mut acc = init;
        let ghost mut accs: Seq<T> = seq![acc];
        let mut i: usize = 0;
        while i < kids.len()
            invariant
                i <= kids.len(),
                kids@.len() == tv.kids.len(),
                type_refs_view(kids@) == tv.kids,
                forall|a: T, x: &Type| #[trigger] call_requires(f, (a, x)),
                accs.len() == i + 1,
                accs[0] == start,
                accs[i as int] == acc,
                forall|j: int|
                    0 <= j < i ==> fold_step(f, #[trigger] tv.kids[j], accs[j], accs[j + 1]),
            decreases kids.len() - i,
        {
            assert(kids@[i as int].view() == tv.kids[i as int]);
            let ghost before = accs;
            let ghost from = acc;
            acc = f(acc, kids[i]);
            proof {
                accs = accs.push(acc);
                assert(fold_step(f, tv.kids[i as int], from, acc));
                assert forall|j: int| 0 <= j < i + 1 implies fold_step(
                    f,
                    #[trigger] tv.kids[j],
                    accs[j],
                    accs[j + 1],
                ) by {
                    if j < i {
                        assert(fold_step(f, tv.kids[j], before[j], before[j + 1]));
                    }
                }
            }
            i = i + 1;
        }
        assert(folds(f, tv.kids, accs, start, acc));
        acc
    }
}

/// Whether a key is the name `s`.
pub fn key_is(k: &FieldKey, s: &str) -> (r: bool)
    ensures
        r == (k.view() == FieldKeyS::Name(s@)),
{
    match k {
        FieldKey::Name(n) => same_text(n.as_str(), s),
        FieldKey::Index(_) => false,
    }
}

} // verus!
