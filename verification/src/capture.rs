//! Whether a substitution may act: that no binder captures what it puts in.
use vstd::prelude::*;
use crate::ast::{Expr, ExprS, Type, TypedExprNode};
use crate::name::{Name, NameS, names_view};
use crate::name_map::NameMap;
use crate::pi::{Mapping, MappingS};
use crate::scope::{free_in, is_free, scope, scope_of};
use crate::subst::{acts_on_range, env_subst, env_view};
use crate::substitution::{
    Subst, SubstS, may_cross, range_mentions, slot_acted_on, sub_expr, sub_ok, sub_ty_ok,
    subst_expr, ty_binder, without,
};
use crate::tree::{clone_opt_name, expr_refs_view, type_refs_view};

verus! {

impl Subst {
    /// Whether what the substitution puts in mentions `n`.
    pub fn mentions(&self, n: &Name) -> (r: bool)
        ensures
            r == range_mentions(self.view(), n@),
    {
        let len: usize = self.map.len();
        let ghost keys = self.map.keys_view();
        let ghost sigma = self.view();
        let mut i: usize = 0;
        while i < len
            invariant
                i <= len,
                len == keys.len(),
                keys == self.map.keys_view(),
                sigma == self.view(),
                forall|j: int|
                    0 <= j < i ==> !(match sigma[#[trigger] keys[j]] {
                        MappingS::Rename(to) => to == n@,
                        MappingS::Discharge(t) => free_in(n@, t),
                    }),
            decreases len - i,
        {
            let key = self.map.key(i);
            let hit = match self.map.value(i) {
                Mapping::Rename(to) => to.same(n),
                Mapping::Discharge(t) => is_free(n, t),
            };
            assert(sigma.dom().contains(keys[i as int]));
            assert(sigma[keys[i as int]] == self.map.view()[keys[i as int]].view());
            if hit {
                return true;
            }
            i = i + 1;
        }
        proof {
            assert forall|k: NameS| #[trigger] sigma.dom().contains(k) implies !(match sigma[k] {
                MappingS::Rename(to) => to == n@,
                MappingS::Discharge(t) => free_in(n@, t),
            }) by {
                assert(self.map.view().dom().contains(k));
                assert(keys.contains(k));
                let j = choose|j: int| 0 <= j < keys.len() && keys[j] == k;
                assert(keys[j] == k);
            }
        }
        false
    }

    /// Whether what the substitution puts in mentions none of `ns`.
    fn mentions_none(&self, ns: &Vec<Name>) -> (r: bool)
        ensures
            r == forall|b: NameS| #[trigger]
                names_view(ns@).contains(b) ==> !range_mentions(self.view(), b),
    {
        let ghost nv = names_view(ns@);
        let mut i: usize = 0;
        while i < ns.len()
            invariant
                i <= ns.len(),
                nv == names_view(ns@),
                forall|j: int| 0 <= j < i ==> !range_mentions(self.view(), #[trigger] nv[j]),
            decreases ns.len() - i,
        {
            assert(nv[i as int] == ns@[i as int]@);
            if self.mentions(&ns[i]) {
                assert(nv.contains(nv[i as int]));
                return false;
            }
            i = i + 1;
        }
        assert forall|b: NameS| #[trigger] nv.contains(b) implies !range_mentions(
            self.view(),
            b,
        ) by {
            let j = choose|j: int| 0 <= j < nv.len() && nv[j] == b;
            assert(!range_mentions(self.view(), nv[j]));
        }
        true
    }

    /// Whether the substitution may act on `e` without capture: in place, or
    /// transported.
    pub fn may_act(&self, in_place: bool, e: &Expr) -> (r: bool)
        ensures
            r == sub_ok(in_place, self.view(), e.view()),
        decreases e.view(), 1int,
    {
        let ghost ev = e.view();
        let ghost sigma = self.view();
        if !self.acts_on(e) {
            return true;
        }
        match &e.node {
            TypedExprNode::Var(n) => {
                match self.get(n) {
                    Some(m) => {
                        assert(ev.tys[0] == e.ty.view());
                        return match m {
                            Mapping::Rename(_) => true,
                            Mapping::Discharge(t) => {
                                assert(t.view().tys[0] == t.ty.view());
                                e.ty.is_hole() || !t.ty.is_hole()
                            },
                        };
                    },
                    None => {},
                }
            },
            _ => {},
        }
        let r = self.may_act_on_kids(in_place, e) && self.may_act_on_slots(in_place, e);
        proof {
            if sub_ok(in_place, sigma, ev) {
                assert forall|i: int| 0 <= i < ev.kids.len() implies #[trigger] kid_allowed(
                    in_place,
                    sigma,
                    ev,
                    i,
                ) by {
                    assert(ev.kids[i] == ev.kids[i]);
                }
            }
            if kids_allowed(in_place, sigma, ev) {
                assert forall|i: int| 0 <= i < ev.kids.len() implies may_cross(
                    in_place,
                    sigma,
                    ev,
                    i,
                ) && sub_ok(in_place, without(sigma, scope_of(ev.head, i)), #[trigger] ev.kids[i]) by {
                    assert(kid_allowed(in_place, sigma, ev, i));
                }
            }
        }
        r
    }

    /// Whether `a` and then `b` compose: `b` may act on every term `a` puts in.
    pub fn may_compose(a: &Subst, b: &Subst) -> (r: bool)
        ensures
            r == acts_on_range(b.view(), a.view()),
    {
        let ghost av = a.view();
        let keys = a.binders();
        let mut i: usize = 0;
        while i < keys.len()
            invariant
                i <= keys.len(),
                av == a.view(),
                forall|n: NameS| names_view(keys@).contains(n) <==> av.dom().contains(n),
                forall|j: int|
                    0 <= j < i ==> (av[#[trigger] names_view(keys@)[j]] matches MappingS::Discharge(
                        t,
                    ) ==> sub_ok(false, b.view(), t)),
            decreases keys.len() - i,
        {
            assert(names_view(keys@)[i as int] == keys@[i as int]@);
            assert(av.dom().contains(keys@[i as int]@));
            match a.get(&keys[i]) {
                Some(Mapping::Discharge(t)) => {
                    if !b.may_act(false, t) {
                        return false;
                    }
                },
                _ => {},
            }
            i = i + 1;
        }
        proof {
            assert forall|n: NameS| #[trigger] av.dom().contains(n) implies (
            av[n] matches MappingS::Discharge(t) ==> sub_ok(false, b.view(), t)) by {
                assert(names_view(keys@).contains(n));
                let j = choose|j: int| 0 <= j < keys@.len() && names_view(keys@)[j] == n;
                assert(av[names_view(keys@)[j]] == av[n]);
            }
        }
        true
    }

    fn may_act_on_kids(&self, in_place: bool, e: &Expr) -> (r: bool)
        ensures
            r == kids_allowed(in_place, self.view(), e.view()),
        decreases e.view(), 0int,
    {
        let ghost ev = e.view();
        let ghost sigma = self.view();
        let kids = e.children();
        assert(kids@.len() == ev.kids.len());
        let mut ok = true;
        let mut i: usize = 0;
        while i < kids.len() && ok
            invariant
                i <= kids.len(),
                ev == e.view(),
                sigma == self.view(),
                kids@.len() == ev.kids.len(),
                expr_refs_view(kids@) == ev.kids,
                ok ==> forall|j: int| 0 <= j < i ==> #[trigger] kid_allowed(in_place, sigma, ev, j),
                !ok ==> i > 0 && !kid_allowed(in_place, sigma, ev, i - 1),
            decreases kids.len() - i,
        {
            assert(kids@[i as int].view() == ev.kids[i as int]);
            let hidden = scope(e, i);
            let inner = self.shadow_all(&hidden);
            let crosses = !(in_place || inner.acts_on(kids[i])) || inner.mentions_none(&hidden);
            assert(crosses == may_cross(in_place, sigma, ev, i as int));
            ok = crosses && inner.may_act(in_place, kids[i]);
            proof {
                assert(ok == kid_allowed(in_place, sigma, ev, i as int));
            }
            i = i + 1;
        }
        proof {
            if !ok {
                assert(!kid_allowed(in_place, sigma, ev, i - 1));
            }
        }
        ok
    }

    fn may_act_on_slots(&self, in_place: bool, e: &Expr) -> (r: bool)
        ensures
            r == forall|i: int|
                0 <= i < e.view().tys.len() && slot_acted_on(in_place, e.view(), i) ==> sub_ty_ok(
                    in_place,
                    self.view(),
                    #[trigger] e.view().tys[i],
                ),
        decreases e.view(), 0int,
    {
        let ghost ev = e.view();
        let ghost sigma = self.view();
        let slots = e.type_slots();
        assert(slots@.len() == ev.tys.len());
        let is_cast = match &e.node {
            TypedExprNode::Cast { .. } => true,
            _ => false,
        };
        let lead: usize = if e.user_annotation.is_some() { 2 } else { 1 };
        let mut ok = true;
        let mut i: usize = 0;
        while i < slots.len() && ok
            invariant
                i <= slots.len(),
                ev == e.view(),
                sigma == self.view(),
                slots@.len() == ev.tys.len(),
                type_refs_view(slots@) == ev.tys,
                is_cast == (ev.head is Cast),
                lead == (if ev.annotated { 2int } else { 1int }),
                ok ==> forall|j: int|
                    0 <= j < i && slot_acted_on(in_place, ev, j) ==> sub_ty_ok(
                        in_place,
                        sigma,
                        #[trigger] ev.tys[j],
                    ),
                !ok ==> exists|j: int|
                    0 <= j < ev.tys.len() && slot_acted_on(in_place, ev, j) && !sub_ty_ok(
                        in_place,
                        sigma,
                        #[trigger] ev.tys[j],
                    ),
            decreases slots.len() - i,
        {
            assert(slots@[i as int].view() == ev.tys[i as int]);
            if in_place || i < lead || is_cast {
                ok = self.may_act_on_type(in_place, slots[i]);
            }
            i = i + 1;
        }
        ok
    }

    /// Whether the substitution may act on the type `t` without capture.
    #[verifier::loop_isolation(false)]
    pub fn may_act_on_type(&self, in_place: bool, t: &Type) -> (r: bool)
        ensures
            r == sub_ty_ok(in_place, self.view(), t.view()),
        decreases t.view(), 1int,
    {
        let ghost tv = t.view();
        let ghost sigma = self.view();
        if self.is_id() {
            return true;
        }
        let kids = t.walk_children();
        let preds = t.predicates();
        assert(kids@.len() == tv.kids.len());
        assert(preds@.len() == tv.preds.len());
        let binder: Option<Name> = match t {
            Type::Fun { name, fun_kind, domain, codomain } => clone_opt_name(name),
            _ => None,
        };
        match &binder {
            Some(b) => {
                if self.shadow(b).mentions(b) {
                    return false;
                }
            },
            None => {},
        }
        let mut i: usize = 0;
        while i < kids.len()
            invariant
                i <= kids.len(),
                forall|j: int|
                    0 <= j < i ==> sub_ty_ok(
                        in_place,
                        without(sigma, ty_binder(tv, j)),
                        #[trigger] tv.kids[j],
                    ),
            decreases kids.len() - i,
        {
            assert(kids@[i as int].view() == tv.kids[i as int]);
            let mut hidden: Vec<Name> = Vec::new();
            match &binder {
                Some(b) => {
                    if i + 1 == kids.len() {
                        hidden.push(b.clone());
                    }
                },
                None => {},
            }
            assert(names_view(hidden@) =~= ty_binder(tv, i as int));
            if !self.shadow_all(&hidden).may_act_on_type(in_place, kids[i]) {
                return false;
            }
            i = i + 1;
        }
        let inner = self.shadow(&Name::elem());
        let mut i: usize = 0;
        while i < preds.len()
            invariant
                i <= preds.len(),
                forall|j: int|
                    0 <= j < i ==> sub_ok(
                        in_place,
                        without(sigma, seq![NameS::Elem]),
                        #[trigger] tv.preds[j],
                    ),
            decreases preds.len() - i,
        {
            assert(preds@[i as int].view() == tv.preds[i as int]);
            if !inner.may_act(in_place, preds[i]) {
                return false;
            }
            i = i + 1;
        }
        true
    }

    /// What the environment makes of `e`, where no binder captures.
    pub fn try_discharge_env(e: &Expr, env: &NameMap<Expr>) -> (r: Option<Expr>)
        ensures
            opt_expr_view(r) == discharged(env_view(env.view()), e.view()),
    {
        let live = Subst::live_env(e, env);
        if live.may_act(true, e) {
            Some(subst_expr(true, &live, e))
        } else {
            None
        }
    }
}

/// Whether `sigma` may act on subterm `i` of `e`.
pub open spec fn kid_allowed(in_place: bool, sigma: SubstS, e: ExprS, i: int) -> bool {
    may_cross(in_place, sigma, e, i) && sub_ok(
        in_place,
        without(sigma, scope_of(e.head, i)),
        e.kids[i],
    )
}

/// Whether `sigma` may act on the subterms of `e`.
pub open spec fn kids_allowed(in_place: bool, sigma: SubstS, e: ExprS) -> bool {
    forall|i: int| 0 <= i < e.kids.len() ==> #[trigger] kid_allowed(in_place, sigma, e, i)
}

pub open spec fn opt_expr_view(e: Option<Expr>) -> Option<ExprS> {
    match e {
        Some(x) => Some(x.view()),
        None => None,
    }
}

/// What the environment makes of `e`, where no binder captures.
pub open spec fn discharged(env: Map<NameS, ExprS>, e: ExprS) -> Option<ExprS> {
    let sigma = env_subst(env, e);
    if sub_ok(true, sigma, e) {
        Some(sub_expr(true, sigma, e))
    } else {
        None
    }
}

impl Type {
    /// Whether the type is the hole.
    pub fn is_hole(&self) -> (r: bool)
        ensures
            r == (self.view().head is Hole),
    {
        match self {
            Type::Hole => true,
            _ => false,
        }
    }
}

} // verus!
