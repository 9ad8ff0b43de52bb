//! What a substitution does to a term and to a type, and where it may pass.
use std::rc::Rc;
use vstd::prelude::*;
use crate::ast::{
    Builtin, BuiltinS, Expr, ExprS, HeadS, HistoryKind, Type, TypeHeadS, TypeS, TypedExprNode,
    exprs_view, opt_name_view, types_view,
};
use crate::make::{codomain_of, data_fun_ty, domain_of, fun_ty};
use crate::name::{Name, NameS, has_name, names_view};
use crate::name_map::NameMap;
use crate::pi::{Mapping, MappingS, close_pi_binder, closed_ty, keeps_typed, replacement};
use crate::refinement_set::deduped;
use crate::scope::{free_in, is_free, scope, scope_of};
use crate::sharing::{PredMemo, share, shared_refs_view, shared_view};
use crate::tree::{clone_opt_name, expr_refs_view, type_refs_view, with_kids, with_ty};

verus! {

/// A substitution: what each of its names stands for.
pub type SubstS = Map<NameS, MappingS>;

/// `sigma` without the names `ns`.
pub open spec fn without(sigma: SubstS, ns: Seq<NameS>) -> SubstS {
    Map::new(|n: NameS| sigma.dom().contains(n) && !ns.contains(n), |n: NameS| sigma[n])
}

/// Whether some name of `sigma` occurs free in `e`.
pub open spec fn is_live(sigma: SubstS, e: ExprS) -> bool {
    exists|n: NameS| #[trigger] sigma.dom().contains(n) && free_in(n, e)
}

/// Whether what `sigma` puts in mentions `n`.
pub open spec fn range_mentions(sigma: SubstS, n: NameS) -> bool {
    exists|k: NameS| #[trigger]
        sigma.dom().contains(k) && (match sigma[k] {
            MappingS::Rename(to) => to == n,
            MappingS::Discharge(t) => free_in(n, t),
        })
}

/// The name a handle keeps under `sigma`: a handle can be renamed, not replaced
/// by a term.
pub open spec fn handle_target(sigma: SubstS, n: NameS) -> NameS {
    if sigma.dom().contains(n) {
        match sigma[n] {
            MappingS::Rename(to) => to,
            MappingS::Discharge(t) => match t.head {
                HeadS::Var(m) => m,
                _ => n,
            },
        }
    } else {
        n
    }
}

/// A form with the handle it writes retargeted.
pub open spec fn retargeted(sigma: SubstS, head: HeadS) -> HeadS {
    match head {
        HeadS::Feed(n) => HeadS::Feed(handle_target(sigma, n)),
        HeadS::Define(n) => HeadS::Define(handle_target(sigma, n)),
        HeadS::MutWrite(n) => HeadS::MutWrite(handle_target(sigma, n)),
        _ => head,
    }
}

/// Whether type slot `i` is acted on. Transport leaves the declared types of
/// binders as they are.
pub open spec fn slot_acted_on(in_place: bool, e: ExprS, i: int) -> bool {
    in_place || i < (if e.annotated { 2int } else { 1int }) || e.head is Cast
}

/// An application of the marker `p ▷ iterate`.
pub open spec fn is_iterate_marked(e: ExprS) -> bool {
    e.head is Apply && e.kids.len() == 2 && e.kids[0].head is Apply && e.kids[0].kids.len() == 2
        && e.kids[0].kids[0].head == HeadS::Builtin(BuiltinS::Iterate)
}

/// `e` with every iterate marker taken off.
pub open spec fn markers_stripped(e: ExprS) -> ExprS
    decreases e,
{
    if is_iterate_marked(e) {
        markers_stripped(e.kids[1])
    } else {
        with_kids(
            e,
            Seq::new(
                e.kids.len(),
                |i: int|
                    if 0 <= i < e.kids.len() {
                        markers_stripped(e.kids[i])
                    } else {
                        arbitrary()
                    },
            ),
        )
    }
}

/// A function type like `exemplar` with other ends: its binder and kind are
/// kept, and the codomain is closed at the binder.
pub open spec fn fun_like_s(exemplar: TypeS, d: TypeS, c: TypeS) -> TypeS {
    match exemplar.head {
        TypeHeadS::Fun(name, _) => TypeS {
            head: exemplar.head,
            kids: exemplar.kids.take(exemplar.kids.len() - 2).push(d).push(
                match name {
                    Some(b) => closed_ty(b, c),
                    None => c,
                },
            ),
            preds: Seq::empty(),
        },
        TypeHeadS::History(HistoryKind::Append) => data_fun_ty(d, c),
        _ => fun_ty(d, c),
    }
}

/// A composition with the ends of its type taken from its elements.
pub open spec fn recomposed(e: ExprS) -> ExprS {
    if e.head is Compose && e.kids.len() > 0 && domain_of(e.kids[0].ty()) is Some && codomain_of(
        e.kids[e.kids.len() - 1].ty(),
    ) is Some {
        with_ty(
            e,
            fun_like_s(
                e.ty(),
                domain_of(e.kids[0].ty())->0,
                codomain_of(e.kids[e.kids.len() - 1].ty())->0,
            ),
        )
    } else {
        e
    }
}

/// The binder a type puts over its component `i`.
pub open spec fn ty_binder(t: TypeS, i: int) -> Seq<NameS> {
    match t.head {
        TypeHeadS::Fun(Some(b), _) => if i == t.kids.len() - 1 { seq![b] } else { Seq::empty() },
        _ => Seq::empty(),
    }
}

/// The substitution of `sigma` in `e`: in place, or transported to a new term.
pub open spec fn sub_expr(in_place: bool, sigma: SubstS, e: ExprS) -> ExprS
    decreases e, 1int,
{
    if !is_live(sigma, e) {
        e
    } else if e.head is Var && sigma.dom().contains(e.head->Var_0) {
        replacement(sigma[e.head->Var_0], e.ty())
    } else {
        let out = ExprS {
            head: retargeted(sigma, e.head),
            kids: sub_kids(in_place, sigma, e),
            tys: sub_slots(in_place, sigma, e),
            annotated: e.annotated,
        };
        if in_place {
            recomposed(out)
        } else {
            out
        }
    }
}

/// What `sigma` makes of the subterms of `e`.
pub open spec fn sub_kids(in_place: bool, sigma: SubstS, e: ExprS) -> Seq<ExprS>
    decreases e, 0int,
{
    Seq::new(
        e.kids.len(),
        |i: int|
            if 0 <= i < e.kids.len() {
                sub_expr(in_place, without(sigma, scope_of(e.head, i)), e.kids[i])
            } else {
                arbitrary()
            },
    )
}

/// What `sigma` makes of the type slots of `e`.
pub open spec fn sub_slots(in_place: bool, sigma: SubstS, e: ExprS) -> Seq<TypeS>
    decreases e, 0int,
{
    Seq::new(
        e.tys.len(),
        |i: int|
            if 0 <= i < e.tys.len() {
                if slot_acted_on(in_place, e, i) {
                    sub_ty(in_place, sigma, e.tys[i])
                } else {
                    e.tys[i]
                }
            } else {
                arbitrary()
            },
    )
}

/// The substitution of `sigma` in the type `t`. A predicate never reads a name
/// of `sigma` as its element, sheds the iterate markers that come in, and is
/// kept once where two now coincide.
pub open spec fn sub_ty(in_place: bool, sigma: SubstS, t: TypeS) -> TypeS
    decreases t, 1int,
{
    if sigma == Map::<NameS, MappingS>::empty() {
        t
    } else {
        TypeS {
            head: match t.head {
                TypeHeadS::ChanDom(n, l) => TypeHeadS::ChanDom(handle_target(sigma, n), l),
                _ => t.head,
            },
            kids: Seq::new(
                t.kids.len(),
                |i: int|
                    if 0 <= i < t.kids.len() {
                        sub_ty(in_place, without(sigma, ty_binder(t, i)), t.kids[i])
                    } else {
                        arbitrary()
                    },
            ),
            preds: deduped(sub_preds(in_place, sigma, t)),
        }
    }
}

/// What `sigma` makes of the predicates of `t`, one by one.
pub open spec fn sub_preds(in_place: bool, sigma: SubstS, t: TypeS) -> Seq<ExprS>
    decreases t, 0int,
{
    let inner = without(sigma, seq![NameS::Elem]);
    Seq::new(
        t.preds.len(),
        |i: int|
            if 0 <= i < t.preds.len() {
                if is_live(inner, t.preds[i]) {
                    markers_stripped(sub_expr(in_place, inner, t.preds[i]))
                } else {
                    t.preds[i]
                }
            } else {
                arbitrary()
            },
    )
}

/// What `sigma` makes of one predicate.
pub open spec fn sub_pred(in_place: bool, sigma: SubstS, p: ExprS) -> ExprS {
    let inner = without(sigma, seq![NameS::Elem]);
    if is_live(inner, p) {
        markers_stripped(sub_expr(in_place, inner, p))
    } else {
        p
    }
}

/// Whether `sigma` may pass under the binders of subterm `i`: what it puts in
/// must not mention them. Transport asks it only where it acts in the subterm.
pub open spec fn may_cross(in_place: bool, sigma: SubstS, e: ExprS, i: int) -> bool {
    let bs = scope_of(e.head, i);
    let inner = without(sigma, bs);
    in_place || is_live(inner, e.kids[i]) ==> forall|b: NameS| #[trigger]
        bs.contains(b) ==> !range_mentions(inner, b)
}

/// Whether `sigma` may act on `e`: no binder captures what it puts in, and no
/// typed occurrence is replaced by an untyped term.
pub open spec fn sub_ok(in_place: bool, sigma: SubstS, e: ExprS) -> bool
    decreases e,
{
    is_live(sigma, e) ==> if e.head is Var && sigma.dom().contains(e.head->Var_0) {
        keeps_typed(sigma[e.head->Var_0], e.ty())
    } else {
        &&& forall|i: int|
            0 <= i < e.kids.len() ==> may_cross(in_place, sigma, e, i) && sub_ok(
                in_place,
                without(sigma, scope_of(e.head, i)),
                #[trigger] e.kids[i],
            )
        &&& forall|i: int|
            0 <= i < e.tys.len() && slot_acted_on(in_place, e, i) ==> sub_ty_ok(
                in_place,
                sigma,
                #[trigger] e.tys[i],
            )
    }
}

/// Whether `sigma` may act on the type `t`.
pub open spec fn sub_ty_ok(in_place: bool, sigma: SubstS, t: TypeS) -> bool
    decreases t,
{
    sigma != Map::<NameS, MappingS>::empty() ==> {
        &&& forall|i: int|
            0 <= i < t.kids.len() ==> sub_ty_ok(
                in_place,
                without(sigma, ty_binder(t, i)),
                #[trigger] t.kids[i],
            )
        &&& t.head matches TypeHeadS::Fun(Some(b), _) ==> !range_mentions(without(sigma, seq![b]), b)
        &&& forall|i: int|
            0 <= i < t.preds.len() ==> sub_ok(
                in_place,
                without(sigma, seq![NameS::Elem]),
                #[trigger] t.preds[i],
            )
    }
}

/// A substitution.
pub struct Subst {
    pub map: NameMap<Mapping>,
}

impl Subst {
    pub open spec fn view(&self) -> SubstS {
        self.map.view().map_values(|m: Mapping| m.view())
    }

    /// The substitution that does nothing.
    pub fn id() -> (r: Subst)
        ensures
            r.view() == Map::<NameS, MappingS>::empty(),
    {
        let out = Subst { map: NameMap::new() };
        assert(out.view() =~= Map::<NameS, MappingS>::empty());
        out
    }

    /// Whether this is the substitution that does nothing.
    pub fn is_id(&self) -> (r: bool)
        ensures
            r == (self.view() == Map::<NameS, MappingS>::empty()),
    {
        let r = self.map.is_empty();
        proof {
            if r {
                assert(self.view() =~= Map::<NameS, MappingS>::empty());
            } else if self.view() == Map::<NameS, MappingS>::empty() {
                assert(self.map.view().dom() =~= self.view().dom());
                assert(self.map.view() =~= Map::<NameS, Mapping>::empty());
            }
        }
        r
    }

    /// What `n` stands for.
    pub fn get(&self, n: &Name) -> (r: Option<&Mapping>)
        ensures
            match r {
                Some(m) => self.view().dom().contains(n@) && m.view() == self.view()[n@],
                None => !self.view().dom().contains(n@),
            },
    {
        self.map.get(n)
    }

    /// This substitution with `n` standing for `m`.
    pub fn with(self, n: Name, m: Mapping) -> (r: Subst)
        ensures
            r.view() == self.view().insert(n@, m.view()),
    {
        let ghost before = self.view();
        let out = Subst { map: self.map.inserted(n, m) };
        assert(out.view() =~= before.insert(n@, m.view()));
        out
    }

    /// This substitution without the binders it passes under.
    pub fn shadow_all(&self, binders: &Vec<Name>) -> (r: Subst)
        ensures
            r.view() == without(self.view(), names_view(binders@)),
    {
        let n: usize = self.map.len();
        let ghost keys = self.map.keys_view();
        let mut out = Subst::id();
        let mut i: usize = 0;
        while i < n
            invariant
                i <= n,
                n == keys.len(),
                keys == self.map.keys_view(),
                forall|k: NameS| #[trigger]
                    out.view().dom().contains(k) <==> (exists|j: int| 0 <= j < i && keys[j] == k)
                        && !names_view(binders@).contains(k),
                forall|k: NameS| #[trigger]
                    out.view().dom().contains(k) ==> self.view().dom().contains(k)
                        && out.view()[k] == self.view()[k],
            decreases n - i,
        {
            let ghost before = out.view();
            let key = self.map.key(i);
            if !has_name(binders, key) {
                let m = self.map.value(i).clone();
                out = out.with(key.clone(), m);
            }
            proof {
                assert forall|k: NameS| #[trigger] out.view().dom().contains(k) <==> (exists|j: int|
                    0 <= j < i + 1 && keys[j] == k) && !names_view(binders@).contains(k) by {
                    if out.view().dom().contains(k) {
                        if before.dom().contains(k) {
                            let j = choose|j: int| 0 <= j < i && keys[j] == k;
                            assert(0 <= j < i + 1 && keys[j] == k);
                        } else {
                            assert(keys[i as int] == k);
                        }
                    }
                    if (exists|j: int| 0 <= j < i + 1 && keys[j] == k) && !names_view(
                        binders@,
                    ).contains(k) {
                        let j = choose|j: int| 0 <= j < i + 1 && keys[j] == k;
                        if j < i {
                            assert(before.dom().contains(k));
                        }
                    }
                }
            }
            i = i + 1;
        }
        proof {
            assert forall|k: NameS| #[trigger] out.view().dom().contains(k) <==> without(
                self.view(),
                names_view(binders@),
            ).dom().contains(k) by {
                if self.view().dom().contains(k) {
                    assert(keys.contains(k));
                    let j = choose|j: int| 0 <= j < keys.len() && keys[j] == k;
                    assert(0 <= j < n && keys[j] == k);
                }
                if exists|j: int| 0 <= j < n && keys[j] == k {
                    assert(keys.contains(k));
                }
            }
            assert(out.view() =~= without(self.view(), names_view(binders@)));
        }
        out
    }

    /// This substitution without `binder`.
    pub fn shadow(&self, binder: &Name) -> (r: Subst)
        ensures
            r.view() == without(self.view(), seq![binder@]),
    {
        let mut one: Vec<Name> = Vec::new();
        one.push(binder.clone());
        assert(names_view(one@) =~= seq![binder@]);
        self.shadow_all(&one)
    }

    /// Whether none of `binders` is a name of the substitution.
    pub fn passes(&self, binders: &Vec<Name>) -> (r: bool)
        ensures
            r == (without(self.view(), names_view(binders@)) == self.view()),
    {
        let ghost sigma = self.view();
        let ghost ns = names_view(binders@);
        let mut i: usize = 0;
        while i < binders.len()
            invariant
                i <= binders.len(),
                sigma == self.view(),
                ns == names_view(binders@),
                forall|j: int| 0 <= j < i ==> !sigma.dom().contains(#[trigger] ns[j]),
            decreases binders.len() - i,
        {
            if self.get(&binders[i]).is_some() {
                proof {
                    assert(ns[i as int] == binders@[i as int]@);
                    assert(ns.contains(ns[i as int]));
                    assert(!without(sigma, ns).dom().contains(ns[i as int]));
                }
                return false;
            }
            i = i + 1;
        }
        assert(without(sigma, ns) =~= sigma);
        true
    }

    /// Whether some name of the substitution occurs free in `e`.
    pub fn acts_on(&self, e: &Expr) -> (r: bool)
        ensures
            r == is_live(self.view(), e.view()),
    {
        let n: usize = self.map.len();
        let ghost keys = self.map.keys_view();
        let mut i: usize = 0;
        while i < n
            invariant
                i <= n,
                n == keys.len(),
                keys == self.map.keys_view(),
                forall|j: int| 0 <= j < i ==> !free_in(#[trigger] keys[j], e.view()),
            decreases n - i,
        {
            let key = self.map.key(i);
            if is_free(key, e) {
                assert(self.view().dom().contains(key@));
                return true;
            }
            i = i + 1;
        }
        proof {
            assert forall|k: NameS| #[trigger] self.view().dom().contains(k) implies !free_in(
                k,
                e.view(),
            ) by {
                assert(self.map.view().dom().contains(k));
                assert(keys.contains(k));
                let j = choose|j: int| 0 <= j < keys.len() && keys[j] == k;
                assert(!free_in(keys[j], e.view()));
            }
        }
        false
    }

    /// The name the handle `name` keeps.
    fn retarget(&self, name: &Name) -> (r: Name)
        ensures
            r@ == handle_target(self.view(), name@),
    {
        match self.get(name) {
            Some(Mapping::Rename(to)) => to.clone(),
            Some(Mapping::Discharge(t)) => match &t.node {
                TypedExprNode::Var(m) => m.clone(),
                _ => name.clone(),
            },
            None => name.clone(),
        }
    }
}

impl Clone for Subst {
    fn clone(&self) -> (r: Subst)
        ensures
            r.view() == self.view(),
    {
        let none: Vec<Name> = Vec::new();
        let out = self.shadow_all(&none);
        assert(without(self.view(), names_view(none@)) =~= self.view());
        out
    }
}

/// `e` with every iterate marker taken off.
pub fn strip_iterate_markers(e: &Expr) -> (r: Expr)
    ensures
        r.view() == markers_stripped(e.view()),
    decreases e.view(),
{
    let ghost ev = e.view();
    match &e.node {
        TypedExprNode::Apply { function, argument } => {
            assert(ev.kids[0] == function.view() && ev.kids[1] == argument.view());
            match &function.node {
                TypedExprNode::Apply { function: f, argument: a } => {
                    assert(function.view().kids[0] == f.view());
                    match &f.node {
                        TypedExprNode::Builtin(Builtin::Iterate) => {
                            return strip_iterate_markers(argument);
                        },
                        _ => {},
                    }
                },
                _ => {},
            }
        },
        _ => {},
    }
    let kids = e.children();
    assert(kids@.len() == ev.kids.len());
    let mut ks: Vec<Expr> = Vec::new();
    let mut i: usize = 0;
    while i < kids.len()
        invariant
            i <= kids.len(),
            ks.len() == i,
            ev == e.view(),
            kids@.len() == ev.kids.len(),
            expr_refs_view(kids@) == ev.kids,
            forall|j: int| 0 <= j < i ==> (#[trigger] ks@[j]).view() == markers_stripped(ev.kids[j]),
        decreases kids.len() - i,
    {
        assert(kids@[i as int].view() == ev.kids[i as int]);
        ks.push(strip_iterate_markers(kids[i]));
        i = i + 1;
    }
    assert(exprs_view(ks@) =~= markers_stripped(ev).kids);
    e.with_children(ks)
}

impl Type {
    /// A function type like `exemplar` with the ends `domain` and `codomain`.
    pub fn fun_like(exemplar: &Type, domain: Type, codomain: Type) -> (r: Type)
        ensures
            r.view() == fun_like_s(exemplar.view(), domain.view(), codomain.view()),
    {
        match exemplar {
            Type::Fun { name, fun_kind, domain: d0, codomain: c0 } => {
                let codomain = match name {
                    Some(b) => close_pi_binder(b, &codomain),
                    None => codomain,
                };
                let kind = fun_kind.clone();
                let ghost ek = exemplar.view().kids;
                assert(ek.take(ek.len() - 2) =~= fun_kind.types_view());
                Type::Fun {
                    name: clone_opt_name(name),
                    fun_kind: kind,
                    domain: Box::new(domain),
                    codomain: Box::new(codomain),
                }
            },
            Type::History { value, domain: d0, history_kind: HistoryKind::Append } => {
                Type::data_fun(domain, codomain)
            },
            _ => Type::fun(domain, codomain),
        }
    }
}

fn recompose(e: Expr) -> (r: Expr)
    ensures
        r.view() == recomposed(e.view()),
{
    let ty = match &e.node {
        TypedExprNode::Compose(es) => {
            assert(e.view().kids == exprs_view(es@));
            assert(exprs_view(es@).len() == es@.len());
            if es.len() == 0 {
                None
            } else {
                assert(e.view().kids[0] == es@[0].view());
                assert(e.view().kids[es@.len() - 1] == es@[es@.len() - 1].view());
                match (es[0].ty.domain(), es[es.len() - 1].ty.codomain()) {
                    (Some(d), Some(c)) => Some(Type::fun_like(&e.ty, d, c)),
                    _ => None,
                }
            }
        },
        _ => None,
    };
    match ty {
        Some(t) => e.with_ty(t),
        None => e,
    }
}

/// A form with the handle it writes retargeted.
fn retarget_node(s: &Subst, e: Expr) -> (r: Expr)
    ensures
        r.view() == (ExprS { head: retargeted(s.view(), e.view().head), ..e.view() }),
{
    let ghost ev = e.view();
    let Expr { node, ty, user_annotation } = e;
    let node = match node {
        TypedExprNode::Feed { name, value } => TypedExprNode::Feed {
            name: s.retarget(&name),
            value,
        },
        TypedExprNode::Define { name, value } => TypedExprNode::Define {
            name: s.retarget(&name),
            value,
        },
        TypedExprNode::MutWrite { name, value } => TypedExprNode::MutWrite {
            name: s.retarget(&name),
            value,
        },
        other => other,
    };
    let out = Expr { node, ty, user_annotation };
    assert(out.view().kids =~= ev.kids);
    assert(out.view().tys =~= ev.tys);
    out
}

/// What the substitution makes of a predicate, wherever it stands.
pub open spec fn sub_step(in_place: bool, sigma: SubstS) -> spec_fn(ExprS, u32) -> ExprS {
    |p: ExprS, depth: u32| sub_pred(in_place, sigma, p)
}

/// The substitution in a term.
pub fn subst_expr(in_place: bool, s: &Subst, e: &Expr) -> (r: Expr)
    requires
        sub_ok(in_place, s.view(), e.view()),
    ensures
        r.view() == sub_expr(in_place, s.view(), e.view()),
{
    let mut memo = PredMemo::new();
    rewrite_in_expr(in_place, s, e, &mut memo)
}

/// The substitution in a type.
pub fn subst_type(in_place: bool, s: &Subst, t: &Type) -> (r: Type)
    requires
        sub_ty_ok(in_place, s.view(), t.view()),
    ensures
        r.view() == sub_ty(in_place, s.view(), t.view()),
{
    let mut memo = PredMemo::new();
    rewrite_in_type(in_place, s, t, &mut memo)
}

fn rewrite_in_expr(in_place: bool, s: &Subst, e: &Expr, memo: &mut PredMemo) -> (r: Expr)
    requires
        sub_ok(in_place, s.view(), e.view()),
        old(memo).follows(sub_step(in_place, s.view())),
    ensures
        r.view() == sub_expr(in_place, s.view(), e.view()),
        final(memo).follows(sub_step(in_place, s.view())),
    decreases e.view(), 0int,
{
    let ghost ev = e.view();
    let ghost sigma = s.view();
    if !s.acts_on(e) {
        return e.clone();
    }
    match &e.node {
        TypedExprNode::Var(n) => {
            match s.get(n) {
                Some(m) => {
                    assert(ev.tys[0] == e.ty.view());
                    return m.as_expr(&e.ty);
                },
                None => {},
            }
        },
        _ => {},
    }
    let kids = e.children();
    let slots = e.type_slots();
    assert(kids@.len() == ev.kids.len());
    assert(slots@.len() == ev.tys.len());
    let mut ks: Vec<Expr> = Vec::new();
    let mut ts: Vec<Type> = Vec::new();
    let is_cast = match &e.node {
        TypedExprNode::Cast { .. } => true,
        _ => false,
    };
    let lead: usize = if e.user_annotation.is_some() { 2 } else { 1 };
    let mut i: usize = 0;
    while i < kids.len()
        invariant
            i <= kids.len(),
            ks.len() == i,
            ev == e.view(),
            sigma == s.view(),
            memo.follows(sub_step(in_place, sigma)),
            kids@.len() == ev.kids.len(),
            sub_ok(in_place, sigma, ev),
            is_live(sigma, ev),
            !(ev.head is Var && sigma.dom().contains(ev.head->Var_0)),
            expr_refs_view(kids@) == ev.kids,
            forall|j: int|
                0 <= j < i ==> (#[trigger] ks@[j]).view() == sub_expr(
                    in_place,
                    without(sigma, scope_of(ev.head, j)),
                    ev.kids[j],
                ),
        decreases kids.len() - i,
    {
        assert(kids@[i as int].view() == ev.kids[i as int]);
        let bound = scope(e, i);
        if s.passes(&bound) {
            ks.push(rewrite_in_expr(in_place, s, kids[i], memo));
        } else {
            let inner = s.shadow_all(&bound);
            let mut fresh = PredMemo::new();
            ks.push(rewrite_in_expr(in_place, &inner, kids[i], &mut fresh));
        }
        i = i + 1;
    }
    let mut i: usize = 0;
    while i < slots.len()
        invariant
            i <= slots.len(),
            ts.len() == i,
            ev == e.view(),
            sigma == s.view(),
            memo.follows(sub_step(in_place, sigma)),
            slots@.len() == ev.tys.len(),
            sub_ok(in_place, sigma, ev),
            is_live(sigma, ev),
            !(ev.head is Var && sigma.dom().contains(ev.head->Var_0)),
            is_cast == (ev.head is Cast),
            lead == (if ev.annotated { 2int } else { 1int }),
            type_refs_view(slots@) == ev.tys,
            forall|j: int|
                0 <= j < i ==> (#[trigger] ts@[j]).view() == (if slot_acted_on(in_place, ev, j) {
                    sub_ty(in_place, sigma, ev.tys[j])
                } else {
                    ev.tys[j]
                }),
        decreases slots.len() - i,
    {
        assert(slots@[i as int].view() == ev.tys[i as int]);
        if in_place || i < lead || is_cast {
            ts.push(rewrite_in_type(in_place, s, slots[i], memo));
        } else {
            ts.push(slots[i].clone());
        }
        i = i + 1;
    }
    proof {
        assert(exprs_view(ks@) =~= sub_kids(in_place, sigma, ev));
        assert(types_view(ts@) =~= sub_slots(in_place, sigma, ev));
    }
    let out = retarget_node(s, e.rebuild(ks, ts));
    if in_place {
        recompose(out)
    } else {
        out
    }
}

/// The substitution in a predicate. One it does not act on keeps its term, and
/// handles on one term come out as handles on one result.
fn rewrite_pred(
    in_place: bool,
    s: &Subst,
    inner: &Subst,
    p: &Rc<Expr>,
    memo: &mut PredMemo,
) -> (r: Rc<Expr>)
    requires
        inner.view() == without(s.view(), seq![NameS::Elem]),
        is_live(inner.view(), p.view()) ==> sub_ok(in_place, inner.view(), p.view()),
        old(memo).follows(sub_step(in_place, s.view())),
    ensures
        r.view() == sub_pred(in_place, s.view(), p.view()),
        final(memo).follows(sub_step(in_place, s.view())),
    decreases p.view(), 1int,
{
    let ghost sigma = s.view();
    if !inner.acts_on(p) {
        return share(p);
    }
    match memo.find(p, 0) {
        Some(q) => {
            assert(q.view() == sub_step(in_place, sigma)(p.view(), 0));
            return q;
        },
        None => {},
    }
    let mut elem: Vec<Name> = Vec::new();
    elem.push(Name::elem());
    assert(names_view(elem@) =~= seq![NameS::Elem]);
    let out = if s.passes(&elem) {
        rewrite_in_expr(in_place, inner, p, memo)
    } else {
        let mut fresh = PredMemo::new();
        rewrite_in_expr(in_place, inner, p, &mut fresh)
    };
    let q = Rc::new(strip_iterate_markers(&out));
    assert(q.view() == sub_step(in_place, sigma)(p.view(), 0));
    memo.note(p, 0, &q);
    q
}

fn rewrite_in_type(in_place: bool, s: &Subst, t: &Type, memo: &mut PredMemo) -> (r: Type)
    requires
        sub_ty_ok(in_place, s.view(), t.view()),
        old(memo).follows(sub_step(in_place, s.view())),
    ensures
        r.view() == sub_ty(in_place, s.view(), t.view()),
        final(memo).follows(sub_step(in_place, s.view())),
    decreases t.view(), 0int,
{
    let ghost tv = t.view();
    let ghost sigma = s.view();
    if s.is_id() {
        return t.clone();
    }
    let kids = t.walk_children();
    let preds = t.shared_predicates();
    assert(kids@.len() == tv.kids.len());
    assert(preds@.len() == tv.preds.len()) by {
        assert(shared_refs_view(preds@).len() == preds@.len());
    }
    let mut ks: Vec<Type> = Vec::new();
    let mut ps: Vec<Rc<Expr>> = Vec::new();
    let binder: Option<Name> = match t {
        Type::Fun { name, fun_kind, domain, codomain } => clone_opt_name(name),
        _ => None,
    };
    let mut i: usize = 0;
    while i < kids.len()
        invariant
            i <= kids.len(),
            ks.len() == i,
            tv == t.view(),
            sigma == s.view(),
            memo.follows(sub_step(in_place, sigma)),
            sigma != Map::<NameS, MappingS>::empty(),
            kids@.len() == tv.kids.len(),
            sub_ty_ok(in_place, sigma, tv),
            opt_name_view(binder) == (match tv.head {
                TypeHeadS::Fun(n, _) => n,
                _ => None,
            }),
            type_refs_view(kids@) == tv.kids,
            forall|j: int|
                0 <= j < i ==> (#[trigger] ks@[j]).view() == sub_ty(
                    in_place,
                    without(sigma, ty_binder(tv, j)),
                    tv.kids[j],
                ),
        decreases kids.len() - i,
    {
        assert(kids@[i as int].view() == tv.kids[i as int]);
        let mut hidden: Vec<Name> = Vec::new();
        match &binder {
            Some(b) => {
                if i + 1 == kids.len() {
                    hidden.push(b.clone());
                }
            },
            None => {},
        }
        assert(names_view(hidden@) =~= ty_binder(tv, i as int));
        if s.passes(&hidden) {
            ks.push(rewrite_in_type(in_place, s, kids[i], memo));
        } else {
            let inner = s.shadow_all(&hidden);
            let mut fresh = PredMemo::new();
            ks.push(rewrite_in_type(in_place, &inner, kids[i], &mut fresh));
        }
        i = i + 1;
    }
    let elem = Name::elem();
    let inner = s.shadow(&elem);
    let ghost raw = sub_preds(in_place, sigma, tv);
    let mut i: usize = 0;
    while i < preds.len()
        invariant
            i <= preds.len(),
            ps.len() == i,
            tv == t.view(),
            sigma == s.view(),
            memo.follows(sub_step(in_place, sigma)),
            sigma != Map::<NameS, MappingS>::empty(),
            inner.view() == without(sigma, seq![NameS::Elem]),
            preds@.len() == tv.preds.len(),
            raw == sub_preds(in_place, sigma, tv),
            sub_ty_ok(in_place, sigma, tv),
            shared_refs_view(preds@) == tv.preds,
            forall|j: int| 0 <= j < i ==> (#[trigger] ps@[j]).view() == raw[j],
        decreases preds.len() - i,
    {
        assert(preds@[i as int].view() == tv.preds[i as int]);
        assert(raw[i as int] == sub_pred(in_place, sigma, tv.preds[i as int]));
        ps.push(rewrite_pred(in_place, s, &inner, preds[i], memo));
        i = i + 1;
    }
    proof {
        assert(shared_view(ps@) =~= raw);
        assert(types_view(ks@) =~= sub_ty(in_place, sigma, tv).kids);
    }
    let out = t.rebuild(ks, ps);
    match out {
        Type::ChanDom(n, l) => Type::ChanDom(s.retarget(&n), l),
        other => other,
    }
}

} // verus!
