//! Terms and types that the transactional rewriting is made of.
use std::rc::Rc;
use vstd::prelude::*;
use crate::ast::{
    BaseType, Builtin, BuiltinS, Expr, ExprS, HeadS, HistoryKind, Lit, LitS, Refinement, Type,
    TypeHeadS, TypeS, TypedBinding, TypedExprNode, exprs_view, field_exprs_view,
    field_names_view, field_types_view, types_view,
};
use crate::make::{
    apply_s, base_ty, builtin_s, compose_s, fun_ty, lambda_s, let_s, lit_s, proj_field_s,
    proj_index_s, record_s, record_ty, stmt_s, tuple_s, tuple_ty, txn_ty, var_s,
};
use crate::name::{Name, NameS};
use crate::sharing::shared_view;
use crate::subst_laws::value;
use crate::text::owned;
use crate::tree::type_refs_view;

verus! {

/// A type without the restrictions at its head.
pub open spec fn bare(t: TypeS) -> TypeS
    decreases t,
{
    if t.head is Refinement && t.kids.len() > 0 {
        bare(t.kids[0])
    } else {
        t
    }
}

/// A type without the restrictions at its head.
pub fn bared(t: &Type) -> (r: &Type)
    ensures
        r.view() == bare(t.view()),
        !(r is Refinement),
    decreases t.view(),
{
    match t {
        Type::Refinement(inner, _) => {
            assert(t.view().kids[0] == inner.view());
            assert(decreases_to!(t.view() => t.view().kids[0]));
            bared(inner)
        },
        other => other,
    }
}

/// A type without restrictions at any depth.
pub open spec fn unrefined(t: TypeS) -> TypeS
    decreases t,
{
    if t.head is Refinement && t.kids.len() > 0 {
        unrefined(t.kids[0])
    } else {
        TypeS {
            kids: Seq::new(
                t.kids.len(),
                |i: int|
                    if 0 <= i < t.kids.len() {
                        unrefined(t.kids[i])
                    } else {
                        arbitrary()
                    },
            ),
            ..t
        }
    }
}

/// Drops the restrictions of a type at every depth.
pub fn strip_refinements(t: &Type) -> (r: Type)
    ensures
        r.view() == unrefined(t.view()),
    decreases t.view(),
{
    let ghost tv = t.view();
    match t {
        Type::Refinement(inner, _) => {
            assert(tv.kids[0] == inner.view());
            assert(decreases_to!(tv => tv.kids[0]));
            return strip_refinements(inner);
        },
        _ => {},
    }
    let kids = t.walk_children();
    assert(kids@.len() == tv.kids.len());
    let mut out: Vec<Type> = Vec::new();
    let mut i: usize = 0;
    while i < kids.len()
        invariant
            i <= kids.len(),
            tv == t.view(),
            kids@.len() == tv.kids.len(),
            type_refs_view(kids@) == tv.kids,
            out.len() == i,
            forall|j: int| 0 <= j < i ==> (#[trigger] out@[j]).view() == unrefined(tv.kids[j]),
        decreases kids.len() - i,
    {
        assert(kids@[i as int].view() == tv.kids[i as int]);
        out.push(strip_refinements(kids[i]));
        i = i + 1;
    }
    let none: Vec<Rc<Expr>> = Vec::new();
    assert(tv.preds =~= Seq::empty());
    assert(shared_view(none@) =~= Seq::empty());
    assert(types_view(out@) =~= unrefined(tv).kids);
    t.rebuild(out, none)
}

/// What one read of a mutable variable of type `t` yields.
pub open spec fn value_ty_of(t: TypeS) -> TypeS
    decreases t,
    via value_ty_of_decreases
{
    if bare(t).head == TypeHeadS::History(HistoryKind::Overwrite) && bare(t).kids.len() == 2 {
        value_ty_of(bare(t).kids[0])
    } else {
        unrefined(t)
    }
}

#[via_fn]
proof fn value_ty_of_decreases(t: TypeS) {
    lemma_bare_smaller(t);
    let u = bare(t);
    if u.kids.len() == 2 {
        assert(decreases_to!(u => u.kids[0]));
    }
}

proof fn lemma_bare_smaller(t: TypeS)
    ensures
        bare(t) == t || decreases_to!(t => bare(t)),
    decreases t,
{
    if t.head is Refinement && t.kids.len() > 0 {
        assert(decreases_to!(t => t.kids[0]));
        lemma_bare_smaller(t.kids[0]);
    }
}

/// What one read of a mutable variable of type `ty` yields.
pub fn mut_var_value_ty(ty: &Type) -> (r: Type)
    ensures
        r.view() == value_ty_of(ty.view()),
    decreases ty.view(),
{
    let u = bared(ty);
    match u {
        Type::History { value, domain, history_kind: HistoryKind::Overwrite } => {
            proof {
                lemma_bare_smaller(ty.view());
                assert(u.view().kids[0] == value.view());
                assert(decreases_to!(u.view() => u.view().kids[0]));
            }
            mut_var_value_ty(value)
        },
        _ => strip_refinements(ty),
    }
}

/// The type of a mutable variable's history.
pub open spec fn history_s(v: TypeS) -> TypeS {
    fun_ty(txn_ty(), v)
}

pub fn history_ty(value_ty: &Type) -> (r: Type)
    ensures
        r.view() == history_s(value_ty.view()),
{
    Type::fun(Type::Txn, value_ty.clone())
}

/// A reference of type `ty`.
pub fn tvar(name: &Name, ty: Type) -> (r: Expr)
    ensures
        r.view() == var_s(name@, ty.view()),
{
    let out = Expr::var(name.clone()).with_ty(ty);
    assert(out.view().tys =~= seq![ty.view()]);
    out
}

pub fn tlit(l: Lit, ty: Type) -> (r: Expr)
    ensures
        r.view() == lit_s(l.view(), ty.view()),
{
    let out = Expr::lit(l).with_ty(ty);
    assert(out.view().tys =~= seq![ty.view()]);
    out
}

/// `arg ▷ func` at type `ty`.
pub fn apply_ty(arg: Expr, func: Expr, ty: Type) -> (r: Expr)
    ensures
        r.view() == apply_s(arg.view(), func.view(), ty.view()),
{
    let out = Expr::apply(arg, func).with_ty(ty);
    assert(out.view().tys =~= seq![ty.view()]);
    out
}

pub fn builtin_ty(b: Builtin, ty: Type) -> (r: Expr)
    ensures
        r.view() == builtin_s(b.view(), ty.view()),
{
    let out = Expr::builtin(b).with_ty(ty);
    assert(out.view().tys =~= seq![ty.view()]);
    out
}

pub fn ttuple(es: Vec<Expr>, ty: Type) -> (r: Expr)
    ensures
        r.view() == tuple_s(exprs_view(es@), ty.view()),
{
    let out = Expr::tuple(es).with_ty(ty);
    assert(out.view().tys =~= seq![ty.view()]);
    out
}

pub fn tcompose(es: Vec<Expr>, ty: Type) -> (r: Expr)
    ensures
        r.view() == compose_s(exprs_view(es@), ty.view()),
{
    let out = Expr::compose(es).with_ty(ty);
    assert(out.view().tys =~= seq![ty.view()]);
    out
}

pub fn trecord(fs: Vec<(String, Expr)>, ty: Type) -> (r: Expr)
    ensures
        r.view() == record_s(field_names_view(fs@), field_exprs_view(fs@), ty.view()),
{
    let out = Expr::record(fs).with_ty(ty);
    assert(out.view().tys =~= seq![ty.view()]);
    out
}

pub fn proj_index_ty(i: usize, ty: Type) -> (r: Expr)
    ensures
        r.view() == proj_index_s(i, ty.view()),
{
    let out = Expr::proj_index(i).with_ty(ty);
    assert(out.view().tys =~= seq![ty.view()]);
    out
}

pub fn proj_field_ty(f: &str, ty: Type) -> (r: Expr)
    ensures
        r.view() == proj_field_s(f@, ty.view()),
{
    let out = Expr::proj_field(owned(f)).with_ty(ty);
    assert(out.view().tys =~= seq![ty.view()]);
    out
}

/// `λ name → body` at the computation type of its ends.
pub fn fun_lambda(name: Name, param_ty: Type, body: Expr, result_ty: Type) -> (r: Expr)
    ensures
        r.view() == lambda_s(
            name@,
            param_ty.view(),
            body.view(),
            fun_ty(param_ty.view(), result_ty.view()),
        ),
{
    let ty = Type::fun(param_ty.clone(), result_ty);
    let ghost pv = param_ty.view();
    let out = Expr::lambda(name, param_ty, body).with_ty(ty);
    assert(out.view().tys =~= seq![ty.view(), pv]);
    out
}

/// `let name : name_ty = def in body`, at the type of the body.
pub fn let_typed(name: Name, name_ty: Type, def: Expr, body: Expr) -> (r: Expr)
    ensures
        r.view() == let_s(name@, name_ty.view(), def.view(), body.view(), body.view().ty()),
{
    let ty = body.ty.clone();
    assert(body.view().tys[0] == body.ty.view());
    let out = Expr {
        node: TypedExprNode::Let {
            binding: TypedBinding { name, ty: name_ty },
            bound_expr: Box::new(def),
            body: Box::new(body),
        },
        ty,
        user_annotation: None,
    };
    assert(out.view().tys =~= seq![ty.view(), name_ty.view()]);
    out
}

/// The statement `effect` and then `rest`, at the type of the rest.
pub fn then_stmt(effect: Expr, rest: Expr) -> (r: Expr)
    ensures
        r.view() == stmt_s(effect.view(), rest.view(), rest.view().ty()),
{
    let ty = rest.ty.clone();
    assert(rest.view().tys[0] == rest.ty.view());
    let out = Expr::expr_stmt(effect, rest).with_ty(ty);
    assert(out.view().tys =~= seq![ty.view()]);
    out
}

pub fn exprs2(a: Expr, b: Expr) -> (r: Vec<Expr>)
    ensures
        r@.len() == 2,
        exprs_view(r@) == seq![a.view(), b.view()],
{
    let mut out: Vec<Expr> = Vec::new();
    out.push(a);
    out.push(b);
    assert(exprs_view(out@) =~= seq![a.view(), b.view()]);
    out
}

pub fn types2(a: Type, b: Type) -> (r: Vec<Type>)
    ensures
        types_view(r@) == seq![a.view(), b.view()],
{
    let mut out: Vec<Type> = Vec::new();
    out.push(a);
    out.push(b);
    assert(types_view(out@) =~= seq![a.view(), b.view()]);
    out
}

pub fn clone_types(ts: &Vec<Type>) -> (r: Vec<Type>)
    ensures
        r@.len() == ts@.len(),
        types_view(r@) == types_view(ts@),
{
    let mut out: Vec<Type> = Vec::new();
    let mut i: usize = 0;
    while i < ts.len()
        invariant
            i <= ts.len(),
            out.len() == i,
            forall|j: int| 0 <= j < i ==> (#[trigger] out@[j]).view() == ts@[j].view(),
        decreases ts.len() - i,
    {
        out.push(ts[i].clone());
        i = i + 1;
    }
    assert(types_view(out@) =~= types_view(ts@));
    out
}

pub fn tuple_type(ts: Vec<Type>) -> (r: Type)
    ensures
        r.view() == tuple_ty(types_view(ts@)),
{
    Type::Tuple(ts)
}

pub fn record_type(fs: Vec<(String, Type)>) -> (r: Type)
    ensures
        r.view() == record_ty(field_names_view(fs@), field_types_view(fs@)),
{
    Type::Record(fs)
}

pub open spec fn bool_ty() -> TypeS {
    base_ty(BaseType::Bool)
}

/// Component `i` of a tuple `e`.
pub open spec fn item_at(e: ExprS, i: usize, elt: TypeS) -> ExprS {
    apply_s(e, proj_index_s(i, fun_ty(e.ty(), elt)), elt)
}

/// Component `i` of the tuple `item`, whose type is `item_ty`.
pub fn proj_item(item: &Expr, i: usize, elt_ty: &Type) -> (r: Expr)
    ensures
        r.view() == item_at(item.view(), i, elt_ty.view()),
{
    assert(item.view().tys[0] == item.ty.view());
    let proj = proj_index_ty(i, Type::fun(item.ty.clone(), elt_ty.clone()));
    apply_ty(item.clone(), proj, elt_ty.clone())
}

/// Component `i` of the tuple that `p` refers to.
pub fn proj_tuple(p: &Name, tuple_ty: &Type, i: usize, elt_ty: &Type) -> (r: Expr)
    ensures
        r.view() == item_at(var_s(p@, tuple_ty.view()), i, elt_ty.view()),
{
    let v = tvar(p, tuple_ty.clone());
    proj_item(&v, i, elt_ty)
}

/// Field `f` of a record `e`.
pub open spec fn field_at(e: ExprS, f: Seq<char>, elt: TypeS) -> ExprS {
    apply_s(e, proj_field_s(f, fun_ty(e.ty(), elt)), elt)
}

pub fn proj_named(e: &Expr, f: &str, elt_ty: &Type) -> (r: Expr)
    ensures
        r.view() == field_at(e.view(), f@, elt_ty.view()),
{
    assert(e.view().tys[0] == e.ty.view());
    let proj = proj_field_ty(f, Type::fun(e.ty.clone(), elt_ty.clone()));
    apply_ty(e.clone(), proj, elt_ty.clone())
}

/// A read of the history `hist` through `sample`.
pub open spec fn sampling_read_s(hist: NameS, v: TypeS, sample: BuiltinS) -> ExprS {
    apply_s(var_s(hist, history_s(v)), builtin_s(sample, fun_ty(history_s(v), v)), v)
}

/// A read of the history `hist` through `sample`.
pub fn sampling_read(hist: &Name, value_ty: Type, sample: Builtin) -> (r: Expr)
    ensures
        r.view() == sampling_read_s(hist@, value_ty.view(), sample.view()),
{
    let stream = tvar(hist, history_ty(&value_ty));
    let f = builtin_ty(sample, Type::fun(history_ty(&value_ty), value_ty.clone()));
    apply_ty(stream, f, value_ty)
}

/// A read of the history `hist` at a position that nothing has supplied yet.
pub fn as_of_read(hist: &Name, value_ty: Type) -> (r: Expr)
    ensures
        r.view() == sampling_read_s(hist@, value_ty.view(), BuiltinS::AsOfRead),
{
    sampling_read(hist, value_ty, Builtin::AsOfRead)
}

/// Whether `e` is the literal `true`.
pub fn is_true_lit(e: &Expr) -> (r: bool)
    ensures
        r == (e.view().head == HeadS::Lit(LitS::Bool(true))),
{
    match &e.node {
        TypedExprNode::Lit(Lit::Bool(b)) => *b,
        _ => false,
    }
}

} // verus!
