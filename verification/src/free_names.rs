//! The free names of terms and types, collected.
use vstd::prelude::*;
use crate::ast::{Expr, ExprS, Type, TypeHeadS, TypeS, TypedExprNode, opt_name_view};
use crate::name::{Name, NameS, clone_names, has_name, names_view};
use crate::name_map::{NameMap, names_ascending};
use crate::pi::{references_enclosing_function, refers_out, shadowed_under};
use crate::scope::{free_in_value, own_ref, scope_of, ty_binds};
use crate::tree::{clone_opt_name, expr_refs_view, type_refs_view};

verus! {

/// Whether `n` occurs free in the value of `e` or in a recorded type on the
/// way. A reference to an enclosing function is bound by the type and never
/// counts.
pub open spec fn expr_fv(n: NameS, e: ExprS) -> bool
    decreases e,
{
    (own_ref(e.head) == Some(n) && !(n is PiBound)) || (e.tys.len() > 0 && ty_fv(n, e.tys[0]))
        || exists|i: int|
        0 <= i < e.kids.len() && !scope_of(e.head, i).contains(n) && expr_fv(
            n,
            #[trigger] e.kids[i],
        )
}

/// Whether `n` occurs free in a predicate of `t` or of its components.
pub open spec fn ty_fv(n: NameS, t: TypeS) -> bool
    decreases t,
{
    (n != NameS::Elem && exists|i: int|
        0 <= i < t.preds.len() && expr_fv(n, #[trigger] t.preds[i])) || (exists|i: int|
        0 <= i < t.kids.len() && !ty_binds(t, i, n) && ty_fv(n, #[trigger] t.kids[i]))
}

/// The names of `acc` and the free ones of `t` that `bound` does not hold.
fn collect_type_fv(t: &Type, bound: &Vec<Name>, acc: NameMap<()>) -> (r: NameMap<()>)
    ensures
        forall|n: NameS| #[trigger]
            r.view().dom().contains(n) <==> acc.view().dom().contains(n) || (ty_fv(n, t.view())
                && !names_view(bound@).contains(n)),
    decreases t.view(),
{
    let ghost tv = t.view();
    let ghost bs = names_view(bound@);
    let ghost start = acc.view().dom();
    let mut acc = acc;
    let kids = t.walk_children();
    let preds = t.predicates();
    assert(kids@.len() == tv.kids.len());
    assert(preds@.len() == tv.preds.len());
    let mut under_elem = clone_names(bound);
    under_elem.push(Name::elem());
    proof {
        assert(names_view(under_elem@) =~= bs.push(NameS::Elem));
    }
    let mut i: usize = 0;
    while i < preds.len()
        invariant
            i <= preds.len(),
            tv == t.view(),
            bs == names_view(bound@),
            names_view(under_elem@) == bs.push(NameS::Elem),
            preds@.len() == tv.preds.len(),
            expr_refs_view(preds@) == tv.preds,
            forall|n: NameS| #[trigger]
                acc.view().dom().contains(n) <==> start.contains(n) || (n != NameS::Elem
                    && !bs.contains(n) && exists|j: int|
                    0 <= j < i && expr_fv(n, #[trigger] tv.preds[j])),
        decreases preds.len() - i,
    {
        assert(preds@[i as int].view() == tv.preds[i as int]);
        let ghost before = acc.view().dom();
        acc = collect_expr_fv(preds[i], &under_elem, acc);
        proof {
            assert forall|n: NameS| #[trigger] acc.view().dom().contains(n) <==> start.contains(n)
                || (n != NameS::Elem && !bs.contains(n) && exists|j: int|
                0 <= j < i + 1 && expr_fv(n, #[trigger] tv.preds[j])) by {
                lemma_push_contains(bs, NameS::Elem);
                assert(names_view(under_elem@).contains(n) <==> bs.contains(n) || n == NameS::Elem);
                assert(acc.view().dom().contains(n) <==> before.contains(n) || (expr_fv(
                    n,
                    tv.preds[i as int],
                ) && !names_view(under_elem@).contains(n)));
                if exists|j: int| 0 <= j < i + 1 && expr_fv(n, #[trigger] tv.preds[j]) {
                    let j = choose|j: int| 0 <= j < i + 1 && expr_fv(n, #[trigger] tv.preds[j]);
                    if j < i {
                        assert(expr_fv(n, tv.preds[j]));
                    }
                }
            }
        }
        i = i + 1;
    }
    let ghost mid = acc.view().dom();
    let binder: Option<Name> = match t {
        Type::Fun { name, fun_kind, domain, codomain } => clone_opt_name(name),
        _ => None,
    };
    let mut i: usize = 0;
    while i < kids.len()
        invariant
            i <= kids.len(),
            tv == t.view(),
            bs == names_view(bound@),
            kids@.len() == tv.kids.len(),
            type_refs_view(kids@) == tv.kids,
            opt_name_view(binder) == (match tv.head {
                TypeHeadS::Fun(n, _) => n,
                _ => None,
            }),
            forall|n: NameS| #[trigger]
                acc.view().dom().contains(n) <==> mid.contains(n) || (!bs.contains(n) && exists|j: int|
                    0 <= j < i && !ty_binds(tv, j, n) && ty_fv(n, #[trigger] tv.kids[j])),
        decreases kids.len() - i,
    {
        assert(kids@[i as int].view() == tv.kids[i as int]);
        let ghost before = acc.view().dom();
        let mut inner = clone_names(bound);
        match &binder {
            Some(b) => {
                if i + 1 == kids.len() {
                    inner.push(b.clone());
                    proof {
                        assert(names_view(inner@) =~= bs.push(b@));
                        lemma_push_contains(bs, b@);
                        assert(forall|n: NameS| ty_binds(tv, i as int, n) <==> n == b@);
                    }
                }
            },
            None => {},
        }
        assert(forall|n: NameS|
            #![trigger names_view(inner@).contains(n)]
            names_view(inner@).contains(n) <==> bs.contains(n) || ty_binds(tv, i as int, n));
        acc = collect_type_fv(kids[i], &inner, acc);
        proof {
            assert forall|n: NameS| #[trigger] acc.view().dom().contains(n) <==> mid.contains(n) || (
            !bs.contains(n) && exists|j: int|
                0 <= j < i + 1 && !ty_binds(tv, j, n) && ty_fv(n, #[trigger] tv.kids[j])) by {
                assert(acc.view().dom().contains(n) <==> before.contains(n) || (ty_fv(
                    n,
                    tv.kids[i as int],
                ) && !names_view(inner@).contains(n)));
                if exists|j: int|
                    0 <= j < i + 1 && !ty_binds(tv, j, n) && ty_fv(n, #[trigger] tv.kids[j]) {
                    let j = choose|j: int|
                        0 <= j < i + 1 && !ty_binds(tv, j, n) && ty_fv(n, #[trigger] tv.kids[j]);
                    if j < i {
                        assert(ty_fv(n, tv.kids[j]));
                    }
                }
            }
        }
        i = i + 1;
    }
    proof {
        assert forall|n: NameS| #[trigger] acc.view().dom().contains(n) <==> start.contains(n) || (ty_fv(
            n,
            tv,
        ) && !bs.contains(n)) by {
            assert(acc.view().dom().contains(n) <==> mid.contains(n) || (!bs.contains(n) && exists|
                j: int,
            | 0 <= j < i && !ty_binds(tv, j, n) && ty_fv(n, #[trigger] tv.kids[j])));
        }
    }
    acc
}

pub proof fn lemma_push_contains(s: Seq<NameS>, x: NameS)
    ensures
        forall|n: NameS| s.push(x).contains(n) <==> s.contains(n) || n == x,
{
    assert forall|n: NameS| s.push(x).contains(n) <==> s.contains(n) || n == x by {
        if s.push(x).contains(n) {
            let i = choose|i: int| 0 <= i < s.push(x).len() && s.push(x)[i] == n;
            if i < s.len() {
                assert(s[i] == n);
            }
        }
        if s.contains(n) {
            let i = choose|i: int| 0 <= i < s.len() && s[i] == n;
            assert(s.push(x)[i] == n);
        }
        if n == x {
            assert(s.push(x)[s.len() as int] == n);
        }
    }
}

/// The names of a list and those of another.
pub proof fn lemma_append_contains(s: Seq<NameS>, t: Seq<NameS>)
    ensures
        forall|n: NameS| (s + t).contains(n) <==> s.contains(n) || t.contains(n),
{
    assert forall|n: NameS| (s + t).contains(n) <==> s.contains(n) || t.contains(n) by {
        if (s + t).contains(n) {
            let i = choose|i: int| 0 <= i < (s + t).len() && (s + t)[i] == n;
            if i < s.len() {
                assert(s[i] == n);
            } else {
                assert(t[i - s.len()] == n);
            }
        }
        if s.contains(n) {
            let i = choose|i: int| 0 <= i < s.len() && s[i] == n;
            assert((s + t)[i] == n);
        }
        if t.contains(n) {
            let i = choose|i: int| 0 <= i < t.len() && t[i] == n;
            assert((s + t)[i + s.len()] == n);
        }
    }
}

/// The names of `acc` and the free ones of `e` that `bound` does not hold.
fn collect_expr_fv(e: &Expr, bound: &Vec<Name>, acc: NameMap<()>) -> (r: NameMap<()>)
    ensures
        forall|n: NameS| #[trigger]
            r.view().dom().contains(n) <==> acc.view().dom().contains(n) || (expr_fv(n, e.view())
                && !names_view(bound@).contains(n)),
    decreases e.view(),
{
    let ghost ev = e.view();
    let ghost bs = names_view(bound@);
    let ghost start = acc.view().dom();
    assert(ev.tys[0] == e.ty.view());
    let mut acc = collect_type_fv(&e.ty, bound, acc);
    let own: Option<&Name> = match &e.node {
        TypedExprNode::Var(n) => Some(n),
        TypedExprNode::Feed { name, value } => Some(name),
        TypedExprNode::Define { name, value } => Some(name),
        TypedExprNode::MutWrite { name, value } => Some(name),
        _ => None,
    };
    match own {
        Some(n) => {
            if n.pi_bound_index().is_none() && !has_name(bound, n) {
                acc = acc.inserted(n.clone(), ());
            }
        },
        None => {},
    }
    let ghost mid = acc.view().dom();
    proof {
        assert forall|n: NameS| #[trigger] mid.contains(n) <==> start.contains(n) || (!bs.contains(n)
            && ((own_ref(ev.head) == Some(n) && !(n is PiBound)) || ty_fv(n, ev.tys[0]))) by {}
    }
    let kids = e.children();
    assert(kids@.len() == ev.kids.len());
    let mut i: usize = 0;
    while i < kids.len()
        invariant
            i <= kids.len(),
            ev == e.view(),
            bs == names_view(bound@),
            kids@.len() == ev.kids.len(),
            expr_refs_view(kids@) == ev.kids,
            forall|n: NameS| #[trigger]
                acc.view().dom().contains(n) <==> mid.contains(n) || (!bs.contains(n) && exists|j: int|
                    0 <= j < i && !scope_of(ev.head, j).contains(n) && expr_fv(
                        n,
                        #[trigger] ev.kids[j],
                    )),
        decreases kids.len() - i,
    {
        assert(kids@[i as int].view() == ev.kids[i as int]);
        let ghost before = acc.view().dom();
        let inner = shadowed_under(bound, e, i);
        proof {
            lemma_append_contains(bs, scope_of(ev.head, i as int));
        }
        acc = collect_expr_fv(kids[i], &inner, acc);
        proof {
            assert forall|n: NameS| #[trigger] acc.view().dom().contains(n) <==> mid.contains(n) || (
            !bs.contains(n) && exists|j: int|
                0 <= j < i + 1 && !scope_of(ev.head, j).contains(n) && expr_fv(
                    n,
                    #[trigger] ev.kids[j],
                )) by {
                assert(acc.view().dom().contains(n) <==> before.contains(n) || (expr_fv(
                    n,
                    ev.kids[i as int],
                ) && !names_view(inner@).contains(n)));
                if exists|j: int|
                    0 <= j < i + 1 && !scope_of(ev.head, j).contains(n) && expr_fv(
                        n,
                        #[trigger] ev.kids[j],
                    ) {
                    let j = choose|j: int|
                        0 <= j < i + 1 && !scope_of(ev.head, j).contains(n) && expr_fv(
                            n,
                            #[trigger] ev.kids[j],
                        );
                    if j < i {
                        assert(expr_fv(n, ev.kids[j]));
                    }
                }
            }
        }
        i = i + 1;
    }
    acc
}

/// The free names of a type's predicates, in ascending order.
pub fn type_free_vars(ty: &Type) -> (r: Vec<Name>)
    ensures
        names_ascending(names_view(r@)),
        forall|n: NameS| names_view(r@).contains(n) <==> ty_fv(n, ty.view()),
{
    let none: Vec<Name> = Vec::new();
    let found = collect_type_fv(ty, &none, NameMap::new());
    let out = found.keys();
    proof {
        assert forall|n: NameS| names_view(out@).contains(n) <==> ty_fv(n, ty.view()) by {
            assert(found.view().dom().contains(n) <==> ty_fv(n, ty.view()));
        }
    }
    out
}

/// The free names of a type's predicates that `in_scope` does not hold, in
/// ascending order.
pub fn scope_gaps(ty: &Type, in_scope: &Vec<Name>) -> (r: Vec<Name>)
    ensures
        names_ascending(names_view(r@)),
        forall|n: NameS|
            names_view(r@).contains(n) <==> ty_fv(n, ty.view()) && !names_view(
                in_scope@,
            ).contains(n),
{
    let found = collect_type_fv(ty, in_scope, NameMap::new());
    let out = found.keys();
    proof {
        assert forall|n: NameS|
            names_view(out@).contains(n) <==> ty_fv(n, ty.view()) && !names_view(
                in_scope@,
            ).contains(n) by {
            assert(found.view().dom().contains(n) <==> ty_fv(n, ty.view()) && !names_view(
                in_scope@,
            ).contains(n));
        }
    }
    out
}

/// Whether `codomain` depends on the function it belongs to, whose binder is
/// `binder`.
pub fn codomain_depends_on(binder: &Name, codomain: &Type) -> (r: bool)
    ensures
        r == (refers_out(codomain.view(), 0) || ty_fv(binder@, codomain.view())),
{
    references_enclosing_function(codomain) || has_name(&type_free_vars(codomain), binder)
}

/// Whether the type holds an inference variable, its predicates aside.
pub open spec fn ty_holds_infer(t: TypeS) -> bool
    decreases t,
{
    t.head is Infer || exists|i: int|
        0 <= i < t.kids.len() && ty_holds_infer(#[trigger] t.kids[i])
}

/// Whether the type holds an inference variable, its predicates aside.
pub fn type_contains_infer(ty: &Type) -> (r: bool)
    ensures
        r == ty_holds_infer(ty.view()),
    decreases ty.view(),
{
    let ghost tv = ty.view();
    match ty {
        Type::Infer(_) => {
            return true;
        },
        _ => {},
    }
    let kids = ty.walk_children();
    assert(kids@.len() == tv.kids.len());
    let mut i: usize = 0;
    while i < kids.len()
        invariant
            i <= kids.len(),
            tv == ty.view(),
            kids@.len() == tv.kids.len(),
            type_refs_view(kids@) == tv.kids,
            forall|j: int| 0 <= j < i ==> !ty_holds_infer(#[trigger] tv.kids[j]),
        decreases kids.len() - i,
    {
        assert(kids@[i as int].view() == tv.kids[i as int]);
        if type_contains_infer(kids[i]) {
            return true;
        }
        i = i + 1;
    }
    false
}

/// The names of `acc` and those free in the value of `e` that `bound` does not
/// hold.
fn collect_value_names(e: &Expr, bound: &Vec<Name>, acc: NameMap<()>) -> (r: NameMap<()>)
    ensures
        forall|n: NameS| #[trigger]
            r.view().dom().contains(n) <==> acc.view().dom().contains(n) || (free_in_value(
                n,
                e.view(),
            ) && !names_view(bound@).contains(n)),
    decreases e.view(),
{
    let ghost ev = e.view();
    let ghost bs = names_view(bound@);
    let ghost start = acc.view().dom();
    let mut acc = acc;
    let own: Option<&Name> = match &e.node {
        TypedExprNode::Var(n) => Some(n),
        TypedExprNode::Feed { name, value } => Some(name),
        TypedExprNode::Define { name, value } => Some(name),
        TypedExprNode::MutWrite { name, value } => Some(name),
        _ => None,
    };
    match own {
        Some(n) => {
            if !has_name(bound, n) {
                acc = acc.inserted(n.clone(), ());
            }
        },
        None => {},
    }
    let ghost mid = acc.view().dom();
    proof {
        assert forall|n: NameS| #[trigger] mid.contains(n) <==> start.contains(n) || (!bs.contains(n)
            && own_ref(ev.head) == Some(n)) by {}
    }
    let kids = e.children();
    assert(kids@.len() == ev.kids.len());
    let mut i: usize = 0;
    while i < kids.len()
        invariant
            i <= kids.len(),
            ev == e.view(),
            bs == names_view(bound@),
            kids@.len() == ev.kids.len(),
            expr_refs_view(kids@) == ev.kids,
            forall|n: NameS| #[trigger]
                acc.view().dom().contains(n) <==> mid.contains(n) || (!bs.contains(n) && exists|j: int|
                    0 <= j < i && !scope_of(ev.head, j).contains(n) && free_in_value(
                        n,
                        #[trigger] ev.kids[j],
                    )),
        decreases kids.len() - i,
    {
        assert(kids@[i as int].view() == ev.kids[i as int]);
        let ghost before = acc.view().dom();
        let inner = shadowed_under(bound, e, i);
        proof {
            lemma_append_contains(bs, scope_of(ev.head, i as int));
        }
        acc = collect_value_names(kids[i], &inner, acc);
        proof {
            assert forall|n: NameS| #[trigger] acc.view().dom().contains(n) <==> mid.contains(n) || (
            !bs.contains(n) && exists|j: int|
                0 <= j < i + 1 && !scope_of(ev.head, j).contains(n) && free_in_value(
                    n,
                    #[trigger] ev.kids[j],
                )) by {
                assert(acc.view().dom().contains(n) <==> before.contains(n) || (free_in_value(
                    n,
                    ev.kids[i as int],
                ) && !names_view(inner@).contains(n)));
                if exists|j: int|
                    0 <= j < i + 1 && !scope_of(ev.head, j).contains(n) && free_in_value(
                        n,
                        #[trigger] ev.kids[j],
                    ) {
                    let j = choose|j: int|
                        0 <= j < i + 1 && !scope_of(ev.head, j).contains(n) && free_in_value(
                            n,
                            #[trigger] ev.kids[j],
                        );
                    if j < i {
                        assert(free_in_value(n, ev.kids[j]));
                    }
                }
            }
        }
        i = i + 1;
    }
    acc
}

/// The names free in the value of `e`, in ascending order.
pub fn free_names_in_value(e: &Expr) -> (r: Vec<Name>)
    ensures
        names_ascending(names_view(r@)),
        forall|n: NameS| names_view(r@).contains(n) <==> free_in_value(n, e.view()),
{
    let none: Vec<Name> = Vec::new();
    let found = collect_value_names(e, &none, NameMap::new());
    let out = found.keys();
    proof {
        assert forall|n: NameS| names_view(out@).contains(n) <==> free_in_value(n, e.view()) by {
            assert(found.view().dom().contains(n) <==> free_in_value(n, e.view()));
        }
    }
    out
}

} // verus!
