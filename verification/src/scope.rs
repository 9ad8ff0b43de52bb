//! Binding structure: which names a form binds over each of its subterms, which
//! name it mentions of its own, and which names occur free.
use vstd::prelude::*;
use crate::ast::{Expr, ExprS, HeadS, Type, TypeHeadS, TypeS, TypedExprNode, branch_kids_view};
use crate::name::{Name, NameS, has_name, names_view};
use crate::tree::{expr_refs_view, type_refs_view};

verus! {

/// The names a form binds over its subterm `i`.
pub open spec fn scope_of(head: HeadS, i: int) -> Seq<NameS> {
    match head {
        HeadS::Lambda(n) => seq![n],
        HeadS::Let(n) => if i == 1 { seq![n] } else { Seq::empty() },
        HeadS::MutDecl(n) => if i == 1 { seq![n] } else { Seq::empty() },
        HeadS::For(n) => if i == 1 { seq![n] } else { Seq::empty() },
        HeadS::LetRec(ns) => ns,
        HeadS::Case(has_scrutinee, patterns) => {
            let j = if has_scrutinee { i - 1 } else { i };
            if 0 <= j < 2 * patterns.len() {
                match patterns[j / 2] {
                    Some(p) => seq![p.name],
                    None => Seq::empty(),
                }
            } else {
                Seq::empty()
            }
        },
        _ => Seq::empty(),
    }
}

/// The variable a form mentions of its own: a reference, or the handle it
/// writes.
pub open spec fn own_ref(head: HeadS) -> Option<NameS> {
    match head {
        HeadS::Var(n) => Some(n),
        HeadS::Feed(n) => Some(n),
        HeadS::Define(n) => Some(n),
        HeadS::MutWrite(n) => Some(n),
        _ => None,
    }
}

/// Whether `n` occurs free in the value of `e`, its type slots aside.
pub open spec fn free_in_value(n: NameS, e: ExprS) -> bool
    decreases e,
{
    own_ref(e.head) == Some(n) || exists|i: int|
        0 <= i < e.kids.len() && !scope_of(e.head, i).contains(n) && free_in_value(n, #[trigger] e.kids[i])
}

/// Whether `n` occurs free in `e`, its type slots included.
pub open spec fn free_in(n: NameS, e: ExprS) -> bool
    decreases e,
{
    own_ref(e.head) == Some(n) || (exists|i: int|
        0 <= i < e.kids.len() && !scope_of(e.head, i).contains(n) && free_in(n, #[trigger] e.kids[i])) || (exists|i: int| 0 <= i < e.tys.len() && free_in_ty(n, #[trigger] e.tys[i]))
}

/// Whether a type's binder hides `n` in its component `i`: a named function's
/// binder does in the codomain.
pub open spec fn ty_binds(t: TypeS, i: int, n: NameS) -> bool {
    match t.head {
        TypeHeadS::Fun(Some(b), _) => i == t.kids.len() - 1 && b == n,
        _ => false,
    }
}

/// Whether `n` occurs free in `t`. The element a predicate speaks of never does.
pub open spec fn free_in_ty(n: NameS, t: TypeS) -> bool
    decreases t,
{
    t.head matches TypeHeadS::ChanDom(c, _) && c == n || (n != NameS::Elem && exists|i: int|
        0 <= i < t.preds.len() && free_in(n, #[trigger] t.preds[i])) || (exists|i: int|
        0 <= i < t.kids.len() && !ty_binds(t, i, n) && free_in_ty(n, #[trigger] t.kids[i]))
}

/// The names bound over subterm `i`.
pub fn scope(e: &Expr, i: usize) -> (r: Vec<Name>)
    requires
        i < e.view().kids.len(),
    ensures
        names_view(r@) == scope_of(e.view().head, i as int),
{
    let mut out: Vec<Name> = Vec::new();
    match &e.node {
        TypedExprNode::Lambda { param, body } => {
            out.push(param.name.clone());
        },
        TypedExprNode::Let { binding, bound_expr, body } => {
            if i == 1 {
                out.push(binding.name.clone());
            }
        },
        TypedExprNode::MutDecl { binding, init, body } => {
            if i == 1 {
                out.push(binding.name.clone());
            }
        },
        TypedExprNode::For { target, iter, body } => {
            if i == 1 {
                out.push(target.name.clone());
            }
        },
        TypedExprNode::LetRec { bindings, body } => {
            let mut k: usize = 0;
            while k < bindings.len()
                invariant
                    k <= bindings.len(),
                    out.len() == k,
                    forall|j: int| 0 <= j < k ==> (#[trigger] out@[j])@ == bindings@[j].0.name@,
                decreases bindings.len() - k,
            {
                out.push(bindings[k].0.name.clone());
                k = k + 1;
            }
        },
        TypedExprNode::Case { scrutinee, branches } => {
            assert(branch_kids_view(branches@).len() == 2 * branches@.len());
            match scrutinee {
                Some(_) => {
                    if i > 0 {
                        match &branches[(i - 1) / 2].pattern {
                            Some(p) => {
                                out.push(p.binding.name.clone());
                            },
                            None => {},
                        }
                    }
                },
                None => {
                    match &branches[i / 2].pattern {
                        Some(p) => {
                            out.push(p.binding.name.clone());
                        },
                        None => {},
                    }
                },
            }
        },
        _ => {},
    }
    assert(names_view(out@) =~= scope_of(e.view().head, i as int));
    out
}

/// Whether the form of `e` mentions `n` of its own.
pub fn refers_to(e: &Expr, n: &Name) -> (r: bool)
    ensures
        r == (own_ref(e.view().head) == Some(n@)),
{
    match &e.node {
        TypedExprNode::Var(x) => x.same(n),
        TypedExprNode::Feed { name, value } => name.same(n),
        TypedExprNode::Define { name, value } => name.same(n),
        TypedExprNode::MutWrite { name, value } => name.same(n),
        _ => false,
    }
}

/// Whether `n` occurs free in the value of `e`, its type slots aside.
pub fn is_free_in_value(n: &Name, e: &Expr) -> (r: bool)
    ensures
        r == free_in_value(n@, e.view()),
    decreases e.view(),
{
    if refers_to(e, n) {
        return true;
    }
    let kids = e.children();
    let mut i: usize = 0;
    while i < kids.len()
        invariant
            i <= kids.len(),
            expr_refs_view(kids@) == e.view().kids,
            forall|j: int|
                0 <= j < i ==> scope_of(e.view().head, j).contains(n@) || !free_in_value(n@, #[trigger] e.view().kids[j]),
        decreases kids.len() - i,
    {
        assert(kids@[i as int].view() == e.view().kids[i as int]);
        if !has_name(&scope(e, i), n) && is_free_in_value(n, kids[i]) {
            return true;
        }
        i = i + 1;
    }
    assert(kids@.len() == e.view().kids.len());
    false
}

/// Whether `n` occurs free in `e`, its type slots included.
pub fn is_free(n: &Name, e: &Expr) -> (r: bool)
    ensures
        r == free_in(n@, e.view()),
    decreases e.view(),
{
    if refers_to(e, n) {
        return true;
    }
    let kids = e.children();
    let mut i: usize = 0;
    while i < kids.len()
        invariant
            i <= kids.len(),
            expr_refs_view(kids@) == e.view().kids,
            forall|j: int|
                0 <= j < i ==> scope_of(e.view().head, j).contains(n@) || !free_in(n@, #[trigger] e.view().kids[j]),
        decreases kids.len() - i,
    {
        assert(kids@[i as int].view() == e.view().kids[i as int]);
        if !has_name(&scope(e, i), n) && is_free(n, kids[i]) {
            return true;
        }
        i = i + 1;
    }
    assert(kids@.len() == e.view().kids.len());
    let slots = e.type_slots();
    let mut i: usize = 0;
    while i < slots.len()
        invariant
            i <= slots.len(),
            type_refs_view(slots@) == e.view().tys,
            forall|j: int| 0 <= j < i ==> !free_in_ty(n@, #[trigger] e.view().tys[j]),
        decreases slots.len() - i,
    {
        assert(slots@[i as int].view() == e.view().tys[i as int]);
        if is_free_in_type(n, slots[i]) {
            return true;
        }
        i = i + 1;
    }
    assert(slots@.len() == e.view().tys.len());
    false
}

/// Whether `n` occurs free in `t`.
pub fn is_free_in_type(n: &Name, t: &Type) -> (r: bool)
    ensures
        r == free_in_ty(n@, t.view()),
    decreases t.view(),
{
    match t {
        Type::ChanDom(c, _) => {
            if c.same(n) {
                return true;
            }
        },
        _ => {},
    }
    let hides = match t {
        Type::Fun { name: Some(b), fun_kind, domain, codomain } => b.same(n),
        _ => false,
    };
    if !n.is_elem() {
        let preds = t.predicates();
        let mut i: usize = 0;
        while i < preds.len()
            invariant
                i <= preds.len(),
                n@ != NameS::Elem,
                expr_refs_view(preds@) == t.view().preds,
                forall|j: int| 0 <= j < i ==> !free_in(n@, #[trigger] t.view().preds[j]),
            decreases preds.len() - i,
        {
            assert(preds@[i as int].view() == t.view().preds[i as int]);
            if is_free(n, preds[i]) {
                return true;
            }
            i = i + 1;
        }
        assert(preds@.len() == t.view().preds.len());
    }
    let kids = t.walk_children();
    let mut i: usize = 0;
    while i < kids.len()
        invariant
            i <= kids.len(),
            type_refs_view(kids@) == t.view().kids,
            hides == ty_binds(t.view(), t.view().kids.len() - 1, n@),
            forall|j: int|
                0 <= j < i ==> ty_binds(t.view(), j, n@) || !free_in_ty(n@, #[trigger] t.view().kids[j]),
        decreases kids.len() - i,
    {
        assert(kids@[i as int].view() == t.view().kids[i as int]);
        assert(kids@.len() == t.view().kids.len());
        if !(hides && i + 1 == kids.len()) && is_free_in_type(n, kids[i]) {
            return true;
        }
        i = i + 1;
    }
    assert(kids@.len() == t.view().kids.len());
    false
}

} // verus!
