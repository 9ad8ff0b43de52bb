//! Putting terms in place of references.
use vstd::prelude::*;
use crate::ast::{Builtin, BuiltinS, Expr, ExprS, HeadS, TypedExprNode, exprs_view};
use crate::name::{Name, NameS};
use crate::name_map::NameMap;
use crate::probe::{builtin_operand, operand_of};
use crate::subst::env_view;
use crate::tree::{expr_refs_view, with_kids};

verus! {

/// What gives way to a term of an environment.
pub enum SwapS {
    /// A reference.
    Reference,
    /// An await of a mutable variable's final value.
    Await,
}

impl SwapS {
    /// The name under which the term for `e` is found.
    pub open spec fn key(self, e: ExprS) -> Option<NameS> {
        match self {
            SwapS::Reference => match e.head {
                HeadS::Var(n) => Some(n),
                _ => None,
            },
            SwapS::Await => builtin_operand(BuiltinS::AwaitFinal, e),
        }
    }
}

/// `e` with the terms of `env` in place of the outermost nodes that name them.
pub open spec fn swapped(s: SwapS, env: Map<NameS, ExprS>, e: ExprS) -> ExprS
    decreases e, 1int,
{
    match s.key(e) {
        Some(n) if env.dom().contains(n) => env[n],
        _ => with_kids(e, swapped_kids(s, env, e)),
    }
}

/// What becomes of the subterms of `e`.
pub open spec fn swapped_kids(s: SwapS, env: Map<NameS, ExprS>, e: ExprS) -> Seq<ExprS>
    decreases e, 0int,
{
    Seq::new(
        e.kids.len(),
        |i: int|
            if 0 <= i < e.kids.len() {
                swapped(s, env, e.kids[i])
            } else {
                arbitrary()
            },
    )
}

/// `e` with every reference to `from` made one to `to`.
pub open spec fn uses_renamed(from: NameS, to: NameS, e: ExprS) -> ExprS
    decreases e, 1int,
{
    if e.head == HeadS::Var(from) {
        ExprS { head: HeadS::Var(to), ..e }
    } else {
        with_kids(e, kids_renamed(from, to, e))
    }
}

pub open spec fn kids_renamed(from: NameS, to: NameS, e: ExprS) -> Seq<ExprS>
    decreases e, 0int,
{
    Seq::new(
        e.kids.len(),
        |i: int|
            if 0 <= i < e.kids.len() {
                uses_renamed(from, to, e.kids[i])
            } else {
                arbitrary()
            },
    )
}

pub enum Swap {
    Reference,
    Await,
}

impl Swap {
    pub open spec fn view(&self) -> SwapS {
        match self {
            Swap::Reference => SwapS::Reference,
            Swap::Await => SwapS::Await,
        }
    }

    fn key<'a>(&self, e: &'a Expr) -> (r: Option<&'a Name>)
        ensures
            match r {
                Some(n) => self.view().key(e.view()) == Some(n@),
                None => self.view().key(e.view()) is None,
            },
    {
        match self {
            Swap::Reference => match &e.node {
                TypedExprNode::Var(n) => Some(n),
                _ => None,
            },
            Swap::Await => operand_of(&Builtin::AwaitFinal, e),
        }
    }
}

/// Puts the terms of `env` in place of the outermost nodes that name them.
pub fn swap_in(s: &Swap, env: &NameMap<Expr>, e: &Expr) -> (r: Expr)
    ensures
        r.view() == swapped(s.view(), env_view(env.view()), e.view()),
    decreases e.view(),
{
    let ghost ev = e.view();
    let ghost m = env_view(env.view());
    match s.key(e) {
        Some(n) => {
            match env.get(n) {
                Some(t) => {
                    assert(m.dom().contains(n@));
                    return t.clone();
                },
                None => {},
            }
        },
        None => {},
    }
    let kids = e.children();
    assert(kids@.len() == ev.kids.len());
    let mut out: Vec<Expr> = Vec::new();
    let mut i: usize = 0;
    while i < kids.len()
        invariant
            i <= kids.len(),
            ev == e.view(),
            m == env_view(env.view()),
            kids@.len() == ev.kids.len(),
            expr_refs_view(kids@) == ev.kids,
            out.len() == i,
            forall|j: int|
                0 <= j < i ==> (#[trigger] out@[j]).view() == swapped(s.view(), m, ev.kids[j]),
        decreases kids.len() - i,
    {
        assert(kids@[i as int].view() == ev.kids[i as int]);
        out.push(swap_in(s, env, kids[i]));
        i = i + 1;
    }
    assert(exprs_view(out@) =~= swapped_kids(s.view(), m, ev));
    e.with_children(out)
}

/// Makes every reference to `from` one to `to`.
pub fn rename_var_uses(e: &Expr, from: &Name, to: &Name) -> (r: Expr)
    ensures
        r.view() == uses_renamed(from@, to@, e.view()),
    decreases e.view(),
{
    let ghost ev = e.view();
    match &e.node {
        TypedExprNode::Var(n) => {
            if n.same(from) {
                let copy = e.clone();
                let out = Expr {
                    node: TypedExprNode::Var(to.clone()),
                    ty: copy.ty,
                    user_annotation: copy.user_annotation,
                };
                assert(out.view().kids =~= ev.kids);
                assert(out.view().tys =~= ev.tys) by {
                    assert(copy.view().tys == ev.tys);
                    assert(copy.node.slots() =~= Seq::empty());
                }
                return out;
            }
        },
        _ => {},
    }
    let kids = e.children();
    assert(kids@.len() == ev.kids.len());
    let mut out: Vec<Expr> = Vec::new();
    let mut i: usize = 0;
    while i < kids.len()
        invariant
            i <= kids.len(),
            ev == e.view(),
            kids@.len() == ev.kids.len(),
            expr_refs_view(kids@) == ev.kids,
            out.len() == i,
            forall|j: int|
                0 <= j < i ==> (#[trigger] out@[j]).view() == uses_renamed(from@, to@, ev.kids[j]),
        decreases kids.len() - i,
    {
        assert(kids@[i as int].view() == ev.kids[i as int]);
        out.push(rename_var_uses(kids[i], from, to));
        i = i + 1;
    }
    assert(exprs_view(out@) =~= kids_renamed(from@, to@, ev));
    e.with_children(out)
}

} // verus!
