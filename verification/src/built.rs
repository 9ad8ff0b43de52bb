//! What every term has by the way terms are built.

use vstd::prelude::*;
use crate::ast::{
    Branch, Expr, TransactKey, TypedBinding, TypedExprNode, WriterSite, binder_defs_view,
    branch_kids_view, exprs_view, field_exprs_view, key_inits_view, writer_kids_view,
};
use crate::name::NameS;
use crate::pi::{Mapping, MappingS};
use crate::subst_laws::{leafy, range_leafy};
use crate::substitution::Subst;

verus! {

proof fn lemma_all_leafy(v: Seq<Expr>)
    ensures
        forall|i: int| 0 <= i < exprs_view(v).len() ==> leafy(
            #[trigger] exprs_view(v)[i],
        ),
    decreases v,
{
    assert forall|i: int| 0 <= i < exprs_view(v).len() implies leafy(
            #[trigger] exprs_view(v)[i],
        ) by {
        lemma_references_are_leaves(v[i]);
    }
}

proof fn lemma_fields_leafy(v: Seq<(String, Expr)>)
    ensures
        forall|i: int| 0 <= i < field_exprs_view(v).len() ==> leafy(
            #[trigger] field_exprs_view(v)[i],
        ),
    decreases v,
{
    assert forall|i: int| 0 <= i < field_exprs_view(v).len() implies leafy(
            #[trigger] field_exprs_view(v)[i],
        ) by {
        lemma_references_are_leaves(v[i].1);
    }
}

proof fn lemma_branches_leafy(v: Seq<Branch>)
    ensures
        forall|i: int| 0 <= i < branch_kids_view(v).len() ==> leafy(
            #[trigger] branch_kids_view(v)[i],
        ),
    decreases v,
{
    assert forall|i: int| 0 <= i < branch_kids_view(v).len() implies leafy(
            #[trigger] branch_kids_view(v)[i],
        ) by {
        lemma_references_are_leaves(v[i / 2].guard);
        lemma_references_are_leaves(v[i / 2].body);
    }
}

proof fn lemma_keys_leafy(v: Seq<TransactKey>)
    ensures
        forall|i: int| 0 <= i < key_inits_view(v).len() ==> leafy(
            #[trigger] key_inits_view(v)[i],
        ),
    decreases v,
{
    assert forall|i: int| 0 <= i < key_inits_view(v).len() implies leafy(
            #[trigger] key_inits_view(v)[i],
        ) by {
        lemma_references_are_leaves(v[i].init);
    }
}

proof fn lemma_writers_leafy(v: Seq<WriterSite>)
    ensures
        forall|i: int| 0 <= i < writer_kids_view(v).len() ==> leafy(
            #[trigger] writer_kids_view(v)[i],
        ),
    decreases v,
{
    assert forall|i: int| 0 <= i < writer_kids_view(v).len() implies leafy(
            #[trigger] writer_kids_view(v)[i],
        ) by {
        lemma_references_are_leaves(v[i / 2].source);
        lemma_references_are_leaves(v[i / 2].body);
    }
}

proof fn lemma_bindings_leafy(v: Seq<(TypedBinding, Expr)>)
    ensures
        forall|i: int| 0 <= i < binder_defs_view(v).len() ==> leafy(
            #[trigger] binder_defs_view(v)[i],
        ),
    decreases v,
{
    assert forall|i: int| 0 <= i < binder_defs_view(v).len() implies leafy(
            #[trigger] binder_defs_view(v)[i],
        ) by {
        lemma_references_are_leaves(v[i].1);
    }
}

/// Every reference in a term is a leaf.
pub proof fn lemma_references_are_leaves(e: Expr)
    ensures
        leafy(e.view()),
    decreases e,
{
    lemma_subterms_leafy(e.node);
    assert(e.view().kids == e.node.kids());
}

#[verifier::rlimit(60)]
proof fn lemma_subterms_leafy(n: TypedExprNode)
    ensures
        forall|i: int| 0 <= i < n.kids().len() ==> leafy(#[trigger] n.kids()[i]),
    decreases n,
{
    match n {
        TypedExprNode::BinOp { left, op, right } => {
            lemma_references_are_leaves(*left);
            lemma_references_are_leaves(*right);
        },
        TypedExprNode::UnaryOp(op, x) => {
            lemma_references_are_leaves(*x);
        },
        TypedExprNode::Apply { function, argument } => {
            lemma_references_are_leaves(*function);
            lemma_references_are_leaves(*argument);
        },
        TypedExprNode::Cast { value, target } => {
            lemma_references_are_leaves(*value);
        },
        TypedExprNode::Lambda { param, body } => {
            lemma_references_are_leaves(*body);
        },
        TypedExprNode::Aggregate { input, kind } => {
            lemma_references_are_leaves(*input);
        },
        TypedExprNode::MutDecl { binding, init, body } => {
            lemma_references_are_leaves(*init);
            lemma_references_are_leaves(*body);
        },
        TypedExprNode::Let { binding, bound_expr, body } => {
            lemma_references_are_leaves(*bound_expr);
            lemma_references_are_leaves(*body);
        },
        TypedExprNode::VariantCtor { tag, payload } => {
            lemma_references_are_leaves(*payload);
        },
        TypedExprNode::For { target, iter, body } => {
            lemma_references_are_leaves(*iter);
            lemma_references_are_leaves(*body);
        },
        TypedExprNode::MutWrite { name, value } => {
            lemma_references_are_leaves(*value);
        },
        TypedExprNode::ExprStmt { expr, body } => {
            lemma_references_are_leaves(*expr);
            lemma_references_are_leaves(*body);
        },
        TypedExprNode::Feed { name, value } => {
            lemma_references_are_leaves(*value);
        },
        TypedExprNode::Define { name, value } => {
            lemma_references_are_leaves(*value);
        },
        TypedExprNode::Begin { body } => {
            lemma_references_are_leaves(*body);
        },
        TypedExprNode::Realize(x) => {
            lemma_references_are_leaves(*x);
        },
        TypedExprNode::List(v) => {
            lemma_all_leafy(v@);
            assert(n.kids() == exprs_view(v@));
        },
        TypedExprNode::Tuple(v) => {
            lemma_all_leafy(v@);
            assert(n.kids() == exprs_view(v@));
        },
        TypedExprNode::Compose(v) => {
            lemma_all_leafy(v@);
            assert(n.kids() == exprs_view(v@));
        },
        TypedExprNode::DisjointJoin(v) => {
            lemma_all_leafy(v@);
            assert(n.kids() == exprs_view(v@));
        },
        TypedExprNode::Copair(v) => {
            lemma_all_leafy(v@);
            assert(n.kids() == exprs_view(v@));
        },
        TypedExprNode::Record(fs) => {
            lemma_fields_leafy(fs@);
            assert(n.kids() == field_exprs_view(fs@));
        },
        TypedExprNode::Case { scrutinee, branches } => {
            if scrutinee is Some {
                lemma_references_are_leaves(*scrutinee->0);
            }
            lemma_branches_leafy(branches@);
            let bs = branch_kids_view(branches@);
            assert(n.kids() == if scrutinee is Some { seq![scrutinee->0.view()] + bs } else { bs });
        },
        TypedExprNode::Transact { keys, writers, domain } => {
            lemma_keys_leafy(keys@);
            lemma_writers_leafy(writers@);
            assert(n.kids() == key_inits_view(keys@) + writer_kids_view(writers@));
        },
        TypedExprNode::LetRec { bindings, body } => {
            lemma_bindings_leafy(bindings@);
            lemma_references_are_leaves(*body);
            assert(n.kids() == binder_defs_view(bindings@).push(body.view()));
        },
        _ => {},
    }
}

/// Every reference in the terms a substitution puts in is a leaf.
pub proof fn lemma_range_is_leafy(s: Subst)
    ensures
        range_leafy(s.view()),
{
    assert forall|k: NameS| #[trigger] s.view().dom().contains(k) implies (
    s.view()[k] matches MappingS::Discharge(t) ==> leafy(t)) by {
        match s.map.view()[k] {
            Mapping::Discharge(t) => {
                lemma_references_are_leaves(*t);
            },
            _ => {},
        }
    }
}

} // verus!
