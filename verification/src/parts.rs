//! The parts of a term: its subterms and type slots, and the form put back
//! together over other parts; copies of terms and types.
use std::rc::Rc;
use vstd::prelude::*;
use crate::ast::{
    Branch, Expr, FunKind, Pattern, TransactKey, Type, TypedBinding, TypedExprNode, WriterSite,
    binder_defs_view, binder_names_view, binder_tys_view, branch_kids_view, branch_tys_view,
    exprs_view, field_exprs_view, field_names_view, footprints_view, key_inits_view,
    key_names_view, opt_pattern_view, patterns_view, types_view, witness_types_view,
    writer_kids_view,
};
use crate::name::{clone_names, names_view};
use crate::refinement_set::law_a_set_has_no_duplicates;
use crate::sharing::{share_all, shared_refs_view, shared_view};
use crate::tree::{
    expr_refs_view, refs, second_refs, take_front, type_refs_view, with_kids, with_parts,
    with_witness_types, witness_types,
};

verus! {

/// References to the guards and bodies of the arms, arm by arm.
fn branch_refs(v: &Vec<Branch>) -> (r: Vec<&Expr>)
    ensures
        expr_refs_view(r@) == branch_kids_view(v@),
{
    let mut out: Vec<&Expr> = Vec::new();
    let mut i: usize = 0;
    while i < v.len()
        invariant
            i <= v.len(),
            out.len() == 2 * i,
            forall|j: int|
                0 <= j < 2 * i ==> *(#[trigger] out@[j]) == (if j % 2 == 0 {
                    v@[j / 2].guard
                } else {
                    v@[j / 2].body
                }),
        decreases v.len() - i,
    {
        out.push(&v[i].guard);
        out.push(&v[i].body);
        i = i + 1;
    }
    assert(expr_refs_view(out@) =~= branch_kids_view(v@));
    out
}

/// References to the sources and bodies of the writers, writer by writer.
fn writer_refs(v: &Vec<WriterSite>) -> (r: Vec<&Expr>)
    ensures
        expr_refs_view(r@) == writer_kids_view(v@),
{
    let mut out: Vec<&Expr> = Vec::new();
    let mut i: usize = 0;
    while i < v.len()
        invariant
            i <= v.len(),
            out.len() == 2 * i,
            forall|j: int|
                0 <= j < 2 * i ==> *(#[trigger] out@[j]) == (if j % 2 == 0 {
                    v@[j / 2].source
                } else {
                    v@[j / 2].body
                }),
        decreases v.len() - i,
    {
        out.push(&v[i].source);
        out.push(&v[i].body);
        i = i + 1;
    }
    assert(expr_refs_view(out@) =~= writer_kids_view(v@));
    out
}

fn key_init_refs(v: &Vec<TransactKey>) -> (r: Vec<&Expr>)
    ensures
        expr_refs_view(r@) == key_inits_view(v@),
{
    let mut out: Vec<&Expr> = Vec::new();
    let mut i: usize = 0;
    while i < v.len()
        invariant
            i <= v.len(),
            out.len() == i,
            forall|j: int| 0 <= j < i ==> *(#[trigger] out@[j]) == v@[j].init,
        decreases v.len() - i,
    {
        out.push(&v[i].init);
        i = i + 1;
    }
    assert(expr_refs_view(out@) =~= key_inits_view(v@));
    out
}

fn list_refs(v: &Vec<Expr>) -> (r: Vec<&Expr>)
    ensures
        expr_refs_view(r@) == exprs_view(v@),
{
    let out = refs(v);
    assert(expr_refs_view(out@) =~= exprs_view(v@));
    out
}

impl Expr {
    /// The subterms, in the order a walk visits them.
    pub fn children(&self) -> (r: Vec<&Expr>)
        ensures
            expr_refs_view(r@) == self.view().kids,
    {
        let mut out: Vec<&Expr> = Vec::new();
        match &self.node {
            TypedExprNode::BinOp { left, op, right } => {
                out.push(&**left);
                out.push(&**right);
            },
            TypedExprNode::UnaryOp(_, e) => {
                out.push(&**e);
            },
            TypedExprNode::Apply { function, argument } => {
                out.push(&**function);
                out.push(&**argument);
            },
            TypedExprNode::Cast { value, target } => {
                out.push(&**value);
            },
            TypedExprNode::Lambda { param, body } => {
                out.push(&**body);
            },
            TypedExprNode::Aggregate { input, kind } => {
                out.push(&**input);
            },
            TypedExprNode::MutDecl { binding, init, body } => {
                out.push(&**init);
                out.push(&**body);
            },
            TypedExprNode::Let { binding, bound_expr, body } => {
                out.push(&**bound_expr);
                out.push(&**body);
            },
            TypedExprNode::List(v) => {
                out = list_refs(v);
            },
            TypedExprNode::Tuple(v) => {
                out = list_refs(v);
            },
            TypedExprNode::Record(fs) => {
                out = second_refs(fs);
                assert(expr_refs_view(out@) =~= field_exprs_view(fs@));
            },
            TypedExprNode::Case { scrutinee, branches } => {
                let mut arms = branch_refs(branches);
                let ghost a = arms@;
                match scrutinee {
                    Some(s) => {
                        out.push(&**s);
                    },
                    None => {},
                }
                let ghost b = out@;
                out.append(&mut arms);
                assert(expr_refs_view(out@) =~= expr_refs_view(b) + expr_refs_view(a));
            },
            TypedExprNode::VariantCtor { tag, payload } => {
                out.push(&**payload);
            },
            TypedExprNode::Transact { keys, writers, domain } => {
                out = key_init_refs(keys);
                let ghost b = out@;
                let mut rest = writer_refs(writers);
                let ghost a = rest@;
                out.append(&mut rest);
                assert(expr_refs_view(out@) =~= expr_refs_view(b) + expr_refs_view(a));
            },
            TypedExprNode::LetRec { bindings, body } => {
                out = second_refs(bindings);
                assert(expr_refs_view(out@) =~= binder_defs_view(bindings@));
                out.push(&**body);
            },
            TypedExprNode::For { target, iter, body } => {
                out.push(&**iter);
                out.push(&**body);
            },
            TypedExprNode::MutWrite { name, value } => {
                out.push(&**value);
            },
            TypedExprNode::Compose(v) => {
                out = list_refs(v);
            },
            TypedExprNode::DisjointJoin(v) => {
                out = list_refs(v);
            },
            TypedExprNode::Copair(v) => {
                out = list_refs(v);
            },
            TypedExprNode::ExprStmt { expr, body } => {
                out.push(&**expr);
                out.push(&**body);
            },
            TypedExprNode::Feed { name, value } => {
                out.push(&**value);
            },
            TypedExprNode::Define { name, value } => {
                out.push(&**value);
            },
            TypedExprNode::Begin { body } => {
                out.push(&**body);
            },
            TypedExprNode::Realize(e) => {
                out.push(&**e);
            },
            _ => {},
        }
        assert(expr_refs_view(out@) =~= self.view().kids);
        out
    }

    /// Every type slot: the recorded type, the annotation, then the slots of
    /// the form.
    pub fn type_slots(&self) -> (r: Vec<&Type>)
        ensures
            type_refs_view(r@) == self.view().tys,
    {
        let mut out: Vec<&Type> = Vec::new();
        out.push(&self.ty);
        match &self.user_annotation {
            Some(t) => {
                out.push(t);
            },
            None => {},
        }
        let ghost lead = out@;
        match &self.node {
            TypedExprNode::Cast { value, target } => {
                out.push(target);
            },
            TypedExprNode::Lambda { param, body } => {
                out.push(&param.ty);
            },
            TypedExprNode::MutDecl { binding, init, body } => {
                out.push(&binding.ty);
            },
            TypedExprNode::Let { binding, bound_expr, body } => {
                out.push(&binding.ty);
            },
            TypedExprNode::Case { scrutinee, branches } => {
                let mut i: usize = 0;
                assert(branches@.take(0) =~= Seq::empty());
                assert(type_refs_view(out@) =~= type_refs_view(lead) + branch_tys_view(
                    branches@.take(0),
                ));
                while i < branches.len()
                    invariant
                        i <= branches.len(),
                        type_refs_view(out@) == type_refs_view(lead) + branch_tys_view(
                            branches@.take(i as int),
                        ),
                    decreases branches.len() - i,
                {
                    proof {
                        lemma_branch_tys_step(branches@, i as int);
                    }
                    let ghost before = out@;
                    match &branches[i].pattern {
                        Some(p) => {
                            out.push(&p.binding.ty);
                            assert(type_refs_view(out@) =~= type_refs_view(before).push(
                                p.binding.ty.view(),
                            ));
                            assert(type_refs_view(out@) =~= type_refs_view(lead) + branch_tys_view(
                                branches@.take(i + 1),
                            ));
                        },
                        None => {},
                    }
                    i = i + 1;
                }
                assert(branches@.take(i as int) =~= branches@);
            },
            TypedExprNode::Transact { keys, writers, domain } => {
                out.push(domain);
            },
            TypedExprNode::LetRec { bindings, body } => {
                let mut i: usize = 0;
                while i < bindings.len()
                    invariant
                        i <= bindings.len(),
                        out.len() == lead.len() + i,
                        forall|j: int| 0 <= j < lead.len() ==> out@[j] == lead[j],
                        forall|j: int|
                            lead.len() <= j < lead.len() + i ==> *(#[trigger] out@[j])
                                == bindings@[j - lead.len()].0.ty,
                    decreases bindings.len() - i,
                {
                    out.push(&bindings[i].0.ty);
                    i = i + 1;
                }
                assert(type_refs_view(out@) =~= type_refs_view(lead) + binder_tys_view(bindings@));
            },
            TypedExprNode::For { target, iter, body } => {
                out.push(&target.ty);
            },
            _ => {},
        }
        assert(type_refs_view(out@) =~= self.view().tys);
        out
    }
}

proof fn lemma_branch_tys_step(v: Seq<Branch>, i: int)
    requires
        0 <= i < v.len(),
    ensures
        branch_tys_view(v.take(i + 1)) == (match v[i].pattern {
            Some(p) => branch_tys_view(v.take(i)).push(p.binding.ty.view()),
            None => branch_tys_view(v.take(i)),
        }),
{
    assert(v.take(i + 1).take(i) =~= v.take(i));
}

proof fn lemma_branch_tys_prefix(v: Seq<Branch>, i: int)
    requires
        0 <= i <= v.len(),
    ensures
        branch_tys_view(v.take(i)).len() <= branch_tys_view(v).len(),
    decreases v.len(),
{
    if i < v.len() {
        lemma_branch_tys_prefix(v.take(v.len() - 1), i);
        assert(v.take(v.len() - 1).take(i) =~= v.take(i));
    } else {
        assert(v.take(i) =~= v);
    }
}

/// The arms over other guards, bodies and binder types.
fn rebuild_branches(v: &Vec<Branch>, kids: Vec<Expr>, slots: Vec<Type>) -> (r: Vec<Branch>)
    requires
        kids@.len() == 2 * v@.len(),
        slots@.len() == branch_tys_view(v@).len(),
    ensures
        patterns_view(r@) == patterns_view(v@),
        branch_kids_view(r@) == exprs_view(kids@),
        branch_tys_view(r@) == types_view(slots@),
{
    let mut kids = kids;
    let mut slots = slots;
    let ghost kw = kids@;
    let ghost sw = slots@;
    let mut out: Vec<Branch> = Vec::new();
    let mut i: usize = 0;
    let ghost mut c: int = 0;
    proof {
        assert(v@.take(0) =~= Seq::empty());
        assert(kids@ =~= kw.skip(0));
        assert(slots@ =~= sw.skip(0));
        assert(types_view(sw.take(0)) =~= Seq::empty());
    }
    while i < v.len()
        invariant
            i <= v.len(),
            out.len() == i,
            kw.len() == 2 * v.len(),
            sw.len() == branch_tys_view(v@).len(),
            c == branch_tys_view(v@.take(i as int)).len(),
            0 <= c <= sw.len(),
            kids@ == kw.skip(2 * i as int),
            slots@ == sw.skip(c),
            branch_tys_view(out@) == types_view(sw.take(c)),
            forall|j: int|
                0 <= j < i ==> (#[trigger] out@[j]).guard == kw[2 * j] && out@[j].body == kw[2 * j
                    + 1] && opt_pattern_view(out@[j].pattern) == opt_pattern_view(v@[j].pattern),
        decreases v.len() - i,
    {
        let ghost done = out@;
        proof {
            lemma_branch_tys_prefix(v@, i + 1);
            lemma_branch_tys_step(v@, i as int);
        }
        let guard = kids.remove(0);
        let body = kids.remove(0);
        assert(kids@ =~= kw.skip(2 * (i + 1)));
        match &v[i].pattern {
            Some(p) => {
                let ty = slots.remove(0);
                assert(slots@ =~= sw.skip(c + 1));
                assert(ty == sw[c]);
                let ghost tyv = ty.view();
                let binding = TypedBinding { name: p.binding.name.clone(), ty };
                let pattern = Pattern {
                    tag: p.tag.clone(),
                    binding,
                    empty_payload: p.empty_payload,
                };
                out.push(Branch { pattern: Some(pattern), guard, body });
                proof {
                    lemma_branch_tys_step(out@, i as int);
                    assert(out@.take(i as int) =~= done);
                    assert(out@.take(i + 1) =~= out@);
                    assert(types_view(sw.take(c)).push(tyv) =~= types_view(sw.take(c + 1)));
                    c = c + 1;
                }
            },
            None => {
                out.push(Branch { pattern: None, guard, body });
                proof {
                    lemma_branch_tys_step(out@, i as int);
                    assert(out@.take(i as int) =~= done);
                    assert(out@.take(i + 1) =~= out@);
                }
            },
        }
        i = i + 1;
    }
    proof {
        assert(v@.take(i as int) =~= v@);
        assert(sw.take(c) =~= sw);
        assert(patterns_view(out@) =~= patterns_view(v@));
        assert(branch_kids_view(out@) =~= exprs_view(kw));
    }
    out
}

/// The writers over other sources and bodies.
fn rebuild_writers(v: &Vec<WriterSite>, kids: Vec<Expr>) -> (r: Vec<WriterSite>)
    requires
        kids@.len() == 2 * v@.len(),
    ensures
        footprints_view(r@) == footprints_view(v@),
        writer_kids_view(r@) == exprs_view(kids@),
{
    let mut kids = kids;
    let ghost kw = kids@;
    let mut out: Vec<WriterSite> = Vec::new();
    let mut i: usize = 0;
    assert(kids@ =~= kw.skip(0));
    while i < v.len()
        invariant
            i <= v.len(),
            out.len() == i,
            kw.len() == 2 * v.len(),
            kids@ == kw.skip(2 * i as int),
            forall|j: int|
                0 <= j < i ==> (#[trigger] out@[j]).source == kw[2 * j] && out@[j].body == kw[2 * j
                    + 1] && names_view(out@[j].read_keys@) == names_view(v@[j].read_keys@)
                    && names_view(out@[j].write_keys@) == names_view(v@[j].write_keys@),
        decreases v.len() - i,
    {
        let source = kids.remove(0);
        let body = kids.remove(0);
        assert(kids@ =~= kw.skip(2 * (i + 1)));
        out.push(
            WriterSite {
                read_keys: clone_names(&v[i].read_keys),
                write_keys: clone_names(&v[i].write_keys),
                source,
                body,
            },
        );
        i = i + 1;
    }
    proof {
        assert(footprints_view(out@) =~= footprints_view(v@));
        assert(writer_kids_view(out@) =~= exprs_view(kw));
    }
    out
}

fn rebuild_keys(v: &Vec<TransactKey>, kids: Vec<Expr>) -> (r: Vec<TransactKey>)
    requires
        kids@.len() == v@.len(),
    ensures
        key_names_view(r@) == key_names_view(v@),
        key_inits_view(r@) == exprs_view(kids@),
{
    let mut kids = kids;
    let ghost kw = kids@;
    let mut out: Vec<TransactKey> = Vec::new();
    let mut i: usize = 0;
    assert(kids@ =~= kw.skip(0));
    while i < v.len()
        invariant
            i <= v.len(),
            out.len() == i,
            kw.len() == v.len(),
            kids@ == kw.skip(i as int),
            forall|j: int| 0 <= j < i ==> (#[trigger] out@[j]).init == kw[j] && out@[j].name@ == v@[j].name@,
        decreases v.len() - i,
    {
        let init = kids.remove(0);
        assert(kids@ =~= kw.skip(i + 1));
        out.push(TransactKey { name: v[i].name.clone(), init });
        i = i + 1;
    }
    proof {
        assert(key_names_view(out@) =~= key_names_view(v@));
        assert(key_inits_view(out@) =~= exprs_view(kw));
    }
    out
}

fn rebuild_fields(v: &Vec<(String, Expr)>, kids: Vec<Expr>) -> (r: Vec<(String, Expr)>)
    requires
        kids@.len() == v@.len(),
    ensures
        field_names_view(r@) == field_names_view(v@),
        field_exprs_view(r@) == exprs_view(kids@),
{
    let mut kids = kids;
    let ghost kw = kids@;
    let mut out: Vec<(String, Expr)> = Vec::new();
    let mut i: usize = 0;
    assert(kids@ =~= kw.skip(0));
    while i < v.len()
        invariant
            i <= v.len(),
            out.len() == i,
            kw.len() == v.len(),
            kids@ == kw.skip(i as int),
            forall|j: int| 0 <= j < i ==> (#[trigger] out@[j]).1 == kw[j] && out@[j].0@ == v@[j].0@,
        decreases v.len() - i,
    {
        let e = kids.remove(0);
        assert(kids@ =~= kw.skip(i + 1));
        out.push((v[i].0.clone(), e));
        i = i + 1;
    }
    proof {
        assert(field_names_view(out@) =~= field_names_view(v@));
        assert(field_exprs_view(out@) =~= exprs_view(kw));
    }
    out
}

fn rebuild_bindings(
    v: &Vec<(TypedBinding, Expr)>,
    kids: Vec<Expr>,
    slots: Vec<Type>,
) -> (r: Vec<(TypedBinding, Expr)>)
    requires
        kids@.len() == v@.len(),
        slots@.len() == v@.len(),
    ensures
        binder_names_view(r@) == binder_names_view(v@),
        binder_defs_view(r@) == exprs_view(kids@),
        binder_tys_view(r@) == types_view(slots@),
{
    let mut kids = kids;
    let mut slots = slots;
    let ghost kw = kids@;
    let ghost sw = slots@;
    let mut out: Vec<(TypedBinding, Expr)> = Vec::new();
    let mut i: usize = 0;
    assert(kids@ =~= kw.skip(0));
    assert(slots@ =~= sw.skip(0));
    while i < v.len()
        invariant
            i <= v.len(),
            out.len() == i,
            kw.len() == v.len(),
            sw.len() == v.len(),
            kids@ == kw.skip(i as int),
            slots@ == sw.skip(i as int),
            forall|j: int|
                0 <= j < i ==> (#[trigger] out@[j]).1 == kw[j] && out@[j].0.name@ == v@[j].0.name@
                    && out@[j].0.ty == sw[j],
        decreases v.len() - i,
    {
        let e = kids.remove(0);
        let ty = slots.remove(0);
        assert(kids@ =~= kw.skip(i + 1));
        assert(slots@ =~= sw.skip(i + 1));
        out.push((TypedBinding { name: v[i].0.name.clone(), ty }, e));
        i = i + 1;
    }
    proof {
        assert(binder_names_view(out@) =~= binder_names_view(v@));
        assert(binder_defs_view(out@) =~= exprs_view(kw));
        assert(binder_tys_view(out@) =~= types_view(sw));
    }
    out
}

impl TypedExprNode {
    /// This form over other subterms and slots.
    #[verifier::spinoff_prover]
    #[verifier::rlimit(100)]
    fn rebuild(&self, kids: Vec<Expr>, slots: Vec<Type>) -> (r: TypedExprNode)
        requires
            kids@.len() == self.kids().len(),
            slots@.len() == self.slots().len(),
        ensures
            r.head() == self.head(),
            r.kids() == exprs_view(kids@),
            r.slots() == types_view(slots@),
    {
        let mut kids = kids;
        let mut slots = slots;
        let ghost kw = kids@;
        let ghost sw = slots@;
        let out = match self {
            TypedExprNode::Lit(l) => TypedExprNode::Lit(l.clone()),
            TypedExprNode::Var(n) => TypedExprNode::Var(n.clone()),
            TypedExprNode::Builtin(b) => TypedExprNode::Builtin(b.clone()),
            TypedExprNode::BinOp { left, op, right } => {
                let b = Box::new(kids.pop().unwrap());
                let a = Box::new(kids.pop().unwrap());
                TypedExprNode::BinOp { left: a, op: *op, right: b }
            },
            TypedExprNode::UnaryOp(op, _) => TypedExprNode::UnaryOp(
                *op,
                Box::new(kids.pop().unwrap()),
            ),
            TypedExprNode::Apply { function, argument } => {
                let b = Box::new(kids.pop().unwrap());
                let a = Box::new(kids.pop().unwrap());
                TypedExprNode::Apply { function: a, argument: b }
            },
            TypedExprNode::Cast { value, target } => TypedExprNode::Cast {
                value: Box::new(kids.pop().unwrap()),
                target: slots.pop().unwrap(),
            },
            TypedExprNode::Lambda { param, body } => TypedExprNode::Lambda {
                param: TypedBinding { name: param.name.clone(), ty: slots.pop().unwrap() },
                body: Box::new(kids.pop().unwrap()),
            },
            TypedExprNode::Aggregate { input, kind } => TypedExprNode::Aggregate {
                input: Box::new(kids.pop().unwrap()),
                kind: *kind,
            },
            TypedExprNode::MutDecl { binding, init, body } => {
                let b = Box::new(kids.pop().unwrap());
                let a = Box::new(kids.pop().unwrap());
                TypedExprNode::MutDecl {
                    binding: TypedBinding { name: binding.name.clone(), ty: slots.pop().unwrap() },
                    init: a,
                    body: b,
                }
            },
            TypedExprNode::Let { binding, bound_expr, body } => {
                let b = Box::new(kids.pop().unwrap());
                let a = Box::new(kids.pop().unwrap());
                TypedExprNode::Let {
                    binding: TypedBinding { name: binding.name.clone(), ty: slots.pop().unwrap() },
                    bound_expr: a,
                    body: b,
                }
            },
            TypedExprNode::List(_) => TypedExprNode::List(kids),
            TypedExprNode::Tuple(_) => TypedExprNode::Tuple(kids),
            TypedExprNode::Record(fs) => {
                assert(field_exprs_view(fs@).len() == fs@.len());
                TypedExprNode::Record(rebuild_fields(fs, kids))
            },
            TypedExprNode::Case { scrutinee, branches } => {
                assert(branch_kids_view(branches@).len() == 2 * branches@.len());
                let s = match scrutinee {
                    Some(_) => Some(Box::new(kids.remove(0))),
                    None => None,
                };
                let ghost rest = kids@;
                let arms = rebuild_branches(branches, kids, slots);
                proof {
                    match &s {
                        Some(x) => {
                            assert(seq![x.view()] + exprs_view(rest) =~= exprs_view(kw));
                        },
                        None => {},
                    }
                }
                TypedExprNode::Case { scrutinee: s, branches: arms }
            },
            TypedExprNode::VariantCtor { tag, payload } => TypedExprNode::VariantCtor {
                tag: tag.clone(),
                payload: Box::new(kids.pop().unwrap()),
            },
            TypedExprNode::Transact { keys, writers, domain } => {
                assert(key_inits_view(keys@).len() == keys@.len());
                assert(writer_kids_view(writers@).len() == 2 * writers@.len());
                let front = take_front(&mut kids, keys.len());
                proof {
                    assert(exprs_view(kw.take(keys@.len() as int)) + exprs_view(
                        kw.skip(keys@.len() as int),
                    ) =~= exprs_view(kw));
                }
                let ks = rebuild_keys(keys, front);
                let ws = rebuild_writers(writers, kids);
                TypedExprNode::Transact { keys: ks, writers: ws, domain: slots.pop().unwrap() }
            },
            TypedExprNode::LetRec { bindings, body } => {
                assert(binder_defs_view(bindings@).len() == bindings@.len());
                assert(binder_tys_view(bindings@).len() == bindings@.len());
                let b = kids.pop().unwrap();
                assert(exprs_view(kids@).push(b.view()) =~= exprs_view(kw));
                let bs = rebuild_bindings(bindings, kids, slots);
                TypedExprNode::LetRec { bindings: bs, body: Box::new(b) }
            },
            TypedExprNode::For { target, iter, body } => {
                let b = Box::new(kids.pop().unwrap());
                let a = Box::new(kids.pop().unwrap());
                TypedExprNode::For {
                    target: TypedBinding { name: target.name.clone(), ty: slots.pop().unwrap() },
                    iter: a,
                    body: b,
                }
            },
            TypedExprNode::MutWrite { name, value } => TypedExprNode::MutWrite {
                name: name.clone(),
                value: Box::new(kids.pop().unwrap()),
            },
            TypedExprNode::Source(s) => TypedExprNode::Source(s.clone()),
            TypedExprNode::Compose(_) => TypedExprNode::Compose(kids),
            TypedExprNode::DisjointJoin(_) => TypedExprNode::DisjointJoin(kids),
            TypedExprNode::Copair(_) => TypedExprNode::Copair(kids),
            TypedExprNode::Proj(k) => TypedExprNode::Proj(k.clone()),
            TypedExprNode::ExprStmt { expr, body } => {
                let b = Box::new(kids.pop().unwrap());
                let a = Box::new(kids.pop().unwrap());
                TypedExprNode::ExprStmt { expr: a, body: b }
            },
            TypedExprNode::Feed { name, value } => TypedExprNode::Feed {
                name: name.clone(),
                value: Box::new(kids.pop().unwrap()),
            },
            TypedExprNode::Define { name, value } => TypedExprNode::Define {
                name: name.clone(),
                value: Box::new(kids.pop().unwrap()),
            },
            TypedExprNode::Defer => TypedExprNode::Defer,
            TypedExprNode::Begin { body } => TypedExprNode::Begin {
                body: Box::new(kids.pop().unwrap()),
            },
            TypedExprNode::Error => TypedExprNode::Error,
            TypedExprNode::Realize(_) => TypedExprNode::Realize(Box::new(kids.pop().unwrap())),
        };
        assert(out.kids() =~= exprs_view(kw));
        assert(out.slots() =~= types_view(sw));
        out
    }
}

impl Expr {
    /// This form over other subterms and type slots.
    #[verifier::spinoff_prover]
    #[verifier::rlimit(60)]
    pub fn rebuild(&self, kids: Vec<Expr>, tys: Vec<Type>) -> (r: Expr)
        requires
            kids@.len() == self.view().kids.len(),
            tys@.len() == self.view().tys.len(),
        ensures
            r.view() == with_parts(self.view(), exprs_view(kids@), types_view(tys@)),
    {
        let mut tys = tys;
        let ghost tw = tys@;
        let ty = tys.remove(0);
        let ann = match &self.user_annotation {
            Some(_) => Some(tys.remove(0)),
            None => None,
        };
        let ghost rest = tys@;
        let node = self.node.rebuild(kids, tys);
        let out = Expr { node, ty, user_annotation: ann };
        assert(out.view().tys =~= types_view(tw));
        out
    }
}

impl Expr {
    /// This form over other subterms.
    pub fn with_children(&self, kids: Vec<Expr>) -> (r: Expr)
        requires
            kids@.len() == self.view().kids.len(),
        ensures
            r.view() == with_kids(self.view(), exprs_view(kids@)),
    {
        let slots = self.type_slots();
        let ghost ev = self.view();
        assert(slots@.len() == ev.tys.len());
        let mut ts: Vec<Type> = Vec::new();
        let mut i: usize = 0;
        while i < slots.len()
            invariant
                i <= slots.len(),
                ts.len() == i,
                slots@.len() == ev.tys.len(),
                type_refs_view(slots@) == ev.tys,
                forall|j: int| 0 <= j < i ==> (#[trigger] ts@[j]).view() == ev.tys[j],
            decreases slots.len() - i,
        {
            assert(slots@[i as int].view() == ev.tys[i as int]);
            ts.push(copy_type(slots[i]));
            i = i + 1;
        }
        assert(types_view(ts@) =~= ev.tys);
        self.rebuild(kids, ts)
    }
}

// ---- copies ----

/// Copies a type.
pub fn copy_type(t: &Type) -> (r: Type)
    ensures
        r.view() == t.view(),
    decreases t.view(),
{
    match t {
        Type::Refinement(base, set) => {
            assert(t.view().kids[0] == base.view());
            assert(decreases_to!(t.view() => t.view().kids[0]));
            let out = Type::Refinement(Box::new(copy_type(base)), set.clone());
            assert(out.view().kids =~= t.view().kids);
            return out;
        },
        _ => {},
    }
    let kids = t.walk_children();
    let preds = t.shared_predicates();
    let mut ks: Vec<Type> = Vec::new();
    let mut i: usize = 0;
    while i < kids.len()
        invariant
            i <= kids.len(),
            ks.len() == i,
            type_refs_view(kids@) == t.view().kids,
            forall|j: int| 0 <= j < i ==> (#[trigger] ks@[j]).view() == t.view().kids[j],
        decreases kids.len() - i,
    {
        assert(kids@[i as int].view() == t.view().kids[i as int]);
        ks.push(copy_type(kids[i]));
        i = i + 1;
    }
    let ps = share_all(&preds);
    proof {
        assert(kids@.len() == t.view().kids.len());
        assert(preds@.len() == shared_refs_view(preds@).len());
        assert(ps@.len() == shared_view(ps@).len());
        assert(types_view(ks@) =~= t.view().kids);
        law_a_set_has_no_duplicates(t.view().preds);
    }
    t.rebuild(ks, ps)
}

/// Copies a term.
pub fn copy_expr(e: &Expr) -> (r: Expr)
    ensures
        r.view() == e.view(),
    decreases e.view(),
{
    let kids = e.children();
    let slots = e.type_slots();
    let mut ks: Vec<Expr> = Vec::new();
    let mut ts: Vec<Type> = Vec::new();
    let mut i: usize = 0;
    while i < kids.len()
        invariant
            i <= kids.len(),
            ks.len() == i,
            expr_refs_view(kids@) == e.view().kids,
            forall|j: int| 0 <= j < i ==> (#[trigger] ks@[j]).view() == e.view().kids[j],
        decreases kids.len() - i,
    {
        assert(kids@[i as int].view() == e.view().kids[i as int]);
        ks.push(copy_expr(kids[i]));
        i = i + 1;
    }
    let mut i: usize = 0;
    while i < slots.len()
        invariant
            i <= slots.len(),
            ts.len() == i,
            type_refs_view(slots@) == e.view().tys,
            forall|j: int| 0 <= j < i ==> (#[trigger] ts@[j]).view() == e.view().tys[j],
        decreases slots.len() - i,
    {
        assert(slots@[i as int].view() == e.view().tys[i as int]);
        ts.push(copy_type(slots[i]));
        i = i + 1;
    }
    proof {
        assert(kids@.len() == e.view().kids.len());
        assert(slots@.len() == e.view().tys.len());
        assert(exprs_view(ks@) =~= e.view().kids);
        assert(types_view(ts@) =~= e.view().tys);
    }
    e.rebuild(ks, ts)
}

impl Clone for Type {
    fn clone(&self) -> (r: Type)
        ensures
            r.view() == self.view(),
    {
        copy_type(self)
    }
}

impl Clone for FunKind {
    fn clone(&self) -> (r: FunKind)
        ensures
            r.view() == self.view(),
            r.types_view() == self.types_view(),
    {
        match self {
            FunKind::Compute => FunKind::Compute,
            FunKind::Data(None) => FunKind::Data(None),
            FunKind::Data(Some(ws)) => {
                let ts = witness_types(ws);
                let ghost all = witness_types_view(ws@);
                assert(ts@.len() == all.len());
                let mut copies: Vec<Type> = Vec::new();
                let mut i: usize = 0;
                while i < ts.len()
                    invariant
                        i <= ts.len(),
                        copies.len() == i,
                        ts@.len() == all.len(),
                        type_refs_view(ts@) == all,
                        forall|j: int| 0 <= j < i ==> (#[trigger] copies@[j]).view() == all[j],
                    decreases ts.len() - i,
                {
                    assert(ts@[i as int].view() == all[i as int]);
                    copies.push(copy_type(ts[i]));
                    i = i + 1;
                }
                assert(types_view(copies@) =~= all);
                FunKind::Data(Some(with_witness_types(ws, copies)))
            },
            FunKind::Var(v) => FunKind::Var(*v),
        }
    }
}

impl Clone for Expr {
    fn clone(&self) -> (r: Expr)
        ensures
            r.view() == self.view(),
    {
        copy_expr(self)
    }
}

} // verus!
