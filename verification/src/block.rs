//! Transaction blocks: taking them apart, and what may stand in them.
use vstd::prelude::*;
use crate::ast::{
    Expr, ExprS, FootprintS, HeadS, Lit, LitS, TypedExprNode, exprs_view, opt_name_view,
};
use crate::capture::opt_expr_view;
use crate::make::{let_s, stmt_s};
use crate::name::{Name, NameS, has_name, names_view};
use crate::symbolic::lead;
use crate::tree::{expr_refs_view, with_kids};
use crate::txn_terms::{exprs2, let_typed, then_stmt};

verus! {

/// A block that only reads, run in place: its statements before `rest`. A block
/// cannot declare a mutable variable.
pub open spec fn spliced(block: ExprS, rest: ExprS) -> Option<ExprS>
    decreases block,
{
    match block.head {
        HeadS::Lit(LitS::Unit) => Some(rest),
        HeadS::ExprStmt => if block.kids.len() == 2 {
            match spliced(block.kids[1], rest) {
                Some(b) => Some(stmt_s(block.kids[0], b, b.ty())),
                None => None,
            }
        } else {
            None
        },
        HeadS::Let(n) => if block.kids.len() == 2 {
            match spliced(block.kids[1], rest) {
                Some(b) => Some(let_s(n, block.tys[lead(block)], block.kids[0], b, b.ty())),
                None => None,
            }
        } else {
            None
        },
        HeadS::MutDecl(_) => None,
        _ => Some(stmt_s(block, rest, rest.ty())),
    }
}

/// Runs a block that only reads in place: its statements before `rest`.
pub fn splice_block(block: &Expr, rest: Expr) -> (r: Option<Expr>)
    ensures
        opt_expr_view(r) == spliced(block.view(), rest.view()),
    decreases block.view(),
{
    let ghost bv = block.view();
    match &block.node {
        TypedExprNode::Lit(Lit::Unit) => Some(rest),
        TypedExprNode::ExprStmt { expr, body } => {
            assert(bv.kids[0] == expr.view());
            assert(bv.kids[1] == body.view());
            assert(decreases_to!(bv => bv.kids[1]));
            match splice_block(body, rest) {
                Some(b) => Some(then_stmt((**expr).clone(), b)),
                None => None,
            }
        },
        TypedExprNode::Let { binding, bound_expr, body } => {
            assert(bv.kids[0] == bound_expr.view());
            assert(bv.kids[1] == body.view());
            assert(bv.tys[lead(bv)] == binding.ty.view());
            assert(decreases_to!(bv => bv.kids[1]));
            match splice_block(body, rest) {
                Some(b) => Some(
                    let_typed(
                        binding.name.clone(),
                        binding.ty.clone(),
                        (**bound_expr).clone(),
                        b,
                    ),
                ),
                None => None,
            }
        },
        TypedExprNode::MutDecl { .. } => None,
        _ => Some(then_stmt(block.clone(), rest)),
    }
}

/// A writing block without the writes along its spine that are none of `txn`'s,
/// and those writes in order.
pub open spec fn split_block(e: ExprS, txn: Seq<NameS>) -> Option<(ExprS, Seq<ExprS>)>
    decreases e,
{
    match e.head {
        HeadS::ExprStmt => if e.kids.len() == 2 {
            match split_block(e.kids[1], txn) {
                Some((b, lifted)) => if e.kids[0].head matches HeadS::MutWrite(n)
                    && !txn.contains(n) {
                    Some((b, seq![e.kids[0]] + lifted))
                } else {
                    Some((with_kids(e, seq![e.kids[0], b]), lifted))
                },
                None => None,
            }
        } else {
            None
        },
        HeadS::Let(_) => if e.kids.len() == 2 {
            match split_block(e.kids[1], txn) {
                Some((b, lifted)) => Some((with_kids(e, seq![e.kids[0], b]), lifted)),
                None => None,
            }
        } else {
            None
        },
        HeadS::MutDecl(_) => None,
        _ => Some((e, Seq::empty())),
    }
}

/// Parts a writing block from the writes that are no part of its commit.
pub fn partition_block(block: &Expr, txn_mut_vars: &Vec<Name>) -> (r: Option<(Expr, Vec<Expr>)>)
    ensures
        match split_block(block.view(), names_view(txn_mut_vars@)) {
            Some((b, l)) => (r matches Some((x, xs)) && x.view() == b && exprs_view(xs@) == l),
            None => r is None,
        },
    decreases block.view(),
{
    let ghost bv = block.view();
    let ghost txn = names_view(txn_mut_vars@);
    match &block.node {
        TypedExprNode::ExprStmt { expr, body } => {
            assert(bv.kids[0] == expr.view());
            assert(bv.kids[1] == body.view());
            assert(decreases_to!(bv => bv.kids[1]));
            match partition_block(body, txn_mut_vars) {
                Some((b, lifted)) => {
                    let lifts = match &expr.node {
                        TypedExprNode::MutWrite { name, value } => !has_name(txn_mut_vars, name),
                        _ => false,
                    };
                    if lifts {
                        let ghost lv = exprs_view(lifted@);
                        let mut out: Vec<Expr> = Vec::new();
                        let mut tail = lifted;
                        out.push((**expr).clone());
                        out.append(&mut tail);
                        assert(exprs_view(out@) =~= seq![expr.view()] + lv);
                        Some((b, out))
                    } else {
                        let kids = exprs2((**expr).clone(), b);
                        Some((block.with_children(kids), lifted))
                    }
                },
                None => None,
            }
        },
        TypedExprNode::Let { binding, bound_expr, body } => {
            assert(bv.kids[0] == bound_expr.view());
            assert(bv.kids[1] == body.view());
            assert(decreases_to!(bv => bv.kids[1]));
            match partition_block(body, txn_mut_vars) {
                Some((b, lifted)) => {
                    let kids = exprs2((**bound_expr).clone(), b);
                    Some((block.with_children(kids), lifted))
                },
                None => None,
            }
        },
        TypedExprNode::MutDecl { .. } => None,
        _ => {
            let none: Vec<Expr> = Vec::new();
            assert(exprs_view(none@) =~= Seq::empty());
            Some((block.clone(), none))
        },
    }
}

/// The statements `es`, then `rest`.
pub open spec fn prepended(es: Seq<ExprS>, rest: ExprS) -> ExprS
    decreases es.len(),
{
    if es.len() == 0 {
        rest
    } else {
        prepended(es.drop_last(), stmt_s(es.last(), rest, rest.ty()))
    }
}

/// Puts the statements `effects` before `rest`.
pub fn prepend_effects(effects: Vec<Expr>, rest: Expr) -> (r: Expr)
    ensures
        r.view() == prepended(exprs_view(effects@), rest.view()),
{
    let ghost whole = prepended(exprs_view(effects@), rest.view());
    let mut es = effects;
    let mut out = rest;
    while es.len() > 0
        invariant
            prepended(exprs_view(es@), out.view()) == whole,
        decreases es.len(),
    {
        let ghost before = exprs_view(es@);
        let ghost last = es@[es@.len() - 1];
        match es.pop() {
            Some(e) => {
                assert(before.last() == last.view());
                assert(exprs_view(es@) =~= before.drop_last());
                out = then_stmt(e, out);
            },
            None => {},
        }
    }
    out
}

pub open spec fn with_name(ns: Seq<NameS>, n: NameS) -> Seq<NameS> {
    if ns.contains(n) {
        ns
    } else {
        ns.push(n)
    }
}

/// Whether subterm `i` of `e` runs under a choice. `under` is whether `e` does.
pub open spec fn runs_under(e: ExprS, i: int, under: bool) -> bool {
    under || (e.head matches HeadS::Case(false, _) && i % 2 == 1)
}

/// What `e` adds to a footprint over the variables `txn`. A variable that is
/// written under a choice is read too: the other choices keep its value.
pub open spec fn noted(txn: Seq<NameS>, under: bool, e: ExprS, acc: FootprintS) -> FootprintS
    decreases e, e.kids.len() + 1,
{
    let a = noted_upto(txn, under, e, acc, e.kids.len());
    match e.head {
        HeadS::Var(n) => if txn.contains(n) {
            FootprintS { read_keys: with_name(a.read_keys, n), ..a }
        } else {
            a
        },
        HeadS::MutWrite(n) => if txn.contains(n) {
            FootprintS {
                read_keys: if under { with_name(a.read_keys, n) } else { a.read_keys },
                write_keys: with_name(a.write_keys, n),
            }
        } else {
            a
        },
        _ => a,
    }
}

/// What the first `n` subterms of `e` add to a footprint.
pub open spec fn noted_upto(
    txn: Seq<NameS>,
    under: bool,
    e: ExprS,
    acc: FootprintS,
    n: nat,
) -> FootprintS
    decreases e, n,
{
    if n == 0 || n > e.kids.len() {
        acc
    } else {
        noted(
            txn,
            runs_under(e, n - 1, under),
            e.kids[n - 1],
            noted_upto(txn, under, e, acc, (n - 1) as nat),
        )
    }
}

/// The transactional variables that a block reads and writes.
pub open spec fn footprint_of(txn: Seq<NameS>, e: ExprS) -> FootprintS {
    noted(txn, false, e, FootprintS { read_keys: Seq::empty(), write_keys: Seq::empty() })
}

pub fn add_name(ns: &mut Vec<Name>, n: &Name)
    ensures
        names_view(final(ns)@) == with_name(names_view(old(ns)@), n@),
{
    if !has_name(ns, n) {
        let ghost before = ns@;
        ns.push(n.clone());
        assert(names_view(ns@) =~= names_view(before).push(n@));
    }
}

/// Whether `e` is a choice without a scrutinee.
fn is_plain_case(e: &Expr) -> (r: bool)
    ensures
        r == (e.view().head matches HeadS::Case(false, _)),
{
    match &e.node {
        TypedExprNode::Case { scrutinee, branches } => scrutinee.is_none(),
        _ => false,
    }
}

fn note(txn: &Vec<Name>, under: bool, e: &Expr, reads: &mut Vec<Name>, writes: &mut Vec<Name>)
    ensures
        (FootprintS {
            read_keys: names_view(final(reads)@),
            write_keys: names_view(final(writes)@),
        }) == noted(
            names_view(txn@),
            under,
            e.view(),
            FootprintS {
                read_keys: names_view(old(reads)@),
                write_keys: names_view(old(writes)@),
            },
        ),
    decreases e.view(),
{
    let ghost ev = e.view();
    let ghost tv = names_view(txn@);
    let ghost acc = FootprintS { read_keys: names_view(reads@), write_keys: names_view(writes@) };
    let kids = e.children();
    assert(kids@.len() == ev.kids.len());
    let plain_case = is_plain_case(e);
    let mut i: usize = 0;
    while i < kids.len()
        invariant
            i <= kids.len(),
            ev == e.view(),
            tv == names_view(txn@),
            kids@.len() == ev.kids.len(),
            expr_refs_view(kids@) == ev.kids,
            plain_case == (ev.head matches HeadS::Case(false, _)),
            (FootprintS { read_keys: names_view(reads@), write_keys: names_view(writes@) })
                == noted_upto(tv, under, ev, acc, i as nat),
        decreases kids.len() - i,
    {
        assert(kids@[i as int].view() == ev.kids[i as int]);
        let inner = under || (plain_case && i % 2 == 1);
        assert(inner == runs_under(ev, i as int, under));
        note(txn, inner, kids[i], reads, writes);
        i = i + 1;
    }
    match &e.node {
        TypedExprNode::Var(n) => {
            if has_name(txn, n) {
                add_name(reads, n);
            }
        },
        TypedExprNode::MutWrite { name, value } => {
            if has_name(txn, name) {
                add_name(writes, name);
                if under {
                    add_name(reads, name);
                }
            }
        },
        _ => {},
    }
}

/// The transactional variables that a block reads, and those it writes.
pub fn collect_footprint(block: &Expr, txn_mut_vars: &Vec<Name>) -> (r: (Vec<Name>, Vec<Name>))
    ensures
        (FootprintS { read_keys: names_view(r.0@), write_keys: names_view(r.1@) })
            == footprint_of(names_view(txn_mut_vars@), block.view()),
{
    let mut reads: Vec<Name> = Vec::new();
    let mut writes: Vec<Name> = Vec::new();
    assert(names_view(reads@) =~= Seq::empty());
    assert(names_view(writes@) =~= Seq::empty());
    note(txn_mut_vars, false, block, &mut reads, &mut writes);
    (reads, writes)
}

/// The first write under a choice, inside `e`, of what is none of `txn`. A guard
/// is not looked into.
pub open spec fn guarded_write(txn: Seq<NameS>, under: bool, e: ExprS) -> Option<NameS>
    decreases e, e.kids.len() + 1,
{
    match e.head {
        HeadS::MutWrite(n) => if under && !txn.contains(n) {
            Some(n)
        } else {
            guarded_upto(txn, under, e, e.kids.len())
        },
        _ => guarded_upto(txn, under, e, e.kids.len()),
    }
}

/// The first such write inside the first `n` subterms of `e`.
pub open spec fn guarded_upto(txn: Seq<NameS>, under: bool, e: ExprS, n: nat) -> Option<NameS>
    decreases e, n,
{
    if n == 0 || n > e.kids.len() {
        None
    } else {
        match guarded_upto(txn, under, e, (n - 1) as nat) {
            Some(x) => Some(x),
            None => if (e.head matches HeadS::Case(false, _)) && (n - 1) % 2 == 0 {
                None
            } else {
                guarded_write(txn, runs_under(e, n - 1, under), e.kids[n - 1])
            },
        }
    }
}

/// The first write under a choice of what is not transactional.
pub fn guarded_non_txn_write(block: &Expr, txn_mut_vars: &Vec<Name>, in_case: bool) -> (r: Option<
    Name,
>)
    ensures
        opt_name_view(r) == guarded_write(names_view(txn_mut_vars@), in_case, block.view()),
    decreases block.view(),
{
    let ghost ev = block.view();
    let ghost tv = names_view(txn_mut_vars@);
    match &block.node {
        TypedExprNode::MutWrite { name, value } => {
            if in_case && !has_name(txn_mut_vars, name) {
                return Some(name.clone());
            }
        },
        _ => {},
    }
    let kids = block.children();
    assert(kids@.len() == ev.kids.len());
    let plain_case = is_plain_case(block);
    let mut found: Option<Name> = None;
    let mut i: usize = 0;
    while i < kids.len()
        invariant
            i <= kids.len(),
            ev == block.view(),
            tv == names_view(txn_mut_vars@),
            kids@.len() == ev.kids.len(),
            expr_refs_view(kids@) == ev.kids,
            plain_case == (ev.head matches HeadS::Case(false, _)),
            opt_name_view(found) == guarded_upto(tv, in_case, ev, i as nat),
        decreases kids.len() - i,
    {
        assert(kids@[i as int].view() == ev.kids[i as int]);
        if found.is_none() && !(plain_case && i % 2 == 0) {
            let inner = in_case || plain_case;
            assert(inner == runs_under(ev, i as int, in_case));
            found = guarded_non_txn_write(kids[i], txn_mut_vars, inner);
        }
        i = i + 1;
    }
    found
}

} // verus!
