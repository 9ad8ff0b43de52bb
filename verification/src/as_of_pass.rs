//! The pass that positions the as-of reads of a program.
use vstd::prelude::*;
use crate::as_of::{
    Join, JoinS, ReadS, as_of_join, as_of_join_s, as_of_read_source, as_of_s, binds_read,
    chain_rest, fields_of, first_fields, histories_s, pair_env, read_chain, read_of, reply_s,
    snapshot_ty, used_reads,
};
use crate::ast::{BuiltinS, Expr, ExprS, HeadS, TypeS, TypedExprNode, exprs_view};
use crate::layout::{cat3, put3};
use crate::make::{
    apply_s, builtin_s, domain_of, fun_or_hole, fun_ty, proj_field_s, proj_index_s, tuple_s,
    tuple_ty, var_s,
};
use crate::name::{NameS, NameSupply, names_view};
use crate::pi::{MappingS, replacement};
use crate::probe::{Pick, PickS, gather, gathered};
use crate::scope::{free_in_value, is_free_in_value, scope_of};
use crate::subst::env_subst;
use crate::substitution::{SubstS, is_live, sub_expr, sub_kids, without};
use crate::swap::{SwapS, swapped, swapped_kids};
use crate::symbolic::lead;
use crate::tree::{expr_refs_view, with_kids};
use crate::txn_terms::item_at;

verus! {

/// How many `let`s a path into `e` can pass.
pub open spec fn let_depth(e: ExprS) -> nat
    decreases e, e.kids.len() + 1,
{
    (if e.head is Let { 1nat } else { 0nat }) + kids_depth(e, e.kids.len())
}

/// How many `let`s a path into one of the first `n` subterms can pass.
pub open spec fn kids_depth(e: ExprS, n: nat) -> nat
    decreases e, n,
{
    if n == 0 || n > e.kids.len() {
        0
    } else {
        let a = kids_depth(e, (n - 1) as nat);
        let b = let_depth(e.kids[n - 1]);
        if a < b { b } else { a }
    }
}

proof fn lemma_kids_depth(e: ExprS, n: nat)
    requires
        n <= e.kids.len(),
    ensures
        forall|i: int| 0 <= i < n ==> let_depth(#[trigger] e.kids[i]) <= kids_depth(e, n),
        forall|d: nat|
            (forall|i: int| 0 <= i < n ==> let_depth(#[trigger] e.kids[i]) <= d) ==> (#[trigger]
            within(kids_depth(e, n), d)),
    decreases n,
{
    if n > 0 {
        lemma_kids_depth(e, (n - 1) as nat);
        assert forall|d: nat|
            (forall|i: int| 0 <= i < n ==> let_depth(#[trigger] e.kids[i]) <= d) implies (#[trigger]
        within(kids_depth(e, n), d)) by {
            assert(let_depth(e.kids[n - 1]) <= d);
            assert(forall|i: int| 0 <= i < n - 1 ==> let_depth(#[trigger] e.kids[i]) <= d);
            assert(within(kids_depth(e, (n - 1) as nat), d));
        }
    }
}

spec fn within(a: nat, b: nat) -> bool {
    a <= b
}

proof fn lemma_kid_depth(e: ExprS, i: int)
    requires
        0 <= i < e.kids.len(),
    ensures
        let_depth(e.kids[i]) + (if e.head is Let { 1nat } else { 0nat }) <= let_depth(e),
{
    lemma_kids_depth(e, e.kids.len());
}

proof fn lemma_depth_within(e: ExprS, d: nat)
    requires
        forall|i: int| 0 <= i < e.kids.len() ==> let_depth(#[trigger] e.kids[i]) <= d,
    ensures
        let_depth(e) <= d + (if e.head is Let { 1nat } else { 0nat }),
{
    lemma_kids_depth(e, e.kids.len());
    assert(within(kids_depth(e, e.kids.len()), d));
}

/// A replacement by terms without `let`s passes no more `let`s.
proof fn lemma_swapped_depth(s: SwapS, env: Map<NameS, ExprS>, e: ExprS)
    requires
        forall|n: NameS| #[trigger] env.dom().contains(n) ==> let_depth(env[n]) == 0,
    ensures
        let_depth(swapped(s, env, e)) <= let_depth(e),
    decreases e,
{
    let swaps = s.key(e) matches Some(n) && env.dom().contains(n);
    if !swaps {
        let out = swapped(s, env, e);
        assert(out.kids == swapped_kids(s, env, e));
        let own: nat = if e.head is Let { 1 } else { 0 };
        assert forall|i: int| 0 <= i < out.kids.len() implies let_depth(#[trigger] out.kids[i])
            <= let_depth(e) - own by {
            lemma_swapped_depth(s, env, e.kids[i]);
            lemma_kid_depth(e, i);
        }
        lemma_depth_within(out, (let_depth(e) - own) as nat);
    }
}

/// A substitution of terms without `let`s passes no more `let`s.
proof fn lemma_sub_depth(sigma: SubstS, e: ExprS)
    requires
        forall|n: NameS| #[trigger]
            sigma.dom().contains(n) ==> (sigma[n] matches MappingS::Discharge(t) && let_depth(t)
                == 0),
    ensures
        let_depth(sub_expr(true, sigma, e)) <= let_depth(e),
    decreases e,
{
    if is_live(sigma, e) && !(e.head is Var && sigma.dom().contains(e.head->Var_0)) {
        let out = sub_expr(true, sigma, e);
        let ks = sub_kids(true, sigma, e);
        assert(out.kids == ks);
        assert(out.head is Let <==> e.head is Let);
        let own: nat = if e.head is Let { 1 } else { 0 };
        assert forall|i: int| 0 <= i < out.kids.len() implies let_depth(#[trigger] out.kids[i])
            <= let_depth(e) - own by {
            lemma_sub_depth(without(sigma, scope_of(e.head, i)), e.kids[i]);
            lemma_kid_depth(e, i);
        }
        lemma_depth_within(out, (let_depth(e) - own) as nat);
    } else if is_live(sigma, e) {
        assert(let_depth(replacement(sigma[e.head->Var_0], e.ty())) == 0);
    }
}

proof fn lemma_chain_depth(e: ExprS)
    ensures
        let_depth(chain_rest(e)) + read_chain(e).len() <= let_depth(e),
        forall|i: int|
            0 <= i < read_chain(e).len() ==> let_depth((#[trigger] read_chain(e)[i]).hist)
                < let_depth(e),
    decreases e,
{
    if binds_read(e) {
        let rest = read_chain(e.kids[1]);
        lemma_chain_depth(e.kids[1]);
        lemma_kid_depth(e, 0);
        lemma_kid_depth(e, 1);
        lemma_kid_depth(e.kids[0], 1);
        assert(read_chain(e) == seq![read_of(e)] + rest);
        assert forall|i: int| 0 <= i < read_chain(e).len() implies let_depth(
            (#[trigger] read_chain(e)[i]).hist,
        ) < let_depth(e) by {
            if i > 0 {
                assert(read_chain(e)[i] == rest[i - 1]);
            }
        }
    }
}

proof fn lemma_used_among(rs: Seq<ReadS>, body: ExprS, d: nat)
    requires
        forall|i: int| 0 <= i < rs.len() ==> let_depth((#[trigger] rs[i]).hist) < d,
    ensures
        forall|i: int|
            0 <= i < used_reads(rs, body).len() ==> let_depth(
                (#[trigger] used_reads(rs, body)[i]).hist,
            ) < d,
        used_reads(rs, body).len() <= rs.len(),
    decreases rs.len(),
{
    if rs.len() > 0 {
        lemma_used_among(rs.drop_last(), body, d);
    }
}

proof fn lemma_leaf_depth(e: ExprS)
    requires
        e.kids.len() == 0,
        !(e.head is Let),
    ensures
        let_depth(e) == 0,
{
}

proof fn lemma_pair_depth(head: HeadS, a: ExprS, b: ExprS, tys: Seq<TypeS>, annotated: bool, d: nat)
    requires
        !(head is Let),
        let_depth(a) <= d,
        let_depth(b) <= d,
    ensures
        let_depth(ExprS { head, kids: seq![a, b], tys, annotated }) <= d,
{
    let e = ExprS { head, kids: seq![a, b], tys, annotated };
    lemma_depth_within(e, d);
}

proof fn lemma_one_depth(head: HeadS, a: ExprS, tys: Seq<TypeS>, annotated: bool, d: nat)
    requires
        !(head is Let),
        let_depth(a) <= d,
    ensures
        let_depth(ExprS { head, kids: seq![a], tys, annotated }) <= d,
{
    let e = ExprS { head, kids: seq![a], tys, annotated };
    lemma_depth_within(e, d);
}

proof fn lemma_applied_depth(a: ExprS, f: ExprS, ty: TypeS, d: nat)
    requires
        let_depth(a) <= d,
        f.kids.len() == 0,
        !(f.head is Let),
    ensures
        let_depth(apply_s(a, f, ty)) <= d,
{
    lemma_pair_depth(HeadS::Apply, f, a, seq![ty], false, d);
}

proof fn lemma_fields_depth(rs: Seq<ReadS>, snap: ExprS)
    requires
        let_depth(snap) == 0,
    ensures
        forall|n: NameS| #[trigger]
            fields_of(rs, snap).dom().contains(n) ==> let_depth(fields_of(rs, snap)[n]) == 0,
        forall|n: NameS| #[trigger]
            first_fields(rs, snap).dom().contains(n) ==> let_depth(first_fields(rs, snap)[n]) == 0,
    decreases rs.len(),
{
    if rs.len() > 0 {
        lemma_fields_depth(rs.drop_last(), snap);
        let r = rs.last();
        lemma_applied_depth(
            snap,
            proj_field_s(r.field, fun_ty(snap.ty(), r.value)),
            r.value,
            0,
        );
        let a = fields_of(rs.drop_last(), snap);
        let b = first_fields(rs.drop_last(), snap);
        assert forall|n: NameS| #[trigger] fields_of(rs, snap).dom().contains(n) implies let_depth(
            fields_of(rs, snap)[n],
        ) == 0 by {
            if n != r.name {
                assert(a.dom().contains(n));
            }
        }
        assert forall|n: NameS| #[trigger]
            first_fields(rs, snap).dom().contains(n) implies let_depth(first_fields(rs, snap)[n])
            == 0 by {
            if n != r.name {
                assert(b.dom().contains(n));
            } else if b.dom().contains(n) {
                assert(let_depth(b[n]) == 0);
            }
        }
    }
}

proof fn lemma_as_of_depth(trigger: ExprS, source: ExprS, c: TypeS, d: nat)
    requires
        let_depth(trigger) <= d,
        let_depth(source) <= d,
    ensures
        let_depth(as_of_s(trigger, source, c)) <= d,
{
    let out = fun_ty(domain_of(trigger.ty())->0, c);
    let arg_ty = tuple_ty(seq![trigger.ty(), source.ty()]);
    lemma_pair_depth(HeadS::Tuple, trigger, source, seq![arg_ty], false, d);
    lemma_applied_depth(
        tuple_s(seq![trigger, source], arg_ty),
        builtin_s(BuiltinS::AsOf, fun_ty(arg_ty, out)),
        out,
        d,
    );
}

proof fn lemma_histories_depth(rs: Seq<ReadS>, d: nat)
    requires
        forall|i: int| 0 <= i < rs.len() ==> let_depth((#[trigger] rs[i]).hist) <= d,
    ensures
        let_depth(histories_s(rs)) <= d,
{
    let e = histories_s(rs);
    assert forall|i: int| 0 <= i < e.kids.len() implies let_depth(#[trigger] e.kids[i]) <= d by {
        assert(e.kids[i] == rs[i].hist);
    }
    lemma_depth_within(e, d);
}

/// A join passes fewer `let`s.
proof fn lemma_join_depth(e: ExprS, uid: u64)
    ensures
        as_of_join_s(e, uid) matches JoinS::Rewritten(t, minted) ==> let_depth(t) < let_depth(e),
{
    if let JoinS::Rewritten(t, minted) = as_of_join_s(e, uid) {
        let rs = read_chain(e);
        let rest = chain_rest(e);
        let trigger = rest.kids[0];
        let lam = rest.kids[1];
        let body = lam.kids[0];
        let used = used_reads(rs, body);
        let d = (let_depth(e) - 1) as nat;
        lemma_chain_depth(e);
        lemma_used_among(rs, body, let_depth(e));
        lemma_kid_depth(rest, 0);
        lemma_kid_depth(rest, 1);
        lemma_kid_depth(lam, 0);
        lemma_histories_depth(used, d);
        let param = lam.head->Lambda_0;
        let req = lam.tys[lead(lam)];
        if free_in_value(param, body) {
            let source = if used.len() == 1 { used[0].hist } else { histories_s(used) };
            let snap_ty = if used.len() == 1 { used[0].value } else { snapshot_ty(used) };
            let as_of = as_of_s(trigger, source, snap_ty);
            lemma_as_of_depth(trigger, source, snap_ty, d);
            let pair_ty = tuple_ty(seq![req, snap_ty]);
            let arg_ty = tuple_ty(seq![trigger.ty(), as_of.ty()]);
            let zip_out = fun_ty(domain_of(trigger.ty())->0, pair_ty);
            lemma_pair_depth(HeadS::Tuple, trigger, as_of, seq![arg_ty], false, d);
            let zip_fn = builtin_s(BuiltinS::Zip, fun_ty(arg_ty, zip_out));
            lemma_applied_depth(tuple_s(seq![trigger, as_of], arg_ty), zip_fn, zip_out, d);
            let p = NameS::Fresh("__zp"@, uid);
            let env = pair_env(param, req, used, p);
            let pair = var_s(p, pair_ty);
            lemma_leaf_depth(pair);
            lemma_applied_depth(pair, proj_index_s(1, fun_ty(pair_ty, snap_ty)), snap_ty, 0);
            lemma_applied_depth(pair, proj_index_s(0, fun_ty(pair_ty, req)), req, 0);
            lemma_fields_depth(used, item_at(pair, 1, snap_ty));
            assert forall|n: NameS| #[trigger] env.dom().contains(n) implies let_depth(env[n])
                == 0 by {}
            lemma_sub_depth(env_subst(env, body), body);
            let b = sub_expr(true, env_subst(env, body), body);
            lemma_one_depth(
                HeadS::Lambda(p),
                b,
                seq![fun_or_hole(pair_ty, b.ty()), pair_ty],
                false,
                d,
            );
            lemma_pair_depth(
                HeadS::Compose,
                apply_s(tuple_s(seq![trigger, as_of], arg_ty), zip_fn, zip_out),
                reply_s(p, pair_ty, b),
                seq![e.ty()],
                false,
                d,
            );
        } else if used.len() == 1 {
            let r = used[0];
            let as_of = as_of_s(trigger, r.hist, r.value);
            lemma_as_of_depth(trigger, r.hist, r.value, d);
            lemma_one_depth(
                HeadS::Lambda(r.name),
                body,
                seq![fun_or_hole(r.value, body.ty()), r.value],
                false,
                d,
            );
            lemma_pair_depth(
                HeadS::Compose,
                as_of,
                reply_s(r.name, r.value, body),
                seq![e.ty()],
                false,
                d,
            );
        } else {
            let snap = NameS::Fresh("__snap"@, uid);
            let ty = snapshot_ty(used);
            let as_of = as_of_s(trigger, histories_s(used), ty);
            lemma_as_of_depth(trigger, histories_s(used), ty, d);
            lemma_leaf_depth(var_s(snap, ty));
            lemma_fields_depth(used, var_s(snap, ty));
            let env = first_fields(used, var_s(snap, ty));
            lemma_swapped_depth(SwapS::Reference, env, body);
            let b = swapped(SwapS::Reference, env, body);
            lemma_one_depth(
                HeadS::Lambda(snap),
                b,
                seq![fun_or_hole(ty, b.ty()), ty],
                false,
                d,
            );
            lemma_pair_depth(
                HeadS::Compose,
                as_of,
                reply_s(snap, ty, b),
                seq![e.ty()],
                false,
                d,
            );
        }
    }
}

/// `e` with each reply chain made an as-of join, from the outside in, and the
/// next identity to mint. There is none where a binder would capture what is put
/// in.
pub open spec fn joined_reads(e: ExprS, uid: u64) -> Option<(ExprS, u64)>
    decreases let_depth(e), e, e.kids.len() + 1,
    via joined_reads_decreases
{
    match as_of_join_s(e, uid) {
        JoinS::Kept => with_joined_kids(e, joined_kids(e, uid, e.kids.len())),
        JoinS::Rewritten(t, minted) => with_joined_kids(
            t,
            joined_kids(t, if minted { NameSupply::after(uid) } else { uid }, t.kids.len()),
        ),
        JoinS::Captured => None,
    }
}

pub open spec fn with_joined_kids(e: ExprS, ks: Option<(Seq<ExprS>, u64)>) -> Option<(ExprS, u64)> {
    match ks {
        Some((k, u)) => Some((with_kids(e, k), u)),
        None => None,
    }
}

/// What becomes of the first `n` subterms of `e`.
pub open spec fn joined_kids(e: ExprS, uid: u64, n: nat) -> Option<(Seq<ExprS>, u64)>
    decreases let_depth(e), e, n,
    via joined_kids_decreases
{
    if n == 0 || n > e.kids.len() {
        Some((Seq::empty(), uid))
    } else {
        match joined_kids(e, uid, (n - 1) as nat) {
            Some((ks, u)) => match joined_reads(e.kids[n - 1], u) {
                Some((k, v)) => Some((ks.push(k), v)),
                None => None,
            },
            None => None,
        }
    }
}

#[via_fn]
proof fn joined_reads_decreases(e: ExprS, uid: u64) {
    lemma_join_depth(e, uid);
}

#[via_fn]
proof fn joined_kids_decreases(e: ExprS, uid: u64, n: nat) {
    if 0 < n <= e.kids.len() {
        lemma_kid_depth(e, n - 1);
        assert(decreases_to!(e => e.kids[n - 1]));
    }
}

/// Makes each reply chain of `e` an as-of join, from the outside in.
fn rewrite_go(e: &Expr, names: &mut NameSupply) -> (r: Option<Expr>)
    ensures
        match joined_reads(e.view(), old(names).next) {
            Some((t, u)) => (r matches Some(x) && x.view() == t) && final(names).next == u,
            None => r is None,
        },
    decreases let_depth(e.view()), e.view(), 1int,
{
    let ghost start = names.next;
    proof {
        lemma_join_depth(e.view(), start);
    }
    match as_of_join(e, names) {
        Join::Kept => rewrite_kids(e, names),
        Join::Rewritten(t) => rewrite_kids(&t, names),
        Join::Captured => None,
    }
}

#[verifier::loop_isolation(false)]
fn rewrite_kids(e: &Expr, names: &mut NameSupply) -> (r: Option<Expr>)
    ensures
        match joined_kids(e.view(), old(names).next, e.view().kids.len()) {
            Some((ks, u)) => (r matches Some(x) && x.view() == with_kids(e.view(), ks))
                && final(names).next == u,
            None => r is None,
        },
    decreases let_depth(e.view()), e.view(), 0int,
{
    let ghost ev = e.view();
    let ghost start = names.next;
    let kids = e.children();
    assert(kids@.len() == ev.kids.len());
    let mut out: Vec<Expr> = Vec::new();
    let mut i: usize = 0;
    assert(exprs_view(out@) =~= Seq::empty());
    while i < kids.len()
        invariant
            i <= kids.len(),
            out.len() == i,
            joined_kids(ev, start, i as nat) == Some((exprs_view(out@), names.next)),
        decreases kids.len() - i,
    {
        assert(kids@[i as int].view() == ev.kids[i as int]);
        proof {
            lemma_kid_depth(ev, i as int);
            assert(decreases_to!(ev => ev.kids[i as int]));
        }
        let ghost before = out@;
        match rewrite_go(kids[i], names) {
            Some(k) => {
                out.push(k);
                assert(exprs_view(out@) =~= exprs_view(before).push(k.view()));
            },
            None => {
                proof {
                    lemma_joined_none(ev, start, (i + 1) as nat, ev.kids.len());
                }
                return None;
            },
        }
        i = i + 1;
    }
    Some(e.with_children(out))
}

proof fn lemma_joined_none(e: ExprS, uid: u64, i: nat, n: nat)
    requires
        0 < i <= n <= e.kids.len(),
        joined_kids(e, uid, i) is None,
    ensures
        joined_kids(e, uid, n) is None,
    decreases n,
{
    if i < n {
        lemma_joined_none(e, uid, i, (n - 1) as nat);
    }
}

/// `e` without the as-of reads that nothing reads.
pub open spec fn live_reads(e: ExprS) -> ExprS
    decreases e, 1int,
{
    if binds_read(e) && !free_in_value(e.head->Let_0, e.kids[1]) {
        live_reads(e.kids[1])
    } else {
        with_kids(e, live_kids(e))
    }
}

pub open spec fn live_kids(e: ExprS) -> Seq<ExprS>
    decreases e, 0int,
{
    Seq::new(
        e.kids.len(),
        |i: int|
            if 0 <= i < e.kids.len() {
                live_reads(e.kids[i])
            } else {
                arbitrary()
            },
    )
}

/// Drops the as-of reads that nothing reads.
pub fn drop_dead_as_of_reads(e: &Expr) -> (r: Expr)
    ensures
        r.view() == live_reads(e.view()),
    decreases e.view(),
{
    let ghost ev = e.view();
    match &e.node {
        TypedExprNode::Let { binding, bound_expr, body } => {
            assert(ev.kids[0] == bound_expr.view());
            assert(ev.kids[1] == body.view());
            assert(decreases_to!(ev => ev.kids[1]));
            if as_of_read_source(bound_expr).is_some() && !is_free_in_value(&binding.name, body) {
                return drop_dead_as_of_reads(body);
            }
        },
        _ => {},
    }
    let kids = e.children();
    assert(kids@.len() == ev.kids.len());
    let mut out: Vec<Expr> = Vec::new();
    let mut i: usize = 0;
    while i < kids.len()
        invariant
            i <= kids.len(),
            ev == e.view(),
            kids@.len() == ev.kids.len(),
            expr_refs_view(kids@) == ev.kids,
            out.len() == i,
            forall|j: int| 0 <= j < i ==> (#[trigger] out@[j]).view() == live_reads(ev.kids[j]),
        decreases kids.len() - i,
    {
        assert(kids@[i as int].view() == ev.kids[i as int]);
        out.push(drop_dead_as_of_reads(kids[i]));
        i = i + 1;
    }
    assert(exprs_view(out@) =~= live_kids(ev));
    e.with_children(out)
}

/// What the pass makes of a program.
pub open spec fn positioned(e: ExprS, uid: u64) -> ExprS {
    match joined_reads(e, uid) {
        Some((t, u)) => live_reads(t),
        None => e,
    }
}

/// What is said of a read that no loop positions.
pub open spec fn unpaired_text(hist: NameS) -> Seq<char> {
    cat3(
        "the fed-out read of mutable variable `"@,
        hist.base(),
        "` was not paired with a reading loop — an as-of read is positioned by the loop that indexes it (transact_phase::rewrite_as_of_reads)"@,
    )
}

/// Whether `r` is how positioning the as-of reads of `e` comes out: the program
/// with its reads positioned, or what is said of the first read that is left.
pub open spec fn comes_out_positioned(r: Result<Expr, String>, e: ExprS, uid: u64) -> bool {
    let out = positioned(e, uid);
    let left = gathered(PickS::Sampled, out);
    match r {
        Ok(x) => left.len() == 0 && x.view() == out,
        Err(m) => left.len() > 0 && m@ == unpaired_text(left[0]),
    }
}

/// Positions the as-of reads of any program, as `rewrite_as_of_reads` does.
/// Where a binder would capture what is put in there is no result, and the
/// supply is as it was.
pub fn try_rewrite_as_of_reads(expr: &Expr, names: &mut NameSupply) -> (r: Option<
    Result<Expr, String>,
>)
    ensures
        match joined_reads(expr.view(), old(names).next) {
            Some((t, u)) => final(names).next == u && (r matches Some(x) && comes_out_positioned(
                x,
                expr.view(),
                old(names).next,
            )),
            None => r is None && final(names).next == old(names).next,
        },
{
    let start: u64 = names.next;
    match rewrite_go(expr, names) {
        Some(t) => {
            let out = drop_dead_as_of_reads(&t);
            let left = gather(&Pick::Sampled, &out);
            if left.len() == 0 {
                Some(Ok(out))
            } else {
                assert(names_view(left@)[0] == left@[0]@);
                Some(
                    Err(
                        put3(
                            "the fed-out read of mutable variable `",
                            left[0].base().as_str(),
                            "` was not paired with a reading loop — an as-of read is positioned by the loop that indexes it (transact_phase::rewrite_as_of_reads)",
                        ),
                    ),
                )
            }
        },
        None => {
            names.next = start;
            None
        },
    }
}

/// Positions the as-of reads of a program: each chain of them over a broadcast
/// becomes an as-of join, and one that nothing reads is dropped. A read that is
/// left has no loop to position it. No binder may capture what is put in.
pub fn rewrite_as_of_reads(expr: &Expr, names: &mut NameSupply) -> (r: Result<Expr, String>)
    requires
        joined_reads(expr.view(), old(names).next) is Some,
    ensures
        joined_reads(expr.view(), old(names).next) matches Some((t, u)) && final(names).next == u,
        comes_out_positioned(r, expr.view(), old(names).next),
{
    match try_rewrite_as_of_reads(expr, names) {
        Some(r) => r,
        None => Ok(expr.clone()),
    }
}

} // verus!
