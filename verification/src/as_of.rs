//! Reads of a mutable variable's history at the position of a reading loop.
use vstd::prelude::*;
use crate::ast::{
    Builtin, BuiltinS, Expr, ExprS, HeadS, Type, TypeS, TypedBinding, TypedExprNode, exprs_view,
    field_exprs_view, field_names_view, field_types_view,
};
use crate::capture::{discharged, opt_expr_view};
use crate::make::{
    apply_s, builtin_s, codomain_of, compose_s, domain_of, fun_or_hole, fun_ty, lambda_s,
    record_s, record_ty, tuple_s, tuple_ty, txn_ty, var_s,
};
use crate::name::{Name, NameS, NameSupply};
use crate::name_map::NameMap;
use crate::probe::{builtin_operand, operand_of};
use crate::scope::{free_in_value, is_free_in_value};
use crate::subst::env_view;
use crate::substitution::Subst;
use crate::swap::{Swap, SwapS, swap_in, swapped};
use crate::symbolic::lead;
use crate::txn_terms::{
    apply_ty, builtin_ty, exprs2, field_at, item_at, proj_named, proj_tuple, record_type,
    tcompose, trecord, ttuple, tuple_type, tvar, types2,
};

verus! {

/// One read of a reply chain: its binder, the history it reads, the field that
/// the history takes in a snapshot, and the type of its values.
pub struct ReadS {
    pub name: NameS,
    pub hist: ExprS,
    pub field: Seq<char>,
    pub value: TypeS,
}

/// The history that a bound term reads at an unsupplied position.
pub open spec fn as_of_source(bound: ExprS) -> Option<ExprS> {
    if builtin_operand(BuiltinS::AsOfRead, bound) is Some && domain_of(bound.kids[1].ty()) == Some(
        txn_ty(),
    ) {
        Some(bound.kids[1])
    } else {
        None
    }
}

/// The read that a `let` of a reply chain makes.
pub open spec fn read_of(e: ExprS) -> ReadS {
    let hist = as_of_source(e.kids[0])->0;
    ReadS {
        name: e.head->Let_0,
        hist,
        field: (hist.head->Var_0).field_key(),
        value: codomain_of(hist.ty())->0,
    }
}

/// Whether `e` binds an as-of read.
pub open spec fn binds_read(e: ExprS) -> bool {
    e.head is Let && e.kids.len() == 2 && as_of_source(e.kids[0]) is Some
}

/// The reads that `e` starts with, outermost first.
pub open spec fn read_chain(e: ExprS) -> Seq<ReadS>
    decreases e,
{
    if binds_read(e) {
        seq![read_of(e)] + read_chain(e.kids[1])
    } else {
        Seq::empty()
    }
}

/// What stands below the reads that `e` starts with.
pub open spec fn chain_rest(e: ExprS) -> ExprS
    decreases e,
{
    if binds_read(e) {
        chain_rest(e.kids[1])
    } else {
        e
    }
}

/// The reads of `rs` that `body` names.
pub open spec fn used_reads(rs: Seq<ReadS>, body: ExprS) -> Seq<ReadS>
    decreases rs.len(),
{
    if rs.len() == 0 {
        Seq::empty()
    } else if free_in_value(rs.last().name, body) {
        used_reads(rs.drop_last(), body).push(rs.last())
    } else {
        used_reads(rs.drop_last(), body)
    }
}

/// `as_of((trigger, source))`: the source's value at each position of the trigger.
pub open spec fn as_of_s(trigger: ExprS, source: ExprS, codomain: TypeS) -> ExprS {
    let out = fun_ty(domain_of(trigger.ty())->0, codomain);
    let arg_ty = tuple_ty(seq![trigger.ty(), source.ty()]);
    apply_s(
        tuple_s(seq![trigger, source], arg_ty),
        builtin_s(BuiltinS::AsOf, fun_ty(arg_ty, out)),
        out,
    )
}

/// `λ name → body`, typed where both ends are known.
pub open spec fn reply_s(name: NameS, ty: TypeS, body: ExprS) -> ExprS {
    lambda_s(name, ty, body, fun_or_hole(ty, body.ty()))
}

pub open spec fn read_fields(rs: Seq<ReadS>) -> Seq<Seq<char>> {
    Seq::new(rs.len(), |i: int| rs[i].field)
}

/// The type of a snapshot of these reads.
pub open spec fn snapshot_ty(rs: Seq<ReadS>) -> TypeS {
    record_ty(read_fields(rs), Seq::new(rs.len(), |i: int| rs[i].value))
}

/// The histories of these reads as one record.
pub open spec fn histories_s(rs: Seq<ReadS>) -> ExprS {
    record_s(
        read_fields(rs),
        Seq::new(rs.len(), |i: int| rs[i].hist),
        record_ty(read_fields(rs), Seq::new(rs.len(), |i: int| rs[i].hist.ty())),
    )
}

/// What one of these reads becomes, where `snap` is the snapshot.
pub open spec fn fields_of(rs: Seq<ReadS>, snap: ExprS) -> Map<NameS, ExprS>
    decreases rs.len(),
{
    if rs.len() == 0 {
        Map::empty()
    } else {
        fields_of(rs.drop_last(), snap).insert(
            rs.last().name,
            field_at(snap, rs.last().field, rs.last().value),
        )
    }
}

/// As `fields_of`, the first read of a name deciding.
pub open spec fn first_fields(rs: Seq<ReadS>, snap: ExprS) -> Map<NameS, ExprS>
    decreases rs.len(),
{
    if rs.len() == 0 {
        Map::empty()
    } else {
        let before = first_fields(rs.drop_last(), snap);
        if before.dom().contains(rs.last().name) {
            before
        } else {
            before.insert(rs.last().name, field_at(snap, rs.last().field, rs.last().value))
        }
    }
}

/// A reply that reads one mutable variable.
pub open spec fn single_s(trigger: ExprS, r: ReadS, body: ExprS, out_ty: TypeS) -> ExprS {
    let as_of = as_of_s(trigger, r.hist, r.value);
    if body.head == HeadS::Var(r.name) {
        as_of
    } else {
        compose_s(seq![as_of, reply_s(r.name, r.value, body)], out_ty)
    }
}

/// A reply that reads several mutable variables, off one snapshot.
pub open spec fn snapshot_s(
    trigger: ExprS,
    rs: Seq<ReadS>,
    body: ExprS,
    out_ty: TypeS,
    uid: u64,
) -> ExprS {
    let snap = NameS::Fresh("__snap"@, uid);
    let ty = snapshot_ty(rs);
    compose_s(
        seq![
            as_of_s(trigger, histories_s(rs), ty),
            reply_s(
                snap,
                ty,
                swapped(SwapS::Reference, first_fields(rs, var_s(snap, ty)), body),
            ),
        ],
        out_ty,
    )
}

/// What the names of a reply read of the pair of a request and a snapshot.
pub open spec fn pair_env(param: NameS, req: TypeS, rs: Seq<ReadS>, p: NameS) -> Map<NameS, ExprS> {
    let snap_ty = if rs.len() == 1 { rs[0].value } else { snapshot_ty(rs) };
    let pair = var_s(p, tuple_ty(seq![req, snap_ty]));
    let snap = item_at(pair, 1, snap_ty);
    let start = Map::<NameS, ExprS>::empty().insert(param, item_at(pair, 0, req));
    if rs.len() == 1 {
        start.insert(rs[0].name, snap)
    } else {
        start.union_prefer_right(fields_of(rs, snap))
    }
}

/// A reply that reads its request beside mutable variables: the request zipped
/// with the snapshot. There is none where a binder of the body would capture the
/// pair.
pub open spec fn zip_read_s(
    trigger: ExprS,
    param: NameS,
    req: TypeS,
    rs: Seq<ReadS>,
    body: ExprS,
    out_ty: TypeS,
    uid: u64,
) -> Option<ExprS> {
    let source = if rs.len() == 1 { rs[0].hist } else { histories_s(rs) };
    let snap_ty = if rs.len() == 1 { rs[0].value } else { snapshot_ty(rs) };
    let as_of = as_of_s(trigger, source, snap_ty);
    let pair_ty = tuple_ty(seq![req, snap_ty]);
    let arg_ty = tuple_ty(seq![trigger.ty(), as_of.ty()]);
    let zip_out = fun_ty(domain_of(trigger.ty())->0, pair_ty);
    let zip = apply_s(
        tuple_s(seq![trigger, as_of], arg_ty),
        builtin_s(BuiltinS::Zip, fun_ty(arg_ty, zip_out)),
        zip_out,
    );
    let p = NameS::Fresh("__zp"@, uid);
    match discharged(pair_env(param, req, rs, p), body) {
        Some(b) => Some(compose_s(seq![zip, reply_s(p, pair_ty, b)], out_ty)),
        None => None,
    }
}

/// What becomes of a node that heads a reply chain.
pub enum JoinS {
    /// It heads none.
    Kept,
    /// The rewritten reply, and whether a name was minted for it.
    Rewritten(ExprS, bool),
    /// A binder would capture what is put in.
    Captured,
}

/// The as-of join of a chain of reads over a broadcast.
pub open spec fn as_of_join_s(e: ExprS, uid: u64) -> JoinS {
    let rs = read_chain(e);
    let rest = chain_rest(e);
    if rs.len() > 0 && rest.head is Compose && rest.kids.len() == 2 && rest.kids[1].head is Lambda
        && rest.kids[1].kids.len() == 1 && domain_of(rest.kids[0].ty()) is Some {
        let trigger = rest.kids[0];
        let lam = rest.kids[1];
        let body = lam.kids[0];
        let used = used_reads(rs, body);
        let param = lam.head->Lambda_0;
        if used.len() == 0 {
            JoinS::Kept
        } else if free_in_value(param, body) {
            match zip_read_s(trigger, param, lam.tys[lead(lam)], used, body, e.ty(), uid) {
                Some(r) => JoinS::Rewritten(r, true),
                None => JoinS::Captured,
            }
        } else if used.len() == 1 {
            JoinS::Rewritten(single_s(trigger, used[0], body, e.ty()), false)
        } else {
            JoinS::Rewritten(snapshot_s(trigger, used, body, e.ty(), uid), true)
        }
    } else {
        JoinS::Kept
    }
}

// ---- the executable side ----

pub struct BoundRead {
    pub name: Name,
    pub hist_read: Expr,
    pub field: String,
    pub value_ty: Type,
}

impl BoundRead {
    pub open spec fn view(&self) -> ReadS {
        ReadS {
            name: self.name@,
            hist: self.hist_read.view(),
            field: self.field@,
            value: self.value_ty.view(),
        }
    }
}

pub open spec fn reads_view(v: Seq<BoundRead>) -> Seq<ReadS> {
    Seq::new(v.len(), |i: int| v[i].view())
}

pub open spec fn read_refs_view(v: Seq<&BoundRead>) -> Seq<ReadS> {
    Seq::new(v.len(), |i: int| v[i].view())
}

/// The history that a bound term reads at an unsupplied position, and its name.
pub fn as_of_read_source(bound: &Expr) -> (r: Option<(&Expr, &Name)>)
    ensures
        match r {
            Some((h, n)) => as_of_source(bound.view()) == Some(h.view()) && h.view().head
                == HeadS::Var(n@),
            None => as_of_source(bound.view()) is None,
        },
{
    match operand_of(&Builtin::AsOfRead, bound) {
        Some(n) => match &bound.node {
            TypedExprNode::Apply { function, argument } => {
                assert(bound.view().kids[1] == argument.view());
                assert(argument.view().tys[0] == argument.ty.view());
                match argument.ty.domain() {
                    Some(Type::Txn) => {
                        assert(Type::Txn.view() == txn_ty());
                        Some((&**argument, n))
                    },
                    Some(other) => {
                        assert(other.view().head !is Txn);
                        None
                    },
                    None => None,
                }
            },
            _ => None,
        },
        None => None,
    }
}

fn build_as_of(trigger: &Expr, source: &Expr, codomain: Type) -> (r: Option<Expr>)
    ensures
        opt_expr_view(r) == (if domain_of(trigger.view().ty()) is Some {
            Some(as_of_s(trigger.view(), source.view(), codomain.view()))
        } else {
            None
        }),
{
    assert(trigger.view().tys[0] == trigger.ty.view());
    assert(source.view().tys[0] == source.ty.view());
    match trigger.ty.domain() {
        Some(b) => {
            let out = Type::fun(b, codomain);
            let arg_ty = tuple_type(types2(trigger.ty.clone(), source.ty.clone()));
            let arg = ttuple(exprs2(trigger.clone(), source.clone()), arg_ty.clone());
            let f = builtin_ty(Builtin::AsOf, Type::fun(arg_ty, out.clone()));
            Some(apply_ty(arg, f, out))
        },
        None => None,
    }
}

/// The snapshot type and the record of histories of these reads.
fn snapshot_parts(used: &Vec<&BoundRead>) -> (r: (Type, Expr))
    ensures
        r.0.view() == snapshot_ty(read_refs_view(used@)),
        r.1.view() == histories_s(read_refs_view(used@)),
{
    let ghost rs = read_refs_view(used@);
    let mut tys: Vec<(String, Type)> = Vec::new();
    let mut hist_tys: Vec<(String, Type)> = Vec::new();
    let mut hists: Vec<(String, Expr)> = Vec::new();
    let mut i: usize = 0;
    while i < used.len()
        invariant
            i <= used.len(),
            rs == read_refs_view(used@),
            tys.len() == i,
            hist_tys.len() == i,
            hists.len() == i,
            forall|j: int|
                0 <= j < i ==> (#[trigger] tys@[j]).0@ == rs[j].field && tys@[j].1.view()
                    == rs[j].value,
            forall|j: int|
                0 <= j < i ==> (#[trigger] hist_tys@[j]).0@ == rs[j].field && hist_tys@[j].1.view()
                    == rs[j].hist.ty(),
            forall|j: int|
                0 <= j < i ==> (#[trigger] hists@[j]).0@ == rs[j].field && hists@[j].1.view()
                    == rs[j].hist,
        decreases used.len() - i,
    {
        let r = used[i];
        assert(rs[i as int] == r.view());
        assert(r.hist_read.view().tys[0] == r.hist_read.ty.view());
        tys.push((r.field.clone(), r.value_ty.clone()));
        hist_tys.push((r.field.clone(), r.hist_read.ty.clone()));
        hists.push((r.field.clone(), r.hist_read.clone()));
        i = i + 1;
    }
    assert(field_names_view(tys@) =~= read_fields(rs));
    assert(field_names_view(hist_tys@) =~= read_fields(rs));
    assert(field_names_view(hists@) =~= read_fields(rs));
    assert(field_types_view(tys@) =~= Seq::new(rs.len(), |i: int| rs[i].value));
    assert(field_types_view(hist_tys@) =~= Seq::new(rs.len(), |i: int| rs[i].hist.ty()));
    assert(field_exprs_view(hists@) =~= Seq::new(rs.len(), |i: int| rs[i].hist));
    (record_type(tys), trecord(hists, record_type(hist_tys)))
}

fn build_single(trigger: &Expr, read: &BoundRead, lam_body: &Expr, out_ty: Type) -> (r: Option<Expr>)
    ensures
        opt_expr_view(r) == (if domain_of(trigger.view().ty()) is Some {
            Some(single_s(trigger.view(), read.view(), lam_body.view(), out_ty.view()))
        } else {
            None
        }),
{
    match build_as_of(trigger, &read.hist_read, read.value_ty.clone()) {
        Some(as_of) => {
            let identity = match &lam_body.node {
                TypedExprNode::Var(n) => n.same(&read.name),
                _ => false,
            };
            if identity {
                return Some(as_of);
            }
            let reply = Expr::lambda(read.name.clone(), read.value_ty.clone(), lam_body.clone());
            Some(tcompose(exprs2(as_of, reply), out_ty))
        },
        None => None,
    }
}

/// The term of each read, off the snapshot; the first read of a name decides.
fn first_read_terms(used: &Vec<&BoundRead>, snap: &Expr) -> (r: NameMap<Expr>)
    ensures
        env_view(r.view()) == first_fields(read_refs_view(used@), snap.view()),
{
    let ghost rs = read_refs_view(used@);
    let mut out: NameMap<Expr> = NameMap::new();
    let mut i: usize = 0;
    assert(rs.take(0) =~= Seq::empty());
    assert(env_view(out.view()) =~= first_fields(rs.take(0), snap.view()));
    while i < used.len()
        invariant
            i <= used.len(),
            rs == read_refs_view(used@),
            env_view(out.view()) == first_fields(rs.take(i as int), snap.view()),
        decreases used.len() - i,
    {
        let r = used[i];
        assert(rs[i as int] == r.view());
        assert(rs.take(i + 1).drop_last() =~= rs.take(i as int));
        assert(rs.take(i + 1).last() == rs[i as int]);
        let ghost before = out.view();
        assert(env_view(before).dom() =~= before.dom());
        if !out.contains_key(&r.name) {
            let t = proj_named(snap, r.field.as_str(), &r.value_ty);
            out = out.inserted(r.name.clone(), t);
            assert(env_view(out.view()) =~= env_view(before).insert(r.name@, t.view()));
        }
        i = i + 1;
    }
    assert(rs.take(rs.len() as int) =~= rs);
    out
}

fn build_snapshot(
    trigger: &Expr,
    used: &Vec<&BoundRead>,
    lam_body: &Expr,
    out_ty: Type,
    names: &mut NameSupply,
) -> (r: Option<Expr>)
    ensures
        opt_expr_view(r) == (if domain_of(trigger.view().ty()) is Some {
            Some(
                snapshot_s(
                    trigger.view(),
                    read_refs_view(used@),
                    lam_body.view(),
                    out_ty.view(),
                    old(names).next,
                ),
            )
        } else {
            None
        }),
        final(names).next == (if domain_of(trigger.view().ty()) is Some {
            NameSupply::after(old(names).next)
        } else {
            old(names).next
        }),
{
    let (record_ty, source) = snapshot_parts(used);
    match build_as_of(trigger, &source, record_ty.clone()) {
        Some(as_of) => {
            let snap = names.fresh("__snap");
            let snap_var = tvar(&snap, record_ty.clone());
            let terms = first_read_terms(used, &snap_var);
            let body = swap_in(&Swap::Reference, &terms, lam_body);
            let reply = Expr::lambda(snap, record_ty, body);
            Some(tcompose(exprs2(as_of, reply), out_ty))
        },
        None => None,
    }
}

/// The term of each read, off the snapshot; the last read of a name decides.
fn add_read_terms(start: NameMap<Expr>, used: &Vec<&BoundRead>, snap: &Expr) -> (r: NameMap<Expr>)
    ensures
        env_view(r.view()) == env_view(start.view()).union_prefer_right(
            fields_of(read_refs_view(used@), snap.view()),
        ),
{
    let ghost rs = read_refs_view(used@);
    let ghost s = env_view(start.view());
    let mut out = start;
    let mut i: usize = 0;
    assert(rs.take(0) =~= Seq::empty());
    assert(s.union_prefer_right(fields_of(rs.take(0), snap.view())) =~= s);
    while i < used.len()
        invariant
            i <= used.len(),
            rs == read_refs_view(used@),
            env_view(out.view()) == s.union_prefer_right(
                fields_of(rs.take(i as int), snap.view()),
            ),
        decreases used.len() - i,
    {
        let r = used[i];
        assert(rs[i as int] == r.view());
        assert(rs.take(i + 1).drop_last() =~= rs.take(i as int));
        assert(rs.take(i + 1).last() == rs[i as int]);
        let ghost before = out.view();
        let t = proj_named(snap, r.field.as_str(), &r.value_ty);
        out = out.inserted(r.name.clone(), t);
        assert(env_view(out.view()) =~= env_view(before).insert(r.name@, t.view()));
        assert(env_view(out.view()) =~= s.union_prefer_right(
            fields_of(rs.take(i + 1), snap.view()),
        ));
        i = i + 1;
    }
    assert(rs.take(rs.len() as int) =~= rs);
    out
}

/// A reply that reads its request beside mutable variables.
fn build_zip_read(
    trigger: &Expr,
    param: &TypedBinding,
    used: &Vec<&BoundRead>,
    lam_body: &Expr,
    out_ty: Type,
    names: &mut NameSupply,
) -> (r: Option<Expr>)
    requires
        used@.len() > 0,
        domain_of(trigger.view().ty()) is Some,
    ensures
        opt_expr_view(r) == zip_read_s(
            trigger.view(),
            param.name@,
            param.ty.view(),
            read_refs_view(used@),
            lam_body.view(),
            out_ty.view(),
            old(names).next,
        ),
        final(names).next == NameSupply::after(old(names).next),
{
    let ghost rs = read_refs_view(used@);
    assert(rs[0] == used@[0].view());
    assert(trigger.view().tys[0] == trigger.ty.view());
    let req_ty = param.ty.clone();
    let (snap_ty, source) = if used.len() == 1 {
        (used[0].value_ty.clone(), used[0].hist_read.clone())
    } else {
        snapshot_parts(used)
    };
    let p = names.fresh("__zp");
    match (build_as_of(trigger, &source, snap_ty.clone()), trigger.ty.domain()) {
        (Some(as_of), Some(b)) => {
            assert(as_of.view().tys[0] == as_of.ty.view());
            let pair_ty = tuple_type(types2(req_ty.clone(), snap_ty.clone()));
            let arg_ty = tuple_type(types2(trigger.ty.clone(), as_of.ty.clone()));
            let arg = ttuple(exprs2(trigger.clone(), as_of), arg_ty.clone());
            let zip_out = Type::fun(b, pair_ty.clone());
            let zip = apply_ty(
                arg,
                builtin_ty(Builtin::Zip, Type::fun(arg_ty, zip_out.clone())),
                zip_out,
            );
            let snap = proj_tuple(&p, &pair_ty, 1, &snap_ty);
            let req = proj_tuple(&p, &pair_ty, 0, &req_ty);
            let ghost reqv = req.view();
            let start: NameMap<Expr> = NameMap::new().inserted(param.name.clone(), req);
            assert(env_view(start.view()) =~= Map::<NameS, ExprS>::empty().insert(
                param.name@,
                reqv,
            ));
            let ghost sv = start.view();
            let env = if used.len() == 1 {
                let ghost snv = snap.view();
                let out = start.inserted(used[0].name.clone(), snap);
                assert(env_view(out.view()) =~= env_view(sv).insert(used@[0].name@, snv));
                out
            } else {
                add_read_terms(start, used, &snap)
            };
            assert(env_view(env.view()) == pair_env(param.name@, param.ty.view(), rs, p@));
            match Subst::try_discharge_env(lam_body, &env) {
                Some(body) => {
                    let reply = Expr::lambda(p, pair_ty, body);
                    Some(tcompose(exprs2(zip, reply), out_ty))
                },
                None => None,
            }
        },
        _ => None,
    }
}

/// The reads that `e` starts with, and what stands below them.
fn chain_of(e: &Expr) -> (r: (Vec<BoundRead>, &Expr))
    ensures
        reads_view(r.0@) == read_chain(e.view()),
        r.1.view() == chain_rest(e.view()),
{
    let ghost ev = e.view();
    let mut reads: Vec<BoundRead> = Vec::new();
    let mut cur: &Expr = e;
    assert(reads_view(reads@) =~= Seq::empty());
    assert(Seq::<ReadS>::empty() + read_chain(ev) =~= read_chain(ev));
    loop
        invariant_except_break
            true,
        invariant
            ev == e.view(),
            reads_view(reads@) + read_chain(cur.view()) == read_chain(ev),
            chain_rest(cur.view()) == chain_rest(ev),
        ensures
            !binds_read(cur.view()),
        decreases cur.view(),
    {
        let ghost cv = cur.view();
        let ghost before = reads@;
        match &cur.node {
            TypedExprNode::Let { binding, bound_expr, body } => {
                assert(cv.kids[0] == bound_expr.view());
                assert(cv.kids[1] == body.view());
                match as_of_read_source(bound_expr) {
                    Some((hist_read, hist)) => {
                        assert(hist_read.view().tys[0] == hist_read.ty.view());
                        let value_ty = match hist_read.ty.codomain() {
                            Some(v) => v,
                            None => Type::Hole,
                        };
                        reads.push(
                            BoundRead {
                                name: binding.name.clone(),
                                hist_read: hist_read.clone(),
                                field: hist.field_key(),
                                value_ty,
                            },
                        );
                        assert(reads_view(reads@) =~= reads_view(before).push(read_of(cv)));
                        assert(decreases_to!(cv => cv.kids[1]));
                        cur = &**body;
                        assert(reads_view(before) + (seq![read_of(cv)] + read_chain(cur.view()))
                            =~= reads_view(before).push(read_of(cv)) + read_chain(cur.view()));
                    },
                    None => {
                        break;
                    },
                }
            },
            _ => {
                break;
            },
        }
    }
    assert(reads_view(reads@) + Seq::<ReadS>::empty() =~= reads_view(reads@));
    (reads, cur)
}

fn used_of<'a>(reads: &'a Vec<BoundRead>, body: &Expr) -> (r: Vec<&'a BoundRead>)
    ensures
        read_refs_view(r@) == used_reads(reads_view(reads@), body.view()),
{
    let ghost rs = reads_view(reads@);
    let mut out: Vec<&BoundRead> = Vec::new();
    let mut i: usize = 0;
    assert(rs.take(0) =~= Seq::empty());
    assert(read_refs_view(out@) =~= used_reads(rs.take(0), body.view()));
    while i < reads.len()
        invariant
            i <= reads.len(),
            rs == reads_view(reads@),
            read_refs_view(out@) == used_reads(rs.take(i as int), body.view()),
        decreases reads.len() - i,
    {
        assert(rs.take(i + 1).drop_last() =~= rs.take(i as int));
        assert(rs.take(i + 1).last() == reads@[i as int].view());
        let ghost before = out@;
        if is_free_in_value(&reads[i].name, body) {
            out.push(&reads[i]);
            assert(read_refs_view(out@) =~= read_refs_view(before).push(reads@[i as int].view()));
        }
        i = i + 1;
    }
    assert(rs.take(rs.len() as int) =~= rs);
    out
}

pub enum Join {
    Kept,
    Rewritten(Expr),
    Captured,
}

/// The as-of join of a chain of reads over a broadcast.
pub fn as_of_join(expr: &Expr, names: &mut NameSupply) -> (r: Join)
    ensures
        match as_of_join_s(expr.view(), old(names).next) {
            JoinS::Kept => r is Kept && final(names).next == old(names).next,
            JoinS::Rewritten(t, minted) => (r matches Join::Rewritten(x) && x.view() == t)
                && final(names).next == (if minted {
                NameSupply::after(old(names).next)
            } else {
                old(names).next
            }),
            JoinS::Captured => r is Captured,
        },
{
    let ghost ev = expr.view();
    assert(ev.tys[0] == expr.ty.view());
    let (reads, cur) = chain_of(expr);
    let ghost rest = chain_rest(ev);
    if reads.len() == 0 {
        return Join::Kept;
    }
    match &cur.node {
        TypedExprNode::Compose(celts) => {
            assert(rest.kids == exprs_view(celts@));
            if celts.len() != 2 {
                return Join::Kept;
            }
            let trigger = &celts[0];
            let lam = &celts[1];
            assert(rest.kids[0] == trigger.view());
            assert(rest.kids[1] == lam.view());
            match &lam.node {
                TypedExprNode::Lambda { param, body } => {
                    assert(lam.view().kids[0] == body.view());
                    assert(lam.view().tys[lead(lam.view())] == param.ty.view());
                    assert(trigger.view().tys[0] == trigger.ty.view());
                    if trigger.ty.domain().is_none() {
                        return Join::Kept;
                    }
                    let used = used_of(&reads, body);
                    if used.len() == 0 {
                        return Join::Kept;
                    }
                    assert(used@.len() == used_reads(read_chain(ev), body.view()).len());
                    let out_ty = expr.ty.clone();
                    if is_free_in_value(&param.name, body) {
                        return match build_zip_read(trigger, param, &used, body, out_ty, names) {
                            Some(x) => Join::Rewritten(x),
                            None => Join::Captured,
                        };
                    }
                    let out = if used.len() == 1 {
                        assert(read_refs_view(used@)[0] == used@[0].view());
                        build_single(trigger, used[0], body, out_ty)
                    } else {
                        build_snapshot(trigger, &used, body, out_ty, names)
                    };
                    match out {
                        Some(x) => Join::Rewritten(x),
                        None => Join::Kept,
                    }
                },
                _ => Join::Kept,
            }
        },
        _ => Join::Kept,
    }
}

} // verus!
