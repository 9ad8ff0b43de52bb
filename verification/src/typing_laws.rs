//! The laws that what replies and views read is recorded with the types it has.

use vstd::prelude::*;
use crate::as_of::{
    ReadS, as_of_s, fields_of, first_fields, histories_s, pair_env, read_fields, snapshot_ty,
    zip_read_s,
};
use crate::ast::{ExprS, FieldKeyS, HeadS, TypeHeadS, TypeS};
use crate::decision::{TapS, commit_project_s};
use crate::make::{domain_of, fun_ty, proj_field_s, proj_index_s, tuple_ty, txn_ty, var_s};
use crate::name::NameS;
use crate::store::{CommitS, commit_rec_ty, commit_s, key_view, tap_def, targets_of};
use crate::txn_terms::{field_at, item_at};
use crate::writer::{WriterS, key_tys};

verus! {

/// Whether `t` is the function from `d` to `c`.
pub open spec fn leads(t: TypeS, d: TypeS, c: TypeS) -> bool {
    t.head is Fun && t.kids.len() == 2 && t.kids[0] == d && t.kids[1] == c
}

/// Whether component `k` of a value of type `t` has type `c`.
pub open spec fn component_is(t: TypeS, k: FieldKeyS, c: TypeS) -> bool {
    match k {
        FieldKeyS::Index(i) => t.head is Tuple && i < t.kids.len() && t.kids[i as int] == c,
        FieldKeyS::Name(f) => match t.head {
            TypeHeadS::Record(names) => exists|i: int|
                0 <= i < names.len() && i < t.kids.len() && names[i] == f && #[trigger] t.kids[i]
                    == c,
            _ => false,
        },
    }
}

/// Whether the type a term is recorded with is the one its parts give it: what is
/// applied leads from the type of its argument, a projection to the type of the
/// component it takes, each step of a chain from where the one before leads, and a tuple
/// or record has its parts' types.
pub open spec fn apt(e: ExprS) -> bool
    decreases e,
{
    match e.head {
        HeadS::Apply => e.kids.len() == 2 && leads(e.kids[0].ty(), e.kids[1].ty(), e.ty()) && apt(
            e.kids[0],
        ) && apt(e.kids[1]),
        HeadS::Proj(k) => e.ty().head is Fun && e.ty().kids.len() == 2 && component_is(
            e.ty().kids[0],
            k,
            e.ty().kids[1],
        ),
        HeadS::Tuple => e.ty().head is Tuple && e.ty().kids.len() == e.kids.len() && forall|i: int|
            0 <= i < e.kids.len() ==> (#[trigger] e.kids[i]).ty() == e.ty().kids[i] && apt(e.kids[i]),
        HeadS::Record(names) => e.ty().head == TypeHeadS::Record(names) && e.ty().kids.len()
            == e.kids.len() && forall|i: int|
            0 <= i < e.kids.len() ==> (#[trigger] e.kids[i]).ty() == e.ty().kids[i] && apt(e.kids[i]),
        HeadS::Compose => e.kids.len() > 0 && (forall|i: int|
            0 <= i < e.kids.len() ==> apt(#[trigger] e.kids[i]) && is_arrow(e.kids[i].ty())) && (
        forall|i: int|
            0 <= i < e.kids.len() - 1 ==> (#[trigger] e.kids[i]).ty().kids[1] == e.kids[i
                + 1].ty().kids[0]) && leads(
            e.ty(),
            e.kids[0].ty().kids[0],
            e.kids[e.kids.len() - 1].ty().kids[1],
        ),
        _ => true,
    }
}

/// Whether `t` is a function with two ends.
pub open spec fn is_arrow(t: TypeS) -> bool {
    t.head is Fun && t.kids.len() == 2
}

proof fn lemma_item_apt(e: ExprS, i: usize, elt: TypeS)
    requires
        apt(e),
        component_is(e.ty(), FieldKeyS::Index(i), elt),
    ensures
        apt(item_at(e, i, elt)),
        item_at(e, i, elt).ty() == elt,
{
    let f = proj_index_s(i, fun_ty(e.ty(), elt));
    assert(apt(f));
    let r = item_at(e, i, elt);
    assert(r.kids[0] == f && r.kids[1] == e);
}

proof fn lemma_field_apt(e: ExprS, f: Seq<char>, elt: TypeS)
    requires
        apt(e),
        component_is(e.ty(), FieldKeyS::Name(f), elt),
    ensures
        apt(field_at(e, f, elt)),
        field_at(e, f, elt).ty() == elt,
{
    let g = proj_field_s(f, fun_ty(e.ty(), elt));
    assert(apt(g));
    let r = field_at(e, f, elt);
    assert(r.kids[0] == g && r.kids[1] == e);
}

/// Whether what the names of reads stand for has the types they are read at.
pub open spec fn reads_typed(env: Map<NameS, ExprS>, rs: Seq<ReadS>) -> bool {
    forall|n: NameS| #[trigger]
        env.dom().contains(n) ==> apt(env[n]) && exists|i: int|
            0 <= i < rs.len() && (#[trigger] rs[i]).name == n && env[n].ty() == rs[i].value
}

proof fn lemma_fields_typed(rs: Seq<ReadS>, n: nat, snap: ExprS)
    requires
        n <= rs.len(),
        apt(snap),
        snap.ty() == snapshot_ty(rs),
    ensures
        reads_typed(fields_of(rs.take(n as int), snap), rs),
        reads_typed(first_fields(rs.take(n as int), snap), rs),
    decreases n,
{
    let part = rs.take(n as int);
    if n > 0 {
        lemma_fields_typed(rs, (n - 1) as nat, snap);
        assert(part.drop_last() =~= rs.take(n - 1));
        let r = rs[n - 1];
        assert(part.last() == r);
        let names = read_fields(rs);
        let t = snap.ty();
        assert(t.head == TypeHeadS::Record(names));
        assert(names.len() == rs.len() && t.kids.len() == rs.len());
        assert(t.kids[n - 1] == r.value);
        assert(names[n - 1] == r.field);
        assert(component_is(snap.ty(), FieldKeyS::Name(r.field), r.value));
        lemma_field_apt(snap, r.field, r.value);
        assert(rs[n - 1].name == r.name);
    }
}

/// What a reply reads beside its request is taken from the pair at the type it has
/// there: the request is the first component of the pair at its own type, the snapshot
/// the second at that of what was sampled, and each name of the reply is a term whose
/// projections lead from the type they are applied to to that of the component they take.
pub proof fn law_a_reply_takes_what_the_pair_holds(
    param: NameS,
    req: TypeS,
    rs: Seq<ReadS>,
    p: NameS,
)
    requires
        rs.len() > 0,
    ensures
        ({
            let env = pair_env(param, req, rs, p);
            &&& env.dom().contains(param)
            &&& forall|n: NameS| #[trigger]
                env.dom().contains(n) ==> apt(env[n]) && (n == param && env[n].ty() == req
                    || exists|i: int|
                    0 <= i < rs.len() && (#[trigger] rs[i]).name == n && env[n].ty() == rs[i].value)
            &&& forall|i: int|
                0 <= i < rs.len() ==> env.dom().contains((#[trigger] rs[i]).name)
        }),
{
    let env = pair_env(param, req, rs, p);
    let snap_ty = if rs.len() == 1 { rs[0].value } else { snapshot_ty(rs) };
    let pair_ty = tuple_ty(seq![req, snap_ty]);
    let pair = var_s(p, pair_ty);
    assert(apt(pair));
    assert(component_is(pair.ty(), FieldKeyS::Index(1), snap_ty));
    assert(component_is(pair.ty(), FieldKeyS::Index(0), req));
    lemma_item_apt(pair, 1, snap_ty);
    lemma_item_apt(pair, 0, req);
    let snap = item_at(pair, 1, snap_ty);
    if rs.len() == 1 {
        assert forall|n: NameS| #[trigger] env.dom().contains(n) implies apt(env[n]) && (n == param
            && env[n].ty() == req || exists|i: int|
            0 <= i < rs.len() && (#[trigger] rs[i]).name == n && env[n].ty() == rs[i].value) by {
            if n == rs[0].name {
                assert(rs[0].name == n && env[n].ty() == rs[0].value);
            }
        }
    } else {
        assert(rs.take(rs.len() as int) =~= rs);
        lemma_fields_typed(rs, rs.len(), snap);
        let fields = fields_of(rs, snap);
        assert forall|n: NameS| #[trigger] env.dom().contains(n) implies apt(env[n]) && (n == param
            && env[n].ty() == req || exists|i: int|
            0 <= i < rs.len() && (#[trigger] rs[i]).name == n && env[n].ty() == rs[i].value) by {
            if fields.dom().contains(n) {
                assert(env[n] == fields[n]);
            }
        }
        assert forall|i: int| 0 <= i < rs.len() implies env.dom().contains(
            (#[trigger] rs[i]).name,
        ) by {
            lemma_fields_named(rs, snap, i);
        }
    }
}

proof fn lemma_fields_named(rs: Seq<ReadS>, snap: ExprS, i: int)
    requires
        0 <= i < rs.len(),
    ensures
        fields_of(rs, snap).dom().contains(rs[i].name),
    decreases rs.len(),
{
    if i < rs.len() - 1 {
        assert(rs.drop_last()[i] == rs[i]);
        lemma_fields_named(rs.drop_last(), snap, i);
    }
}

/// A stream sampled at the positions of another is recorded with the types it has: the
/// pair of the two with theirs, and what is applied to it as leading from that pair.
pub proof fn law_a_sampling_is_typed(trigger: ExprS, source: ExprS, codomain: TypeS)
    requires
        apt(trigger),
        apt(source),
        domain_of(trigger.ty()) is Some,
    ensures
        apt(as_of_s(trigger, source, codomain)),
        leads(
            as_of_s(trigger, source, codomain).ty(),
            domain_of(trigger.ty())->0,
            codomain,
        ),
{
    let e = as_of_s(trigger, source, codomain);
    let pair = e.kids[1];
    assert(pair.kids =~= seq![trigger, source]);
    assert(pair.ty().kids =~= seq![trigger.ty(), source.ty()]);
    assert(apt(pair));
    assert(apt(e.kids[0]));
}

/// A reply over its request and a snapshot is recorded as running over pairs of the two:
/// the streams are paired as they are typed, and what is paired leads from the positions
/// of the request to the type that the reply's own parameter has.
pub proof fn law_a_pairing_is_typed(
    trigger: ExprS,
    param: NameS,
    req: TypeS,
    rs: Seq<ReadS>,
    body: ExprS,
    out_ty: TypeS,
    uid: u64,
    out: ExprS,
)
    requires
        zip_read_s(trigger, param, req, rs, body, out_ty, uid) == Some(out),
        rs.len() > 0,
        apt(trigger),
        domain_of(trigger.ty()) is Some,
        forall|i: int| 0 <= i < rs.len() ==> apt((#[trigger] rs[i]).hist),
    ensures
        out.kids.len() == 2,
        apt(out.kids[0]),
        out.kids[1].head is Lambda,
        leads(out.kids[0].ty(), domain_of(trigger.ty())->0, out.kids[1].tys[1]),
        out.kids[1].tys[1].head is Tuple,
        out.kids[1].tys[1].kids == seq![
            req,
            if rs.len() == 1 {
                rs[0].value
            } else {
                snapshot_ty(rs)
            },
        ],
{
    let source = if rs.len() == 1 { rs[0].hist } else { histories_s(rs) };
    let snap_ty = if rs.len() == 1 { rs[0].value } else { snapshot_ty(rs) };
    assert(apt(rs[0].hist));
    if rs.len() != 1 {
        assert forall|i: int| 0 <= i < source.kids.len() implies (#[trigger] source.kids[i]).ty()
            == source.ty().kids[i] && apt(source.kids[i]) by {
            assert(source.kids[i] == rs[i].hist);
        }
        assert(apt(source));
    }
    law_a_sampling_is_typed(trigger, source, snap_ty);
    let as_of = as_of_s(trigger, source, snap_ty);
    let zip = out.kids[0];
    let pair = zip.kids[1];
    assert(pair.kids =~= seq![trigger, as_of]);
    assert(pair.ty().kids =~= seq![trigger.ty(), as_of.ty()]);
    assert(apt(pair));
    assert(apt(zip.kids[0]));
    assert(out.kids[1].tys[1] == tuple_ty(seq![req, snap_ty]));
}

proof fn lemma_commit_types(c: CommitS, targets: TypeS)
    requires
        c.rec_ty == commit_rec_ty(targets, c.decision_ty),
    ensures
        component_is(c.rec_ty, FieldKeyS::Name("time"@), txn_ty()),
        component_is(c.rec_ty, FieldKeyS::Name("decision"@), c.decision_ty),
{
    let names = seq!["time"@, "write_targets"@, "decision"@];
    assert(c.rec_ty.head == TypeHeadS::Record(names));
    assert(names[0] == "time"@ && c.rec_ty.kids[0] == txn_ty());
    assert(names[2] == "decision"@ && c.rec_ty.kids[2] == c.decision_ty);
}

/// A variable's view of a commit stream is recorded with the types it has, where the
/// component it takes of the writes is of the variable's type: each step of it leads from
/// where the step before leads to the type of the component it takes.
pub proof fn law_a_view_is_typed(
    w: WriterS,
    name: NameS,
    hist: Map<NameS, NameS>,
    inits: Map<NameS, ExprS>,
    uid: u64,
    c: CommitS,
    idx: usize,
    writes_ty: TypeS,
    v: TypeS,
)
    requires
        commit_s(w, name, hist, inits, uid) == Some(c),
        component_is(c.payload_ty, FieldKeyS::Name("writes"@), writes_ty),
        component_is(writes_ty, FieldKeyS::Index(idx), v),
    ensures
        apt(key_view(c, idx, writes_ty, v)),
{
    let targets = targets_of(w, hist, key_tys(w.write_keys, inits));
    lemma_commit_types(c, targets.ty());
    let e = key_view(c, idx, writes_ty, v);
    let record = e.kids[1];
    let time = record.kids[0];
    let write = record.kids[1];
    let s = var_s(c.name, c.ty());
    let pt = proj_field_s("time"@, fun_ty(c.rec_ty, txn_ty()));
    assert(time.kids =~= seq![s, pt]);
    assert(apt(s) && apt(pt));
    assert(apt(time));
    let p2 = proj_field_s("decision"@, fun_ty(c.rec_ty, c.decision_ty));
    let p3 = commit_project_s(c.decision_ty, c.payload_ty);
    let p4 = proj_field_s("writes"@, fun_ty(c.payload_ty, writes_ty));
    let p5 = proj_index_s(idx, fun_ty(writes_ty, v));
    assert(write.kids =~= seq![s, p2, p3, p4, p5]);
    assert(apt(p2) && apt(p3) && apt(p4) && apt(p5));
    assert(apt(write));
    assert(record.kids =~= seq![time, write]);
    assert(record.ty().kids =~= seq![time.ty(), write.ty()]);
    assert(apt(record));
    assert(apt(e.kids[0]));
}

/// The stream of a reply is recorded with the types it has, where the payload holds the
/// reply's value under its field.
pub proof fn law_a_reply_stream_is_typed(
    w: WriterS,
    name: NameS,
    hist: Map<NameS, NameS>,
    inits: Map<NameS, ExprS>,
    uid: u64,
    c: CommitS,
    tap: TapS,
    n: NameS,
)
    requires
        commit_s(w, name, hist, inits, uid) == Some(c),
        component_is(c.payload_ty, FieldKeyS::Name(tap.field), tap.value.ty()),
    ensures
        apt(tap_def(c, tap, n).def),
        tap_def(c, tap, n).def.ty() == tap_def(c, tap, n).ty,
        leads(tap_def(c, tap, n).ty, c.dom, tap.value.ty()),
{
    let targets = targets_of(w, hist, key_tys(w.write_keys, inits));
    lemma_commit_types(c, targets.ty());
    let e = tap_def(c, tap, n).def;
    let s = var_s(c.name, c.ty());
    let p2 = proj_field_s("decision"@, fun_ty(c.rec_ty, c.decision_ty));
    let p3 = commit_project_s(c.decision_ty, c.payload_ty);
    let p4 = proj_field_s(tap.field, fun_ty(c.payload_ty, tap.value.ty()));
    assert(e.kids =~= seq![s, p2, p3, p4]);
    assert(apt(s) && apt(p2) && apt(p3) && apt(p4));
}

} // verus!
