//! The laws of as-of reads: a reply reads the variables as they are at the position of
//! its loop, and its request as it stands there.

use vstd::prelude::*;
use crate::as_of::{
    JoinS, ReadS, as_of_join_s, as_of_s, binds_read, chain_rest, fields_of, first_fields,
    histories_s, pair_env, read_chain, read_fields, single_s, snapshot_s, snapshot_ty,
    used_reads, zip_read_s,
};
use crate::as_of_pass::{live_kids, live_reads};
use crate::ast::{BuiltinS, ExprS, FieldKeyS, HeadS, TypeS};
use crate::capture::discharged;
use crate::history_laws::{lemma_piped_two, lemma_projection};
use crate::make::{fun_ty, proj_field_s, tuple_ty, var_s};
use crate::meaning::{
    Meant, Model, Val, Valuation, act_on, each_at, kids_meant, label_place, meant, sampled,
    setting, setting_all, taken, vals,
};
use crate::meaning_laws::{
    agree_on, kid_alike, law_discharging_keeps_the_meaning, lemma_alike,
    lemma_meant_by_free_names, stands_for_names, under_env,
};
use crate::name::NameS;
use crate::scope::{free_in_value, own_ref, scope_of};
use crate::subst_laws::leafy;
use crate::swap::{SwapS, swapped};
use crate::symbolic::lead;
use crate::txn_terms::{field_at, item_at};
use crate::writer_laws::{lemma_item_meant, lemma_label_place, lemma_unread, lemma_var_meant};

verus! {

/// What the names of a reply mean at position `pos` of the loop over `trigger`: the
/// loop's parameter means the request there, and each read means what the history it
/// reads holds at the time that position reads at.
pub open spec fn at_position(
    m: Model,
    rho: Valuation,
    trigger: ExprS,
    param: NameS,
    rs: Seq<ReadS>,
    pos: Val,
) -> Valuation {
    let stream = meant(m, rho, trigger);
    |n: NameS|
        if n == param {
            m.of((stream.at)(pos))
        } else if exists|i: int| 0 <= i < rs.len() && (#[trigger] rs[i]).name == n {
            let i = choose|i: int| 0 <= i < rs.len() && (#[trigger] rs[i]).name == n;
            m.of((meant(m, rho, rs[i].hist).at)((m.time)(stream, pos)))
        } else {
            rho(n)
        }
}

/// Whether reads are told apart: no two bind one name, none binds the parameter, and two
/// of one field read one history.
pub open spec fn told_reads(m: Model, rho: Valuation, param: NameS, rs: Seq<ReadS>) -> bool {
    &&& forall|i: int|
        0 <= i < rs.len() ==> (#[trigger] rs[i]).name != param && !(rs[i].name is PiBound) && !(meant(
            m,
            rho,
            rs[i].hist,
        ).val is Record)
    &&& forall|i: int, j: int|
        0 <= i < rs.len() && 0 <= j < rs.len() && (#[trigger] rs[i]).name == (#[trigger] rs[j]).name
            ==> i == j
    &&& forall|i: int, j: int|
        0 <= i < rs.len() && 0 <= j < rs.len() && (#[trigger] rs[i]).field == (
        #[trigger] rs[j]).field ==> meant(m, rho, rs[i].hist) == meant(m, rho, rs[j].hist)
}

/// A read means what the history it reads holds.
proof fn lemma_read_at(
    m: Model,
    rho: Valuation,
    trigger: ExprS,
    param: NameS,
    rs: Seq<ReadS>,
    pos: Val,
    i: int,
)
    requires
        told_reads(m, rho, param, rs),
        0 <= i < rs.len(),
    ensures
        at_position(m, rho, trigger, param, rs, pos)(rs[i].name) == m.of(
            (meant(m, rho, rs[i].hist).at)((m.time)(meant(m, rho, trigger), pos)),
        ),
{
    let n = rs[i].name;
    let j = choose|j: int| 0 <= j < rs.len() && (#[trigger] rs[j]).name == n;
    assert(rs[i].name == n);
    assert(j == i);
}

/// What an as-of join gives at a position.
proof fn lemma_as_of_meant(m: Model, rho: Valuation, trigger: ExprS, source: ExprS, ty: TypeS)
    ensures
        ({
            let d = meant(m, rho, as_of_s(trigger, source, ty));
            forall|pos: Val| #[trigger] (d.at)(pos) == sampled(
                meant(m, rho, source),
                (m.time)(meant(m, rho, trigger), pos),
            )
        }),
{
    let e = as_of_s(trigger, source, ty);
    let f = e.kids[0];
    let arg = e.kids[1];
    assert(f.head == HeadS::Builtin(BuiltinS::AsOf));
    assert(meant(m, rho, f).act is AsOf);
    let ds = kids_meant(m, rho, arg);
    assert(arg.kids[0] == trigger && arg.kids[1] == source);
    assert(ds[0] == meant(m, rho, trigger) && ds[1] == meant(m, rho, source));
    assert(meant(m, rho, arg).parts == ds);
    assert(meant(m, rho, e) == act_on(m, meant(m, rho, f), meant(m, rho, arg)));
}

/// What the histories of several reads hold together.
proof fn lemma_histories_sampled(m: Model, rho: Valuation, rs: Seq<ReadS>, time: Val)
    ensures
        sampled(meant(m, rho, histories_s(rs)), time) == Val::Record(
            read_fields(rs),
            Seq::new(rs.len(), |i: int| (meant(m, rho, rs[i].hist).at)(time)),
        ),
{
    let e = histories_s(rs);
    let ds = kids_meant(m, rho, e);
    assert(meant(m, rho, e).val == Val::Record(read_fields(rs), vals(ds)));
    assert(meant(m, rho, e).parts == ds);
    assert(each_at(ds, time) =~= Seq::new(
        rs.len(),
        |i: int| (meant(m, rho, rs[i].hist).at)(time),
    ));
}

/// The field of a snapshot that a read takes is what its history holds.
proof fn lemma_field_meant(
    m: Model,
    here: Valuation,
    rho: Valuation,
    param: NameS,
    rs: Seq<ReadS>,
    time: Val,
    snap: ExprS,
    i: int,
)
    requires
        told_reads(m, rho, param, rs),
        0 <= i < rs.len(),
        meant(m, here, snap) == m.of(
            Val::Record(
                read_fields(rs),
                Seq::new(rs.len(), |i: int| (meant(m, rho, rs[i].hist).at)(time)),
            ),
        ),
    ensures
        meant(m, here, field_at(snap, rs[i].field, rs[i].value)) == m.of(
            (meant(m, rho, rs[i].hist).at)(time),
        ),
{
    let f = rs[i].field;
    let vs = Seq::new(rs.len(), |i: int| (meant(m, rho, rs[i].hist).at)(time));
    let v = Val::Record(read_fields(rs), vs);
    lemma_label_place(read_fields(rs), f, 0);
    let p = label_place(read_fields(rs), f, 0) as int;
    assert(read_fields(rs)[i] == f);
    assert(p <= i);
    assert(read_fields(rs)[p] == f);
    assert(rs[p].field == rs[i].field);
    assert(taken(FieldKeyS::Name(f), v) == Some(vs[p]));
    assert(vs[p] == vs[i]);
    let e = field_at(snap, f, rs[i].value);
    let g = proj_field_s(f, fun_ty(snap.ty(), rs[i].value));
    assert(e.kids[0] == g && e.kids[1] == snap);
    lemma_projection(m, here, FieldKeyS::Name(f), fun_ty(snap.ty(), rs[i].value), v);
}

/// A read of the fields of a snapshot, where the names are told apart.
proof fn lemma_fields_of(rs: Seq<ReadS>, snap: ExprS)
    requires
        forall|i: int, j: int|
            0 <= i < rs.len() && 0 <= j < rs.len() && (#[trigger] rs[i]).name == (
            #[trigger] rs[j]).name ==> i == j,
    ensures
        forall|n: NameS| #[trigger]
            fields_of(rs, snap).dom().contains(n) <==> exists|i: int|
                0 <= i < rs.len() && (#[trigger] rs[i]).name == n,
        forall|i: int|
            0 <= i < rs.len() ==> fields_of(rs, snap)[(#[trigger] rs[i]).name] == field_at(
                snap,
                rs[i].field,
                rs[i].value,
            ),
        first_fields(rs, snap) == fields_of(rs, snap),
    decreases rs.len(),
{
    if rs.len() > 0 {
        let init = rs.drop_last();
        assert forall|i: int, j: int|
            0 <= i < init.len() && 0 <= j < init.len() && (#[trigger] init[i]).name == (
            #[trigger] init[j]).name implies i == j by {
            assert(rs[i].name == rs[j].name);
        }
        lemma_fields_of(init, snap);
        let last = rs.last();
        let before = fields_of(init, snap);
        assert(!before.dom().contains(last.name)) by {
            if before.dom().contains(last.name) {
                let i = choose|i: int| 0 <= i < init.len() && (#[trigger] init[i]).name == last.name;
                assert(rs[i].name == rs[rs.len() - 1].name);
            }
        }
        assert forall|n: NameS| #[trigger]
            fields_of(rs, snap).dom().contains(n) <==> exists|i: int|
                0 <= i < rs.len() && (#[trigger] rs[i]).name == n by {
            if before.dom().contains(n) {
                let i = choose|i: int| 0 <= i < init.len() && (#[trigger] init[i]).name == n;
                assert(rs[i].name == n);
            }
            if n == last.name {
                assert(rs[rs.len() - 1].name == n);
            }
            if exists|i: int| 0 <= i < rs.len() && (#[trigger] rs[i]).name == n {
                let i = choose|i: int| 0 <= i < rs.len() && (#[trigger] rs[i]).name == n;
                if i < init.len() {
                    assert(init[i].name == n);
                }
            }
        }
        assert forall|i: int| 0 <= i < rs.len() implies fields_of(rs, snap)[(#[trigger] rs[i]).name]
            == field_at(snap, rs[i].field, rs[i].value) by {
            if i < init.len() {
                assert(init[i] == rs[i]);
                assert(rs[i].name != last.name) by {
                    if rs[i].name == rs[rs.len() - 1].name {
                    }
                }
            }
        }
    }
}

/// The reads that a reply uses are reads of its chain, and those it names.
proof fn lemma_used(rs: Seq<ReadS>, body: ExprS)
    ensures
        forall|i: int|
            0 <= i < used_reads(rs, body).len() ==> rs.contains(#[trigger] used_reads(rs, body)[i]),
        forall|j: int|
            0 <= j < rs.len() && free_in_value((#[trigger] rs[j]).name, body) ==> used_reads(
                rs,
                body,
            ).contains(rs[j]),
        forall|i: int|
            0 <= i < used_reads(rs, body).len() ==> free_in_value(
                (#[trigger] used_reads(rs, body)[i]).name,
                body,
            ),
    decreases rs.len(),
{
    if rs.len() > 0 {
        let init = rs.drop_last();
        lemma_used(init, body);
        let before = used_reads(init, body);
        let out = used_reads(rs, body);
        assert forall|i: int| 0 <= i < out.len() implies rs.contains(#[trigger] out[i]) by {
            if i < before.len() {
                assert(out[i] == before[i]);
                assert(init.contains(before[i]));
                let j = choose|j: int| 0 <= j < init.len() && init[j] == before[i];
                assert(rs[j] == out[i]);
            } else {
                assert(rs[rs.len() - 1] == out[i]);
            }
        }
        assert forall|j: int| 0 <= j < rs.len() && free_in_value((#[trigger] rs[j]).name, body)
            implies out.contains(rs[j]) by {
            if j < init.len() {
                assert(init[j] == rs[j]);
                assert(before.contains(init[j]));
                let i = choose|i: int| 0 <= i < before.len() && before[i] == rs[j];
                assert(out[i] == rs[j]);
            } else {
                assert(out[before.len() as int] == rs[j]);
            }
        }
        assert forall|i: int| 0 <= i < out.len() implies free_in_value(
            (#[trigger] out[i]).name,
            body,
        ) by {
            if i < before.len() {
                assert(out[i] == before[i]);
            }
        }
    }
}

proof fn lemma_used_told(m: Model, rho: Valuation, param: NameS, rs: Seq<ReadS>, body: ExprS)
    requires
        told_reads(m, rho, param, rs),
    ensures
        told_reads(m, rho, param, used_reads(rs, body)),
    decreases rs.len(),
{
    if rs.len() > 0 {
        let init = rs.drop_last();
        assert(told_reads(m, rho, param, init)) by {
            assert forall|i: int, j: int|
                0 <= i < init.len() && 0 <= j < init.len() && (#[trigger] init[i]).name == (
                #[trigger] init[j]).name implies i == j by {
                assert(rs[i].name == rs[j].name);
            }
            assert forall|i: int, j: int|
                0 <= i < init.len() && 0 <= j < init.len() && (#[trigger] init[i]).field == (
                #[trigger] init[j]).field implies meant(m, rho, init[i].hist) == meant(
                m,
                rho,
                init[j].hist,
            ) by {
                assert(rs[i].field == rs[j].field);
            }
            assert forall|i: int| 0 <= i < init.len() implies (#[trigger] init[i]).name != param
                && !(init[i].name is PiBound) && !(meant(m, rho, init[i].hist).val is Record) by {
                assert(rs[i].name != param);
            }
        }
        lemma_used_told(m, rho, param, init, body);
        lemma_used(init, body);
        lemma_used(rs, body);
        let before = used_reads(init, body);
        let out = used_reads(rs, body);
        let last = rs.last();
        assert forall|i: int| 0 <= i < out.len() implies (#[trigger] out[i]).name != param && !(
        out[i].name is PiBound) && !(meant(m, rho, out[i].hist).val is Record) by {
            assert(rs.contains(out[i]));
            let k = choose|k: int| 0 <= k < rs.len() && rs[k] == out[i];
            assert(rs[k].name != param);
        }
        assert forall|i: int, j: int|
            0 <= i < out.len() && 0 <= j < out.len() && (#[trigger] out[i]).field == (
            #[trigger] out[j]).field implies meant(m, rho, out[i].hist) == meant(
            m,
            rho,
            out[j].hist,
        ) by {
            assert(rs.contains(out[i]));
            assert(rs.contains(out[j]));
            let a = choose|a: int| 0 <= a < rs.len() && rs[a] == out[i];
            let b = choose|b: int| 0 <= b < rs.len() && rs[b] == out[j];
            assert(rs[a].field == rs[b].field);
        }
        assert forall|i: int, j: int|
            0 <= i < out.len() && 0 <= j < out.len() && (#[trigger] out[i]).name == (
            #[trigger] out[j]).name implies i == j by {
            if i < before.len() && j < before.len() {
                assert(before[i].name == before[j].name);
            } else if i != j {
                let k = if i < j { i } else { j };
                assert(out[k] == before[k]);
                assert(init.contains(before[k]));
                let a = choose|a: int| 0 <= a < init.len() && init[a] == before[k];
                assert(rs[a].name == rs[rs.len() - 1].name);
            }
        }
    }
}

/// What a free name of the reply means does not depend on reads that it does not use.
proof fn lemma_used_position(
    m: Model,
    rho: Valuation,
    trigger: ExprS,
    param: NameS,
    rs: Seq<ReadS>,
    body: ExprS,
    pos: Val,
)
    requires
        told_reads(m, rho, param, rs),
    ensures
        agree_on(
            at_position(m, rho, trigger, param, used_reads(rs, body), pos),
            at_position(m, rho, trigger, param, rs, pos),
            body,
        ),
{
    let used = used_reads(rs, body);
    lemma_used(rs, body);
    lemma_used_told(m, rho, param, rs, body);
    let a = at_position(m, rho, trigger, param, used, pos);
    let b = at_position(m, rho, trigger, param, rs, pos);
    assert forall|n: NameS| #[trigger] free_in_value(n, body) && !(n is PiBound) implies a(n) == b(
        n,
    ) by {
        if n != param {
            if exists|i: int| 0 <= i < rs.len() && (#[trigger] rs[i]).name == n {
                let i = choose|i: int| 0 <= i < rs.len() && (#[trigger] rs[i]).name == n;
                assert(free_in_value(rs[i].name, body));
                assert(used.contains(rs[i]));
                let j = choose|j: int| 0 <= j < used.len() && used[j] == rs[i];
                lemma_read_at(m, rho, trigger, param, rs, pos, i);
                lemma_read_at(m, rho, trigger, param, used, pos, j);
            } else if exists|j: int| 0 <= j < used.len() && (#[trigger] used[j]).name == n {
                let j = choose|j: int| 0 <= j < used.len() && (#[trigger] used[j]).name == n;
                assert(rs.contains(used[j]));
                let i = choose|i: int| 0 <= i < rs.len() && rs[i] == used[j];
                assert(rs[i].name == n);
            }
        }
    }
}

/// A reply over zipped requests and snapshots reads each as it stands at the position.
proof fn lemma_zip_read(
    m: Model,
    rho: Valuation,
    trigger: ExprS,
    param: NameS,
    req: TypeS,
    rs: Seq<ReadS>,
    body: ExprS,
    out_ty: TypeS,
    uid: u64,
    pos: Val,
)
    requires
        zip_read_s(trigger, param, req, rs, body, out_ty, uid) is Some,
        rs.len() > 0,
        told_reads(m, rho, param, rs),
        !(param is PiBound),
        leafy(body),
        !free_in_value(NameS::Fresh("__zp"@, uid), body),
    ensures
        (meant(m, rho, zip_read_s(trigger, param, req, rs, body, out_ty, uid)->0).at)(pos) == meant(
            m,
            at_position(m, rho, trigger, param, rs, pos),
            body,
        ).val,
{
    let p = NameS::Fresh("__zp"@, uid);
    let out = zip_read_s(trigger, param, req, rs, body, out_ty, uid)->0;
    let source = if rs.len() == 1 { rs[0].hist } else { histories_s(rs) };
    let snap_ty = if rs.len() == 1 { rs[0].value } else { snapshot_ty(rs) };
    let as_of = as_of_s(trigger, source, snap_ty);
    let pair_ty = tuple_ty(seq![req, snap_ty]);
    let zip = out.kids[0];
    let reply = out.kids[1];
    let stream = meant(m, rho, trigger);
    let time = (m.time)(stream, pos);
    lemma_as_of_meant(m, rho, trigger, source, snap_ty);
    let x = (stream.at)(pos);
    let s = (meant(m, rho, as_of).at)(pos);
    assert(s == sampled(meant(m, rho, source), time));
    // the pair
    let g = zip.kids[0];
    let arg = zip.kids[1];
    assert(g.head == HeadS::Builtin(BuiltinS::Zip));
    assert(meant(m, rho, g).act is Zip);
    let ds = kids_meant(m, rho, arg);
    assert(arg.kids[0] == trigger && arg.kids[1] == as_of);
    assert(meant(m, rho, arg).parts == ds);
    assert(meant(m, rho, arg).val == Val::Tuple(vals(ds)));
    assert(meant(m, rho, zip) == act_on(m, meant(m, rho, g), meant(m, rho, arg)));
    let pair = seq![x, s];
    assert(each_at(ds, pos) =~= pair);
    let v = Val::Tuple(pair);
    assert((meant(m, rho, zip).at)(pos) == v);
    // the reply
    let env = pair_env(param, req, rs, p);
    let b = discharged(env, body)->0;
    let here = setting(rho, p, m.of(v));
    assert(reply.head == HeadS::Lambda(p) && reply.kids.len() == 1 && reply.kids[0] == b);
    assert((meant(m, rho, reply).at)(v) == meant(m, here, b).val);
    let ks = kids_meant(m, rho, out);
    assert(ks =~= seq![meant(m, rho, zip), meant(m, rho, reply)]);
    lemma_piped_two(meant(m, rho, zip), meant(m, rho, reply), pos);
    // what is put in
    let pe = var_s(p, pair_ty);
    lemma_var_meant(m, here, p, pair_ty);
    lemma_item_meant(m, here, pe, pair, 0, req);
    lemma_item_meant(m, here, pe, pair, 1, snap_ty);
    let snap = item_at(pe, 1, snap_ty);
    let want = at_position(m, rho, trigger, param, rs, pos);
    let start = Map::<NameS, ExprS>::empty().insert(param, item_at(pe, 0, req));
    if rs.len() == 1 {
        lemma_read_at(m, rho, trigger, param, rs, pos, 0);
        assert(s == (meant(m, rho, rs[0].hist).at)(time));
    } else {
        lemma_histories_sampled(m, rho, rs, time);
        lemma_fields_of(rs, snap);
    }
    let u = under_env(m, here, env);
    assert forall|n: NameS| #[trigger] free_in_value(n, body) && !(n is PiBound) implies u(n)
        == want(n) by {
        assert(n != p);
        if n == param {
            assert(env.dom().contains(n));
            if rs.len() == 1 {
                assert(rs[0].name != param);
            } else {
                assert(!fields_of(rs, snap).dom().contains(param)) by {
                    if fields_of(rs, snap).dom().contains(param) {
                        let i = choose|i: int| 0 <= i < rs.len() && (#[trigger] rs[i]).name == param;
                        assert(rs[i].name != param);
                    }
                }
            }
            assert(env[n] == item_at(pe, 0, req));
        } else if exists|i: int| 0 <= i < rs.len() && (#[trigger] rs[i]).name == n {
            let i = choose|i: int| 0 <= i < rs.len() && (#[trigger] rs[i]).name == n;
            lemma_read_at(m, rho, trigger, param, rs, pos, i);
            if rs.len() > 1 {
                lemma_field_meant(m, here, rho, param, rs, time, snap, i);
                assert(fields_of(rs, snap).dom().contains(n));
                assert(env[n] == fields_of(rs, snap)[rs[i].name]);
            } else {
                assert(i == 0);
                assert(env[n] == snap);
            }
        } else {
            if rs.len() == 1 {
                assert(rs[0].name != n);
            }
            assert(!env.dom().contains(n));
        }
    }
    assert(stands_for_names(env)) by {
        assert forall|n: NameS| #[trigger] env.dom().contains(n) implies !(n is PiBound) by {
            if n != param {
                if rs.len() == 1 {
                    assert(n == rs[0].name);
                    assert(rs[0].name != param);
                } else {
                    assert(fields_of(rs, snap).dom().contains(n));
                    let i = choose|i: int| 0 <= i < rs.len() && (#[trigger] rs[i]).name == n;
                    assert(rs[i].name != param);
                }
            }
        }
    }
    law_discharging_keeps_the_meaning(m, here, env, body);
    lemma_meant_by_free_names(m, u, want, body);
}

/// A reply over an as-of join of one history reads it as it stands at the position.
proof fn lemma_single_read(
    m: Model,
    rho: Valuation,
    trigger: ExprS,
    param: NameS,
    rs: Seq<ReadS>,
    body: ExprS,
    out_ty: TypeS,
    pos: Val,
)
    requires
        rs.len() == 1,
        told_reads(m, rho, param, rs),
        !free_in_value(param, body),
    ensures
        (meant(m, rho, single_s(trigger, rs[0], body, out_ty)).at)(pos) == meant(
            m,
            at_position(m, rho, trigger, param, rs, pos),
            body,
        ).val,
{
    let r = rs[0];
    let out = single_s(trigger, r, body, out_ty);
    let as_of = as_of_s(trigger, r.hist, r.value);
    let time = (m.time)(meant(m, rho, trigger), pos);
    lemma_as_of_meant(m, rho, trigger, r.hist, r.value);
    let s = (meant(m, rho, as_of).at)(pos);
    assert(rs[0].name != param);
    assert(s == (meant(m, rho, r.hist).at)(time));
    lemma_read_at(m, rho, trigger, param, rs, pos, 0);
    let want = at_position(m, rho, trigger, param, rs, pos);
    if body.head == HeadS::Var(r.name) {
        assert(meant(m, want, body) == want(r.name));
    } else {
        let reply = out.kids[1];
        let here = setting(rho, r.name, m.of(s));
        assert((meant(m, rho, reply).at)(s) == meant(m, here, body).val);
        let ks = kids_meant(m, rho, out);
        assert(ks =~= seq![meant(m, rho, as_of), meant(m, rho, reply)]);
        lemma_piped_two(meant(m, rho, as_of), meant(m, rho, reply), pos);
        assert forall|n: NameS| #[trigger] free_in_value(n, body) && !(n is PiBound) implies here(n)
            == want(n) by {
            assert(n != param);
            if n != r.name {
                assert(!exists|i: int| 0 <= i < rs.len() && (#[trigger] rs[i]).name == n);
            }
        }
        lemma_meant_by_free_names(m, here, want, body);
    }
}

/// Whether nothing in `e` binds `n`.
pub open spec fn binds_not(n: NameS, e: ExprS) -> bool
    decreases e,
{
    forall|i: int|
        0 <= i < e.kids.len() ==> !scope_of(e.head, i).contains(n) && binds_not(
            n,
            #[trigger] e.kids[i],
        )
}

/// Putting terms in for references is taking the names to mean what the terms mean,
/// where no binder comes between.
proof fn lemma_swapped_meant(m: Model, rho: Valuation, env: Map<NameS, ExprS>, x: NameS, e: ExprS)
    requires
        leafy(e),
        stands_for_names(env),
        binds_not(x, e),
        forall|n: NameS| #[trigger] env.dom().contains(n) ==> binds_not(n, e),
        forall|n: NameS, w: NameS|
            #![trigger env.dom().contains(n), free_in_value(w, env[n])]
            env.dom().contains(n) && free_in_value(w, env[n]) ==> w == x,
    ensures
        meant(m, rho, swapped(SwapS::Reference, env, e)) == meant(m, under_env(m, rho, env), e),
    decreases e,
{
    let out = swapped(SwapS::Reference, env, e);
    let u = under_env(m, rho, env);
    match e.head {
        HeadS::Var(n) => {
            if !env.dom().contains(n) {
                assert(out.kids =~= e.kids);
            }
        },
        _ => {
            assert forall|i: int| 0 <= i < out.kids.len() implies #[trigger] kid_alike(
                m,
                rho,
                out,
                u,
                e,
                i,
            ) by {
                let ns = scope_of(e.head, i);
                let kid = e.kids[i];
                assert forall|n: NameS| #[trigger] env.dom().contains(n) implies binds_not(n, kid)
                    && !ns.contains(n) by {
                    assert(binds_not(n, e));
                }
                assert(binds_not(x, kid) && !ns.contains(x));
                assert forall|ds: Seq<Meant>| #[trigger]
                    meant(m, setting_all(rho, scope_of(out.head, i), ds), out.kids[i]) == meant(
                        m,
                        setting_all(u, scope_of(out.head, i), ds),
                        e.kids[i],
                    ) by {
                    let r1 = setting_all(rho, ns, ds);
                    lemma_swapped_meant(m, r1, env, x, kid);
                    let u1 = under_env(m, r1, env);
                    let u2 = setting_all(u, ns, ds);
                    assert forall|n: NameS| #[trigger] free_in_value(n, kid) && !(n is PiBound)
                        implies u1(n) == u2(n) by {
                        if env.dom().contains(n) {
                            assert forall|w: NameS| #[trigger] free_in_value(w, env[n]) && !(
                            w is PiBound) implies r1(w) == rho(w) by {
                                assert(w == x);
                            }
                            lemma_meant_by_free_names(m, r1, rho, env[n]);
                        }
                    }
                    lemma_meant_by_free_names(m, u1, u2, kid);
                }
            }
            lemma_alike(m, rho, out, u, e);
        },
    }
}

proof fn lemma_field_refers(snap: NameS, ty: TypeS, f: Seq<char>, v: TypeS, w: NameS)
    requires
        free_in_value(w, field_at(var_s(snap, ty), f, v)),
    ensures
        w == snap,
{
    let e = field_at(var_s(snap, ty), f, v);
    let i = choose|i: int|
        0 <= i < e.kids.len() && !scope_of(e.head, i).contains(w) && free_in_value(
            w,
            #[trigger] e.kids[i],
        );
    assert(e.kids[i].kids.len() == 0);
    assert(own_ref(e.kids[i].head) == Some(w));
}

/// A reply over a snapshot of several histories reads each as it stands at the position.
proof fn lemma_snapshot_read(
    m: Model,
    rho: Valuation,
    trigger: ExprS,
    param: NameS,
    rs: Seq<ReadS>,
    body: ExprS,
    out_ty: TypeS,
    uid: u64,
    pos: Val,
)
    requires
        told_reads(m, rho, param, rs),
        !free_in_value(param, body),
        leafy(body),
        !free_in_value(NameS::Fresh("__snap"@, uid), body),
        binds_not(NameS::Fresh("__snap"@, uid), body),
        forall|i: int| 0 <= i < rs.len() ==> binds_not((#[trigger] rs[i]).name, body),
    ensures
        (meant(m, rho, snapshot_s(trigger, rs, body, out_ty, uid)).at)(pos) == meant(
            m,
            at_position(m, rho, trigger, param, rs, pos),
            body,
        ).val,
{
    let snap = NameS::Fresh("__snap"@, uid);
    let ty = snapshot_ty(rs);
    let out = snapshot_s(trigger, rs, body, out_ty, uid);
    let as_of = as_of_s(trigger, histories_s(rs), ty);
    let time = (m.time)(meant(m, rho, trigger), pos);
    lemma_as_of_meant(m, rho, trigger, histories_s(rs), ty);
    lemma_histories_sampled(m, rho, rs, time);
    let s = (meant(m, rho, as_of).at)(pos);
    let reply = out.kids[1];
    let here = setting(rho, snap, m.of(s));
    let env = first_fields(rs, var_s(snap, ty));
    let b = swapped(SwapS::Reference, env, body);
    assert(reply.head == HeadS::Lambda(snap) && reply.kids.len() == 1 && reply.kids[0] == b);
    assert((meant(m, rho, reply).at)(s) == meant(m, here, b).val);
    let ks = kids_meant(m, rho, out);
    assert(ks =~= seq![meant(m, rho, as_of), meant(m, rho, reply)]);
    lemma_piped_two(meant(m, rho, as_of), meant(m, rho, reply), pos);
    lemma_var_meant(m, here, snap, ty);
    lemma_fields_of(rs, var_s(snap, ty));
    let want = at_position(m, rho, trigger, param, rs, pos);
    assert forall|n: NameS| #[trigger] env.dom().contains(n) implies binds_not(n, body) && !(
    n is PiBound) by {
        let i = choose|i: int| 0 <= i < rs.len() && (#[trigger] rs[i]).name == n;
        assert(rs[i].name != param);
    }
    assert forall|n: NameS, w: NameS|
        #![trigger env.dom().contains(n), free_in_value(w, env[n])]
        env.dom().contains(n) && free_in_value(w, env[n]) implies w == snap by {
        let i = choose|i: int| 0 <= i < rs.len() && (#[trigger] rs[i]).name == n;
        assert(env[rs[i].name] == field_at(var_s(snap, ty), rs[i].field, rs[i].value));
        lemma_field_refers(snap, ty, rs[i].field, rs[i].value, w);
    }
    lemma_swapped_meant(m, here, env, snap, body);
    let u = under_env(m, here, env);
    assert forall|n: NameS| #[trigger] free_in_value(n, body) && !(n is PiBound) implies u(n)
        == want(n) by {
        assert(n != snap && n != param);
        if exists|i: int| 0 <= i < rs.len() && (#[trigger] rs[i]).name == n {
            let i = choose|i: int| 0 <= i < rs.len() && (#[trigger] rs[i]).name == n;
            lemma_read_at(m, rho, trigger, param, rs, pos, i);
            lemma_field_meant(m, here, rho, param, rs, time, var_s(snap, ty), i);
            assert(env.dom().contains(n));
            assert(env[rs[i].name] == field_at(var_s(snap, ty), rs[i].field, rs[i].value));
        } else {
            assert(!env.dom().contains(n));
        }
    }
    lemma_meant_by_free_names(m, u, want, body);
}

/// What a loop that is made an as-of join gives at each of its positions is its reply as
/// it reads there: the parameter means the request at that position, and each variable
/// read what its history holds at the time the position reads at.
pub proof fn law_a_reply_reads_as_of_its_position(
    m: Model,
    rho: Valuation,
    e: ExprS,
    uid: u64,
    out: ExprS,
    minted: bool,
    pos: Val,
)
    requires
        as_of_join_s(e, uid) == JoinS::Rewritten(out, minted),
        ({
            let lam = chain_rest(e).kids[1];
            let param = lam.head->Lambda_0;
            let rs = read_chain(e);
            let body = lam.kids[0];
            &&& leafy(body) && !(param is PiBound)
            &&& told_reads(m, rho, param, rs)
            &&& !free_in_value(NameS::Fresh("__zp"@, uid), body)
            &&& !free_in_value(NameS::Fresh("__snap"@, uid), body)
            &&& binds_not(NameS::Fresh("__snap"@, uid), body)
            &&& forall|i: int| 0 <= i < rs.len() ==> binds_not((#[trigger] rs[i]).name, body)
        }),
    ensures
        ({
            let rest = chain_rest(e);
            let lam = rest.kids[1];
            let here = at_position(
                m,
                rho,
                rest.kids[0],
                lam.head->Lambda_0,
                read_chain(e),
                pos,
            );
            (meant(m, rho, out).at)(pos) == meant(m, here, lam.kids[0]).val
        }),
{
    let rs = read_chain(e);
    let rest = chain_rest(e);
    let trigger = rest.kids[0];
    let lam = rest.kids[1];
    let body = lam.kids[0];
    let param = lam.head->Lambda_0;
    let used = used_reads(rs, body);
    lemma_used(rs, body);
    lemma_used_told(m, rho, param, rs, body);
    lemma_used_position(m, rho, trigger, param, rs, body, pos);
    lemma_meant_by_free_names(
        m,
        at_position(m, rho, trigger, param, used, pos),
        at_position(m, rho, trigger, param, rs, pos),
        body,
    );
    if free_in_value(param, body) {
        lemma_zip_read(
            m,
            rho,
            trigger,
            param,
            lam.tys[lead(lam)],
            used,
            body,
            e.ty(),
            uid,
            pos,
        );
    } else if used.len() == 1 {
        lemma_single_read(m, rho, trigger, param, used, body, e.ty(), pos);
    } else {
        assert forall|i: int| 0 <= i < used.len() implies binds_not(
            (#[trigger] used[i]).name,
            body,
        ) by {
            assert(rs.contains(used[i]));
            let j = choose|j: int| 0 <= j < rs.len() && rs[j] == used[i];
            assert(binds_not(rs[j].name, body));
        }
        lemma_snapshot_read(m, rho, trigger, param, used, body, e.ty(), uid, pos);
    }
}

/// Dropping the reads that nothing names leaves what a program means.
pub proof fn law_dropping_dead_reads_keeps_the_meaning(m: Model, rho: Valuation, e: ExprS)
    requires
        leafy(e),
    ensures
        meant(m, rho, live_reads(e)) == meant(m, rho, e),
    decreases e,
{
    let out = live_reads(e);
    let ks = live_kids(e);
    assert(ks.len() == e.kids.len());
    if binds_read(e) && !free_in_value(e.head->Let_0, e.kids[1]) {
        law_dropping_dead_reads_keeps_the_meaning(m, rho, e.kids[1]);
        lemma_unread(m, rho, e.head->Let_0, meant(m, rho, e.kids[0]), e.kids[1]);
    } else if e.head is Var {
        assert(out.kids =~= e.kids);
    } else {
        assert forall|i: int| 0 <= i < out.kids.len() implies #[trigger] kid_alike(
            m,
            rho,
            out,
            rho,
            e,
            i,
        ) by {
            assert forall|ds: Seq<Meant>| #[trigger]
                meant(m, setting_all(rho, scope_of(out.head, i), ds), out.kids[i]) == meant(
                    m,
                    setting_all(rho, scope_of(out.head, i), ds),
                    e.kids[i],
                ) by {
                law_dropping_dead_reads_keeps_the_meaning(
                    m,
                    setting_all(rho, scope_of(out.head, i), ds),
                    e.kids[i],
                );
            }
        }
        lemma_alike(m, rho, out, rho, e);
    }
}

} // verus!
