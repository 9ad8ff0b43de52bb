//! The laws of commit stores: what a variable's history holds is what the blocks that
//! write it committed to it.

use vstd::prelude::*;
use crate::ast::{BuiltinS, ExprS, FieldKeyS, HeadS, TypeS};
use crate::cross_domain::DefS;
use crate::decision::{F_WRITES, commit_project_s, field_ty};
use crate::make::{
    apply_s, builtin_s, codomain_of, fun_ty, proj_field_s, proj_index_s, term, txn_ty, var_s,
};
use crate::meaning::{
    Meant, Model, Val, Valuation, act_on, each_at, kids_meant, kids_open, label_place,
    left_open, meant, piped, setting, taken, together, vals,
};
use crate::name::{NameS, NameSupply};
use crate::scope::{free_in_value, own_ref};
use crate::store::{
    CommitS, StoreS, commit_defs, commit_s, ends_of, histories, history_def, key_commits,
    key_view, later, planned_writers, snap_read, snapshot_of, store_s, targets_of, views_in,
    views_of,
};
use crate::txn_terms::{history_s, value_ty_of};
use crate::writer::{WriterS, key_tys};
use crate::writer_laws::{lemma_apply_meant, lemma_label_place, lemma_unread, lemma_var_meant};

verus! {

pub proof fn lemma_piped_push(ds: Seq<Meant>, d: Meant, x: Val)
    ensures
        piped(ds.push(d), x) == (d.at)(piped(ds, x)),
{
    assert(ds.push(d).drop_last() =~= ds);
}

pub proof fn lemma_piped_one(d: Meant, x: Val)
    ensures
        piped(seq![d], x) == (d.at)(x),
{
    assert(seq![d] =~= Seq::<Meant>::empty().push(d));
    lemma_piped_push(Seq::empty(), d, x);
}

pub proof fn lemma_piped_two(a: Meant, b: Meant, x: Val)
    ensures
        piped(seq![a, b], x) == (b.at)((a.at)(x)),
{
    lemma_piped_one(a, x);
    assert(seq![a, b] =~= seq![a].push(b));
    lemma_piped_push(seq![a], b, x);
}

/// What a projection gives at a value that has the component.
pub proof fn lemma_projection(m: Model, rho: Valuation, k: FieldKeyS, ty: TypeS, v: Val)
    ensures
        taken(k, v) matches Some(w) ==> (meant(m, rho, term(HeadS::Proj(k), Seq::empty(), ty)).at)(
            v,
        ) == w,
{
}

/// The time at which the transaction of a position begins.
pub open spec fn begun(m: Model, pos: Val) -> Val {
    ((m.form)(HeadS::Builtin(BuiltinS::BeginTxn), Seq::empty()).at)(pos)
}

/// What a commit record writes, where its transaction commits.
pub open spec fn committed_writes(record: Val) -> Option<Seq<Val>> {
    match taken(FieldKeyS::Name("decision"@), record) {
        Some(Val::Tagged(tag, payload)) => if tag == "commit"@ {
            match taken(FieldKeyS::Name("writes"@), *payload) {
                Some(Val::Tuple(vs)) => Some(vs),
                _ => None,
            }
        } else {
            None
        },
        _ => None,
    }
}

/// Whether `out`, what a variable's view of a stream of commits has at a position, is the
/// time of the commit `record` and component `i` of what it writes.
pub open spec fn shows_write(out: Val, record: Val, i: int) -> bool {
    &&& taken(FieldKeyS::Name("time"@), record) matches Some(t) ==> taken(
        FieldKeyS::Name("time"@),
        out,
    ) == Some(t)
    &&& committed_writes(record) matches Some(vs) ==> 0 <= i < vs.len() ==> taken(
        FieldKeyS::Name("write"@),
        out,
    ) == Some(vs[i])
}

/// The view of a variable that takes component `idx` shows component `idx`.
proof fn lemma_key_view_meant(
    m: Model,
    rho: Valuation,
    c: CommitS,
    idx: usize,
    writes_ty: TypeS,
    v: TypeS,
    pos: Val,
)
    requires
        !(c.name is PiBound),
    ensures
        shows_write(
            (meant(m, rho, key_view(c, idx, writes_ty, v)).at)(pos),
            (rho(c.name).at)(pos),
            idx as int,
        ),
{
    let e = key_view(c, idx, writes_ty, v);
    let zip = e.kids[0];
    let record = e.kids[1];
    let time = record.kids[0];
    let write = record.kids[1];
    let rec = (rho(c.name).at)(pos);
    let ds = kids_meant(m, rho, record);
    assert(ds[0] == meant(m, rho, time) && ds[1] == meant(m, rho, write));
    let out = (meant(m, rho, e).at)(pos);
    assert(zip.head == HeadS::Builtin(BuiltinS::Zip));
    assert(meant(m, rho, zip).act is Zip);
    let labels = seq!["time"@, "write"@];
    assert(record.head == HeadS::Record(labels));
    assert(meant(m, rho, record).val == Val::Record(labels, vals(ds)));
    assert(meant(m, rho, record).parts == ds);
    assert(meant(m, rho, e) == act_on(m, meant(m, rho, zip), meant(m, rho, record)));
    assert(out == together(meant(m, rho, record), pos));
    assert(out == Val::Record(seq!["time"@, "write"@], each_at(ds, pos)));
    // the time
    let s = var_s(c.name, c.ty());
    lemma_var_meant(m, rho, c.name, c.ty());
    let pt = proj_field_s("time"@, fun_ty(c.rec_ty, txn_ty()));
    let ts = kids_meant(m, rho, time);
    assert(ts =~= seq![meant(m, rho, s), meant(m, rho, pt)]);
    lemma_piped_two(meant(m, rho, s), meant(m, rho, pt), pos);
    lemma_projection(m, rho, FieldKeyS::Name("time"@), fun_ty(c.rec_ty, txn_ty()), rec);
    // the write
    let d1 = meant(m, rho, s);
    let p2 = proj_field_s("decision"@, fun_ty(c.rec_ty, c.decision_ty));
    let p3 = commit_project_s(c.decision_ty, c.payload_ty);
    let p4 = proj_field_s("writes"@, fun_ty(c.payload_ty, writes_ty));
    let p5 = proj_index_s(idx, fun_ty(writes_ty, v));
    let (d2, d3, d4, d5) = (
        meant(m, rho, p2),
        meant(m, rho, p3),
        meant(m, rho, p4),
        meant(m, rho, p5),
    );
    assert(write.kids =~= seq![s, p2, p3, p4, p5]);
    let ws = kids_meant(m, rho, write);
    assert(ws =~= seq![d1, d2].push(d3).push(d4).push(d5));
    lemma_piped_two(d1, d2, pos);
    lemma_piped_push(seq![d1, d2], d3, pos);
    lemma_piped_push(seq![d1, d2].push(d3), d4, pos);
    lemma_piped_push(seq![d1, d2].push(d3).push(d4), d5, pos);
    lemma_projection(m, rho, FieldKeyS::Name("decision"@), fun_ty(c.rec_ty, c.decision_ty), rec);
    match taken(FieldKeyS::Name("decision"@), rec) {
        Some(Val::Tagged(tag, payload)) => {
            lemma_projection(
                m,
                rho,
                FieldKeyS::Name("writes"@),
                fun_ty(c.payload_ty, writes_ty),
                *payload,
            );
            match taken(FieldKeyS::Name("writes"@), *payload) {
                Some(Val::Tuple(vs)) => {
                    lemma_projection(
                        m,
                        rho,
                        FieldKeyS::Index(idx),
                        fun_ty(writes_ty, v),
                        Val::Tuple(vs),
                    );
                },
                _ => {},
            }
        },
        _ => {},
    }
    lemma_two_labels(out);
}

/// The components of a value with a time and a write.
proof fn lemma_two_labels(out: Val)
    requires
        out matches Val::Record(ls, vs) && ls == seq!["time"@, "write"@] && vs.len() == 2,
    ensures
        out matches Val::Record(_, vs) && taken(FieldKeyS::Name("time"@), out) == Some(vs[0])
            && taken(FieldKeyS::Name("write"@), out) == Some(vs[1]),
{
    let ls = seq!["time"@, "write"@];
    reveal_strlit("time");
    reveal_strlit("write");
    assert("time"@ != "write"@) by {
        assert("time"@.len() != "write"@.len());
    }
    lemma_label_place(ls, "time"@, 0);
    lemma_label_place(ls, "write"@, 0);
    assert(ls[0] == "time"@ && ls[1] == "write"@);
    assert(label_place(ls, "time"@, 0) == 0);
    assert(label_place(ls, "write"@, 0) == 1);
}

/// The components of a commit record.
proof fn lemma_three_labels(out: Val)
    requires
        out matches Val::Record(ls, vs) && ls == seq!["time"@, "write_targets"@, "decision"@]
            && vs.len() == 3,
    ensures
        out matches Val::Record(_, vs) && taken(FieldKeyS::Name("time"@), out) == Some(vs[0])
            && taken(FieldKeyS::Name("write_targets"@), out) == Some(vs[1]) && taken(
            FieldKeyS::Name("decision"@),
            out,
        ) == Some(vs[2]),
{
    let ls = seq!["time"@, "write_targets"@, "decision"@];
    reveal_strlit("time");
    reveal_strlit("write_targets");
    reveal_strlit("decision");
    assert("time"@.len() == 4 && "write_targets"@.len() == 13 && "decision"@.len() == 8);
    lemma_label_place(ls, "time"@, 0);
    lemma_label_place(ls, "write_targets"@, 0);
    lemma_label_place(ls, "decision"@, 0);
    assert(ls[0] == "time"@ && ls[1] == "write_targets"@ && ls[2] == "decision"@);
    assert(label_place(ls, "time"@, 0) == 0);
    assert(label_place(ls, "write_targets"@, 0) == 1);
    assert(label_place(ls, "decision"@, 0) == 2);
}

/// What the histories of `keys` hold at a time.
pub open spec fn held_at(
    rho: Valuation,
    hist: Map<NameS, NameS>,
    keys: Seq<NameS>,
    time: Val,
) -> Seq<Val> {
    Seq::new(keys.len(), |i: int| (rho(hist[keys[i]]).at)(time))
}

/// Whether the histories of `keys` are named, by other names than `r` and `t`, and are
/// functions of time.
pub open spec fn histories_named(
    rho: Valuation,
    hist: Map<NameS, NameS>,
    keys: Seq<NameS>,
    r: NameS,
    t: NameS,
) -> bool {
    forall|i: int|
        0 <= i < keys.len() ==> !(hist[#[trigger] keys[i]] is PiBound) && hist[keys[i]] != r
            && hist[keys[i]] != t && rho(hist[keys[i]]).act is Pointwise
}

/// A commit record is made at the time its transaction begins. Its decision is the
/// writer's, on what the histories it reads hold at that time and the item of its loop.
pub proof fn law_a_commit_decides_on_what_holds_at_its_time(
    m: Model,
    rho: Valuation,
    w: WriterS,
    name: NameS,
    hist: Map<NameS, NameS>,
    inits: Map<NameS, ExprS>,
    uid: u64,
    c: CommitS,
    pos: Val,
)
    requires
        commit_s(w, name, hist, inits, uid) == Some(c),
        ({
            let r = NameS::Fresh("__r"@, uid);
            let t = NameS::Fresh("__t"@, NameSupply::after(uid));
            &&& !free_in_value(r, w.source) && !free_in_value(r, w.body)
            &&& !free_in_value(t, w.source) && !free_in_value(t, w.body)
            &&& histories_named(rho, hist, w.read_keys, r, t)
            &&& histories_named(rho, hist, w.write_keys, r, t)
        }),
        meant(m, rho, w.source).act is Pointwise,
        meant(m, rho, w.body).act is Pointwise,
    ensures
        c.name == name,
        ({
            let record = (meant(m, rho, c.def).at)(pos);
            let time = begun(m, pos);
            let item = (meant(m, rho, w.source).at)(pos);
            let seen = Val::Tuple(held_at(rho, hist, w.read_keys, time).push(item));
            &&& taken(FieldKeyS::Name("time"@), record) == Some(time)
            &&& taken(FieldKeyS::Name("write_targets"@), record) == Some(
                Val::Tuple(Seq::new(w.write_keys.len(), |i: int| rho(hist[w.write_keys[i]]).val)),
            )
            &&& taken(FieldKeyS::Name("decision"@), record) == Some(
                (meant(m, rho, w.body).at)(seen),
            )
        }),
{
    let r = NameS::Fresh("__r"@, uid);
    let t = NameS::Fresh("__t"@, NameSupply::after(uid));
    reveal_strlit("__r");
    reveal_strlit("__t");
    assert(r != t) by {
        assert("__r"@[2] != "__t"@[2]);
    }
    let (dom, item_ty) = ends_of(w.source.ty())->0;
    let decision_ty = codomain_of(w.body.ty())->0;
    let let_e = c.def.kids[0];
    let begin = let_e.kids[0];
    let rec = let_e.kids[1];
    let r1 = setting(rho, r, m.of(pos));
    let time = begun(m, pos);
    let b = builtin_s(BuiltinS::BeginTxn, fun_ty(dom, txn_ty()));
    assert(kids_open(m, r1, b) =~= Seq::empty());
    lemma_var_meant(m, r1, r, dom);
    lemma_apply_meant(m, r1, var_s(r, dom), b, txn_ty());
    assert(left_open(m, r1, b) == (m.form)(HeadS::Builtin(BuiltinS::BeginTxn), Seq::empty()));
    assert((meant(m, r1, b).at)(pos) == time);
    assert(begin == apply_s(var_s(r, dom), b, txn_ty()));
    assert(meant(m, r1, begin) == m.of(time));
    let r2 = setting(r1, t, m.of(time));
    lemma_var_meant(m, r2, t, txn_ty());
    lemma_var_meant(m, r2, r, dom);
    lemma_unread(m, rho, r, m.of(pos), w.source);
    lemma_unread(m, rho, r, m.of(pos), w.body);
    lemma_unread(m, r1, t, m.of(time), w.source);
    lemma_unread(m, r1, t, m.of(time), w.body);
    assert(let_e.head == HeadS::Let(t) && let_e.kids.len() == 2);
    assert(meant(m, r1, let_e) == meant(m, r2, rec));
    assert(c.def.head == HeadS::Lambda(r) && c.def.kids.len() == 1);
    assert((meant(m, rho, c.def).at)(pos) == meant(m, r1, let_e).val);
    let ds = kids_meant(m, r2, rec);
    // what it reads
    let vs = key_tys(w.read_keys, inits);
    let snap = snapshot_of(w, hist, vs, dom, item_ty, r, t);
    let item = (meant(m, rho, w.source).at)(pos);
    let want = held_at(rho, hist, w.read_keys, time).push(item);
    let ss = kids_meant(m, r2, snap);
    assert forall|i: int| 0 <= i < ss.len() implies (#[trigger] ss[i]).val == want[i] by {
        if i < w.read_keys.len() {
            let h = hist[w.read_keys[i]];
            lemma_var_meant(m, r2, h, history_s(vs[i]));
            lemma_apply_meant(m, r2, var_s(t, txn_ty()), var_s(h, history_s(vs[i])), vs[i]);
            assert(snap.kids[i] == snap_read(t, h, vs[i]));
        } else {
            lemma_apply_meant(m, r2, var_s(r, dom), w.source, item_ty);
        }
    }
    assert(vals(ss) =~= want);
    assert(meant(m, r2, snap).val == Val::Tuple(want));
    lemma_apply_meant(m, r2, snap, w.body, decision_ty);
    // what it writes
    let ws = key_tys(w.write_keys, inits);
    let targets = targets_of(w, hist, ws);
    let ts = kids_meant(m, r2, targets);
    let named = Seq::new(w.write_keys.len(), |i: int| rho(hist[w.write_keys[i]]).val);
    assert forall|i: int| 0 <= i < ts.len() implies (#[trigger] ts[i]).val == named[i] by {
        let h = hist[w.write_keys[i]];
        lemma_var_meant(m, r2, h, history_s(ws[i]));
        assert(targets.kids[i] == var_s(h, history_s(ws[i])));
    }
    assert(vals(ts) =~= named);
    assert(meant(m, r2, targets).val == Val::Tuple(named));
    assert(rec.kids[0] == var_s(t, txn_ty()));
    assert(rec.kids[1] == targets);
    assert(rec.kids[2] == apply_s(snap, w.body, decision_ty));
    assert(rec.head == HeadS::Record(seq!["time"@, "write_targets"@, "decision"@]));
    assert(vals(ds)[0] == time && vals(ds)[1] == Val::Tuple(named));
    lemma_three_labels(meant(m, r2, rec).val);
}

/// Whether a view of variable `k` shows, at every position, what the commit stream
/// `stream` writes to component `i`.
pub open spec fn views_component(
    m: Model,
    rho: Valuation,
    view: ExprS,
    stream: NameS,
    i: int,
) -> bool {
    forall|pos: Val| #[trigger]
        shows_write((meant(m, rho, view).at)(pos), (rho(stream).at)(pos), i)
}

/// A place where a writer writes a variable: the writer and the place in what it writes.
pub struct Spot {
    pub writer: int,
    pub at: int,
}

/// Whether `s` is a place where one of the first `n` writers writes `k`.
pub open spec fn writes_at(ws: Seq<WriterS>, k: NameS, n: nat, s: Spot) -> bool {
    0 <= s.writer < n && 0 <= s.at < ws[s.writer].write_keys.len()
        && ws[s.writer].write_keys[s.at] == k
}

/// Whether `spots` are the places where the first `n` writers write `k`, each once.
pub open spec fn lists_writes(ws: Seq<WriterS>, k: NameS, n: nat, spots: Seq<Spot>) -> bool {
    &&& forall|s: Spot| #[trigger] spots.contains(s) <==> writes_at(ws, k, n, s)
    &&& forall|p: int, q: int|
        0 <= p < q < spots.len() ==> (#[trigger] spots[p]) != (#[trigger] spots[q])
}

/// Whether the views of variable `k` are one for each place where a writer writes it,
/// and each shows what that writer commits at that place.
pub open spec fn views_writes(
    m: Model,
    rho: Valuation,
    ws: Seq<WriterS>,
    cs: Seq<CommitS>,
    k: NameS,
    n: nat,
    views: Seq<ExprS>,
    spots: Seq<Spot>,
) -> bool {
    &&& lists_writes(ws, k, n, spots)
    &&& views.len() == spots.len()
    &&& forall|q: int|
        0 <= q < views.len() ==> views_component(
            m,
            rho,
            #[trigger] views[q],
            cs[spots[q].writer].name,
            spots[q].at,
        )
}

proof fn lemma_views_in(
    m: Model,
    rho: Valuation,
    c: CommitS,
    keys: Seq<NameS>,
    k: NameS,
    v: TypeS,
    n: nat,
    j: int,
) -> (spots: Seq<Spot>)
    requires
        views_in(c, keys, k, v, n) is Some,
        n <= keys.len() <= usize::MAX,
        !(c.name is PiBound),
    ensures
        forall|s: Spot| #[trigger]
            spots.contains(s) <==> s.writer == j && 0 <= s.at < n && keys[s.at] == k,
        forall|p: int, q: int|
            0 <= p < q < spots.len() ==> (#[trigger] spots[p]) != (#[trigger] spots[q]),
        views_in(c, keys, k, v, n)->0.len() == spots.len(),
        forall|q: int|
            0 <= q < spots.len() ==> views_component(
                m,
                rho,
                #[trigger] views_in(c, keys, k, v, n)->0[q],
                c.name,
                spots[q].at,
            ),
    decreases n,
{
    if n == 0 {
        Seq::empty()
    } else {
        let before = lemma_views_in(m, rho, c, keys, k, v, (n - 1) as nat, j);
        let vs = views_in(c, keys, k, v, (n - 1) as nat)->0;
        let all = views_in(c, keys, k, v, n)->0;
        if keys[n - 1] == k {
            let s = Spot { writer: j, at: n - 1 };
            let out = before.push(s);
            assert forall|x: Spot| #[trigger]
                out.contains(x) <==> x.writer == j && 0 <= x.at < n && keys[x.at] == k by {
                if before.contains(x) {
                    let q = choose|q: int| 0 <= q < before.len() && before[q] == x;
                    assert(out[q] == x);
                }
                if x == s {
                    assert(out[before.len() as int] == x);
                }
                if out.contains(x) && x != s {
                    let q = choose|q: int| 0 <= q < out.len() && out[q] == x;
                    assert(before[q] == x);
                    assert(before.contains(x));
                }
            }
            assert forall|p: int, q: int| 0 <= p < q < out.len() implies (#[trigger] out[p]) != (
            #[trigger] out[q]) by {
                if q == before.len() {
                    assert(before.contains(before[p]));
                } else {
                    assert(before[p] != before[q]);
                }
            }
            let writes_ty = field_ty(c.payload_ty, F_WRITES@)->0;
            let view = key_view(c, (n - 1) as usize, writes_ty, v);
            assert forall|pos: Val| #[trigger]
                shows_write((meant(m, rho, view).at)(pos), (rho(c.name).at)(pos), n - 1) by {
                lemma_key_view_meant(m, rho, c, (n - 1) as usize, writes_ty, v, pos);
            }
            assert forall|q: int| 0 <= q < out.len() implies views_component(
                m,
                rho,
                #[trigger] all[q],
                c.name,
                out[q].at,
            ) by {
                if q < before.len() {
                    assert(all[q] == vs[q]);
                }
            }
            out
        } else {
            before
        }
    }
}

/// The views of a variable are those of the writers that write it: one for each place
/// where a writer writes it, showing what that writer commits there.
pub proof fn law_views_are_of_what_writes(
    m: Model,
    rho: Valuation,
    ws: Seq<WriterS>,
    cs: Seq<CommitS>,
    k: NameS,
    v: TypeS,
    n: nat,
) -> (spots: Seq<Spot>)
    requires
        views_of(ws, cs, k, v, n) is Some,
        n <= ws.len(),
        n <= cs.len(),
        forall|j: int|
            0 <= j < n ==> (#[trigger] ws[j]).write_keys.len() <= usize::MAX && !(cs[j].name is PiBound),
    ensures
        views_writes(m, rho, ws, cs, k, n, views_of(ws, cs, k, v, n)->0, spots),
    decreases n,
{
    if n == 0 {
        Seq::empty()
    } else {
        let a = law_views_are_of_what_writes(m, rho, ws, cs, k, v, (n - 1) as nat);
        let c = cs[n - 1];
        let keys = ws[n - 1].write_keys;
        assert(keys.len() <= usize::MAX);
        let b = lemma_views_in(m, rho, c, keys, k, v, keys.len(), n - 1);
        let va = views_of(ws, cs, k, v, (n - 1) as nat)->0;
        let vb = views_in(c, keys, k, v, keys.len())->0;
        let out = a + b;
        let all = views_of(ws, cs, k, v, n)->0;
        assert(all == va + vb);
        assert forall|s: Spot| #[trigger] out.contains(s) <==> writes_at(ws, k, n, s) by {
            if a.contains(s) {
                let q = choose|q: int| 0 <= q < a.len() && a[q] == s;
                assert(out[q] == s);
            }
            if b.contains(s) {
                let q = choose|q: int| 0 <= q < b.len() && b[q] == s;
                assert(out[a.len() + q] == s);
            }
            if out.contains(s) {
                let q = choose|q: int| 0 <= q < out.len() && out[q] == s;
                if q < a.len() {
                    assert(a[q] == s);
                    assert(a.contains(s));
                } else {
                    assert(b[q - a.len()] == s);
                    assert(b.contains(s));
                }
            }
        }
        assert forall|p: int, q: int| 0 <= p < q < out.len() implies (#[trigger] out[p]) != (
        #[trigger] out[q]) by {
            if q < a.len() {
                assert(a[p] != a[q]);
            } else if p >= a.len() {
                assert(b[p - a.len()] != b[q - a.len()]);
            } else {
                assert(a.contains(a[p]));
                assert(b.contains(b[q - a.len()]));
            }
        }
        assert forall|q: int| 0 <= q < all.len() implies views_component(
            m,
            rho,
            #[trigger] all[q],
            cs[out[q].writer].name,
            out[q].at,
        ) by {
            if q < va.len() {
                assert(all[q] == va[q]);
                assert(out[q] == a[q]);
            } else {
                assert(all[q] == vb[q - va.len()]);
                assert(out[q] == b[q - a.len()]);
                assert(b.contains(b[q - a.len()]));
            }
        }
        out
    }
}

/// Whether `e` refers to no name but `n`.
spec fn refers_only_to(n: NameS, e: ExprS) -> bool
    decreases e,
{
    (own_ref(e.head) matches Some(k) ==> k == n) && forall|i: int|
        0 <= i < e.kids.len() ==> refers_only_to(n, #[trigger] e.kids[i])
}

proof fn lemma_refers_only_to(n: NameS, k: NameS, e: ExprS)
    requires
        refers_only_to(n, e),
        k != n,
    ensures
        !free_in_value(k, e),
    decreases e,
{
    assert forall|i: int| 0 <= i < e.kids.len() implies !free_in_value(k, #[trigger] e.kids[i]) by {
        lemma_refers_only_to(n, k, e.kids[i]);
    }
}

proof fn lemma_view_refers(c: CommitS, idx: usize, writes_ty: TypeS, v: TypeS)
    ensures
        refers_only_to(c.name, key_view(c, idx, writes_ty, v)),
{
    reveal_with_fuel(refers_only_to, 5);
    let e = key_view(c, idx, writes_ty, v);
    let record = e.kids[1];
    let time = record.kids[0];
    let write = record.kids[1];
    assert(refers_only_to(c.name, e.kids[0]));
    assert forall|i: int| 0 <= i < time.kids.len() implies refers_only_to(
        c.name,
        #[trigger] time.kids[i],
    ) by {}
    assert(write.kids.len() == 5);
    assert forall|i: int| 0 <= i < write.kids.len() implies refers_only_to(
        c.name,
        #[trigger] write.kids[i],
    ) by {}
    assert(refers_only_to(c.name, time));
    assert(refers_only_to(c.name, write));
    assert(refers_only_to(c.name, record)) by {
        assert forall|i: int| 0 <= i < record.kids.len() implies refers_only_to(
            c.name,
            #[trigger] record.kids[i],
        ) by {}
    }
    assert forall|i: int| 0 <= i < e.kids.len() implies refers_only_to(
        c.name,
        #[trigger] e.kids[i],
    ) by {}
}

/// A name that is no commit stream's is free in no view.
proof fn lemma_views_free(
    ws: Seq<WriterS>,
    cs: Seq<CommitS>,
    k: NameS,
    v: TypeS,
    n: nat,
    x: NameS,
)
    requires
        views_of(ws, cs, k, v, n) is Some,
        n <= cs.len(),
        forall|j: int| 0 <= j < n ==> (#[trigger] cs[j]).name != x,
    ensures
        forall|q: int|
            0 <= q < views_of(ws, cs, k, v, n)->0.len() ==> !free_in_value(
                x,
                #[trigger] views_of(ws, cs, k, v, n)->0[q],
            ),
    decreases n,
{
    if n > 0 {
        lemma_views_free(ws, cs, k, v, (n - 1) as nat, x);
        let keys = ws[n - 1].write_keys;
        lemma_views_in_free(cs[n - 1], keys, k, v, keys.len(), x);
        let a = views_of(ws, cs, k, v, (n - 1) as nat)->0;
        let b = views_in(cs[n - 1], keys, k, v, keys.len())->0;
        let all = views_of(ws, cs, k, v, n)->0;
        assert forall|q: int| 0 <= q < all.len() implies !free_in_value(x, #[trigger] all[q]) by {
            if q < a.len() {
                assert(all[q] == a[q]);
            } else {
                assert(all[q] == b[q - a.len()]);
            }
        }
    }
}

proof fn lemma_views_in_free(c: CommitS, keys: Seq<NameS>, k: NameS, v: TypeS, n: nat, x: NameS)
    requires
        views_in(c, keys, k, v, n) is Some,
        c.name != x,
    ensures
        forall|q: int|
            0 <= q < views_in(c, keys, k, v, n)->0.len() ==> !free_in_value(
                x,
                #[trigger] views_in(c, keys, k, v, n)->0[q],
            ),
    decreases n,
{
    if n > 0 {
        lemma_views_in_free(c, keys, k, v, (n - 1) as nat, x);
        if keys[n - 1] == k {
            let writes_ty = field_ty(c.payload_ty, F_WRITES@)->0;
            lemma_every_view_free(c, writes_ty, v, x);
        }
    }
}

proof fn lemma_every_view_free(c: CommitS, writes_ty: TypeS, v: TypeS, x: NameS)
    requires
        c.name != x,
    ensures
        forall|i: usize| !free_in_value(x, #[trigger] key_view(c, i, writes_ty, v)),
{
    assert forall|i: usize| !free_in_value(x, #[trigger] key_view(c, i, writes_ty, v)) by {
        lemma_view_refers(c, i, writes_ty, v);
        lemma_refers_only_to(c.name, x, key_view(c, i, writes_ty, v));
    }
}

/// What the commits to a variable have at position `pos` of its view `q`.
pub open spec fn at_view(f: spec_fn(Val) -> Val, views: nat, q: int, pos: Val) -> Val {
    if views == 1 {
        f(pos)
    } else {
        f(Val::Part(q as nat, Box::new(pos)))
    }
}

/// The history of a variable holds, at a time, what was last committed to it before, and
/// its initial value before the first commit. The commits are those that its views show.
pub proof fn law_a_history_holds_what_was_committed_before(
    m: Model,
    rho: Valuation,
    k: NameS,
    hist: NameS,
    init: ExprS,
    views: Seq<ExprS>,
    uid: u64,
    time: Val,
) -> (f: spec_fn(Val) -> Val)
    requires
        ({
            let t = NameS::Fresh("__t"@, uid);
            &&& hist != t && !free_in_value(t, init)
            &&& forall|q: int| 0 <= q < views.len() ==> !free_in_value(t, #[trigger] views[q])
        }),
    ensures
        (meant(m, rho, history_def(k, hist, init, views, uid).def).at)(time) == (m.before)(
            f,
            time,
            meant(m, rho, init).val,
        ),
        forall|q: int, pos: Val|
            0 <= q < views.len() ==> #[trigger] at_view(f, views.len(), q, pos) == (meant(
                m,
                rho,
                views[q],
            ).at)(pos),
{
    let t = NameS::Fresh("__t"@, uid);
    let v = value_ty_of(init.ty());
    let d = history_def(k, hist, init, views, uid).def;
    let r = setting(rho, t, m.of(time));
    let read = d.kids[0];
    let arg = read.kids[1];
    let view = key_commits(views, hist, v);
    let ds = kids_meant(m, r, arg);
    assert(arg.kids[0] == view && arg.kids[1] == var_s(t, txn_ty()) && arg.kids[2] == init);
    lemma_var_meant(m, r, t, txn_ty());
    lemma_unread(m, rho, t, m.of(time), init);
    let f = meant(m, r, view).at;
    let g = read.kids[0];
    assert(g.head == HeadS::Builtin(BuiltinS::GetPrevTxn));
    assert(meant(m, r, g).act is Before);
    assert(meant(m, r, arg).parts == ds);
    assert(read.head == HeadS::Apply && read.kids.len() == 2);
    assert(meant(m, r, read) == act_on(m, meant(m, r, g), meant(m, r, arg)));
    assert(meant(m, r, read).val == (m.before)(f, time, meant(m, rho, init).val));
    assert((meant(m, rho, d).at)(time) == meant(m, r, read).val);
    assert forall|q: int, pos: Val| 0 <= q < views.len() implies #[trigger] at_view(
        f,
        views.len(),
        q,
        pos,
    ) == (meant(m, rho, views[q]).at)(pos) by {
        lemma_unread(m, rho, t, m.of(time), views[q]);
        if views.len() > 1 {
            let vs = kids_meant(m, r, view);
            assert(vs[q] == meant(m, r, views[q]));
        }
    }
    f
}

proof fn lemma_planned(
    ws: Seq<WriterS>,
    hist: Map<NameS, NameS>,
    inits: Map<NameS, ExprS>,
    first: u64,
    n: nat,
)
    requires
        planned_writers(ws, hist, inits, first, n) is Some,
    ensures
        planned_writers(ws, hist, inits, first, n)->0.commits.len() == n,
        forall|j: int|
            0 <= j < n ==> planned_as(
                ws[j],
                hist,
                inits,
                #[trigger] planned_writers(ws, hist, inits, first, n)->0.commits[j],
            ),
    decreases n,
{
    if n > 0 {
        lemma_planned(ws, hist, inits, first, (n - 1) as nat);
        let p = planned_writers(ws, hist, inits, first, (n - 1) as nat)->0;
        let out = planned_writers(ws, hist, inits, first, n)->0;
        let name = NameS::Fresh("__commits"@, later(first, (n - 1) as nat));
        assert(commit_s(ws[n - 1], name, hist, inits, p.next) is Some);
        assert forall|j: int| 0 <= j < n implies planned_as(
            ws[j],
            hist,
            inits,
            #[trigger] out.commits[j],
        ) by {
            if j < n - 1 {
                assert(out.commits[j] == p.commits[j]);
            }
        }
    }
}

/// Whether `c` is the commit stream of `w`, under a name of its own.
spec fn planned_as(w: WriterS, hist: Map<NameS, NameS>, inits: Map<NameS, ExprS>, c: CommitS) -> bool {
    exists|u: u64, v: u64| #[trigger]
        commit_s(w, NameS::Fresh("__commits"@, u), hist, inits, v) == Some(c)
}

proof fn lemma_histories(
    keys: Seq<NameS>,
    hist: Map<NameS, NameS>,
    inits: Map<NameS, ExprS>,
    ws: Seq<WriterS>,
    cs: Seq<CommitS>,
    uid: u64,
    n: nat,
)
    requires
        histories(keys, hist, inits, ws, cs, uid, n) is Some,
    ensures
        histories(keys, hist, inits, ws, cs, uid, n)->0.len() == n,
        forall|i: int|
            0 <= i < n ==> views_of(
                ws,
                cs,
                keys[i],
                value_ty_of(inits[keys[i]].ty()),
                ws.len(),
            ) is Some && #[trigger] histories(keys, hist, inits, ws, cs, uid, n)->0[i]
                == history_def(
                keys[i],
                hist[keys[i]],
                inits[keys[i]],
                views_of(ws, cs, keys[i], value_ty_of(inits[keys[i]].ty()), ws.len())->0,
                later(uid, i as nat),
            ),
    decreases n,
{
    if n > 0 {
        lemma_histories(keys, hist, inits, ws, cs, uid, (n - 1) as nat);
    }
}

/// Whether no name of a transaction's position or time is free in `e`.
pub open spec fn timeless(e: ExprS) -> bool {
    forall|u: u64|
        !free_in_value(NameS::Fresh("__r"@, u), e) && !#[trigger] free_in_value(
            NameS::Fresh("__t"@, u),
            e,
        )
}

/// Whether `n` is a name, and that of no position or time.
pub open spec fn plainly_called(n: NameS) -> bool {
    match n {
        NameS::Fresh(base, _) => base != "__r"@ && base != "__t"@,
        NameS::PiBound(_, _) => false,
        _ => true,
    }
}

/// What is asked of the writers of a store: their loops and decisions are functions, do
/// not name what the store mints, and go by histories that are functions of time.
pub open spec fn sound_writer(m: Model, rho: Valuation, hist: Map<NameS, NameS>, w: WriterS) -> bool {
    &&& timeless(w.source) && timeless(w.body)
    &&& meant(m, rho, w.source).act is Pointwise
    &&& meant(m, rho, w.body).act is Pointwise
    &&& w.write_keys.len() <= usize::MAX
    &&& forall|i: int|
        0 <= i < w.read_keys.len() ==> plainly_called(hist[#[trigger] w.read_keys[i]]) && rho(
            hist[w.read_keys[i]],
        ).act is Pointwise
    &&& forall|i: int|
        0 <= i < w.write_keys.len() ==> plainly_called(hist[#[trigger] w.write_keys[i]]) && rho(
            hist[w.write_keys[i]],
        ).act is Pointwise
}

/// Whether the names that a store binds mean what their definitions mean.
pub open spec fn solves(m: Model, rho: Valuation, defs: Seq<DefS>) -> bool {
    forall|i: int| 0 <= i < defs.len() ==> rho((#[trigger] defs[i]).name) == meant(m, rho, defs[i].def)
}

/// What writer `w` decides at a position of its loop.
pub open spec fn decision_at(m: Model, rho: Valuation, hist: Map<NameS, NameS>, w: WriterS, pos: Val) -> Val {
    (meant(m, rho, w.body).at)(
        Val::Tuple(
            held_at(rho, hist, w.read_keys, begun(m, pos)).push(
                (meant(m, rho, w.source).at)(pos),
            ),
        ),
    )
}

/// What a decision writes to its place `i`, where it commits.
pub open spec fn decided_write(decided: Val, i: int) -> Option<Val> {
    match decided {
        Val::Tagged(tag, payload) => if tag == "commit"@ {
            match taken(FieldKeyS::Name("writes"@), *payload) {
                Some(Val::Tuple(vs)) => if 0 <= i < vs.len() {
                    Some(vs[i])
                } else {
                    None
                },
                _ => None,
            }
        } else {
            None
        },
        _ => None,
    }
}

/// Each variable of a store holds what was last committed to it. The commits to it are
/// those of the writers that write it, and of no others: for each place where a writer
/// writes it and each position of the writer's loop, at the time the transaction begins,
/// what the writer decides to write at that place on what the histories hold then.
pub proof fn law_a_variable_holds_what_its_writers_commit(
    m: Model,
    rho: Valuation,
    keys: Seq<NameS>,
    all_hist: Map<NameS, NameS>,
    inits: Map<NameS, ExprS>,
    ws: Seq<WriterS>,
    uid: u64,
    store: StoreS,
    next: u64,
    i: int,
    time: Val,
) -> (r: (spec_fn(Val) -> Val, Seq<Spot>))
    requires
        store_s(keys, all_hist, inits, ws, uid) == Some((store, next)),
        solves(m, rho, store.bindings),
        0 <= i < keys.len(),
        plainly_called(store.hist[keys[i]]),
        timeless(inits[keys[i]]),
        forall|j: int| 0 <= j < ws.len() ==> sound_writer(m, rho, store.hist, #[trigger] ws[j]),
    ensures
        store.keys == keys,
        store.hist.dom().contains(keys[i]),
        store.hist[keys[i]] == all_hist[keys[i]],
        (rho(store.hist[keys[i]]).at)(time) == (m.before)(
            r.0,
            time,
            meant(m, rho, inits[keys[i]]).val,
        ),
        lists_writes(ws, keys[i], ws.len(), r.1),
        forall|q: int, pos: Val|
            0 <= q < r.1.len() ==> {
                let out = #[trigger] at_view(r.0, r.1.len(), q, pos);
                &&& taken(FieldKeyS::Name("time"@), out) == Some(begun(m, pos))
                &&& decided_write(
                    decision_at(m, rho, store.hist, ws[r.1[q].writer], pos),
                    r.1[q].at,
                ) matches Some(v) ==> taken(FieldKeyS::Name("write"@), out) == Some(v)
            },
{
    let hist = store.hist;
    let p = planned_writers(ws, hist, inits, uid, ws.len())->0;
    let cs = p.commits;
    let hs = histories(keys, hist, inits, ws, cs, p.next, keys.len())->0;
    lemma_planned(ws, hist, inits, uid, ws.len());
    lemma_histories(keys, hist, inits, ws, cs, p.next, keys.len());
    let k = keys[i];
    assert(hist.dom().contains(keys[i]));
    let v = value_ty_of(inits[k].ty());
    let views = views_of(ws, cs, k, v, ws.len())->0;
    assert(hs[i] == history_def(k, hist[k], inits[k], views, later(p.next, i as nat)));
    assert(store.bindings[i] == hs[i]);
    assert(rho(store.bindings[i].name) == meant(m, rho, store.bindings[i].def));
    let t = NameS::Fresh("__t"@, later(p.next, i as nat));
    reveal_strlit("__t");
    reveal_strlit("__commits");
    assert("__t"@.len() != "__commits"@.len());
    assert forall|j: int| 0 <= j < ws.len() implies (#[trigger] cs[j]).name != t && !(
    cs[j].name is PiBound) by {
        assert(planned_as(ws[j], hist, inits, cs[j]));
    }
    assert forall|j: int| 0 <= j < ws.len() implies (#[trigger] ws[j]).write_keys.len()
        <= usize::MAX && !(cs[j].name is PiBound) by {
        assert(sound_writer(m, rho, hist, ws[j]));
        assert(cs[j].name != t);
    }
    lemma_views_free(ws, cs, k, v, ws.len(), t);
    assert(!free_in_value(NameS::Fresh("__t"@, later(p.next, i as nat)), inits[k]));
    let spots = law_views_are_of_what_writes(m, rho, ws, cs, k, v, ws.len());
    let f = law_a_history_holds_what_was_committed_before(
        m,
        rho,
        k,
        hist[k],
        inits[k],
        views,
        later(p.next, i as nat),
        time,
    );
    assert forall|q: int, pos: Val| 0 <= q < spots.len() implies {
        let out = #[trigger] at_view(f, spots.len(), q, pos);
        &&& taken(FieldKeyS::Name("time"@), out) == Some(begun(m, pos))
        &&& decided_write(
            decision_at(m, rho, hist, ws[spots[q].writer], pos),
            spots[q].at,
        ) matches Some(x) ==> taken(FieldKeyS::Name("write"@), out) == Some(x)
    } by {
        let j = spots[q].writer;
        assert(spots.contains(spots[q]));
        assert(writes_at(ws, k, ws.len(), spots[q]));
        let w = ws[j];
        let c = cs[j];
        assert(sound_writer(m, rho, hist, ws[j]));
        assert(planned_as(ws[j], hist, inits, cs[j]));
        let (a, u) = choose|a: u64, u: u64| #[trigger]
            commit_s(w, NameS::Fresh("__commits"@, a), hist, inits, u) == Some(c);
        let rn = NameS::Fresh("__r"@, u);
        let tn = NameS::Fresh("__t"@, NameSupply::after(u));
        assert(!free_in_value(NameS::Fresh("__t"@, u), w.source));
        assert(!free_in_value(NameS::Fresh("__t"@, u), w.body));
        assert(!free_in_value(tn, w.source) && !free_in_value(tn, w.body));
        assert(histories_named(rho, hist, w.read_keys, rn, tn)) by {
            assert forall|x: int| 0 <= x < w.read_keys.len() implies !(
            hist[#[trigger] w.read_keys[x]] is PiBound) && hist[w.read_keys[x]] != rn
                && hist[w.read_keys[x]] != tn && rho(hist[w.read_keys[x]]).act is Pointwise by {
                assert(plainly_called(hist[w.read_keys[x]]));
                assert(hist[w.read_keys[x]] != NameS::Fresh("__t"@, u));
            }
        }
        assert(histories_named(rho, hist, w.write_keys, rn, tn)) by {
            assert forall|x: int| 0 <= x < w.write_keys.len() implies !(
            hist[#[trigger] w.write_keys[x]] is PiBound) && hist[w.write_keys[x]] != rn
                && hist[w.write_keys[x]] != tn && rho(hist[w.write_keys[x]]).act is Pointwise by {
                assert(plainly_called(hist[w.write_keys[x]]));
                assert(hist[w.write_keys[x]] != NameS::Fresh("__t"@, u));
            }
        }
        law_a_commit_decides_on_what_holds_at_its_time(
            m,
            rho,
            w,
            NameS::Fresh("__commits"@, a),
            hist,
            inits,
            u,
            c,
            pos,
        );
        let b = keys.len() + j;
        assert(store.bindings[b] == commit_defs(cs)[j]);
        assert(rho(store.bindings[b].name) == meant(m, rho, store.bindings[b].def));
        let record = (rho(c.name).at)(pos);
        assert(record == (meant(m, rho, c.def).at)(pos));
        assert(views_component(m, rho, views[q], c.name, spots[q].at));
        assert(shows_write((meant(m, rho, views[q]).at)(pos), record, spots[q].at));
        assert(at_view(f, views.len(), q, pos) == (meant(m, rho, views[q]).at)(pos));
    }
    (f, spots)
}

} // verus!
