//! The recurrence of a commit store: histories, commit records and replies.
use vstd::prelude::*;
use crate::ast::{BuiltinS, ExprS, FieldKeyS, HeadS, Openness, Type, TypeHeadS, TypeS, node_ty};
use crate::cross_domain::DefS;
use crate::decision::{F_WRITES, TapS, commit_project_s, field_ty, payload_ty_of};
use crate::make::{
    apply_s, builtin_s, codomain_of, compose_s, data_fun_ty, domain_of, fun_ty, lambda_s, let_s,
    proj_field_s, proj_index_s, record_s, record_ty, term, tuple_s, tuple_ty, txn_ty, var_s,
};
use crate::name::{NameS, NameSupply};
use crate::txn_terms::{bare, bared, history_s, value_ty_of};
use crate::writer::{WriterS, all_keyed, key_tys};

verus! {

/// The fields of a commit record and of a key's view of it.
pub const F_TIME: &'static str = "time";

pub const F_WRITE_TARGETS: &'static str = "write_targets";

pub const F_DECISION: &'static str = "decision";

pub const F_WRITE: &'static str = "write";

/// The `n`th identity after `uid`.
pub open spec fn later(uid: u64, n: nat) -> u64
    decreases n,
{
    if n == 0 {
        uid
    } else {
        NameSupply::after(later(uid, (n - 1) as nat))
    }
}

/// The ends of a function type.
pub open spec fn ends_of(t: TypeS) -> Option<(TypeS, TypeS)> {
    let u = bare(t);
    if u.head is Fun {
        Some((u.kids[u.kids.len() - 2], u.kids[u.kids.len() - 1]))
    } else {
        None
    }
}

/// The ends of a function type.
pub fn fun_parts(ty: &Type) -> (r: Option<(Type, Type)>)
    ensures
        match ends_of(ty.view()) {
            Some((d, c)) => (r matches Some((x, y)) && x.view() == d && y.view() == c),
            None => r is None,
        },
{
    let u = bared(ty);
    match (u.domain(), u.codomain()) {
        (Some(d), Some(c)) => Some((d, c)),
        _ => None,
    }
}

/// A reply that a store makes behind its group: the handle, and the name and type
/// of the stream that is fed into it.
pub struct HoistS {
    pub defer: NameS,
    pub tap: NameS,
    pub tap_ty: TypeS,
}

/// The commit records of one writer.
pub struct CommitS {
    pub name: NameS,
    pub dom: TypeS,
    pub rec_ty: TypeS,
    pub decision_ty: TypeS,
    pub payload_ty: TypeS,
    pub def: ExprS,
}

impl CommitS {
    /// The type of the writer's commit stream.
    pub open spec fn ty(self) -> TypeS {
        fun_ty(self.dom, self.rec_ty)
    }
}

/// The read of key `k` in a snapshot at the time `t`.
pub open spec fn snap_read(t: NameS, hist: NameS, v: TypeS) -> ExprS {
    apply_s(var_s(t, txn_ty()), var_s(hist, history_s(v)), v)
}

/// The type of a commit record.
pub open spec fn commit_rec_ty(targets: TypeS, decision: TypeS) -> TypeS {
    record_ty(
        seq![F_TIME@, F_WRITE_TARGETS@, F_DECISION@],
        seq![txn_ty(), targets, decision],
    )
}

/// The snapshot that a writer decides on: what it reads at its commit time, and
/// the item of its loop.
pub open spec fn snapshot_of(
    w: WriterS,
    hist: Map<NameS, NameS>,
    vs: Seq<TypeS>,
    dom: TypeS,
    item: TypeS,
    r: NameS,
    t: NameS,
) -> ExprS {
    tuple_s(
        Seq::new(
            w.read_keys.len(),
            |i: int| snap_read(t, hist[w.read_keys[i]], vs[i]),
        ).push(apply_s(var_s(r, dom), w.source, item)),
        tuple_ty(vs.push(item)),
    )
}

/// The histories that a writer writes.
pub open spec fn targets_of(w: WriterS, hist: Map<NameS, NameS>, vs: Seq<TypeS>) -> ExprS {
    tuple_s(
        Seq::new(
            w.write_keys.len(),
            |i: int| var_s(hist[w.write_keys[i]], history_s(vs[i])),
        ),
        tuple_ty(Seq::new(w.write_keys.len(), |i: int| history_s(vs[i]))),
    )
}

pub open spec fn all_placed(keys: Seq<NameS>, hist: Map<NameS, NameS>) -> bool {
    forall|i: int| 0 <= i < keys.len() ==> hist.dom().contains(#[trigger] keys[i])
}

/// The commit records of writer `w` under the name `name`: at each position of
/// its loop the commit time, the histories written, and the decision.
pub open spec fn commit_s(
    w: WriterS,
    name: NameS,
    hist: Map<NameS, NameS>,
    inits: Map<NameS, ExprS>,
    uid: u64,
) -> Option<CommitS> {
    match (ends_of(w.source.ty()), codomain_of(w.body.ty())) {
        (Some((dom, item)), Some(decision_ty)) => if all_placed(w.read_keys, hist) && all_placed(
            w.write_keys,
            hist,
        ) && all_keyed(w.read_keys, inits) && all_keyed(w.write_keys, inits) && payload_ty_of(
            decision_ty,
        ) is Some {
            let r = NameS::Fresh("__r"@, uid);
            let t = NameS::Fresh("__t"@, NameSupply::after(uid));
            let begin = apply_s(
                var_s(r, dom),
                builtin_s(BuiltinS::BeginTxn, fun_ty(dom, txn_ty())),
                txn_ty(),
            );
            let snap = snapshot_of(w, hist, key_tys(w.read_keys, inits), dom, item, r, t);
            let targets = targets_of(w, hist, key_tys(w.write_keys, inits));
            let rec_ty = commit_rec_ty(targets.ty(), decision_ty);
            let rec = record_s(
                seq![F_TIME@, F_WRITE_TARGETS@, F_DECISION@],
                seq![var_s(t, txn_ty()), targets, apply_s(snap, w.body, decision_ty)],
                rec_ty,
            );
            Some(
                CommitS {
                    name,
                    dom,
                    rec_ty,
                    decision_ty,
                    payload_ty: payload_ty_of(decision_ty)->0,
                    def: lambda_s(
                        r,
                        dom,
                        let_s(t, txn_ty(), begin, rec, rec_ty),
                        fun_ty(dom, rec_ty),
                    ),
                },
            )
        } else {
            None
        },
        _ => None,
    }
}

/// The stream of what a commit stream commits.
pub open spec fn committed(c: CommitS, then: Seq<ExprS>, ty: TypeS) -> ExprS {
    compose_s(
        seq![
            var_s(c.name, c.ty()),
            proj_field_s(F_DECISION@, fun_ty(c.rec_ty, c.decision_ty)),
            commit_project_s(c.decision_ty, c.payload_ty),
        ] + then,
        ty,
    )
}

/// The stream of a reply.
pub open spec fn tap_def(c: CommitS, tap: TapS, name: NameS) -> DefS {
    let ty = fun_ty(c.dom, tap.value.ty());
    DefS {
        name,
        ty,
        def: committed(
            c,
            seq![proj_field_s(tap.field, fun_ty(c.payload_ty, tap.value.ty()))],
            ty,
        ),
    }
}

/// The name of reply `i` of a writer whose replies are named from `uid` on.
pub open spec fn tap_name(taps: Seq<TapS>, uid: u64, i: int) -> NameS {
    NameS::Fresh(taps[i].field, later(uid, i as nat))
}

pub open spec fn tap_defs(c: CommitS, taps: Seq<TapS>, uid: u64) -> Seq<DefS> {
    Seq::new(taps.len(), |i: int| tap_def(c, taps[i], tap_name(taps, uid, i)))
}

pub open spec fn tap_hoists(c: CommitS, taps: Seq<TapS>, uid: u64) -> Seq<HoistS> {
    Seq::new(
        taps.len(),
        |i: int|
            HoistS {
                defer: taps[i].defer,
                tap: tap_name(taps, uid, i),
                tap_ty: fun_ty(c.dom, taps[i].value.ty()),
            },
    )
}

/// What the writers of a store come to.
pub struct WritersS {
    pub commits: Seq<CommitS>,
    pub taps: Seq<DefS>,
    pub hoisted: Seq<HoistS>,
    pub next: u64,
}

/// What the first `n` writers of a store come to. Their commit streams are named
/// from `first` on.
pub open spec fn planned_writers(
    ws: Seq<WriterS>,
    hist: Map<NameS, NameS>,
    inits: Map<NameS, ExprS>,
    first: u64,
    n: nat,
) -> Option<WritersS>
    decreases n,
{
    if n == 0 {
        Some(
            WritersS {
                commits: Seq::empty(),
                taps: Seq::empty(),
                hoisted: Seq::empty(),
                next: later(first, ws.len()),
            },
        )
    } else {
        match planned_writers(ws, hist, inits, first, (n - 1) as nat) {
            Some(p) => {
                let w = ws[n - 1];
                let name = NameS::Fresh("__commits"@, later(first, (n - 1) as nat));
                let at = NameSupply::after(NameSupply::after(p.next));
                match commit_s(w, name, hist, inits, p.next) {
                    Some(c) => Some(
                        WritersS {
                            commits: p.commits.push(c),
                            taps: p.taps + tap_defs(c, w.taps, at),
                            hoisted: p.hoisted + tap_hoists(c, w.taps, at),
                            next: later(at, w.taps.len()),
                        },
                    ),
                    None => None,
                }
            },
            None => None,
        }
    }
}

/// The type of a key's view of a commit stream.
pub open spec fn view_rec_ty(v: TypeS) -> TypeS {
    record_ty(seq![F_TIME@, F_WRITE@], seq![txn_ty(), v])
}

/// A key's view of a commit stream: the times of its commits, and the values that
/// component `idx` of their writes has.
pub open spec fn key_view(c: CommitS, idx: usize, writes_ty: TypeS, v: TypeS) -> ExprS {
    let time = compose_s(
        seq![var_s(c.name, c.ty()), proj_field_s(F_TIME@, fun_ty(c.rec_ty, txn_ty()))],
        fun_ty(c.dom, txn_ty()),
    );
    let write = committed(
        c,
        seq![
            proj_field_s(F_WRITES@, fun_ty(c.payload_ty, writes_ty)),
            proj_index_s(idx, fun_ty(writes_ty, v)),
        ],
        fun_ty(c.dom, v),
    );
    let names = seq![F_TIME@, F_WRITE@];
    let ty = record_ty(names, seq![fun_ty(c.dom, txn_ty()), fun_ty(c.dom, v)]);
    let out = fun_ty(c.dom, view_rec_ty(v));
    apply_s(
        record_s(names, seq![time, write], ty),
        builtin_s(BuiltinS::Zip, fun_ty(ty, out)),
        out,
    )
}

/// The views of key `k` of the first `n` places that writer `j` writes.
pub open spec fn views_in(
    c: CommitS,
    keys: Seq<NameS>,
    k: NameS,
    v: TypeS,
    n: nat,
) -> Option<Seq<ExprS>>
    decreases n,
{
    if n == 0 {
        Some(Seq::empty())
    } else {
        match views_in(c, keys, k, v, (n - 1) as nat) {
            Some(vs) => if keys[n - 1] == k {
                match field_ty(c.payload_ty, F_WRITES@) {
                    Some(writes_ty) => Some(vs.push(key_view(c, (n - 1) as usize, writes_ty, v))),
                    None => None,
                }
            } else {
                Some(vs)
            },
            None => None,
        }
    }
}

/// The views of key `k` of the first `n` commit streams.
pub open spec fn views_of(
    ws: Seq<WriterS>,
    cs: Seq<CommitS>,
    k: NameS,
    v: TypeS,
    n: nat,
) -> Option<Seq<ExprS>>
    decreases n,
{
    if n == 0 {
        Some(Seq::empty())
    } else {
        match (
            views_of(ws, cs, k, v, (n - 1) as nat),
            views_in(cs[n - 1], ws[n - 1].write_keys, k, v, ws[n - 1].write_keys.len()),
        ) {
            (Some(a), Some(b)) => Some(a + b),
            _ => None,
        }
    }
}

/// The disjoint union of the domains of streams.
pub open spec fn union_dom(views: Seq<ExprS>) -> TypeS {
    node_ty(
        TypeHeadS::Variant(
            Seq::new(views.len(), |i: int| FieldKeyS::Index(i as usize)),
            Openness::Closed,
        ),
        Seq::new(views.len(), |i: int| domain_of(views[i].ty())->0),
    )
}

/// All that is committed to key `k`: its history itself where nothing writes it.
pub open spec fn key_commits(views: Seq<ExprS>, hist: NameS, v: TypeS) -> ExprS {
    if views.len() == 0 {
        var_s(hist, history_s(v))
    } else if views.len() == 1 {
        views[0]
    } else {
        term(HeadS::Copair, views, data_fun_ty(union_dom(views), view_rec_ty(v)))
    }
}

/// The history of a key: at each time the value last committed before it.
pub open spec fn history_def(
    k: NameS,
    hist: NameS,
    init: ExprS,
    views: Seq<ExprS>,
    uid: u64,
) -> DefS {
    let v = value_ty_of(init.ty());
    let t = NameS::Fresh("__t"@, uid);
    let view = key_commits(views, hist, v);
    let arg_ty = tuple_ty(seq![view.ty(), txn_ty(), v]);
    let read = apply_s(
        tuple_s(seq![view, var_s(t, txn_ty()), init], arg_ty),
        builtin_s(BuiltinS::GetPrevTxn, fun_ty(arg_ty, v)),
        v,
    );
    DefS {
        name: hist,
        ty: history_s(v),
        def: lambda_s(t, txn_ty(), read, history_s(v)),
    }
}

/// The histories of the first `n` keys.
pub open spec fn histories(
    keys: Seq<NameS>,
    hist: Map<NameS, NameS>,
    inits: Map<NameS, ExprS>,
    ws: Seq<WriterS>,
    cs: Seq<CommitS>,
    uid: u64,
    n: nat,
) -> Option<Seq<DefS>>
    decreases n,
{
    if n == 0 {
        Some(Seq::empty())
    } else {
        let k = keys[n - 1];
        match (
            histories(keys, hist, inits, ws, cs, uid, (n - 1) as nat),
            views_of(ws, cs, k, value_ty_of(inits[k].ty()), ws.len()),
        ) {
            (Some(ds), Some(views)) => Some(
                ds.push(
                    history_def(k, hist[k], inits[k], views, later(uid, (n - 1) as nat)),
                ),
            ),
            _ => None,
        }
    }
}

/// A planned store: its keys, the names of their histories, its recurrence, and
/// the replies that leave it.
pub struct StoreS {
    pub keys: Seq<NameS>,
    pub hist: Map<NameS, NameS>,
    pub bindings: Seq<DefS>,
    pub hoisted: Seq<HoistS>,
}

/// The names of the histories of a store's keys.
pub open spec fn store_hist(keys: Seq<NameS>, all: Map<NameS, NameS>) -> Map<NameS, NameS> {
    all.restrict(Set::new(|n: NameS| keys.contains(n)))
}

pub open spec fn commit_defs(cs: Seq<CommitS>) -> Seq<DefS> {
    Seq::new(cs.len(), |i: int| DefS { name: cs[i].name, ty: cs[i].ty(), def: cs[i].def })
}

/// The plan of a store, and the next identity to mint.
pub open spec fn store_s(
    keys: Seq<NameS>,
    all_hist: Map<NameS, NameS>,
    inits: Map<NameS, ExprS>,
    ws: Seq<WriterS>,
    uid: u64,
) -> Option<(StoreS, u64)> {
    let hist = store_hist(keys, all_hist);
    if !all_placed(keys, hist) || !all_keyed(keys, inits) {
        None
    } else {
        match planned_writers(ws, hist, inits, uid, ws.len()) {
            Some(p) => match histories(keys, hist, inits, ws, p.commits, p.next, keys.len()) {
                Some(hs) => Some(
                    (
                        StoreS {
                            keys,
                            hist,
                            bindings: hs + commit_defs(p.commits) + p.taps,
                            hoisted: p.hoisted,
                        },
                        later(p.next, keys.len()),
                    ),
                ),
                None => None,
            },
            None => None,
        }
    }
}

} // verus!
