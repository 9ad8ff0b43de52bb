//! Planning a commit store.
use vstd::prelude::*;
use crate::ast::{
    Builtin, Expr, ExprS, FieldKey, FieldKeyS, Openness, Type, TypeS, TypedBinding,
    arm_keys_view, arm_types_view, exprs_view, field_exprs_view, field_names_view,
    field_types_view, types_view,
};
use crate::cross_domain::{DefS, def_view, defs_view};
use crate::decision::{
    F_WRITES, Tap, commit_payload_ty, commit_project, record_field_ty, taps_view,
};
use crate::make::{domain_of, fun_ty, proj_field_s, record_s, txn_ty, var_s};
use crate::name::{Name, NameS, NameSupply, clone_names, names_view};
use crate::name_map::NameMap;
use crate::store::{
    CommitS, F_DECISION, F_TIME, F_WRITE, F_WRITE_TARGETS, HoistS, StoreS, WritersS, all_placed,
    commit_defs, commit_rec_ty, commit_s, committed, fun_parts, histories, history_def,
    key_commits, key_view, later, planned_writers, snap_read, snapshot_of, store_hist, store_s,
    tap_def, tap_defs, tap_hoists, tap_name, targets_of, union_dom, view_rec_ty, views_in,
    views_of,
};
use crate::subst::{env_view, lemma_seen_all, lemma_seen_step, seen};
use crate::text::owned;
use crate::txn_terms::{
    apply_ty, builtin_ty, clone_types, exprs2, fun_lambda, history_s, history_ty, let_typed,
    mut_var_value_ty, proj_field_ty, proj_index_ty, record_type, tcompose, trecord, ttuple,
    tuple_type, tvar,
};
use crate::writer::{Writer, WriterS, all_keyed, value_tys_of, writers_view};

verus! {

pub open spec fn hist_view(m: Map<NameS, Name>) -> Map<NameS, NameS> {
    m.map_values(|n: Name| n@)
}

pub struct Commit {
    pub name: Name,
    pub dom: Type,
    pub rec_ty: Type,
    pub decision_ty: Type,
    pub payload_ty: Type,
    pub def: Expr,
}

impl Commit {
    pub open spec fn view(&self) -> CommitS {
        CommitS {
            name: self.name@,
            dom: self.dom.view(),
            rec_ty: self.rec_ty.view(),
            decision_ty: self.decision_ty.view(),
            payload_ty: self.payload_ty.view(),
            def: self.def.view(),
        }
    }

    fn ty(&self) -> (r: Type)
        ensures
            r.view() == self.view().ty(),
    {
        Type::fun(self.dom.clone(), self.rec_ty.clone())
    }

    fn var(&self) -> (r: Expr)
        ensures
            r.view() == var_s(self.name@, self.view().ty()),
    {
        tvar(&self.name, self.ty())
    }
}

pub open spec fn commits_view(v: Seq<Commit>) -> Seq<CommitS> {
    Seq::new(v.len(), |i: int| v[i].view())
}

pub struct HoistedFeed {
    pub defer: Name,
    pub tap: Name,
    pub tap_ty: Type,
}

impl HoistedFeed {
    pub open spec fn view(&self) -> HoistS {
        HoistS { defer: self.defer@, tap: self.tap@, tap_ty: self.tap_ty.view() }
    }
}

pub open spec fn hoists_view(v: Seq<HoistedFeed>) -> Seq<HoistS> {
    Seq::new(v.len(), |i: int| v[i].view())
}

fn are_placed(keys: &Vec<Name>, hist: &NameMap<Name>) -> (r: bool)
    ensures
        r == all_placed(names_view(keys@), hist_view(hist.view())),
{
    let ghost kv = names_view(keys@);
    let ghost hv = hist_view(hist.view());
    let mut i: usize = 0;
    while i < keys.len()
        invariant
            i <= keys.len(),
            kv == names_view(keys@),
            hv == hist_view(hist.view()),
            forall|j: int| 0 <= j < i ==> hv.dom().contains(#[trigger] kv[j]),
        decreases keys.len() - i,
    {
        assert(kv[i as int] == keys@[i as int]@);
        if !hist.contains_key(&keys[i]) {
            assert(!hv.dom().contains(kv[i as int]));
            return false;
        }
        i = i + 1;
    }
    true
}

/// The name of a key's history.
fn hist_of(hist: &NameMap<Name>, k: &Name) -> (r: Name)
    requires
        hist_view(hist.view()).dom().contains(k@),
    ensures
        r@ == hist_view(hist.view())[k@],
{
    match hist.get(k) {
        Some(h) => h.clone(),
        None => k.clone(),
    }
}

/// The snapshot that a writer decides on.
fn snapshot_term(
    w: &Writer,
    hist: &NameMap<Name>,
    vs: &Vec<Type>,
    dom: &Type,
    item: &Type,
    r: &Name,
    t: &Name,
) -> (out: Expr)
    requires
        vs@.len() == w.site.read_keys@.len(),
        all_placed(w.view().read_keys, hist_view(hist.view())),
    ensures
        out.view() == snapshot_of(
            w.view(),
            hist_view(hist.view()),
            types_view(vs@),
            dom.view(),
            item.view(),
            r@,
            t@,
        ),
{
    let ghost wv = w.view();
    let ghost hv = hist_view(hist.view());
    let ghost tv = types_view(vs@);
    let keys = &w.site.read_keys;
    let mut es: Vec<Expr> = Vec::new();
    let mut i: usize = 0;
    while i < keys.len()
        invariant
            i <= keys.len(),
            wv.read_keys == names_view(keys@),
            hv == hist_view(hist.view()),
            tv == types_view(vs@),
            vs@.len() == keys@.len(),
            all_placed(wv.read_keys, hv),
            es.len() == i,
            forall|j: int|
                0 <= j < i ==> (#[trigger] es@[j]).view() == snap_read(
                    t@,
                    hv[wv.read_keys[j]],
                    tv[j],
                ),
        decreases keys.len() - i,
    {
        assert(wv.read_keys[i as int] == keys@[i as int]@);
        assert(tv[i as int] == vs@[i as int].view());
        let h = hist_of(hist, &keys[i]);
        es.push(
            apply_ty(tvar(t, Type::Txn), tvar(&h, history_ty(&vs[i])), vs[i].clone()),
        );
        i = i + 1;
    }
    let last = apply_ty(tvar(r, dom.clone()), w.site.source.clone(), item.clone());
    let ghost before = es@;
    es.push(last);
    let mut tys = clone_types(vs);
    let ghost tb = tys@;
    tys.push(item.clone());
    assert(types_view(tys@) =~= tv.push(item.view()));
    assert(exprs_view(es@) =~= Seq::new(
        wv.read_keys.len(),
        |i: int| snap_read(t@, hv[wv.read_keys[i]], tv[i]),
    ).push(last.view()));
    ttuple(es, tuple_type(tys))
}

/// The histories that a writer writes.
fn targets_term(w: &Writer, hist: &NameMap<Name>, vs: &Vec<Type>) -> (out: Expr)
    requires
        vs@.len() == w.site.write_keys@.len(),
        all_placed(w.view().write_keys, hist_view(hist.view())),
    ensures
        out.view() == targets_of(w.view(), hist_view(hist.view()), types_view(vs@)),
{
    let ghost wv = w.view();
    let ghost hv = hist_view(hist.view());
    let ghost tv = types_view(vs@);
    let keys = &w.site.write_keys;
    let mut es: Vec<Expr> = Vec::new();
    let mut tys: Vec<Type> = Vec::new();
    let mut i: usize = 0;
    while i < keys.len()
        invariant
            i <= keys.len(),
            wv.write_keys == names_view(keys@),
            hv == hist_view(hist.view()),
            tv == types_view(vs@),
            vs@.len() == keys@.len(),
            all_placed(wv.write_keys, hv),
            es.len() == i,
            tys.len() == i,
            forall|j: int|
                0 <= j < i ==> (#[trigger] es@[j]).view() == var_s(
                    hv[wv.write_keys[j]],
                    history_s(tv[j]),
                ),
            forall|j: int| 0 <= j < i ==> (#[trigger] tys@[j]).view() == history_s(tv[j]),
        decreases keys.len() - i,
    {
        assert(wv.write_keys[i as int] == keys@[i as int]@);
        assert(tv[i as int] == vs@[i as int].view());
        let h = hist_of(hist, &keys[i]);
        es.push(tvar(&h, history_ty(&vs[i])));
        tys.push(history_ty(&vs[i]));
        i = i + 1;
    }
    assert(types_view(tys@) =~= Seq::new(wv.write_keys.len(), |i: int| history_s(tv[i])));
    assert(exprs_view(es@) =~= Seq::new(
        wv.write_keys.len(),
        |i: int| var_s(hv[wv.write_keys[i]], history_s(tv[i])),
    ));
    ttuple(es, tuple_type(tys))
}

fn commit_record_type(targets: Type, decision: Type) -> (r: Type)
    ensures
        r.view() == commit_rec_ty(targets.view(), decision.view()),
{
    let mut fs: Vec<(String, Type)> = Vec::new();
    fs.push((owned(F_TIME), Type::Txn));
    fs.push((owned(F_WRITE_TARGETS), targets));
    fs.push((owned(F_DECISION), decision));
    assert(field_names_view(fs@) =~= seq![F_TIME@, F_WRITE_TARGETS@, F_DECISION@]);
    assert(field_types_view(fs@) =~= seq![txn_ty(), targets.view(), decision.view()]);
    record_type(fs)
}

fn commit_record(time: Expr, targets: Expr, decision: Expr, ty: Type) -> (r: Expr)
    ensures
        r.view() == record_s(
            seq![F_TIME@, F_WRITE_TARGETS@, F_DECISION@],
            seq![time.view(), targets.view(), decision.view()],
            ty.view(),
        ),
{
    let mut fs: Vec<(String, Expr)> = Vec::new();
    fs.push((owned(F_TIME), time));
    fs.push((owned(F_WRITE_TARGETS), targets));
    fs.push((owned(F_DECISION), decision));
    assert(field_names_view(fs@) =~= seq![F_TIME@, F_WRITE_TARGETS@, F_DECISION@]);
    assert(field_exprs_view(fs@) =~= seq![time.view(), targets.view(), decision.view()]);
    trecord(fs, ty)
}

/// The commit records of a writer.
fn build_commit(
    w: &Writer,
    name: Name,
    hist: &NameMap<Name>,
    inits: &NameMap<Expr>,
    supply: &mut NameSupply,
) -> (r: Option<Commit>)
    ensures
        match commit_s(
            w.view(),
            name@,
            hist_view(hist.view()),
            env_view(inits.view()),
            old(supply).next,
        ) {
            Some(c) => (r matches Some(x) && x.view() == c) && final(supply).next
                == NameSupply::after(NameSupply::after(old(supply).next)),
            None => r is None,
        },
{
    let ghost wv = w.view();
    assert(wv.source.tys[0] == w.site.source.ty.view());
    assert(wv.body.tys[0] == w.site.body.ty.view());
    if !are_placed(&w.site.read_keys, hist) || !are_placed(&w.site.write_keys, hist) {
        return None;
    }
    let parts = fun_parts(&w.site.source.ty);
    let result = w.site.body.ty.codomain();
    let reads = value_tys_of(&w.site.read_keys, inits);
    let writes = value_tys_of(&w.site.write_keys, inits);
    match (parts, result, reads, writes) {
        (Some((dom, item)), Some(decision_ty), Some(read_tys), Some(write_tys)) => {
            match commit_payload_ty(&decision_ty) {
                Some(payload_ty) => {
                    assert(types_view(read_tys@).len() == read_tys@.len());
                    assert(types_view(write_tys@).len() == write_tys@.len());
                    let r = supply.fresh("__r");
                    let t = supply.fresh("__t");
                    let begin = apply_ty(
                        tvar(&r, dom.clone()),
                        builtin_ty(Builtin::BeginTxn, Type::fun(dom.clone(), Type::Txn)),
                        Type::Txn,
                    );
                    let snap = snapshot_term(w, hist, &read_tys, &dom, &item, &r, &t);
                    let decision = apply_ty(snap, w.site.body.clone(), decision_ty.clone());
                    let targets = targets_term(w, hist, &write_tys);
                    assert(targets.view().tys[0] == targets.ty.view());
                    let rec_ty = commit_record_type(targets.ty.clone(), decision_ty.clone());
                    let rec = commit_record(
                        tvar(&t, Type::Txn),
                        targets,
                        decision,
                        rec_ty.clone(),
                    );
                    let body = let_typed(t, Type::Txn, begin, rec);
                    let def = fun_lambda(r, dom.clone(), body, rec_ty.clone());
                    Some(Commit { name, dom, rec_ty, decision_ty, payload_ty, def })
                },
                None => None,
            }
        },
        _ => None,
    }
}

/// The stream of what a commit stream commits.
fn committed_stream(c: &Commit, then: Vec<Expr>, ty: Type) -> (r: Expr)
    ensures
        r.view() == committed(c.view(), exprs_view(then@), ty.view()),
{
    let ghost tv = exprs_view(then@);
    let mut es: Vec<Expr> = Vec::new();
    let decision = proj_field_ty(
        F_DECISION,
        Type::fun(c.rec_ty.clone(), c.decision_ty.clone()),
    );
    let project = commit_project(&c.decision_ty, &c.payload_ty);
    let stream = c.var();
    let ghost head = seq![stream.view(), decision.view(), project.view()];
    es.push(stream);
    es.push(decision);
    es.push(project);
    let mut tail = then;
    es.append(&mut tail);
    assert(exprs_view(es@) =~= head + tv);
    tcompose(es, ty)
}

/// The streams of a writer's replies.
fn build_taps(c: &Commit, taps: &Vec<Tap>, supply: &mut NameSupply) -> (r: (
    Vec<(TypedBinding, Expr)>,
    Vec<HoistedFeed>,
))
    ensures
        defs_view(r.0@) == tap_defs(c.view(), taps_view(taps@), old(supply).next),
        hoists_view(r.1@) == tap_hoists(c.view(), taps_view(taps@), old(supply).next),
        final(supply).next == later(old(supply).next, taps@.len()),
{
    let ghost cv = c.view();
    let ghost tv = taps_view(taps@);
    let ghost uid = supply.next;
    let mut defs: Vec<(TypedBinding, Expr)> = Vec::new();
    let mut hoisted: Vec<HoistedFeed> = Vec::new();
    let mut i: usize = 0;
    while i < taps.len()
        invariant
            i <= taps.len(),
            cv == c.view(),
            tv == taps_view(taps@),
            supply.next == later(uid, i as nat),
            defs.len() == i,
            hoisted.len() == i,
            forall|j: int|
                0 <= j < i ==> def_view(#[trigger] defs@[j]) == tap_def(
                    cv,
                    tv[j],
                    tap_name(tv, uid, j),
                ),
            forall|j: int|
                0 <= j < i ==> (#[trigger] hoisted@[j]).view() == (HoistS {
                    defer: tv[j].defer,
                    tap: tap_name(tv, uid, j),
                    tap_ty: fun_ty(cv.dom, tv[j].value.ty()),
                }),
        decreases taps.len() - i,
    {
        let t = &taps[i];
        assert(tv[i as int] == t.view());
        assert(t.value.view().tys[0] == t.value.ty.view());
        let name = supply.fresh(t.field.as_str());
        let ty = Type::fun(c.dom.clone(), t.value.ty.clone());
        let mut then: Vec<Expr> = Vec::new();
        then.push(
            proj_field_ty(
                t.field.as_str(),
                Type::fun(c.payload_ty.clone(), t.value.ty.clone()),
            ),
        );
        assert(exprs_view(then@) =~= seq![
            proj_field_s(t.field@, fun_ty(cv.payload_ty, t.value.view().ty())),
        ]);
        let def = committed_stream(c, then, ty.clone());
        hoisted.push(HoistedFeed { defer: t.defer.clone(), tap: name.clone(), tap_ty: ty.clone() });
        defs.push((TypedBinding { name, ty }, def));
        i = i + 1;
    }
    assert(defs_view(defs@) =~= tap_defs(cv, tv, uid));
    assert(hoists_view(hoisted@) =~= tap_hoists(cv, tv, uid));
    (defs, hoisted)
}

/// That many names, one after the other.
fn mint(base: &str, n: usize, supply: &mut NameSupply) -> (r: Vec<Name>)
    ensures
        r@.len() == n,
        forall|i: int|
            0 <= i < n ==> (#[trigger] r@[i])@ == NameS::Fresh(
                base@,
                later(old(supply).next, i as nat),
            ),
        final(supply).next == later(old(supply).next, n as nat),
{
    let ghost uid = supply.next;
    let mut out: Vec<Name> = Vec::new();
    let mut i: usize = 0;
    while i < n
        invariant
            i <= n,
            out.len() == i,
            supply.next == later(uid, i as nat),
            forall|j: int|
                0 <= j < i ==> (#[trigger] out@[j])@ == NameS::Fresh(base@, later(uid, j as nat)),
        decreases n - i,
    {
        out.push(supply.fresh(base));
        i = i + 1;
    }
    out
}

pub struct Writers {
    pub commits: Vec<Commit>,
    pub taps: Vec<(TypedBinding, Expr)>,
    pub hoisted: Vec<HoistedFeed>,
}

proof fn lemma_planned_stops(
    ws: Seq<WriterS>,
    hist: Map<NameS, NameS>,
    inits: Map<NameS, ExprS>,
    first: u64,
    i: nat,
    n: nat,
)
    requires
        i <= n,
        planned_writers(ws, hist, inits, first, i) is None,
    ensures
        planned_writers(ws, hist, inits, first, n) is None,
    decreases n,
{
    if i < n {
        lemma_planned_stops(ws, hist, inits, first, i, (n - 1) as nat);
    }
}

/// What the writers of a store come to.
fn plan_writers(
    ws: &Vec<Writer>,
    hist: &NameMap<Name>,
    inits: &NameMap<Expr>,
    supply: &mut NameSupply,
) -> (r: Option<Writers>)
    ensures
        match planned_writers(
            writers_view(ws@),
            hist_view(hist.view()),
            env_view(inits.view()),
            old(supply).next,
            ws@.len(),
        ) {
            Some(p) => (r matches Some(x) && commits_view(x.commits@) == p.commits && defs_view(
                x.taps@,
            ) == p.taps && hoists_view(x.hoisted@) == p.hoisted) && final(supply).next == p.next,
            None => r is None,
        },
{
    let ghost wv = writers_view(ws@);
    let ghost hv = hist_view(hist.view());
    let ghost iv = env_view(inits.view());
    let ghost first = supply.next;
    let names = mint("__commits", ws.len(), supply);
    let mut commits: Vec<Commit> = Vec::new();
    let mut taps: Vec<(TypedBinding, Expr)> = Vec::new();
    let mut hoisted: Vec<HoistedFeed> = Vec::new();
    let mut i: usize = 0;
    assert(commits_view(commits@) =~= Seq::empty());
    assert(defs_view(taps@) =~= Seq::empty());
    assert(hoists_view(hoisted@) =~= Seq::empty());
    while i < ws.len()
        invariant
            i <= ws.len(),
            wv == writers_view(ws@),
            hv == hist_view(hist.view()),
            iv == env_view(inits.view()),
            first == old(supply).next,
            names@.len() == ws@.len(),
            forall|j: int|
                0 <= j < names@.len() ==> (#[trigger] names@[j])@ == NameS::Fresh(
                    "__commits"@,
                    later(first, j as nat),
                ),
            planned_writers(wv, hv, iv, first, i as nat) == Some(
                WritersS {
                    commits: commits_view(commits@),
                    taps: defs_view(taps@),
                    hoisted: hoists_view(hoisted@),
                    next: supply.next,
                },
            ),
        decreases ws.len() - i,
    {
        let w = &ws[i];
        assert(wv[i as int] == w.view());
        let ghost c0 = commits@;
        let ghost t0 = taps@;
        let ghost h0 = hoisted@;
        match build_commit(w, names[i].clone(), hist, inits, supply) {
            Some(c) => {
                let (defs, feeds) = build_taps(&c, &w.taps, supply);
                let mut defs = defs;
                let mut feeds = feeds;
                let ghost d1 = defs@;
                let ghost f1 = feeds@;
                commits.push(c);
                taps.append(&mut defs);
                hoisted.append(&mut feeds);
                assert(commits_view(commits@) =~= commits_view(c0).push(c.view()));
                assert(defs_view(taps@) =~= defs_view(t0) + defs_view(d1));
                assert(hoists_view(hoisted@) =~= hoists_view(h0) + hoists_view(f1));
            },
            None => {
                proof {
                    lemma_planned_stops(wv, hv, iv, first, (i + 1) as nat, wv.len());
                }
                return None;
            },
        }
        i = i + 1;
    }
    Some(Writers { commits, taps, hoisted })
}

fn view_record_type(v: &Type) -> (r: Type)
    ensures
        r.view() == view_rec_ty(v.view()),
{
    let mut fs: Vec<(String, Type)> = Vec::new();
    fs.push((owned(F_TIME), Type::Txn));
    fs.push((owned(F_WRITE), v.clone()));
    assert(field_names_view(fs@) =~= seq![F_TIME@, F_WRITE@]);
    assert(field_types_view(fs@) =~= seq![txn_ty(), v.view()]);
    record_type(fs)
}

/// A key's view of a commit stream.
fn per_key_view(c: &Commit, idx: usize, writes_ty: &Type, v: &Type) -> (r: Expr)
    ensures
        r.view() == key_view(c.view(), idx, writes_ty.view(), v.view()),
{
    let ghost cv = c.view();
    let time_ty = Type::fun(c.dom.clone(), Type::Txn);
    let write_ty = Type::fun(c.dom.clone(), v.clone());
    let time = tcompose(
        exprs2(
            c.var(),
            proj_field_ty(F_TIME, Type::fun(c.rec_ty.clone(), Type::Txn)),
        ),
        time_ty.clone(),
    );
    let then = exprs2(
        proj_field_ty(F_WRITES, Type::fun(c.payload_ty.clone(), writes_ty.clone())),
        proj_index_ty(idx, Type::fun(writes_ty.clone(), v.clone())),
    );
    let write = committed_stream(c, then, write_ty.clone());
    let mut tys: Vec<(String, Type)> = Vec::new();
    tys.push((owned(F_TIME), time_ty));
    tys.push((owned(F_WRITE), write_ty));
    assert(field_names_view(tys@) =~= seq![F_TIME@, F_WRITE@]);
    assert(field_types_view(tys@) =~= seq![fun_ty(cv.dom, txn_ty()), fun_ty(cv.dom, v.view())]);
    let ty = record_type(tys);
    let mut fs: Vec<(String, Expr)> = Vec::new();
    fs.push((owned(F_TIME), time));
    fs.push((owned(F_WRITE), write));
    assert(field_names_view(fs@) =~= seq![F_TIME@, F_WRITE@]);
    assert(field_exprs_view(fs@) =~= seq![time.view(), write.view()]);
    let views = trecord(fs, ty.clone());
    let out = Type::fun(c.dom.clone(), view_record_type(v));
    apply_ty(views, builtin_ty(Builtin::Zip, Type::fun(ty, out.clone())), out)
}

proof fn lemma_views_in_stops(c: CommitS, keys: Seq<NameS>, k: NameS, v: TypeS, i: nat, n: nat)
    requires
        i <= n,
        views_in(c, keys, k, v, i) is None,
    ensures
        views_in(c, keys, k, v, n) is None,
    decreases n,
{
    if i < n {
        lemma_views_in_stops(c, keys, k, v, i, (n - 1) as nat);
    }
}

pub open spec fn opt_exprs_view(v: Option<Vec<Expr>>) -> Option<Seq<ExprS>> {
    match v {
        Some(x) => Some(exprs_view(x@)),
        None => None,
    }
}

fn views_in_commit(c: &Commit, keys: &Vec<Name>, k: &Name, v: &Type) -> (r: Option<Vec<Expr>>)
    ensures
        opt_exprs_view(r) == views_in(
            c.view(),
            names_view(keys@),
            k@,
            v.view(),
            keys@.len(),
        ),
{
    let ghost cv = c.view();
    let ghost kv = names_view(keys@);
    let mut out: Vec<Expr> = Vec::new();
    let mut i: usize = 0;
    assert(exprs_view(out@) =~= Seq::empty());
    while i < keys.len()
        invariant
            i <= keys.len(),
            cv == c.view(),
            kv == names_view(keys@),
            views_in(cv, kv, k@, v.view(), i as nat) == Some(exprs_view(out@)),
        decreases keys.len() - i,
    {
        assert(kv[i as int] == keys@[i as int]@);
        let ghost before = out@;
        if keys[i].same(k) {
            match record_field_ty(&c.payload_ty, F_WRITES) {
                Some(writes_ty) => {
                    let e = per_key_view(c, i, &writes_ty, v);
                    out.push(e);
                    assert(exprs_view(out@) =~= exprs_view(before).push(e.view()));
                },
                None => {
                    proof {
                        lemma_views_in_stops(cv, kv, k@, v.view(), (i + 1) as nat, kv.len());
                    }
                    return None;
                },
            }
        }
        i = i + 1;
    }
    Some(out)
}

proof fn lemma_views_of_stops(
    ws: Seq<WriterS>,
    cs: Seq<CommitS>,
    k: NameS,
    v: TypeS,
    i: nat,
    n: nat,
)
    requires
        i <= n,
        views_of(ws, cs, k, v, i) is None,
    ensures
        views_of(ws, cs, k, v, n) is None,
    decreases n,
{
    if i < n {
        lemma_views_of_stops(ws, cs, k, v, i, (n - 1) as nat);
    }
}

fn views_of_key(ws: &Vec<Writer>, cs: &Vec<Commit>, k: &Name, v: &Type) -> (r: Option<Vec<Expr>>)
    requires
        ws@.len() == cs@.len(),
    ensures
        opt_exprs_view(r) == views_of(
            writers_view(ws@),
            commits_view(cs@),
            k@,
            v.view(),
            ws@.len(),
        ),
{
    let ghost wv = writers_view(ws@);
    let ghost cv = commits_view(cs@);
    let mut out: Vec<Expr> = Vec::new();
    let mut i: usize = 0;
    assert(exprs_view(out@) =~= Seq::empty());
    while i < ws.len()
        invariant
            i <= ws.len(),
            ws@.len() == cs@.len(),
            wv == writers_view(ws@),
            cv == commits_view(cs@),
            views_of(wv, cv, k@, v.view(), i as nat) == Some(exprs_view(out@)),
        decreases ws.len() - i,
    {
        assert(wv[i as int] == ws@[i as int].view());
        assert(cv[i as int] == cs@[i as int].view());
        let ghost before = out@;
        match views_in_commit(&cs[i], &ws[i].site.write_keys, k, v) {
            Some(more) => {
                let mut more = more;
                let ghost m = more@;
                out.append(&mut more);
                assert(exprs_view(out@) =~= exprs_view(before) + exprs_view(m));
            },
            None => {
                proof {
                    lemma_views_of_stops(wv, cv, k@, v.view(), (i + 1) as nat, wv.len());
                }
                return None;
            },
        }
        i = i + 1;
    }
    Some(out)
}

fn union_domain(views: &Vec<Expr>) -> (r: Type)
    requires
        forall|i: int|
            0 <= i < views@.len() ==> domain_of((#[trigger] views@[i]).view().ty()) is Some,
    ensures
        r.view() == union_dom(exprs_view(views@)),
{
    let ghost vv = exprs_view(views@);
    let mut arms: Vec<(FieldKey, Type)> = Vec::new();
    let mut i: usize = 0;
    while i < views.len()
        invariant
            i <= views.len(),
            vv == exprs_view(views@),
            forall|j: int|
                0 <= j < views@.len() ==> domain_of((#[trigger] views@[j]).view().ty()) is Some,
            arms.len() == i,
            forall|j: int|
                0 <= j < i ==> (#[trigger] arms@[j]).0.view() == FieldKeyS::Index(j as usize)
                    && arms@[j].1.view() == domain_of(vv[j].ty())->0,
        decreases views.len() - i,
    {
        assert(vv[i as int] == views@[i as int].view());
        assert(views@[i as int].view().tys[0] == views@[i as int].ty.view());
        match views[i].ty.domain() {
            Some(d) => arms.push((FieldKey::Index(i), d)),
            None => arms.push((FieldKey::Index(i), Type::Hole)),
        }
        i = i + 1;
    }
    assert(arm_keys_view(arms@) =~= Seq::new(vv.len(), |i: int| FieldKeyS::Index(i as usize)));
    assert(arm_types_view(arms@) =~= Seq::new(vv.len(), |i: int| domain_of(vv[i].ty())->0));
    Type::Variant(arms, Openness::Closed)
}

proof fn lemma_views_are_streams(
    ws: Seq<WriterS>,
    cs: Seq<CommitS>,
    k: NameS,
    v: TypeS,
    n: nat,
)
    ensures
        views_of(ws, cs, k, v, n) matches Some(a) ==> forall|i: int|
            0 <= i < a.len() ==> domain_of((#[trigger] a[i]).ty()) is Some,
    decreases n,
{
    if n > 0 {
        lemma_views_are_streams(ws, cs, k, v, (n - 1) as nat);
        lemma_views_in_streams(
            cs[n - 1],
            ws[n - 1].write_keys,
            k,
            v,
            ws[n - 1].write_keys.len(),
        );
    }
}

proof fn lemma_views_in_streams(c: CommitS, keys: Seq<NameS>, k: NameS, v: TypeS, n: nat)
    ensures
        views_in(c, keys, k, v, n) matches Some(a) ==> forall|i: int|
            0 <= i < a.len() ==> domain_of((#[trigger] a[i]).ty()) is Some,
    decreases n,
{
    if n > 0 {
        lemma_views_in_streams(c, keys, k, v, (n - 1) as nat);
    }
}

/// All that is committed to a key.
fn commits_to_key(views: Vec<Expr>, hist: &Name, v: &Type) -> (r: Expr)
    requires
        forall|i: int|
            0 <= i < views@.len() ==> domain_of((#[trigger] views@[i]).view().ty()) is Some,
    ensures
        r.view() == key_commits(exprs_view(views@), hist@, v.view()),
{
    if views.len() == 0 {
        return tvar(hist, history_ty(v));
    }
    if views.len() == 1 {
        assert(exprs_view(views@)[0] == views@[0].view());
        return views[0].clone();
    }
    let dom = union_domain(&views);
    let ty = Type::data_fun(dom, view_record_type(v));
    let out = Expr::copair(views).with_ty(ty);
    assert(out.view().tys =~= seq![ty.view()]);
    out
}

/// The history of a key.
fn build_history(hist: Name, init: &Expr, views: Vec<Expr>, k: Ghost<NameS>, supply: &mut NameSupply) -> (r: (
    TypedBinding,
    Expr,
))
    requires
        forall|i: int|
            0 <= i < views@.len() ==> domain_of((#[trigger] views@[i]).view().ty()) is Some,
    ensures
        def_view(r) == history_def(
            k@,
            hist@,
            init.view(),
            exprs_view(views@),
            old(supply).next,
        ),
        final(supply).next == NameSupply::after(old(supply).next),
{
    assert(init.view().tys[0] == init.ty.view());
    let v = mut_var_value_ty(&init.ty);
    let t = supply.fresh("__t");
    let view = commits_to_key(views, &hist, &v);
    assert(view.view().tys[0] == view.ty.view());
    let mut tys: Vec<Type> = Vec::new();
    tys.push(view.ty.clone());
    tys.push(Type::Txn);
    tys.push(v.clone());
    assert(types_view(tys@) =~= seq![view.view().ty(), txn_ty(), v.view()]);
    let arg_ty = tuple_type(tys);
    let tv = tvar(&t, Type::Txn);
    let mut es: Vec<Expr> = Vec::new();
    let ghost viewv = view.view();
    es.push(view);
    es.push(tv);
    es.push(init.clone());
    assert(exprs_view(es@) =~= seq![viewv, tv.view(), init.view()]);
    let arg = ttuple(es, arg_ty.clone());
    let read = apply_ty(
        arg,
        builtin_ty(Builtin::GetPrevTxn, Type::fun(arg_ty, v.clone())),
        v.clone(),
    );
    let def = fun_lambda(t, Type::Txn, read, v.clone());
    (TypedBinding { name: hist, ty: history_ty(&v) }, def)
}

proof fn lemma_histories_stop(
    keys: Seq<NameS>,
    hist: Map<NameS, NameS>,
    inits: Map<NameS, ExprS>,
    ws: Seq<WriterS>,
    cs: Seq<CommitS>,
    uid: u64,
    i: nat,
    n: nat,
)
    requires
        i <= n,
        histories(keys, hist, inits, ws, cs, uid, i) is None,
    ensures
        histories(keys, hist, inits, ws, cs, uid, n) is None,
    decreases n,
{
    if i < n {
        lemma_histories_stop(keys, hist, inits, ws, cs, uid, i, (n - 1) as nat);
    }
}

pub open spec fn opt_defs_view(v: Option<Vec<(TypedBinding, Expr)>>) -> Option<Seq<DefS>> {
    match v {
        Some(x) => Some(defs_view(x@)),
        None => None,
    }
}

fn build_histories(
    keys: &Vec<Name>,
    hist: &NameMap<Name>,
    inits: &NameMap<Expr>,
    ws: &Vec<Writer>,
    cs: &Vec<Commit>,
    supply: &mut NameSupply,
) -> (r: Option<Vec<(TypedBinding, Expr)>>)
    requires
        ws@.len() == cs@.len(),
        all_placed(names_view(keys@), hist_view(hist.view())),
        all_keyed(names_view(keys@), env_view(inits.view())),
    ensures
        opt_defs_view(r) == histories(
            names_view(keys@),
            hist_view(hist.view()),
            env_view(inits.view()),
            writers_view(ws@),
            commits_view(cs@),
            old(supply).next,
            keys@.len(),
        ),
        r is Some ==> final(supply).next == later(old(supply).next, keys@.len()),
{
    let ghost kv = names_view(keys@);
    let ghost hv = hist_view(hist.view());
    let ghost iv = env_view(inits.view());
    let ghost wv = writers_view(ws@);
    let ghost cv = commits_view(cs@);
    let ghost uid = supply.next;
    let mut out: Vec<(TypedBinding, Expr)> = Vec::new();
    let mut i: usize = 0;
    assert(defs_view(out@) =~= Seq::empty());
    while i < keys.len()
        invariant
            i <= keys.len(),
            ws@.len() == cs@.len(),
            kv == names_view(keys@),
            hv == hist_view(hist.view()),
            iv == env_view(inits.view()),
            wv == writers_view(ws@),
            cv == commits_view(cs@),
            uid == old(supply).next,
            all_placed(kv, hv),
            all_keyed(kv, iv),
            supply.next == later(uid, i as nat),
            histories(kv, hv, iv, wv, cv, uid, i as nat) == Some(defs_view(out@)),
        decreases keys.len() - i,
    {
        assert(kv[i as int] == keys@[i as int]@);
        let ghost before = out@;
        match inits.get(&keys[i]) {
            Some(init) => {
                assert(iv[kv[i as int]] == init.view());
                assert(init.view().tys[0] == init.ty.view());
                let v = mut_var_value_ty(&init.ty);
                match views_of_key(ws, cs, &keys[i], &v) {
                    Some(views) => {
                        proof {
                            lemma_views_are_streams(wv, cv, kv[i as int], v.view(), wv.len());
                            assert forall|j: int| 0 <= j < views@.len() implies domain_of(
                                (#[trigger] views@[j]).view().ty(),
                            ) is Some by {
                                assert(exprs_view(views@)[j] == views@[j].view());
                            }
                        }
                        let h = hist_of(hist, &keys[i]);
                        let d = build_history(h, init, views, Ghost(kv[i as int]), supply);
                        out.push(d);
                        assert(defs_view(out@) =~= defs_view(before).push(def_view(d)));
                    },
                    None => {
                        proof {
                            lemma_histories_stop(
                                kv,
                                hv,
                                iv,
                                wv,
                                cv,
                                uid,
                                (i + 1) as nat,
                                kv.len(),
                            );
                        }
                        return None;
                    },
                }
            },
            None => {
                assert(iv.dom().contains(kv[i as int]));
            },
        }
        i = i + 1;
    }
    Some(out)
}

pub struct StorePlan {
    pub key_names: Vec<Name>,
    pub hist: NameMap<Name>,
    pub bindings: Vec<(TypedBinding, Expr)>,
    pub hoisted: Vec<HoistedFeed>,
}

impl StorePlan {
    pub open spec fn view(&self) -> StoreS {
        StoreS {
            keys: names_view(self.key_names@),
            hist: hist_view(self.hist.view()),
            bindings: defs_view(self.bindings@),
            hoisted: hoists_view(self.hoisted@),
        }
    }
}

/// The names of the histories of a store's keys.
fn hist_of_store(keys: &Vec<Name>, all: &NameMap<Name>) -> (r: NameMap<Name>)
    ensures
        hist_view(r.view()) == store_hist(names_view(keys@), hist_view(all.view())),
{
    let ghost kv = names_view(keys@);
    let ghost av = hist_view(all.view());
    let mut out: NameMap<Name> = NameMap::new();
    let mut i: usize = 0;
    while i < keys.len()
        invariant
            i <= keys.len(),
            kv == names_view(keys@),
            av == hist_view(all.view()),
            forall|n: NameS| #[trigger]
                out.view().dom().contains(n) <==> seen(kv, i as int, n) && av.dom().contains(n),
            forall|n: NameS| #[trigger] out.view().dom().contains(n) ==> out.view()[n]@ == av[n],
        decreases keys.len() - i,
    {
        assert(kv[i as int] == keys@[i as int]@);
        proof {
            lemma_seen_step(kv, i as int);
        }
        match all.get(&keys[i]) {
            Some(h) => {
                assert(av[kv[i as int]] == h@);
                out = out.inserted(keys[i].clone(), h.clone());
            },
            None => {
                assert(!av.dom().contains(kv[i as int]));
            },
        }
        i = i + 1;
    }
    proof {
        lemma_seen_all(kv);
        assert(hist_view(out.view()) =~= store_hist(kv, av));
    }
    out
}

fn commit_bindings(cs: Vec<Commit>) -> (r: Vec<(TypedBinding, Expr)>)
    ensures
        defs_view(r@) == commit_defs(commits_view(cs@)),
{
    let ghost cv = commits_view(cs@);
    let mut out: Vec<(TypedBinding, Expr)> = Vec::new();
    let mut i: usize = 0;
    while i < cs.len()
        invariant
            i <= cs.len(),
            cv == commits_view(cs@),
            out.len() == i,
            forall|j: int|
                0 <= j < i ==> def_view(#[trigger] out@[j]) == (DefS {
                    name: cv[j].name,
                    ty: cv[j].ty(),
                    def: cv[j].def,
                }),
        decreases cs.len() - i,
    {
        let c = &cs[i];
        assert(cv[i as int] == c.view());
        out.push((TypedBinding { name: c.name.clone(), ty: c.ty() }, c.def.clone()));
        i = i + 1;
    }
    assert(defs_view(out@) =~= commit_defs(cv));
    out
}

/// Plans a store: the histories of its keys, the commit records of its writers,
/// and their replies.
pub fn plan_store(
    key_names: &Vec<Name>,
    all_hist: &NameMap<Name>,
    inits: &NameMap<Expr>,
    writers: &Vec<Writer>,
    supply: &mut NameSupply,
) -> (r: Option<StorePlan>)
    ensures
        match store_s(
            names_view(key_names@),
            hist_view(all_hist.view()),
            env_view(inits.view()),
            writers_view(writers@),
            old(supply).next,
        ) {
            Some((s, u)) => (r matches Some(x) && x.view() == s) && final(supply).next == u,
            None => r is None,
        },
{
    let hist = hist_of_store(key_names, all_hist);
    if !are_placed(key_names, &hist) || value_tys_of(key_names, inits).is_none() {
        return None;
    }
    match plan_writers(writers, &hist, inits, supply) {
        Some(p) => {
            proof {
                lemma_planned_len(
                    writers_view(writers@),
                    hist_view(hist.view()),
                    env_view(inits.view()),
                    old(supply).next,
                    writers@.len(),
                );
                assert(commits_view(p.commits@).len() == p.commits@.len());
            }
            match build_histories(key_names, &hist, inits, writers, &p.commits, supply) {
                Some(hs) => {
                    let Writers { commits, taps, hoisted } = p;
                    let mut bindings = hs;
                    let mut cs = commit_bindings(commits);
                    let mut ts = taps;
                    let ghost b0 = bindings@;
                    let ghost c0 = cs@;
                    let ghost t0 = ts@;
                    bindings.append(&mut cs);
                    bindings.append(&mut ts);
                    assert(defs_view(bindings@) =~= defs_view(b0) + defs_view(c0) + defs_view(t0));
                    Some(
                        StorePlan { key_names: clone_names(key_names), hist, bindings, hoisted },
                    )
                },
                None => None,
            }
        },
        None => None,
    }
}

proof fn lemma_planned_len(
    ws: Seq<WriterS>,
    hist: Map<NameS, NameS>,
    inits: Map<NameS, ExprS>,
    first: u64,
    n: nat,
)
    ensures
        planned_writers(ws, hist, inits, first, n) matches Some(p) ==> p.commits.len() == n,
    decreases n,
{
    if n > 0 {
        lemma_planned_len(ws, hist, inits, first, (n - 1) as nat);
    }
}

} // verus!
