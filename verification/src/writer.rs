//! The writer of a commit store that a transaction block becomes.
use vstd::prelude::*;
use crate::ast::{Expr, ExprS, Type, TypeS, WriterSite, exprs_view, types_view};
use crate::cross_domain::{AccS, CrossAcc, accs_view};
use crate::decision::{
    Tap, TapS, decision_s, disjoin, disjoined, taps_view, truth, truth_lit, writer_decision,
};
use crate::make::{apply_s, codomain_of, domain_of, fun_ty, lambda_s, tuple_s, tuple_ty, var_s};
use crate::name::{Name, NameS, NameSupply, clone_names, has_name, names_view};
use crate::name_map::{NameMap, lemma_sorted_names, sorted_names};
use crate::partition::{RawSite, SiteS};
use crate::probe::{Sign, SignS, occurs, shows};
use crate::subst::env_view;
use crate::txn_terms::{
    apply_ty, clone_types, fun_lambda, item_at, mut_var_value_ty, proj_item, ttuple, tuple_type,
    tvar, value_ty_of,
};
use crate::walk::{Walk, WalkS, walk_block, walked};

verus! {

/// What a writer is: the keys it reads and writes, the loop it runs in, and its
/// decision as a function of a snapshot and the loop's item; with the replies of
/// its block.
pub struct WriterS {
    pub read_keys: Seq<NameS>,
    pub write_keys: Seq<NameS>,
    pub source: ExprS,
    pub body: ExprS,
    pub taps: Seq<TapS>,
}

/// The names of `ks` that `block` refers to and that are (or are not) among
/// `enclosing`.
pub open spec fn accs_read(
    ks: Seq<NameS>,
    block: ExprS,
    enclosing: Seq<NameS>,
    inside: bool,
    n: nat,
) -> Seq<NameS>
    decreases n,
{
    if n == 0 {
        Seq::empty()
    } else {
        let before = accs_read(ks, block, enclosing, inside, (n - 1) as nat);
        if shows(SignS::Reads(ks[n - 1]), block) && enclosing.contains(ks[n - 1]) == inside {
            before.push(ks[n - 1])
        } else {
            before
        }
    }
}

/// The accumulators that a site reads: those of its own loop, or those of others.
pub open spec fn site_accs(site: SiteS, accs: Map<NameS, AccS>, own: bool) -> Seq<NameS> {
    let ks = sorted_names(accs.dom());
    accs_read(ks, site.block, site.enclosing_writes, own, ks.len())
}

/// The type of a loop's item zipped with accumulators.
pub open spec fn zipped_ty(item: TypeS, names: Seq<NameS>, accs: Map<NameS, AccS>) -> TypeS {
    tuple_ty(
        Seq::new(
            names.len() + 1,
            |i: int| if i == 0 { item } else { accs[names[i - 1]].value_ty },
        ),
    )
}

/// A loop's source zipped with accumulators.
pub open spec fn zipped_source(
    source: ExprS,
    item: TypeS,
    names: Seq<NameS>,
    accs: Map<NameS, AccS>,
    uid: u64,
) -> ExprS {
    let dom = domain_of(source.ty())->0;
    let x = NameS::Fresh("__zx"@, uid);
    let ty = zipped_ty(item, names, accs);
    lambda_s(
        x,
        dom,
        tuple_s(
            Seq::new(
                names.len() + 1,
                |i: int|
                    if i == 0 {
                        apply_s(var_s(x, dom), source, item)
                    } else {
                        apply_s(
                            var_s(x, dom),
                            accs[names[i - 1]].view,
                            accs[names[i - 1]].value_ty,
                        )
                    },
            ),
            ty,
        ),
        fun_ty(dom, ty),
    )
}

/// The types of values of keys with these initial values.
pub open spec fn key_tys(keys: Seq<NameS>, inits: Map<NameS, ExprS>) -> Seq<TypeS> {
    Seq::new(keys.len(), |i: int| value_ty_of(inits[keys[i]].ty()))
}

pub open spec fn all_keyed(keys: Seq<NameS>, inits: Map<NameS, ExprS>) -> bool {
    forall|i: int| 0 <= i < keys.len() ==> inits.dom().contains(#[trigger] keys[i])
}

/// The first `n` names as components of the tuple `t`, from component `from` on.
pub open spec fn as_components(
    env: Map<NameS, ExprS>,
    names: Seq<NameS>,
    tys: Seq<TypeS>,
    t: ExprS,
    from: int,
    n: nat,
) -> Map<NameS, ExprS>
    decreases n,
{
    if n == 0 {
        env
    } else {
        as_components(env, names, tys, t, from, (n - 1) as nat).insert(
            names[n - 1],
            item_at(t, (from + n - 1) as usize, tys[n - 1]),
        )
    }
}

/// The first `n` accumulators as their final values.
pub open spec fn as_finals(
    env: Map<NameS, ExprS>,
    names: Seq<NameS>,
    accs: Map<NameS, AccS>,
    n: nat,
) -> Map<NameS, ExprS>
    decreases n,
{
    if n == 0 {
        env
    } else {
        as_finals(env, names, accs, (n - 1) as nat).insert(
            names[n - 1],
            var_s(accs[names[n - 1]].final_var, accs[names[n - 1]].value_ty),
        )
    }
}

pub open spec fn acc_tys(names: Seq<NameS>, accs: Map<NameS, AccS>) -> Seq<TypeS> {
    Seq::new(names.len(), |i: int| accs[names[i]].value_ty)
}

/// What the names of a site's block stand for as the block starts.
pub open spec fn start_env(
    site: SiteS,
    accs: Map<NameS, AccS>,
    read_tys: Seq<TypeS>,
    item: TypeS,
    zipped: TypeS,
    p: ExprS,
) -> Map<NameS, ExprS> {
    let own = site_accs(site, accs, true);
    let others = site_accs(site, accs, false);
    let n = site.read_keys.len();
    let reads = as_components(Map::empty(), site.read_keys, read_tys, p, 0, n);
    let it = item_at(p, n as usize, zipped);
    let env = if own.len() == 0 {
        reads.insert(site.target, it)
    } else {
        as_components(
            reads.insert(site.target, item_at(it, 0, item)),
            own,
            acc_tys(own, accs),
            it,
            1,
            own.len(),
        )
    };
    as_finals(env, others, accs, others.len())
}

/// The values of `keys` in `env`, where each has one.
pub open spec fn all_stand(env: Map<NameS, ExprS>, keys: Seq<NameS>) -> bool {
    forall|i: int| 0 <= i < keys.len() ==> env.dom().contains(#[trigger] keys[i])
}

pub open spec fn standing(env: Map<NameS, ExprS>, keys: Seq<NameS>) -> Seq<ExprS> {
    Seq::new(keys.len(), |i: int| env[keys[i]])
}

/// The writer of a site, the number of the next reply, and the next identity to
/// mint.
pub open spec fn writer_s(
    site: SiteS,
    inits: Map<NameS, ExprS>,
    accs: Map<NameS, AccS>,
    counter: u64,
    uid: u64,
) -> Option<(WriterS, u64, u64)> {
    if !all_keyed(site.read_keys, inits) || !all_keyed(site.write_keys, inits) || codomain_of(
        site.source.ty(),
    ) is None {
        None
    } else {
        let read_tys = key_tys(site.read_keys, inits);
        let item = codomain_of(site.source.ty())->0;
        let own = site_accs(site, accs, true);
        let zipped = if own.len() == 0 { item } else { zipped_ty(item, own, accs) };
        let source = if own.len() == 0 {
            site.source
        } else {
            zipped_source(site.source, item, own, accs, uid)
        };
        let at = if own.len() == 0 { uid } else { NameSupply::after(uid) };
        let p = NameS::Fresh("__txp"@, at);
        let ty = tuple_ty(read_tys.push(zipped));
        let start = WalkS {
            env: start_env(site, accs, read_tys, item, zipped, var_s(p, ty)),
            commits: Seq::empty(),
            taps: Seq::empty(),
            counter,
        };
        match walked(site.block, truth(true), site.write_keys, start) {
            Some(w) => if all_stand(w.env, site.write_keys) {
                let writes = tuple_s(
                    standing(w.env, site.write_keys),
                    tuple_ty(key_tys(site.write_keys, inits)),
                );
                let decision = decision_s(disjoined(w.commits), writes, w.taps);
                Some(
                    (
                        WriterS {
                            read_keys: site.read_keys,
                            write_keys: site.write_keys,
                            source,
                            body: lambda_s(p, ty, decision, fun_ty(ty, decision.ty())),
                            taps: w.taps,
                        },
                        w.counter,
                        NameSupply::after(at),
                    ),
                )
            } else {
                None
            },
            None => None,
        }
    }
}

// ---- the executable side ----

/// The names of accumulators that a site reads: those of its own loop, or those
/// of others.
fn accs_of(site: &RawSite, accs: &NameMap<CrossAcc>, own: bool) -> (r: Vec<Name>)
    ensures
        names_view(r@) == site_accs(site.view(), accs_view(accs.view()), own),
        forall|i: int|
            0 <= i < r@.len() ==> accs.view().dom().contains((#[trigger] names_view(r@)[i])),
{
    let keys = accs.keys();
    let ghost ks = accs.keys_view();
    let ghost sv = site.view();
    proof {
        assert(accs_view(accs.view()).dom() =~= accs.view().dom());
        lemma_sorted_names(ks, accs.view().dom());
    }
    let mut out: Vec<Name> = Vec::new();
    let mut i: usize = 0;
    assert(names_view(out@) =~= Seq::empty());
    while i < keys.len()
        invariant
            i <= keys.len(),
            ks == names_view(keys@),
            sv == site.view(),
            forall|n: NameS| accs.view().dom().contains(n) <==> ks.contains(n),
            names_view(out@) == accs_read(ks, sv.block, sv.enclosing_writes, own, i as nat),
            forall|j: int|
                0 <= j < out@.len() ==> accs.view().dom().contains(
                    (#[trigger] names_view(out@)[j]),
                ),
        decreases keys.len() - i,
    {
        assert(ks[i as int] == keys@[i as int]@);
        assert(ks.contains(ks[i as int]));
        let ghost before = out@;
        if occurs(&Sign::Reads(&keys[i]), &site.block) && has_name(
            &site.enclosing_writes,
            &keys[i],
        ) == own {
            out.push(keys[i].clone());
            assert(names_view(out@) =~= names_view(before).push(ks[i as int]));
        }
        i = i + 1;
    }
    out
}

/// Zips a loop's source with accumulators.
fn build_zip_source(
    source: &Expr,
    item_ty: &Type,
    names: &Vec<Name>,
    accs: &NameMap<CrossAcc>,
    supply: &mut NameSupply,
) -> (r: (Expr, Type))
    requires
        domain_of(source.view().ty()) is Some,
        forall|i: int|
            0 <= i < names@.len() ==> accs.view().dom().contains((#[trigger] names_view(names@)[i])),
    ensures
        r.0.view() == zipped_source(
            source.view(),
            item_ty.view(),
            names_view(names@),
            accs_view(accs.view()),
            old(supply).next,
        ),
        r.1.view() == zipped_ty(item_ty.view(), names_view(names@), accs_view(accs.view())),
        final(supply).next == NameSupply::after(old(supply).next),
        names@.len() < usize::MAX,
{
    let ghost nv = names_view(names@);
    let ghost av = accs_view(accs.view());
    let ghost sv = source.view();
    assert(sv.tys[0] == source.ty.view());
    let dom = match source.ty.domain() {
        Some(d) => d,
        None => Type::Hole,
    };
    let x = supply.fresh("__zx");
    let ghost dv = dom.view();
    let mut tys: Vec<Type> = Vec::new();
    let mut elts: Vec<Expr> = Vec::new();
    tys.push(item_ty.clone());
    elts.push(apply_ty(tvar(&x, dom.clone()), source.clone(), item_ty.clone()));
    let mut i: usize = 0;
    while i < names.len()
        invariant
            i <= names.len(),
            nv == names_view(names@),
            av == accs_view(accs.view()),
            dv == dom.view(),
            forall|j: int|
                0 <= j < names@.len() ==> accs.view().dom().contains((#[trigger] nv[j])),
            tys.len() == i + 1,
            elts.len() == i + 1,
            tys@[0].view() == item_ty.view(),
            elts@[0].view() == apply_s(var_s(x@, dv), sv, item_ty.view()),
            forall|j: int| 1 <= j < i + 1 ==> (#[trigger] tys@[j]).view() == av[nv[j - 1]].value_ty,
            forall|j: int|
                1 <= j < i + 1 ==> (#[trigger] elts@[j]).view() == apply_s(
                    var_s(x@, dv),
                    av[nv[j - 1]].view,
                    av[nv[j - 1]].value_ty,
                ),
        decreases names.len() - i,
    {
        assert(nv[i as int] == names@[i as int]@);
        match accs.get(&names[i]) {
            Some(a) => {
                assert(av[nv[i as int]] == a.value());
                tys.push(a.value_ty.clone());
                elts.push(
                    apply_ty(tvar(&x, dom.clone()), a.view.clone(), a.value_ty.clone()),
                );
            },
            None => {},
        }
        i = i + 1;
    }
    let ghost want = zipped_ty(item_ty.view(), nv, av);
    let count: usize = elts.len();
    assert(count == names@.len() + 1);
    assert(types_view(tys@) =~= want.kids);
    let ty = tuple_type(tys);
    assert(exprs_view(elts@) =~= Seq::new(
        nv.len() + 1,
        |i: int|
            if i == 0 {
                apply_s(var_s(x@, dv), sv, item_ty.view())
            } else {
                apply_s(var_s(x@, dv), av[nv[i - 1]].view, av[nv[i - 1]].value_ty)
            },
    ));
    let tup = ttuple(elts, ty.clone());
    (fun_lambda(x, dom, tup, ty.clone()), ty)
}

/// The types of values of keys.
pub fn value_tys_of(keys: &Vec<Name>, inits: &NameMap<Expr>) -> (r: Option<Vec<Type>>)
    ensures
        match r {
            Some(ts) => all_keyed(names_view(keys@), env_view(inits.view())) && types_view(ts@)
                == key_tys(names_view(keys@), env_view(inits.view())),
            None => !all_keyed(names_view(keys@), env_view(inits.view())),
        },
{
    let ghost kv = names_view(keys@);
    let ghost iv = env_view(inits.view());
    let mut out: Vec<Type> = Vec::new();
    let mut i: usize = 0;
    while i < keys.len()
        invariant
            i <= keys.len(),
            kv == names_view(keys@),
            iv == env_view(inits.view()),
            out.len() == i,
            forall|j: int| 0 <= j < i ==> iv.dom().contains(#[trigger] kv[j]),
            forall|j: int|
                0 <= j < i ==> (#[trigger] out@[j]).view() == value_ty_of(iv[kv[j]].ty()),
        decreases keys.len() - i,
    {
        assert(kv[i as int] == keys@[i as int]@);
        match inits.get(&keys[i]) {
            Some(e) => {
                assert(iv[kv[i as int]] == e.view());
                assert(e.view().tys[0] == e.ty.view());
                out.push(mut_var_value_ty(&e.ty));
            },
            None => {
                assert(!iv.dom().contains(kv[i as int]));
                return None;
            },
        }
        i = i + 1;
    }
    assert(types_view(out@) =~= key_tys(kv, iv));
    Some(out)
}

/// Adds the names as components of the tuple `t`, from component `from` on.
fn add_components(
    env: NameMap<Expr>,
    names: &Vec<Name>,
    tys: &Vec<Type>,
    t: &Expr,
    from: usize,
) -> (r: NameMap<Expr>)
    requires
        names@.len() == tys@.len(),
        from + names@.len() <= usize::MAX,
    ensures
        env_view(r.view()) == as_components(
            env_view(env.view()),
            names_view(names@),
            types_view(tys@),
            t.view(),
            from as int,
            names@.len(),
        ),
{
    let ghost nv = names_view(names@);
    let ghost tv = types_view(tys@);
    let ghost start = env_view(env.view());
    let mut out = env;
    let mut i: usize = 0;
    while i < names.len()
        invariant
            i <= names.len(),
            nv == names_view(names@),
            tv == types_view(tys@),
            names@.len() == tys@.len(),
            from + names@.len() <= usize::MAX,
            env_view(out.view()) == as_components(
                start,
                nv,
                tv,
                t.view(),
                from as int,
                i as nat,
            ),
        decreases names.len() - i,
    {
        assert(nv[i as int] == names@[i as int]@);
        assert(tv[i as int] == tys@[i as int].view());
        let ghost before = out.view();
        let e = proj_item(t, from + i, &tys[i]);
        out = out.inserted(names[i].clone(), e);
        assert(env_view(out.view()) =~= env_view(before).insert(nv[i as int], e.view()));
        i = i + 1;
    }
    out
}

/// Adds the accumulators as their final values.
fn add_finals(env: NameMap<Expr>, names: &Vec<Name>, accs: &NameMap<CrossAcc>) -> (r: NameMap<Expr>)
    requires
        forall|i: int|
            0 <= i < names@.len() ==> accs.view().dom().contains((#[trigger] names_view(names@)[i])),
    ensures
        env_view(r.view()) == as_finals(
            env_view(env.view()),
            names_view(names@),
            accs_view(accs.view()),
            names@.len(),
        ),
{
    let ghost nv = names_view(names@);
    let ghost av = accs_view(accs.view());
    let ghost start = env_view(env.view());
    let mut out = env;
    let mut i: usize = 0;
    while i < names.len()
        invariant
            i <= names.len(),
            nv == names_view(names@),
            av == accs_view(accs.view()),
            forall|j: int|
                0 <= j < names@.len() ==> accs.view().dom().contains((#[trigger] nv[j])),
            env_view(out.view()) == as_finals(start, nv, av, i as nat),
        decreases names.len() - i,
    {
        assert(nv[i as int] == names@[i as int]@);
        let ghost before = out.view();
        match accs.get(&names[i]) {
            Some(a) => {
                assert(av[nv[i as int]] == a.value());
                let e = tvar(&a.final_var, a.value_ty.clone());
                out = out.inserted(names[i].clone(), e);
                assert(env_view(out.view()) =~= env_view(before).insert(nv[i as int], e.view()));
            },
            None => {},
        }
        i = i + 1;
    }
    out
}

fn acc_types(names: &Vec<Name>, accs: &NameMap<CrossAcc>) -> (r: Vec<Type>)
    requires
        forall|i: int|
            0 <= i < names@.len() ==> accs.view().dom().contains((#[trigger] names_view(names@)[i])),
    ensures
        types_view(r@) == acc_tys(names_view(names@), accs_view(accs.view())),
{
    let ghost nv = names_view(names@);
    let ghost av = accs_view(accs.view());
    let mut out: Vec<Type> = Vec::new();
    let mut i: usize = 0;
    while i < names.len()
        invariant
            i <= names.len(),
            nv == names_view(names@),
            av == accs_view(accs.view()),
            forall|j: int|
                0 <= j < names@.len() ==> accs.view().dom().contains((#[trigger] nv[j])),
            out.len() == i,
            forall|j: int| 0 <= j < i ==> (#[trigger] out@[j]).view() == av[nv[j]].value_ty,
        decreases names.len() - i,
    {
        assert(nv[i as int] == names@[i as int]@);
        match accs.get(&names[i]) {
            Some(a) => {
                assert(av[nv[i as int]] == a.value());
                out.push(a.value_ty.clone());
            },
            None => {},
        }
        i = i + 1;
    }
    assert(types_view(out@) =~= acc_tys(nv, av));
    out
}

/// What the names of a site's block stand for as the block starts.
fn block_env(
    site: &RawSite,
    accs: &NameMap<CrossAcc>,
    own: &Vec<Name>,
    read_tys: &Vec<Type>,
    item_ty: &Type,
    zipped: &Type,
    p: &Expr,
) -> (r: NameMap<Expr>)
    requires
        read_tys@.len() == site.read_keys@.len(),
        names_view(own@) == site_accs(site.view(), accs_view(accs.view()), true),
        own@.len() < usize::MAX,
        forall|i: int|
            0 <= i < own@.len() ==> accs.view().dom().contains((#[trigger] names_view(own@)[i])),
    ensures
        env_view(r.view()) == start_env(
            site.view(),
            accs_view(accs.view()),
            types_view(read_tys@),
            item_ty.view(),
            zipped.view(),
            p.view(),
        ),
{
    let others = accs_of(site, accs, false);
    let none: NameMap<Expr> = NameMap::new();
    assert(env_view(none.view()) =~= Map::<NameS, ExprS>::empty());
    let n: usize = site.read_keys.len();
    let reads = add_components(none, &site.read_keys, read_tys, p, 0);
    let item = proj_item(p, n, zipped);
    let ghost rv = env_view(reads.view());
    let env = if own.len() == 0 {
        let ghost iv = item.view();
        let out = reads.inserted(site.target.name.clone(), item);
        assert(env_view(out.view()) =~= rv.insert(site.target.name@, iv));
        out
    } else {
        let first = proj_item(&item, 0, item_ty);
        let ghost fv = first.view();
        let base = reads.inserted(site.target.name.clone(), first);
        assert(env_view(base.view()) =~= rv.insert(site.target.name@, fv));
        let tys = acc_types(own, accs);
        assert(types_view(tys@).len() == own@.len());
        add_components(base, own, &tys, &item, 1)
    };
    add_finals(env, &others, accs)
}

/// The values of `keys` in `env`.
fn standing_values(env: &NameMap<Expr>, keys: &Vec<Name>) -> (r: Option<Vec<Expr>>)
    ensures
        match r {
            Some(v) => all_stand(env_view(env.view()), names_view(keys@)) && exprs_view(v@)
                == standing(env_view(env.view()), names_view(keys@)),
            None => !all_stand(env_view(env.view()), names_view(keys@)),
        },
{
    let ghost kv = names_view(keys@);
    let ghost ev = env_view(env.view());
    let mut out: Vec<Expr> = Vec::new();
    let mut i: usize = 0;
    while i < keys.len()
        invariant
            i <= keys.len(),
            kv == names_view(keys@),
            ev == env_view(env.view()),
            out.len() == i,
            forall|j: int| 0 <= j < i ==> ev.dom().contains(#[trigger] kv[j]),
            forall|j: int| 0 <= j < i ==> (#[trigger] out@[j]).view() == ev[kv[j]],
        decreases keys.len() - i,
    {
        assert(kv[i as int] == keys@[i as int]@);
        match env.get(&keys[i]) {
            Some(e) => {
                assert(ev[kv[i as int]] == e.view());
                out.push(e.clone());
            },
            None => {
                assert(!ev.dom().contains(kv[i as int]));
                return None;
            },
        }
        i = i + 1;
    }
    assert(exprs_view(out@) =~= standing(ev, kv));
    Some(out)
}

pub struct Writer {
    pub site: WriterSite,
    pub taps: Vec<Tap>,
}

impl Writer {
    pub open spec fn view(&self) -> WriterS {
        WriterS {
            read_keys: names_view(self.site.read_keys@),
            write_keys: names_view(self.site.write_keys@),
            source: self.site.source.view(),
            body: self.site.body.view(),
            taps: taps_view(self.taps@),
        }
    }
}

pub open spec fn writers_view(v: Seq<Writer>) -> Seq<WriterS> {
    Seq::new(v.len(), |i: int| v[i].view())
}

/// Builds the writer of a site.
#[verifier::rlimit(30)]
pub fn build_writer(
    site: &RawSite,
    inits: &NameMap<Expr>,
    accs: &NameMap<CrossAcc>,
    counter: u64,
    supply: &mut NameSupply,
) -> (r: Option<(Writer, u64)>)
    ensures
        match writer_s(
            site.view(),
            env_view(inits.view()),
            accs_view(accs.view()),
            counter,
            old(supply).next,
        ) {
            Some((w, c, u)) => (r matches Some((x, d)) && x.view() == w && d == c)
                && final(supply).next == u,
            None => r is None,
        },
{
    let ghost sv = site.view();
    let ghost av = accs_view(accs.view());
    assert(sv.source.tys[0] == site.source.ty.view());
    match (
        value_tys_of(&site.read_keys, inits),
        value_tys_of(&site.write_keys, inits),
        site.source.ty.codomain(),
    ) {
        (Some(read_tys), Some(write_tys), Some(item_ty)) => {
            let ghost rt = types_view(read_tys@);
            assert(rt.len() == read_tys@.len());
            let own = accs_of(site, accs, true);
            let ghost ov = names_view(own@);
            let (source, zipped) = if own.len() == 0 {
                (site.source.clone(), item_ty.clone())
            } else {
                build_zip_source(&site.source, &item_ty, &own, accs, supply)
            };
            let p = supply.fresh("__txp");
            let kept = clone_types(&read_tys);
            let mut tys = read_tys;
            let ghost before = tys@;
            tys.push(zipped.clone());
            assert(types_view(tys@) =~= rt.push(zipped.view()));
            let ty = tuple_type(tys);
            let pv = tvar(&p, ty.clone());
            let env = block_env(site, accs, &own, &kept, &item_ty, &zipped, &pv);
            let start = Walk { env, commits: Vec::new(), taps: Vec::new(), counter };
            assert(start.view().commits =~= Seq::empty());
            assert(start.view().taps =~= Seq::empty());
            match walk_block(&site.block, &truth_lit(true), &site.write_keys, start) {
                Some(w) => match standing_values(&w.env, &site.write_keys) {
                    Some(vals) => {
                        let commit = disjoin(&w.commits);
                        let writes = ttuple(vals, tuple_type(write_tys));
                        let decision = writer_decision(&commit, writes, &w.taps);
                        assert(decision.view().tys[0] == decision.ty.view());
                        let result_ty = decision.ty.clone();
                        let body = fun_lambda(p, ty, decision, result_ty);
                        let out = Writer {
                            site: WriterSite {
                                read_keys: clone_names(&site.read_keys),
                                write_keys: clone_names(&site.write_keys),
                                source,
                                body,
                            },
                            taps: w.taps,
                        };
                        Some((out, w.counter))
                    },
                    None => None,
                },
                None => None,
            }
        },
        _ => None,
    }
}

} // verus!
