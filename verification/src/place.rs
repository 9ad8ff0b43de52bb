//! Placing the planned stores into a program, executably.
use vstd::prelude::*;
use crate::ast::{
    BaseType, Expr, ExprS, HeadS, Type, TypedBinding, TypedExprNode, binder_defs_view,
    binder_names_view, binder_tys_view, exprs_view,
};
use crate::block::prepend_effects;
use crate::capture::opt_expr_view;
use crate::cross_domain::{
    CrossDomain, FeedS, clone_defs, clone_feeds, def_view, defs_view, feeds_view,
};
use crate::free_names::free_names_in_value;
use crate::make::{base_ty, var_s};
use crate::name::{Name, NameS, has_name, names_view};
use crate::name_map::NameMap;
use crate::plan::{HoistedFeed, StorePlan, hist_view, hoists_view};
use crate::probe::{Pick, gather};
use crate::scope::{free_in_value, is_free_in_value};
use crate::spine::{
    all_relinked, any_defer_named, any_hist_named, any_named, closed_group, cross_level_s,
    cross_terms, feed_s, hoisted_feeds, is_key, is_spine, later_level, letrec_s, level_s,
    level_upto, levels_upto, nested, no_escape, placed, provides, read_by, reads_carried,
    reads_from, relinked, store_feeds, store_reads, under_groups, under_lets, wrapped_cross,
};
use crate::store::{StoreS, all_placed};
use crate::subst::env_view;
use crate::txn_terms::{as_of_read, exprs2, let_typed, mut_var_value_ty, tvar};
use crate::writer::all_keyed;

verus! {

fn letrec_typed(bindings: Vec<(TypedBinding, Expr)>, body: Expr) -> (r: Expr)
    ensures
        r.view() == letrec_s(defs_view(bindings@), body.view()),
{
    let ghost ds = defs_view(bindings@);
    let ghost bv = body.view();
    let ty = body.ty.clone();
    assert(bv.tys[0] == body.ty.view());
    let out = Expr::letrec(bindings, body).with_ty(ty);
    assert(binder_names_view(bindings@) =~= Seq::new(ds.len(), |i: int| ds[i].name));
    assert(binder_defs_view(bindings@) =~= Seq::new(ds.len(), |i: int| ds[i].def));
    assert(binder_tys_view(bindings@) =~= Seq::new(ds.len(), |i: int| ds[i].ty));
    assert(out.view().tys =~= letrec_s(ds, bv).tys);
    out
}

fn lets_over(defs: Vec<(TypedBinding, Expr)>, body: Expr) -> (r: Expr)
    ensures
        r.view() == under_lets(defs_view(defs@), body.view()),
{
    let ghost whole = under_lets(defs_view(defs@), body.view());
    let mut ds = defs;
    let mut out = body;
    while ds.len() > 0
        invariant
            under_lets(defs_view(ds@), out.view()) == whole,
        decreases ds.len(),
    {
        let ghost before = defs_view(ds@);
        let ghost last = ds@[ds@.len() - 1];
        match ds.pop() {
            Some((b, def)) => {
                assert(before.last() == def_view(last));
                assert(defs_view(ds@) =~= before.drop_last());
                out = let_typed(b.name, b.ty, def, out);
            },
            None => {},
        }
    }
    out
}

/// Puts the statements that feed `feeds` before `body`.
pub fn hoist_feeds(body: Expr, feeds: Vec<(Name, Expr)>) -> (r: Expr)
    ensures
        r.view() == hoisted_feeds(feeds_view(feeds@), body.view()),
{
    let ghost fv = feeds_view(feeds@);
    let mut es: Vec<Expr> = Vec::new();
    let mut i: usize = 0;
    while i < feeds.len()
        invariant
            i <= feeds.len(),
            fv == feeds_view(feeds@),
            es.len() == i,
            forall|j: int| 0 <= j < i ==> (#[trigger] es@[j]).view() == feed_s(fv[j]),
        decreases feeds.len() - i,
    {
        assert(fv[i as int] == (FeedS {
            name: feeds@[i as int].0@,
            value: feeds@[i as int].1.view(),
        }));
        let e = Expr::feed(feeds[i].0.clone(), feeds[i].1.clone()).with_ty(
            Type::Base(BaseType::Unit),
        );
        assert(e.view().tys =~= seq![base_ty(BaseType::Unit)]);
        es.push(e);
        i = i + 1;
    }
    assert(exprs_view(es@) =~= Seq::new(fv.len(), |i: int| feed_s(fv[i])));
    prepend_effects(es, body)
}

/// Closes a recurrence over `body`.
pub fn close_recurrence_group(
    bindings: Vec<(TypedBinding, Expr)>,
    reads: Vec<(TypedBinding, Expr)>,
    feeds: Vec<(Name, Expr)>,
    body: Expr,
) -> (r: Expr)
    ensures
        r.view() == closed_group(
            defs_view(bindings@),
            defs_view(reads@),
            feeds_view(feeds@),
            body.view(),
        ),
{
    letrec_typed(bindings, hoist_feeds(lets_over(reads, body), feeds))
}

/// Whether one of the names is free in `e`.
fn names_any(ns: &Vec<Name>, e: &Expr) -> (r: bool)
    ensures
        r == any_named(names_view(ns@), e.view()),
{
    let ghost nv = names_view(ns@);
    let mut i: usize = 0;
    while i < ns.len()
        invariant
            i <= ns.len(),
            nv == names_view(ns@),
            forall|j: int| 0 <= j < i ==> !free_in_value(#[trigger] nv[j], e.view()),
        decreases ns.len() - i,
    {
        assert(nv[i as int] == ns@[i as int]@);
        if is_free_in_value(&ns[i], e) {
            return true;
        }
        i = i + 1;
    }
    false
}

fn hist_named(hist: &NameMap<Name>, e: &Expr) -> (r: bool)
    ensures
        r == any_hist_named(hist_view(hist.view()), e.view()),
{
    let n: usize = hist.len();
    let ghost keys = hist.keys_view();
    let ghost hv = hist_view(hist.view());
    let mut i: usize = 0;
    while i < n
        invariant
            i <= n,
            n == keys.len(),
            keys == hist.keys_view(),
            hv == hist_view(hist.view()),
            forall|j: int| 0 <= j < i ==> !free_in_value(hv[#[trigger] keys[j]], e.view()),
        decreases n - i,
    {
        let key = hist.key(i);
        let value = hist.value(i);
        assert(hv[keys[i as int]] == value@);
        if is_free_in_value(value, e) {
            assert(hv.dom().contains(keys[i as int]));
            return true;
        }
        i = i + 1;
    }
    assert forall|k: NameS| #[trigger] hv.dom().contains(k) implies !free_in_value(
        hv[k],
        e.view(),
    ) by {
        assert(hist.view().dom().contains(k));
        assert(keys.contains(k));
        let j = choose|j: int| 0 <= j < keys.len() && keys[j] == k;
        assert(keys[j] == k);
    }
    false
}

fn defers_named(hoisted: &Vec<HoistedFeed>, e: &Expr) -> (r: bool)
    ensures
        r == any_defer_named(hoists_view(hoisted@), e.view()),
{
    let ghost hv = hoists_view(hoisted@);
    let mut i: usize = 0;
    while i < hoisted.len()
        invariant
            i <= hoisted.len(),
            hv == hoists_view(hoisted@),
            forall|j: int| 0 <= j < i ==> !free_in_value((#[trigger] hv[j]).defer, e.view()),
        decreases hoisted.len() - i,
    {
        assert(hv[i as int] == hoisted@[i as int].view());
        if is_free_in_value(&hoisted[i].defer, e) {
            return true;
        }
        i = i + 1;
    }
    false
}

impl StorePlan {
    /// Whether `e` reads the store.
    pub fn is_read_by(&self, e: &Expr) -> (r: bool)
        ensures
            r == read_by(self.view(), e.view()),
    {
        names_any(&self.key_names, e) || hist_named(&self.hist, e) || defers_named(
            &self.hoisted,
            e,
        )
    }

    /// The reads of the store's keys that `body` names.
    pub fn reads(&self, inits: &NameMap<Expr>, body: &Expr) -> (r: Vec<(TypedBinding, Expr)>)
        requires
            all_placed(self.view().keys, self.view().hist),
            all_keyed(self.view().keys, env_view(inits.view())),
        ensures
            defs_view(r@) == store_reads(
                self.view(),
                env_view(inits.view()),
                body.view(),
                self.view().keys.len(),
            ),
    {
        let ghost sv = self.view();
        let ghost iv = env_view(inits.view());
        let mut out: Vec<(TypedBinding, Expr)> = Vec::new();
        let mut i: usize = 0;
        assert(defs_view(out@) =~= Seq::empty());
        while i < self.key_names.len()
            invariant
                i <= self.key_names.len(),
                sv == self.view(),
                iv == env_view(inits.view()),
                all_placed(sv.keys, sv.hist),
                all_keyed(sv.keys, iv),
                defs_view(out@) == store_reads(sv, iv, body.view(), i as nat),
            decreases self.key_names.len() - i,
        {
            let k = &self.key_names[i];
            assert(sv.keys[i as int] == k@);
            let ghost before = out@;
            if is_free_in_value(k, body) {
                match (self.hist.get(k), inits.get(k)) {
                    (Some(h), Some(init)) => {
                        assert(sv.hist[k@] == h@);
                        assert(iv[k@] == init.view());
                        assert(init.view().tys[0] == init.ty.view());
                        let v = mut_var_value_ty(&init.ty);
                        let read = as_of_read(h, v.clone());
                        let d = (TypedBinding { name: k.clone(), ty: v }, read);
                        out.push(d);
                        assert(defs_view(out@) =~= defs_view(before).push(def_view(d)));
                    },
                    _ => {
                        assert(sv.hist.dom().contains(sv.keys[i as int]));
                        assert(iv.dom().contains(sv.keys[i as int]));
                    },
                }
            }
            i = i + 1;
        }
        out
    }

    /// What leaves the store.
    pub fn feed_views(&self) -> (r: Vec<(Name, Expr)>)
        ensures
            feeds_view(r@) == store_feeds(self.view()),
    {
        let ghost hv = hoists_view(self.hoisted@);
        let mut out: Vec<(Name, Expr)> = Vec::new();
        let mut i: usize = 0;
        while i < self.hoisted.len()
            invariant
                i <= self.hoisted.len(),
                hv == hoists_view(self.hoisted@),
                out.len() == i,
                forall|j: int|
                    0 <= j < i ==> (#[trigger] out@[j]).0@ == hv[j].defer && out@[j].1.view()
                        == var_s(hv[j].tap, hv[j].tap_ty),
            decreases self.hoisted.len() - i,
        {
            let h = &self.hoisted[i];
            assert(hv[i as int] == h.view());
            out.push((h.defer.clone(), tvar(&h.tap, h.tap_ty.clone())));
            i = i + 1;
        }
        assert(feeds_view(out@) =~= store_feeds(self.view()));
        out
    }
}

pub open spec fn stores_view(v: Seq<StorePlan>) -> Seq<StoreS> {
    Seq::new(v.len(), |i: int| v[i].view())
}

pub open spec fn expr_lists_view(v: Seq<Vec<Expr>>) -> Seq<Seq<ExprS>> {
    Seq::new(v.len(), |i: int| exprs_view(v[i]@))
}

/// What a spine statement provides.
fn carried_provides(node: &Expr) -> (r: Vec<Name>)
    requires
        is_spine(node.view()),
    ensures
        names_view(r@) == provides(node.view()),
{
    let ghost nv = node.view();
    let kids = node.children();
    assert(kids@.len() == nv.kids.len());
    assert(kids@[0].view() == nv.kids[0]);
    let mut out: Vec<Name> = Vec::new();
    match &node.node {
        TypedExprNode::Let { binding, bound_expr, body } => out.push(binding.name.clone()),
        TypedExprNode::MutDecl { binding, init, body } => out.push(binding.name.clone()),
        _ => {},
    }
    let ghost first = match nv.head {
        HeadS::Let(n) => seq![n],
        HeadS::MutDecl(n) => seq![n],
        _ => Seq::empty(),
    };
    assert(names_view(out@) =~= first);
    let mut more = gather(&Pick::Fed, kids[0]);
    let ghost before = out@;
    let ghost mv = more@;
    out.append(&mut more);
    assert(names_view(out@) =~= names_view(before) + names_view(mv));
    out
}

pub open spec fn all_spine(cs: Seq<ExprS>) -> bool {
    forall|i: int| 0 <= i < cs.len() ==> is_spine(#[trigger] cs[i])
}

fn any_carried_reads(cs: &Vec<Expr>, e: &Expr) -> (r: bool)
    requires
        all_spine(exprs_view(cs@)),
    ensures
        r == reads_carried(exprs_view(cs@), e.view()),
{
    let ghost cv = exprs_view(cs@);
    let mut i: usize = 0;
    while i < cs.len()
        invariant
            i <= cs.len(),
            cv == exprs_view(cs@),
            all_spine(cv),
            forall|j: int| 0 <= j < i ==> !reads_from(#[trigger] cv[j], e.view()),
        decreases cs.len() - i,
    {
        assert(cv[i as int] == cs@[i as int].view());
        let ps = carried_provides(&cs[i]);
        assert(names_view(ps@) == provides(cv[i as int]));
        if names_any(&ps, e) {
            assert(reads_from(cv[i as int], e.view()));
            return true;
        }
        i = i + 1;
    }
    false
}

pub open spec fn all_lists_spine(carried: Seq<Seq<ExprS>>) -> bool {
    forall|i: int| 0 <= i < carried.len() ==> all_spine(#[trigger] carried[i])
}

pub open spec fn opt_index(x: Option<usize>) -> Option<int> {
    match x {
        Some(i) => Some(i as int),
        None => None,
    }
}

/// The last store that `e` reads.
fn level_of(e: &Expr, stores: &Vec<StorePlan>, carried: &Vec<Vec<Expr>>) -> (r: Option<usize>)
    requires
        stores@.len() == carried@.len(),
        all_lists_spine(expr_lists_view(carried@)),
    ensures
        opt_index(r) == level_s(e.view(), stores_view(stores@), expr_lists_view(carried@)),
        r matches Some(i) ==> i < stores@.len(),
{
    let ghost sv = stores_view(stores@);
    let ghost cv = expr_lists_view(carried@);
    let mut n: usize = stores.len();
    while n > 0
        invariant
            n <= stores@.len(),
            stores@.len() == carried@.len(),
            sv == stores_view(stores@),
            cv == expr_lists_view(carried@),
            all_lists_spine(cv),
            level_upto(e.view(), sv, cv, n as nat) == level_s(e.view(), sv, cv),
        decreases n,
    {
        let i: usize = n - 1;
        assert(sv[i as int] == stores@[i as int].view());
        assert(cv[i as int] == exprs_view(carried@[i as int]@));
        if stores[i].is_read_by(e) || any_carried_reads(&carried[i], e) {
            return Some(i);
        }
        n = i;
    }
    None
}

fn later_of(a: Option<usize>, b: Option<usize>) -> (r: Option<usize>)
    ensures
        opt_index(r) == later_level(opt_index(a), opt_index(b)),
        r is Some ==> r == a || r == b,
{
    match (a, b) {
        (Some(x), Some(y)) => Some(
            if x < y {
                y
            } else {
                x
            },
        ),
        (Some(x), None) => Some(x),
        (None, y) => y,
    }
}

/// The store that a folded loop group goes into.
fn cross_level(cross: &CrossDomain, stores: &Vec<StorePlan>, carried: &Vec<Vec<Expr>>) -> (r: Option<
    usize,
>)
    requires
        stores@.len() == carried@.len(),
        all_lists_spine(expr_lists_view(carried@)),
    ensures
        opt_index(r) == cross_level_s(
            cross.view(),
            stores_view(stores@),
            expr_lists_view(carried@),
        ),
        r matches Some(i) ==> i < stores@.len(),
{
    let ghost cv = cross.view();
    let ghost sv = stores_view(stores@);
    let ghost lv = expr_lists_view(carried@);
    if cross.bindings.len() == 0 {
        return None;
    }
    let mut terms: Vec<&Expr> = Vec::new();
    let mut i: usize = 0;
    let ghost want = cross_terms(cv);
    while i < cross.bindings.len()
        invariant
            i <= cross.bindings.len(),
            cv == cross.view(),
            want == cross_terms(cv),
            terms.len() == i,
            forall|j: int| 0 <= j < i ==> (#[trigger] terms@[j]).view() == want[j],
        decreases cross.bindings.len() - i,
    {
        assert(cv.bindings[i as int] == def_view(cross.bindings@[i as int]));
        terms.push(&cross.bindings[i].1);
        i = i + 1;
    }
    let mut i: usize = 0;
    while i < cross.reads.len()
        invariant
            i <= cross.reads.len(),
            cv == cross.view(),
            want == cross_terms(cv),
            terms.len() == cross.bindings@.len() + i,
            forall|j: int|
                0 <= j < cross.bindings@.len() + i ==> (#[trigger] terms@[j]).view() == want[j],
        decreases cross.reads.len() - i,
    {
        assert(cv.reads[i as int] == def_view(cross.reads@[i as int]));
        assert(want[cross.bindings@.len() + i] == cv.reads[i as int].def);
        terms.push(&cross.reads[i].1);
        i = i + 1;
    }
    let mut i: usize = 0;
    while i < cross.feeds.len()
        invariant
            i <= cross.feeds.len(),
            cv == cross.view(),
            want == cross_terms(cv),
            terms.len() == cross.bindings@.len() + cross.reads@.len() + i,
            forall|j: int|
                0 <= j < cross.bindings@.len() + cross.reads@.len() + i
                    ==> (#[trigger] terms@[j]).view() == want[j],
        decreases cross.feeds.len() - i,
    {
        assert(cv.feeds[i as int].value == cross.feeds@[i as int].1.view());
        assert(want[cross.bindings@.len() + cross.reads@.len() + i] == cv.feeds[i as int].value);
        terms.push(&cross.feeds[i].1);
        i = i + 1;
    }
    assert(want.len() == terms@.len());
    let mut out: Option<usize> = None;
    let mut i: usize = 0;
    while i < terms.len()
        invariant
            i <= terms.len(),
            want.len() == terms@.len(),
            stores@.len() == carried@.len(),
            sv == stores_view(stores@),
            lv == expr_lists_view(carried@),
            all_lists_spine(lv),
            forall|j: int| 0 <= j < terms@.len() ==> (#[trigger] terms@[j]).view() == want[j],
            opt_index(out) == levels_upto(want, sv, lv, i as nat),
            out matches Some(x) ==> x < stores@.len(),
        decreases terms.len() - i,
    {
        assert(terms@[i as int].view() == want[i as int]);
        out = later_of(out, level_of(terms[i], stores, carried));
        i = i + 1;
    }
    out
}

fn groups_over(defs: Vec<(TypedBinding, Expr)>, body: Expr) -> (r: Expr)
    ensures
        r.view() == under_groups(defs_view(defs@), body.view()),
{
    let ghost whole = under_groups(defs_view(defs@), body.view());
    let mut ds = defs;
    let mut out = body;
    while ds.len() > 0
        invariant
            under_groups(defs_view(ds@), out.view()) == whole,
        decreases ds.len(),
    {
        let ghost before = defs_view(ds@);
        let ghost last = ds@[ds@.len() - 1];
        match ds.pop() {
            Some(d) => {
                assert(before.last() == def_view(last));
                assert(defs_view(ds@) =~= before.drop_last());
                let mut one: Vec<(TypedBinding, Expr)> = Vec::new();
                one.push(d);
                assert(defs_view(one@) =~= seq![def_view(last)]);
                out = letrec_typed(one, out);
            },
            None => {},
        }
    }
    out
}

/// Puts the folded loops around `inner`.
fn wrap_cross_domain(inner: Expr, cross: &CrossDomain) -> (r: Expr)
    ensures
        r.view() == wrapped_cross(inner.view(), cross.view()),
{
    if cross.bindings.len() == 0 {
        return inner;
    }
    let body = hoist_feeds(
        lets_over(clone_defs(&cross.reads), inner),
        clone_feeds(&cross.feeds),
    );
    groups_over(clone_defs(&cross.bindings), body)
}

/// The spine statement `node` over another rest.
fn relink_spine_body(node: &Expr, inner: Expr) -> (r: Expr)
    requires
        is_spine(node.view()),
    ensures
        r.view() == relinked(node.view(), inner.view()),
{
    let kids = node.children();
    assert(kids@.len() == node.view().kids.len());
    assert(kids@[0].view() == node.view().kids[0]);
    node.with_children(exprs2(kids[0].clone(), inner))
}

fn relink_all(cs: &Vec<Expr>, inner: Expr) -> (r: Expr)
    requires
        all_spine(exprs_view(cs@)),
    ensures
        r.view() == all_relinked(exprs_view(cs@), inner.view()),
{
    let ghost cv = exprs_view(cs@);
    let ghost whole = all_relinked(cv, inner.view());
    let mut out = inner;
    let mut n: usize = cs.len();
    assert(cv.take(n as int) =~= cv);
    while n > 0
        invariant
            n <= cs@.len(),
            cv == exprs_view(cs@),
            all_spine(cv),
            all_relinked(cv.take(n as int), out.view()) == whole,
        decreases n,
    {
        let i: usize = n - 1;
        assert(cv[i as int] == cs@[i as int].view());
        assert(cv.take(n as int).last() == cv[i as int]);
        assert(cv.take(n as int).drop_last() =~= cv.take(i as int));
        out = relink_spine_body(&cs[i], out);
        n = i;
    }
    assert(cv.take(0) =~= Seq::empty());
    out
}

pub open spec fn stores_ready(stores: Seq<StoreS>, inits: Map<NameS, ExprS>) -> bool {
    forall|i: int|
        0 <= i < stores.len() ==> all_placed((#[trigger] stores[i]).keys, stores[i].hist)
            && all_keyed(stores[i].keys, inits)
}

fn nest_stores(
    stores: &Vec<StorePlan>,
    inits: &NameMap<Expr>,
    carried: &Vec<Vec<Expr>>,
    cross: &CrossDomain,
    level: Option<usize>,
    inner: Expr,
) -> (r: Expr)
    requires
        stores@.len() == carried@.len(),
        all_lists_spine(expr_lists_view(carried@)),
        stores_ready(stores_view(stores@), env_view(inits.view())),
    ensures
        r.view() == nested(
            stores_view(stores@),
            env_view(inits.view()),
            expr_lists_view(carried@),
            cross.view(),
            opt_index(level),
            stores@.len(),
            inner.view(),
        ),
{
    let ghost sv = stores_view(stores@);
    let ghost iv = env_view(inits.view());
    let ghost cv = expr_lists_view(carried@);
    let ghost lv = opt_index(level);
    let ghost whole = nested(sv, iv, cv, cross.view(), lv, sv.len(), inner.view());
    let mut out = inner;
    let mut n: usize = stores.len();
    while n > 0
        invariant
            n <= stores@.len(),
            stores@.len() == carried@.len(),
            sv == stores_view(stores@),
            iv == env_view(inits.view()),
            cv == expr_lists_view(carried@),
            lv == opt_index(level),
            all_lists_spine(cv),
            stores_ready(sv, iv),
            nested(sv, iv, cv, cross.view(), lv, n as nat, out.view()) == whole,
        decreases n,
    {
        let i: usize = n - 1;
        let s = &stores[i];
        assert(sv[i as int] == s.view());
        assert(cv[i as int] == exprs_view(carried@[i as int]@));
        let here = match level {
            Some(l) => l == i,
            None => false,
        };
        let a = if here {
            wrap_cross_domain(out, cross)
        } else {
            out
        };
        let b = relink_all(&carried[i], a);
        let reads = s.reads(inits, &b);
        out = close_recurrence_group(clone_defs(&s.bindings), reads, s.feed_views(), b);
        n = i;
    }
    out
}

fn is_store_key(stores: &Vec<StorePlan>, n: &Name) -> (r: bool)
    ensures
        r == is_key(stores_view(stores@), n@),
{
    let ghost sv = stores_view(stores@);
    let mut i: usize = 0;
    while i < stores.len()
        invariant
            i <= stores.len(),
            sv == stores_view(stores@),
            forall|j: int| 0 <= j < i ==> !(#[trigger] sv[j]).keys.contains(n@),
        decreases stores.len() - i,
    {
        assert(sv[i as int] == stores@[i as int].view());
        if has_name(&stores[i].key_names, n) {
            return true;
        }
        i = i + 1;
    }
    false
}

/// Places the stores along the spine of `e`.
fn walk_spine(
    e: &Expr,
    stores: &Vec<StorePlan>,
    inits: &NameMap<Expr>,
    cross: &CrossDomain,
    carried: Vec<Vec<Expr>>,
) -> (r: Expr)
    requires
        stores@.len() == carried@.len(),
        all_lists_spine(expr_lists_view(carried@)),
        stores_ready(stores_view(stores@), env_view(inits.view())),
    ensures
        r.view() == placed(
            e.view(),
            stores_view(stores@),
            env_view(inits.view()),
            cross.view(),
            expr_lists_view(carried@),
        ),
    decreases e.view(),
{
    let ghost ev = e.view();
    let ghost cv = expr_lists_view(carried@);
    let (spine, dropped) = match &e.node {
        TypedExprNode::MutDecl { binding, init, body } => (
            true,
            is_store_key(stores, &binding.name),
        ),
        TypedExprNode::Let { binding, bound_expr, body } => (true, false),
        TypedExprNode::ExprStmt { expr, body } => (true, false),
        _ => (false, false),
    };
    assert(spine == is_spine(ev));
    if spine {
        let kids = e.children();
        assert(kids@.len() == ev.kids.len());
        assert(kids@[0].view() == ev.kids[0]);
        assert(kids@[1].view() == ev.kids[1]);
        assert(decreases_to!(ev => ev.kids[1]));
        if dropped {
            return walk_spine(kids[1], stores, inits, cross, carried);
        }
        match level_of(kids[0], stores, &carried) {
            Some(l) => {
                let mut carried = carried;
                let ghost before = carried@;
                let mut grown = clone_exprs(&carried[l]);
                grown.push(e.clone());
                assert(cv[l as int] == exprs_view(before[l as int]@));
                assert(exprs_view(grown@) =~= cv[l as int].push(ev));
                carried.set(l, grown);
                assert(expr_lists_view(carried@) =~= cv.update(l as int, cv[l as int].push(ev)));
                assert(all_lists_spine(expr_lists_view(carried@))) by {
                    assert forall|i: int| 0 <= i < carried@.len() implies all_spine(
                        #[trigger] expr_lists_view(carried@)[i],
                    ) by {
                        assert(all_spine(cv[i]));
                        if i == l {
                            assert forall|j: int|
                                0 <= j < cv[i].push(ev).len() implies is_spine(
                                #[trigger] cv[i].push(ev)[j],
                            ) by {
                                if j < cv[i].len() {
                                    assert(is_spine(cv[i][j]));
                                }
                            }
                        }
                    }
                }
                walk_spine(kids[1], stores, inits, cross, carried)
            },
            None => {
                let inner = walk_spine(kids[1], stores, inits, cross, carried);
                relink_spine_body(e, inner)
            },
        }
    } else {
        let level = cross_level(cross, stores, &carried);
        let inner = nest_stores(stores, inits, &carried, cross, level, e.clone());
        if level.is_some() {
            inner
        } else {
            wrap_cross_domain(inner, cross)
        }
    }
}

pub fn clone_exprs(es: &Vec<Expr>) -> (r: Vec<Expr>)
    ensures
        exprs_view(r@) == exprs_view(es@),
        r@.len() == es@.len(),
{
    let mut out: Vec<Expr> = Vec::new();
    let mut i: usize = 0;
    while i < es.len()
        invariant
            i <= es.len(),
            out.len() == i,
            forall|j: int| 0 <= j < i ==> (#[trigger] out@[j]).view() == es@[j].view(),
        decreases es.len() - i,
    {
        out.push(es[i].clone());
        i = i + 1;
    }
    assert(exprs_view(out@) =~= exprs_view(es@));
    out
}

/// No statements, for that many stores.
pub open spec fn none_carried(n: nat) -> Seq<Seq<ExprS>> {
    Seq::new(n, |i: int| Seq::<ExprS>::empty())
}

/// Places the stores into a program. There is no result where that would free a
/// name.
pub fn splice_stores(
    e: &Expr,
    stores: &Vec<StorePlan>,
    inits: &NameMap<Expr>,
    cross: &CrossDomain,
) -> (r: Option<Expr>)
    requires
        stores_ready(stores_view(stores@), env_view(inits.view())),
    ensures
        ({
            let out = placed(
                e.view(),
                stores_view(stores@),
                env_view(inits.view()),
                cross.view(),
                none_carried(stores@.len()),
            );
            opt_expr_view(r) == (if no_escape(e.view(), out) { Some(out) } else { None })
        }),
{
    let mut carried: Vec<Vec<Expr>> = Vec::new();
    let mut i: usize = 0;
    while i < stores.len()
        invariant
            i <= stores.len(),
            carried.len() == i,
            forall|j: int| 0 <= j < i ==> (#[trigger] carried@[j])@.len() == 0,
        decreases stores.len() - i,
    {
        carried.push(Vec::new());
        i = i + 1;
    }
    proof {
        assert forall|j: int| 0 <= j < carried@.len() implies #[trigger] expr_lists_view(
            carried@,
        )[j] == Seq::<ExprS>::empty() by {
            assert(carried@[j]@.len() == 0);
            assert(exprs_view(carried@[j]@) =~= Seq::<ExprS>::empty());
        }
        assert(expr_lists_view(carried@) =~= none_carried(stores@.len()));
    }
    let out = walk_spine(e, stores, inits, cross, carried);
    let names = free_names_in_value(&out);
    let ghost nv = names_view(names@);
    let mut i: usize = 0;
    while i < names.len()
        invariant
            i <= names.len(),
            nv == names_view(names@),
            forall|n: NameS| nv.contains(n) <==> free_in_value(n, out.view()),
            forall|j: int| 0 <= j < i ==> free_in_value(#[trigger] nv[j], e.view()),
            out.view() == placed(
                e.view(),
                stores_view(stores@),
                env_view(inits.view()),
                cross.view(),
                none_carried(stores@.len()),
            ),
        decreases names.len() - i,
    {
        assert(nv[i as int] == names@[i as int]@);
        if !is_free_in_value(&names[i], e) {
            proof {
                assert(nv.contains(nv[i as int]));
                assert(free_in_value(nv[i as int], out.view()));
                assert(!no_escape(e.view(), out.view()));
            }
            return None;
        }
        i = i + 1;
    }
    assert(no_escape(e.view(), out.view())) by {
        assert forall|n: NameS| #[trigger] free_in_value(n, out.view()) implies free_in_value(
            n,
            e.view(),
        ) by {
            assert(nv.contains(n));
            let j = choose|j: int| 0 <= j < nv.len() && nv[j] == n;
            assert(free_in_value(nv[j], e.view()));
        }
    }
    Some(out)
}

} // verus!
