//! Placing the planned stores into a program.
use vstd::prelude::*;
use crate::ast::{BaseType, BuiltinS, ExprS, HeadS};
use crate::block::prepended;
use crate::cross_domain::{CrossS, DefS, FeedS};
use crate::make::{base_ty, let_s, term, var_s};
use crate::name::NameS;
use crate::probe::{PickS, gathered};
use crate::scope::free_in_value;
use crate::store::{HoistS, StoreS};
use crate::tree::with_kids;
use crate::txn_terms::{sampling_read_s, value_ty_of};

verus! {

/// A recursive group around `body`, at the type of the body.
pub open spec fn letrec_s(defs: Seq<DefS>, body: ExprS) -> ExprS {
    ExprS {
        head: HeadS::LetRec(Seq::new(defs.len(), |i: int| defs[i].name)),
        kids: Seq::new(defs.len(), |i: int| defs[i].def).push(body),
        tys: seq![body.ty()] + Seq::new(defs.len(), |i: int| defs[i].ty),
        annotated: false,
    }
}

/// `body` under the bindings `defs`, the first outermost.
pub open spec fn under_lets(defs: Seq<DefS>, body: ExprS) -> ExprS
    decreases defs.len(),
{
    if defs.len() == 0 {
        body
    } else {
        let d = defs.last();
        under_lets(defs.drop_last(), let_s(d.name, d.ty, d.def, body, body.ty()))
    }
}

pub open spec fn feed_s(f: FeedS) -> ExprS {
    term(HeadS::Feed(f.name), seq![f.value], base_ty(BaseType::Unit))
}

/// `body` behind the statements that feed `feeds`.
pub open spec fn hoisted_feeds(feeds: Seq<FeedS>, body: ExprS) -> ExprS {
    prepended(Seq::new(feeds.len(), |i: int| feed_s(feeds[i])), body)
}

/// A recurrence closed over `body`: the group, what it feeds, and what is read of
/// it.
pub open spec fn closed_group(
    defs: Seq<DefS>,
    reads: Seq<DefS>,
    feeds: Seq<FeedS>,
    body: ExprS,
) -> ExprS {
    letrec_s(defs, hoisted_feeds(feeds, under_lets(reads, body)))
}

/// Whether one of the names is free in `e`.
pub open spec fn any_named(ns: Seq<NameS>, e: ExprS) -> bool {
    exists|i: int| 0 <= i < ns.len() && free_in_value(#[trigger] ns[i], e)
}

/// Whether one of the histories is free in `e`.
pub open spec fn any_hist_named(hist: Map<NameS, NameS>, e: ExprS) -> bool {
    exists|k: NameS| #[trigger] hist.dom().contains(k) && free_in_value(hist[k], e)
}

/// Whether one of the handles is free in `e`.
pub open spec fn any_defer_named(hs: Seq<HoistS>, e: ExprS) -> bool {
    exists|i: int| 0 <= i < hs.len() && free_in_value((#[trigger] hs[i]).defer, e)
}

/// Whether `e` reads the store.
pub open spec fn read_by(s: StoreS, e: ExprS) -> bool {
    any_named(s.keys, e) || any_hist_named(s.hist, e) || any_defer_named(s.hoisted, e)
}

/// What a spine statement provides: its binder, and the handles that its value
/// feeds.
pub open spec fn provides(c: ExprS) -> Seq<NameS> {
    (match c.head {
        HeadS::Let(n) => seq![n],
        HeadS::MutDecl(n) => seq![n],
        _ => Seq::empty(),
    }) + gathered(PickS::Fed, c.kids[0])
}

/// Whether `e` reads what `c` provides.
pub open spec fn reads_from(c: ExprS, e: ExprS) -> bool {
    any_named(provides(c), e)
}

/// Whether `e` reads what one of the statements provides.
pub open spec fn reads_carried(cs: Seq<ExprS>, e: ExprS) -> bool {
    exists|i: int| 0 <= i < cs.len() && reads_from(#[trigger] cs[i], e)
}

/// The last of the first `n` stores that `e` reads, itself or through a statement
/// that is carried into it.
pub open spec fn level_upto(
    e: ExprS,
    stores: Seq<StoreS>,
    carried: Seq<Seq<ExprS>>,
    n: nat,
) -> Option<int>
    decreases n,
{
    if n == 0 {
        None
    } else if read_by(stores[n - 1], e) || reads_carried(carried[n - 1], e) {
        Some(n - 1)
    } else {
        level_upto(e, stores, carried, (n - 1) as nat)
    }
}

pub open spec fn level_s(e: ExprS, stores: Seq<StoreS>, carried: Seq<Seq<ExprS>>) -> Option<int> {
    level_upto(e, stores, carried, stores.len())
}

pub open spec fn later_level(a: Option<int>, b: Option<int>) -> Option<int> {
    match (a, b) {
        (Some(x), Some(y)) => Some(if x < y { y } else { x }),
        (Some(x), None) => Some(x),
        (None, y) => y,
    }
}

/// The last store that one of the first `n` terms reads.
pub open spec fn levels_upto(
    es: Seq<ExprS>,
    stores: Seq<StoreS>,
    carried: Seq<Seq<ExprS>>,
    n: nat,
) -> Option<int>
    decreases n,
{
    if n == 0 {
        None
    } else {
        later_level(
            levels_upto(es, stores, carried, (n - 1) as nat),
            level_s(es[n - 1], stores, carried),
        )
    }
}

/// The terms of a folded loop group.
pub open spec fn cross_terms(c: CrossS) -> Seq<ExprS> {
    Seq::new(c.bindings.len(), |i: int| c.bindings[i].def) + Seq::new(
        c.reads.len(),
        |i: int| c.reads[i].def,
    ) + Seq::new(c.feeds.len(), |i: int| c.feeds[i].value)
}

/// The store that a folded loop group goes into.
pub open spec fn cross_level_s(c: CrossS, stores: Seq<StoreS>, carried: Seq<Seq<ExprS>>) -> Option<
    int,
> {
    if c.bindings.len() == 0 {
        None
    } else {
        levels_upto(cross_terms(c), stores, carried, cross_terms(c).len())
    }
}

/// The groups of the first `n` bindings around `body`, one each.
pub open spec fn under_groups(defs: Seq<DefS>, body: ExprS) -> ExprS
    decreases defs.len(),
{
    if defs.len() == 0 {
        body
    } else {
        under_groups(defs.drop_last(), letrec_s(seq![defs.last()], body))
    }
}

/// `e` under the folded loops.
pub open spec fn wrapped_cross(e: ExprS, c: CrossS) -> ExprS {
    if c.bindings.len() == 0 {
        e
    } else {
        under_groups(c.bindings, hoisted_feeds(c.feeds, under_lets(c.reads, e)))
    }
}

/// A spine statement over another rest.
pub open spec fn relinked(c: ExprS, inner: ExprS) -> ExprS {
    with_kids(c, seq![c.kids[0], inner])
}

/// The spine statements `cs`, then `inner`.
pub open spec fn all_relinked(cs: Seq<ExprS>, inner: ExprS) -> ExprS
    decreases cs.len(),
{
    if cs.len() == 0 {
        inner
    } else {
        all_relinked(cs.drop_last(), relinked(cs.last(), inner))
    }
}

/// The reads of the first `n` keys of a store that `body` names.
pub open spec fn store_reads(
    s: StoreS,
    inits: Map<NameS, ExprS>,
    body: ExprS,
    n: nat,
) -> Seq<DefS>
    decreases n,
{
    if n == 0 {
        Seq::empty()
    } else {
        let before = store_reads(s, inits, body, (n - 1) as nat);
        let k = s.keys[n - 1];
        if free_in_value(k, body) {
            let v = value_ty_of(inits[k].ty());
            before.push(
                DefS {
                    name: k,
                    ty: v,
                    def: sampling_read_s(s.hist[k], v, BuiltinS::AsOfRead),
                },
            )
        } else {
            before
        }
    }
}

/// What leaves a store.
pub open spec fn store_feeds(s: StoreS) -> Seq<FeedS> {
    Seq::new(
        s.hoisted.len(),
        |i: int|
            FeedS {
                name: s.hoisted[i].defer,
                value: var_s(s.hoisted[i].tap, s.hoisted[i].tap_ty),
            },
    )
}

/// `inner` inside the first `n` stores, the first outermost, each with the
/// statements that are carried into it.
pub open spec fn nested(
    stores: Seq<StoreS>,
    inits: Map<NameS, ExprS>,
    carried: Seq<Seq<ExprS>>,
    cross: CrossS,
    level: Option<int>,
    n: nat,
    inner: ExprS,
) -> ExprS
    decreases n,
{
    if n == 0 {
        inner
    } else {
        let s = stores[n - 1];
        let a = if level == Some(n - 1) { wrapped_cross(inner, cross) } else { inner };
        let b = all_relinked(carried[n - 1], a);
        nested(
            stores,
            inits,
            carried,
            cross,
            level,
            (n - 1) as nat,
            closed_group(s.bindings, store_reads(s, inits, b, s.keys.len()), store_feeds(s), b),
        )
    }
}

/// Whether some store has the key.
pub open spec fn is_key(stores: Seq<StoreS>, n: NameS) -> bool {
    exists|i: int| 0 <= i < stores.len() && (#[trigger] stores[i]).keys.contains(n)
}

pub open spec fn is_spine(e: ExprS) -> bool {
    (e.head is Let || e.head is MutDecl || e.head is ExprStmt) && e.kids.len() == 2
}

/// The program with its stores placed. The declarations of keys are dropped; a
/// statement that reads a store is carried into the last one it reads.
pub open spec fn placed(
    e: ExprS,
    stores: Seq<StoreS>,
    inits: Map<NameS, ExprS>,
    cross: CrossS,
    carried: Seq<Seq<ExprS>>,
) -> ExprS
    decreases e,
{
    if is_spine(e) {
        if e.head matches HeadS::MutDecl(n) && is_key(stores, n) {
            placed(e.kids[1], stores, inits, cross, carried)
        } else {
            match level_s(e.kids[0], stores, carried) {
                Some(l) => placed(
                    e.kids[1],
                    stores,
                    inits,
                    cross,
                    carried.update(l, carried[l].push(e)),
                ),
                None => relinked(e, placed(e.kids[1], stores, inits, cross, carried)),
            }
        }
    } else {
        let level = cross_level_s(cross, stores, carried);
        let inner = nested(stores, inits, carried, cross, level, stores.len(), e);
        if level is Some {
            inner
        } else {
            wrapped_cross(inner, cross)
        }
    }
}

/// Whether `after` names nothing that `before` does not.
pub open spec fn no_escape(before: ExprS, after: ExprS) -> bool {
    forall|n: NameS| #[trigger] free_in_value(n, after) ==> free_in_value(n, before)
}

} // verus!
