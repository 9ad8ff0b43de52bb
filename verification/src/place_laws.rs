//! The laws of where stores and what reads them are placed.

use vstd::prelude::*;
use crate::ast::{BuiltinS, ExprS, HeadS};
use crate::cross_domain::DefS;
use crate::gather_laws::{feeds_handle, law_what_is_gathered_is_mentioned};
use crate::make::let_s;
use crate::meaning::{Model, Valuation, meant, setting};
use crate::name::NameS;
use crate::probe::{PickS, gathered};
use crate::scope::free_in_value;
use crate::spine::{
    any_defer_named, any_hist_named, any_named, level_s, level_upto, provides, read_by,
    reads_carried, reads_from, store_reads, under_lets,
};
use crate::store::StoreS;
use crate::waiting_laws::lemma_in_sum;

verus! {

/// Whether `e` needs store `i` around it: it names a key of the store, a history of it, or
/// a handle that it feeds, or what a statement carried into it gives or feeds.
pub open spec fn needs_store(
    e: ExprS,
    stores: Seq<StoreS>,
    carried: Seq<Seq<ExprS>>,
    i: int,
) -> bool {
    exists|n: NameS| #[trigger] free_in_value(n, e) && (stores[i].keys.contains(n) || (exists|
        k: NameS,
    | #[trigger]
        stores[i].hist.dom().contains(k) && stores[i].hist[k] == n) || (exists|j: int|
        0 <= j < stores[i].hoisted.len() && (#[trigger] stores[i].hoisted[j]).defer == n) || (
    exists|j: int|
        0 <= j < carried[i].len() && (gives_name(#[trigger] carried[i][j], n) || feeds_handle(
            n,
            carried[i][j].kids[0],
        ))))
}

/// Whether a statement gives `n` a value for what follows.
pub open spec fn gives_name(c: ExprS, n: NameS) -> bool {
    c.head == HeadS::Let(n) || c.head == HeadS::MutDecl(n)
}

proof fn lemma_provides(c: ExprS, n: NameS)
    ensures
        provides(c).contains(n) <==> gives_name(c, n) || feeds_handle(n, c.kids[0]),
{
    let own = match c.head {
        HeadS::Let(x) => seq![x],
        HeadS::MutDecl(x) => seq![x],
        _ => Seq::empty(),
    };
    law_what_is_gathered_is_mentioned(Seq::empty(), c.kids[0], n);
    lemma_in_sum(own, gathered(PickS::Fed, c.kids[0]), n);
    assert(own.contains(n) <==> gives_name(c, n)) by {
        if own.len() > 0 {
            assert(own[0] == own.first());
        }
    }
}

proof fn lemma_needs_store(e: ExprS, stores: Seq<StoreS>, carried: Seq<Seq<ExprS>>, i: int)
    ensures
        (read_by(stores[i], e) || reads_carried(carried[i], e)) <==> needs_store(
            e,
            stores,
            carried,
            i,
        ),
{
    let s = stores[i];
    let cs = carried[i];
    if any_named(s.keys, e) {
        let j = choose|j: int| 0 <= j < s.keys.len() && free_in_value(#[trigger] s.keys[j], e);
        assert(s.keys.contains(s.keys[j]));
        assert(free_in_value(s.keys[j], e));
    }
    if any_hist_named(s.hist, e) {
        let k = choose|k: NameS| #[trigger] s.hist.dom().contains(k) && free_in_value(s.hist[k], e);
        assert(stores[i].hist.dom().contains(k));
        assert(free_in_value(s.hist[k], e));
    }
    if any_defer_named(s.hoisted, e) {
        let j = choose|j: int|
            0 <= j < s.hoisted.len() && free_in_value((#[trigger] s.hoisted[j]).defer, e);
        assert(stores[i].hoisted[j].defer == s.hoisted[j].defer);
        assert(free_in_value(s.hoisted[j].defer, e));
    }
    if reads_carried(cs, e) {
        let j = choose|j: int| 0 <= j < cs.len() && reads_from(#[trigger] cs[j], e);
        let ps = provides(cs[j]);
        let x = choose|x: int| 0 <= x < ps.len() && free_in_value(#[trigger] ps[x], e);
        assert(ps.contains(ps[x]));
        lemma_provides(cs[j], ps[x]);
        assert(carried[i][j] == cs[j]);
        assert(free_in_value(ps[x], e));
    }
    if needs_store(e, stores, carried, i) {
        let n = choose|n: NameS| #[trigger]
            free_in_value(n, e) && (stores[i].keys.contains(n) || (exists|k: NameS| #[trigger]
                stores[i].hist.dom().contains(k) && stores[i].hist[k] == n) || (exists|j: int|
                0 <= j < stores[i].hoisted.len() && (#[trigger] stores[i].hoisted[j]).defer == n)
                || (exists|j: int|
                0 <= j < carried[i].len() && (gives_name(#[trigger] carried[i][j], n)
                    || feeds_handle(n, carried[i][j].kids[0]))));
        if s.keys.contains(n) {
            let j = choose|j: int| 0 <= j < s.keys.len() && s.keys[j] == n;
            assert(free_in_value(s.keys[j], e));
        } else if exists|k: NameS| #[trigger] s.hist.dom().contains(k) && s.hist[k] == n {
            let k = choose|k: NameS| #[trigger] s.hist.dom().contains(k) && s.hist[k] == n;
            assert(s.hist.dom().contains(k) && free_in_value(s.hist[k], e));
        } else if exists|j: int|
            0 <= j < s.hoisted.len() && (#[trigger] s.hoisted[j]).defer == n {
            let j = choose|j: int| 0 <= j < s.hoisted.len() && (#[trigger] s.hoisted[j]).defer == n;
            assert(free_in_value(s.hoisted[j].defer, e));
        } else {
            let j = choose|j: int|
                0 <= j < cs.len() && (gives_name(#[trigger] cs[j], n) || feeds_handle(
                    n,
                    cs[j].kids[0],
                ));
            lemma_provides(cs[j], n);
            let ps = provides(cs[j]);
            let x = choose|x: int| 0 <= x < ps.len() && ps[x] == n;
            assert(free_in_value(ps[x], e));
            assert(reads_from(cs[j], e));
        }
    }
}

proof fn lemma_level_upto(e: ExprS, stores: Seq<StoreS>, carried: Seq<Seq<ExprS>>, n: nat)
    ensures
        match level_upto(e, stores, carried, n) {
            Some(l) => 0 <= l < n && needs_store(e, stores, carried, l) && forall|i: int|
                l < i < n ==> !#[trigger] needs_store(e, stores, carried, i),
            None => forall|i: int| 0 <= i < n ==> !#[trigger] needs_store(e, stores, carried, i),
        },
    decreases n,
{
    if n > 0 {
        lemma_needs_store(e, stores, carried, n - 1);
        lemma_level_upto(e, stores, carried, (n - 1) as nat);
    }
}

/// What reads stores goes into the last store that it needs around it, and what needs none
/// stays outside.
pub proof fn law_what_reads_stores_goes_into_the_last(
    e: ExprS,
    stores: Seq<StoreS>,
    carried: Seq<Seq<ExprS>>,
)
    ensures
        match level_s(e, stores, carried) {
            Some(l) => 0 <= l < stores.len() && needs_store(e, stores, carried, l) && forall|i: int|
                l < i < stores.len() ==> !#[trigger] needs_store(e, stores, carried, i),
            None => forall|i: int|
                0 <= i < stores.len() ==> !#[trigger] needs_store(e, stores, carried, i),
        },
{
    lemma_level_upto(e, stores, carried, stores.len());
}

/// What the names mean once each of the bindings has been made, one after the other.
pub open spec fn given_in_turn(m: Model, rho: Valuation, defs: Seq<DefS>) -> Valuation
    decreases defs.len(),
{
    if defs.len() == 0 {
        rho
    } else {
        let before = given_in_turn(m, rho, defs.drop_last());
        setting(before, defs.last().name, meant(m, before, defs.last().def))
    }
}

/// Bindings around a term are made one after the other, the first first.
pub proof fn law_bindings_are_made_in_turn(
    m: Model,
    rho: Valuation,
    defs: Seq<DefS>,
    body: ExprS,
)
    ensures
        meant(m, rho, under_lets(defs, body)) == meant(m, given_in_turn(m, rho, defs), body),
    decreases defs.len(),
{
    if defs.len() > 0 {
        let d = defs.last();
        let inner = let_s(d.name, d.ty, d.def, body, body.ty());
        law_bindings_are_made_in_turn(m, rho, defs.drop_last(), inner);
        assert(inner.kids[0] == d.def && inner.kids[1] == body);
    }
}

/// Whether a binding reads the history `h` where it is indexed.
pub open spec fn reads_history(d: DefS, h: NameS) -> bool {
    d.def.head is Apply && d.def.kids.len() == 2 && d.def.kids[0].head == HeadS::Builtin(
        BuiltinS::AsOfRead,
    ) && d.def.kids[1].head == HeadS::Var(h)
}

proof fn lemma_store_reads(
    s: StoreS,
    inits: Map<NameS, ExprS>,
    body: ExprS,
    n: nat,
)
    requires
        n <= s.keys.len(),
    ensures
        ({
            let ds = store_reads(s, inits, body, n);
            &&& forall|j: int|
                0 <= j < ds.len() ==> reads_history(#[trigger] ds[j], s.hist[ds[j].name])
                    && free_in_value(ds[j].name, body) && s.keys.contains(ds[j].name)
            &&& forall|i: int|
                0 <= i < n && free_in_value(#[trigger] s.keys[i], body) ==> exists|j: int|
                    0 <= j < ds.len() && (#[trigger] ds[j]).name == s.keys[i]
        }),
    decreases n,
{
    if n > 0 {
        lemma_store_reads(s, inits, body, (n - 1) as nat);
        let before = store_reads(s, inits, body, (n - 1) as nat);
        let ds = store_reads(s, inits, body, n);
        let k = s.keys[n - 1];
        assert forall|j: int| 0 <= j < ds.len() implies reads_history(
            #[trigger] ds[j],
            s.hist[ds[j].name],
        ) && free_in_value(ds[j].name, body) && s.keys.contains(ds[j].name) by {
            if j < before.len() {
                assert(ds[j] == before[j]);
            } else {
                assert(s.keys.contains(k));
            }
        }
        assert forall|i: int| 0 <= i < n && free_in_value(#[trigger] s.keys[i], body) implies exists|
            j: int,
        | 0 <= j < ds.len() && (#[trigger] ds[j]).name == s.keys[i] by {
            if i < n - 1 {
                let j = choose|j: int|
                    0 <= j < before.len() && (#[trigger] before[j]).name == s.keys[i];
                assert(ds[j] == before[j]);
            } else {
                assert(ds[ds.len() - 1].name == k);
            }
        }
    }
}

/// Behind a store exactly the keys that are still named are read, each from its own
/// history where that is indexed.
pub proof fn law_behind_a_store_named_keys_are_read(
    s: StoreS,
    inits: Map<NameS, ExprS>,
    body: ExprS,
    k: NameS,
)
    requires
        s.keys.contains(k),
    ensures
        ({
            let ds = store_reads(s, inits, body, s.keys.len());
            &&& free_in_value(k, body) <==> exists|j: int|
                0 <= j < ds.len() && (#[trigger] ds[j]).name == k
            &&& forall|j: int|
                0 <= j < ds.len() ==> reads_history(#[trigger] ds[j], s.hist[ds[j].name])
        }),
{
    lemma_store_reads(s, inits, body, s.keys.len());
    let i = choose|i: int| 0 <= i < s.keys.len() && s.keys[i] == k;
    assert(s.keys[i] == k);
}

} // verus!
