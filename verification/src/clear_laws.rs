//! The law of the whole phase: a program it has rewritten holds nothing
//! transactional any more.

use vstd::prelude::*;
use crate::acyclic::{site_key, site_store, store_of_key};
use crate::ast::{BuiltinS, ExprS, HeadS, LitS, TypeS};
use crate::awaits::{
    beyond, final_reads, seeds, seeds_of, seeds_resolved, seeds_upto, settled_awaits,
};
use crate::block::{footprint_of, prepended, spliced, split_block};
use crate::clear_terms::{
    all_clear, block_plain, clear, defs_clear, effectless, env_clear, env_effectless,
    feeds_clear, lemma_clear_shows, lemma_disjoined, lemma_effectless_clear, lemma_walked,
    taps_effectless,
};
use crate::cross_domain::{
    AccS, CrossS, DefS, FeedS, FoldS, FoldedKidsS, FoldedS, all_renamed, block_reads,
    folded_loops, folded_upto, lemma_size_all_renamed, lemma_size_kid, no_folds, renamed_to,
    runs_cross_loop, size, with_accs,
};
use crate::decision::{F_WRITES, TapS, decision_s, disjoined, field_ty, payload_fields, truth};
use crate::make::{
    codomain_of, fun_ty, let_s, proj_field_s, proj_index_s, stmt_s, tuple_s, tuple_ty, var_s,
};
use crate::name::{NameS, NameSupply, lemma_name_lt_total, lemma_name_lt_transitive};
use crate::name_map::{names_ascending, sorted_names};
use crate::partition::{SiteS, footprints, partitioned};
use crate::place::none_carried;
use crate::probe::{PickS, SignS, gathered, shows};
use crate::spine::{
    all_relinked, closed_group, cross_level_s, feed_s, hoisted_feeds, is_key, is_spine,
    letrec_s, level_s, level_upto, nested, placed, relinked, store_feeds, store_reads,
    under_groups, under_lets, wrapped_cross,
};
use crate::store::{
    CommitS, StoreS, commit_defs, commit_s, committed, histories, history_def, key_commits,
    key_view, later, planned_writers, store_hist, tap_defs, views_in, views_of,
};
use crate::strip::{
    HarvestS, LoopS, begins, lemma_begins_kid, lemma_block_begins, runs_block, site_of,
    stripped, stripped_upto, with_reads,
};
use crate::swap::{SwapS, swapped, swapped_kids, uses_renamed};
use crate::symbolic::lead;
use crate::transact::{
    RunS, assembled, built_writers, clean_strip, hist_names, keys_of, planned_stores, run_s,
    written_of,
};
use crate::tree::with_kids;
use crate::txn_terms::{item_at, sampling_read_s, value_ty_of};
use crate::walk::{WalkS, walked};
use crate::writer::{
    WriterS, acc_tys, accs_read, all_keyed, as_components, as_finals, key_tys, site_accs,
    standing, start_env, writer_s, zipped_source, zipped_ty,
};

verus! {

// ---- writers ----

/// Whether the names of the set can be listed in ascending order.
spec fn listed(s: Set<NameS>) -> bool {
    exists|k: Seq<NameS>| #[trigger]
        names_ascending(k) && forall|n: NameS| k.contains(n) <==> s.contains(n)
}

proof fn lemma_ascending_with(a: Seq<NameS>, n: NameS) -> (r: Seq<NameS>)
    requires
        names_ascending(a),
    ensures
        names_ascending(r),
        forall|m: NameS| #[trigger] r.contains(m) <==> a.contains(m) || m == n,
    decreases a.len(),
{
    if a.len() == 0 {
        let r = seq![n];
        assert(r[0] == n);
        r
    } else if a.last() == n {
        assert(a[a.len() - 1] == n);
        a
    } else if a.last().lt(n) {
        let r = a.push(n);
        assert forall|i: int, j: int| 0 <= i < j < r.len() implies (#[trigger] r[i]).lt(
            #[trigger] r[j],
        ) by {
            if j == a.len() && i < a.len() - 1 {
                assert(a[i].lt(a[a.len() - 1]));
                lemma_name_lt_transitive(a[i], a.last(), n);
            }
        }
        assert forall|m: NameS| #[trigger] r.contains(m) <==> a.contains(m) || m == n by {
            if a.contains(m) {
                let i = choose|i: int| 0 <= i < a.len() && a[i] == m;
                assert(r[i] == m);
            }
            assert(r[a.len() as int] == n);
        }
        r
    } else {
        lemma_name_lt_total(a.last(), n);
        let d = a.drop_last();
        let b = lemma_ascending_with(d, n);
        let r = b.push(a.last());
        assert forall|m: NameS| d.contains(m) implies m.lt(a.last()) by {
            let i = choose|i: int| 0 <= i < d.len() && d[i] == m;
            assert(a[i].lt(a[a.len() - 1]));
        }
        assert forall|i: int, j: int| 0 <= i < j < r.len() implies (#[trigger] r[i]).lt(
            #[trigger] r[j],
        ) by {
            if j == b.len() {
                assert(b.contains(b[i]));
            }
        }
        assert forall|m: NameS| #[trigger] r.contains(m) <==> a.contains(m) || m == n by {
            if r.contains(m) {
                let i = choose|i: int| 0 <= i < r.len() && r[i] == m;
                if i < b.len() {
                    assert(b.contains(m));
                    if d.contains(m) {
                        let j = choose|j: int| 0 <= j < d.len() && d[j] == m;
                        assert(a[j] == m);
                    }
                } else {
                    assert(a[a.len() - 1] == m);
                }
            }
            if a.contains(m) {
                let j = choose|j: int| 0 <= j < a.len() && a[j] == m;
                if j < d.len() {
                    assert(d[j] == m);
                    assert(b.contains(m));
                    let i = choose|i: int| 0 <= i < b.len() && b[i] == m;
                    assert(r[i] == m);
                } else {
                    assert(r[b.len() as int] == m);
                }
            }
            if m == n {
                assert(b.contains(m));
                let i = choose|i: int| 0 <= i < b.len() && b[i] == m;
                assert(r[i] == m);
            }
        }
        r
    }
}

proof fn lemma_listed_with(s: Set<NameS>, n: NameS)
    requires
        listed(s),
    ensures
        listed(s.insert(n)),
{
    let k = choose|k: Seq<NameS>| #[trigger]
        names_ascending(k) && forall|m: NameS| k.contains(m) <==> s.contains(m);
    let r = lemma_ascending_with(k, n);
    assert(names_ascending(r));
}

/// Whether the accumulators are read without anything transactional.
spec fn accs_clear(txn: Seq<NameS>, accs: Map<NameS, AccS>) -> bool {
    &&& listed(accs.dom())
    &&& forall|n: NameS| #[trigger] accs.dom().contains(n) ==> clear(txn, accs[n].view)
}

proof fn lemma_accs_read(
    ks: Seq<NameS>,
    block: ExprS,
    enclosing: Seq<NameS>,
    inside: bool,
    n: nat,
)
    requires
        n <= ks.len(),
    ensures
        forall|i: int|
            0 <= i < accs_read(ks, block, enclosing, inside, n).len() ==> ks.contains(
                #[trigger] accs_read(ks, block, enclosing, inside, n)[i],
            ),
    decreases n,
{
    if n > 0 {
        lemma_accs_read(ks, block, enclosing, inside, (n - 1) as nat);
        let before = accs_read(ks, block, enclosing, inside, (n - 1) as nat);
        let all = accs_read(ks, block, enclosing, inside, n);
        assert forall|i: int| 0 <= i < all.len() implies ks.contains(#[trigger] all[i]) by {
            if i < before.len() {
                assert(all[i] == before[i]);
            } else {
                assert(all[i] == ks[n - 1]);
            }
        }
    }
}

proof fn lemma_site_accs(txn: Seq<NameS>, site: SiteS, accs: Map<NameS, AccS>, own: bool)
    requires
        accs_clear(txn, accs),
    ensures
        forall|i: int|
            0 <= i < site_accs(site, accs, own).len() ==> accs.dom().contains(
                #[trigger] site_accs(site, accs, own)[i],
            ),
{
    let s = accs.dom();
    let ks = sorted_names(s);
    assert(names_ascending(ks) && forall|n: NameS| ks.contains(n) <==> s.contains(n));
    lemma_accs_read(ks, site.block, site.enclosing_writes, own, ks.len());
}

proof fn lemma_zipped_source(
    txn: Seq<NameS>,
    source: ExprS,
    item: TypeS,
    names: Seq<NameS>,
    accs: Map<NameS, AccS>,
    uid: u64,
)
    requires
        clear(txn, source),
        accs_clear(txn, accs),
        forall|i: int| 0 <= i < names.len() ==> accs.dom().contains(#[trigger] names[i]),
    ensures
        clear(txn, zipped_source(source, item, names, accs, uid)),
{
    let e = zipped_source(source, item, names, accs, uid);
    let t = e.kids[0];
    assert forall|i: int| 0 <= i < t.kids.len() implies clear(txn, #[trigger] t.kids[i]) by {
        let a = t.kids[i];
        if i > 0 {
            assert(accs.dom().contains(names[i - 1]));
        }
        lemma_clear_pair(txn, a);
    }
    assert(clear(txn, t));
    lemma_clear_one(txn, e);
}

/// A node over one clear term.
proof fn lemma_clear_one(txn: Seq<NameS>, e: ExprS)
    requires
        e.kids.len() == 1,
        !(e.head is Begin),
        !(e.head is MutWrite),
        clear(txn, e.kids[0]),
    ensures
        clear(txn, e),
{
    assert forall|i: int| 0 <= i < e.kids.len() implies clear(txn, #[trigger] e.kids[i]) by {
        assert(i == 0);
    }
}

/// A node over two clear terms, or over a clear term and a leaf.
proof fn lemma_clear_pair(txn: Seq<NameS>, e: ExprS)
    requires
        e.kids.len() == 2,
        !(e.head is Begin),
        !(e.head is MutWrite),
        clear(txn, e.kids[0]),
        clear(txn, e.kids[1]),
    ensures
        clear(txn, e),
{
    assert forall|i: int| 0 <= i < e.kids.len() implies clear(txn, #[trigger] e.kids[i]) by {
        if i == 0 {
        } else {
            assert(i == 1);
        }
    }
}

proof fn lemma_item_at(e: ExprS, i: usize, elt: TypeS)
    requires
        effectless(e),
    ensures
        effectless(item_at(e, i, elt)),
{
    let a = item_at(e, i, elt);
    assert forall|j: int| 0 <= j < a.kids.len() implies effectless(#[trigger] a.kids[j]) by {
        if j == 0 {
        } else {
            assert(j == 1);
        }
    }
}

proof fn lemma_as_components(
    env: Map<NameS, ExprS>,
    names: Seq<NameS>,
    tys: Seq<TypeS>,
    t: ExprS,
    from: int,
    n: nat,
)
    requires
        env_effectless(env),
        effectless(t),
    ensures
        env_effectless(as_components(env, names, tys, t, from, n)),
    decreases n,
{
    if n > 0 {
        lemma_as_components(env, names, tys, t, from, (n - 1) as nat);
        lemma_item_at(t, (from + n - 1) as usize, tys[n - 1]);
    }
}

proof fn lemma_as_finals(
    env: Map<NameS, ExprS>,
    names: Seq<NameS>,
    accs: Map<NameS, AccS>,
    n: nat,
)
    requires
        env_effectless(env),
    ensures
        env_effectless(as_finals(env, names, accs, n)),
    decreases n,
{
    if n > 0 {
        lemma_as_finals(env, names, accs, (n - 1) as nat);
    }
}

proof fn lemma_start_env(
    site: SiteS,
    accs: Map<NameS, AccS>,
    read_tys: Seq<TypeS>,
    item: TypeS,
    zipped: TypeS,
    p: ExprS,
)
    requires
        effectless(p),
    ensures
        env_effectless(start_env(site, accs, read_tys, item, zipped, p)),
{
    let own = site_accs(site, accs, true);
    let others = site_accs(site, accs, false);
    let n = site.read_keys.len();
    let reads = as_components(Map::empty(), site.read_keys, read_tys, p, 0, n);
    lemma_as_components(Map::empty(), site.read_keys, read_tys, p, 0, n);
    let it = item_at(p, n as usize, zipped);
    lemma_item_at(p, n as usize, zipped);
    lemma_item_at(it, 0, item);
    let begun = reads.insert(site.target, item_at(it, 0, item));
    lemma_as_components(begun, own, acc_tys(own, accs), it, 1, own.len());
    let env = if own.len() == 0 {
        reads.insert(site.target, it)
    } else {
        as_components(begun, own, acc_tys(own, accs), it, 1, own.len())
    };
    lemma_as_finals(env, others, accs, others.len());
}

proof fn lemma_payload(commit: ExprS, writes: ExprS, taps: Seq<TapS>, n: nat)
    requires
        effectless(writes),
        taps_effectless(taps),
        n <= taps.len(),
    ensures
        forall|i: int|
            0 <= i < payload_fields(commit, writes, taps, n).len() ==> effectless(
                (#[trigger] payload_fields(commit, writes, taps, n)[i]).value,
            ),
    decreases n,
{
    if n > 0 {
        lemma_payload(commit, writes, taps, (n - 1) as nat);
        assert(effectless(taps[n - 1].value) && effectless(taps[n - 1].path));
    }
}

proof fn lemma_decision(commit: ExprS, writes: ExprS, taps: Seq<TapS>)
    requires
        effectless(commit),
        effectless(writes),
        taps_effectless(taps),
    ensures
        effectless(decision_s(commit, writes, taps)),
{
    let fs = payload_fields(commit, writes, taps, taps.len());
    lemma_payload(commit, writes, taps, taps.len());
    let e = decision_s(commit, writes, taps);
    let yes = e.kids[1];
    let no = e.kids[3];
    let rec = yes.kids[0];
    assert forall|i: int| 0 <= i < rec.kids.len() implies effectless(#[trigger] rec.kids[i]) by {
        assert(rec.kids[i] == fs[i].value);
    }
    assert(effectless(rec));
    assert forall|i: int| 0 <= i < yes.kids.len() implies effectless(#[trigger] yes.kids[i]) by {
        assert(i == 0);
    }
    assert(effectless(yes));
    assert forall|i: int| 0 <= i < no.kids.len() implies effectless(#[trigger] no.kids[i]) by {
        assert(i == 0);
    }
    assert(effectless(no));
    assert forall|i: int| 0 <= i < e.kids.len() implies effectless(#[trigger] e.kids[i]) by {
        if i == 0 {
        } else if i == 1 {
        } else if i == 2 {
        } else {
            assert(i == 3);
        }
    }
}

/// Whether a writer holds nothing transactional.
spec fn writer_clear(txn: Seq<NameS>, w: WriterS) -> bool {
    clear(txn, w.source) && clear(txn, w.body)
}

/// Whether the loop of a site runs over something clear, and its block is plain.
pub open spec fn site_plain(txn: Seq<NameS>, s: SiteS) -> bool {
    clear(txn, s.source) && block_plain(s.block)
}

proof fn lemma_writer(
    txn: Seq<NameS>,
    site: SiteS,
    inits: Map<NameS, ExprS>,
    accs: Map<NameS, AccS>,
    counter: u64,
    uid: u64,
)
    requires
        site_plain(txn, site),
        accs_clear(txn, accs),
    ensures
        writer_s(site, inits, accs, counter, uid) matches Some((w, _, _)) ==> writer_clear(txn, w),
{
    if let Some((w, _, _)) = writer_s(site, inits, accs, counter, uid) {
        let read_tys = key_tys(site.read_keys, inits);
        let item = codomain_of(site.source.ty())->0;
        let own = site_accs(site, accs, true);
        lemma_site_accs(txn, site, accs, true);
        lemma_zipped_source(txn, site.source, item, own, accs, uid);
        let zipped = if own.len() == 0 { item } else { zipped_ty(item, own, accs) };
        let at = if own.len() == 0 { uid } else { NameSupply::after(uid) };
        let p = NameS::Fresh("__txp"@, at);
        let ty = tuple_ty(read_tys.push(zipped));
        let start = WalkS {
            env: start_env(site, accs, read_tys, item, zipped, var_s(p, ty)),
            commits: Seq::empty(),
            taps: Seq::empty(),
            counter,
        };
        lemma_start_env(site, accs, read_tys, item, zipped, var_s(p, ty));
        lemma_walked(site.block, truth(true), site.write_keys, start);
        let done = walked(site.block, truth(true), site.write_keys, start)->0;
        let writes = tuple_s(
            standing(done.env, site.write_keys),
            tuple_ty(key_tys(site.write_keys, inits)),
        );
        assert forall|i: int| 0 <= i < writes.kids.len() implies effectless(
            #[trigger] writes.kids[i],
        ) by {
            assert(done.env.dom().contains(site.write_keys[i]));
        }
        assert(effectless(writes));
        lemma_disjoined(done.commits);
        let decision = decision_s(disjoined(done.commits), writes, done.taps);
        lemma_decision(disjoined(done.commits), writes, done.taps);
        lemma_effectless_clear(txn, decision);
        lemma_clear_one(txn, w.body);
    }
}

/// Whether the writers of the stores hold nothing transactional.
spec fn writers_clear(txn: Seq<NameS>, per_store: Seq<Seq<WriterS>>) -> bool {
    forall|g: int, i: int|
        0 <= g < per_store.len() && 0 <= i < per_store[g].len() ==> writer_clear(
            txn,
            #[trigger] per_store[g][i],
        )
}

proof fn lemma_store_range(groups: Seq<Seq<NameS>>, k: NameS, n: nat)
    ensures
        store_of_key(groups, k, n) matches Some(g) ==> 0 <= g < n,
    decreases n,
{
    if n > 0 {
        lemma_store_range(groups, k, (n - 1) as nat);
    }
}

proof fn lemma_built(
    txn: Seq<NameS>,
    sites: Seq<SiteS>,
    groups: Seq<Seq<NameS>>,
    inits: Map<NameS, ExprS>,
    accs: Map<NameS, AccS>,
    uid: u64,
    n: nat,
)
    requires
        n <= sites.len(),
        forall|i: int| 0 <= i < sites.len() ==> site_plain(txn, #[trigger] sites[i]),
        accs_clear(txn, accs),
    ensures
        built_writers(sites, groups, inits, accs, uid, n) matches Some(b) ==> writers_clear(
            txn,
            b.per_store,
        ) && b.per_store.len() == groups.len(),
    decreases n,
{
    if n > 0 {
        lemma_built(txn, sites, groups, inits, accs, uid, (n - 1) as nat);
        if let Some(b) = built_writers(sites, groups, inits, accs, uid, n) {
            let a = built_writers(sites, groups, inits, accs, uid, (n - 1) as nat)->0;
            let g = site_store(sites[n - 1], groups)->0;
            lemma_store_range(groups, site_key(sites[n - 1])->0, groups.len());
            assert(site_plain(txn, sites[n - 1]));
            lemma_writer(txn, sites[n - 1], inits, accs, a.counter, a.next);
            assert forall|h: int, i: int|
                0 <= h < b.per_store.len() && 0 <= i < b.per_store[h].len() implies writer_clear(
                txn,
                #[trigger] b.per_store[h][i],
            ) by {
                if h == g {
                    if i < a.per_store[g].len() {
                        assert(b.per_store[h][i] == a.per_store[h][i]);
                    }
                } else {
                    assert(b.per_store[h] == a.per_store[h]);
                    assert(writer_clear(txn, a.per_store[h][i]));
                }
            }
        }
    }
}

// ---- stores ----

proof fn lemma_commit(
    txn: Seq<NameS>,
    w: WriterS,
    name: NameS,
    hist: Map<NameS, NameS>,
    inits: Map<NameS, ExprS>,
    uid: u64,
)
    requires
        writer_clear(txn, w),
    ensures
        commit_s(w, name, hist, inits, uid) matches Some(c) ==> clear(txn, c.def),
{
    if let Some(c) = commit_s(w, name, hist, inits, uid) {
        let bound = c.def.kids[0];
        let begin = bound.kids[0];
        let rec = bound.kids[1];
        let targets = rec.kids[1];
        let decided = rec.kids[2];
        let snap = decided.kids[1];
        lemma_clear_pair(txn, begin);
        assert forall|i: int| 0 <= i < targets.kids.len() implies clear(
            txn,
            #[trigger] targets.kids[i],
        ) by {}
        assert(clear(txn, targets));
        assert forall|i: int| 0 <= i < snap.kids.len() implies clear(txn, #[trigger] snap.kids[i]) by {
            lemma_clear_pair(txn, snap.kids[i]);
        }
        assert(clear(txn, snap));
        lemma_clear_pair(txn, decided);
        assert forall|i: int| 0 <= i < rec.kids.len() implies clear(txn, #[trigger] rec.kids[i]) by {
            if i == 0 {
            } else if i == 1 {
            } else {
                assert(i == 2);
            }
        }
        assert(clear(txn, rec));
        lemma_clear_pair(txn, bound);
        lemma_clear_one(txn, c.def);
    }
}

/// What a commit stream commits, through leaves.
proof fn lemma_committed(txn: Seq<NameS>, c: CommitS, then: Seq<ExprS>, ty: TypeS)
    requires
        all_clear(txn, then),
    ensures
        clear(txn, committed(c, then, ty)),
{
    let e = committed(c, then, ty);
    assert forall|i: int| 0 <= i < e.kids.len() implies clear(txn, #[trigger] e.kids[i]) by {
        if i == 0 {
        } else if i == 1 {
        } else if i == 2 {
        } else {
            assert(e.kids[i] == then[i - 3]);
        }
    }
}

proof fn lemma_tap_defs(txn: Seq<NameS>, c: CommitS, taps: Seq<TapS>, uid: u64)
    ensures
        defs_clear(txn, tap_defs(c, taps, uid)),
{
    let ds = tap_defs(c, taps, uid);
    assert forall|i: int| 0 <= i < ds.len() implies clear(txn, (#[trigger] ds[i]).def) by {
        let ty = fun_ty(c.dom, taps[i].value.ty());
        let then = seq![proj_field_s(taps[i].field, fun_ty(c.payload_ty, taps[i].value.ty()))];
        assert(clear(txn, then[0]));
        lemma_committed(txn, c, then, ty);
    }
}

proof fn lemma_planned_writers(
    txn: Seq<NameS>,
    ws: Seq<WriterS>,
    hist: Map<NameS, NameS>,
    inits: Map<NameS, ExprS>,
    first: u64,
    n: nat,
)
    requires
        n <= ws.len(),
        forall|i: int| 0 <= i < ws.len() ==> writer_clear(txn, #[trigger] ws[i]),
    ensures
        planned_writers(ws, hist, inits, first, n) matches Some(p) ==> defs_clear(
            txn,
            commit_defs(p.commits),
        ) && defs_clear(txn, p.taps),
    decreases n,
{
    if n > 0 {
        lemma_planned_writers(txn, ws, hist, inits, first, (n - 1) as nat);
        if let Some(p) = planned_writers(ws, hist, inits, first, n) {
            let q = planned_writers(ws, hist, inits, first, (n - 1) as nat)->0;
            let w = ws[n - 1];
            let name = NameS::Fresh("__commits"@, later(first, (n - 1) as nat));
            let at = NameSupply::after(NameSupply::after(q.next));
            let c = commit_s(w, name, hist, inits, q.next)->0;
            assert(writer_clear(txn, w));
            lemma_commit(txn, w, name, hist, inits, q.next);
            lemma_tap_defs(txn, c, w.taps, at);
            let ds = commit_defs(p.commits);
            assert forall|i: int| 0 <= i < ds.len() implies clear(txn, (#[trigger] ds[i]).def) by {
                if i < q.commits.len() {
                    assert(ds[i] == commit_defs(q.commits)[i]);
                }
            }
            lemma_defs_joined(txn, q.taps, tap_defs(c, w.taps, at));
        }
    }
}

proof fn lemma_defs_joined(txn: Seq<NameS>, a: Seq<DefS>, b: Seq<DefS>)
    requires
        defs_clear(txn, a),
        defs_clear(txn, b),
    ensures
        defs_clear(txn, a + b),
{
    assert forall|i: int| 0 <= i < (a + b).len() implies clear(txn, (#[trigger] (a + b)[i]).def) by {
        if i < a.len() {
            assert((a + b)[i] == a[i]);
        } else {
            assert((a + b)[i] == b[i - a.len()]);
        }
    }
}

proof fn lemma_key_view(txn: Seq<NameS>, c: CommitS, idx: usize, writes_ty: TypeS, v: TypeS)
    ensures
        clear(txn, key_view(c, idx, writes_ty, v)),
{
    let e = key_view(c, idx, writes_ty, v);
    let rec = e.kids[1];
    let time = rec.kids[0];
    let then = seq![
        proj_field_s(F_WRITES@, fun_ty(c.payload_ty, writes_ty)),
        proj_index_s(idx, fun_ty(writes_ty, v)),
    ];
    assert forall|i: int| 0 <= i < then.len() implies clear(txn, #[trigger] then[i]) by {
        if i == 0 {
        } else {
            assert(i == 1);
        }
    }
    lemma_committed(txn, c, then, fun_ty(c.dom, v));
    lemma_clear_pair(txn, time);
    assert(rec.kids[1] == committed(c, then, fun_ty(c.dom, v)));
    lemma_clear_pair(txn, rec);
    lemma_clear_pair(txn, e);
}

proof fn lemma_views_in(
    txn: Seq<NameS>,
    c: CommitS,
    keys: Seq<NameS>,
    k: NameS,
    v: TypeS,
    n: nat,
)
    ensures
        views_in(c, keys, k, v, n) matches Some(vs) ==> all_clear(txn, vs),
    decreases n,
{
    if n > 0 {
        lemma_views_in(txn, c, keys, k, v, (n - 1) as nat);
        if let Some(writes_ty) = field_ty(c.payload_ty, F_WRITES@) {
            lemma_key_view(txn, c, (n - 1) as usize, writes_ty, v);
        }
    }
}

proof fn lemma_views_of(
    txn: Seq<NameS>,
    ws: Seq<WriterS>,
    cs: Seq<CommitS>,
    k: NameS,
    v: TypeS,
    n: nat,
)
    ensures
        views_of(ws, cs, k, v, n) matches Some(vs) ==> all_clear(txn, vs),
    decreases n,
{
    if n > 0 {
        lemma_views_of(txn, ws, cs, k, v, (n - 1) as nat);
        lemma_views_in(
            txn,
            cs[n - 1],
            ws[n - 1].write_keys,
            k,
            v,
            ws[n - 1].write_keys.len(),
        );
        if let Some(vs) = views_of(ws, cs, k, v, n) {
            let a = views_of(ws, cs, k, v, (n - 1) as nat)->0;
            assert forall|i: int| 0 <= i < vs.len() implies clear(txn, #[trigger] vs[i]) by {
                if i < a.len() {
                    assert(vs[i] == a[i]);
                }
            }
        }
    }
}

proof fn lemma_history_def(
    txn: Seq<NameS>,
    k: NameS,
    hist: NameS,
    init: ExprS,
    views: Seq<ExprS>,
    uid: u64,
)
    requires
        clear(txn, init),
        all_clear(txn, views),
    ensures
        clear(txn, history_def(k, hist, init, views, uid).def),
{
    let e = history_def(k, hist, init, views, uid).def;
    let read = e.kids[0];
    let arg = read.kids[1];
    let view = arg.kids[0];
    if views.len() > 0 {
        assert(clear(txn, views[0]));
    }
    assert(view == key_commits(views, hist, value_ty_of(init.ty())));
    assert(clear(txn, view));
    assert forall|i: int| 0 <= i < arg.kids.len() implies clear(txn, #[trigger] arg.kids[i]) by {
        if i == 0 {
        } else if i == 1 {
        } else {
            assert(i == 2);
        }
    }
    assert(clear(txn, arg));
    lemma_clear_pair(txn, read);
    lemma_clear_one(txn, e);
}

proof fn lemma_histories(
    txn: Seq<NameS>,
    keys: Seq<NameS>,
    hist: Map<NameS, NameS>,
    inits: Map<NameS, ExprS>,
    ws: Seq<WriterS>,
    cs: Seq<CommitS>,
    uid: u64,
    n: nat,
)
    requires
        n <= keys.len(),
        all_keyed(keys, inits),
        env_clear(txn, inits),
    ensures
        histories(keys, hist, inits, ws, cs, uid, n) matches Some(ds) ==> defs_clear(txn, ds),
    decreases n,
{
    if n > 0 {
        lemma_histories(txn, keys, hist, inits, ws, cs, uid, (n - 1) as nat);
        let k = keys[n - 1];
        assert(inits.dom().contains(k));
        let v = value_ty_of(inits[k].ty());
        lemma_views_of(txn, ws, cs, k, v, ws.len());
        if let Some(views) = views_of(ws, cs, k, v, ws.len()) {
            lemma_history_def(txn, k, hist[k], inits[k], views, later(uid, (n - 1) as nat));
        }
    }
}

spec fn store_clear(txn: Seq<NameS>, s: StoreS) -> bool {
    defs_clear(txn, s.bindings)
}

proof fn lemma_stores(
    txn: Seq<NameS>,
    groups: Seq<Seq<NameS>>,
    hist: Map<NameS, NameS>,
    inits: Map<NameS, ExprS>,
    per_store: Seq<Seq<WriterS>>,
    uid: u64,
    n: nat,
)
    requires
        n <= groups.len() == per_store.len(),
        writers_clear(txn, per_store),
        env_clear(txn, inits),
    ensures
        planned_stores(groups, hist, inits, per_store, uid, n) matches Some((ss, _)) ==> forall|
            i: int,
        |
            0 <= i < ss.len() ==> store_clear(txn, #[trigger] ss[i]),
    decreases n,
{
    if n > 0 {
        lemma_stores(txn, groups, hist, inits, per_store, uid, (n - 1) as nat);
        if let Some((ss, u)) = planned_stores(
            groups,
            hist,
            inits,
            per_store,
            uid,
            (n - 1) as nat,
        ) {
            let keys = groups[n - 1];
            let ws = per_store[n - 1];
            let own = store_hist(keys, hist);
            assert forall|i: int| 0 <= i < ws.len() implies writer_clear(txn, #[trigger] ws[i]) by {
                assert(writer_clear(txn, per_store[n - 1][i]));
            }
            lemma_planned_writers(txn, ws, own, inits, u, ws.len());
            if let Some(p) = planned_writers(ws, own, inits, u, ws.len()) {
                if all_keyed(keys, inits) {
                    lemma_histories(
                        txn,
                        keys,
                        own,
                        inits,
                        ws,
                        p.commits,
                        p.next,
                        keys.len(),
                    );
                    if let Some(hs) = histories(
                        keys,
                        own,
                        inits,
                        ws,
                        p.commits,
                        p.next,
                        keys.len(),
                    ) {
                        lemma_defs_joined(txn, hs, commit_defs(p.commits));
                        lemma_defs_joined(txn, hs + commit_defs(p.commits), p.taps);
                    }
                }
            }
        }
    }
}

// ---- placing the stores ----

spec fn cross_clear(txn: Seq<NameS>, c: CrossS) -> bool {
    &&& defs_clear(txn, c.bindings)
    &&& defs_clear(txn, c.reads)
    &&& feeds_clear(txn, c.feeds)
    &&& accs_clear(txn, c.accs)
}

proof fn lemma_letrec(txn: Seq<NameS>, defs: Seq<DefS>, body: ExprS)
    requires
        defs_clear(txn, defs),
        clear(txn, body),
    ensures
        clear(txn, letrec_s(defs, body)),
{
    let e = letrec_s(defs, body);
    assert forall|i: int| 0 <= i < e.kids.len() implies clear(txn, #[trigger] e.kids[i]) by {
        if i < defs.len() {
            assert(e.kids[i] == defs[i].def);
        } else {
            assert(e.kids[i] == body);
        }
    }
}

proof fn lemma_under_lets(txn: Seq<NameS>, defs: Seq<DefS>, body: ExprS)
    requires
        defs_clear(txn, defs),
        clear(txn, body),
    ensures
        clear(txn, under_lets(defs, body)),
    decreases defs.len(),
{
    if defs.len() > 0 {
        let d = defs.last();
        let l = let_s(d.name, d.ty, d.def, body, body.ty());
        assert(clear(txn, defs[defs.len() - 1].def));
        lemma_clear_pair(txn, l);
        assert forall|i: int| 0 <= i < defs.drop_last().len() implies clear(
            txn,
            (#[trigger] defs.drop_last()[i]).def,
        ) by {
            assert(defs.drop_last()[i] == defs[i]);
        }
        lemma_under_lets(txn, defs.drop_last(), l);
    }
}

proof fn lemma_under_groups(txn: Seq<NameS>, defs: Seq<DefS>, body: ExprS)
    requires
        defs_clear(txn, defs),
        clear(txn, body),
    ensures
        clear(txn, under_groups(defs, body)),
    decreases defs.len(),
{
    if defs.len() > 0 {
        let one = seq![defs.last()];
        assert(one[0] == defs[defs.len() - 1]);
        lemma_letrec(txn, one, body);
        assert forall|i: int| 0 <= i < defs.drop_last().len() implies clear(
            txn,
            (#[trigger] defs.drop_last()[i]).def,
        ) by {
            assert(defs.drop_last()[i] == defs[i]);
        }
        lemma_under_groups(txn, defs.drop_last(), letrec_s(one, body));
    }
}

proof fn lemma_prepended(txn: Seq<NameS>, es: Seq<ExprS>, rest: ExprS)
    requires
        all_clear(txn, es),
        clear(txn, rest),
    ensures
        clear(txn, prepended(es, rest)),
    decreases es.len(),
{
    if es.len() > 0 {
        let l = stmt_s(es.last(), rest, rest.ty());
        assert(clear(txn, es[es.len() - 1]));
        lemma_clear_pair(txn, l);
        assert forall|i: int| 0 <= i < es.drop_last().len() implies clear(
            txn,
            #[trigger] es.drop_last()[i],
        ) by {
            assert(es.drop_last()[i] == es[i]);
        }
        lemma_prepended(txn, es.drop_last(), l);
    }
}

proof fn lemma_hoisted_feeds(txn: Seq<NameS>, feeds: Seq<FeedS>, body: ExprS)
    requires
        feeds_clear(txn, feeds),
        clear(txn, body),
    ensures
        clear(txn, hoisted_feeds(feeds, body)),
{
    let es = Seq::new(feeds.len(), |i: int| feed_s(feeds[i]));
    assert forall|i: int| 0 <= i < es.len() implies clear(txn, #[trigger] es[i]) by {
        assert(clear(txn, feeds[i].value));
        lemma_clear_one(txn, es[i]);
    }
    lemma_prepended(txn, es, body);
}

proof fn lemma_wrapped_cross(txn: Seq<NameS>, e: ExprS, c: CrossS)
    requires
        cross_clear(txn, c),
        clear(txn, e),
    ensures
        clear(txn, wrapped_cross(e, c)),
{
    lemma_under_lets(txn, c.reads, e);
    lemma_hoisted_feeds(txn, c.feeds, under_lets(c.reads, e));
    lemma_under_groups(txn, c.bindings, hoisted_feeds(c.feeds, under_lets(c.reads, e)));
}

/// Whether the statements are spine statements over clear values.
spec fn statements_clear(txn: Seq<NameS>, cs: Seq<ExprS>) -> bool {
    forall|i: int|
        0 <= i < cs.len() ==> is_spine(#[trigger] cs[i]) && clear(txn, cs[i].kids[0])
}

proof fn lemma_all_relinked(txn: Seq<NameS>, cs: Seq<ExprS>, inner: ExprS)
    requires
        statements_clear(txn, cs),
        clear(txn, inner),
    ensures
        clear(txn, all_relinked(cs, inner)),
    decreases cs.len(),
{
    if cs.len() > 0 {
        assert(is_spine(cs[cs.len() - 1]));
        let l = relinked(cs.last(), inner);
        lemma_clear_pair(txn, l);
        assert forall|i: int| 0 <= i < cs.drop_last().len() implies is_spine(
            #[trigger] cs.drop_last()[i],
        ) && clear(txn, cs.drop_last()[i].kids[0]) by {
            assert(cs.drop_last()[i] == cs[i]);
        }
        lemma_all_relinked(txn, cs.drop_last(), l);
    }
}

proof fn lemma_store_reads(
    txn: Seq<NameS>,
    s: StoreS,
    inits: Map<NameS, ExprS>,
    body: ExprS,
    n: nat,
)
    ensures
        defs_clear(txn, store_reads(s, inits, body, n)),
    decreases n,
{
    if n > 0 {
        lemma_store_reads(txn, s, inits, body, (n - 1) as nat);
        let k = s.keys[n - 1];
        let v = value_ty_of(inits[k].ty());
        lemma_clear_pair(txn, sampling_read_s(s.hist[k], v, BuiltinS::AsOfRead));
    }
}

spec fn carried_clear(txn: Seq<NameS>, carried: Seq<Seq<ExprS>>) -> bool {
    forall|i: int| 0 <= i < carried.len() ==> statements_clear(txn, #[trigger] carried[i])
}

proof fn lemma_nested(
    txn: Seq<NameS>,
    stores: Seq<StoreS>,
    inits: Map<NameS, ExprS>,
    carried: Seq<Seq<ExprS>>,
    cross: CrossS,
    level: Option<int>,
    n: nat,
    inner: ExprS,
)
    requires
        n <= stores.len() == carried.len(),
        forall|i: int| 0 <= i < stores.len() ==> store_clear(txn, #[trigger] stores[i]),
        carried_clear(txn, carried),
        cross_clear(txn, cross),
        clear(txn, inner),
    ensures
        clear(txn, nested(stores, inits, carried, cross, level, n, inner)),
    decreases n,
{
    if n > 0 {
        let s = stores[n - 1];
        assert(store_clear(txn, s));
        lemma_wrapped_cross(txn, inner, cross);
        let a = if level == Some(n - 1) { wrapped_cross(inner, cross) } else { inner };
        assert(statements_clear(txn, carried[n - 1]));
        lemma_all_relinked(txn, carried[n - 1], a);
        let b = all_relinked(carried[n - 1], a);
        let reads = store_reads(s, inits, b, s.keys.len());
        lemma_store_reads(txn, s, inits, b, s.keys.len());
        lemma_under_lets(txn, reads, b);
        lemma_hoisted_feeds(txn, store_feeds(s), under_lets(reads, b));
        lemma_letrec(txn, s.bindings, hoisted_feeds(store_feeds(s), under_lets(reads, b)));
        lemma_nested(
            txn,
            stores,
            inits,
            carried,
            cross,
            level,
            (n - 1) as nat,
            closed_group(s.bindings, reads, store_feeds(s), b),
        );
    }
}

proof fn lemma_level_range(
    e: ExprS,
    stores: Seq<StoreS>,
    carried: Seq<Seq<ExprS>>,
    n: nat,
)
    ensures
        level_upto(e, stores, carried, n) matches Some(l) ==> 0 <= l < n,
    decreases n,
{
    if n > 0 {
        lemma_level_range(e, stores, carried, (n - 1) as nat);
    }
}

proof fn lemma_placed(
    txn: Seq<NameS>,
    e: ExprS,
    stores: Seq<StoreS>,
    inits: Map<NameS, ExprS>,
    cross: CrossS,
    carried: Seq<Seq<ExprS>>,
)
    requires
        stores.len() == carried.len(),
        forall|i: int| 0 <= i < stores.len() ==> store_clear(txn, #[trigger] stores[i]),
        carried_clear(txn, carried),
        cross_clear(txn, cross),
        clear(txn, e),
    ensures
        clear(txn, placed(e, stores, inits, cross, carried)),
    decreases e,
{
    if is_spine(e) {
        assert(clear(txn, e.kids[0]) && clear(txn, e.kids[1]));
        if e.head matches HeadS::MutDecl(n) && is_key(stores, n) {
            lemma_placed(txn, e.kids[1], stores, inits, cross, carried);
        } else {
            lemma_level_range(e.kids[0], stores, carried, stores.len());
            match level_s(e.kids[0], stores, carried) {
                Some(l) => {
                    let more = carried.update(l, carried[l].push(e));
                    assert(statements_clear(txn, carried[l]));
                    assert(statements_clear(txn, carried[l].push(e)));
                    assert forall|i: int| 0 <= i < more.len() implies statements_clear(
                        txn,
                        #[trigger] more[i],
                    ) by {
                        if i != l {
                            assert(more[i] == carried[i]);
                        }
                    }
                    lemma_placed(txn, e.kids[1], stores, inits, cross, more);
                },
                None => {
                    lemma_placed(txn, e.kids[1], stores, inits, cross, carried);
                    lemma_clear_pair(
                        txn,
                        relinked(e, placed(e.kids[1], stores, inits, cross, carried)),
                    );
                },
            }
        }
    } else {
        let level = cross_level_s(cross, stores, carried);
        lemma_nested(txn, stores, inits, carried, cross, level, stores.len(), e);
        lemma_wrapped_cross(
            txn,
            nested(stores, inits, carried, cross, level, stores.len(), e),
            cross,
        );
    }
}

// ---- seeds and awaits ----

proof fn lemma_swapped(txn: Seq<NameS>, s: SwapS, env: Map<NameS, ExprS>, e: ExprS)
    requires
        env_clear(txn, env),
        clear(txn, e),
    ensures
        clear(txn, swapped(s, env, e)),
    decreases e,
{
    let ks = swapped_kids(s, env, e);
    assert forall|i: int| 0 <= i < ks.len() implies clear(txn, #[trigger] ks[i]) by {
        assert(clear(txn, e.kids[i]));
        lemma_swapped(txn, s, env, e.kids[i]);
    }
    assert(with_kids(e, ks).kids == ks);
}

proof fn lemma_seeds(txn: Seq<NameS>, e: ExprS, keys: Seq<NameS>, acc: Map<NameS, ExprS>)
    requires
        clear(txn, e),
        env_clear(txn, acc),
    ensures
        env_clear(txn, seeds(e, keys, acc)),
    decreases e, e.kids.len() + 1,
{
    let own = match e.head {
        HeadS::MutDecl(n) => if keys.contains(n) && !acc.dom().contains(n) && e.kids.len() == 2 {
            acc.insert(n, e.kids[0])
        } else {
            acc
        },
        _ => acc,
    };
    if e.kids.len() > 0 {
        assert(clear(txn, e.kids[0]));
    }
    lemma_seeds_upto(txn, e, keys, own, e.kids.len());
}

proof fn lemma_seeds_upto(
    txn: Seq<NameS>,
    e: ExprS,
    keys: Seq<NameS>,
    acc: Map<NameS, ExprS>,
    n: nat,
)
    requires
        n <= e.kids.len(),
        clear(txn, e),
        env_clear(txn, acc),
    ensures
        env_clear(txn, seeds_upto(e, keys, acc, n)),
    decreases e, n,
{
    if n > 0 {
        lemma_seeds_upto(txn, e, keys, acc, (n - 1) as nat);
        assert(clear(txn, e.kids[n - 1]));
        lemma_seeds(txn, e.kids[n - 1], keys, seeds_upto(e, keys, acc, (n - 1) as nat));
    }
}

proof fn lemma_final_reads(txn: Seq<NameS>, hist: Map<NameS, NameS>, inits: Map<NameS, ExprS>)
    ensures
        env_clear(txn, final_reads(hist, inits)),
{
    let env = final_reads(hist, inits);
    assert forall|k: NameS| #[trigger] env.dom().contains(k) implies clear(txn, env[k]) by {
        lemma_clear_pair(txn, env[k]);
    }
}

proof fn lemma_seeds_resolved(
    txn: Seq<NameS>,
    keys: Seq<NameS>,
    hist: Map<NameS, NameS>,
    inits: Map<NameS, ExprS>,
    n: nat,
)
    requires
        n <= keys.len(),
        all_keyed(keys, inits),
        env_clear(txn, inits),
    ensures
        env_clear(txn, seeds_resolved(keys, hist, inits, n)),
        all_keyed(keys, seeds_resolved(keys, hist, inits, n)),
    decreases n,
{
    if n > 0 {
        lemma_seeds_resolved(txn, keys, hist, inits, (n - 1) as nat);
        let m = seeds_resolved(keys, hist, inits, (n - 1) as nat);
        let k = keys[n - 1];
        assert(m.dom().contains(k));
        lemma_final_reads(txn, hist, m);
        lemma_swapped(txn, SwapS::Await, final_reads(hist, m), m[k]);
    }
}

// ---- folding loops ----

proof fn lemma_uses_renamed(txn: Seq<NameS>, from: NameS, to: NameS, e: ExprS)
    requires
        clear(txn, e),
    ensures
        clear(txn, uses_renamed(from, to, e)),
    decreases e,
{
    let r = uses_renamed(from, to, e);
    assert forall|i: int| 0 <= i < r.kids.len() implies clear(txn, #[trigger] r.kids[i]) by {
        assert(clear(txn, e.kids[i]));
        lemma_uses_renamed(txn, from, to, e.kids[i]);
    }
}

proof fn lemma_all_renamed(txn: Seq<NameS>, rs: Seq<(NameS, NameS)>, n: nat, e: ExprS)
    requires
        clear(txn, e),
    ensures
        clear(txn, all_renamed(rs, n, e)),
    decreases n,
{
    if n > 0 {
        lemma_all_renamed(txn, rs, (n - 1) as nat, e);
        lemma_uses_renamed(txn, rs[n - 1].0, rs[n - 1].1, all_renamed(rs, (n - 1) as nat, e));
    }
}

/// Whether a fold holds nothing transactional.
pub open spec fn fold_clear(txn: Seq<NameS>, f: FoldS) -> bool {
    &&& forall|i: int| 0 <= i < f.accs.len() ==> clear(txn, (#[trigger] f.accs[i]).view)
    &&& clear(txn, f.binding.def)
    &&& defs_clear(txn, f.reads)
    &&& feeds_clear(txn, f.feeds)
}

proof fn lemma_with_accs(
    txn: Seq<NameS>,
    f: FoldS,
    cross_reads: Seq<NameS>,
    accs: Map<NameS, AccS>,
    n: nat,
)
    requires
        n <= f.accs.len(),
        fold_clear(txn, f),
        accs_clear(txn, accs),
    ensures
        with_accs(f, cross_reads, accs, n) matches Some(m) ==> accs_clear(txn, m),
    decreases n,
{
    if n > 0 {
        lemma_with_accs(txn, f, cross_reads, accs, (n - 1) as nat);
        if let Some(m) = with_accs(f, cross_reads, accs, (n - 1) as nat) {
            let a = f.accs[n - 1];
            lemma_listed_with(m.dom(), a.name);
            if let Some(x) = renamed_to(f.renames, a.name, f.renames.len()) {
                let added = m.insert(
                    a.name,
                    AccS { view: a.view, value_ty: a.value_ty, final_var: x },
                );
                assert(added.dom() =~= m.dom().insert(a.name));
            }
        }
    }
}

proof fn lemma_folded(
    txn: Seq<NameS>,
    e: ExprS,
    cross_reads: Seq<NameS>,
    folds: Seq<FoldS>,
    acc: CrossS,
)
    requires
        clear(txn, e),
        cross_clear(txn, acc),
        forall|i: int| 0 <= i < folds.len() ==> fold_clear(txn, #[trigger] folds[i]),
    ensures
        folded_loops(e, cross_reads, folds, acc) matches FoldedS::Done(f, c) ==> clear(txn, f)
            && cross_clear(txn, c),
    decreases size(e), e.kids.len() + 1,
{
    if runs_cross_loop(e, cross_reads) {
        if acc.folded < folds.len() {
            let f = folds[acc.folded as int];
            assert(fold_clear(txn, f));
            lemma_with_accs(txn, f, cross_reads, acc.accs, f.accs.len());
            if let Some(accs) = with_accs(f, cross_reads, acc.accs, f.accs.len()) {
                let rest = all_renamed(f.renames, f.renames.len(), e.kids[1]);
                lemma_size_kid(e, 1);
                lemma_size_all_renamed(f.renames, f.renames.len(), e.kids[1]);
                assert(clear(txn, e.kids[1]));
                lemma_all_renamed(txn, f.renames, f.renames.len(), e.kids[1]);
                let more = CrossS {
                    bindings: acc.bindings.push(f.binding),
                    reads: acc.reads + f.reads,
                    feeds: acc.feeds + f.feeds,
                    accs,
                    folded: acc.folded + 1,
                };
                lemma_defs_joined(txn, acc.reads, f.reads);
                assert forall|i: int| 0 <= i < more.feeds.len() implies clear(
                    txn,
                    (#[trigger] more.feeds[i]).value,
                ) by {
                    if i < acc.feeds.len() {
                        assert(more.feeds[i] == acc.feeds[i]);
                    } else {
                        assert(more.feeds[i] == f.feeds[i - acc.feeds.len()]);
                    }
                }
                assert(cross_clear(txn, more));
                lemma_folded(txn, rest, cross_reads, folds, more);
            }
        }
    } else {
        lemma_folded_upto(txn, e, cross_reads, folds, acc, e.kids.len());
    }
}

proof fn lemma_folded_upto(
    txn: Seq<NameS>,
    e: ExprS,
    cross_reads: Seq<NameS>,
    folds: Seq<FoldS>,
    acc: CrossS,
    n: nat,
)
    requires
        n <= e.kids.len(),
        clear(txn, e),
        cross_clear(txn, acc),
        forall|i: int| 0 <= i < folds.len() ==> fold_clear(txn, #[trigger] folds[i]),
    ensures
        folded_upto(e, cross_reads, folds, acc, n) matches FoldedKidsS::Done(ks, c) ==> all_clear(
            txn,
            ks,
        ) && cross_clear(txn, c),
    decreases size(e), n,
{
    if n > 0 {
        lemma_folded_upto(txn, e, cross_reads, folds, acc, (n - 1) as nat);
        if let FoldedKidsS::Done(ks, a) = folded_upto(e, cross_reads, folds, acc, (n - 1) as nat) {
            lemma_size_kid(e, n - 1);
            assert(clear(txn, e.kids[n - 1]));
            lemma_folded(txn, e.kids[n - 1], cross_reads, folds, a);
        }
    }
}

// ---- taking out the blocks ----

/// Whether every block in `e` computes what it computes without effects.
pub open spec fn blocks_plain(e: ExprS) -> bool
    decreases e,
{
    &&& e.head is Begin && e.kids.len() == 1 ==> block_plain(e.kids[0])
    &&& forall|i: int| 0 <= i < e.kids.len() ==> blocks_plain(#[trigger] e.kids[i])
}

proof fn lemma_plain_pair(e: ExprS)
    requires
        e.kids.len() == 2,
        !(e.head is Begin),
        blocks_plain(e.kids[0]),
        blocks_plain(e.kids[1]),
    ensures
        blocks_plain(e),
{
    assert forall|i: int| 0 <= i < e.kids.len() implies blocks_plain(#[trigger] e.kids[i]) by {
        if i == 0 {
        } else {
            assert(i == 1);
        }
    }
}

proof fn lemma_prepended_plain(es: Seq<ExprS>, rest: ExprS)
    requires
        forall|i: int| 0 <= i < es.len() ==> blocks_plain(#[trigger] es[i]),
        blocks_plain(rest),
    ensures
        blocks_plain(prepended(es, rest)),
    decreases es.len(),
{
    if es.len() > 0 {
        let l = stmt_s(es.last(), rest, rest.ty());
        assert(blocks_plain(es[es.len() - 1]));
        lemma_plain_pair(l);
        assert forall|i: int| 0 <= i < es.drop_last().len() implies blocks_plain(
            #[trigger] es.drop_last()[i],
        ) by {
            assert(es.drop_last()[i] == es[i]);
        }
        lemma_prepended_plain(es.drop_last(), l);
    }
}

proof fn lemma_spliced_plain(block: ExprS, rest: ExprS)
    requires
        blocks_plain(block),
        blocks_plain(rest),
    ensures
        spliced(block, rest) matches Some(s) ==> blocks_plain(s),
    decreases block,
{
    if let Some(s) = spliced(block, rest) {
        match block.head {
            HeadS::Lit(LitS::Unit) => {},
            HeadS::ExprStmt => {
                assert(blocks_plain(block.kids[0]) && blocks_plain(block.kids[1]));
                lemma_spliced_plain(block.kids[1], rest);
                lemma_plain_pair(s);
            },
            HeadS::Let(_) => {
                assert(blocks_plain(block.kids[0]) && blocks_plain(block.kids[1]));
                lemma_spliced_plain(block.kids[1], rest);
                lemma_plain_pair(s);
            },
            _ => {
                lemma_plain_pair(s);
            },
        }
    }
}

proof fn lemma_split_plain(e: ExprS, txn: Seq<NameS>)
    requires
        blocks_plain(e),
    ensures
        split_block(e, txn) matches Some((b, lifted)) ==> (block_plain(e) ==> block_plain(b))
            && forall|i: int| 0 <= i < lifted.len() ==> blocks_plain(#[trigger] lifted[i]),
    decreases e,
{
    if (e.head is ExprStmt || e.head is Let) && e.kids.len() == 2 {
        assert(blocks_plain(e.kids[0]) && blocks_plain(e.kids[1]));
        lemma_split_plain(e.kids[1], txn);
        if let Some((b, lifted)) = split_block(e, txn) {
            let (inner, below) = split_block(e.kids[1], txn)->0;
            assert forall|i: int| 0 <= i < lifted.len() implies blocks_plain(
                #[trigger] lifted[i],
            ) by {
                let lifts = e.kids[0].head matches HeadS::MutWrite(n) && !txn.contains(n);
                if e.head is ExprStmt && lifts {
                    if i > 0 {
                        assert(lifted[i] == below[i - 1]);
                    }
                } else {
                    assert(lifted[i] == below[i]);
                }
            }
        }
    }
}

spec fn sites_plain(txn: Seq<NameS>, sites: Seq<SiteS>) -> bool {
    forall|i: int| 0 <= i < sites.len() ==> site_plain(txn, #[trigger] sites[i])
}

proof fn lemma_sites(e: ExprS, txn: Seq<NameS>, enclosing: Option<LoopS>, acc: HarvestS)
    requires
        blocks_plain(e),
        enclosing matches Some(l) ==> clear(txn, l.source),
        sites_plain(txn, acc.sites),
    ensures
        stripped(e, txn, enclosing, acc) matches Some((s, h)) ==> clear(txn, s) ==> sites_plain(
            txn,
            h.sites,
        ),
    decreases begins(e), e, e.kids.len() + 1,
{
    if runs_block(e) {
        let block = e.kids[0].kids[0];
        let rest = e.kids[1];
        assert(blocks_plain(e.kids[0]));
        assert(block_plain(block) && blocks_plain(block));
        lemma_block_begins(e, txn);
        if shows(SignS::Writes(txn), block) {
            if let (Some(l), Some((b, lifted))) = (enclosing, split_block(block, txn)) {
                lemma_split_plain(block, txn);
                lemma_prepended_plain(lifted, rest);
                let site = site_of(l, b, txn);
                assert(site_plain(txn, site));
                lemma_sites(
                    prepended(lifted, rest),
                    txn,
                    enclosing,
                    HarvestS { sites: acc.sites.push(site), ..acc },
                );
            }
        } else {
            lemma_spliced_plain(block, rest);
            if let Some(s) = spliced(block, rest) {
                lemma_sites(
                    s,
                    txn,
                    enclosing,
                    with_reads(acc, footprint_of(txn, block).read_keys),
                );
            }
        }
    } else if e.head is For && e.kids.len() == 2 {
        lemma_begins_kid(e, 0);
        lemma_begins_kid(e, 1);
        assert(decreases_to!(e => e.kids[0]));
        assert(decreases_to!(e => e.kids[1]));
        assert(blocks_plain(e.kids[0]) && blocks_plain(e.kids[1]));
        lemma_sites(e.kids[0], txn, enclosing, acc);
        if let Some((s, h)) = stripped(e, txn, enclosing, acc) {
            if clear(txn, s) {
                let (source, a) = stripped(e.kids[0], txn, enclosing, acc)->0;
                assert(s.kids[0] == source);
                assert(clear(txn, s.kids[0]) && clear(txn, s.kids[1]));
                let l = LoopS {
                    target: e.head->For_0,
                    target_ty: e.tys[lead(e)],
                    source,
                    writes: gathered(PickS::WrittenBeyond(txn), e.kids[1]),
                };
                lemma_sites(e.kids[1], txn, Some(l), a);
            }
        }
    } else {
        lemma_sites_upto(e, txn, enclosing, acc, e.kids.len());
        if let Some((s, h)) = stripped(e, txn, enclosing, acc) {
            if clear(txn, s) {
                assert(all_clear(txn, s.kids));
            }
        }
    }
}

proof fn lemma_sites_upto(
    e: ExprS,
    txn: Seq<NameS>,
    enclosing: Option<LoopS>,
    acc: HarvestS,
    n: nat,
)
    requires
        n <= e.kids.len(),
        blocks_plain(e),
        enclosing matches Some(l) ==> clear(txn, l.source),
        sites_plain(txn, acc.sites),
    ensures
        stripped_upto(e, txn, enclosing, acc, n) matches Some((ks, h)) ==> all_clear(txn, ks)
            ==> sites_plain(txn, h.sites),
    decreases begins(e), e, n,
{
    if n > 0 {
        lemma_sites_upto(e, txn, enclosing, acc, (n - 1) as nat);
        lemma_begins_kid(e, n - 1);
        assert(decreases_to!(e => e.kids[n - 1]));
        assert(blocks_plain(e.kids[n - 1]));
        if let Some((ks, h)) = stripped_upto(e, txn, enclosing, acc, n) {
            if all_clear(txn, ks) {
                let (before, a) = stripped_upto(e, txn, enclosing, acc, (n - 1) as nat)->0;
                assert forall|i: int| 0 <= i < before.len() implies clear(
                    txn,
                    #[trigger] before[i],
                ) by {
                    assert(ks[i] == before[i]);
                }
                assert(clear(txn, ks[ks.len() - 1]));
                lemma_sites(e.kids[n - 1], txn, enclosing, a);
            }
        }
    }
}

// ---- the law ----

proof fn lemma_assembled(
    txn: Seq<NameS>,
    e: ExprS,
    cross: CrossS,
    sites: Seq<SiteS>,
    keys: Seq<NameS>,
    groups: Seq<Seq<NameS>>,
    seeds: Map<NameS, ExprS>,
    uid: u64,
)
    requires
        clear(txn, e),
        cross_clear(txn, cross),
        sites_plain(txn, sites),
        env_clear(txn, seeds),
        all_keyed(keys, seeds),
    ensures
        assembled(e, cross, sites, keys, groups, seeds, uid) matches RunS::Done(out, _) ==> clear(
            txn,
            out,
        ),
{
    let hist = hist_names(keys, uid, keys.len());
    let inits = seeds_resolved(keys, hist, seeds, keys.len());
    lemma_seeds_resolved(txn, keys, hist, seeds, keys.len());
    lemma_final_reads(txn, hist, inits);
    lemma_swapped(txn, SwapS::Await, final_reads(hist, inits), e);
    let at = later(uid, keys.len());
    lemma_built(txn, sites, groups, inits, cross.accs, at, sites.len());
    if let Some(b) = built_writers(sites, groups, inits, cross.accs, at, sites.len()) {
        lemma_stores(txn, groups, hist, inits, b.per_store, b.next, groups.len());
        if let Some((stores, _)) = planned_stores(
            groups,
            hist,
            inits,
            b.per_store,
            b.next,
            groups.len(),
        ) {
            let none = none_carried(stores.len());
            assert forall|i: int| 0 <= i < none.len() implies statements_clear(
                txn,
                #[trigger] none[i],
            ) by {}
            lemma_placed(
                txn,
                swapped(SwapS::Await, final_reads(hist, inits), e),
                stores,
                inits,
                cross,
                none,
            );
        }
    }
}

/// A program that the phase has rewritten shows neither a block nor a write of a
/// transactional variable. Its blocks are formed as blocks are, so that a write
/// is a statement and no part of a value, and the folds of its loops show nothing
/// transactional either.
pub proof fn law_nothing_transactional_is_left(
    e: ExprS,
    txn: Seq<NameS>,
    folds: Seq<FoldS>,
    uid: u64,
    out: ExprS,
    next: u64,
)
    requires
        blocks_plain(e),
        forall|i: int| 0 <= i < folds.len() ==> fold_clear(txn, #[trigger] folds[i]),
        run_s(e, txn, folds, uid) == RunS::Done(out, next),
    ensures
        !shows(SignS::Begin, out),
        !shows(SignS::Writes(txn), out),
{
    if txn.len() == 0 && !shows(SignS::Begin, e) {
        lemma_nothing_written(txn, e);
    } else {
        let (s, h) = clean_strip(e, txn)->0;
        let none = HarvestS { sites: Seq::empty(), read_only: Seq::empty() };
        lemma_clear_shows(txn, s);
        lemma_sites(e, txn, None, none);
        let sites = h.sites;
        let keys = keys_of(sites, sites.len());
        let written = written_of(sites, sites.len());
        let awaited = gathered(PickS::Awaited, s);
        let free = beyond(awaited, written, awaited.len());
        lemma_seeds(txn, s, free, Map::empty());
        lemma_swapped(txn, SwapS::Await, seeds_of(s, free), s);
        let t = settled_awaits(s, written);
        lemma_seeds(txn, t, keys, Map::empty());
        if sites.len() > 0 {
            let reads = block_reads(sites, txn, sites.len());
            let nil = Seq::<NameS>::empty();
            assert(names_ascending(nil));
            assert(listed(no_folds().accs.dom()));
            lemma_folded(txn, t, reads, folds, no_folds());
            let groups = partitioned(keys, footprints(sites, h.read_only));
            if let FoldedS::Done(f, cross) = folded_loops(t, reads, folds, no_folds()) {
                lemma_assembled(txn, f, cross, sites, keys, groups, seeds_of(t, keys), uid);
            }
        }
        lemma_clear_shows(txn, out);
    }
}

proof fn lemma_nothing_written(txn: Seq<NameS>, e: ExprS)
    requires
        txn.len() == 0,
    ensures
        !shows(SignS::Writes(txn), e),
    decreases e,
{
    assert forall|i: int| 0 <= i < e.kids.len() implies !shows(
        SignS::Writes(txn),
        #[trigger] e.kids[i],
    ) by {
        lemma_nothing_written(txn, e.kids[i]);
    }
}

} // verus!
