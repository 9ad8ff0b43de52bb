//! The transactional phase: every transaction block becomes a writer of a commit
//! store, and every store a recurrence.
use vstd::prelude::*;
use crate::acyclic::{
    Cycle, CycleS, check_store_acyclicity, flattened, site_store, store_cycle, store_of_site,
};
use crate::ast::{Expr, ExprS};
use crate::awaits::{
    any_seed_awaits, collect_key_inits, final_reads, resolve_await_finals, resolve_seeds,
    resolve_writer_free_awaits, seeds_of, seeds_resolved, settled_awaits, some_awaits,
};
use crate::block::{add_name, with_name};
use crate::cross_domain::{
    AccS, CrossAcc, CrossDomain, CrossS, FoldS, Folded, FoldedS, LoopFold, LoopToFold,
    LoopToFoldS, accs_view, block_reads, cross_domain_reads, fold_cross_domain_loops,
    folded_loops, folds_view, no_folds,
};
use crate::name::{Name, NameS, NameSupply, clone_names, names_view};
use crate::name_map::NameMap;
use crate::partition::{
    RawSite, SiteS, footprints, home, name_lists_view, no_repeats, partition_keys, partitioned,
    partitioned_upto, sites_view,
};
use crate::place::{none_carried, splice_stores, stores_ready, stores_view};
use crate::plan::{StorePlan, hist_view, plan_store};
use crate::probe::{Sign, SignS, occurs, shows};
use crate::spine::{no_escape, placed};
use crate::store::{StoreS, later, store_s};
use crate::strip::{HarvestS, Stripped, strip, stripped};
use crate::subst::env_view;
use crate::swap::{SwapS, swapped};
use crate::writer::{Writer, WriterS, all_keyed, build_writer, writer_s, writers_view};

verus! {

/// The first `n` of `more`, each added to `ns` where it is not there yet.
pub open spec fn with_names(ns: Seq<NameS>, more: Seq<NameS>, n: nat) -> Seq<NameS>
    decreases n,
{
    if n == 0 {
        ns
    } else {
        with_name(with_names(ns, more, (n - 1) as nat), more[n - 1])
    }
}

/// The keys that the first `n` sites mention, in the order of first mention.
pub open spec fn keys_of(sites: Seq<SiteS>, n: nat) -> Seq<NameS>
    decreases n,
{
    if n == 0 {
        Seq::empty()
    } else {
        let more = sites[n - 1].read_keys + sites[n - 1].write_keys;
        with_names(keys_of(sites, (n - 1) as nat), more, more.len())
    }
}

/// The keys that the first `n` sites write.
pub open spec fn written_of(sites: Seq<SiteS>, n: nat) -> Seq<NameS>
    decreases n,
{
    if n == 0 {
        Seq::empty()
    } else {
        written_of(sites, (n - 1) as nat) + sites[n - 1].write_keys
    }
}

/// The names of the histories of the first `n` keys, minted from `uid` on.
pub open spec fn hist_names(keys: Seq<NameS>, uid: u64, n: nat) -> Map<NameS, NameS>
    decreases n,
{
    if n == 0 {
        Map::empty()
    } else {
        hist_names(keys, uid, (n - 1) as nat).insert(
            keys[n - 1],
            NameS::Fresh(keys[n - 1].base(), later(uid, (n - 1) as nat)),
        )
    }
}

/// The writers of the stores.
pub struct BuiltS {
    pub per_store: Seq<Seq<WriterS>>,
    pub counter: u64,
    pub next: u64,
}

/// The writers that the first `n` sites give.
pub open spec fn built_writers(
    sites: Seq<SiteS>,
    groups: Seq<Seq<NameS>>,
    inits: Map<NameS, ExprS>,
    accs: Map<NameS, AccS>,
    uid: u64,
    n: nat,
) -> Option<BuiltS>
    decreases n,
{
    if n == 0 {
        Some(
            BuiltS {
                per_store: Seq::new(groups.len(), |i: int| Seq::<WriterS>::empty()),
                counter: 0,
                next: uid,
            },
        )
    } else {
        match (
            built_writers(sites, groups, inits, accs, uid, (n - 1) as nat),
            site_store(sites[n - 1], groups),
        ) {
            (Some(b), Some(g)) => match writer_s(sites[n - 1], inits, accs, b.counter, b.next) {
                Some((w, c, u)) => Some(
                    BuiltS {
                        per_store: b.per_store.update(g, b.per_store[g].push(w)),
                        counter: c,
                        next: u,
                    },
                ),
                None => None,
            },
            _ => None,
        }
    }
}

/// The plans of the first `n` stores, and the next identity to mint.
pub open spec fn planned_stores(
    groups: Seq<Seq<NameS>>,
    hist: Map<NameS, NameS>,
    inits: Map<NameS, ExprS>,
    per_store: Seq<Seq<WriterS>>,
    uid: u64,
    n: nat,
) -> Option<(Seq<StoreS>, u64)>
    decreases n,
{
    if n == 0 {
        Some((Seq::empty(), uid))
    } else {
        match planned_stores(groups, hist, inits, per_store, uid, (n - 1) as nat) {
            Some((ss, u)) => match store_s(groups[n - 1], hist, inits, per_store[n - 1], u) {
                Some((s, v)) => Some((ss.push(s), v)),
                None => None,
            },
            None => None,
        }
    }
}

/// What the phase makes of a program.
pub enum RunS {
    /// The rewritten program, and the next identity to mint.
    Done(ExprS, u64),
    /// The fold of this loop is needed first.
    Needs(LoopToFoldS),
    /// A store awaits its own completion.
    Rejected(CycleS),
    /// The program is none that may reach the phase.
    Broken,
}

/// The program without its blocks, where nothing transactional is left of them.
pub open spec fn clean_strip(e: ExprS, txn: Seq<NameS>) -> Option<(ExprS, HarvestS)> {
    match stripped(e, txn, None, HarvestS { sites: Seq::empty(), read_only: Seq::empty() }) {
        Some((s, h)) => if shows(SignS::Begin, s) || shows(SignS::Writes(txn), s) {
            None
        } else {
            Some((s, h))
        },
        None => None,
    }
}

/// The program with the stores of its writing blocks, once its loops are folded.
pub open spec fn assembled(
    e: ExprS,
    cross: CrossS,
    sites: Seq<SiteS>,
    keys: Seq<NameS>,
    groups: Seq<Seq<NameS>>,
    seeds: Map<NameS, ExprS>,
    uid: u64,
) -> RunS {
    let hist = hist_names(keys, uid, keys.len());
    let inits = seeds_resolved(keys, hist, seeds, keys.len());
    if some_awaits(keys, inits) {
        RunS::Broken
    } else {
        let resolved = swapped(SwapS::Await, final_reads(hist, inits), e);
        match built_writers(sites, groups, inits, cross.accs, later(uid, keys.len()), sites.len()) {
            Some(b) => match planned_stores(
                groups,
                hist,
                inits,
                b.per_store,
                b.next,
                groups.len(),
            ) {
                Some((stores, u)) => {
                    let out = placed(resolved, stores, inits, cross, none_carried(stores.len()));
                    if no_escape(resolved, out) && !shows(SignS::AwaitFinal, out) {
                        RunS::Done(out, u)
                    } else {
                        RunS::Broken
                    }
                },
                None => RunS::Broken,
            },
            None => RunS::Broken,
        }
    }
}

/// What the phase makes of the program `e` with the transactional variables
/// `txn`, where `folds` are the folds of its loops so far.
pub open spec fn run_s(e: ExprS, txn: Seq<NameS>, folds: Seq<FoldS>, uid: u64) -> RunS {
    if txn.len() == 0 && !shows(SignS::Begin, e) {
        RunS::Done(e, uid)
    } else {
        match clean_strip(e, txn) {
            Some((s, h)) => {
                let sites = h.sites;
                let keys = keys_of(sites, sites.len());
                let groups = partitioned(keys, footprints(sites, h.read_only));
                let t = settled_awaits(s, written_of(sites, sites.len()));
                let seeds = seeds_of(t, keys);
                if sites.len() == 0 {
                    if shows(SignS::AwaitFinal, t) {
                        RunS::Broken
                    } else {
                        RunS::Done(t, uid)
                    }
                } else if !all_keyed(keys, seeds) {
                    RunS::Broken
                } else {
                    match store_cycle(t, sites, seeds, groups) {
                        Some(c) => RunS::Rejected(c),
                        None => match folded_loops(
                            t,
                            block_reads(sites, txn, sites.len()),
                            folds,
                            no_folds(),
                        ) {
                            FoldedS::Done(f, cross) => assembled(
                                f,
                                cross,
                                sites,
                                keys,
                                groups,
                                seeds,
                                uid,
                            ),
                            FoldedS::Needs(l) => RunS::Needs(l),
                            FoldedS::Broken => RunS::Broken,
                        },
                    }
                }
            },
            None => RunS::Broken,
        }
    }
}

// ---- facts about keys and stores ----

proof fn lemma_with_names(ns: Seq<NameS>, more: Seq<NameS>, n: nat)
    requires
        n <= more.len(),
        no_repeats(ns),
    ensures
        no_repeats(with_names(ns, more, n)),
        forall|k: NameS| ns.contains(k) ==> #[trigger] with_names(ns, more, n).contains(k),
        forall|i: int| 0 <= i < n ==> with_names(ns, more, n).contains(#[trigger] more[i]),
    decreases n,
{
    if n > 0 {
        lemma_with_names(ns, more, (n - 1) as nat);
        let a = with_names(ns, more, (n - 1) as nat);
        let x = more[n - 1];
        let b = with_name(a, x);
        assert forall|k: NameS| a.contains(k) implies #[trigger] b.contains(k) by {
            let i = choose|i: int| 0 <= i < a.len() && a[i] == k;
            assert(b[i] == k);
        }
        assert(b.contains(x)) by {
            if !a.contains(x) {
                assert(b[b.len() - 1] == x);
            }
        }
        assert forall|i: int| 0 <= i < n implies with_names(ns, more, n).contains(
            #[trigger] more[i],
        ) by {
            if i < n - 1 {
                assert(a.contains(more[i]));
            }
        }
        assert forall|k: NameS| ns.contains(k) implies #[trigger] with_names(ns, more, n).contains(
            k,
        ) by {
            assert(a.contains(k));
        }
    }
}

pub proof fn lemma_keys_of(sites: Seq<SiteS>, n: nat)
    requires
        n <= sites.len(),
    ensures
        no_repeats(keys_of(sites, n)),
        forall|i: int, k: NameS|
            0 <= i < n && #[trigger] (sites[i].read_keys + sites[i].write_keys).contains(k)
                ==> keys_of(sites, n).contains(k),
    decreases n,
{
    if n > 0 {
        lemma_keys_of(sites, (n - 1) as nat);
        let more = sites[n - 1].read_keys + sites[n - 1].write_keys;
        let a = keys_of(sites, (n - 1) as nat);
        lemma_with_names(a, more, more.len());
        assert forall|i: int, k: NameS|
            0 <= i < n && #[trigger] (sites[i].read_keys + sites[i].write_keys).contains(
                k,
            ) implies keys_of(sites, n).contains(k) by {
            if i < n - 1 {
                assert(a.contains(k));
            } else {
                let j = choose|j: int| 0 <= j < more.len() && more[j] == k;
                assert(with_names(a, more, more.len()).contains(more[j]));
            }
        }
    }
}

proof fn lemma_home_range(
    ks: Seq<NameS>,
    fps: Seq<Seq<NameS>>,
    gs: Seq<Seq<NameS>>,
    n: nat,
    k: NameS,
)
    ensures
        home(ks, fps, gs, n, k) matches Some(g) ==> 0 <= g < n,
    decreases n,
{
    if n > 0 {
        lemma_home_range(ks, fps, gs, (n - 1) as nat, k);
    }
}

/// Stores hold keys only.
proof fn lemma_partition_members(ks: Seq<NameS>, fps: Seq<Seq<NameS>>, n: nat)
    requires
        n <= ks.len(),
    ensures
        forall|g: int, j: int|
            0 <= g < partitioned_upto(ks, fps, n).len() && 0 <= j < partitioned_upto(
                ks,
                fps,
                n,
            )[g].len() ==> ks.contains(#[trigger] partitioned_upto(ks, fps, n)[g][j]),
    decreases n,
{
    if n > 0 {
        lemma_partition_members(ks, fps, (n - 1) as nat);
        let gs = partitioned_upto(ks, fps, (n - 1) as nat);
        let k = ks[n - 1];
        lemma_home_range(ks, fps, gs, gs.len(), k);
        assert(ks.contains(k));
    }
}

proof fn lemma_flat_members(ks: Seq<NameS>, gs: Seq<Seq<NameS>>, n: nat)
    requires
        n <= gs.len(),
        forall|g: int, j: int|
            0 <= g < gs.len() && 0 <= j < gs[g].len() ==> ks.contains(#[trigger] gs[g][j]),
    ensures
        forall|i: int| 0 <= i < flattened(gs, n).len() ==> ks.contains(#[trigger] flattened(gs, n)[i]),
    decreases n,
{
    if n > 0 {
        lemma_flat_members(ks, gs, (n - 1) as nat);
        let a = flattened(gs, (n - 1) as nat);
        assert forall|i: int| 0 <= i < flattened(gs, n).len() implies ks.contains(
            #[trigger] flattened(gs, n)[i],
        ) by {
            if i < a.len() {
                assert(flattened(gs, n)[i] == a[i]);
            } else {
                assert(flattened(gs, n)[i] == gs[n - 1][i - a.len()]);
            }
        }
    }
}

proof fn lemma_flat_keyed(
    ks: Seq<NameS>,
    fps: Seq<Seq<NameS>>,
    inits: Map<NameS, ExprS>,
)
    requires
        all_keyed(ks, inits),
    ensures
        ({
            let gs = partitioned(ks, fps);
            all_keyed(flattened(gs, gs.len()), inits)
        }),
{
    let gs = partitioned(ks, fps);
    lemma_partition_members(ks, fps, ks.len());
    lemma_flat_members(ks, gs, gs.len());
    let fl = flattened(gs, gs.len());
    assert forall|i: int| 0 <= i < fl.len() implies inits.dom().contains(#[trigger] fl[i]) by {
        assert(ks.contains(fl[i]));
        let j = choose|j: int| 0 <= j < ks.len() && ks[j] == fl[i];
        assert(inits.dom().contains(ks[j]));
    }
}

proof fn lemma_stores_ready(
    groups: Seq<Seq<NameS>>,
    hist: Map<NameS, NameS>,
    inits: Map<NameS, ExprS>,
    per_store: Seq<Seq<WriterS>>,
    uid: u64,
    n: nat,
)
    ensures
        planned_stores(groups, hist, inits, per_store, uid, n) matches Some((ss, u))
            ==> stores_ready(ss, inits) && ss.len() == n,
    decreases n,
{
    if n > 0 {
        lemma_stores_ready(groups, hist, inits, per_store, uid, (n - 1) as nat);
    }
}

// ---- the executable side ----

fn all_keys(sites: &Vec<RawSite>) -> (r: Vec<Name>)
    ensures
        names_view(r@) == keys_of(sites_view(sites@), sites@.len()),
{
    let ghost sv = sites_view(sites@);
    let mut out: Vec<Name> = Vec::new();
    let mut i: usize = 0;
    assert(names_view(out@) =~= Seq::empty());
    while i < sites.len()
        invariant
            i <= sites.len(),
            sv == sites_view(sites@),
            names_view(out@) == keys_of(sv, i as nat),
        decreases sites.len() - i,
    {
        assert(sv[i as int] == sites@[i as int].view());
        let mut more = clone_names(&sites[i].read_keys);
        let mut ws = clone_names(&sites[i].write_keys);
        let ghost a = more@;
        let ghost b = ws@;
        more.append(&mut ws);
        let ghost mv = sv[i as int].read_keys + sv[i as int].write_keys;
        assert(names_view(more@) =~= mv);
        let ghost start = names_view(out@);
        let mut j: usize = 0;
        while j < more.len()
            invariant
                j <= more.len(),
                mv == names_view(more@),
                names_view(out@) == with_names(start, mv, j as nat),
            decreases more.len() - j,
        {
            assert(mv[j as int] == more@[j as int]@);
            add_name(&mut out, &more[j]);
            j = j + 1;
        }
        assert(mv.len() == more@.len());
        i = i + 1;
    }
    out
}

fn all_written(sites: &Vec<RawSite>) -> (r: Vec<Name>)
    ensures
        names_view(r@) == written_of(sites_view(sites@), sites@.len()),
{
    let ghost sv = sites_view(sites@);
    let mut out: Vec<Name> = Vec::new();
    let mut i: usize = 0;
    assert(names_view(out@) =~= Seq::empty());
    while i < sites.len()
        invariant
            i <= sites.len(),
            sv == sites_view(sites@),
            names_view(out@) == written_of(sv, i as nat),
        decreases sites.len() - i,
    {
        assert(sv[i as int] == sites@[i as int].view());
        let mut more = clone_names(&sites[i].write_keys);
        let ghost before = out@;
        let ghost m = more@;
        out.append(&mut more);
        assert(names_view(out@) =~= names_view(before) + names_view(m));
        i = i + 1;
    }
    out
}

fn mint_hists(keys: &Vec<Name>, supply: &mut NameSupply) -> (r: NameMap<Name>)
    ensures
        hist_view(r.view()) == hist_names(names_view(keys@), old(supply).next, keys@.len()),
        forall|k: NameS| #[trigger] r.view().dom().contains(k) ==> names_view(keys@).contains(k),
        final(supply).next == later(old(supply).next, keys@.len()),
{
    let ghost kv = names_view(keys@);
    let ghost uid = supply.next;
    let mut out: NameMap<Name> = NameMap::new();
    let mut i: usize = 0;
    assert(hist_view(out.view()) =~= Map::<NameS, NameS>::empty());
    while i < keys.len()
        invariant
            i <= keys.len(),
            kv == names_view(keys@),
            supply.next == later(uid, i as nat),
            hist_view(out.view()) == hist_names(kv, uid, i as nat),
            forall|k: NameS| #[trigger] out.view().dom().contains(k) ==> kv.contains(k),
        decreases keys.len() - i,
    {
        assert(kv[i as int] == keys@[i as int]@);
        assert(kv.contains(kv[i as int]));
        let base = keys[i].base();
        let h = supply.fresh(base.as_str());
        let ghost before = out.view();
        out = out.inserted(keys[i].clone(), h);
        assert(hist_view(out.view()) =~= hist_view(before).insert(kv[i as int], h@));
        i = i + 1;
    }
    out
}

pub open spec fn writer_lists_view(v: Seq<Vec<Writer>>) -> Seq<Seq<WriterS>> {
    Seq::new(v.len(), |i: int| writers_view(v[i]@))
}

proof fn lemma_built_stops(
    sites: Seq<SiteS>,
    groups: Seq<Seq<NameS>>,
    inits: Map<NameS, ExprS>,
    accs: Map<NameS, AccS>,
    uid: u64,
    i: nat,
    n: nat,
)
    requires
        i <= n,
        built_writers(sites, groups, inits, accs, uid, i) is None,
    ensures
        built_writers(sites, groups, inits, accs, uid, n) is None,
    decreases n,
{
    if i < n {
        lemma_built_stops(sites, groups, inits, accs, uid, i, (n - 1) as nat);
    }
}

/// Adds a writer to those of store `g`.
fn add_writer(per_store: Vec<Vec<Writer>>, g: usize, w: Writer) -> (r: Vec<Vec<Writer>>)
    requires
        g < per_store@.len(),
    ensures
        r@.len() == per_store@.len(),
        writer_lists_view(r@) == writer_lists_view(per_store@).update(
            g as int,
            writer_lists_view(per_store@)[g as int].push(w.view()),
        ),
{
    let ghost pv = writer_lists_view(per_store@);
    let mut per_store = per_store;
    let ghost before = per_store@;
    let mut list: Vec<Writer> = Vec::new();
    std::mem::swap(&mut list, &mut per_store[g]);
    let ghost lv = list@;
    list.push(w);
    assert(writers_view(list@) =~= writers_view(lv).push(w.view()));
    assert(pv[g as int] == writers_view(before[g as int]@));
    per_store.set(g, list);
    assert(writer_lists_view(per_store@) =~= pv.update(g as int, pv[g as int].push(w.view())));
    per_store
}

fn build_writers(
    sites: &Vec<RawSite>,
    groups: &Vec<Vec<Name>>,
    inits: &NameMap<Expr>,
    accs: &NameMap<CrossAcc>,
    supply: &mut NameSupply,
) -> (r: Option<Vec<Vec<Writer>>>)
    ensures
        match built_writers(
            sites_view(sites@),
            name_lists_view(groups@),
            env_view(inits.view()),
            accs_view(accs.view()),
            old(supply).next,
            sites@.len(),
        ) {
            Some(b) => (r matches Some(x) && writer_lists_view(x@) == b.per_store && x@.len()
                == groups@.len()) && final(supply).next == b.next,
            None => r is None,
        },
{
    let ghost sv = sites_view(sites@);
    let ghost gv = name_lists_view(groups@);
    let ghost iv = env_view(inits.view());
    let ghost av = accs_view(accs.view());
    let ghost uid = supply.next;
    let mut per: Vec<Vec<Writer>> = Vec::new();
    let mut i: usize = 0;
    while i < groups.len()
        invariant
            i <= groups.len(),
            per.len() == i,
            forall|j: int| 0 <= j < i ==> (#[trigger] per@[j])@.len() == 0,
        decreases groups.len() - i,
    {
        per.push(Vec::new());
        i = i + 1;
    }
    proof {
        assert forall|j: int| 0 <= j < per@.len() implies #[trigger] writer_lists_view(per@)[j]
            == Seq::<WriterS>::empty() by {
            assert(per@[j]@.len() == 0);
            assert(writers_view(per@[j]@) =~= Seq::<WriterS>::empty());
        }
        assert(writer_lists_view(per@) =~= Seq::new(gv.len(), |i: int| Seq::<WriterS>::empty()));
    }
    let mut counter: u64 = 0;
    let mut i: usize = 0;
    while i < sites.len()
        invariant
            i <= sites.len(),
            sv == sites_view(sites@),
            gv == name_lists_view(groups@),
            iv == env_view(inits.view()),
            av == accs_view(accs.view()),
            uid == old(supply).next,
            per@.len() == groups@.len(),
            built_writers(sv, gv, iv, av, uid, i as nat) == Some(
                BuiltS { per_store: writer_lists_view(per@), counter, next: supply.next },
            ),
        decreases sites.len() - i,
    {
        let s = &sites[i];
        assert(sv[i as int] == s.view());
        match store_of_site(s, groups) {
            Some(g) => {
                match build_writer(s, inits, accs, counter, supply) {
                    Some((w, c)) => {
                        per = add_writer(per, g, w);
                        counter = c;
                    },
                    None => {
                        proof {
                            lemma_built_stops(sv, gv, iv, av, uid, (i + 1) as nat, sv.len());
                        }
                        return None;
                    },
                }
            },
            None => {
                proof {
                    lemma_built_stops(sv, gv, iv, av, uid, (i + 1) as nat, sv.len());
                }
                return None;
            },
        }
        i = i + 1;
    }
    Some(per)
}

proof fn lemma_stores_stop(
    groups: Seq<Seq<NameS>>,
    hist: Map<NameS, NameS>,
    inits: Map<NameS, ExprS>,
    per_store: Seq<Seq<WriterS>>,
    uid: u64,
    i: nat,
    n: nat,
)
    requires
        i <= n,
        planned_stores(groups, hist, inits, per_store, uid, i) is None,
    ensures
        planned_stores(groups, hist, inits, per_store, uid, n) is None,
    decreases n,
{
    if i < n {
        lemma_stores_stop(groups, hist, inits, per_store, uid, i, (n - 1) as nat);
    }
}

fn plan_stores(
    groups: &Vec<Vec<Name>>,
    hist: &NameMap<Name>,
    inits: &NameMap<Expr>,
    per_store: &Vec<Vec<Writer>>,
    supply: &mut NameSupply,
) -> (r: Option<Vec<StorePlan>>)
    requires
        groups@.len() == per_store@.len(),
    ensures
        match planned_stores(
            name_lists_view(groups@),
            hist_view(hist.view()),
            env_view(inits.view()),
            writer_lists_view(per_store@),
            old(supply).next,
            groups@.len(),
        ) {
            Some((ss, u)) => (r matches Some(x) && stores_view(x@) == ss) && final(supply).next
                == u,
            None => r is None,
        },
{
    let ghost gv = name_lists_view(groups@);
    let ghost hv = hist_view(hist.view());
    let ghost iv = env_view(inits.view());
    let ghost pv = writer_lists_view(per_store@);
    let ghost uid = supply.next;
    let mut out: Vec<StorePlan> = Vec::new();
    let mut i: usize = 0;
    assert(stores_view(out@) =~= Seq::empty());
    while i < groups.len()
        invariant
            i <= groups.len(),
            groups@.len() == per_store@.len(),
            gv == name_lists_view(groups@),
            hv == hist_view(hist.view()),
            iv == env_view(inits.view()),
            pv == writer_lists_view(per_store@),
            uid == old(supply).next,
            planned_stores(gv, hv, iv, pv, uid, i as nat) == Some(
                (stores_view(out@), supply.next),
            ),
        decreases groups.len() - i,
    {
        assert(gv[i as int] == names_view(groups@[i as int]@));
        assert(pv[i as int] == writers_view(per_store@[i as int]@));
        let ghost before = out@;
        match plan_store(&groups[i], hist, inits, &per_store[i], supply) {
            Some(s) => {
                out.push(s);
                assert(stores_view(out@) =~= stores_view(before).push(s.view()));
            },
            None => {
                proof {
                    lemma_stores_stop(gv, hv, iv, pv, uid, (i + 1) as nat, gv.len());
                }
                return None;
            },
        }
        i = i + 1;
    }
    Some(out)
}

/// What the phase makes of a program.
pub enum Phase {
    /// The rewritten program.
    Done(Expr),
    /// The fold of this loop is needed first.
    NeedsFold(LoopToFold),
}

/// How the phase came out: what it makes of the program, why it rejects it, or
/// that no such program may reach it.
pub enum Outcome {
    Phase(Phase),
    Rejected(Cycle),
    Broken,
}

pub open spec fn comes_out(o: Outcome, r: RunS, next: u64) -> bool {
    match r {
        RunS::Done(e, u) => (o matches Outcome::Phase(Phase::Done(x)) && x.view() == e) && next
            == u,
        RunS::Needs(l) => (o matches Outcome::Phase(Phase::NeedsFold(x)) && x.view() == l),
        RunS::Rejected(c) => (o matches Outcome::Rejected(x) && x.view() == c),
        RunS::Broken => o is Broken,
    }
}

fn assemble(
    e: &Expr,
    cross: CrossDomain,
    sites: &Vec<RawSite>,
    keys: &Vec<Name>,
    groups: &Vec<Vec<Name>>,
    seeds: NameMap<Expr>,
    supply: &mut NameSupply,
) -> (r: Outcome)
    requires
        all_keyed(names_view(keys@), env_view(seeds.view())),
    ensures
        comes_out(
            r,
            assembled(
                e.view(),
                cross.view(),
                sites_view(sites@),
                names_view(keys@),
                name_lists_view(groups@),
                env_view(seeds.view()),
                old(supply).next,
            ),
            final(supply).next,
        ),
{
    let ghost kv = names_view(keys@);
    let ghost sd = env_view(seeds.view());
    let ghost uid = supply.next;
    assert(kv.len() == keys@.len());
    let hist = mint_hists(keys, supply);
    proof {
        assert(sd.dom() =~= seeds.view().dom());
        assert forall|k: NameS| #[trigger]
            hist.view().dom().contains(k) implies seeds.view().dom().contains(k) by {
            assert(kv.contains(k));
            let j = choose|j: int| 0 <= j < kv.len() && kv[j] == k;
            assert(sd.dom().contains(kv[j]));
        }
    }
    let inits = resolve_seeds(keys, &hist, seeds);
    let ghost iv = env_view(inits.view());
    let ghost hv = hist_view(hist.view());
    assert(all_keyed(kv, iv)) by {
        assert forall|i: int| 0 <= i < kv.len() implies iv.dom().contains(#[trigger] kv[i]) by {
            assert(sd.dom().contains(kv[i]));
        }
    }
    if any_seed_awaits(keys, &inits) {
        return Outcome::Broken;
    }
    let resolved = resolve_await_finals(e, &hist, &inits);
    match build_writers(sites, groups, &inits, &cross.acc_views, supply) {
        Some(per) => {
            let ghost at = supply.next;
            match plan_stores(groups, &hist, &inits, &per, supply) {
                Some(stores) => {
                    proof {
                        lemma_stores_ready(
                            name_lists_view(groups@),
                            hv,
                            iv,
                            writer_lists_view(per@),
                            at,
                            groups@.len(),
                        );
                        assert(stores_view(stores@).len() == stores@.len());
                    }
                    match splice_stores(&resolved, &stores, &inits, &cross) {
                        Some(out) => {
                            if occurs(&Sign::AwaitFinal, &out) {
                                Outcome::Broken
                            } else {
                                Outcome::Phase(Phase::Done(out))
                            }
                        },
                        None => Outcome::Broken,
                    }
                },
                None => Outcome::Broken,
            }
        },
        None => Outcome::Broken,
    }
}

fn has_all_keys(keys: &Vec<Name>, inits: &NameMap<Expr>) -> (r: bool)
    ensures
        r == all_keyed(names_view(keys@), env_view(inits.view())),
{
    let ghost kv = names_view(keys@);
    let ghost iv = env_view(inits.view());
    let mut i: usize = 0;
    while i < keys.len()
        invariant
            i <= keys.len(),
            kv == names_view(keys@),
            iv == env_view(inits.view()),
            forall|j: int| 0 <= j < i ==> iv.dom().contains(#[trigger] kv[j]),
        decreases keys.len() - i,
    {
        assert(kv[i as int] == keys@[i as int]@);
        if !inits.contains_key(&keys[i]) {
            assert(!iv.dom().contains(kv[i as int]));
            return false;
        }
        i = i + 1;
    }
    true
}

/// Runs the phase on any program, and says how it comes out.
pub fn run_phase(
    expr: &Expr,
    txn_mut_vars: &Vec<Name>,
    folds: &Vec<LoopFold>,
    supply: &mut NameSupply,
) -> (r: Outcome)
    ensures
        comes_out(
            r,
            run_s(
                expr.view(),
                names_view(txn_mut_vars@),
                folds_view(folds@),
                old(supply).next,
            ),
            final(supply).next,
        ),
{
    let ghost ev = expr.view();
    let ghost txn = names_view(txn_mut_vars@);
    if txn_mut_vars.len() == 0 && !occurs(&Sign::Begin, expr) {
        return Outcome::Phase(Phase::Done(expr.clone()));
    }
    let mut harvest = Stripped { sites: Vec::new(), read_only_footprints: Vec::new() };
    assert(harvest.view().sites =~= Seq::empty());
    assert(harvest.view().read_only =~= Seq::empty());
    let s = match strip(expr, txn_mut_vars, None, &mut harvest) {
        Some(s) => s,
        None => {
            return Outcome::Broken;
        },
    };
    if occurs(&Sign::Begin, &s) || occurs(&Sign::Writes(txn_mut_vars), &s) {
        return Outcome::Broken;
    }
    let ghost hv = harvest.view();
    let sites = &harvest.sites;
    let ghost sv = sites_view(sites@);
    assert(sv.len() == sites@.len());
    let keys = all_keys(sites);
    let ghost kv = names_view(keys@);
    proof {
        lemma_keys_of(sv, sv.len());
    }
    let groups = partition_keys(&keys, sites, &harvest.read_only_footprints);
    let written = all_written(sites);
    let t = resolve_writer_free_awaits(&s, &written);
    if sites.len() == 0 {
        return if occurs(&Sign::AwaitFinal, &t) {
            Outcome::Broken
        } else {
            Outcome::Phase(Phase::Done(t))
        };
    }
    let none: NameMap<Expr> = NameMap::new();
    assert(env_view(none.view()) =~= Map::<NameS, ExprS>::empty());
    let seeds = collect_key_inits(&t, &keys, none);
    if !has_all_keys(&keys, &seeds) {
        return Outcome::Broken;
    }
    proof {
        lemma_flat_keyed(kv, footprints(sv, hv.read_only), env_view(seeds.view()));
        assert(name_lists_view(groups@).len() == groups@.len());
    }
    match check_store_acyclicity(&t, sites, &seeds, &groups) {
        Some(c) => Outcome::Rejected(c),
        None => {
            let reads = cross_domain_reads(sites, txn_mut_vars);
            let (folded, cross) = fold_cross_domain_loops(&t, &reads, folds, CrossDomain::new());
            match folded {
                Folded::Done(f) => assemble(&f, cross, sites, &keys, &groups, seeds, supply),
                Folded::Needs(l) => Outcome::Phase(Phase::NeedsFold(l)),
                Folded::Broken => Outcome::Broken,
            }
        },
    }
}

/// Rewrites every transaction block of a program into a writer of a commit
/// store, and every store into a recurrence. A store that awaits its own
/// completion is rejected.
pub fn run(
    expr: &Expr,
    txn_mut_vars: &Vec<Name>,
    folds: &Vec<LoopFold>,
    supply: &mut NameSupply,
) -> (r: Result<Phase, String>)
    requires
        !(run_s(
            expr.view(),
            names_view(txn_mut_vars@),
            folds_view(folds@),
            old(supply).next,
        ) is Broken),
    ensures
        match run_s(
            expr.view(),
            names_view(txn_mut_vars@),
            folds_view(folds@),
            old(supply).next,
        ) {
            RunS::Done(e, u) => (r matches Ok(Phase::Done(x)) && x.view() == e)
                && final(supply).next == u,
            RunS::Needs(l) => (r matches Ok(Phase::NeedsFold(x)) && x.view() == l),
            RunS::Rejected(c) => (r matches Err(m) && m@ == c.said()),
            RunS::Broken => false,
        },
{
    match run_phase(expr, txn_mut_vars, folds, supply) {
        Outcome::Phase(p) => Ok(p),
        Outcome::Rejected(c) => Err(c.to_text()),
        Outcome::Broken => Err(String::new()),
    }
}

} // verus!
