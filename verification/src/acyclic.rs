//! That no commit store awaits its own completion.
use vstd::prelude::*;
use crate::ast::{Expr, ExprS, HeadS, TypedExprNode, opt_name_view};
use crate::free_names::free_names_in_value;
use crate::layout::{cat7, put7};
use crate::name::{Name, NameS, clone_names, has_name, names_view};
use crate::name_map::{NameMap, lemma_sorted_names, sorted_names};
use crate::partition::{RawSite, SiteS, name_lists_view, sites_view};
use crate::place::opt_index;
use crate::probe::{Pick, PickS, gather, gathered};
use crate::scope::free_in_value;
use crate::subst::env_view;
use crate::tree::expr_refs_view;
use crate::writer::all_keyed;

verus! {

/// The names free in the value of `e`, in ascending order.
pub open spec fn free_list(e: ExprS) -> Seq<NameS> {
    sorted_names(Set::new(|n: NameS| free_in_value(n, e)))
}

/// What the first `n` of `ns` depend on.
pub open spec fn marks_of(ns: Seq<NameS>, marked: Map<NameS, Seq<NameS>>, n: nat) -> Seq<NameS>
    decreases n,
{
    if n == 0 {
        Seq::empty()
    } else {
        let before = marks_of(ns, marked, (n - 1) as nat);
        if marked.dom().contains(ns[n - 1]) {
            before + marked[ns[n - 1]]
        } else {
            before
        }
    }
}

/// The keys whose final values `e` depends on: those it awaits, and those that
/// the names it reads depend on.
pub open spec fn awaited_in(e: ExprS, marked: Map<NameS, Seq<NameS>>) -> Seq<NameS> {
    gathered(PickS::Awaited, e) + marks_of(free_list(e), marked, free_list(e).len())
}

/// What a node gives a name its value by.
pub open spec fn binds_value(e: ExprS) -> Option<(NameS, ExprS)> {
    if e.kids.len() == 0 {
        None
    } else {
        match e.head {
            HeadS::Let(n) => Some((n, e.kids[0])),
            HeadS::MutDecl(n) => Some((n, e.kids[0])),
            HeadS::MutWrite(n) => Some((n, e.kids[0])),
            _ => None,
        }
    }
}

/// `marked` with the keys that `n` depends on besides.
pub open spec fn with_marks(
    marked: Map<NameS, Seq<NameS>>,
    n: NameS,
    keys: Seq<NameS>,
) -> Map<NameS, Seq<NameS>> {
    if keys.len() == 0 {
        marked
    } else if marked.dom().contains(n) {
        marked.insert(n, marked[n] + keys)
    } else {
        marked.insert(n, keys)
    }
}

/// The keys that the names of `e` depend on.
pub open spec fn marks(e: ExprS, marked: Map<NameS, Seq<NameS>>) -> Map<NameS, Seq<NameS>>
    decreases e, e.kids.len() + 1,
{
    let own = match binds_value(e) {
        Some((n, v)) => with_marks(marked, n, awaited_in(v, marked)),
        None => marked,
    };
    marks_upto(e, own, e.kids.len())
}

pub open spec fn marks_upto(e: ExprS, marked: Map<NameS, Seq<NameS>>, n: nat) -> Map<
    NameS,
    Seq<NameS>,
>
    decreases e, n,
{
    if n == 0 || n > e.kids.len() {
        marked
    } else {
        marks(e.kids[n - 1], marks_upto(e, marked, (n - 1) as nat))
    }
}

/// The store of a key among the first `n`.
pub open spec fn store_of_key(groups: Seq<Seq<NameS>>, k: NameS, n: nat) -> Option<int>
    decreases n,
{
    if n == 0 {
        None
    } else {
        match store_of_key(groups, k, (n - 1) as nat) {
            Some(g) => Some(g),
            None => if groups[n - 1].contains(k) { Some(n - 1) } else { None },
        }
    }
}

/// The store of a key.
pub open spec fn store_at(groups: Seq<Seq<NameS>>, k: NameS) -> Option<int> {
    store_of_key(groups, k, groups.len())
}

/// The least of the first `n` keys that are in store `g`.
pub open spec fn least_in(
    ks: Seq<NameS>,
    groups: Seq<Seq<NameS>>,
    g: int,
    n: nat,
) -> Option<NameS>
    decreases n,
{
    if n == 0 {
        None
    } else {
        let before = least_in(ks, groups, g, (n - 1) as nat);
        let k = ks[n - 1];
        if store_at(groups, k) == Some(g) {
            match before {
                Some(b) => Some(if k.lt(b) { k } else { b }),
                None => Some(k),
            }
        } else {
            before
        }
    }
}

/// The least awaited key that shares the store.
pub open spec fn clash(
    awaited: Seq<NameS>,
    groups: Seq<Seq<NameS>>,
    store: Option<int>,
) -> Option<NameS> {
    match store {
        Some(g) => least_in(awaited, groups, g, awaited.len()),
        None => None,
    }
}

/// How a store awaits its own completion.
pub enum CycleS {
    /// The seed of this key awaits that one.
    Seed(NameS, NameS),
    /// The source of a writer's loop awaits this key.
    Source(NameS),
    /// A writer's block awaits this key.
    Body(NameS),
}

/// The first of the first `n` keys whose seed awaits its own store.
pub open spec fn seed_cycle(
    ks: Seq<NameS>,
    inits: Map<NameS, ExprS>,
    marked: Map<NameS, Seq<NameS>>,
    groups: Seq<Seq<NameS>>,
    n: nat,
) -> Option<CycleS>
    decreases n,
{
    if n == 0 {
        None
    } else {
        match seed_cycle(ks, inits, marked, groups, (n - 1) as nat) {
            Some(c) => Some(c),
            None => {
                let k = ks[n - 1];
                match clash(awaited_in(inits[k], marked), groups, store_at(groups, k)) {
                    Some(j) => Some(CycleS::Seed(k, j)),
                    None => None,
                }
            },
        }
    }
}

/// The key by which a site's store is found.
pub open spec fn site_key(s: SiteS) -> Option<NameS> {
    if s.write_keys.len() > 0 {
        Some(s.write_keys[0])
    } else if s.read_keys.len() > 0 {
        Some(s.read_keys[0])
    } else {
        None
    }
}

/// The store of a site.
pub open spec fn site_store(s: SiteS, groups: Seq<Seq<NameS>>) -> Option<int> {
    match site_key(s) {
        Some(k) => store_at(groups, k),
        None => None,
    }
}

/// The first of the first `n` sites that awaits its own store.
pub open spec fn site_cycle(
    sites: Seq<SiteS>,
    marked: Map<NameS, Seq<NameS>>,
    groups: Seq<Seq<NameS>>,
    n: nat,
) -> Option<CycleS>
    decreases n,
{
    if n == 0 {
        None
    } else {
        match site_cycle(sites, marked, groups, (n - 1) as nat) {
            Some(c) => Some(c),
            None => {
                let s = sites[n - 1];
                let store = site_store(s, groups);
                match clash(awaited_in(s.source, marked), groups, store) {
                    Some(k) => Some(CycleS::Source(k)),
                    None => match clash(awaited_in(s.block, marked), groups, store) {
                        Some(k) => Some(CycleS::Body(k)),
                        None => None,
                    },
                }
            },
        }
    }
}

/// The keys of the first `n` stores, store by store.
pub open spec fn flattened(groups: Seq<Seq<NameS>>, n: nat) -> Seq<NameS>
    decreases n,
{
    if n == 0 {
        Seq::empty()
    } else {
        flattened(groups, (n - 1) as nat) + groups[n - 1]
    }
}

/// How a store of the program awaits its own completion.
pub open spec fn store_cycle(
    e: ExprS,
    sites: Seq<SiteS>,
    inits: Map<NameS, ExprS>,
    groups: Seq<Seq<NameS>>,
) -> Option<CycleS> {
    let marked = marks(e, Map::empty());
    let ks = flattened(groups, groups.len());
    match seed_cycle(ks, inits, marked, groups, ks.len()) {
        Some(c) => Some(c),
        None => site_cycle(sites, marked, groups, sites.len()),
    }
}

impl CycleS {
    /// What is said of it.
    pub open spec fn said(self) -> Seq<char> {
        match self {
            CycleS::Seed(k, j) => cat7(
                "the seed of transactional mutable variable `"@,
                k.base(),
                "` depends on `await_final("@,
                j.base(),
                ")`, and the two share a commit store — `"@,
                k.base(),
                "`'s value at commit tick 0 would await that store's own completion. (An induction accumulator may be seeded from an await: it is a different recurrence. Two transactional mutable variables land in one store only when some `with begin():` block mentions them together.)"@,
            ),
            CycleS::Source(k) => site_text("iteration source"@, k),
            CycleS::Body(k) => site_text("body"@, k),
        }
    }
}

pub open spec fn site_text(what: Seq<char>, k: NameS) -> Seq<char> {
    cat7(
        "a `with begin():` block's "@,
        what,
        " depends on `await_final("@,
        k.base(),
        ")`, and the block commits into `"@,
        k.base(),
        "`'s own store — one store is one recurrence, so a value read out of it cannot feed a writer back into it. (Two transactional mutable variables land in one store only when some `with begin():` block mentions them together, reads included.)"@,
    )
}

// ---- the executable side ----

pub open spec fn marked_view(m: Map<NameS, Vec<Name>>) -> Map<NameS, Seq<NameS>> {
    m.map_values(|v: Vec<Name>| names_view(v@))
}

fn awaited_by(e: &Expr, marked: &NameMap<Vec<Name>>) -> (r: Vec<Name>)
    ensures
        names_view(r@) == awaited_in(e.view(), marked_view(marked.view())),
{
    let ghost mv = marked_view(marked.view());
    let mut out = gather(&Pick::Awaited, e);
    let free = free_names_in_value(e);
    let ghost fv = names_view(free@);
    let ghost start = names_view(out@);
    proof {
        lemma_sorted_names(fv, Set::new(|n: NameS| free_in_value(n, e.view())));
    }
    let mut i: usize = 0;
    assert(start + marks_of(fv, mv, 0) =~= start);
    while i < free.len()
        invariant
            i <= free.len(),
            fv == names_view(free@),
            mv == marked_view(marked.view()),
            names_view(out@) == start + marks_of(fv, mv, i as nat),
        decreases free.len() - i,
    {
        assert(fv[i as int] == free@[i as int]@);
        let ghost before = out@;
        match marked.get(&free[i]) {
            Some(keys) => {
                assert(mv[fv[i as int]] == names_view(keys@));
                let mut more = clone_names(keys);
                let ghost m = more@;
                out.append(&mut more);
                assert(names_view(out@) =~= names_view(before) + names_view(m));
                assert(start + marks_of(fv, mv, i as nat) + names_view(m) =~= start + (marks_of(
                    fv,
                    mv,
                    i as nat,
                ) + names_view(m)));
            },
            None => {
                assert(!mv.dom().contains(fv[i as int]));
            },
        }
        i = i + 1;
    }
    out
}

fn mark(e: &Expr, marked: NameMap<Vec<Name>>) -> (r: NameMap<Vec<Name>>)
    ensures
        marked_view(r.view()) == marks(e.view(), marked_view(marked.view())),
    decreases e.view(),
{
    let ghost ev = e.view();
    let ghost start = marked_view(marked.view());
    let kids = e.children();
    assert(kids@.len() == ev.kids.len());
    let name: Option<&Name> = match &e.node {
        TypedExprNode::Let { binding, bound_expr, body } => Some(&binding.name),
        TypedExprNode::MutDecl { binding, init, body } => Some(&binding.name),
        TypedExprNode::MutWrite { name, value } => Some(name),
        _ => None,
    };
    let mut out = marked;
    match name {
        Some(n) => {
            assert(ev.kids.len() > 0);
            assert(kids@[0].view() == ev.kids[0]);
            let keys = awaited_by(kids[0], &out);
            assert(names_view(keys@).len() == keys@.len());
            if keys.len() > 0 {
                let ghost before = out.view();
                assert(marked_view(before).dom() =~= before.dom());
                let all = match out.get(n) {
                    Some(old_keys) => {
                        let mut a = clone_names(old_keys);
                        let mut b = clone_names(&keys);
                        let ghost av = a@;
                        let ghost bv = b@;
                        a.append(&mut b);
                        assert(names_view(a@) =~= names_view(av) + names_view(bv));
                        a
                    },
                    None => clone_names(&keys),
                };
                out = out.inserted(n.clone(), all);
                assert(marked_view(out.view()) =~= marked_view(before).insert(
                    n@,
                    names_view(all@),
                ));
            }
        },
        None => {},
    }
    let ghost own = marked_view(out.view());
    assert(own == (match binds_value(ev) {
        Some((n, v)) => with_marks(start, n, awaited_in(v, start)),
        None => start,
    }));
    let mut i: usize = 0;
    while i < kids.len()
        invariant
            i <= kids.len(),
            ev == e.view(),
            kids@.len() == ev.kids.len(),
            expr_refs_view(kids@) == ev.kids,
            marked_view(out.view()) == marks_upto(ev, own, i as nat),
        decreases kids.len() - i,
    {
        assert(kids@[i as int].view() == ev.kids[i as int]);
        out = mark(kids[i], out);
        i = i + 1;
    }
    out
}

/// The store of a key.
pub fn store_index(groups: &Vec<Vec<Name>>, k: &Name) -> (r: Option<usize>)
    ensures
        opt_index(r) == store_at(name_lists_view(groups@), k@),
        r matches Some(i) ==> i < groups@.len(),
{
    let ghost gv = name_lists_view(groups@);
    let mut found: Option<usize> = None;
    let mut i: usize = 0;
    while i < groups.len()
        invariant
            i <= groups.len(),
            gv == name_lists_view(groups@),
            opt_index(found) == store_of_key(gv, k@, i as nat),
            found matches Some(x) ==> x < groups@.len(),
        decreases groups.len() - i,
    {
        assert(gv[i as int] == names_view(groups@[i as int]@));
        if found.is_none() && has_name(&groups[i], k) {
            found = Some(i);
        }
        i = i + 1;
    }
    found
}

fn find_clash(awaited: &Vec<Name>, groups: &Vec<Vec<Name>>, store: Option<usize>) -> (r: Option<
    Name,
>)
    ensures
        opt_name_view(r) == clash(
            names_view(awaited@),
            name_lists_view(groups@),
            opt_index(store),
        ),
{
    let ghost av = names_view(awaited@);
    let ghost gv = name_lists_view(groups@);
    match store {
        Some(g) => {
            let mut found: Option<Name> = None;
            let mut i: usize = 0;
            while i < awaited.len()
                invariant
                    i <= awaited.len(),
                    av == names_view(awaited@),
                    gv == name_lists_view(groups@),
                    opt_name_view(found) == least_in(av, gv, g as int, i as nat),
                decreases awaited.len() - i,
            {
                assert(av[i as int] == awaited@[i as int]@);
                let here = match store_index(groups, &awaited[i]) {
                    Some(x) => x == g,
                    None => false,
                };
                if here {
                    let better = match &found {
                        Some(b) => awaited[i].before(b),
                        None => true,
                    };
                    if better {
                        found = Some(awaited[i].clone());
                    }
                }
                i = i + 1;
            }
            found
        },
        None => None,
    }
}

pub enum Cycle {
    Seed(Name, Name),
    Source(Name),
    Body(Name),
}

impl Cycle {
    pub open spec fn view(&self) -> CycleS {
        match self {
            Cycle::Seed(k, j) => CycleS::Seed(k@, j@),
            Cycle::Source(k) => CycleS::Source(k@),
            Cycle::Body(k) => CycleS::Body(k@),
        }
    }

    /// What is said of it.
    pub fn to_text(&self) -> (r: String)
        ensures
            r@ == self.view().said(),
    {
        match self {
            Cycle::Seed(k, j) => {
                let a = k.base();
                let b = j.base();
                put7(
                    "the seed of transactional mutable variable `",
                    a.as_str(),
                    "` depends on `await_final(",
                    b.as_str(),
                    ")`, and the two share a commit store — `",
                    a.as_str(),
                    "`'s value at commit tick 0 would await that store's own completion. (An induction accumulator may be seeded from an await: it is a different recurrence. Two transactional mutable variables land in one store only when some `with begin():` block mentions them together.)",
                )
            },
            Cycle::Source(k) => say_site("iteration source", k),
            Cycle::Body(k) => say_site("body", k),
        }
    }
}

fn say_site(what: &str, k: &Name) -> (r: String)
    ensures
        r@ == site_text(what@, k@),
{
    let a = k.base();
    put7(
        "a `with begin():` block's ",
        what,
        " depends on `await_final(",
        a.as_str(),
        ")`, and the block commits into `",
        a.as_str(),
        "`'s own store — one store is one recurrence, so a value read out of it cannot feed a writer back into it. (Two transactional mutable variables land in one store only when some `with begin():` block mentions them together, reads included.)",
    )
}

pub open spec fn opt_cycle_view(c: Option<Cycle>) -> Option<CycleS> {
    match c {
        Some(x) => Some(x.view()),
        None => None,
    }
}

fn find_seed_cycle(
    ks: &Vec<Name>,
    inits: &NameMap<Expr>,
    marked: &NameMap<Vec<Name>>,
    groups: &Vec<Vec<Name>>,
) -> (r: Option<Cycle>)
    requires
        all_keyed(names_view(ks@), env_view(inits.view())),
    ensures
        opt_cycle_view(r) == seed_cycle(
            names_view(ks@),
            env_view(inits.view()),
            marked_view(marked.view()),
            name_lists_view(groups@),
            ks@.len(),
        ),
{
    let ghost kv = names_view(ks@);
    let ghost iv = env_view(inits.view());
    let ghost mv = marked_view(marked.view());
    let ghost gv = name_lists_view(groups@);
    let mut found: Option<Cycle> = None;
    let mut i: usize = 0;
    while i < ks.len()
        invariant
            i <= ks.len(),
            kv == names_view(ks@),
            iv == env_view(inits.view()),
            mv == marked_view(marked.view()),
            gv == name_lists_view(groups@),
            all_keyed(kv, iv),
            opt_cycle_view(found) == seed_cycle(kv, iv, mv, gv, i as nat),
        decreases ks.len() - i,
    {
        assert(kv[i as int] == ks@[i as int]@);
        if found.is_none() {
            match inits.get(&ks[i]) {
                Some(init) => {
                    assert(iv[kv[i as int]] == init.view());
                    let awaited = awaited_by(init, marked);
                    match find_clash(&awaited, groups, store_index(groups, &ks[i])) {
                        Some(j) => {
                            found = Some(Cycle::Seed(ks[i].clone(), j));
                        },
                        None => {},
                    }
                },
                None => {
                    assert(iv.dom().contains(kv[i as int]));
                },
            }
        }
        i = i + 1;
    }
    found
}

/// The store of a site.
pub fn store_of_site(s: &RawSite, groups: &Vec<Vec<Name>>) -> (r: Option<usize>)
    ensures
        opt_index(r) == site_store(s.view(), name_lists_view(groups@)),
        r matches Some(i) ==> i < groups@.len(),
{
    let ghost sv = s.view();
    if s.write_keys.len() > 0 {
        assert(sv.write_keys[0] == s.write_keys@[0]@);
        store_index(groups, &s.write_keys[0])
    } else if s.read_keys.len() > 0 {
        assert(sv.read_keys[0] == s.read_keys@[0]@);
        store_index(groups, &s.read_keys[0])
    } else {
        None
    }
}

fn find_site_cycle(
    sites: &Vec<RawSite>,
    marked: &NameMap<Vec<Name>>,
    groups: &Vec<Vec<Name>>,
) -> (r: Option<Cycle>)
    ensures
        opt_cycle_view(r) == site_cycle(
            sites_view(sites@),
            marked_view(marked.view()),
            name_lists_view(groups@),
            sites@.len(),
        ),
{
    let ghost sv = sites_view(sites@);
    let ghost mv = marked_view(marked.view());
    let ghost gv = name_lists_view(groups@);
    let mut found: Option<Cycle> = None;
    let mut i: usize = 0;
    while i < sites.len()
        invariant
            i <= sites.len(),
            sv == sites_view(sites@),
            mv == marked_view(marked.view()),
            gv == name_lists_view(groups@),
            opt_cycle_view(found) == site_cycle(sv, mv, gv, i as nat),
        decreases sites.len() - i,
    {
        let s = &sites[i];
        assert(sv[i as int] == s.view());
        if found.is_none() {
            let store = store_of_site(s, groups);
            match find_clash(&awaited_by(&s.source, marked), groups, store) {
                Some(k) => {
                    found = Some(Cycle::Source(k));
                },
                None => {
                    match find_clash(&awaited_by(&s.block, marked), groups, store) {
                        Some(k) => {
                            found = Some(Cycle::Body(k));
                        },
                        None => {},
                    }
                },
            }
        }
        i = i + 1;
    }
    found
}

fn flatten(groups: &Vec<Vec<Name>>) -> (r: Vec<Name>)
    ensures
        names_view(r@) == flattened(name_lists_view(groups@), groups@.len()),
{
    let ghost gv = name_lists_view(groups@);
    let mut out: Vec<Name> = Vec::new();
    let mut i: usize = 0;
    assert(names_view(out@) =~= Seq::empty());
    while i < groups.len()
        invariant
            i <= groups.len(),
            gv == name_lists_view(groups@),
            names_view(out@) == flattened(gv, i as nat),
        decreases groups.len() - i,
    {
        assert(gv[i as int] == names_view(groups@[i as int]@));
        let mut more = clone_names(&groups[i]);
        let ghost before = out@;
        let ghost m = more@;
        out.append(&mut more);
        assert(names_view(out@) =~= names_view(before) + names_view(m));
        i = i + 1;
    }
    out
}

/// Finds a store that awaits its own completion.
pub fn check_store_acyclicity(
    stripped: &Expr,
    sites: &Vec<RawSite>,
    inits: &NameMap<Expr>,
    groups: &Vec<Vec<Name>>,
) -> (r: Option<Cycle>)
    requires
        all_keyed(
            flattened(name_lists_view(groups@), groups@.len()),
            env_view(inits.view()),
        ),
    ensures
        opt_cycle_view(r) == store_cycle(
            stripped.view(),
            sites_view(sites@),
            env_view(inits.view()),
            name_lists_view(groups@),
        ),
{
    let none: NameMap<Vec<Name>> = NameMap::new();
    assert(marked_view(none.view()) =~= Map::<NameS, Seq<NameS>>::empty());
    let marked = mark(stripped, none);
    let ks = flatten(groups);
    assert(names_view(ks@).len() == ks@.len());
    match find_seed_cycle(&ks, inits, &marked, groups) {
        Some(c) => Some(c),
        None => find_site_cycle(sites, &marked, groups),
    }
}

} // verus!
