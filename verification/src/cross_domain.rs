//! Loops whose accumulators a commit decision reads.
use vstd::prelude::*;
use crate::ast::{
    Expr, ExprS, HeadS, Type, TypeS, TypedBinding, TypedExprNode, exprs_view, opt_name_view,
};
use crate::name::{Name, NameS, has_name, names_view};
use crate::name_map::NameMap;
use crate::partition::{RawSite, SiteS, sites_view};
use crate::probe::{Pick, PickS, Sign, SignS, gather, gathered, occurs, shows};
use crate::swap::{kids_renamed, rename_var_uses, uses_renamed};
use crate::symbolic::lead;
use crate::tree::with_kids;

verus! {

/// A binding of a group: a name, its type and its definition.
pub struct DefS {
    pub name: NameS,
    pub ty: TypeS,
    pub def: ExprS,
}

pub open spec fn def_view(d: (TypedBinding, Expr)) -> DefS {
    DefS { name: d.0.name@, ty: d.0.ty.view(), def: d.1.view() }
}

pub open spec fn defs_view(v: Seq<(TypedBinding, Expr)>) -> Seq<DefS> {
    Seq::new(v.len(), |i: int| def_view(v[i]))
}

/// A handle and the term that is fed into it.
pub struct FeedS {
    pub name: NameS,
    pub value: ExprS,
}

pub open spec fn feeds_view(v: Seq<(Name, Expr)>) -> Seq<FeedS> {
    Seq::new(v.len(), |i: int| FeedS { name: v[i].0@, value: v[i].1.view() })
}

/// One accumulator of a folded loop: its value at each position of the loop, the
/// type of its values, and the name of its final value where it has one.
pub struct FoldedAccS {
    pub name: NameS,
    pub value_ty: TypeS,
    pub view: ExprS,
}

/// A loop over its accumulators, folded to a recurrence.
pub struct FoldS {
    pub accs: Seq<FoldedAccS>,
    /// What the uses of an accumulator behind the loop become.
    pub renames: Seq<(NameS, NameS)>,
    pub binding: DefS,
    pub reads: Seq<DefS>,
    pub feeds: Seq<FeedS>,
}

pub struct FoldedAcc {
    pub name: Name,
    pub value_ty: Type,
    pub view: Expr,
}

impl FoldedAcc {
    pub open spec fn value(&self) -> FoldedAccS {
        FoldedAccS {
            name: self.name@,
            value_ty: self.value_ty.view(),
            view: self.view.view(),
        }
    }
}

pub struct LoopFold {
    pub accs: Vec<FoldedAcc>,
    pub renames: Vec<(Name, Name)>,
    pub binding: (TypedBinding, Expr),
    pub reads: Vec<(TypedBinding, Expr)>,
    pub feed_views: Vec<(Name, Expr)>,
}

impl LoopFold {
    pub open spec fn view(&self) -> FoldS {
        FoldS {
            accs: Seq::new(self.accs@.len(), |i: int| self.accs@[i].value()),
            renames: renames_view(self.renames@),
            binding: def_view(self.binding),
            reads: defs_view(self.reads@),
            feeds: feeds_view(self.feed_views@),
        }
    }
}

pub open spec fn renames_view(v: Seq<(Name, Name)>) -> Seq<(NameS, NameS)> {
    Seq::new(v.len(), |i: int| (v[i].0@, v[i].1@))
}

pub open spec fn folds_view(v: Seq<LoopFold>) -> Seq<FoldS> {
    Seq::new(v.len(), |i: int| v[i].view())
}

/// A folded accumulator as a commit decision reads it: at its own position, or
/// its final value.
pub struct AccS {
    pub view: ExprS,
    pub value_ty: TypeS,
    pub final_var: NameS,
}

pub struct CrossAcc {
    pub view: Expr,
    pub value_ty: Type,
    pub final_var: Name,
}

impl CrossAcc {
    pub open spec fn value(&self) -> AccS {
        AccS {
            view: self.view.view(),
            value_ty: self.value_ty.view(),
            final_var: self.final_var@,
        }
    }
}

pub open spec fn accs_view(m: Map<NameS, CrossAcc>) -> Map<NameS, AccS> {
    m.map_values(|a: CrossAcc| a.value())
}

/// What folding the loops of a program gave.
pub struct CrossS {
    pub bindings: Seq<DefS>,
    pub reads: Seq<DefS>,
    pub feeds: Seq<FeedS>,
    pub accs: Map<NameS, AccS>,
    /// How many loops were folded.
    pub folded: nat,
}

pub struct CrossDomain {
    pub bindings: Vec<(TypedBinding, Expr)>,
    pub reads: Vec<(TypedBinding, Expr)>,
    pub feeds: Vec<(Name, Expr)>,
    pub acc_views: NameMap<CrossAcc>,
    pub folded: usize,
}

impl CrossDomain {
    pub open spec fn view(&self) -> CrossS {
        CrossS {
            bindings: defs_view(self.bindings@),
            reads: defs_view(self.reads@),
            feeds: feeds_view(self.feeds@),
            accs: accs_view(self.acc_views.view()),
            folded: self.folded as nat,
        }
    }

    pub fn new() -> (r: CrossDomain)
        ensures
            r.view() == no_folds(),
    {
        let out = CrossDomain {
            bindings: Vec::new(),
            reads: Vec::new(),
            feeds: Vec::new(),
            acc_views: NameMap::new(),
            folded: 0,
        };
        assert(out.view().bindings =~= Seq::empty());
        assert(out.view().reads =~= Seq::empty());
        assert(out.view().feeds =~= Seq::empty());
        assert(out.view().accs =~= Map::<NameS, AccS>::empty());
        out
    }
}

pub open spec fn no_folds() -> CrossS {
    CrossS {
        bindings: Seq::empty(),
        reads: Seq::empty(),
        feeds: Seq::empty(),
        accs: Map::empty(),
        folded: 0,
    }
}

/// What the blocks of the first `n` sites refer to beside the transactional
/// variables.
pub open spec fn block_reads(sites: Seq<SiteS>, txn: Seq<NameS>, n: nat) -> Seq<NameS>
    decreases n,
{
    if n == 0 {
        Seq::empty()
    } else {
        block_reads(sites, txn, (n - 1) as nat) + gathered(
            PickS::ReadBeyond(txn),
            sites[n - 1].block,
        )
    }
}

pub fn cross_domain_reads(sites: &Vec<RawSite>, txn_mut_vars: &Vec<Name>) -> (r: Vec<Name>)
    ensures
        names_view(r@) == block_reads(
            sites_view(sites@),
            names_view(txn_mut_vars@),
            sites@.len(),
        ),
{
    let ghost sv = sites_view(sites@);
    let ghost txn = names_view(txn_mut_vars@);
    let mut out: Vec<Name> = Vec::new();
    let mut i: usize = 0;
    assert(names_view(out@) =~= Seq::empty());
    while i < sites.len()
        invariant
            i <= sites.len(),
            sv == sites_view(sites@),
            txn == names_view(txn_mut_vars@),
            names_view(out@) == block_reads(sv, txn, i as nat),
        decreases sites.len() - i,
    {
        assert(sv[i as int] == sites@[i as int].view());
        let mut more = gather(&Pick::ReadBeyond(txn_mut_vars), &sites[i].block);
        let ghost before = out@;
        let ghost mv = more@;
        out.append(&mut more);
        assert(names_view(out@) =~= names_view(before) + names_view(mv));
        i = i + 1;
    }
    out
}

/// How many nodes `e` has.
pub open spec fn size(e: ExprS) -> nat
    decreases e, e.kids.len() + 1,
{
    1 + size_upto(e, e.kids.len())
}

pub open spec fn size_upto(e: ExprS, n: nat) -> nat
    decreases e, n,
{
    if n == 0 || n > e.kids.len() {
        0
    } else {
        size_upto(e, (n - 1) as nat) + size(e.kids[n - 1])
    }
}

proof fn lemma_size_upto(e: ExprS, n: nat, i: int)
    requires
        0 <= i < n <= e.kids.len(),
    ensures
        size(e.kids[i]) <= size_upto(e, n),
    decreases n,
{
    if i < n - 1 {
        lemma_size_upto(e, (n - 1) as nat, i);
    }
}

pub proof fn lemma_size_kid(e: ExprS, i: int)
    requires
        0 <= i < e.kids.len(),
    ensures
        size(e.kids[i]) < size(e),
{
    lemma_size_upto(e, e.kids.len(), i);
}

proof fn lemma_size_renamed(from: NameS, to: NameS, e: ExprS)
    ensures
        size(uses_renamed(from, to, e)) == size(e),
    decreases e, e.kids.len() + 1,
{
    if e.head == HeadS::Var(from) {
        let r = uses_renamed(from, to, e);
        assert(r.kids == e.kids);
        lemma_size_same(e, r, e.kids.len());
    } else {
        lemma_size_renamed_upto(from, to, e, e.kids.len());
    }
}

proof fn lemma_size_same(a: ExprS, b: ExprS, n: nat)
    requires
        a.kids == b.kids,
    ensures
        size_upto(a, n) == size_upto(b, n),
    decreases n,
{
    if n > 0 {
        lemma_size_same(a, b, (n - 1) as nat);
    }
}

proof fn lemma_size_renamed_upto(from: NameS, to: NameS, e: ExprS, n: nat)
    requires
        e.head != HeadS::Var(from),
        n <= e.kids.len(),
    ensures
        size_upto(uses_renamed(from, to, e), n) == size_upto(e, n),
    decreases e, n,
{
    if n > 0 {
        lemma_size_renamed_upto(from, to, e, (n - 1) as nat);
        lemma_size_renamed(from, to, e.kids[n - 1]);
        assert(uses_renamed(from, to, e).kids == kids_renamed(from, to, e));
    }
}

/// `e` with the first `n` renamings made, one after the other.
pub open spec fn all_renamed(rs: Seq<(NameS, NameS)>, n: nat, e: ExprS) -> ExprS
    decreases n,
{
    if n == 0 {
        e
    } else {
        uses_renamed(rs[n - 1].0, rs[n - 1].1, all_renamed(rs, (n - 1) as nat, e))
    }
}

pub proof fn lemma_size_all_renamed(rs: Seq<(NameS, NameS)>, n: nat, e: ExprS)
    ensures
        size(all_renamed(rs, n, e)) == size(e),
    decreases n,
{
    if n > 0 {
        lemma_size_all_renamed(rs, (n - 1) as nat, e);
        lemma_size_renamed(rs[n - 1].0, rs[n - 1].1, all_renamed(rs, (n - 1) as nat, e));
    }
}

/// What the first of the first `n` renamings of `a` makes of it.
pub open spec fn renamed_to(rs: Seq<(NameS, NameS)>, a: NameS, n: nat) -> Option<NameS>
    decreases n,
{
    if n == 0 {
        None
    } else {
        match renamed_to(rs, a, (n - 1) as nat) {
            Some(x) => Some(x),
            None => if rs[n - 1].0 == a { Some(rs[n - 1].1) } else { None },
        }
    }
}

/// The accumulators of a fold that a decision reads, added to `accs`. Each has a
/// final value.
pub open spec fn with_accs(
    f: FoldS,
    cross_reads: Seq<NameS>,
    accs: Map<NameS, AccS>,
    n: nat,
) -> Option<Map<NameS, AccS>>
    decreases n,
{
    if n == 0 {
        Some(accs)
    } else {
        let a = f.accs[n - 1];
        match with_accs(f, cross_reads, accs, (n - 1) as nat) {
            Some(m) => if cross_reads.contains(a.name) {
                match renamed_to(f.renames, a.name, f.renames.len()) {
                    Some(x) => Some(
                        m.insert(
                            a.name,
                            AccS { view: a.view, value_ty: a.value_ty, final_var: x },
                        ),
                    ),
                    None => None,
                }
            } else {
                Some(m)
            },
            None => None,
        }
    }
}

/// A loop that is to be folded, and what comes behind it.
pub struct LoopToFoldS {
    pub target: NameS,
    pub target_ty: TypeS,
    pub iter: ExprS,
    pub body: ExprS,
    pub rest: ExprS,
}

/// How far folding the loops of a program came.
pub enum FoldedS {
    /// All are folded.
    Done(ExprS, CrossS),
    /// This one is next.
    Needs(LoopToFoldS),
    /// An accumulator that a decision reads has no final value.
    Broken,
}

/// Whether `e` runs a loop that writes one of the names.
pub open spec fn runs_cross_loop(e: ExprS, cross_reads: Seq<NameS>) -> bool {
    &&& e.head is ExprStmt
    &&& e.kids.len() == 2
    &&& e.kids[0].head is For
    &&& e.kids[0].kids.len() == 2
    &&& shows(SignS::Writes(cross_reads), e.kids[0].kids[1])
}

/// `e` without the loops whose accumulators the names are, each replaced by its
/// fold.
pub open spec fn folded_loops(
    e: ExprS,
    cross_reads: Seq<NameS>,
    folds: Seq<FoldS>,
    acc: CrossS,
) -> FoldedS
    decreases size(e), e.kids.len() + 1,
    via folded_loops_decreases
{
    if runs_cross_loop(e, cross_reads) {
        let l = e.kids[0];
        if acc.folded < folds.len() {
            let f = folds[acc.folded as int];
            match with_accs(f, cross_reads, acc.accs, f.accs.len()) {
                Some(accs) => folded_loops(
                    all_renamed(f.renames, f.renames.len(), e.kids[1]),
                    cross_reads,
                    folds,
                    CrossS {
                        bindings: acc.bindings.push(f.binding),
                        reads: acc.reads + f.reads,
                        feeds: acc.feeds + f.feeds,
                        accs,
                        folded: acc.folded + 1,
                    },
                ),
                None => FoldedS::Broken,
            }
        } else {
            FoldedS::Needs(
                LoopToFoldS {
                    target: l.head->For_0,
                    target_ty: l.tys[lead(l)],
                    iter: l.kids[0],
                    body: l.kids[1],
                    rest: e.kids[1],
                },
            )
        }
    } else {
        match folded_upto(e, cross_reads, folds, acc, e.kids.len()) {
            FoldedKidsS::Done(ks, a) => FoldedS::Done(with_kids(e, ks), a),
            FoldedKidsS::Needs(l) => FoldedS::Needs(l),
            FoldedKidsS::Broken => FoldedS::Broken,
        }
    }
}

pub enum FoldedKidsS {
    Done(Seq<ExprS>, CrossS),
    Needs(LoopToFoldS),
    Broken,
}

/// What becomes of the first `n` subterms of `e`.
pub open spec fn folded_upto(
    e: ExprS,
    cross_reads: Seq<NameS>,
    folds: Seq<FoldS>,
    acc: CrossS,
    n: nat,
) -> FoldedKidsS
    decreases size(e), n,
    via folded_upto_decreases
{
    if n == 0 || n > e.kids.len() {
        FoldedKidsS::Done(Seq::empty(), acc)
    } else {
        match folded_upto(e, cross_reads, folds, acc, (n - 1) as nat) {
            FoldedKidsS::Done(ks, a) => match folded_loops(e.kids[n - 1], cross_reads, folds, a) {
                FoldedS::Done(k, b) => FoldedKidsS::Done(ks.push(k), b),
                FoldedS::Needs(l) => FoldedKidsS::Needs(l),
                FoldedS::Broken => FoldedKidsS::Broken,
            },
            other => other,
        }
    }
}

#[via_fn]
proof fn folded_loops_decreases(
    e: ExprS,
    cross_reads: Seq<NameS>,
    folds: Seq<FoldS>,
    acc: CrossS,
) {
    if runs_cross_loop(e, cross_reads) && acc.folded < folds.len() {
        let f = folds[acc.folded as int];
        lemma_size_kid(e, 1);
        lemma_size_all_renamed(f.renames, f.renames.len(), e.kids[1]);
    }
}

#[via_fn]
proof fn folded_upto_decreases(
    e: ExprS,
    cross_reads: Seq<NameS>,
    folds: Seq<FoldS>,
    acc: CrossS,
    n: nat,
) {
    if 0 < n <= e.kids.len() {
        lemma_size_kid(e, n - 1);
    }
}

proof fn lemma_folded_stops(
    e: ExprS,
    cross_reads: Seq<NameS>,
    folds: Seq<FoldS>,
    acc: CrossS,
    i: nat,
    n: nat,
)
    requires
        0 < i <= n <= e.kids.len(),
        !(folded_upto(e, cross_reads, folds, acc, i) is Done),
    ensures
        folded_upto(e, cross_reads, folds, acc, n) == folded_upto(e, cross_reads, folds, acc, i),
    decreases n,
{
    if i < n {
        lemma_folded_stops(e, cross_reads, folds, acc, i, (n - 1) as nat);
    }
}

// ---- the executable side ----

pub struct LoopToFold {
    pub target: TypedBinding,
    pub iter: Expr,
    pub body: Expr,
    pub rest: Expr,
}

impl LoopToFold {
    pub open spec fn view(&self) -> LoopToFoldS {
        LoopToFoldS {
            target: self.target.name@,
            target_ty: self.target.ty.view(),
            iter: self.iter.view(),
            body: self.body.view(),
            rest: self.rest.view(),
        }
    }
}

pub enum Folded {
    Done(Expr),
    Needs(LoopToFold),
    Broken,
}

fn final_of(renames: &Vec<(Name, Name)>, a: &Name) -> (r: Option<Name>)
    ensures
        opt_name_view(r) == renamed_to(renames_view(renames@), a@, renames@.len()),
{
    let ghost rv = renames_view(renames@);
    let mut found: Option<Name> = None;
    let mut i: usize = 0;
    while i < renames.len()
        invariant
            i <= renames.len(),
            rv == renames_view(renames@),
            opt_name_view(found) == renamed_to(rv, a@, i as nat),
        decreases renames.len() - i,
    {
        assert(rv[i as int] == (renames@[i as int].0@, renames@[i as int].1@));
        if found.is_none() && renames[i].0.same(a) {
            found = Some(renames[i].1.clone());
        }
        i = i + 1;
    }
    found
}

#[verifier::loop_isolation(false)]
fn add_accs(f: &LoopFold, cross_reads: &Vec<Name>, accs: NameMap<CrossAcc>) -> (r: Option<
    NameMap<CrossAcc>,
>)
    ensures
        match with_accs(
            f.view(),
            names_view(cross_reads@),
            accs_view(accs.view()),
            f.view().accs.len(),
        ) {
            Some(m) => (r matches Some(x) && accs_view(x.view()) == m),
            None => r is None,
        },
{
    let ghost fv = f.view();
    let ghost cv = names_view(cross_reads@);
    let ghost start = accs_view(accs.view());
    let mut out = accs;
    let mut i: usize = 0;
    while i < f.accs.len()
        invariant
            i <= f.accs.len(),
            with_accs(fv, cv, start, i as nat) == Some(accs_view(out.view())),
        decreases f.accs.len() - i,
    {
        let a = &f.accs[i];
        assert(fv.accs[i as int] == a.value());
        if has_name(cross_reads, &a.name) {
            match final_of(&f.renames, &a.name) {
                Some(x) => {
                    let acc = CrossAcc {
                        view: a.view.clone(),
                        value_ty: a.value_ty.clone(),
                        final_var: x,
                    };
                    let ghost before = out.view();
                    out = out.inserted(a.name.clone(), acc);
                    assert(accs_view(out.view()) =~= accs_view(before).insert(
                        a.name@,
                        acc.value(),
                    ));
                },
                None => {
                    proof {
                        lemma_accs_stop(fv, cv, start, (i + 1) as nat, fv.accs.len());
                    }
                    return None;
                },
            }
        }
        i = i + 1;
    }
    Some(out)
}

proof fn lemma_accs_stop(
    f: FoldS,
    cross_reads: Seq<NameS>,
    accs: Map<NameS, AccS>,
    i: nat,
    n: nat,
)
    requires
        i <= n,
        with_accs(f, cross_reads, accs, i) is None,
    ensures
        with_accs(f, cross_reads, accs, n) is None,
    decreases n,
{
    if i < n {
        lemma_accs_stop(f, cross_reads, accs, i, (n - 1) as nat);
    }
}

fn rename_all(renames: &Vec<(Name, Name)>, e: &Expr) -> (r: Expr)
    ensures
        r.view() == all_renamed(renames_view(renames@), renames@.len(), e.view()),
{
    let ghost rv = renames_view(renames@);
    let mut out = e.clone();
    let mut i: usize = 0;
    while i < renames.len()
        invariant
            i <= renames.len(),
            rv == renames_view(renames@),
            out.view() == all_renamed(rv, i as nat, e.view()),
        decreases renames.len() - i,
    {
        assert(rv[i as int] == (renames@[i as int].0@, renames@[i as int].1@));
        out = rename_var_uses(&out, &renames[i].0, &renames[i].1);
        i = i + 1;
    }
    out
}

pub fn clone_defs(v: &Vec<(TypedBinding, Expr)>) -> (r: Vec<(TypedBinding, Expr)>)
    ensures
        defs_view(r@) == defs_view(v@),
{
    let mut out: Vec<(TypedBinding, Expr)> = Vec::new();
    let mut i: usize = 0;
    while i < v.len()
        invariant
            i <= v.len(),
            out.len() == i,
            forall|j: int| 0 <= j < i ==> def_view(#[trigger] out@[j]) == def_view(v@[j]),
        decreases v.len() - i,
    {
        out.push((v[i].0.clone(), v[i].1.clone()));
        i = i + 1;
    }
    assert(defs_view(out@) =~= defs_view(v@));
    out
}

pub fn clone_feeds(v: &Vec<(Name, Expr)>) -> (r: Vec<(Name, Expr)>)
    ensures
        feeds_view(r@) == feeds_view(v@),
{
    let mut out: Vec<(Name, Expr)> = Vec::new();
    let mut i: usize = 0;
    while i < v.len()
        invariant
            i <= v.len(),
            out.len() == i,
            forall|j: int|
                0 <= j < i ==> (#[trigger] out@[j]).0@ == v@[j].0@ && out@[j].1.view()
                    == v@[j].1.view(),
        decreases v.len() - i,
    {
        out.push((v[i].0.clone(), v[i].1.clone()));
        i = i + 1;
    }
    assert(feeds_view(out@) =~= feeds_view(v@));
    out
}

fn add_fold(f: &LoopFold, cross_reads: &Vec<Name>, acc: CrossDomain) -> (r: Option<CrossDomain>)
    requires
        acc.folded < usize::MAX,
    ensures
        match with_accs(
            f.view(),
            names_view(cross_reads@),
            acc.view().accs,
            f.view().accs.len(),
        ) {
            Some(accs) => (r matches Some(x) && x.view() == (CrossS {
                bindings: acc.view().bindings.push(f.view().binding),
                reads: acc.view().reads + f.view().reads,
                feeds: acc.view().feeds + f.view().feeds,
                accs,
                folded: acc.view().folded + 1,
            })),
            None => r is None,
        },
{
    let ghost av = acc.view();
    let ghost fv = f.view();
    let CrossDomain { bindings, reads, feeds, acc_views, folded } = acc;
    match add_accs(f, cross_reads, acc_views) {
        Some(accs) => {
            let mut bindings = bindings;
            let mut reads = reads;
            let mut feeds = feeds;
            let mut more_reads = clone_defs(&f.reads);
            let mut more_feeds = clone_feeds(&f.feed_views);
            let ghost b0 = bindings@;
            let ghost r0 = reads@;
            let ghost f0 = feeds@;
            let ghost r1 = more_reads@;
            let ghost f1 = more_feeds@;
            bindings.push((f.binding.0.clone(), f.binding.1.clone()));
            reads.append(&mut more_reads);
            feeds.append(&mut more_feeds);
            assert(defs_view(bindings@) =~= defs_view(b0).push(fv.binding));
            assert(defs_view(reads@) =~= defs_view(r0) + defs_view(r1));
            assert(feeds_view(feeds@) =~= feeds_view(f0) + feeds_view(f1));
            Some(
                CrossDomain { bindings, reads, feeds, acc_views: accs, folded: folded + 1 },
            )
        },
        None => None,
    }
}

/// Replaces the loops whose accumulators are among the names by their folds.
pub fn fold_cross_domain_loops(
    e: &Expr,
    cross_reads: &Vec<Name>,
    folds: &Vec<LoopFold>,
    acc: CrossDomain,
) -> (r: (Folded, CrossDomain))
    ensures
        match folded_loops(
            e.view(),
            names_view(cross_reads@),
            folds_view(folds@),
            acc.view(),
        ) {
            FoldedS::Done(t, c) => (r.0 matches Folded::Done(x) && x.view() == t) && r.1.view()
                == c,
            FoldedS::Needs(l) => (r.0 matches Folded::Needs(x) && x.view() == l),
            FoldedS::Broken => r.0 is Broken,
        },
    decreases size(e.view()), 1int,
{
    let ghost ev = e.view();
    let ghost cv = names_view(cross_reads@);
    let ghost fv = folds_view(folds@);
    match &e.node {
        TypedExprNode::ExprStmt { expr, body: rest } => {
            assert(ev.kids[0] == expr.view());
            assert(ev.kids[1] == rest.view());
            match &expr.node {
                TypedExprNode::For { target, iter, body } => {
                    assert(ev.kids[0].kids[0] == iter.view());
                    assert(ev.kids[0].kids[1] == body.view());
                    assert(ev.kids[0].tys[lead(ev.kids[0])] == target.ty.view());
                    if occurs(&Sign::Writes(cross_reads), body) {
                        if acc.folded < folds.len() {
                            let f = &folds[acc.folded];
                            assert(fv[acc.folded as int] == f.view());
                            assert(f.view().renames == renames_view(f.renames@));
                            assert(f.view().renames.len() == f.renames@.len());
                            proof {
                                lemma_size_kid(ev, 1);
                                lemma_size_all_renamed(
                                    f.view().renames,
                                    f.view().renames.len(),
                                    ev.kids[1],
                                );
                            }
                            return match add_fold(f, cross_reads, acc) {
                                Some(a) => {
                                    let renamed = rename_all(&f.renames, rest);
                                    fold_cross_domain_loops(&renamed, cross_reads, folds, a)
                                },
                                None => (Folded::Broken, CrossDomain::new()),
                            };
                        }
                        let l = LoopToFold {
                            target: target.clone(),
                            iter: (**iter).clone(),
                            body: (**body).clone(),
                            rest: (**rest).clone(),
                        };
                        return (Folded::Needs(l), acc);
                    }
                },
                _ => {},
            }
        },
        _ => {},
    }
    assert(!runs_cross_loop(ev, cv));
    fold_kids(e, cross_reads, folds, acc)
}

#[verifier::loop_isolation(false)]
fn fold_kids(e: &Expr, cross_reads: &Vec<Name>, folds: &Vec<LoopFold>, acc: CrossDomain) -> (r: (
    Folded,
    CrossDomain,
))
    ensures
        match folded_upto(
            e.view(),
            names_view(cross_reads@),
            folds_view(folds@),
            acc.view(),
            e.view().kids.len(),
        ) {
            FoldedKidsS::Done(ks, c) => (r.0 matches Folded::Done(x) && x.view() == with_kids(
                e.view(),
                ks,
            )) && r.1.view() == c,
            FoldedKidsS::Needs(l) => (r.0 matches Folded::Needs(x) && x.view() == l),
            FoldedKidsS::Broken => r.0 is Broken,
        },
    decreases size(e.view()), 0int,
{
    let ghost ev = e.view();
    let ghost cv = names_view(cross_reads@);
    let ghost fv = folds_view(folds@);
    let ghost start = acc.view();
    let mut acc = acc;
    let kids = e.children();
    assert(kids@.len() == ev.kids.len());
    let mut ks: Vec<Expr> = Vec::new();
    let mut i: usize = 0;
    assert(exprs_view(ks@) =~= Seq::empty());
    while i < kids.len()
        invariant
            i <= kids.len(),
            ks.len() == i,
            folded_upto(ev, cv, fv, start, i as nat) == FoldedKidsS::Done(
                exprs_view(ks@),
                acc.view(),
            ),
        decreases kids.len() - i,
    {
        assert(kids@[i as int].view() == ev.kids[i as int]);
        proof {
            lemma_size_kid(ev, i as int);
        }
        let ghost before = ks@;
        let (k, a) = fold_cross_domain_loops(kids[i], cross_reads, folds, acc);
        match k {
            Folded::Done(x) => {
                ks.push(x);
                assert(exprs_view(ks@) =~= exprs_view(before).push(x.view()));
                acc = a;
            },
            other => {
                proof {
                    lemma_folded_stops(ev, cv, fv, start, (i + 1) as nat, ev.kids.len());
                }
                return (other, a);
            },
        }
        i = i + 1;
    }
    (Folded::Done(e.with_children(ks)), acc)
}

} // verus!
