//! Taking the transaction blocks out of a program.
use vstd::prelude::*;
use crate::ast::{Expr, ExprS, HeadS, LitS, TypeS, TypedBinding, TypedExprNode, exprs_view};
use crate::block::{
    collect_footprint, footprint_of, partition_block, prepend_effects, prepended, splice_block,
    spliced, split_block,
};
use crate::make::stmt_s;
use crate::name::{Name, NameS, clone_names, names_view};
use crate::partition::{RawSite, SiteS, name_lists_view, sites_view};
use crate::probe::{Pick, PickS, Sign, SignS, gather, gathered, occurs, shows};
use crate::symbolic::lead;
use crate::tree::with_kids;
use crate::txn_terms::exprs2;

verus! {

/// A loop that a block stands in.
pub struct LoopS {
    pub target: NameS,
    pub target_ty: TypeS,
    pub source: ExprS,
    /// What its body writes beside the transactional variables.
    pub writes: Seq<NameS>,
}

/// What was taken out of a program: the writing blocks, and what the blocks that
/// only read read together.
pub struct HarvestS {
    pub sites: Seq<SiteS>,
    pub read_only: Seq<Seq<NameS>>,
}

/// How many transaction blocks `e` holds.
pub open spec fn begins(e: ExprS) -> nat
    decreases e, e.kids.len() + 1,
{
    (if e.head is Begin { 1nat } else { 0nat }) + begins_upto(e, e.kids.len())
}

pub open spec fn begins_upto(e: ExprS, n: nat) -> nat
    decreases e, n,
{
    if n == 0 || n > e.kids.len() {
        0
    } else {
        begins_upto(e, (n - 1) as nat) + begins(e.kids[n - 1])
    }
}

/// How many transaction blocks the terms hold together.
spec fn begins_all(es: Seq<ExprS>) -> nat
    decreases es.len(),
{
    if es.len() == 0 {
        0
    } else {
        begins_all(es.drop_last()) + begins(es.last())
    }
}

proof fn lemma_begins_upto(e: ExprS, n: nat, i: int)
    requires
        0 <= i < n <= e.kids.len(),
    ensures
        begins(e.kids[i]) <= begins_upto(e, n),
    decreases n,
{
    if i < n - 1 {
        lemma_begins_upto(e, (n - 1) as nat, i);
    }
}

pub proof fn lemma_begins_kid(e: ExprS, i: int)
    requires
        0 <= i < e.kids.len(),
    ensures
        begins(e.kids[i]) <= begins(e),
        e.head is Begin ==> begins(e.kids[i]) < begins(e),
{
    lemma_begins_upto(e, e.kids.len(), i);
}

proof fn lemma_begins_two(e: ExprS)
    requires
        e.kids.len() == 2,
        !(e.head is Begin),
    ensures
        begins(e) == begins(e.kids[0]) + begins(e.kids[1]),
{
    assert(begins_upto(e, 0) == 0);
    assert(begins_upto(e, 1) == begins(e.kids[0]));
    assert(begins_upto(e, 2) == begins_upto(e, 1) + begins(e.kids[1]));
}

proof fn lemma_begins_prepended(es: Seq<ExprS>, rest: ExprS)
    ensures
        begins(prepended(es, rest)) == begins_all(es) + begins(rest),
    decreases es.len(),
{
    if es.len() > 0 {
        let s = stmt_s(es.last(), rest, rest.ty());
        lemma_begins_two(s);
        lemma_begins_prepended(es.drop_last(), s);
    }
}

proof fn lemma_begins_spliced(block: ExprS, rest: ExprS)
    ensures
        spliced(block, rest) matches Some(s) ==> begins(s) <= begins(block) + begins(rest),
    decreases block,
{
    if let Some(s) = spliced(block, rest) {
        match block.head {
            HeadS::Lit(LitS::Unit) => {},
            HeadS::ExprStmt => {
                lemma_begins_spliced(block.kids[1], rest);
                lemma_begins_two(block);
                lemma_begins_two(s);
            },
            HeadS::Let(n) => {
                lemma_begins_spliced(block.kids[1], rest);
                lemma_begins_two(block);
                lemma_begins_two(s);
            },
            HeadS::MutDecl(n) => {},
            _ => {
                lemma_begins_two(s);
            },
        }
    }
}

proof fn lemma_begins_split(e: ExprS, txn: Seq<NameS>)
    ensures
        split_block(e, txn) matches Some((b, lifted)) ==> begins_all(lifted) + begins(b)
            == begins(e),
    decreases e,
{
    if let Some((b, lifted)) = split_block(e, txn) {
        match e.head {
            HeadS::ExprStmt => {
                lemma_begins_split(e.kids[1], txn);
                lemma_begins_two(e);
                if let Some((b1, l1)) = split_block(e.kids[1], txn) {
                    if e.kids[0].head matches HeadS::MutWrite(n) && !txn.contains(n) {
                        lemma_begins_front(e.kids[0], l1);
                    } else {
                        lemma_begins_two(with_kids(e, seq![e.kids[0], b1]));
                    }
                }
            },
            HeadS::Let(n) => {
                lemma_begins_split(e.kids[1], txn);
                lemma_begins_two(e);
                if let Some((b1, l1)) = split_block(e.kids[1], txn) {
                    lemma_begins_two(with_kids(e, seq![e.kids[0], b1]));
                }
            },
            _ => {},
        }
    }
}

proof fn lemma_begins_front(a: ExprS, es: Seq<ExprS>)
    ensures
        begins_all(seq![a] + es) == begins(a) + begins_all(es),
    decreases es.len(),
{
    let whole = seq![a] + es;
    if es.len() == 0 {
        assert(whole.drop_last() =~= Seq::empty());
        assert(begins_all(whole.drop_last()) == 0);
    } else {
        assert(whole.drop_last() =~= seq![a] + es.drop_last());
        lemma_begins_front(a, es.drop_last());
    }
}

/// Whether `e` runs a transaction block, then the rest.
pub open spec fn runs_block(e: ExprS) -> bool {
    e.head is ExprStmt && e.kids.len() == 2 && e.kids[0].head is Begin && e.kids[0].kids.len() == 1
}

/// The site that a writing block in a loop gives.
pub open spec fn site_of(l: LoopS, block: ExprS, txn: Seq<NameS>) -> SiteS {
    let fp = footprint_of(txn, block);
    SiteS {
        target: l.target,
        target_ty: l.target_ty,
        source: l.source,
        block,
        read_keys: fp.read_keys,
        write_keys: fp.write_keys,
        enclosing_writes: l.writes,
    }
}

/// The harvest with what a block that only reads reads, if it reads several.
pub open spec fn with_reads(acc: HarvestS, reads: Seq<NameS>) -> HarvestS {
    if reads.len() > 1 {
        HarvestS { read_only: acc.read_only.push(reads), ..acc }
    } else {
        acc
    }
}

/// `e` without its transaction blocks, and what they were. A writing block leaves
/// behind the writes that are no part of its commit; one that only reads runs in
/// place. A writing block stands in a loop, and no block declares a mutable
/// variable.
pub open spec fn stripped(
    e: ExprS,
    txn: Seq<NameS>,
    enclosing: Option<LoopS>,
    acc: HarvestS,
) -> Option<(ExprS, HarvestS)>
    decreases begins(e), e, e.kids.len() + 1,
    via stripped_decreases
{
    if runs_block(e) {
        let block = e.kids[0].kids[0];
        let rest = e.kids[1];
        if shows(SignS::Writes(txn), block) {
            match (enclosing, split_block(block, txn)) {
                (Some(l), Some((b, lifted))) => stripped(
                    prepended(lifted, rest),
                    txn,
                    enclosing,
                    HarvestS { sites: acc.sites.push(site_of(l, b, txn)), ..acc },
                ),
                _ => None,
            }
        } else {
            match spliced(block, rest) {
                Some(s) => stripped(
                    s,
                    txn,
                    enclosing,
                    with_reads(acc, footprint_of(txn, block).read_keys),
                ),
                None => None,
            }
        }
    } else if e.head is For && e.kids.len() == 2 {
        match stripped(e.kids[0], txn, enclosing, acc) {
            Some((source, a)) => {
                let l = LoopS {
                    target: e.head->For_0,
                    target_ty: e.tys[lead(e)],
                    source,
                    writes: gathered(PickS::WrittenBeyond(txn), e.kids[1]),
                };
                match stripped(e.kids[1], txn, Some(l), a) {
                    Some((body, b)) => Some((with_kids(e, seq![source, body]), b)),
                    None => None,
                }
            },
            None => None,
        }
    } else {
        match stripped_upto(e, txn, enclosing, acc, e.kids.len()) {
            Some((ks, a)) => Some((with_kids(e, ks), a)),
            None => None,
        }
    }
}

/// What becomes of the first `n` subterms of `e`.
pub open spec fn stripped_upto(
    e: ExprS,
    txn: Seq<NameS>,
    enclosing: Option<LoopS>,
    acc: HarvestS,
    n: nat,
) -> Option<(Seq<ExprS>, HarvestS)>
    decreases begins(e), e, n,
    via stripped_upto_decreases
{
    if n == 0 || n > e.kids.len() {
        Some((Seq::empty(), acc))
    } else {
        match stripped_upto(e, txn, enclosing, acc, (n - 1) as nat) {
            Some((ks, a)) => match stripped(e.kids[n - 1], txn, enclosing, a) {
                Some((k, b)) => Some((ks.push(k), b)),
                None => None,
            },
            None => None,
        }
    }
}

pub proof fn lemma_block_begins(e: ExprS, txn: Seq<NameS>)
    requires
        runs_block(e),
    ensures
        split_block(e.kids[0].kids[0], txn) matches Some((b, lifted)) ==> begins(
            prepended(lifted, e.kids[1]),
        ) < begins(e),
        spliced(e.kids[0].kids[0], e.kids[1]) matches Some(s) ==> begins(s) < begins(e),
{
    let block = e.kids[0].kids[0];
    lemma_begins_two(e);
    lemma_begins_kid(e.kids[0], 0);
    lemma_begins_split(block, txn);
    lemma_begins_spliced(block, e.kids[1]);
    if let Some((b, lifted)) = split_block(block, txn) {
        lemma_begins_prepended(lifted, e.kids[1]);
    }
}

#[via_fn]
proof fn stripped_decreases(
    e: ExprS,
    txn: Seq<NameS>,
    enclosing: Option<LoopS>,
    acc: HarvestS,
) {
    if runs_block(e) {
        lemma_block_begins(e, txn);
    } else if e.head is For && e.kids.len() == 2 {
        lemma_begins_kid(e, 0);
        lemma_begins_kid(e, 1);
        assert(decreases_to!(e => e.kids[0]));
        assert(decreases_to!(e => e.kids[1]));
    }
}

#[via_fn]
proof fn stripped_upto_decreases(
    e: ExprS,
    txn: Seq<NameS>,
    enclosing: Option<LoopS>,
    acc: HarvestS,
    n: nat,
) {
    if 0 < n <= e.kids.len() {
        lemma_begins_kid(e, n - 1);
        assert(decreases_to!(e => e.kids[n - 1]));
    }
}

proof fn lemma_stripped_none(
    e: ExprS,
    txn: Seq<NameS>,
    enclosing: Option<LoopS>,
    acc: HarvestS,
    i: nat,
    n: nat,
)
    requires
        0 < i <= n <= e.kids.len(),
        stripped_upto(e, txn, enclosing, acc, i) is None,
    ensures
        stripped_upto(e, txn, enclosing, acc, n) is None,
    decreases n,
{
    if i < n {
        lemma_stripped_none(e, txn, enclosing, acc, i, (n - 1) as nat);
    }
}

// ---- the executable side ----

pub struct Enclosing<'a> {
    pub target: &'a TypedBinding,
    pub source: &'a Expr,
    pub writes: &'a Vec<Name>,
}

pub open spec fn opt_loop_view(l: Option<&Enclosing>) -> Option<LoopS> {
    match l {
        Some(x) => Some(
            LoopS {
                target: x.target.name@,
                target_ty: x.target.ty.view(),
                source: x.source.view(),
                writes: names_view(x.writes@),
            },
        ),
        None => None,
    }
}

pub struct Stripped {
    pub sites: Vec<RawSite>,
    pub read_only_footprints: Vec<Vec<Name>>,
}

impl Stripped {
    pub open spec fn view(&self) -> HarvestS {
        HarvestS {
            sites: sites_view(self.sites@),
            read_only: name_lists_view(self.read_only_footprints@),
        }
    }
}

/// Takes the transaction blocks out of `e`.
pub fn strip(
    e: &Expr,
    txn_mut_vars: &Vec<Name>,
    enclosing: Option<&Enclosing>,
    out: &mut Stripped,
) -> (r: Option<Expr>)
    ensures
        match stripped(
            e.view(),
            names_view(txn_mut_vars@),
            opt_loop_view(enclosing),
            old(out).view(),
        ) {
            Some((t, h)) => (r matches Some(x) && x.view() == t) && final(out).view() == h,
            None => r is None,
        },
    decreases begins(e.view()), e.view(), 1int,
{
    let ghost ev = e.view();
    let ghost txn = names_view(txn_mut_vars@);
    let ghost acc = out.view();
    match &e.node {
        TypedExprNode::ExprStmt { expr, body } => {
            assert(ev.kids[0] == expr.view());
            assert(ev.kids[1] == body.view());
            match &expr.node {
                TypedExprNode::Begin { body: block } => {
                    assert(ev.kids[0].kids[0] == block.view());
                    assert(runs_block(ev));
                    return strip_block(e, block, body, txn_mut_vars, enclosing, out);
                },
                _ => {},
            }
        },
        TypedExprNode::For { target, iter, body } => {
            assert(ev.kids[0] == iter.view());
            assert(ev.kids[1] == body.view());
            assert(ev.tys[lead(ev)] == target.ty.view());
            proof {
                lemma_begins_kid(ev, 0);
                lemma_begins_kid(ev, 1);
                assert(decreases_to!(ev => ev.kids[0]));
                assert(decreases_to!(ev => ev.kids[1]));
            }
            return match strip(iter, txn_mut_vars, enclosing, out) {
                Some(source) => {
                    let writes = gather(&Pick::WrittenBeyond(txn_mut_vars), body);
                    let l = Enclosing { target, source: &source, writes: &writes };
                    match strip(body, txn_mut_vars, Some(&l), out) {
                        Some(b) => {
                            let kids = exprs2(source, b);
                            Some(e.with_children(kids))
                        },
                        None => None,
                    }
                },
                None => None,
            };
        },
        _ => {},
    }
    strip_kids(e, txn_mut_vars, enclosing, out)
}

fn strip_block(
    e: &Expr,
    block: &Expr,
    rest: &Expr,
    txn_mut_vars: &Vec<Name>,
    enclosing: Option<&Enclosing>,
    out: &mut Stripped,
) -> (r: Option<Expr>)
    requires
        runs_block(e.view()),
        e.view().kids[0].kids[0] == block.view(),
        e.view().kids[1] == rest.view(),
    ensures
        match stripped(
            e.view(),
            names_view(txn_mut_vars@),
            opt_loop_view(enclosing),
            old(out).view(),
        ) {
            Some((t, h)) => (r matches Some(x) && x.view() == t) && final(out).view() == h,
            None => r is None,
        },
    decreases begins(e.view()), e.view(), 0int,
{
    let ghost ev = e.view();
    let ghost txn = names_view(txn_mut_vars@);
    let ghost acc = out.view();
    proof {
        lemma_block_begins(ev, txn);
    }
    if occurs(&Sign::Writes(txn_mut_vars), block) {
        match (enclosing, partition_block(block, txn_mut_vars)) {
            (Some(l), Some((b, lifted))) => {
                let (read_keys, write_keys) = collect_footprint(&b, txn_mut_vars);
                let new_rest = prepend_effects(lifted, rest.clone());
                let site = RawSite {
                    target: l.target.clone(),
                    source: l.source.clone(),
                    block: b,
                    read_keys,
                    write_keys,
                    enclosing_writes: clone_names(l.writes),
                };
                let ghost before = out.sites@;
                out.sites.push(site);
                assert(sites_view(out.sites@) =~= sites_view(before).push(site.view()));
                strip(&new_rest, txn_mut_vars, enclosing, out)
            },
            _ => None,
        }
    } else {
        let (reads, _) = collect_footprint(block, txn_mut_vars);
        if reads.len() > 1 {
            let ghost before = out.read_only_footprints@;
            out.read_only_footprints.push(reads);
            assert(name_lists_view(out.read_only_footprints@) =~= name_lists_view(before).push(
                names_view(reads@),
            ));
        }
        match splice_block(block, rest.clone()) {
            Some(s) => strip(&s, txn_mut_vars, enclosing, out),
            None => None,
        }
    }
}

#[verifier::loop_isolation(false)]
fn strip_kids(
    e: &Expr,
    txn_mut_vars: &Vec<Name>,
    enclosing: Option<&Enclosing>,
    out: &mut Stripped,
) -> (r: Option<Expr>)
    ensures
        match stripped_upto(
            e.view(),
            names_view(txn_mut_vars@),
            opt_loop_view(enclosing),
            old(out).view(),
            e.view().kids.len(),
        ) {
            Some((ks, h)) => (r matches Some(x) && x.view() == with_kids(e.view(), ks))
                && final(out).view() == h,
            None => r is None,
        },
    decreases begins(e.view()), e.view(), 0int,
{
    let ghost ev = e.view();
    let ghost txn = names_view(txn_mut_vars@);
    let ghost lv = opt_loop_view(enclosing);
    let ghost acc = out.view();
    let kids = e.children();
    assert(kids@.len() == ev.kids.len());
    let mut ks: Vec<Expr> = Vec::new();
    let mut i: usize = 0;
    assert(exprs_view(ks@) =~= Seq::empty());
    while i < kids.len()
        invariant
            i <= kids.len(),
            ks.len() == i,
            stripped_upto(ev, txn, lv, acc, i as nat) == Some((exprs_view(ks@), out.view())),
        decreases kids.len() - i,
    {
        assert(kids@[i as int].view() == ev.kids[i as int]);
        proof {
            lemma_begins_kid(ev, i as int);
            assert(decreases_to!(ev => ev.kids[i as int]));
        }
        let ghost before = ks@;
        match strip(kids[i], txn_mut_vars, enclosing, out) {
            Some(k) => {
                ks.push(k);
                assert(exprs_view(ks@) =~= exprs_view(before).push(k.view()));
            },
            None => {
                proof {
                    lemma_stripped_none(ev, txn, lv, acc, (i + 1) as nat, ev.kids.len());
                }
                return None;
            },
        }
        i = i + 1;
    }
    Some(e.with_children(ks))
}

} // verus!
