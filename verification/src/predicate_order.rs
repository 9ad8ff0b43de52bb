//! The order in which a set of restrictions is applied: each one after those
//! whose narrowing it reads, the rest by how they read.

use vstd::prelude::*;
use crate::ast::{Expr, ExprS, Refinement, Type, TypeS, predicates_view};
use crate::kind::{BoundsS, KindVars};
use crate::refinement_set::{RefinementSet, set_has, set_insert};
use crate::render::{symbolic, symbolic_s};
use crate::text::{text_before, text_lt};
use crate::tree::{expr_refs_view, type_refs_view};
use crate::type_forms::refined_ty;

verus! {

/// Whether `t` holds something restricted by `p`.
pub open spec fn narrowed_by(t: TypeS, p: ExprS) -> bool
    decreases t,
{
    (t.head is Refinement && set_has(t.preds, p)) || exists|i: int|
        0 <= i < t.kids.len() && narrowed_by(#[trigger] t.kids[i], p)
}

/// Whether the predicate `e` reads something restricted by `p`.
pub open spec fn reads_narrowed(e: ExprS, p: ExprS) -> bool
    decreases e,
{
    (exists|i: int| 0 <= i < e.tys.len() && narrowed_by(#[trigger] e.tys[i], p)) || exists|i: int|
        0 <= i < e.kids.len() && reads_narrowed(#[trigger] e.kids[i], p)
}

/// `order` with the position `x` put before the first whose text comes after
/// its own.
pub open spec fn placed_by_text(order: Seq<usize>, texts: Seq<Seq<char>>, x: usize) -> Seq<usize>
    decreases order.len(),
{
    if order.len() > 0 && text_lt(texts[x as int], texts[order.last() as int]) {
        placed_by_text(order.drop_last(), texts, x).push(order.last())
    } else {
        order.push(x)
    }
}

/// The positions of the first `n` texts, in the order of the texts.
pub open spec fn by_text(texts: Seq<Seq<char>>, n: nat) -> Seq<usize>
    decreases n,
{
    if n == 0 {
        Seq::empty()
    } else {
        placed_by_text(by_text(texts, (n - 1) as nat), texts, (n - 1) as usize)
    }
}

/// Whether the predicate at place `k` of `order` reads the narrowing of another.
pub open spec fn waits(order: Seq<usize>, preds: Seq<ExprS>, k: int) -> bool {
    exists|j: int|
        0 <= j < order.len() && j != k && reads_narrowed(
            preds[order[k] as int],
            preds[#[trigger] order[j] as int],
        )
}

/// The first place at `k` or after it that waits for no other, or the first of
/// all.
pub open spec fn ready_from(order: Seq<usize>, preds: Seq<ExprS>, k: int) -> int
    decreases order.len() - k,
{
    if k < 0 || k >= order.len() {
        0
    } else if !waits(order, preds, k) {
        k
    } else {
        ready_from(order, preds, k + 1)
    }
}

/// The positions of `order`, each after those whose narrowing it reads.
pub open spec fn arranged(order: Seq<usize>, preds: Seq<ExprS>) -> Seq<usize>
    decreases order.len(),
    via arranged_ends
{
    if order.len() == 0 {
        Seq::empty()
    } else {
        let k = ready_from(order, preds, 0);
        seq![order[k]] + arranged(order.remove(k), preds)
    }
}

#[via_fn]
proof fn arranged_ends(order: Seq<usize>, preds: Seq<ExprS>) {
    if order.len() > 0 {
        lemma_ready_within(order, preds, 0);
    }
}

pub proof fn lemma_ready_within(order: Seq<usize>, preds: Seq<ExprS>, k: int)
    requires
        order.len() > 0,
    ensures
        0 <= ready_from(order, preds, k) < order.len(),
    decreases order.len() - k,
{
    if 0 <= k < order.len() && waits(order, preds, k) {
        lemma_ready_within(order, preds, k + 1);
    }
}

pub open spec fn texts_of(kinds: Seq<BoundsS>, preds: Seq<ExprS>) -> Seq<Seq<char>> {
    Seq::new(preds.len(), |i: int| symbolic_s(kinds, preds[i]))
}

/// The positions of `preds` in the order they are applied.
pub open spec fn dependency_order_s(kinds: Seq<BoundsS>, preds: Seq<ExprS>) -> Seq<usize> {
    arranged(by_text(texts_of(kinds, preds), preds.len()), preds)
}

/// The restrictions in force once the first `n` of `order` are applied.
pub open spec fn applied(preds: Seq<ExprS>, order: Seq<usize>, n: nat) -> Seq<ExprS>
    decreases n,
{
    if n == 0 {
        Seq::empty()
    } else {
        set_insert(applied(preds, order, (n - 1) as nat), preds[order[n - 1] as int])
    }
}

/// The type of an element where place `k` of `order` applies.
pub open spec fn element_ty(base: TypeS, preds: Seq<ExprS>, order: Seq<usize>, k: int) -> TypeS {
    refined_ty(base, applied(preds, order, k as nat))
}

/// Whether `order` holds each of the first `n` positions once.
pub open spec fn permutes(order: Seq<usize>, n: nat) -> bool {
    &&& order.len() == n
    &&& order.no_duplicates()
    &&& forall|i: int| 0 <= i < order.len() ==> (#[trigger] order[i] as int) < n
}

pub proof fn lemma_placed(order: Seq<usize>, texts: Seq<Seq<char>>, x: usize)
    ensures
        placed_by_text(order, texts, x).to_multiset() == order.to_multiset().insert(x),
        placed_by_text(order, texts, x).len() == order.len() + 1,
    decreases order.len(),
{
    broadcast use vstd::seq_lib::group_to_multiset_ensures;

    if order.len() > 0 && text_lt(texts[x as int], texts[order.last() as int]) {
        let d = order.drop_last();
        lemma_placed(d, texts, x);
        assert(order =~= d.push(order.last()));
        assert(placed_by_text(order, texts, x).to_multiset() =~= order.to_multiset().insert(x));
    }
}

pub proof fn lemma_by_text(texts: Seq<Seq<char>>, n: nat)
    requires
        n <= usize::MAX,
    ensures
        permutes(by_text(texts, n), n),
    decreases n,
{
    broadcast use vstd::seq_lib::group_to_multiset_ensures;

    if n > 0 {
        let m = (n - 1) as nat;
        let prev = by_text(texts, m);
        let x = m as usize;
        let next = by_text(texts, n);
        lemma_by_text(texts, m);
        lemma_placed(prev, texts, x);
        prev.lemma_multiset_has_no_duplicates();
        assert(!prev.contains(x)) by {
            if prev.contains(x) {
                let i = choose|i: int| 0 <= i < prev.len() && prev[i] == x;
                assert((prev[i] as int) < m);
            }
        }
        assert(next.to_multiset() =~= prev.to_multiset().insert(x));
        lemma_once(next);
        assert forall|i: int| 0 <= i < next.len() implies (#[trigger] next[i] as int) < n by {
            assert(next.contains(next[i]));
            assert(next.to_multiset().count(next[i]) > 0);
            if next[i] != x {
                assert(prev.to_multiset().count(next[i]) > 0);
                assert(prev.contains(next[i]));
                let j = choose|j: int| 0 <= j < prev.len() && prev[j] == next[i];
                assert((prev[j] as int) < m);
            }
        }
    }
}

/// A sequence whose multiset holds each item once holds each item once.
proof fn lemma_once(s: Seq<usize>)
    requires
        forall|x: usize| #[trigger] s.to_multiset().count(x) <= 1,
    ensures
        s.no_duplicates(),
{
    broadcast use vstd::seq_lib::group_to_multiset_ensures;

    assert forall|i: int, j: int| 0 <= i < s.len() && 0 <= j < s.len() && i != j implies s[i]
        != s[j] by {
        if s[i] == s[j] {
            let a = if i < j { i } else { j };
            let b = if i < j { j } else { i };
            let rest = s.remove(b);
            assert(rest[a] == s[a]);
            assert(rest.contains(s[a]));
            assert(rest.to_multiset() =~= s.to_multiset().remove(s[b]));
            assert(rest.to_multiset().count(s[a]) > 0);
            assert(s.to_multiset().count(s[a]) <= 1);
            assert(s.contains(s[b]));
            assert(s.to_multiset().count(s[b]) > 0);
        }
    }
}

pub proof fn lemma_arranged(order: Seq<usize>, preds: Seq<ExprS>)
    ensures
        arranged(order, preds).to_multiset() == order.to_multiset(),
        arranged(order, preds).len() == order.len(),
    decreases order.len(),
{
    broadcast use vstd::seq_lib::group_to_multiset_ensures;

    if order.len() > 0 {
        let k = ready_from(order, preds, 0);
        lemma_ready_within(order, preds, 0);
        let rest = order.remove(k);
        lemma_arranged(rest, preds);
        let out = arranged(order, preds);
        assert(out =~= arranged(rest, preds).insert(0, order[k]));
        assert(out.to_multiset() =~= order.to_multiset());
    }
}

/// Every restriction is applied once.
pub proof fn law_each_applied_once(kinds: Seq<BoundsS>, preds: Seq<ExprS>)
    requires
        preds.len() <= usize::MAX,
    ensures
        permutes(dependency_order_s(kinds, preds), preds.len()),
{
    broadcast use vstd::seq_lib::group_to_multiset_ensures;

    let order = by_text(texts_of(kinds, preds), preds.len());
    lemma_by_text(texts_of(kinds, preds), preds.len());
    lemma_arranged(order, preds);
    let out = arranged(order, preds);
    order.lemma_multiset_has_no_duplicates();
    lemma_once(out);
    assert forall|i: int| 0 <= i < out.len() implies (#[trigger] out[i] as int) < preds.len() by {
        assert(out.contains(out[i]));
        assert(out.to_multiset().count(out[i]) > 0);
        assert(order.contains(out[i]));
        let j = choose|j: int| 0 <= j < order.len() && order[j] == out[i];
        assert((order[j] as int) < preds.len());
    }
}

/// Whether `ty` holds something restricted by `earlier`.
fn reads_narrowed_by(ty: &Type, earlier: &Refinement) -> (r: bool)
    ensures
        r == narrowed_by(ty.view(), earlier.predicate.view()),
    decreases ty.view(),
{
    let ghost tv = ty.view();
    let ghost p = earlier.predicate.view();
    match ty {
        Type::Refinement(_, set) => {
            assert(tv.preds == set.view());
            if set.contains(earlier) {
                return true;
            }
        },
        _ => {},
    }
    let kids = ty.walk_children();
    assert(kids@.len() == tv.kids.len());
    let mut i: usize = 0;
    while i < kids.len()
        invariant
            i <= kids.len(),
            tv == ty.view(),
            p == earlier.predicate.view(),
            !(tv.head is Refinement && set_has(tv.preds, p)),
            kids@.len() == tv.kids.len(),
            type_refs_view(kids@) == tv.kids,
            forall|j: int| 0 <= j < i ==> !narrowed_by(#[trigger] tv.kids[j], p),
        decreases kids.len() - i,
    {
        assert(kids@[i as int].view() == tv.kids[i as int]);
        assert(decreases_to!(tv => tv.kids[i as int]));
        if reads_narrowed_by(kids[i], earlier) {
            return true;
        }
        i = i + 1;
    }
    false
}

/// Whether the predicate `pred` reads something restricted by `earlier`.
fn predicate_reads(pred: &Expr, earlier: &Refinement) -> (r: bool)
    ensures
        r == reads_narrowed(pred.view(), earlier.predicate.view()),
    decreases pred.view(),
{
    let ghost ev = pred.view();
    let ghost p = earlier.predicate.view();
    let slots = pred.type_slots();
    assert(slots@.len() == ev.tys.len());
    let mut i: usize = 0;
    while i < slots.len()
        invariant
            i <= slots.len(),
            ev == pred.view(),
            p == earlier.predicate.view(),
            slots@.len() == ev.tys.len(),
            type_refs_view(slots@) == ev.tys,
            forall|j: int| 0 <= j < i ==> !narrowed_by(#[trigger] ev.tys[j], p),
        decreases slots.len() - i,
    {
        assert(slots@[i as int].view() == ev.tys[i as int]);
        if reads_narrowed_by(slots[i], earlier) {
            return true;
        }
        i = i + 1;
    }
    let kids = pred.children();
    assert(kids@.len() == ev.kids.len());
    let mut i: usize = 0;
    while i < kids.len()
        invariant
            i <= kids.len(),
            ev == pred.view(),
            p == earlier.predicate.view(),
            forall|j: int| 0 <= j < ev.tys.len() ==> !narrowed_by(#[trigger] ev.tys[j], p),
            kids@.len() == ev.kids.len(),
            expr_refs_view(kids@) == ev.kids,
            forall|j: int| 0 <= j < i ==> !reads_narrowed(#[trigger] ev.kids[j], p),
        decreases kids.len() - i,
    {
        assert(kids@[i as int].view() == ev.kids[i as int]);
        assert(decreases_to!(ev => ev.kids[i as int]));
        if predicate_reads(kids[i], earlier) {
            return true;
        }
        i = i + 1;
    }
    false
}

/// Whether place `k` of `order` waits for another.
fn must_wait(order: &Vec<usize>, refinements: &Vec<Refinement>, k: usize) -> (r: bool)
    requires
        k < order@.len(),
        forall|i: int| 0 <= i < order@.len() ==> (#[trigger] order@[i] as int) < refinements@.len(),
    ensures
        r == waits(order@, predicates_view(refinements@), k as int),
{
    let ghost preds = predicates_view(refinements@);
    let mut j: usize = 0;
    while j < order.len()
        invariant
            j <= order.len(),
            k < order@.len(),
            preds == predicates_view(refinements@),
            forall|i: int|
                0 <= i < order@.len() ==> (#[trigger] order@[i] as int) < refinements@.len(),
            forall|i: int|
                0 <= i < j && i != k ==> !reads_narrowed(
                    preds[order@[k as int] as int],
                    preds[#[trigger] order@[i] as int],
                ),
        decreases order.len() - j,
    {
        assert((order@[k as int] as int) < refinements@.len());
        assert((order@[j as int] as int) < refinements@.len());
        if j != k && predicate_reads(&refinements[order[k]].predicate, &refinements[order[j]]) {
            return true;
        }
        j = j + 1;
    }
    false
}

/// The positions of the restrictions in the order of how they read.
fn order_by_text(refinements: &Vec<Refinement>, kinds: &KindVars) -> (r: Vec<usize>)
    ensures
        r@ == by_text(
            texts_of(kinds.view(), predicates_view(refinements@)),
            refinements@.len(),
        ),
        permutes(r@, refinements@.len()),
{
    let ghost preds = predicates_view(refinements@);
    let ghost texts = texts_of(kinds.view(), preds);
    let mut shown: Vec<String> = Vec::new();
    let mut i: usize = 0;
    while i < refinements.len()
        invariant
            i <= refinements.len(),
            preds == predicates_view(refinements@),
            texts == texts_of(kinds.view(), preds),
            shown.len() == i,
            forall|j: int| 0 <= j < i ==> (#[trigger] shown@[j])@ == texts[j],
        decreases refinements.len() - i,
    {
        assert(preds[i as int] == refinements@[i as int].predicate.view());
        shown.push(symbolic(&refinements[i].predicate, kinds));
        i = i + 1;
    }
    let mut order: Vec<usize> = Vec::new();
    let mut i: usize = 0;
    while i < shown.len()
        invariant
            i <= shown.len(),
            shown@.len() == refinements@.len(),
            texts.len() == shown@.len(),
            forall|j: int| 0 <= j < shown@.len() ==> (#[trigger] shown@[j])@ == texts[j],
            order@ == by_text(texts, i as nat),
        decreases shown.len() - i,
    {
        proof {
            lemma_by_text(texts, i as nat);
        }
        let mut at: usize = order.len();
        let ghost before = order@;
        assert(before.take(at as int) =~= before);
        assert(before.take(at as int).push(i) + before.skip(at as int) =~= before.push(i));
        while at > 0 && text_before(shown[i].as_str(), shown[order[at - 1]].as_str())
            invariant
                at <= order@.len(),
                i < shown@.len(),
                before == order@,
                permutes(order@, i as nat),
                texts.len() == shown@.len(),
                forall|j: int| 0 <= j < shown@.len() ==> (#[trigger] shown@[j])@ == texts[j],
                placed_by_text(before, texts, i) == placed_by_text(
                    before.take(at as int),
                    texts,
                    i,
                ) + before.skip(at as int),
            decreases at,
        {
            let ghost now = before.take(at as int);
            assert(now.drop_last() =~= before.take(at - 1));
            assert(now.last() == before[at - 1]);
            assert(placed_by_text(now, texts, i) + before.skip(at as int) =~= placed_by_text(
                before.take(at - 1),
                texts,
                i,
            ) + before.skip(at - 1));
            at = at - 1;
        }
        order.insert(at, i);
        proof {
            let now = before.take(at as int);
            if at > 0 {
                assert(now.last() == before[at - 1]);
            }
            assert(placed_by_text(now, texts, i) == now.push(i));
            assert(order@ =~= now.push(i) + before.skip(at as int));
        }
        i = i + 1;
    }
    proof {
        lemma_by_text(texts, i as nat);
    }
    order
}

/// The positions of the restrictions in the order they are applied: each after
/// those whose narrowing it reads, the rest by how they read.
fn dependency_order(refinements: &Vec<Refinement>, kinds: &KindVars) -> (r: Vec<usize>)
    ensures
        r@ == dependency_order_s(kinds.view(), predicates_view(refinements@)),
        permutes(r@, refinements@.len()),
{
    let ghost preds = predicates_view(refinements@);
    let total: usize = refinements.len();
    assert(preds.len() == total);
    let mut remaining = order_by_text(refinements, kinds);
    let ghost start = remaining@;
    let mut ordered: Vec<usize> = Vec::new();
    assert(ordered@ + arranged(remaining@, preds) =~= arranged(start, preds));
    while remaining.len() > 0
        invariant
            preds == predicates_view(refinements@),
            forall|i: int|
                0 <= i < remaining@.len() ==> (#[trigger] remaining@[i] as int)
                    < refinements@.len(),
            ordered@ + arranged(remaining@, preds) == arranged(start, preds),
        decreases remaining.len(),
    {
        let mut k: usize = 0;
        let ghost now = remaining@;
        while k < remaining.len() && must_wait(&remaining, refinements, k)
            invariant
                k <= remaining@.len(),
                now == remaining@,
                preds == predicates_view(refinements@),
                forall|i: int|
                    0 <= i < remaining@.len() ==> (#[trigger] remaining@[i] as int)
                        < refinements@.len(),
                ready_from(now, preds, 0) == ready_from(now, preds, k as int),
            decreases remaining.len() - k,
        {
            k = k + 1;
        }
        let next: usize = if k < remaining.len() {
            k
        } else {
            0
        };
        assert(next == ready_from(now, preds, 0));
        let ghost done = ordered@;
        let x = remaining.remove(next);
        ordered.push(x);
        assert(remaining@ =~= now.remove(next as int));
        assert(ordered@ + arranged(remaining@, preds) =~= done + arranged(now, preds));
    }
    assert(arranged(remaining@, preds) =~= Seq::empty());
    assert(ordered@ =~= arranged(start, preds));
    proof {
        law_each_applied_once(kinds.view(), preds);
    }
    ordered
}

/// The restrictions in the order they are applied, each with the type of an
/// element where it applies: `base` under those applied before it.
pub fn application_order<'a>(refinements: &'a Vec<Refinement>, base: &Type, kinds: &KindVars) -> (r:
    Vec<(&'a Refinement, Type)>)
    ensures
        ({
            let preds = predicates_view(refinements@);
            let order = dependency_order_s(kinds.view(), preds);
            &&& r@.len() == preds.len()
            &&& forall|k: int|
                0 <= k < r@.len() ==> *(#[trigger] r@[k]).0 == refinements@[order[k] as int]
                    && r@[k].1.view() == element_ty(base.view(), preds, order, k)
        }),
{
    let ghost preds = predicates_view(refinements@);
    let order = dependency_order(refinements, kinds);
    let ghost ord = order@;
    let mut narrowed = RefinementSet::new();
    let mut out: Vec<(&'a Refinement, Type)> = Vec::new();
    let mut k: usize = 0;
    while k < order.len()
        invariant
            k <= order.len(),
            ord == order@,
            preds == predicates_view(refinements@),
            permutes(order@, refinements@.len()),
            narrowed.view() == applied(preds, ord, k as nat),
            out.len() == k,
            forall|j: int|
                0 <= j < k ==> *(#[trigger] out@[j]).0 == refinements@[ord[j] as int]
                    && out@[j].1.view() == element_ty(base.view(), preds, ord, j),
        decreases order.len() - k,
    {
        assert((order@[k as int] as int) < refinements@.len());
        let r = &refinements[order[k]];
        assert(preds[ord[k as int] as int] == r.predicate.view());
        let ty = Type::refined(base.clone(), narrowed.clone());
        out.push((r, ty));
        narrowed.insert(r.clone());
        k = k + 1;
    }
    out
}

/// The types of an element where each restriction applies, at the place each
/// has in `refinements`.
pub fn application_elem_types(refinements: &Vec<Refinement>, base: &Type, kinds: &KindVars) -> (r:
    Vec<Type>)
    ensures
        ({
            let preds = predicates_view(refinements@);
            let order = dependency_order_s(kinds.view(), preds);
            &&& r@.len() == preds.len()
            &&& permutes(order, preds.len())
            &&& forall|k: int|
                0 <= k < preds.len() ==> r@[#[trigger] order[k] as int].view() == element_ty(
                    base.view(),
                    preds,
                    order,
                    k,
                )
        }),
{
    let ghost preds = predicates_view(refinements@);
    let order = dependency_order(refinements, kinds);
    let ghost ord = order@;
    let mut out: Vec<Type> = Vec::new();
    let mut k: usize = 0;
    while k < refinements.len()
        invariant
            k <= refinements.len(),
            out.len() == k,
        decreases refinements.len() - k,
    {
        out.push(base.clone());
        k = k + 1;
    }
    let steps = application_order(refinements, base, kinds);
    assert(steps@.len() == order@.len());
    let mut k: usize = 0;
    while k < order.len()
        invariant
            k <= order.len(),
            ord == order@,
            permutes(ord, refinements@.len()),
            steps@.len() == ord.len(),
            forall|j: int|
                0 <= j < steps@.len() ==> (#[trigger] steps@[j]).1.view() == element_ty(
                    base.view(),
                    preds,
                    ord,
                    j,
                ),
            out.len() == refinements@.len(),
            forall|j: int| 0 <= j < k ==> out@[ord[j] as int].view() == (#[trigger] steps@[j]).1.view(),
        decreases order.len() - k,
    {
        let ghost before = out@;
        assert((ord[k as int] as int) < refinements@.len());
        let at: usize = order[k];
        out.set(at, steps[k].1.clone());
        assert forall|j: int| 0 <= j < k + 1 implies out@[ord[j] as int].view() == (
        #[trigger] steps@[j]).1.view() by {
            if j < k {
                assert(ord[j] != ord[k as int]);
                assert((ord[j] as int) < refinements@.len());
                assert(out@[ord[j] as int] == before[ord[j] as int]);
            }
        }
        k = k + 1;
    }
    assert forall|k: int| 0 <= k < preds.len() implies out@[#[trigger] ord[k] as int].view()
        == element_ty(base.view(), preds, ord, k) by {
        assert(out@[ord[k] as int].view() == steps@[k].1.view());
    }
    out
}

} // verus!
