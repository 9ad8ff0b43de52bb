//! The law of canonical binders: sums that differ only in the identities of
//! their witnesses have one canonical copy.

use vstd::prelude::*;
use crate::ast::{ExprS, FunKindS, TypeHeadS, TypeS, WitnessId, WitnessS};
use crate::canonical::{binders_counted, counted_from, depth_in};
use crate::kind_vars::{binders_of, witness_ids};
use crate::pi_laws::{sets_in, sets_in_ty};
use crate::refinement_set::{law_rewrite_leaves_a_set, lemma_kept_members};
use crate::type_forms::sum_of;
use crate::witness::{binders_at, in_force, ranges_width};
use crate::witness_walk::{
    ActS, acted_expr, acted_parts, acted_preds, acted_ty, binds, kept_types,
    lemma_kept_types_from, renamed_id, renamed_witnesses,
};

verus! {

/// Whether `t` refers to the witness `w` or binds it.
pub open spec fn names_witness(t: TypeS, w: WitnessId) -> bool
    decreases t,
{
    t.head == TypeHeadS::WitnessRef(w) || binds(sum_of(t), w) || exists|i: int|
        0 <= i < t.kids.len() && names_witness(#[trigger] t.kids[i], w)
}

/// Whether `t` refers to `w` where neither `scope` nor a binder of `t` binds it.
pub open spec fn unbound_witness(t: TypeS, scope: Seq<WitnessId>, w: WitnessId) -> bool
    decreases t,
{
    (t.head == TypeHeadS::WitnessRef(w) && !scope.contains(w)) || exists|i: int|
        0 <= i < t.kids.len() && unbound_witness(#[trigger] t.kids[i], scope + binders_at(t, i), w)
}

/// Whether `m` gives no two witnesses that `t` names one name.
pub open spec fn told_apart(m: Map<WitnessId, WitnessId>, t: TypeS) -> bool {
    forall|a: WitnessId, b: WitnessId|
        #![trigger names_witness(t, a), names_witness(t, b)]
        names_witness(t, a) && names_witness(t, b) && renamed_id(m, a) == renamed_id(m, b) ==> a
            == b
}

/// Whether `m` gives no two of `ids` one name.
pub open spec fn apart_on(m: Map<WitnessId, WitnessId>, ids: Set<WitnessId>) -> bool {
    forall|a: WitnessId, b: WitnessId|
        #![trigger ids.contains(a), ids.contains(b)]
        ids.contains(a) && ids.contains(b) && renamed_id(m, a) == renamed_id(m, b) ==> a == b
}

pub open spec fn renamed_ids(m: Map<WitnessId, WitnessId>, s: Seq<WitnessId>) -> Seq<WitnessId> {
    Seq::new(s.len(), |i: int| renamed_id(m, s[i]))
}

proof fn lemma_depth_renamed(
    m: Map<WitnessId, WitnessId>,
    ids: Set<WitnessId>,
    scope: Seq<WitnessId>,
    w: WitnessId,
)
    requires
        apart_on(m, ids),
        ids.contains(w),
        forall|i: int| 0 <= i < scope.len() ==> ids.contains(#[trigger] scope[i]),
    ensures
        depth_in(renamed_ids(m, scope), renamed_id(m, w)) == depth_in(scope, w),
    decreases scope.len(),
{
    if scope.len() > 0 {
        assert(ids.contains(scope[scope.len() - 1]));
        assert(renamed_ids(m, scope).drop_last() =~= renamed_ids(m, scope.drop_last()));
        lemma_depth_renamed(m, ids, scope.drop_last(), w);
    }
}

proof fn lemma_no_depth(scope: Seq<WitnessId>, w: WitnessId)
    requires
        depth_in(scope, w) is None,
    ensures
        !scope.contains(w),
    decreases scope.len(),
{
    if scope.len() > 0 {
        lemma_no_depth(scope.drop_last(), w);
        if scope.contains(w) {
            let i = choose|i: int| 0 <= i < scope.len() && scope[i] == w;
            assert(scope.drop_last()[i] == w);
        }
    }
}

proof fn lemma_width_renamed(m: Map<WitnessId, WitnessId>, ws: Seq<WitnessS>)
    ensures
        ranges_width(renamed_witnesses(m, ws)) == ranges_width(ws),
    decreases ws.len(),
{
    if ws.len() > 0 {
        assert(renamed_witnesses(m, ws).drop_last() =~= renamed_witnesses(m, ws.drop_last()));
        lemma_width_renamed(m, ws.drop_last());
    }
}

proof fn lemma_in_force_renamed(m: Map<WitnessId, WitnessId>, ws: Seq<WitnessS>, i: int)
    ensures
        in_force(renamed_witnesses(m, ws), i) == renamed_ids(m, in_force(ws, i)),
    decreases ws.len(),
{
    lemma_width_renamed(m, ws);
    if ws.len() == 0 || i >= ranges_width(ws) {
        assert(witness_ids(renamed_witnesses(m, ws)) =~= renamed_ids(m, witness_ids(ws)));
    } else {
        assert(renamed_witnesses(m, ws).drop_last() =~= renamed_witnesses(m, ws.drop_last()));
        lemma_in_force_renamed(m, ws.drop_last(), i);
    }
}

proof fn lemma_in_force_bound(ws: Seq<WitnessS>, i: int, j: int)
    requires
        0 <= j < in_force(ws, i).len(),
    ensures
        binds(ws, in_force(ws, i)[j]),
    decreases ws.len(),
{
    if ws.len() == 0 || i >= ranges_width(ws) {
        assert(ws[j].id == in_force(ws, i)[j]);
    } else {
        lemma_in_force_bound(ws.drop_last(), i, j);
        let k = choose|k: int|
            0 <= k < ws.drop_last().len() && (#[trigger] ws.drop_last()[k]).id == in_force(ws, i)[j];
        assert(ws[k].id == in_force(ws, i)[j]);
    }
}

proof fn lemma_counted_renamed(
    m: Map<WitnessId, WitnessId>,
    ids: Set<WitnessId>,
    t: TypeS,
    scope: Seq<WitnessId>,
)
    requires
        apart_on(m, ids),
        forall|i: int| 0 <= i < scope.len() ==> ids.contains(#[trigger] scope[i]),
        forall|w: WitnessId| #[trigger] names_witness(t, w) ==> ids.contains(w),
        forall|w: WitnessId| #[trigger] unbound_witness(t, scope, w) ==> renamed_id(m, w) == w,
    ensures
        binders_counted(acted_ty(ActS::Rename(m), t), renamed_ids(m, scope)) == binders_counted(
            t,
            scope,
        ),
    decreases t,
{
    let out = acted_ty(ActS::Rename(m), t);
    match t.head {
        TypeHeadS::WitnessRef(w) => {
            assert(names_witness(t, w));
            lemma_depth_renamed(m, ids, scope, w);
            if depth_in(scope, w) is None {
                lemma_no_depth(scope, w);
                assert(unbound_witness(t, scope, w));
            }
        },
        _ => {
            let parts = acted_parts(ActS::Rename(m), t);
            let ws = sum_of(t);
            assert(out.kids == parts.kids);
            assert(sum_of(out) =~= renamed_witnesses(m, ws));
            let got = binders_counted(out, renamed_ids(m, scope));
            let want = binders_counted(t, scope);
            match t.head {
                TypeHeadS::Fun(_, FunKindS::Data(Some(vs))) => {
                    assert(vs == ws);
                    assert(counted_from(scope.len(), renamed_witnesses(m, ws)) =~= counted_from(
                        scope.len(),
                        ws,
                    ));
                },
                _ => {},
            }
            assert(got.head == want.head);
            assert forall|i: int| 0 <= i < t.kids.len() implies #[trigger] got.kids[i]
                == want.kids[i] by {
                let bs = binders_at(t, i);
                lemma_in_force_renamed(m, ws, i);
                assert(renamed_ids(m, scope) + binders_at(out, i) =~= renamed_ids(m, scope + bs));
                assert forall|j: int| 0 <= j < (scope + bs).len() implies ids.contains(
                    #[trigger] (scope + bs)[j],
                ) by {
                    if j < scope.len() {
                        assert(ids.contains(scope[j]));
                    } else {
                        lemma_in_force_bound(ws, i, j - scope.len());
                        assert(names_witness(t, (scope + bs)[j]));
                    }
                }
                assert forall|w: WitnessId| #[trigger]
                    names_witness(t.kids[i], w) implies ids.contains(w) by {
                    assert(names_witness(t, w));
                }
                assert forall|w: WitnessId| #[trigger]
                    unbound_witness(t.kids[i], scope + bs, w) implies renamed_id(m, w) == w by {
                    assert(unbound_witness(t, scope, w));
                }
                lemma_counted_renamed(m, ids, t.kids[i], scope + bs);
            }
            assert(got.kids =~= want.kids);
        },
    }
}

/// Types that differ only in the identities of the witnesses they bind have one
/// canonical copy: renaming the witnesses of a type, no two to one and none that
/// is free, leaves its canonical copy as it was.
pub proof fn law_canonical_copy_forgets_identities(m: Map<WitnessId, WitnessId>, t: TypeS)
    requires
        told_apart(m, t),
        forall|w: WitnessId| #[trigger]
            unbound_witness(t, Seq::empty(), w) ==> renamed_id(m, w) == w,
    ensures
        binders_counted(acted_ty(ActS::Rename(m), t), Seq::empty()) == binders_counted(
            t,
            Seq::empty(),
        ),
{
    let ids = Set::new(|w: WitnessId| names_witness(t, w));
    assert(apart_on(m, ids)) by {
        assert forall|a: WitnessId, b: WitnessId|
            #![trigger ids.contains(a), ids.contains(b)]
            ids.contains(a) && ids.contains(b) && renamed_id(m, a) == renamed_id(m, b) implies a
            == b by {
            assert(names_witness(t, a) && names_witness(t, b));
        }
    }
    lemma_counted_renamed(m, ids, t, Seq::empty());
    assert(renamed_ids(m, Seq::empty()) =~= Seq::empty());
}

/// Whether what the walk puts in holds sets.
pub open spec fn act_brings_sets(a: ActS) -> bool {
    a matches ActS::Open(_, c) ==> sets_in_ty(c)
}

/// Whether the components of every function type in `t` fit the ranges it binds,
/// those in its predicates too.
pub open spec fn all_fitting(t: TypeS) -> bool
    decreases t,
{
    (t.head matches TypeHeadS::Fun(_, k) ==> ranges_width(binders_of(k)) + 2 == t.kids.len()) && (
    forall|i: int| 0 <= i < t.kids.len() ==> all_fitting(#[trigger] t.kids[i])) && forall|i: int|
        0 <= i < t.preds.len() ==> fitting_within(#[trigger] t.preds[i])
}

pub open spec fn fitting_within(e: ExprS) -> bool
    decreases e,
{
    (forall|i: int| 0 <= i < e.kids.len() ==> fitting_within(#[trigger] e.kids[i])) && forall|
        i: int,
    |
        0 <= i < e.tys.len() ==> all_fitting(#[trigger] e.tys[i])
}

/// Opening, renaming and referring to witnesses leave sets: no restriction
/// stands in one twice.
pub proof fn law_witness_walks_leave_sets(a: ActS, t: TypeS)
    requires
        sets_in_ty(t),
        act_brings_sets(a),
        all_fitting(t),
    ensures
        sets_in_ty(acted_ty(a, t)),
    decreases t,
{
    let parts = acted_parts(a, t);
    let out = acted_ty(a, t);
    let raw = acted_preds(a, t);
    law_rewrite_leaves_a_set(raw);
    lemma_kept_members(raw);
    assert forall|i: int| 0 <= i < parts.kids.len() implies sets_in_ty(#[trigger] parts.kids[i]) by {
        law_witness_walks_leave_sets(a, t.kids[i]);
    }
    assert forall|i: int| 0 <= i < parts.preds.len() implies sets_in(#[trigger] parts.preds[i]) by {
        if !(a is Rename) {
            let k = choose|k: int| 0 <= k < raw.len() && raw[k] == parts.preds[i];
            lemma_acted_sets(a, t.preds[k]);
        }
    }
    match t.head {
        TypeHeadS::Fun(name, FunKindS::Data(Some(ws))) => {
            if let ActS::Open(b, _) = a {
                if binds(ws, b) {
                    let n = parts.kids.len();
                    let range = parts.kids.take(n - 2);
                    let front = kept_types(ws, range, b);
                    assert forall|i: int| 0 <= i < out.kids.len() implies sets_in_ty(
                        #[trigger] out.kids[i],
                    ) by {
                        if i < front.len() {
                            lemma_kept_types_from(ws, range, b, i);
                            let j = choose|j: int| 0 <= j < range.len() && range[j] == front[i];
                            assert(parts.kids[j] == out.kids[i]);
                        } else {
                            assert(out.kids[i] == parts.kids[n - 2 + i - front.len()]);
                        }
                    }
                }
            }
        },
        _ => {},
    }
}

proof fn lemma_acted_sets(a: ActS, e: ExprS)
    requires
        sets_in(e),
        act_brings_sets(a),
        fitting_within(e),
    ensures
        sets_in(acted_expr(a, e)),
    decreases e,
{
    let out = acted_expr(a, e);
    assert forall|i: int| 0 <= i < out.kids.len() implies sets_in(#[trigger] out.kids[i]) by {
        lemma_acted_sets(a, e.kids[i]);
    }
    assert forall|i: int| 0 <= i < out.tys.len() implies sets_in_ty(#[trigger] out.tys[i]) by {
        law_witness_walks_leave_sets(a, e.tys[i]);
    }
}

} // verus!
