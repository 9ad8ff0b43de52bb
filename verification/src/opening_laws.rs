//! The laws that closing at a name and opening at it undo each other, and leave
//! other names as they were.

use vstd::prelude::*;
use crate::apart_laws::{
    binds_names, binds_names_ty, law_closing_keeps_restrictions_apart,
    law_opening_at_a_new_name_keeps_restrictions_apart, no_index,
};
use crate::ast::{ExprS, HeadS, Refinement, TypeS};
use crate::equality::ty_eq;
use crate::name::NameS;
use crate::pi::{
    MappingS, closed_ty, expr_refers_out, index_at, kid_depth, opened_ty, pi_expr, pi_preds,
    pi_ty, refers_out,
};
use crate::pi_laws::{
    apart, apart_ty, closing, law_closing_leaves_no_reference, lemma_closing_inverts_opening,
    lemma_closing_leaves_other_names, lemma_distance, lemma_open_close, lemma_open_idle,
    opening, plain_expr, plain_ty, plainly_named, plainly_named_ty, sets_in, sets_in_ty,
    unbound_in, unbound_in_ty, unspelled_ty,
};
use crate::predicate_laws::{
    diagonal, law_equal_predicates_chain, law_equal_predicates_either_way,
    law_predicate_equals_itself, lemma_diagonal_refs,
};
use crate::refine_eq::{forms_match, one_is, pairs_under, pred_among, pred_eq, same_pred};
use crate::refinement_set::{
    distinct, law_a_set_has_no_duplicates, law_rewrite_leaves_a_set, lemma_kept_members,
    same_set, set_has,
};
use crate::scope::{free_in_ty, scope_of, ty_binds};
use crate::subst_types::targeted_ty;

verus! {

/// Whether the types and terms in `t` are formed as they are built: restrictions
/// stand in sets, a term records a type, a reference has no subterms, and what a
/// term binds is a name.
pub open spec fn built_ty(t: TypeS) -> bool
    decreases t,
{
    &&& distinct(t.preds)
    &&& forall|i: int| 0 <= i < t.kids.len() ==> built_ty(#[trigger] t.kids[i])
    &&& forall|i: int| 0 <= i < t.preds.len() ==> built(#[trigger] t.preds[i])
}

/// Whether the types and terms in `e` are formed as they are built.
pub open spec fn built(e: ExprS) -> bool
    decreases e,
{
    &&& e.tys.len() > 0
    &&& e.head is Var ==> e.kids.len() == 0
    &&& forall|i: int| 0 <= i < e.kids.len() ==> no_index(#[trigger] scope_of(e.head, i))
    &&& forall|i: int| 0 <= i < e.kids.len() ==> built(#[trigger] e.kids[i])
    &&& forall|i: int| 0 <= i < e.tys.len() ==> built_ty(#[trigger] e.tys[i])
}

proof fn lemma_built_ty(t: TypeS)
    requires
        built_ty(t),
    ensures
        sets_in_ty(t),
        binds_names_ty(t),
    decreases t,
{
    assert forall|i: int| 0 <= i < t.kids.len() implies sets_in_ty(#[trigger] t.kids[i])
        && binds_names_ty(t.kids[i]) by {
        lemma_built_ty(t.kids[i]);
    }
    assert forall|i: int| 0 <= i < t.preds.len() implies sets_in(#[trigger] t.preds[i])
        && binds_names(t.preds[i]) by {
        lemma_built(t.preds[i]);
    }
}

proof fn lemma_built(e: ExprS)
    requires
        built(e),
    ensures
        sets_in(e),
        binds_names(e),
    decreases e,
{
    assert forall|i: int| 0 <= i < e.kids.len() implies sets_in(#[trigger] e.kids[i])
        && binds_names(e.kids[i]) by {
        lemma_built(e.kids[i]);
    }
    assert forall|i: int| 0 <= i < e.tys.len() implies sets_in_ty(#[trigger] e.tys[i])
        && binds_names_ty(e.tys[i]) by {
        lemma_built_ty(e.tys[i]);
    }
}

/// `e` closed at `b` and opened at it again.
spec fn round(b: NameS, e: ExprS, d: u32, sh: Seq<NameS>, other: Seq<NameS>) -> ExprS {
    pi_expr(opening(b), pi_expr(closing(b), e, d, sh), d, other)
}

spec fn round_ty(b: NameS, t: TypeS, d: u32, sh: Seq<NameS>, other: Seq<NameS>) -> TypeS {
    pi_ty(opening(b), pi_ty(closing(b), t, d, sh), d, other)
}

/// The restrictions of a type come back one by one.
proof fn lemma_round_preds(b: NameS, t: TypeS, d: u32, sh: Seq<NameS>, other: Seq<NameS>)
    requires
        distinct(t.preds),
        distinct(pi_preds(closing(b), t, d, sh)),
        forall|i: int|
            0 <= i < t.preds.len() ==> same_pred(
                round(b, #[trigger] t.preds[i], d, sh, other),
                t.preds[i],
            ),
    ensures
        round_ty(b, t, d, sh, other).preds == Seq::new(
            t.preds.len(),
            |i: int| round(b, t.preds[i], d, sh, other),
        ),
{
    let mid = pi_ty(closing(b), t, d, sh);
    law_a_set_has_no_duplicates(pi_preds(closing(b), t, d, sh));
    let raw = pi_preds(opening(b), mid, d, other);
    let want = Seq::new(t.preds.len(), |i: int| round(b, t.preds[i], d, sh, other));
    assert(raw =~= want);
    assert forall|i: int, j: int| 0 <= i < j < raw.len() implies !same_pred(
        #[trigger] raw[i],
        #[trigger] raw[j],
    ) by {
        if same_pred(raw[i], raw[j]) {
            assert(same_pred(round(b, t.preds[i], d, sh, other), t.preds[i]));
            assert(same_pred(round(b, t.preds[j], d, sh, other), t.preds[j]));
            law_equal_predicates_either_way(raw[i], t.preds[i]);
            law_equal_predicates_chain(t.preds[i], raw[i], raw[j]);
            law_equal_predicates_chain(t.preds[i], raw[j], t.preds[j]);
        }
    }
    law_a_set_has_no_duplicates(raw);
}

proof fn lemma_round(
    b: NameS,
    e: ExprS,
    d: u32,
    sh: Seq<NameS>,
    other: Seq<NameS>,
    pairs: Seq<(NameS, NameS)>,
)
    requires
        built(e),
        apart(closing(b), e, d, sh),
        !expr_refers_out(e, d),
        diagonal(pairs),
    ensures
        pred_eq(round(b, e, d, sh, other), e, pairs),
    decreases e,
{
    let mid = pi_expr(closing(b), e, d, sh);
    let out = round(b, e, d, sh, other);
    match e.head {
        HeadS::Var(n) => {
            lemma_distance(b, n);
            assert(index_at(0, d) == d);
            assert(mid.tys.len() == e.tys.len());
            assert(out.head == e.head);
            lemma_diagonal_refs(pairs, n, n);
            assert(out.kids.len() == 0);
        },
        _ => {
            assert(mid.head == e.head);
            assert(out.head == e.head);
            assert(forms_match(e.head, e.head, pairs)) by {
                match e.head {
                    HeadS::Feed(x) => lemma_diagonal_refs(pairs, x, x),
                    HeadS::Define(x) => lemma_diagonal_refs(pairs, x, x),
                    HeadS::MutWrite(x) => lemma_diagonal_refs(pairs, x, x),
                    _ => {},
                }
            }
            assert forall|i: int| 0 <= i < out.kids.len() implies pred_eq(
                #[trigger] out.kids[i],
                e.kids[i],
                pairs_under(out.head, e.head, i, pairs),
            ) by {
                let bs = scope_of(e.head, i);
                let under = pairs_under(out.head, e.head, i, pairs);
                assert forall|k: int| 0 <= k < under.len() implies (#[trigger] under[k]).0
                    == under[k].1 by {
                    if k < pairs.len() {
                        assert(under[k] == pairs[k]);
                    }
                }
                assert(mid.kids[i] == pi_expr(closing(b), e.kids[i], d, sh + bs));
                assert(out.kids[i] == round(b, e.kids[i], d, sh + bs, other + bs));
                lemma_round(b, e.kids[i], d, sh + bs, other + bs, under);
            }
        },
    }
    if e.head is Cast {
        let s = e.tys[e.tys.len() - 1];
        let os = out.tys[out.tys.len() - 1];
        assert(mid.tys[e.tys.len() - 1] == pi_ty(closing(b), s, d, sh));
        assert(os == round_ty(b, s, d, sh, other));
        assert(built_ty(s));
        assert(apart_ty(closing(b), s, d, sh));
        assert(!refers_out(s, d));
        if s.head is Fun && s.kids.len() >= 2 {
            let k = s.kids.len() - 2;
            let dom = s.kids[k];
            let odom = os.kids[k];
            assert(kid_depth(s, k, d) == d);
            assert(odom == round_ty(b, dom, d, sh, other));
            assert(built_ty(dom));
            assert(apart_ty(closing(b), dom, d, sh));
            assert(!refers_out(dom, d));
            assert(decreases_to!(e => e.tys[e.tys.len() - 1]));
            assert(decreases_to!(s => s.kids[k]));
            let none = Seq::<(NameS, NameS)>::empty();
            assert forall|i: int| 0 <= i < dom.preds.len() implies same_pred(
                round(b, #[trigger] dom.preds[i], d, sh, other),
                dom.preds[i],
            ) && pred_eq(round(b, dom.preds[i], d, sh, other), dom.preds[i], pairs) by {
                assert(apart(closing(b), dom.preds[i], d, sh));
                lemma_round(b, dom.preds[i], d, sh, other, none);
                lemma_round(b, dom.preds[i], d, sh, other, pairs);
            }
            lemma_round_preds(b, dom, d, sh, other);
            if dom.head is Refinement {
                assert forall|i: int| 0 <= i < odom.preds.len() implies pred_among(
                    #[trigger] odom.preds[i],
                    dom.preds,
                    pairs,
                ) by {
                    assert(pred_eq(odom.preds[i], dom.preds[i], pairs));
                }
                assert forall|i: int| 0 <= i < dom.preds.len() implies one_is(
                    odom.preds,
                    #[trigger] dom.preds[i],
                    pairs,
                ) by {
                    assert(pred_eq(odom.preds[i], dom.preds[i], pairs));
                }
            }
        }
    }
}

proof fn lemma_round_ty(b: NameS, t: TypeS, d: u32, sh: Seq<NameS>, other: Seq<NameS>)
    requires
        built_ty(t),
        apart_ty(closing(b), t, d, sh),
        !refers_out(t, d),
    ensures
        ty_eq(round_ty(b, t, d, sh, other), t),
    decreases t,
{
    let mid = pi_ty(closing(b), t, d, sh);
    let out = round_ty(b, t, d, sh, other);
    assert forall|i: int| 0 <= i < t.kids.len() implies ty_eq(#[trigger] out.kids[i], t.kids[i]) by {
        assert(kid_depth(mid, i, d) == kid_depth(t, i, d));
        lemma_round_ty(b, t.kids[i], kid_depth(t, i, d), sh, other);
    }
    let none = Seq::<(NameS, NameS)>::empty();
    assert forall|i: int| 0 <= i < t.preds.len() implies same_pred(
        round(b, #[trigger] t.preds[i], d, sh, other),
        t.preds[i],
    ) by {
        assert(apart(closing(b), t.preds[i], d, sh));
        lemma_round(b, t.preds[i], d, sh, other, none);
    }
    lemma_round_preds(b, t, d, sh, other);
    assert forall|i: int| 0 <= i < out.preds.len() implies set_has(t.preds, #[trigger] out.preds[i]) by {
        assert(same_pred(out.preds[i], t.preds[i]));
        law_equal_predicates_either_way(out.preds[i], t.preds[i]);
    }
    assert(same_set(out.preds, t.preds));
}

proof fn lemma_equal_itself(t: TypeS)
    ensures
        ty_eq(t, t),
    decreases t,
{
    assert forall|i: int| 0 <= i < t.kids.len() implies ty_eq(#[trigger] t.kids[i], t.kids[i]) by {
        lemma_equal_itself(t.kids[i]);
    }
    assert forall|i: int| 0 <= i < t.preds.len() implies set_has(t.preds, #[trigger] t.preds[i]) by {
        law_predicate_equals_itself(t.preds[i]);
    }
}

/// Opening at the name a type was closed at gives an equal type back, where it
/// held no reference to the function before: the same one, where its references
/// to the name stand as they are written. In between the name is free nowhere,
/// but for the free channels and handles that are that name.
pub proof fn law_opening_inverts_closing(b: NameS, t: TypeS)
    requires
        !(b is PiBound),
        built_ty(t),
        !refers_out(t, 0),
    ensures
        ty_eq(opened_ty(MappingS::Rename(b), closed_ty(b, t)), t),
        plainly_named_ty(b, t) ==> opened_ty(MappingS::Rename(b), closed_ty(b, t)) == t,
        !targeted_ty(b, t) ==> !free_in_ty(b, closed_ty(b, t)),
{
    lemma_built_ty(t);
    law_closing_keeps_restrictions_apart(b, t);
    if free_in_ty(b, t) {
        lemma_round_ty(b, t, 0, Seq::empty(), Seq::empty());
        if plainly_named_ty(b, t) {
            lemma_open_close(b, t, 0, Seq::empty(), Seq::empty());
        }
    } else {
        lemma_open_idle(b, t, 0, Seq::empty());
        lemma_equal_itself(t);
    }
    if !targeted_ty(b, t) {
        law_closing_leaves_no_reference(b, t);
    }
}

/// Closing at the name a stored codomain was opened at gives the codomain back,
/// but for how its references are spelled, so what a function stores of its
/// codomain does not depend on the name of its argument.
pub proof fn law_closing_inverts_opening(b: NameS, t: TypeS)
    requires
        built_ty(t),
        plain_ty(t),
        !(b is PiBound),
        b != NameS::Elem,
        !free_in_ty(b, t),
        unbound_in_ty(b, t),
    ensures
        unspelled_ty(closed_ty(b, opened_ty(MappingS::Rename(b), t))) == unspelled_ty(t),
{
    lemma_built_ty(t);
    law_opening_at_a_new_name_keeps_restrictions_apart(b, t);
    lemma_closing_inverts_opening(b, t);
}

/// Closing keeps how types are formed, how references are written and what is
/// bound.
proof fn lemma_closed_as_built(x: NameS, y: NameS, t: TypeS, d: u32, sh: Seq<NameS>)
    requires
        built_ty(t),
        plain_ty(t),
        plainly_named_ty(x, t),
        unbound_in_ty(y, t),
    ensures
        built_ty(pi_ty(closing(x), t, d, sh)),
        plain_ty(pi_ty(closing(x), t, d, sh)),
        unbound_in_ty(y, pi_ty(closing(x), t, d, sh)),
    decreases t,
{
    let out = pi_ty(closing(x), t, d, sh);
    let raw = pi_preds(closing(x), t, d, sh);
    law_rewrite_leaves_a_set(raw);
    lemma_kept_members(raw);
    assert forall|i: int| 0 <= i < out.kids.len() implies built_ty(#[trigger] out.kids[i])
        && plain_ty(out.kids[i]) && unbound_in_ty(y, out.kids[i]) by {
        lemma_closed_as_built(x, y, t.kids[i], kid_depth(t, i, d), sh);
    }
    assert forall|i: int| 0 <= i < out.preds.len() implies built(#[trigger] out.preds[i])
        && plain_expr(out.preds[i]) && unbound_in(y, out.preds[i]) by {
        let k = choose|k: int| 0 <= k < raw.len() && raw[k] == out.preds[i];
        assert(built(t.preds[k]));
        lemma_closed_term_as_built(x, y, t.preds[k], d, sh);
    }
    assert forall|i: int| 0 <= i < out.kids.len() implies !#[trigger] ty_binds(out, i, y) by {
        assert(!ty_binds(t, i, y));
    }
}

proof fn lemma_closed_term_as_built(x: NameS, y: NameS, e: ExprS, d: u32, sh: Seq<NameS>)
    requires
        built(e),
        plain_expr(e),
        plainly_named(x, e),
        unbound_in(y, e),
    ensures
        built(pi_expr(closing(x), e, d, sh)),
        plain_expr(pi_expr(closing(x), e, d, sh)),
        unbound_in(y, pi_expr(closing(x), e, d, sh)),
    decreases e,
{
    let out = pi_expr(closing(x), e, d, sh);
    if let HeadS::Var(n) = e.head {
        lemma_distance(x, n);
    }
    assert forall|i: int| 0 <= i < out.kids.len() implies built(#[trigger] out.kids[i])
        && plain_expr(out.kids[i]) && unbound_in(y, out.kids[i]) by {
        lemma_closed_term_as_built(x, y, e.kids[i], d, sh + scope_of(e.head, i));
    }
    assert forall|i: int| 0 <= i < out.tys.len() implies built_ty(#[trigger] out.tys[i])
        && plain_ty(out.tys[i]) && unbound_in_ty(y, out.tys[i]) by {
        lemma_closed_as_built(x, y, e.tys[i], d, sh);
    }
    assert forall|i: int| 0 <= i < out.kids.len() implies (#[trigger] scope_of(out.head, i))
        == scope_of(e.head, i) by {
        assert(no_index(scope_of(e.head, i)));
    }
}

/// Function types that differ only in the name of their argument store one
/// codomain, but for how its references are spelled: `y` in place of `x` makes
/// no difference where `y` does not occur.
pub proof fn law_the_name_of_an_argument_makes_no_difference(x: NameS, y: NameS, c: TypeS)
    requires
        built_ty(c),
        plain_ty(c),
        plainly_named_ty(x, c),
        y != x,
        !(y is PiBound),
        y != NameS::Elem,
        !free_in_ty(y, c),
        unbound_in_ty(y, c),
    ensures
        unspelled_ty(closed_ty(y, opened_ty(MappingS::Rename(y), closed_ty(x, c))))
            == unspelled_ty(closed_ty(x, c)),
{
    lemma_closed_as_built(x, y, c, 0, Seq::empty());
    lemma_closing_leaves_other_names(x, y, c);
    law_closing_inverts_opening(y, closed_ty(x, c));
}

/// Closing at one name frees no other.
pub proof fn law_closing_frees_nothing(b: NameS, n: NameS, t: TypeS)
    requires
        n != b,
        !(n is PiBound),
        free_in_ty(n, closed_ty(b, t)),
    ensures
        free_in_ty(n, t),
{
    lemma_closing_leaves_other_names(b, n, t);
}

/// Closing at one name leaves every other that was free so, where the type held
/// no reference to the function before.
pub proof fn law_closing_leaves_other_names(b: NameS, n: NameS, t: TypeS)
    requires
        !(b is PiBound),
        n != b,
        !(n is PiBound),
        built_ty(t),
        !refers_out(t, 0),
    ensures
        free_in_ty(n, closed_ty(b, t)) == free_in_ty(n, t),
{
    lemma_built_ty(t);
    law_closing_keeps_restrictions_apart(b, t);
    lemma_closing_leaves_other_names(b, n, t);
}

} // verus!
