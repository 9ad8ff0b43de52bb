//! The laws of closing and opening: what a stored function type says of its
//! own argument.

use vstd::prelude::*;
use crate::ast::{ExprS, FunKindS, HeadS, TypeHeadS, TypeS};
use crate::equality::head_ident;
use crate::name::NameS;
use crate::pi::{
    MappingS, PiModeS, closed_ty, distance_to, expr_refers_out, index_at, kid_depth, opened_ty,
    pi_expr, pi_preds, pi_ty, points_at, refers_out,
};
use crate::refinement_set::{
    distinct, law_a_set_has_no_duplicates, law_rewrite_leaves_a_set, lemma_kept_members,
};
use crate::scope::{free_in, free_in_ty, own_ref, scope_of, ty_binds};
use crate::stored::own_spelling;
use crate::subst_types::{targeted, targeted_ty};
use crate::type_forms::pi_type;

verus! {

/// Whether a reference is as it is written: a leaf with a recorded type and no
/// annotation.
pub open spec fn as_written(e: ExprS) -> bool {
    e.kids.len() == 0 && e.tys.len() == 1 && !e.annotated
}

/// Whether the references to `b` in `t` are as they are written.
pub open spec fn plainly_named_ty(b: NameS, t: TypeS) -> bool
    decreases t,
{
    (forall|i: int| 0 <= i < t.kids.len() ==> plainly_named_ty(b, #[trigger] t.kids[i])) && forall|
        i: int,
    |
        0 <= i < t.preds.len() ==> plainly_named(b, #[trigger] t.preds[i])
}

/// Whether the references to `b` in `e` are as they are written.
pub open spec fn plainly_named(b: NameS, e: ExprS) -> bool
    decreases e,
{
    (e.head == HeadS::Var(b) ==> as_written(e)) && (forall|i: int|
        0 <= i < e.kids.len() ==> plainly_named(b, #[trigger] e.kids[i])) && forall|i: int|
        0 <= i < e.tys.len() ==> plainly_named_ty(b, #[trigger] e.tys[i])
}

/// Whether the references to functions in `t` are as they are written.
pub open spec fn plain_ty(t: TypeS) -> bool
    decreases t,
{
    (forall|i: int| 0 <= i < t.kids.len() ==> plain_ty(#[trigger] t.kids[i])) && forall|i: int|
        0 <= i < t.preds.len() ==> plain_expr(#[trigger] t.preds[i])
}

/// Whether the references to functions in `e` are as they are written.
pub open spec fn plain_expr(e: ExprS) -> bool
    decreases e,
{
    (e.head matches HeadS::Var(n) ==> n is PiBound ==> as_written(e)) && (forall|i: int|
        0 <= i < e.kids.len() ==> plain_expr(#[trigger] e.kids[i])) && forall|i: int|
        0 <= i < e.tys.len() ==> plain_ty(#[trigger] e.tys[i])
}

/// Whether no function or term in `t` binds `n`.
pub open spec fn unbound_in_ty(n: NameS, t: TypeS) -> bool
    decreases t,
{
    (forall|i: int| 0 <= i < t.kids.len() ==> !#[trigger] ty_binds(t, i, n)) && (forall|i: int|
        0 <= i < t.kids.len() ==> unbound_in_ty(n, #[trigger] t.kids[i])) && (forall|i: int|
        0 <= i < t.preds.len() ==> unbound_in(n, #[trigger] t.preds[i]))
}

/// Whether no function or term in `e` binds `n`.
pub open spec fn unbound_in(n: NameS, e: ExprS) -> bool
    decreases e,
{
    (forall|i: int| 0 <= i < e.kids.len() ==> !(#[trigger] scope_of(e.head, i)).contains(n)) && (
    forall|i: int| 0 <= i < e.kids.len() ==> unbound_in(n, #[trigger] e.kids[i])) && (forall|i: int|
        0 <= i < e.tys.len() ==> unbound_in_ty(n, #[trigger] e.tys[i]))
}

/// Whether every set of restrictions in `t` is a set.
pub open spec fn sets_in_ty(t: TypeS) -> bool
    decreases t,
{
    distinct(t.preds) && (forall|i: int|
        0 <= i < t.kids.len() ==> sets_in_ty(#[trigger] t.kids[i])) && forall|i: int|
        0 <= i < t.preds.len() ==> sets_in(#[trigger] t.preds[i])
}

/// Whether every set of restrictions in `e` is a set.
pub open spec fn sets_in(e: ExprS) -> bool
    decreases e,
{
    (forall|i: int| 0 <= i < e.kids.len() ==> sets_in(#[trigger] e.kids[i])) && forall|i: int|
        0 <= i < e.tys.len() ==> sets_in_ty(#[trigger] e.tys[i])
}

/// Whether the walk over `t` makes no two restrictions of a set one.
pub open spec fn apart_ty(mode: PiModeS, t: TypeS, d: u32, sh: Seq<NameS>) -> bool
    decreases t,
{
    distinct(pi_preds(mode, t, d, sh)) && (forall|i: int|
        0 <= i < t.kids.len() ==> apart_ty(mode, #[trigger] t.kids[i], kid_depth(t, i, d), sh))
        && forall|i: int| 0 <= i < t.preds.len() ==> apart(mode, #[trigger] t.preds[i], d, sh)
}

/// Whether the walk over `e` makes no two restrictions of a set one.
pub open spec fn apart(mode: PiModeS, e: ExprS, d: u32, sh: Seq<NameS>) -> bool
    decreases e,
{
    (forall|i: int|
        0 <= i < e.kids.len() ==> apart(
            mode,
            #[trigger] e.kids[i],
            d,
            sh + scope_of(e.head, i),
        )) && forall|i: int| 0 <= i < e.tys.len() ==> apart_ty(mode, #[trigger] e.tys[i], d, sh)
}

pub open spec fn closing(b: NameS) -> PiModeS {
    PiModeS::Close(seq![Some(b)])
}

pub open spec fn opening(b: NameS) -> PiModeS {
    PiModeS::Open(MappingS::Rename(b))
}

pub proof fn lemma_distance(b: NameS, n: NameS)
    ensures
        distance_to(seq![Some(b)], n) == (if n == b {
            Some(0nat)
        } else {
            None
        }),
{
    let s = seq![Some(b)];
    assert(s.last() == Some(b));
    assert(s.drop_last() =~= Seq::<Option<NameS>>::empty());
    assert(distance_to(s.drop_last(), n) is None);
}

pub proof fn lemma_open_idle(b: NameS, t: TypeS, d: u32, sh: Seq<NameS>)
    requires
        sets_in_ty(t),
        !refers_out(t, d),
    ensures
        pi_ty(opening(b), t, d, sh) == t,
    decreases t,
{
    let out = pi_ty(opening(b), t, d, sh);
    assert forall|i: int| 0 <= i < t.kids.len() implies #[trigger] out.kids[i] == t.kids[i] by {
        lemma_open_idle(b, t.kids[i], kid_depth(t, i, d), sh);
    }
    assert(out.kids =~= t.kids);
    let raw = pi_preds(opening(b), t, d, sh);
    assert forall|i: int| 0 <= i < t.preds.len() implies #[trigger] raw[i] == t.preds[i] by {
        lemma_open_idle_expr(b, t.preds[i], d, sh);
    }
    assert(raw =~= t.preds);
    law_a_set_has_no_duplicates(raw);
}

proof fn lemma_open_idle_expr(b: NameS, e: ExprS, d: u32, sh: Seq<NameS>)
    requires
        sets_in(e),
        !expr_refers_out(e, d),
    ensures
        pi_expr(opening(b), e, d, sh) == e,
    decreases e,
{
    let out = pi_expr(opening(b), e, d, sh);
    assert forall|i: int| 0 <= i < e.kids.len() implies #[trigger] out.kids[i] == e.kids[i] by {
        lemma_open_idle_expr(b, e.kids[i], d, sh + scope_of(e.head, i));
    }
    assert(out.kids =~= e.kids);
    assert forall|i: int| 0 <= i < e.tys.len() implies #[trigger] out.tys[i] == e.tys[i] by {
        lemma_open_idle(b, e.tys[i], d, sh);
    }
    assert(out.tys =~= e.tys);
}

pub proof fn lemma_open_close(b: NameS, t: TypeS, d: u32, sh: Seq<NameS>, other: Seq<NameS>)
    requires
        plainly_named_ty(b, t),
        sets_in_ty(t),
        apart_ty(closing(b), t, d, sh),
        !refers_out(t, d),
    ensures
        pi_ty(opening(b), pi_ty(closing(b), t, d, sh), d, other) == t,
    decreases t,
{
    let mid = pi_ty(closing(b), t, d, sh);
    let out = pi_ty(opening(b), mid, d, other);
    assert forall|i: int| 0 <= i < t.kids.len() implies #[trigger] out.kids[i] == t.kids[i] by {
        assert(kid_depth(mid, i, d) == kid_depth(t, i, d));
        lemma_open_close(b, t.kids[i], kid_depth(t, i, d), sh, other);
    }
    assert(out.kids =~= t.kids);
    law_a_set_has_no_duplicates(pi_preds(closing(b), t, d, sh));
    let raw = pi_preds(opening(b), mid, d, other);
    assert forall|i: int| 0 <= i < t.preds.len() implies #[trigger] raw[i] == t.preds[i] by {
        lemma_open_close_expr(b, t.preds[i], d, sh, other);
    }
    assert(raw =~= t.preds);
    law_a_set_has_no_duplicates(raw);
}

proof fn lemma_open_close_expr(b: NameS, e: ExprS, d: u32, sh: Seq<NameS>, other: Seq<NameS>)
    requires
        plainly_named(b, e),
        sets_in(e),
        apart(closing(b), e, d, sh),
        !expr_refers_out(e, d),
    ensures
        pi_expr(opening(b), pi_expr(closing(b), e, d, sh), d, other) == e,
    decreases e,
{
    let mid = pi_expr(closing(b), e, d, sh);
    let out = pi_expr(opening(b), mid, d, other);
    assert forall|i: int| 0 <= i < e.tys.len() implies pi_ty(
        opening(b),
        #[trigger] mid.tys[i],
        d,
        other,
    ) == e.tys[i] by {
        lemma_open_close(b, e.tys[i], d, sh, other);
    }
    match e.head {
        HeadS::Var(n) => lemma_distance(b, n),
        _ => {},
    }
    if e.head == HeadS::Var(b) {
        assert(index_at(0, d) == d);
        assert(mid.tys.len() == 1);
        assert(mid.tys[0] == pi_ty(closing(b), e.tys[0], d, sh));
        assert(out.kids =~= e.kids);
        assert(out.tys =~= e.tys);
    } else {
        assert(mid.head == e.head);
        assert forall|i: int| 0 <= i < e.kids.len() implies #[trigger] out.kids[i] == e.kids[i] by {
            lemma_open_close_expr(
                b,
                e.kids[i],
                d,
                sh + scope_of(e.head, i),
                other + scope_of(e.head, i),
            );
        }
        assert(out.kids =~= e.kids);
        assert(out.tys =~= e.tys);
    }
}

proof fn lemma_close_free(b: NameS, n: NameS, t: TypeS, d: u32, sh: Seq<NameS>)
    requires
        n != b,
        !(n is PiBound),
    ensures
        free_in_ty(n, pi_ty(closing(b), t, d, sh)) ==> free_in_ty(n, t),
        apart_ty(closing(b), t, d, sh) && free_in_ty(n, t) ==> free_in_ty(
            n,
            pi_ty(closing(b), t, d, sh),
        ),
    decreases t,
{
    let out = pi_ty(closing(b), t, d, sh);
    let raw = pi_preds(closing(b), t, d, sh);
    lemma_kept_members(raw);
    assert forall|i: int| 0 <= i < t.kids.len() implies ty_binds(out, i, n) == ty_binds(t, i, n)
        && (free_in_ty(n, #[trigger] out.kids[i]) ==> free_in_ty(n, t.kids[i])) && (apart_ty(
        closing(b),
        t,
        d,
        sh,
    ) && free_in_ty(n, t.kids[i]) ==> free_in_ty(n, out.kids[i])) by {
        lemma_close_free(b, n, t.kids[i], kid_depth(t, i, d), sh);
    }
    assert forall|i: int| 0 <= i < t.preds.len() implies (free_in(n, #[trigger] raw[i]) ==> free_in(
        n,
        t.preds[i],
    )) && (apart_ty(closing(b), t, d, sh) && free_in(n, t.preds[i]) ==> free_in(n, raw[i])) by {
        lemma_close_free_expr(b, n, t.preds[i], d, sh);
    }
    if free_in_ty(n, out) && !(out.head matches TypeHeadS::ChanDom(c, _) && c == n) {
        if n != NameS::Elem && exists|i: int|
            0 <= i < out.preds.len() && free_in(n, #[trigger] out.preds[i]) {
            let i = choose|i: int| 0 <= i < out.preds.len() && free_in(n, #[trigger] out.preds[i]);
            let k = choose|k: int| 0 <= k < raw.len() && raw[k] == out.preds[i];
            assert(free_in(n, raw[k]));
            assert(free_in(n, t.preds[k]));
        } else {
            let i = choose|i: int|
                0 <= i < out.kids.len() && !ty_binds(out, i, n) && free_in_ty(
                    n,
                    #[trigger] out.kids[i],
                );
            assert(free_in_ty(n, t.kids[i]));
        }
    }
    if apart_ty(closing(b), t, d, sh) && free_in_ty(n, t) && !(t.head matches TypeHeadS::ChanDom(
        c,
        _,
    ) && c == n) {
        law_a_set_has_no_duplicates(raw);
        if n != NameS::Elem && exists|i: int|
            0 <= i < t.preds.len() && free_in(n, #[trigger] t.preds[i]) {
            let i = choose|i: int| 0 <= i < t.preds.len() && free_in(n, #[trigger] t.preds[i]);
            assert(free_in(n, raw[i]));
            assert(free_in(n, out.preds[i]));
        } else {
            let i = choose|i: int|
                0 <= i < t.kids.len() && !ty_binds(t, i, n) && free_in_ty(
                    n,
                    #[trigger] t.kids[i],
                );
            assert(free_in_ty(n, out.kids[i]));
        }
    }
}

proof fn lemma_close_free_expr(b: NameS, n: NameS, e: ExprS, d: u32, sh: Seq<NameS>)
    requires
        n != b,
        !(n is PiBound),
    ensures
        free_in(n, pi_expr(closing(b), e, d, sh)) ==> free_in(n, e),
        apart(closing(b), e, d, sh) && free_in(n, e) ==> free_in(n, pi_expr(closing(b), e, d, sh)),
    decreases e,
{
    let out = pi_expr(closing(b), e, d, sh);
    let ok = apart(closing(b), e, d, sh);
    match e.head {
        HeadS::Var(m) => lemma_distance(b, m),
        _ => {},
    }
    assert((own_ref(out.head) == Some(n)) == (own_ref(e.head) == Some(n)));
    assert forall|i: int| 0 <= i < e.kids.len() implies scope_of(out.head, i) == scope_of(e.head, i)
        && (free_in(n, #[trigger] out.kids[i]) ==> free_in(n, e.kids[i])) && (ok && free_in(
        n,
        e.kids[i],
    ) ==> free_in(n, out.kids[i])) by {
        lemma_close_free_expr(b, n, e.kids[i], d, sh + scope_of(e.head, i));
    }
    assert forall|i: int| 0 <= i < e.tys.len() implies (free_in_ty(n, #[trigger] out.tys[i])
        ==> free_in_ty(n, e.tys[i])) && (ok && free_in_ty(n, e.tys[i]) ==> free_in_ty(
        n,
        out.tys[i],
    )) by {
        lemma_close_free(b, n, e.tys[i], d, sh);
    }
    if free_in(n, out) && own_ref(out.head) != Some(n) {
        if exists|i: int|
            0 <= i < out.kids.len() && !scope_of(out.head, i).contains(n) && free_in(
                n,
                #[trigger] out.kids[i],
            ) {
            let i = choose|i: int|
                0 <= i < out.kids.len() && !scope_of(out.head, i).contains(n) && free_in(
                    n,
                    #[trigger] out.kids[i],
                );
            assert(free_in(n, e.kids[i]));
        } else {
            let i = choose|i: int| 0 <= i < out.tys.len() && free_in_ty(n, #[trigger] out.tys[i]);
            assert(free_in_ty(n, e.tys[i]));
        }
    }
    if ok && free_in(n, e) && own_ref(e.head) != Some(n) {
        if exists|i: int|
            0 <= i < e.kids.len() && !scope_of(e.head, i).contains(n) && free_in(
                n,
                #[trigger] e.kids[i],
            ) {
            let i = choose|i: int|
                0 <= i < e.kids.len() && !scope_of(e.head, i).contains(n) && free_in(
                    n,
                    #[trigger] e.kids[i],
                );
            assert(free_in(n, out.kids[i]));
        } else {
            let i = choose|i: int| 0 <= i < e.tys.len() && free_in_ty(n, #[trigger] e.tys[i]);
            assert(free_in_ty(n, out.tys[i]));
        }
    }
}

/// Closing at one name frees no other, and leaves every other that was free so
/// where no restriction is lost to another.
pub proof fn lemma_closing_leaves_other_names(b: NameS, n: NameS, t: TypeS)
    requires
        n != b,
        !(n is PiBound),
    ensures
        free_in_ty(n, closed_ty(b, t)) ==> free_in_ty(n, t),
        apart_ty(closing(b), t, 0, Seq::empty()) ==> free_in_ty(n, closed_ty(b, t)) == free_in_ty(
            n,
            t,
        ),
{
    lemma_close_free(b, n, t, 0, Seq::empty());
}

proof fn lemma_close_gone(b: NameS, t: TypeS, d: u32, sh: Seq<NameS>)
    requires
        !(b is PiBound),
        !sh.contains(b),
        !targeted_ty(b, t),
    ensures
        !free_in_ty(b, pi_ty(closing(b), t, d, sh)),
    decreases t,
{
    let out = pi_ty(closing(b), t, d, sh);
    assert forall|i: int| 0 <= i < out.kids.len() && !ty_binds(out, i, b) implies !free_in_ty(
        b,
        #[trigger] out.kids[i],
    ) by {
        assert(!ty_binds(t, i, b));
        assert(!targeted_ty(b, t.kids[i]));
        lemma_close_gone(b, t.kids[i], kid_depth(t, i, d), sh);
    }
    let raw = pi_preds(closing(b), t, d, sh);
    lemma_kept_members(raw);
    assert forall|i: int| 0 <= i < out.preds.len() && b != NameS::Elem implies !free_in(
        b,
        #[trigger] out.preds[i],
    ) by {
        let k = choose|k: int| 0 <= k < raw.len() && raw[k] == out.preds[i];
        assert(!targeted(b, t.preds[k]));
        lemma_close_gone_expr(b, t.preds[k], d, sh);
    }
}

proof fn lemma_close_gone_expr(b: NameS, e: ExprS, d: u32, sh: Seq<NameS>)
    requires
        !(b is PiBound),
        !sh.contains(b),
        !targeted(b, e),
    ensures
        !free_in(b, pi_expr(closing(b), e, d, sh)),
    decreases e,
{
    let out = pi_expr(closing(b), e, d, sh);
    match e.head {
        HeadS::Var(m) => lemma_distance(b, m),
        _ => {},
    }
    assert(own_ref(out.head) != Some(b));
    assert forall|i: int|
        0 <= i < out.kids.len() && !scope_of(out.head, i).contains(b) implies !free_in(
        b,
        #[trigger] out.kids[i],
    ) by {
        assert(scope_of(out.head, i) == scope_of(e.head, i));
        assert(!targeted(b, e.kids[i]));
        let inner = sh + scope_of(e.head, i);
        assert(!inner.contains(b)) by {
            if inner.contains(b) {
                let k = choose|k: int| 0 <= k < inner.len() && inner[k] == b;
                if k < sh.len() {
                    assert(sh[k] == b);
                } else {
                    assert(scope_of(e.head, i)[k - sh.len()] == b);
                }
            }
        }
        lemma_close_gone_expr(b, e.kids[i], d, inner);
    }
    assert forall|i: int| 0 <= i < out.tys.len() implies !free_in_ty(b, #[trigger] out.tys[i]) by {
        assert(!targeted_ty(b, e.tys[i]));
        lemma_close_gone(b, e.tys[i], d, sh);
    }
}

/// Closing at a name leaves it free nowhere, but for the free channels and
/// handles that are that name.
pub proof fn law_closing_leaves_no_reference(b: NameS, t: TypeS)
    requires
        !(b is PiBound),
        !targeted_ty(b, t),
    ensures
        !free_in_ty(b, closed_ty(b, t)),
{
    if free_in_ty(b, t) {
        lemma_close_gone(b, t, 0, Seq::empty());
    }
}

/// Closing a type that is closed already changes nothing.
pub proof fn law_closing_again_changes_nothing(b: NameS, t: TypeS)
    requires
        !(b is PiBound),
        !targeted_ty(b, t),
    ensures
        closed_ty(b, closed_ty(b, t)) == closed_ty(b, t),
{
    law_closing_leaves_no_reference(b, t);
}

/// The type with every reference to a function left without a spelling.
pub open spec fn unspelled_ty(t: TypeS) -> TypeS
    decreases t,
{
    TypeS {
        head: t.head,
        kids: Seq::new(
            t.kids.len(),
            |i: int|
                if 0 <= i < t.kids.len() {
                    unspelled_ty(t.kids[i])
                } else {
                    arbitrary()
                },
        ),
        preds: Seq::new(
            t.preds.len(),
            |i: int|
                if 0 <= i < t.preds.len() {
                    unspelled(t.preds[i])
                } else {
                    arbitrary()
                },
        ),
    }
}

/// The term with every reference to a function left without a spelling.
pub open spec fn unspelled(e: ExprS) -> ExprS
    decreases e,
{
    ExprS {
        head: head_ident(e.head),
        kids: Seq::new(
            e.kids.len(),
            |i: int|
                if 0 <= i < e.kids.len() {
                    unspelled(e.kids[i])
                } else {
                    arbitrary()
                },
        ),
        tys: Seq::new(
            e.tys.len(),
            |i: int|
                if 0 <= i < e.tys.len() {
                    unspelled_ty(e.tys[i])
                } else {
                    arbitrary()
                },
        ),
        annotated: e.annotated,
    }
}

proof fn lemma_close_open(b: NameS, t: TypeS, d: u32, sh: Seq<NameS>, other: Seq<NameS>)
    requires
        plain_ty(t),
        apart_ty(opening(b), t, d, other),
        apart_ty(closing(b), pi_ty(opening(b), t, d, other), d, sh),
        !(b is PiBound),
        b != NameS::Elem,
        !free_in_ty(b, t),
        unbound_in_ty(b, t),
        !sh.contains(b),
    ensures
        unspelled_ty(pi_ty(closing(b), pi_ty(opening(b), t, d, other), d, sh)) == unspelled_ty(t),
    decreases t,
{
    let mid = pi_ty(opening(b), t, d, other);
    let out = unspelled_ty(pi_ty(closing(b), mid, d, sh));
    let want = unspelled_ty(t);
    assert forall|i: int| 0 <= i < t.kids.len() implies #[trigger] out.kids[i] == want.kids[i] by {
        assert(kid_depth(mid, i, d) == kid_depth(t, i, d));
        assert(!ty_binds(t, i, b));
        assert(apart_ty(closing(b), mid.kids[i], kid_depth(mid, i, d), sh));
        lemma_close_open(b, t.kids[i], kid_depth(t, i, d), sh, other);
    }
    assert(out.kids =~= want.kids);
    law_a_set_has_no_duplicates(pi_preds(opening(b), t, d, other));
    law_a_set_has_no_duplicates(pi_preds(closing(b), mid, d, sh));
    assert forall|i: int| 0 <= i < t.preds.len() implies #[trigger] out.preds[i]
        == want.preds[i] by {
        assert(mid.preds[i] == pi_expr(opening(b), t.preds[i], d, other));
        assert(apart(closing(b), mid.preds[i], d, sh));
        lemma_close_open_expr(b, t.preds[i], d, sh, other);
    }
    assert(out.preds =~= want.preds);
}

proof fn lemma_close_open_expr(b: NameS, e: ExprS, d: u32, sh: Seq<NameS>, other: Seq<NameS>)
    requires
        plain_expr(e),
        apart(opening(b), e, d, other),
        apart(closing(b), pi_expr(opening(b), e, d, other), d, sh),
        !(b is PiBound),
        b != NameS::Elem,
        !free_in(b, e),
        unbound_in(b, e),
        !sh.contains(b),
    ensures
        unspelled(pi_expr(closing(b), pi_expr(opening(b), e, d, other), d, sh)) == unspelled(e),
    decreases e,
{
    let mid = pi_expr(opening(b), e, d, other);
    let shut = pi_expr(closing(b), mid, d, sh);
    let out = unspelled(shut);
    let want = unspelled(e);
    assert forall|i: int| 0 <= i < e.tys.len() implies #[trigger] want.tys[i] == unspelled_ty(
        pi_ty(closing(b), pi_ty(opening(b), e.tys[i], d, other), d, sh),
    ) by {
        assert(mid.tys[i] == pi_ty(opening(b), e.tys[i], d, other));
        assert(apart_ty(closing(b), mid.tys[i], d, sh));
        lemma_close_open(b, e.tys[i], d, sh, other);
    }
    match e.head {
        HeadS::Var(n) => {
            assert(own_ref(e.head) == Some(n));
            lemma_distance(b, n);
            lemma_distance(b, b);
            assert(n != b);
        },
        _ => {},
    }
    match e.head {
        HeadS::Var(NameS::PiBound(_, _)) => {
            assert(index_at(0, d) == d);
            assert(mid.tys.len() == 1);
            assert(mid.tys[0] == pi_ty(opening(b), e.tys[0], d, other));
            assert(shut.tys[0] == pi_ty(closing(b), mid.tys[0], d, sh));
            assert(want.tys[0] == out.tys[0]);
            assert(out.kids =~= want.kids);
            assert(out.tys =~= want.tys);
            assert(out.head == want.head);
        },
        _ => {
            assert(mid.head == e.head);
            assert forall|i: int| 0 <= i < e.kids.len() implies #[trigger] out.kids[i]
                == want.kids[i] by {
                let bs = scope_of(e.head, i);
                assert(!bs.contains(b));
                let inner = sh + bs;
                assert(!inner.contains(b)) by {
                    if inner.contains(b) {
                        let k = choose|k: int| 0 <= k < inner.len() && inner[k] == b;
                        if k < sh.len() {
                            assert(sh[k] == b);
                        } else {
                            assert(bs[k - sh.len()] == b);
                        }
                    }
                }
                assert(mid.kids[i] == pi_expr(opening(b), e.kids[i], d, other + bs));
                assert(apart(closing(b), mid.kids[i], d, sh + scope_of(mid.head, i)));
                lemma_close_open_expr(b, e.kids[i], d, inner, other + bs);
            }
            assert(out.kids =~= want.kids);
            assert(out.tys =~= want.tys) by {
                assert forall|i: int| 0 <= i < e.tys.len() implies out.tys[i] == want.tys[i] by {
                    assert(shut.tys[i] == pi_ty(closing(b), mid.tys[i], d, sh));
                }
            }
        },
    }
}

proof fn lemma_close_idle(b: NameS, t: TypeS, d: u32, sh: Seq<NameS>)
    requires
        sets_in_ty(t),
        b != NameS::Elem,
        !free_in_ty(b, t),
        unbound_in_ty(b, t),
    ensures
        pi_ty(closing(b), t, d, sh) == t,
    decreases t,
{
    let out = pi_ty(closing(b), t, d, sh);
    assert forall|i: int| 0 <= i < t.kids.len() implies #[trigger] out.kids[i] == t.kids[i] by {
        assert(!ty_binds(t, i, b));
        lemma_close_idle(b, t.kids[i], kid_depth(t, i, d), sh);
    }
    assert(out.kids =~= t.kids);
    let raw = pi_preds(closing(b), t, d, sh);
    assert forall|i: int| 0 <= i < t.preds.len() implies #[trigger] raw[i] == t.preds[i] by {
        lemma_close_idle_expr(b, t.preds[i], d, sh);
    }
    assert(raw =~= t.preds);
    law_a_set_has_no_duplicates(raw);
}

proof fn lemma_close_idle_expr(b: NameS, e: ExprS, d: u32, sh: Seq<NameS>)
    requires
        sets_in(e),
        b != NameS::Elem,
        !free_in(b, e),
        unbound_in(b, e),
    ensures
        pi_expr(closing(b), e, d, sh) == e,
    decreases e,
{
    let out = pi_expr(closing(b), e, d, sh);
    match e.head {
        HeadS::Var(n) => lemma_distance(b, n),
        _ => {},
    }
    assert forall|i: int| 0 <= i < e.kids.len() implies #[trigger] out.kids[i] == e.kids[i] by {
        assert(!scope_of(e.head, i).contains(b));
        lemma_close_idle_expr(b, e.kids[i], d, sh + scope_of(e.head, i));
    }
    assert(out.kids =~= e.kids);
    assert forall|i: int| 0 <= i < e.tys.len() implies #[trigger] out.tys[i] == e.tys[i] by {
        lemma_close_idle(b, e.tys[i], d, sh);
    }
    assert(out.tys =~= e.tys);
}

proof fn lemma_opened_unbound(b: NameS, t: TypeS, d: u32, sh: Seq<NameS>)
    requires
        plain_ty(t),
        unbound_in_ty(b, t),
    ensures
        unbound_in_ty(b, pi_ty(opening(b), t, d, sh)),
    decreases t,
{
    let out = pi_ty(opening(b), t, d, sh);
    assert forall|i: int| 0 <= i < out.kids.len() implies unbound_in_ty(b, #[trigger] out.kids[i])
        && !ty_binds(out, i, b) by {
        assert(!ty_binds(t, i, b));
        assert(unbound_in_ty(b, t.kids[i]));
        lemma_opened_unbound(b, t.kids[i], kid_depth(t, i, d), sh);
    }
    assert forall|i: int| 0 <= i < out.kids.len() implies !#[trigger] ty_binds(out, i, b) by {
        assert(unbound_in_ty(b, out.kids[i]));
    }
    let raw = pi_preds(opening(b), t, d, sh);
    lemma_kept_members(raw);
    assert forall|i: int| 0 <= i < out.preds.len() implies unbound_in(
        b,
        #[trigger] out.preds[i],
    ) by {
        let k = choose|k: int| 0 <= k < raw.len() && raw[k] == out.preds[i];
        assert(unbound_in(b, t.preds[k]));
        lemma_opened_unbound_expr(b, t.preds[k], d, sh);
    }
}

proof fn lemma_opened_unbound_expr(b: NameS, e: ExprS, d: u32, sh: Seq<NameS>)
    requires
        plain_expr(e),
        unbound_in(b, e),
    ensures
        unbound_in(b, pi_expr(opening(b), e, d, sh)),
    decreases e,
{
    let out = pi_expr(opening(b), e, d, sh);
    assert forall|i: int| 0 <= i < e.tys.len() implies unbound_in_ty(
        b,
        pi_ty(opening(b), #[trigger] e.tys[i], d, sh),
    ) by {
        lemma_opened_unbound(b, e.tys[i], d, sh);
    }
    if e.head matches HeadS::Var(n) && n is PiBound {
        assert(out.kids =~= Seq::empty());
        assert(out.tys.len() == 1);
        assert(out.tys[0] == pi_ty(opening(b), e.tys[0], d, sh));
    } else {
        assert(out.head == e.head);
        assert forall|i: int| 0 <= i < out.kids.len() implies unbound_in(
            b,
            #[trigger] out.kids[i],
        ) by {
            assert(unbound_in(b, e.kids[i]));
            lemma_opened_unbound_expr(b, e.kids[i], d, sh + scope_of(e.head, i));
        }
        assert forall|i: int| 0 <= i < out.tys.len() implies unbound_in_ty(
            b,
            #[trigger] out.tys[i],
        ) by {
            assert(out.tys[i] == pi_ty(opening(b), e.tys[i], d, sh));
        }
    }
}

/// Whether what the walk puts in holds sets.
pub open spec fn puts_in_sets(mode: PiModeS) -> bool {
    mode matches PiModeS::Open(MappingS::Discharge(e)) ==> sets_in(e)
}

/// Closing and opening leave sets: no restriction stands in one twice.
pub proof fn law_conversion_leaves_sets(mode: PiModeS, t: TypeS, d: u32, sh: Seq<NameS>)
    requires
        puts_in_sets(mode),
    ensures
        sets_in_ty(pi_ty(mode, t, d, sh)),
    decreases t,
{
    let out = pi_ty(mode, t, d, sh);
    let raw = pi_preds(mode, t, d, sh);
    law_rewrite_leaves_a_set(raw);
    lemma_kept_members(raw);
    assert forall|i: int| 0 <= i < out.kids.len() implies sets_in_ty(#[trigger] out.kids[i]) by {
        law_conversion_leaves_sets(mode, t.kids[i], kid_depth(t, i, d), sh);
    }
    assert forall|i: int| 0 <= i < out.preds.len() implies sets_in(#[trigger] out.preds[i]) by {
        let k = choose|k: int| 0 <= k < raw.len() && raw[k] == out.preds[i];
        lemma_converted_sets(mode, t.preds[k], d, sh);
    }
}

proof fn lemma_converted_sets(mode: PiModeS, e: ExprS, d: u32, sh: Seq<NameS>)
    requires
        puts_in_sets(mode),
    ensures
        sets_in(pi_expr(mode, e, d, sh)),
    decreases e,
{
    let out = pi_expr(mode, e, d, sh);
    assert forall|i: int| 0 <= i < e.tys.len() implies sets_in_ty(
        pi_ty(mode, #[trigger] e.tys[i], d, sh),
    ) by {
        law_conversion_leaves_sets(mode, e.tys[i], d, sh);
    }
    if mode is Open && points_at(e.head, d) && e.tys.len() > 0 {
        if mode->Open_0 is Rename {
            assert(out.tys.len() == 1);
            assert(out.tys[0] == pi_ty(mode, e.tys[0], d, sh));
        }
    } else {
        assert forall|i: int| 0 <= i < out.kids.len() implies sets_in(#[trigger] out.kids[i]) by {
            lemma_converted_sets(mode, e.kids[i], d, sh + scope_of(e.head, i));
        }
        assert forall|i: int| 0 <= i < out.tys.len() implies sets_in_ty(#[trigger] out.tys[i]) by {
            assert(out.tys[i] == pi_ty(mode, e.tys[i], d, sh));
        }
    }
}

/// Closing at the name a codomain was opened at gives it back, where neither walk
/// loses a restriction.
pub proof fn lemma_closing_inverts_opening(b: NameS, t: TypeS)
    requires
        plain_ty(t),
        apart_ty(opening(b), t, 0, Seq::empty()),
        apart_ty(closing(b), opened_ty(MappingS::Rename(b), t), 0, Seq::empty()),
        !(b is PiBound),
        b != NameS::Elem,
        !free_in_ty(b, t),
        unbound_in_ty(b, t),
    ensures
        unspelled_ty(closed_ty(b, opened_ty(MappingS::Rename(b), t))) == unspelled_ty(t),
{
    lemma_close_open(b, t, 0, Seq::empty(), Seq::empty());
    if !free_in_ty(b, opened_ty(MappingS::Rename(b), t)) {
        lemma_opened_unbound(b, t, 0, Seq::empty());
        law_conversion_leaves_sets(opening(b), t, 0, Seq::empty());
        lemma_close_idle(b, opened_ty(MappingS::Rename(b), t), 0, Seq::empty());
    }
}

/// A function type made by naming its argument stores no reference to it by
/// name.
pub proof fn law_made_functions_store_no_name(
    name: NameS,
    kind: FunKindS,
    range: Seq<TypeS>,
    d: TypeS,
    c: TypeS,
)
    requires
        !(name is PiBound),
        !targeted_ty(name, c),
    ensures
        own_spelling(pi_type(name, kind, range, d, c)) == Seq::<NameS>::empty(),
{
    let t = pi_type(name, kind, range, d, c);
    assert(t.kids[t.kids.len() - 1] == closed_ty(name, c));
    law_closing_leaves_no_reference(name, c);
}

} // verus!
