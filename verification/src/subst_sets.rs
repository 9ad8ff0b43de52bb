//! The law that substitution leaves sets.

use vstd::prelude::*;
use crate::ast::{ExprS, TypeHeadS, TypeS};
use crate::make::{codomain_of, domain_of};
use crate::name::NameS;
use crate::pi::{MappingS, closed_ty, kid_depth, pi_expr, pi_preds, pi_ty};
use crate::pi_laws::{closing, law_conversion_leaves_sets, sets_in, sets_in_ty};
use crate::refinement_set::{law_rewrite_leaves_a_set, lemma_kept_members};
use crate::scope::{free_in_ty, scope_of};
use crate::substitution::{
    SubstS, fun_like_s, is_iterate_marked, is_live, markers_stripped, recomposed, retargeted,
    sub_expr, sub_kids, sub_preds, sub_slots, sub_ty, ty_binder, without,
};

verus! {

/// Whether `t` is formed as types are: a function has two ends, and every term
/// records a type.
pub open spec fn formed_ty(t: TypeS) -> bool
    decreases t,
{
    (t.head is Fun ==> t.kids.len() >= 2) && (forall|i: int| 0 <= i < t.kids.len() ==> formed_ty(#[trigger] t.kids[i])) && forall|i: int|
        0 <= i < t.preds.len() ==> formed(#[trigger] t.preds[i])
}

/// Whether `e` is formed as terms are.
pub open spec fn formed(e: ExprS) -> bool
    decreases e,
{
    e.tys.len() > 0 && (forall|i: int| 0 <= i < e.kids.len() ==> formed(#[trigger] e.kids[i]))
        && forall|i: int| 0 <= i < e.tys.len() ==> formed_ty(#[trigger] e.tys[i])
}

/// Whether a substitution puts in only terms that are formed as terms are, and
/// whose restrictions stand in sets.
pub open spec fn brings_sets(sigma: SubstS) -> bool {
    forall|n: NameS| #[trigger]
        sigma.dom().contains(n) ==> (sigma[n] matches MappingS::Discharge(e) ==> sets_in(e)
            && formed(e))
}

proof fn lemma_stripped_sets(e: ExprS)
    requires
        sets_in(e),
        formed(e),
    ensures
        sets_in(markers_stripped(e)),
        formed(markers_stripped(e)),
    decreases e,
{
    if is_iterate_marked(e) {
        assert(sets_in(e.kids[1]) && formed(e.kids[1]));
        lemma_stripped_sets(e.kids[1]);
    } else {
        let out = markers_stripped(e);
        assert forall|i: int| 0 <= i < out.kids.len() implies sets_in(#[trigger] out.kids[i])
            && formed(out.kids[i]) by {
            assert(sets_in(e.kids[i]) && formed(e.kids[i]));
            lemma_stripped_sets(e.kids[i]);
        }
    }
}

spec fn good_ty(t: TypeS) -> bool {
    sets_in_ty(t) && formed_ty(t)
}

proof fn lemma_closed_formed(b: NameS, t: TypeS, d: u32, sh: Seq<NameS>)
    requires
        formed_ty(t),
    ensures
        formed_ty(pi_ty(closing(b), t, d, sh)),
    decreases t,
{
    let out = pi_ty(closing(b), t, d, sh);
    let raw = pi_preds(closing(b), t, d, sh);
    lemma_kept_members(raw);
    assert forall|i: int| 0 <= i < out.kids.len() implies formed_ty(#[trigger] out.kids[i]) by {
        lemma_closed_formed(b, t.kids[i], kid_depth(t, i, d), sh);
    }
    assert forall|i: int| 0 <= i < out.preds.len() implies formed(#[trigger] out.preds[i]) by {
        let k = choose|k: int| 0 <= k < raw.len() && raw[k] == out.preds[i];
        lemma_closed_recorded_expr(b, t.preds[k], d, sh);
    }
}

proof fn lemma_closed_recorded_expr(b: NameS, e: ExprS, d: u32, sh: Seq<NameS>)
    requires
        formed(e),
    ensures
        formed(pi_expr(closing(b), e, d, sh)),
    decreases e,
{
    let out = pi_expr(closing(b), e, d, sh);
    assert forall|i: int| 0 <= i < out.kids.len() implies formed(#[trigger] out.kids[i]) by {
        lemma_closed_recorded_expr(b, e.kids[i], d, sh + scope_of(e.head, i));
    }
    assert forall|i: int| 0 <= i < out.tys.len() implies formed_ty(#[trigger] out.tys[i]) by {
        lemma_closed_formed(b, e.tys[i], d, sh);
    }
}

proof fn lemma_ends_good(t: TypeS)
    requires
        good_ty(t),
    ensures
        domain_of(t) matches Some(d) ==> good_ty(d),
        codomain_of(t) matches Some(c) ==> good_ty(c),
{
    if t.head is Fun {
        let n = t.kids.len();
        assert(sets_in_ty(t.kids[n - 2]) && formed_ty(t.kids[n - 2]));
        assert(sets_in_ty(t.kids[n - 1]) && formed_ty(t.kids[n - 1]));
    }
}

proof fn lemma_fun_like_good(exemplar: TypeS, d: TypeS, c: TypeS)
    requires
        good_ty(exemplar),
        good_ty(d),
        good_ty(c),
    ensures
        good_ty(fun_like_s(exemplar, d, c)),
{
    let out = fun_like_s(exemplar, d, c);
    if let TypeHeadS::Fun(Some(b), _) = exemplar.head {
        if free_in_ty(b, c) {
            law_conversion_leaves_sets(closing(b), c, 0, Seq::empty());
            lemma_closed_formed(b, c, 0, Seq::empty());
        }
        assert(good_ty(closed_ty(b, c)));
    }
    assert forall|i: int| 0 <= i < out.kids.len() implies good_ty(#[trigger] out.kids[i]) by {
        if exemplar.head is Fun {
            let n = exemplar.kids.len() - 2;
            if i < n {
                assert(out.kids[i] == exemplar.kids[i]);
                assert(sets_in_ty(exemplar.kids[i]) && formed_ty(exemplar.kids[i]));
            }
        } else {
            if i == 0 {
            } else {
                assert(i == 1);
            }
        }
    }
    assert forall|i: int| 0 <= i < out.kids.len() implies sets_in_ty(#[trigger] out.kids[i])
        && formed_ty(out.kids[i]) by {
        assert(good_ty(out.kids[i]));
    }
}

spec fn good(e: ExprS) -> bool {
    sets_in(e) && formed(e)
}

proof fn lemma_recomposed_good(e: ExprS)
    requires
        good(e),
    ensures
        good(recomposed(e)),
{
    let out = recomposed(e);
    if e.head is Compose && e.kids.len() > 0 {
        let first = e.kids[0];
        let last = e.kids[e.kids.len() - 1];
        assert(good(first) && good(last));
        assert(good_ty(first.tys[0]));
        assert(good_ty(last.tys[0]));
        assert(good_ty(e.tys[0]));
        lemma_ends_good(first.ty());
        lemma_ends_good(last.ty());
        if domain_of(first.ty()) is Some && codomain_of(last.ty()) is Some {
            lemma_fun_like_good(e.ty(), domain_of(first.ty())->0, codomain_of(last.ty())->0);
            assert forall|i: int| 0 <= i < out.tys.len() implies sets_in_ty(#[trigger] out.tys[i])
                && formed_ty(out.tys[i]) by {
                if i > 0 {
                    assert(out.tys[i] == e.tys[i]);
                }
            }
            assert(out.kids == e.kids);
        }
    }
}

proof fn lemma_brings_less(sigma: SubstS, ns: Seq<NameS>)
    requires
        brings_sets(sigma),
    ensures
        brings_sets(without(sigma, ns)),
{
    let inner = without(sigma, ns);
    assert forall|n: NameS| #[trigger] inner.dom().contains(n) implies (inner[n] matches
        MappingS::Discharge(e) ==> sets_in(e) && formed(e)) by {
        assert(sigma.dom().contains(n));
    }
}

proof fn lemma_sub_good(in_place: bool, sigma: SubstS, e: ExprS)
    requires
        brings_sets(sigma),
        good(e),
    ensures
        good(sub_expr(in_place, sigma, e)),
    decreases e, 1int,
{
    if is_live(sigma, e) {
        if e.head is Var && sigma.dom().contains(e.head->Var_0) {
            let out = sub_expr(in_place, sigma, e);
            assert(good_ty(e.tys[0]));
            if sigma[e.head->Var_0] is Rename {
                assert(out.tys =~= seq![e.tys[0]]);
            }
        } else {
            let out = ExprS {
                head: retargeted(sigma, e.head),
                kids: sub_kids(in_place, sigma, e),
                tys: sub_slots(in_place, sigma, e),
                annotated: e.annotated,
            };
            assert forall|i: int| 0 <= i < out.kids.len() implies sets_in(#[trigger] out.kids[i])
                && formed(out.kids[i]) by {
                assert(good(e.kids[i]));
                lemma_brings_less(sigma, scope_of(e.head, i));
                lemma_sub_good(in_place, without(sigma, scope_of(e.head, i)), e.kids[i]);
            }
            assert forall|i: int| 0 <= i < out.tys.len() implies sets_in_ty(#[trigger] out.tys[i])
                && formed_ty(out.tys[i]) by {
                assert(good_ty(e.tys[i]));
                lemma_sub_ty_good(in_place, sigma, e.tys[i]);
            }
            assert(good(out));
            lemma_recomposed_good(out);
        }
    }
}

proof fn lemma_sub_ty_good(in_place: bool, sigma: SubstS, t: TypeS)
    requires
        brings_sets(sigma),
        good_ty(t),
    ensures
        good_ty(sub_ty(in_place, sigma, t)),
    decreases t, 1int,
{
    if sigma != Map::<NameS, MappingS>::empty() {
        let out = sub_ty(in_place, sigma, t);
        let raw = sub_preds(in_place, sigma, t);
        let inner = without(sigma, seq![NameS::Elem]);
        law_rewrite_leaves_a_set(raw);
        lemma_kept_members(raw);
        lemma_brings_less(sigma, seq![NameS::Elem]);
        assert forall|i: int| 0 <= i < out.kids.len() implies sets_in_ty(#[trigger] out.kids[i])
            && formed_ty(out.kids[i]) by {
            assert(good_ty(t.kids[i]));
            lemma_brings_less(sigma, ty_binder(t, i));
            lemma_sub_ty_good(in_place, without(sigma, ty_binder(t, i)), t.kids[i]);
        }
        assert forall|i: int| 0 <= i < out.preds.len() implies sets_in(#[trigger] out.preds[i])
            && formed(out.preds[i]) by {
            let k = choose|k: int| 0 <= k < raw.len() && raw[k] == out.preds[i];
            assert(good(t.preds[k]));
            lemma_sub_good(in_place, inner, t.preds[k]);
            lemma_stripped_sets(sub_expr(in_place, inner, t.preds[k]));
        }
    }
}

/// A substitution that puts in terms whose restrictions stand in sets leaves
/// sets: no restriction of a type stands in one twice, even where two have
/// become one.
pub proof fn law_substitution_leaves_sets(in_place: bool, sigma: SubstS, t: TypeS)
    requires
        brings_sets(sigma),
        sets_in_ty(t),
        formed_ty(t),
    ensures
        sets_in_ty(sub_ty(in_place, sigma, t)),
        formed_ty(sub_ty(in_place, sigma, t)),
{
    lemma_sub_ty_good(in_place, sigma, t);
}

} // verus!
