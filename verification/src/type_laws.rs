//! The laws of building types.

use vstd::prelude::*;
use crate::ast::{ExprS, FunKindS, Refinement, TypeHeadS, TypeS};
use crate::canonical::pi_unnamed;
use crate::name::NameS;
use crate::predicate_laws::{law_added_restriction_is_there, law_predicate_equals_itself};
use crate::refine_eq::same_pred;
use crate::refinement_set::{set_extend, set_has, set_insert};
use crate::type_forms::{option_payload_s, option_ty, refined_ty};

verus! {

/// Whether `t` is restricted at most once, and by something.
pub open spec fn restricted_once(t: TypeS) -> bool {
    t.head is Refinement ==> t.kids.len() == 1 && !(t.kids[0].head is Refinement) && t.preds.len()
        > 0
}

/// A type of a possibly absent value gives its payload back.
pub proof fn law_option_gives_back_its_payload(payload: TypeS)
    ensures
        option_payload_s(option_ty(payload)) == Some(payload),
{
}

/// However often a type is restricted, its restrictions stand side by side: none
/// is nested in another, and a restricted type is restricted by something.
pub proof fn law_restrictions_do_not_nest(t: TypeS, ps: Seq<ExprS>)
    requires
        restricted_once(t),
    ensures
        restricted_once(refined_ty(t, ps)),
        ps.len() == 0 ==> refined_ty(t, ps) == t,
{
    lemma_extend_grows(t.preds, ps);
}

proof fn lemma_extend_grows(s: Seq<ExprS>, ps: Seq<ExprS>)
    ensures
        set_extend(s, ps).len() >= s.len(),
    decreases ps.len(),
{
    if ps.len() > 0 {
        lemma_extend_grows(s, ps.drop_last());
    }
}

proof fn lemma_insert_keeps(s: Seq<ExprS>, q: ExprS, p: ExprS)
    requires
        set_has(s, p),
    ensures
        set_has(set_insert(s, q), p),
{
    let j = choose|j: int| 0 <= j < s.len() && same_pred(#[trigger] s[j], p);
    let t = set_insert(s, q);
    assert(t[j] == s[j]);
}

proof fn lemma_extend_has(s: Seq<ExprS>, ps: Seq<ExprS>, i: int)
    requires
        0 <= i < ps.len(),
    ensures
        set_has(set_extend(s, ps), ps[i]),
    decreases ps.len(),
{
    let d = ps.drop_last();
    if i < d.len() {
        assert(d[i] == ps[i]);
        lemma_extend_has(s, d, i);
        lemma_insert_keeps(set_extend(s, d), ps.last(), ps[i]);
    } else {
        law_added_restriction_is_there(set_extend(s, d), ps[i]);
    }
}

proof fn lemma_extend_keeps(s: Seq<ExprS>, ps: Seq<ExprS>, p: ExprS)
    requires
        set_has(s, p),
    ensures
        set_has(set_extend(s, ps), p),
    decreases ps.len(),
{
    if ps.len() > 0 {
        lemma_extend_keeps(s, ps.drop_last(), p);
        lemma_insert_keeps(set_extend(s, ps.drop_last()), ps.last(), p);
    }
}

/// Restricting a type keeps the restrictions it had, and adds each that is put on.
pub proof fn law_restricting_loses_nothing(t: TypeS, ps: Seq<ExprS>, p: ExprS)
    requires
        t.head is Refinement && set_has(t.preds, p) || ps.contains(p),
    ensures
        refined_ty(t, ps).head is Refinement,
        set_has(refined_ty(t, ps).preds, p),
{
    if t.head is Refinement && set_has(t.preds, p) {
        lemma_extend_keeps(t.preds, ps, p);
    } else {
        let i = choose|i: int| 0 <= i < ps.len() && ps[i] == p;
        if t.head is Refinement {
            lemma_extend_has(t.preds, ps, i);
        } else {
            law_predicate_equals_itself(p);
            assert(same_pred(ps[i], p));
        }
    }
}

/// A copy without the names of arguments does not tell two names apart.
pub proof fn law_names_of_arguments_are_forgotten(
    a: Option<NameS>,
    b: Option<NameS>,
    kind: FunKindS,
    kids: Seq<TypeS>,
    preds: Seq<ExprS>,
)
    ensures
        pi_unnamed((TypeS { head: TypeHeadS::Fun(a, kind), kids, preds })) == pi_unnamed(
            (TypeS { head: TypeHeadS::Fun(b, kind), kids, preds }),
        ),
{
    let s = TypeS { head: TypeHeadS::Fun(a, kind), kids, preds };
    let t = TypeS { head: TypeHeadS::Fun(b, kind), kids, preds };
    assert(pi_unnamed(s).kids =~= pi_unnamed(t).kids);
}

} // verus!
