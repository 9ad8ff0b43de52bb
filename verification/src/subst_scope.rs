//! What a substitution leaves free in a term, and that it leaves typed what was
//! typed.
//!
//! A name a form writes as its handle stays where the substitution has no name
//! to put in its place, so the handles are spoken of apart.

use vstd::prelude::*;
use crate::ast::{ExprS, HeadS};
use crate::name::NameS;
use crate::pi::MappingS;
use crate::scope::{free_in, free_in_value, own_ref, scope_of};
use crate::subst_laws::{handle_of, leafy, lemma_free_in_value, mentions_name, writes_free};
use crate::substitution::{
    SubstS, handle_target, is_live, may_cross, range_mentions, sub_expr, sub_kids, sub_ok,
    sub_slots, without,
};

verus! {

/// Whether `s` puts `n` in for some name.
pub open spec fn puts_in(s: SubstS, n: NameS) -> bool {
    exists|k: NameS| #[trigger] s.dom().contains(k) && mentions_name(s[k], n)
}

/// Whether a free reference in the value of `e` is to `n`.
pub open spec fn reads_name(n: NameS, e: ExprS) -> bool
    decreases e,
{
    e.head == HeadS::Var(n) || exists|i: int|
        0 <= i < e.kids.len() && !scope_of(e.head, i).contains(n) && reads_name(
            n,
            #[trigger] e.kids[i],
        )
}

/// Whether every node of the value of `e` has a type.
pub open spec fn typed(e: ExprS) -> bool
    decreases e,
{
    e.tys.len() > 0 && !(e.ty().head is Hole) && forall|i: int|
        0 <= i < e.kids.len() ==> typed(#[trigger] e.kids[i])
}

/// Whether every term that `s` puts in is typed.
pub open spec fn range_typed(s: SubstS) -> bool {
    forall|k: NameS| #[trigger]
        s.dom().contains(k) ==> (s[k] matches MappingS::Discharge(t) ==> typed(t))
}

/// What a substitution leaves free was free before, or came in with what it
/// puts in.
pub proof fn law_no_name_from_elsewhere(in_place: bool, s: SubstS, e: ExprS, n: NameS)
    requires
        free_in_value(n, sub_expr(in_place, s, e)),
    ensures
        free_in_value(n, e) || puts_in(s, n),
    decreases e,
{
    let out = sub_expr(in_place, s, e);
    if is_live(s, e) && !free_in_value(n, e) {
        if e.head is Var && s.dom().contains(e.head->Var_0) {
            assert(mentions_name(s[e.head->Var_0], n));
        } else {
            assert(out.kids == sub_kids(in_place, s, e));
            if own_ref(out.head) == Some(n) {
                let h = handle_of(e.head)->0;
                assert(own_ref(e.head) == Some(h));
                assert(s.dom().contains(h) && mentions_name(s[h], n));
            } else {
                let i = choose|i: int|
                    0 <= i < out.kids.len() && !scope_of(out.head, i).contains(n) && free_in_value(
                        n,
                        #[trigger] out.kids[i],
                    );
                let inner = without(s, scope_of(e.head, i));
                assert(scope_of(out.head, i) == scope_of(e.head, i));
                law_no_name_from_elsewhere(in_place, inner, e.kids[i], n);
                if puts_in(inner, n) {
                    let k = choose|k: NameS| #[trigger]
                        inner.dom().contains(k) && mentions_name(inner[k], n);
                    assert(s.dom().contains(k) && mentions_name(s[k], n));
                }
            }
        }
    }
}

/// A name that a substitution replaces is free no more, where nothing it puts
/// in mentions the name. A handle keeps its name unless a name is put in for it.
pub proof fn law_replaced_name_is_gone(in_place: bool, s: SubstS, e: ExprS, n: NameS)
    requires
        s.dom().contains(n),
        !puts_in(s, n),
        handle_target(s, n) == n ==> !writes_free(n, e),
    ensures
        !free_in_value(n, sub_expr(in_place, s, e)),
    decreases e,
{
    let out = sub_expr(in_place, s, e);
    if !is_live(s, e) {
        lemma_free_in_value(n, e);
        assert(!free_in(n, e));
    } else if e.head is Var && s.dom().contains(e.head->Var_0) {
        if free_in_value(n, out) {
            assert(mentions_name(s[e.head->Var_0], n));
        }
    } else {
        assert(out.kids == sub_kids(in_place, s, e));
        assert forall|i: int| 0 <= i < out.kids.len() && !scope_of(out.head, i).contains(n)
            implies !free_in_value(n, #[trigger] out.kids[i]) by {
            let inner = without(s, scope_of(e.head, i));
            assert(scope_of(out.head, i) == scope_of(e.head, i));
            if puts_in(inner, n) {
                let k = choose|k: NameS| #[trigger]
                    inner.dom().contains(k) && mentions_name(inner[k], n);
                assert(s.dom().contains(k) && mentions_name(s[k], n));
            }
            assert(handle_target(inner, n) == handle_target(s, n));
            law_replaced_name_is_gone(in_place, inner, e.kids[i], n);
        }
        if own_ref(out.head) == Some(n) {
            match handle_of(e.head) {
                Some(h) => {
                    if s.dom().contains(h) {
                        assert(handle_target(s, h) == n);
                        if h != n {
                            assert(mentions_name(s[h], n));
                        } else {
                            assert(writes_free(n, e));
                        }
                    }
                },
                None => {},
            }
        }
    }
}

proof fn lemma_reads_free(n: NameS, e: ExprS)
    ensures
        reads_name(n, e) ==> free_in(n, e),
    decreases e,
{
    if reads_name(n, e) && e.head != HeadS::Var(n) {
        let i = choose|i: int|
            0 <= i < e.kids.len() && !scope_of(e.head, i).contains(n) && reads_name(
                n,
                #[trigger] e.kids[i],
            );
        lemma_reads_free(n, e.kids[i]);
    }
}

/// Nothing is captured: what a substitution puts in for a name that
/// the term refers to is free in the result.
pub proof fn law_nothing_is_captured(in_place: bool, s: SubstS, e: ExprS, k: NameS, n: NameS)
    requires
        sub_ok(in_place, s, e),
        leafy(e),
        s.dom().contains(k),
        reads_name(k, e),
        mentions_name(s[k], n),
    ensures
        free_in_value(n, sub_expr(in_place, s, e)),
    decreases e,
{
    lemma_reads_free(k, e);
    assert(is_live(s, e));
    let out = sub_expr(in_place, s, e);
    if e.head is Var && s.dom().contains(e.head->Var_0) {
        assert(e.head == HeadS::Var(k));
    } else {
        assert(out.kids == sub_kids(in_place, s, e));
        let i = choose|i: int|
            0 <= i < e.kids.len() && !scope_of(e.head, i).contains(k) && reads_name(
                k,
                #[trigger] e.kids[i],
            );
        let inner = without(s, scope_of(e.head, i));
        assert(sub_ok(in_place, inner, e.kids[i]) && may_cross(in_place, s, e, i));
        lemma_reads_free(k, e.kids[i]);
        assert(is_live(inner, e.kids[i])) by {
            assert(inner.dom().contains(k));
        }
        law_nothing_is_captured(in_place, inner, e.kids[i], k, n);
        assert(range_mentions(inner, n)) by {
            assert(inner.dom().contains(k));
            match inner[k] {
                MappingS::Discharge(t) => lemma_free_in_value(n, t),
                _ => {},
            }
        }
        assert(!scope_of(e.head, i).contains(n));
        assert(scope_of(out.head, i) == scope_of(e.head, i));
        assert(free_in_value(n, out.kids[i]));
    }
}

/// Where the terms a substitution puts in are typed, it leaves a typed term typed.
pub proof fn law_typed_stays_typed(in_place: bool, s: SubstS, e: ExprS)
    requires
        typed(e),
        range_typed(s),
    ensures
        typed(sub_expr(in_place, s, e)),
    decreases e,
{
    let out = sub_expr(in_place, s, e);
    if !is_live(s, e) {
    } else if e.head is Var && s.dom().contains(e.head->Var_0) {
    } else {
        let kids = sub_kids(in_place, s, e);
        let slots = sub_slots(in_place, s, e);
        assert(out.kids == kids);
        assert(slots[0].head is Hole ==> e.tys[0].head is Hole);
        assert forall|i: int| 0 <= i < out.kids.len() implies typed(#[trigger] out.kids[i]) by {
            let inner = without(s, scope_of(e.head, i));
            assert(range_typed(inner));
            law_typed_stays_typed(in_place, inner, e.kids[i]);
        }
    }
}

} // verus!
