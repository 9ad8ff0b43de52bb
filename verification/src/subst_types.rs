//! What a substitution in place leaves free in a term, its type slots included.

use vstd::prelude::*;
use crate::ast::{ExprS, HeadS, TypeHeadS, TypeS};
use crate::make::{codomain_of, domain_of};
use crate::name::NameS;
use crate::pi::{MappingS, closed_ty};
use crate::pi_laws::lemma_closing_leaves_other_names;
use crate::refinement_set::lemma_kept_members;
use crate::scope::{free_in, free_in_ty, own_ref, scope_of, ty_binds};
use crate::subst_laws::{handle_of, leafy, writes_free};
use crate::substitution::{
    SubstS, fun_like_s, handle_target, is_iterate_marked, is_live, markers_stripped, recomposed,
    retargeted, sub_expr, sub_kids, sub_preds, sub_slots, sub_ty, ty_binder, without,
};

verus! {

/// Whether the codomain of `t`, where `t` names its argument `n`, does not refer
/// to it by that name.
pub open spec fn ends_well(n: NameS, t: TypeS) -> bool {
    &&& t.head is Fun ==> t.kids.len() >= 2
    &&& t.head matches TypeHeadS::Fun(Some(b), _) ==> b == n ==> !free_in_ty(
        n,
        t.kids[t.kids.len() - 1],
    )
}

/// Whether `t` is a type as types are stored: a function has two ends, and one
/// that names its argument `n` does not refer to it by that name.
pub open spec fn stored_ty(n: NameS, t: TypeS) -> bool
    decreases t,
{
    &&& ends_well(n, t)
    &&& forall|i: int| 0 <= i < t.kids.len() ==> stored_ty(n, #[trigger] t.kids[i])
    &&& forall|i: int| 0 <= i < t.preds.len() ==> stored(n, #[trigger] t.preds[i])
}

/// Whether `e` records a type, and the types in it are as types are stored.
pub open spec fn stored(n: NameS, e: ExprS) -> bool
    decreases e,
{
    &&& e.tys.len() > 0
    &&& forall|i: int| 0 <= i < e.kids.len() ==> stored(n, #[trigger] e.kids[i])
    &&& forall|i: int| 0 <= i < e.tys.len() ==> stored_ty(n, #[trigger] e.tys[i])
}

/// Whether a channel or a handle free in `t` is `n`.
pub open spec fn targeted_ty(n: NameS, t: TypeS) -> bool
    decreases t,
{
    ||| t.head matches TypeHeadS::ChanDom(c, _) && c == n
    ||| n != NameS::Elem && exists|i: int|
        0 <= i < t.preds.len() && targeted(n, #[trigger] t.preds[i])
    ||| exists|i: int|
        0 <= i < t.kids.len() && !ty_binds(t, i, n) && targeted_ty(n, #[trigger] t.kids[i])
}

/// Whether a channel or a handle free in `e` is `n`.
pub open spec fn targeted(n: NameS, e: ExprS) -> bool
    decreases e,
{
    ||| handle_of(e.head) == Some(n)
    ||| exists|i: int|
        0 <= i < e.kids.len() && !scope_of(e.head, i).contains(n) && targeted(
            n,
            #[trigger] e.kids[i],
        )
    ||| exists|i: int| 0 <= i < e.tys.len() && targeted_ty(n, #[trigger] e.tys[i])
}

/// Whether `s` puts in terms only, in none of which `n` is free.
pub open spec fn puts_in_terms_without(n: NameS, s: SubstS) -> bool {
    forall|k: NameS| #[trigger]
        s.dom().contains(k) ==> (s[k] matches MappingS::Discharge(t) && !free_in(n, t)
            && t.tys.len() > 0 && ends_well(n, t.ty()))
}

/// Whether `n` is to be gone: it is replaced or was not there, and no handle
/// keeps it.
spec fn goes(n: NameS, s: SubstS, e: ExprS) -> bool {
    &&& s.dom().contains(n) || !free_in(n, e)
    &&& handle_target(s, n) == n ==> !targeted(n, e)
}

spec fn goes_ty(n: NameS, s: SubstS, t: TypeS) -> bool {
    &&& s.dom().contains(n) || !free_in_ty(n, t)
    &&& handle_target(s, n) == n ==> !targeted_ty(n, t)
}

/// Taking markers off frees no name.
proof fn lemma_stripped(n: NameS, e: ExprS)
    requires
        !free_in(n, e),
    ensures
        !free_in(n, markers_stripped(e)),
    decreases e,
{
    if is_iterate_marked(e) {
        assert(!free_in(n, e.kids[1]));
        lemma_stripped(n, e.kids[1]);
    } else {
        let out = markers_stripped(e);
        assert(out.tys == e.tys);
        assert forall|i: int|
            0 <= i < out.kids.len() && !scope_of(out.head, i).contains(n) implies !free_in(
            n,
            #[trigger] out.kids[i],
        ) by {
            assert(!free_in(n, e.kids[i]));
            lemma_stripped(n, e.kids[i]);
        }
    }
}

/// Taking the ends of a composition's type from its parts frees no name.
proof fn lemma_recomposed(n: NameS, e: ExprS)
    requires
        !(n is PiBound),
        !free_in(n, e),
        e.tys.len() > 0,
        ends_well(n, e.ty()),
        forall|i: int|
            0 <= i < e.kids.len() ==> (#[trigger] e.kids[i]).tys.len() > 0 && ends_well(
                n,
                e.kids[i].ty(),
            ),
    ensures
        !free_in(n, recomposed(e)),
        recomposed(e).tys.len() > 0,
        ends_well(n, recomposed(e).ty()),
{
    let out = recomposed(e);
    if e.head is Compose && e.kids.len() > 0 && domain_of(e.kids[0].ty()) is Some && codomain_of(
        e.kids[e.kids.len() - 1].ty(),
    ) is Some {
        let k = e.kids.len() as int;
        let first = e.kids[0].ty();
        let last = e.kids[k - 1].ty();
        let d = domain_of(first)->0;
        let c = codomain_of(last)->0;
        let t = fun_like_s(e.ty(), d, c);
        assert(!free_in(n, e.kids[0]) && !free_in(n, e.kids[k - 1]));
        assert(!free_in_ty(n, e.kids[0].tys[0]) && !free_in_ty(n, e.kids[k - 1].tys[0]));
        assert(!free_in_ty(n, e.tys[0]));
        assert(ends_well(n, first) && ends_well(n, last));
        assert(!free_in_ty(n, d)) by {
            assert(!ty_binds(first, first.kids.len() - 2, n));
            assert(!free_in_ty(n, first.kids[first.kids.len() - 2]));
        }
        assert(!free_in_ty(n, c)) by {
            let i = last.kids.len() - 1;
            assert(ty_binds(last, i, n) || !free_in_ty(n, last.kids[i]));
        }
        match e.ty().head {
            TypeHeadS::Fun(name, _) => {
                let m = e.ty().kids.len() as int;
                let end = match name {
                    Some(b) => closed_ty(b, c),
                    None => c,
                };
                match name {
                    Some(b) => {
                        if b != n {
                            lemma_closing_leaves_other_names(b, n, c);
                        }
                    },
                    None => {},
                }
                assert(!free_in_ty(n, end));
                assert forall|i: int|
                    0 <= i < t.kids.len() && !ty_binds(t, i, n) implies !free_in_ty(
                    n,
                    #[trigger] t.kids[i],
                ) by {
                    if i < m - 2 {
                        assert(t.kids[i] == e.ty().kids[i]);
                        assert(!ty_binds(e.ty(), i, n));
                    } else if i == m - 2 {
                        assert(t.kids[i] == d);
                    } else {
                        assert(t.kids[i] == end);
                    }
                }
                assert(t.kids[t.kids.len() - 1] == end);
            },
            _ => {
                assert(t.kids =~= seq![d, c]);
                assert(t.kids[0] == d && t.kids[1] == c);
            },
        }
        assert(!free_in_ty(n, t));
        assert(out.tys[0] == t);
        assert forall|i: int| 0 <= i < out.tys.len() implies !free_in_ty(n, #[trigger] out.tys[i]) by {
            if i > 0 {
                assert(out.tys[i] == e.tys[i]);
            }
        }
        assert(out.kids == e.kids && out.head == e.head);
    }
}

proof fn lemma_without_keeps(n: NameS, s: SubstS, ns: Seq<NameS>)
    requires
        puts_in_terms_without(n, s),
    ensures
        puts_in_terms_without(n, without(s, ns)),
{
    let inner = without(s, ns);
    assert forall|k: NameS| #[trigger] inner.dom().contains(k) implies (
    inner[k] matches MappingS::Discharge(t) && !free_in(n, t) && t.tys.len() > 0 && ends_well(
        n,
        t.ty(),
    )) by {
        assert(s.dom().contains(k));
    }
}

/// A handle that is not to stay is not kept.
proof fn lemma_target(n: NameS, s: SubstS, h: NameS)
    requires
        puts_in_terms_without(n, s),
        h == n ==> handle_target(s, n) != n,
    ensures
        handle_target(s, h) != n,
{
    if h != n && s.dom().contains(h) {
        assert(s[h] is Discharge);
        let t = s[h]->Discharge_0;
        if t.head == HeadS::Var(n) {
            assert(own_ref(t.head) == Some(n));
            assert(free_in(n, t));
        }
    }
}

proof fn lemma_gone_ty(s: SubstS, t: TypeS, n: NameS)
    requires
        !(n is PiBound),
        puts_in_terms_without(n, s),
        stored_ty(n, t),
        goes_ty(n, s, t),
    ensures
        !free_in_ty(n, sub_ty(true, s, t)),
        ends_well(n, sub_ty(true, s, t)),
    decreases t,
{
    let out = sub_ty(true, s, t);
    if s != Map::<NameS, MappingS>::empty() {
        assert forall|i: int|
            0 <= i < t.kids.len() && (!ty_binds(t, i, n) || !free_in_ty(n, t.kids[i]))
                implies !free_in_ty(n, #[trigger] out.kids[i]) by {
            let inner = without(s, ty_binder(t, i));
            lemma_without_keeps(n, s, ty_binder(t, i));
            assert(stored_ty(n, t.kids[i]));
            if !free_in_ty(n, t.kids[i]) {
                lemma_targeted_free_ty(n, t.kids[i]);
            } else {
                assert(!ty_binds(t, i, n));
                assert(!ty_binder(t, i).contains(n));
                assert(s.dom().contains(n));
                assert(inner.dom().contains(n) && inner[n] == s[n]);
                assert(handle_target(inner, n) == handle_target(s, n));
            }
            lemma_gone_ty(inner, t.kids[i], n);
        }
        match t.head {
            TypeHeadS::ChanDom(c, _) => {
                if c == n && handle_target(s, n) == n {
                    assert(targeted_ty(n, t));
                }
                lemma_target(n, s, c);
            },
            _ => {},
        }
        let raw = sub_preds(true, s, t);
        let inner = without(s, seq![NameS::Elem]);
        lemma_without_keeps(n, s, seq![NameS::Elem]);
        assert forall|i: int| 0 <= i < raw.len() && n != NameS::Elem implies !free_in(
            n,
            #[trigger] raw[i],
        ) by {
            assert(stored(n, t.preds[i]));
            assert(!seq![NameS::Elem].contains(n)) by {
                if seq![NameS::Elem].contains(n) {
                    let k = choose|k: int| 0 <= k < 1 && seq![NameS::Elem][k] == n;
                }
            }
            if s.dom().contains(n) {
                assert(inner.dom().contains(n) && inner[n] == s[n]);
                assert(handle_target(inner, n) == handle_target(s, n));
            } else {
                assert(!free_in(n, t.preds[i]));
                lemma_targeted_free(n, t.preds[i]);
            }
            if is_live(inner, t.preds[i]) {
                lemma_gone(inner, t.preds[i], n);
                lemma_stripped(n, sub_expr(true, inner, t.preds[i]));
            } else if s.dom().contains(n) {
                assert(inner.dom().contains(n));
            }
        }
        lemma_kept_members(raw);
        assert forall|i: int| 0 <= i < out.preds.len() && n != NameS::Elem implies !free_in(
            n,
            #[trigger] out.preds[i],
        ) by {
            let k = choose|k: int| 0 <= k < raw.len() && raw[k] == out.preds[i];
            assert(!free_in(n, raw[k]));
        }
        assert forall|i: int| 0 <= i < t.kids.len() implies ty_binds(out, i, n) == ty_binds(
            t,
            i,
            n,
        ) by {}
        if t.head is Fun {
            let last = t.kids.len() - 1;
            assert(ty_binds(t, last, n) ==> !free_in_ty(n, t.kids[last]));
            assert(!free_in_ty(n, out.kids[last]));
        }
        if free_in_ty(n, out) {
            let i = choose|i: int|
                0 <= i < out.kids.len() && !ty_binds(out, i, n) && free_in_ty(
                    n,
                    #[trigger] out.kids[i],
                );
            assert(!ty_binds(t, i, n));
        }
    }
}

/// What is targeted is free.
proof fn lemma_targeted_free_ty(n: NameS, t: TypeS)
    ensures
        targeted_ty(n, t) ==> free_in_ty(n, t),
    decreases t,
{
    if targeted_ty(n, t) && !(t.head matches TypeHeadS::ChanDom(c, _) && c == n) {
        if n != NameS::Elem && exists|i: int|
            0 <= i < t.preds.len() && targeted(n, #[trigger] t.preds[i]) {
            let i = choose|i: int| 0 <= i < t.preds.len() && targeted(n, #[trigger] t.preds[i]);
            lemma_targeted_free(n, t.preds[i]);
        } else {
            let i = choose|i: int|
                0 <= i < t.kids.len() && !ty_binds(t, i, n) && targeted_ty(
                    n,
                    #[trigger] t.kids[i],
                );
            lemma_targeted_free_ty(n, t.kids[i]);
        }
    }
}

proof fn lemma_targeted_free(n: NameS, e: ExprS)
    ensures
        targeted(n, e) ==> free_in(n, e),
    decreases e,
{
    if targeted(n, e) && handle_of(e.head) != Some(n) {
        if exists|i: int|
            0 <= i < e.kids.len() && !scope_of(e.head, i).contains(n) && targeted(
                n,
                #[trigger] e.kids[i],
            ) {
            let i = choose|i: int|
                0 <= i < e.kids.len() && !scope_of(e.head, i).contains(n) && targeted(
                    n,
                    #[trigger] e.kids[i],
                );
            lemma_targeted_free(n, e.kids[i]);
        } else {
            let i = choose|i: int| 0 <= i < e.tys.len() && targeted_ty(n, #[trigger] e.tys[i]);
            lemma_targeted_free_ty(n, e.tys[i]);
        }
    }
}

proof fn lemma_gone(s: SubstS, e: ExprS, n: NameS)
    requires
        !(n is PiBound),
        puts_in_terms_without(n, s),
        stored(n, e),
        goes(n, s, e),
    ensures
        !free_in(n, sub_expr(true, s, e)),
        sub_expr(true, s, e).tys.len() > 0,
        ends_well(n, sub_expr(true, s, e).ty()),
    decreases e,
{
    let out = sub_expr(true, s, e);
    assert(stored_ty(n, e.tys[0]));
    if !is_live(s, e) {
        if s.dom().contains(n) {
            assert(!free_in(n, e));
        }
    } else if e.head is Var && s.dom().contains(e.head->Var_0) {
        assert(s[e.head->Var_0] is Discharge);
    } else {
        let kids = sub_kids(true, s, e);
        let slots = sub_slots(true, s, e);
        let mid = ExprS {
            head: retargeted(s, e.head),
            kids,
            tys: slots,
            annotated: e.annotated,
        };
        assert(out == recomposed(mid));
        assert forall|i: int|
            0 <= i < kids.len() && !scope_of(e.head, i).contains(n) implies !free_in(
            n,
            #[trigger] kids[i],
        ) && kids[i].tys.len() > 0 && ends_well(n, kids[i].ty()) by {
            let inner = without(s, scope_of(e.head, i));
            lemma_without_keeps(n, s, scope_of(e.head, i));
            assert(stored(n, e.kids[i]));
            if s.dom().contains(n) {
                assert(inner.dom().contains(n) && inner[n] == s[n]);
                assert(handle_target(inner, n) == handle_target(s, n));
            } else {
                assert(!free_in(n, e.kids[i]));
                lemma_targeted_free(n, e.kids[i]);
            }
            lemma_gone(inner, e.kids[i], n);
        }
        assert forall|i: int| 0 <= i < slots.len() implies !free_in_ty(n, #[trigger] slots[i])
            && ends_well(n, slots[i]) by {
            assert(stored_ty(n, e.tys[i]));
            if !s.dom().contains(n) {
                assert(!free_in_ty(n, e.tys[i]));
            }
            if handle_target(s, n) == n {
                assert(!targeted_ty(n, e.tys[i]));
            }
            lemma_gone_ty(s, e.tys[i], n);
        }
        match handle_of(e.head) {
            Some(h) => {
                if h == n && handle_target(s, n) == n {
                    assert(targeted(n, e));
                }
                lemma_target(n, s, h);
            },
            None => {},
        }
        assert(own_ref(mid.head) != Some(n)) by {
            if own_ref(mid.head) == Some(n) {
                assert(e.head == HeadS::Var(n));
                assert(free_in(n, e));
            }
        }
        assert forall|i: int| 0 <= i < e.kids.len() implies scope_of(mid.head, i) == scope_of(
            e.head,
            i,
        ) by {}
        assert(!free_in(n, mid)) by {
            if free_in(n, mid) {
                if exists|i: int|
                    0 <= i < mid.kids.len() && !scope_of(mid.head, i).contains(n) && free_in(
                        n,
                        #[trigger] mid.kids[i],
                    ) {
                    let i = choose|i: int|
                        0 <= i < mid.kids.len() && !scope_of(mid.head, i).contains(n) && free_in(
                            n,
                            #[trigger] mid.kids[i],
                        );
                    assert(scope_of(mid.head, i) == scope_of(e.head, i));
                    assert(!free_in(n, kids[i]));
                } else {
                    let i = choose|i: int|
                        0 <= i < mid.tys.len() && free_in_ty(n, #[trigger] mid.tys[i]);
                    assert(!free_in_ty(n, slots[i]));
                }
            }
        }
        if mid.head is Compose {
            lemma_recomposed(n, mid);
        }
    }
}

/// A name that a substitution in place discharges is free nowhere in the result,
/// the predicates in its type slots included, where no term put in mentions it
/// and it is no handle or channel that keeps its name. The types are as types
/// are stored.
pub proof fn law_discharged_name_is_gone(s: SubstS, e: ExprS, n: NameS)
    requires
        !(n is PiBound),
        s.dom().contains(n),
        puts_in_terms_without(n, s),
        handle_target(s, n) == n ==> !targeted(n, e),
        stored(n, e),
    ensures
        !free_in(n, sub_expr(true, s, e)),
{
    lemma_gone(s, e, n);
}

/// A handle that a substitution in place does not lead elsewhere stays free:
/// discharging its name leaves the name where it is written.
pub proof fn law_kept_handle_stays(s: SubstS, e: ExprS, n: NameS)
    requires
        handle_target(s, n) == n,
        writes_free(n, e),
        leafy(e),
    ensures
        free_in(n, sub_expr(true, s, e)),
    decreases e,
{
    let out = sub_expr(true, s, e);
    lemma_written_free(n, e);
    if is_live(s, e) {
        assert(!(e.head is Var));
        assert(out.kids == sub_kids(true, s, e));
        if handle_of(e.head) != Some(n) {
            let i = choose|i: int|
                0 <= i < e.kids.len() && !scope_of(e.head, i).contains(n) && writes_free(
                    n,
                    #[trigger] e.kids[i],
                );
            let inner = without(s, scope_of(e.head, i));
            assert(handle_target(inner, n) == n) by {
                if s.dom().contains(n) {
                    assert(inner[n] == s[n]);
                }
            }
            law_kept_handle_stays(inner, e.kids[i], n);
            assert(scope_of(out.head, i) == scope_of(e.head, i));
            assert(free_in(n, out.kids[i]));
        }
    }
}

proof fn lemma_written_free(n: NameS, e: ExprS)
    requires
        writes_free(n, e),
    ensures
        free_in(n, e),
    decreases e,
{
    if handle_of(e.head) != Some(n) {
        let i = choose|i: int|
            0 <= i < e.kids.len() && !scope_of(e.head, i).contains(n) && writes_free(
                n,
                #[trigger] e.kids[i],
            );
        lemma_written_free(n, e.kids[i]);
    }
}

} // verus!
