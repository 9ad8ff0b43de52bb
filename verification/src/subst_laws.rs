//! The laws of substitution: what composing, applying and inverting have to do
//! with each other.
//!
//! They speak of the value of a term, its type slots aside, and of whole terms
//! where nothing is typed yet: an occurrence that is renamed keeps the type it
//! had, whatever a later substitution makes of the names in it.

use vstd::prelude::*;
use crate::ast::{ExprS, HeadS, TypeS};
use crate::make::{hole_ty, var_s};
use crate::name::NameS;
use crate::pi::MappingS;
use crate::scope::{free_in, free_in_value, own_ref, scope_of};
use crate::subst::{inverse_of, invertible, then_s};
use crate::substitution::{
    SubstS, handle_target, is_live, may_cross, range_mentions, recomposed, retargeted, sub_expr,
    sub_kids, sub_ok, sub_preds, sub_slots, sub_ty, without,
};

verus! {

/// `e` without its type slots.
pub open spec fn value(e: ExprS) -> ExprS
    decreases e,
{
    ExprS {
        head: e.head,
        kids: Seq::new(
            e.kids.len(),
            |i: int|
                if 0 <= i < e.kids.len() {
                    value(e.kids[i])
                } else {
                    arbitrary()
                },
        ),
        tys: Seq::empty(),
        annotated: false,
    }
}

/// The substitution that puts in the values of what `s` puts in.
pub open spec fn values(s: SubstS) -> SubstS {
    s.map_values(
        |m: MappingS|
            match m {
                MappingS::Rename(to) => m,
                MappingS::Discharge(t) => MappingS::Discharge(value(t)),
            },
    )
}

/// A reference to `n` with the type slots `z`.
pub open spec fn bare_var(z: Seq<TypeS>, n: NameS) -> ExprS {
    ExprS { head: HeadS::Var(n), kids: Seq::empty(), tys: z, annotated: false }
}

/// What `n` stands for under `s`, a reference with the type slots `z`.
pub open spec fn meaning_of(z: Seq<TypeS>, s: SubstS, n: NameS) -> ExprS {
    if s.dom().contains(n) {
        match s[n] {
            MappingS::Rename(to) => bare_var(z, to),
            MappingS::Discharge(t) => t,
        }
    } else {
        bare_var(z, n)
    }
}

/// `e` with every free reference replaced by what its name stands for.
pub open spec fn replaced(z: Seq<TypeS>, s: SubstS, e: ExprS) -> ExprS
    decreases e,
{
    if e.head is Var && s.dom().contains(e.head->Var_0) {
        meaning_of(z, s, e.head->Var_0)
    } else {
        ExprS {
            head: retargeted(s, e.head),
            kids: Seq::new(
                e.kids.len(),
                |i: int|
                    if 0 <= i < e.kids.len() {
                        replaced(z, without(s, scope_of(e.head, i)), e.kids[i])
                    } else {
                        arbitrary()
                    },
            ),
            tys: e.tys,
            annotated: e.annotated,
        }
    }
}

/// The value `n` stands for under `s`.
pub open spec fn value_of_name(s: SubstS, n: NameS) -> ExprS {
    meaning_of(Seq::empty(), values(s), n)
}

/// The value of what `s` makes of a term of value `e`.
pub open spec fn value_sub(s: SubstS, e: ExprS) -> ExprS {
    replaced(Seq::empty(), values(s), e)
}

/// Whether every reference in `e` is a leaf with the type slots `z`.
pub open spec fn plain_refs(z: Seq<TypeS>, e: ExprS) -> bool
    decreases e,
{
    (e.head matches HeadS::Var(n) ==> e == bare_var(z, n)) && forall|i: int|
        0 <= i < e.kids.len() ==> plain_refs(z, #[trigger] e.kids[i])
}

/// Whether every reference in the terms `s` puts in is a leaf with the type
/// slots `z`.
pub open spec fn range_plain(z: Seq<TypeS>, s: SubstS) -> bool {
    forall|k: NameS| #[trigger]
        s.dom().contains(k) ==> (s[k] matches MappingS::Discharge(t) ==> plain_refs(z, t))
}

/// Whether the references in `e` are leaves, as every reference is.
pub open spec fn leafy(e: ExprS) -> bool
    decreases e,
{
    (e.head is Var ==> e.kids.len() == 0) && forall|i: int|
        0 <= i < e.kids.len() ==> leafy(#[trigger] e.kids[i])
}

/// Whether the references in the terms `a` puts in are leaves.
pub open spec fn range_leafy(a: SubstS) -> bool {
    forall|k: NameS| #[trigger]
        a.dom().contains(k) ==> (a[k] matches MappingS::Discharge(t) ==> leafy(t))
}

/// The one type slot of a reference that has no type yet.
pub open spec fn untyped_slot() -> Seq<TypeS> {
    seq![hole_ty()]
}

/// Whether nothing in `e` is typed yet: every type slot is a hole.
pub open spec fn blank(e: ExprS) -> bool
    decreases e,
{
    &&& e.tys.len() > 0
    &&& forall|i: int| 0 <= i < e.tys.len() ==> #[trigger] e.tys[i] == hole_ty()
    &&& forall|i: int| 0 <= i < e.kids.len() ==> blank(#[trigger] e.kids[i])
}

/// Whether nothing in the terms `s` puts in is typed yet.
pub open spec fn range_blank(s: SubstS) -> bool {
    forall|k: NameS| #[trigger]
        s.dom().contains(k) ==> (s[k] matches MappingS::Discharge(t) ==> blank(t))
}

/// Whether every free reference in `e` to `n` is the term `x`.
pub open spec fn refs_are(n: NameS, x: ExprS, e: ExprS) -> bool
    decreases e,
{
    (e.head == HeadS::Var(n) ==> e == x) && forall|i: int|
        0 <= i < e.kids.len() && !scope_of(e.head, i).contains(n) ==> refs_are(
            n,
            x,
            #[trigger] e.kids[i],
        )
}

/// Whether `a` or `b` replaces `n`.
pub open spec fn touched(a: SubstS, b: SubstS, n: NameS) -> bool {
    a.dom().contains(n) || b.dom().contains(n)
}

/// Whether what comes back for a name that `a` sends away and `b` sends back is
/// what stood there. An annotated reference that is sent away and back comes back
/// without its annotation, where the composition leaves it alone.
pub open spec fn returns_as_written(a: SubstS, b: SubstS, e: ExprS) -> bool {
    forall|n: NameS| #[trigger]
        free_in_value(n, e) && touched(a, b, n) && !then_s(a, b).dom().contains(n) ==> refs_are(
            n,
            replaced(untyped_slot(), b, meaning_of(untyped_slot(), a, n)),
            e,
        )
}

/// The handle a form writes.
pub open spec fn handle_of(h: HeadS) -> Option<NameS> {
    match h {
        HeadS::Feed(n) => Some(n),
        HeadS::Define(n) => Some(n),
        HeadS::MutWrite(n) => Some(n),
        _ => None,
    }
}

/// Whether `e` writes the handle `n` where no binder of `e` hides it.
pub open spec fn writes_free(n: NameS, e: ExprS) -> bool
    decreases e,
{
    handle_of(e.head) == Some(n) || exists|i: int|
        0 <= i < e.kids.len() && !scope_of(e.head, i).contains(n) && writes_free(
            n,
            #[trigger] e.kids[i],
        )
}

/// Whether every handle `e` writes ends up the same under `a` and then `b` as
/// under their composition. A handle that `a` renames and `b` then discharges
/// by a term that is no reference does not: applying one after the other leaves
/// it renamed, the composition leaves it as it was.
pub open spec fn handles_agree(a: SubstS, b: SubstS, e: ExprS) -> bool {
    forall|n: NameS| #[trigger]
        writes_free(n, e) ==> handle_target(b, handle_target(a, n)) == handle_target(
            then_s(a, b),
            n,
        )
}

/// Whether no form in `e` writes a handle.
pub open spec fn writes_no_handle(e: ExprS) -> bool
    decreases e,
{
    handle_of(e.head) is None && forall|i: int|
        0 <= i < e.kids.len() ==> writes_no_handle(#[trigger] e.kids[i])
}

/// Whether what `m` stands for mentions `n`.
pub open spec fn mentions_name(m: MappingS, n: NameS) -> bool {
    match m {
        MappingS::Rename(to) => to == n,
        MappingS::Discharge(t) => free_in_value(n, t),
    }
}

/// Whether no binder over subterm `i` of `e` captures what `a` puts in there.
pub open spec fn kid_uncaptured(a: SubstS, e: ExprS, i: int) -> bool {
    forall|n: NameS, x: NameS|
        #![trigger free_in_value(n, e.kids[i]), mentions_name(a[n], x)]
        free_in_value(n, e.kids[i]) && !scope_of(e.head, i).contains(n) && a.dom().contains(n)
            && mentions_name(a[n], x) ==> !scope_of(e.head, i).contains(x)
}

/// Whether no binder of `e` captures what `a` puts in.
pub open spec fn uncaptured(a: SubstS, e: ExprS) -> bool
    decreases e,
{
    (forall|i: int| 0 <= i < e.kids.len() ==> #[trigger] kid_uncaptured(a, e, i)) && forall|i: int|
        0 <= i < e.kids.len() ==> uncaptured(without(a, scope_of(e.head, i)), #[trigger] e.kids[i])
}

pub proof fn lemma_free_in_value(n: NameS, e: ExprS)
    ensures
        free_in_value(n, e) ==> free_in(n, e),
    decreases e,
{
    if free_in_value(n, e) && own_ref(e.head) != Some(n) {
        let i = choose|i: int|
            0 <= i < e.kids.len() && !scope_of(e.head, i).contains(n) && free_in_value(
                n,
                #[trigger] e.kids[i],
            );
        lemma_free_in_value(n, e.kids[i]);
    }
}

pub proof fn lemma_free_in_the_value(n: NameS, e: ExprS)
    ensures
        free_in_value(n, value(e)) == free_in_value(n, e),
    decreases e,
{
    let v = value(e);
    assert forall|i: int| 0 <= i < e.kids.len() implies free_in_value(n, #[trigger] v.kids[i])
        == free_in_value(n, e.kids[i]) by {
        lemma_free_in_the_value(n, e.kids[i]);
    }
    if free_in_value(n, e) && own_ref(e.head) != Some(n) {
        let i = choose|i: int|
            0 <= i < e.kids.len() && !scope_of(e.head, i).contains(n) && free_in_value(
                n,
                #[trigger] e.kids[i],
            );
        assert(free_in_value(n, v.kids[i]));
    }
    if free_in_value(n, v) && own_ref(e.head) != Some(n) {
        let i = choose|i: int|
            0 <= i < v.kids.len() && !scope_of(v.head, i).contains(n) && free_in_value(
                n,
                #[trigger] v.kids[i],
            );
        assert(free_in_value(n, e.kids[i]));
    }
}

proof fn lemma_writes_in_the_value(n: NameS, e: ExprS)
    ensures
        writes_free(n, value(e)) == writes_free(n, e),
    decreases e,
{
    let v = value(e);
    assert forall|i: int| 0 <= i < e.kids.len() implies writes_free(n, #[trigger] v.kids[i])
        == writes_free(n, e.kids[i]) by {
        lemma_writes_in_the_value(n, e.kids[i]);
    }
    if writes_free(n, e) && handle_of(e.head) != Some(n) {
        let i = choose|i: int|
            0 <= i < e.kids.len() && !scope_of(e.head, i).contains(n) && writes_free(
                n,
                #[trigger] e.kids[i],
            );
        assert(writes_free(n, v.kids[i]));
    }
    if writes_free(n, v) && handle_of(e.head) != Some(n) {
        let i = choose|i: int|
            0 <= i < v.kids.len() && !scope_of(v.head, i).contains(n) && writes_free(
                n,
                #[trigger] v.kids[i],
            );
        assert(writes_free(n, e.kids[i]));
    }
}

proof fn lemma_written_is_free(n: NameS, e: ExprS)
    ensures
        writes_free(n, e) ==> free_in_value(n, e),
    decreases e,
{
    if writes_free(n, e) && handle_of(e.head) != Some(n) {
        let i = choose|i: int|
            0 <= i < e.kids.len() && !scope_of(e.head, i).contains(n) && writes_free(
                n,
                #[trigger] e.kids[i],
            );
        lemma_written_is_free(n, e.kids[i]);
    }
}

proof fn lemma_replaced_var(z: Seq<TypeS>, s: SubstS, n: NameS)
    ensures
        replaced(z, s, bare_var(z, n)) == meaning_of(z, s, n),
{
    if !s.dom().contains(n) {
        assert(replaced(z, s, bare_var(z, n)).kids =~= bare_var(z, n).kids);
    }
}

proof fn lemma_replaced_leaf(z: Seq<TypeS>, s: SubstS, e: ExprS)
    requires
        leafy(e),
        e.head is Var,
    ensures
        replaced(z, s, e) == (if s.dom().contains(e.head->Var_0) {
            meaning_of(z, s, e.head->Var_0)
        } else {
            e
        }),
{
    if !s.dom().contains(e.head->Var_0) {
        assert(replaced(z, s, e).kids =~= e.kids);
    }
}

pub proof fn lemma_plain_leafy(z: Seq<TypeS>, e: ExprS)
    requires
        plain_refs(z, e),
    ensures
        leafy(e),
    decreases e,
{
    assert forall|i: int| 0 <= i < e.kids.len() implies leafy(#[trigger] e.kids[i]) by {
        lemma_plain_leafy(z, e.kids[i]);
    }
}

proof fn lemma_plain_refs_are(z: Seq<TypeS>, n: NameS, e: ExprS)
    requires
        plain_refs(z, e),
    ensures
        refs_are(n, bare_var(z, n), e),
    decreases e,
{
    assert forall|i: int| 0 <= i < e.kids.len() && !scope_of(e.head, i).contains(n) implies refs_are(
        n,
        bare_var(z, n),
        #[trigger] e.kids[i],
    ) by {
        lemma_plain_refs_are(z, n, e.kids[i]);
    }
}

/// Whether `s` and `r` say the same of `n`.
spec fn one_mapping(s: SubstS, r: SubstS, n: NameS) -> bool {
    s.dom().contains(n) == r.dom().contains(n) && (s.dom().contains(n) ==> s[n] == r[n])
}

/// What a term becomes depends only on what the names free in it stand for.
proof fn lemma_agree(z: Seq<TypeS>, s: SubstS, r: SubstS, e: ExprS)
    requires
        leafy(e),
        forall|n: NameS| #[trigger] free_in_value(n, e) ==> one_mapping(s, r, n),
    ensures
        replaced(z, s, e) == replaced(z, r, e),
    decreases e,
{
    match e.head {
        HeadS::Var(n) => {
            assert(free_in_value(n, e));
            lemma_replaced_leaf(z, s, e);
            lemma_replaced_leaf(z, r, e);
        },
        _ => {
            match handle_of(e.head) {
                Some(n) => {
                    assert(own_ref(e.head) == Some(n));
                    assert(free_in_value(n, e));
                    assert(handle_target(s, n) == handle_target(r, n));
                },
                None => {},
            }
            let x = replaced(z, s, e);
            let y = replaced(z, r, e);
            assert forall|i: int| 0 <= i < e.kids.len() implies #[trigger] x.kids[i] == y.kids[i] by {
                let bs = scope_of(e.head, i);
                let s1 = without(s, bs);
                let r1 = without(r, bs);
                assert forall|n: NameS| #[trigger] free_in_value(n, e.kids[i]) implies one_mapping(
                    s1,
                    r1,
                    n,
                ) by {
                    if !bs.contains(n) {
                        assert(free_in_value(n, e));
                    }
                }
                lemma_agree(z, s1, r1, e.kids[i]);
            }
            assert(x.kids =~= y.kids);
        },
    }
}

proof fn lemma_nothing_replaced(z: Seq<TypeS>, e: ExprS)
    ensures
        replaced(z, Map::empty(), e) == e,
    decreases e,
{
    let none: SubstS = Map::empty();
    let x = replaced(z, none, e);
    assert forall|i: int| 0 <= i < e.kids.len() implies #[trigger] x.kids[i] == e.kids[i] by {
        assert(without(none, scope_of(e.head, i)) =~= none);
        lemma_nothing_replaced(z, e.kids[i]);
    }
    assert(x.kids =~= e.kids);
}

proof fn lemma_idle(z: Seq<TypeS>, s: SubstS, e: ExprS)
    requires
        leafy(e),
        forall|n: NameS| #[trigger] s.dom().contains(n) ==> !free_in_value(n, e),
    ensures
        replaced(z, s, e) == e,
{
    assert forall|n: NameS| #[trigger] free_in_value(n, e) implies one_mapping(
        s,
        Map::empty(),
        n,
    ) by {
        assert(!s.dom().contains(n));
    }
    lemma_agree(z, s, Map::empty(), e);
    lemma_nothing_replaced(z, e);
}

pub proof fn lemma_leafy_value(e: ExprS)
    requires
        leafy(e),
    ensures
        plain_refs(Seq::empty(), value(e)),
    decreases e,
{
    let v = value(e);
    assert forall|i: int| 0 <= i < v.kids.len() implies plain_refs(
        Seq::empty(),
        #[trigger] v.kids[i],
    ) by {
        lemma_leafy_value(e.kids[i]);
    }
    match e.head {
        HeadS::Var(n) => {
            assert(v.kids =~= Seq::empty());
        },
        _ => {},
    }
}

proof fn lemma_values_without(s: SubstS, ns: Seq<NameS>)
    ensures
        values(without(s, ns)) == without(values(s), ns),
{
    assert(values(without(s, ns)) =~= without(values(s), ns));
}

proof fn lemma_handle_by_value(s: SubstS, n: NameS)
    ensures
        handle_target(values(s), n) == handle_target(s, n),
{
}

/// The value of what a substitution makes of a term.
pub proof fn lemma_value_of_sub(in_place: bool, s: SubstS, e: ExprS)
    requires
        leafy(e),
    ensures
        value(sub_expr(in_place, s, e)) == value_sub(s, value(e)),
    decreases e,
{
    let v = value(e);
    let z: Seq<TypeS> = Seq::empty();
    let out = sub_expr(in_place, s, e);
    if !is_live(s, e) {
        lemma_leafy_value(e);
        lemma_plain_leafy(z, v);
        assert forall|n: NameS| #[trigger] values(s).dom().contains(n) implies !free_in_value(
            n,
            v,
        ) by {
            assert(s.dom().contains(n));
            assert(!free_in(n, e));
            lemma_free_in_value(n, e);
            lemma_free_in_the_value(n, e);
        }
        lemma_idle(z, values(s), v);
    } else if e.head is Var && s.dom().contains(e.head->Var_0) {
        match s[e.head->Var_0] {
            MappingS::Rename(to) => {
                assert(value(var_s(to, e.ty())).kids =~= bare_var(z, to).kids);
            },
            _ => {},
        }
    } else {
        let kids = sub_kids(in_place, s, e);
        let want = value_sub(s, v);
        assert(out.kids == kids);
        assert forall|i: int| 0 <= i < e.kids.len() implies value(#[trigger] kids[i])
            == want.kids[i] by {
            let bs = scope_of(e.head, i);
            lemma_value_of_sub(in_place, without(s, bs), e.kids[i]);
            lemma_values_without(s, bs);
            assert(v.kids[i] == value(e.kids[i]));
        }
        match handle_of(e.head) {
            Some(n) => lemma_handle_by_value(s, n),
            None => {},
        }
        assert(value(out).kids =~= want.kids);
    }
}

/// What a substitution makes of a term in which nothing is typed yet.
proof fn lemma_blank_sub(in_place: bool, s: SubstS, e: ExprS)
    requires
        blank(e),
        leafy(e),
        range_blank(s),
    ensures
        sub_expr(in_place, s, e) == replaced(untyped_slot(), s, e),
        blank(sub_expr(in_place, s, e)),
    decreases e,
{
    let z = untyped_slot();
    let out = sub_expr(in_place, s, e);
    if !is_live(s, e) {
        assert forall|n: NameS| #[trigger] s.dom().contains(n) implies !free_in_value(n, e) by {
            assert(!free_in(n, e));
            lemma_free_in_value(n, e);
        }
        lemma_idle(z, s, e);
    } else if e.head is Var && s.dom().contains(e.head->Var_0) {
        match s[e.head->Var_0] {
            MappingS::Rename(to) => {
                assert(e.ty() == hole_ty());
                assert(var_s(to, hole_ty()).kids =~= Seq::empty());
                assert(var_s(to, hole_ty()).tys =~= z);
                assert(out == bare_var(z, to));
            },
            _ => {},
        }
    } else {
        let kids = sub_kids(in_place, s, e);
        let slots = sub_slots(in_place, s, e);
        let want = replaced(z, s, e);
        assert forall|i: int| 0 <= i < e.kids.len() implies #[trigger] kids[i] == want.kids[i]
            && blank(kids[i]) by {
            let inner = without(s, scope_of(e.head, i));
            assert(range_blank(inner)) by {
                assert forall|k: NameS| #[trigger] inner.dom().contains(k) implies (
                inner[k] matches MappingS::Discharge(t) ==> blank(t)) by {
                    assert(s.dom().contains(k));
                }
            }
            lemma_blank_sub(in_place, inner, e.kids[i]);
        }
        assert(kids =~= want.kids);
        assert forall|i: int| 0 <= i < e.tys.len() implies #[trigger] slots[i] == e.tys[i] by {
            let t = hole_ty();
            assert(e.tys[i] == t);
            let u = sub_ty(in_place, s, t);
            if s != Map::<NameS, MappingS>::empty() {
                assert(u.kids =~= t.kids);
                assert(sub_preds(in_place, s, t) =~= t.preds);
                assert(u.preds =~= t.preds);
            }
            assert(u == t);
        }
        assert(slots =~= e.tys);
        let mid = ExprS {
            head: retargeted(s, e.head),
            kids,
            tys: slots,
            annotated: e.annotated,
        };
        if mid.kids.len() > 0 {
            assert(mid.kids[0].tys[0] == hole_ty());
        }
        assert(recomposed(mid) == mid);
        assert(out == mid);
        assert forall|i: int| 0 <= i < mid.kids.len() implies blank(#[trigger] mid.kids[i]) by {
            assert(blank(kids[i]));
        }
        if e.head is Var {
            assert(mid.kids =~= e.kids);
            assert(mid == e);
        }
    }
}

/// Where a substitution may act, no binder captures what it puts in.
pub proof fn lemma_allowed_uncaptured(in_place: bool, s: SubstS, e: ExprS)
    requires
        sub_ok(in_place, s, e),
        leafy(e),
    ensures
        uncaptured(s, e),
    decreases e,
{
    if !(e.head is Var) {
        assert forall|i: int| 0 <= i < e.kids.len() implies #[trigger] kid_uncaptured(s, e, i) by {
            let bs = scope_of(e.head, i);
            let inner = without(s, bs);
            assert forall|n: NameS, x: NameS|
                #![trigger free_in_value(n, e.kids[i]), mentions_name(s[n], x)]
                free_in_value(n, e.kids[i]) && !bs.contains(n) && s.dom().contains(n)
                    && mentions_name(s[n], x) implies !bs.contains(x) by {
                assert(free_in_value(n, e));
                lemma_free_in_value(n, e);
                lemma_free_in_value(n, e.kids[i]);
                assert(is_live(s, e));
                assert(inner.dom().contains(n));
                assert(is_live(inner, e.kids[i]));
                assert(may_cross(in_place, s, e, i));
                assert(range_mentions(inner, x)) by {
                    match inner[n] {
                        MappingS::Discharge(t) => lemma_free_in_value(x, t),
                        _ => {},
                    }
                }
            }
        }
        assert forall|i: int| 0 <= i < e.kids.len() implies uncaptured(
            without(s, scope_of(e.head, i)),
            #[trigger] e.kids[i],
        ) by {
            let inner = without(s, scope_of(e.head, i));
            if !is_live(s, e) {
                assert(!is_live(inner, e.kids[i])) by {
                    if is_live(inner, e.kids[i]) {
                        let n = choose|n: NameS| #[trigger]
                            inner.dom().contains(n) && free_in(n, e.kids[i]);
                        assert(s.dom().contains(n) && free_in(n, e));
                    }
                }
            }
            assert(sub_ok(in_place, inner, e.kids[i]));
            lemma_allowed_uncaptured(in_place, inner, e.kids[i]);
        }
    }
}

pub proof fn lemma_uncaptured_value(s: SubstS, e: ExprS)
    requires
        uncaptured(s, e),
    ensures
        uncaptured(values(s), value(e)),
    decreases e,
{
    let v = value(e);
    let vs = values(s);
    assert forall|i: int| 0 <= i < v.kids.len() implies #[trigger] kid_uncaptured(vs, v, i) by {
        assert(kid_uncaptured(s, e, i));
        let bs = scope_of(e.head, i);
        assert forall|n: NameS, x: NameS|
            #![trigger free_in_value(n, v.kids[i]), mentions_name(vs[n], x)]
            free_in_value(n, v.kids[i]) && !bs.contains(n) && vs.dom().contains(n)
                && mentions_name(vs[n], x) implies !bs.contains(x) by {
            lemma_free_in_the_value(n, e.kids[i]);
            assert(s.dom().contains(n));
            assert(mentions_name(s[n], x)) by {
                match s[n] {
                    MappingS::Discharge(t) => lemma_free_in_the_value(x, t),
                    _ => {},
                }
            }
            assert(free_in_value(n, e.kids[i]));
        }
    }
    assert forall|i: int| 0 <= i < v.kids.len() implies uncaptured(
        without(vs, scope_of(v.head, i)),
        #[trigger] v.kids[i],
    ) by {
        let bs = scope_of(e.head, i);
        assert(uncaptured(without(s, bs), e.kids[i]));
        lemma_uncaptured_value(without(s, bs), e.kids[i]);
        lemma_values_without(s, bs);
    }
}

/// Whether `ab` does to the references to `n` in `e` what `a` and then `b` do.
spec fn composes_at(z: Seq<TypeS>, a: SubstS, b: SubstS, ab: SubstS, n: NameS, e: ExprS) -> bool {
    let m = replaced(z, b, meaning_of(z, a, n));
    if touched(a, b, n) {
        if ab.dom().contains(n) {
            meaning_of(z, ab, n) == m
        } else {
            refs_are(n, m, e)
        }
    } else {
        ab.dom().contains(n) ==> refs_are(n, meaning_of(z, ab, n), e)
    }
}

/// Where nothing is captured, replacing by `a` and then by `b` is replacing by
/// `ab`, if `ab` does the same to each name.
proof fn lemma_compose(z: Seq<TypeS>, a: SubstS, b: SubstS, ab: SubstS, e: ExprS)
    requires
        leafy(e),
        range_leafy(a),
        uncaptured(a, e),
        forall|n: NameS| #[trigger] free_in_value(n, e) ==> composes_at(z, a, b, ab, n, e),
        forall|n: NameS| #[trigger]
            writes_free(n, e) ==> handle_target(b, handle_target(a, n)) == handle_target(ab, n),
    ensures
        replaced(z, b, replaced(z, a, e)) == replaced(z, ab, e),
    decreases e,
{
    match e.head {
        HeadS::Var(n) => {
            assert(free_in_value(n, e));
            assert(composes_at(z, a, b, ab, n, e));
            lemma_replaced_leaf(z, a, e);
            lemma_replaced_leaf(z, ab, e);
            if !a.dom().contains(n) {
                lemma_replaced_leaf(z, b, e);
                lemma_replaced_var(z, b, n);
            }
        },
        _ => {
            let mid = replaced(z, a, e);
            let x = replaced(z, b, mid);
            let y = replaced(z, ab, e);
            assert(!(mid.head is Var));
            match handle_of(e.head) {
                Some(n) => {
                    assert(writes_free(n, e));
                },
                None => {},
            }
            assert(x.head == y.head);
            assert forall|i: int| 0 <= i < e.kids.len() implies #[trigger] x.kids[i] == y.kids[i] by {
                let bs = scope_of(e.head, i);
                assert(scope_of(mid.head, i) == bs);
                let kid = e.kids[i];
                let a1 = without(a, bs);
                let b1 = without(b, bs);
                let ab1 = without(ab, bs);
                assert(kid_uncaptured(a, e, i));
                assert(range_leafy(a1)) by {
                    assert forall|k: NameS| #[trigger] a1.dom().contains(k) implies (
                    a1[k] matches MappingS::Discharge(t) ==> leafy(t)) by {
                        assert(a.dom().contains(k));
                    }
                }
                assert forall|n: NameS| #[trigger] free_in_value(n, kid) implies composes_at(
                    z,
                    a1,
                    b1,
                    ab1,
                    n,
                    kid,
                ) by {
                    if !bs.contains(n) {
                        assert(free_in_value(n, e));
                        assert(composes_at(z, a, b, ab, n, e));
                        let m = meaning_of(z, a, n);
                        assert(m == meaning_of(z, a1, n));
                        assert(leafy(m)) by {
                            if a.dom().contains(n) {
                                assert(a1.dom().contains(n));
                            }
                        }
                        assert forall|w: NameS| #[trigger] free_in_value(w, m) implies one_mapping(
                            b,
                            b1,
                            w,
                        ) by {
                            if a.dom().contains(n) {
                                assert(mentions_name(a[n], w));
                            } else {
                                assert(w == n);
                            }
                            assert(!bs.contains(w));
                        }
                        lemma_agree(z, b, b1, m);
                    }
                }
                assert forall|n: NameS| #[trigger] writes_free(n, kid) implies handle_target(
                    b1,
                    handle_target(a1, n),
                ) == handle_target(ab1, n) by {
                    lemma_written_is_free(n, kid);
                    if !bs.contains(n) {
                        assert(writes_free(n, e));
                        let m = handle_target(a, n);
                        assert(!bs.contains(m)) by {
                            if a.dom().contains(n) && m != n {
                                assert(mentions_name(a[n], m));
                            }
                        }
                    }
                }
                lemma_compose(z, a1, b1, ab1, kid);
            }
            assert(x.kids =~= y.kids);
        },
    }
}

/// The same where every reference is a leaf with the type slots `z`.
proof fn lemma_compose_plain(z: Seq<TypeS>, a: SubstS, b: SubstS, ab: SubstS, e: ExprS)
    requires
        plain_refs(z, e),
        range_leafy(a),
        uncaptured(a, e),
        forall|n: NameS| #[trigger]
            free_in_value(n, e) ==> meaning_of(z, ab, n) == replaced(z, b, meaning_of(z, a, n)),
        forall|n: NameS| #[trigger]
            writes_free(n, e) ==> handle_target(b, handle_target(a, n)) == handle_target(ab, n),
    ensures
        replaced(z, b, replaced(z, a, e)) == replaced(z, ab, e),
{
    lemma_plain_leafy(z, e);
    assert forall|n: NameS| #[trigger] free_in_value(n, e) implies composes_at(
        z,
        a,
        b,
        ab,
        n,
        e,
    ) by {
        lemma_plain_refs_are(z, n, e);
        lemma_replaced_var(z, b, n);
    }
    lemma_compose(z, a, b, ab, e);
}

proof fn lemma_leafy_after(in_place: bool, s: SubstS, e: ExprS)
    requires
        leafy(e),
        range_leafy(s),
    ensures
        leafy(sub_expr(in_place, s, e)),
    decreases e,
{
    if !is_live(s, e) {
    } else if e.head is Var && s.dom().contains(e.head->Var_0) {
    } else {
        let out = sub_expr(in_place, s, e);
        let kids = sub_kids(in_place, s, e);
        assert(out.kids == kids);
        assert forall|i: int| 0 <= i < out.kids.len() implies leafy(#[trigger] out.kids[i]) by {
            let inner = without(s, scope_of(e.head, i));
            assert(range_leafy(inner));
            lemma_leafy_after(in_place, inner, e.kids[i]);
        }
    }
}

proof fn lemma_range_leafy_then(a: SubstS, b: SubstS)
    requires
        range_leafy(a),
        range_leafy(b),
    ensures
        range_leafy(then_s(a, b)),
{
    let ab = then_s(a, b);
    assert forall|k: NameS| #[trigger] ab.dom().contains(k) implies (
    ab[k] matches MappingS::Discharge(t) ==> leafy(t)) by {
        if ab != b && ab != a && a.dom().contains(k) {
            match a[k] {
                MappingS::Discharge(t) => lemma_leafy_after(false, b, t),
                MappingS::Rename(_) => {},
            }
        }
    }
}

proof fn lemma_leafy_var(t: ExprS, n: NameS)
    requires
        leafy(t),
        t.head == HeadS::Var(n),
    ensures
        value(t) == bare_var(Seq::empty(), n),
{
    assert(value(t).kids =~= Seq::empty());
}

/// What a name stands for under a composition is what the second makes of what
/// it stands for under the first.
pub proof fn law_composition_of_names(a: SubstS, b: SubstS, n: NameS)
    requires
        range_leafy(a),
        range_leafy(b),
    ensures
        value_of_name(then_s(a, b), n) == value_sub(b, value_of_name(a, n)),
{
    let z: Seq<TypeS> = Seq::empty();
    let v = value_of_name(a, n);
    if a =~= Map::<NameS, MappingS>::empty() {
        lemma_replaced_var(z, values(b), n);
    } else if b =~= Map::<NameS, MappingS>::empty() {
        assert(values(b) =~= Map::<NameS, MappingS>::empty());
        lemma_nothing_replaced(z, v);
    } else if a.dom().contains(n) {
        match a[n] {
            MappingS::Rename(to) => {
                lemma_replaced_var(z, values(b), to);
                if b.dom().contains(to) {
                    match b[to] {
                        MappingS::Discharge(t) => {
                            if t.head == HeadS::Var(n) {
                                lemma_leafy_var(t, n);
                            }
                        },
                        _ => {},
                    }
                }
            },
            MappingS::Discharge(t) => {
                let u = sub_expr(false, b, t);
                lemma_value_of_sub(false, b, t);
                lemma_leafy_after(false, b, t);
                if u.head == HeadS::Var(n) {
                    lemma_leafy_var(u, n);
                }
            },
        }
    } else {
        lemma_replaced_var(z, values(b), n);
        if b.dom().contains(n) {
            match b[n] {
                MappingS::Discharge(t) => {
                    if t.head == HeadS::Var(n) {
                        lemma_leafy_var(t, n);
                    }
                },
                _ => {},
            }
        }
    }
}

proof fn lemma_blank_composition_of_names(a: SubstS, b: SubstS, n: NameS)
    requires
        range_blank(a),
        range_leafy(a),
        range_blank(b),
        then_s(a, b).dom().contains(n),
    ensures
        touched(a, b, n),
        meaning_of(untyped_slot(), then_s(a, b), n) == replaced(
            untyped_slot(),
            b,
            meaning_of(untyped_slot(), a, n),
        ),
{
    let z = untyped_slot();
    let v = meaning_of(z, a, n);
    if a =~= Map::<NameS, MappingS>::empty() {
        lemma_replaced_var(z, b, n);
    } else if b =~= Map::<NameS, MappingS>::empty() {
        lemma_nothing_replaced(z, v);
    } else if a.dom().contains(n) {
        match a[n] {
            MappingS::Rename(to) => {
                lemma_replaced_var(z, b, to);
            },
            MappingS::Discharge(t) => {
                lemma_blank_sub(false, b, t);
            },
        }
    } else {
        lemma_replaced_var(z, b, n);
    }
}

proof fn lemma_range_blank_then(a: SubstS, b: SubstS)
    requires
        range_blank(a),
        range_leafy(a),
        range_blank(b),
    ensures
        range_blank(then_s(a, b)),
{
    let ab = then_s(a, b);
    assert forall|k: NameS| #[trigger] ab.dom().contains(k) implies (
    ab[k] matches MappingS::Discharge(t) ==> blank(t)) by {
        if ab != b && ab != a && a.dom().contains(k) {
            match a[k] {
                MappingS::Discharge(t) => lemma_blank_sub(false, b, t),
                MappingS::Rename(_) => {},
            }
        }
    }
}

proof fn lemma_values_compose(a: SubstS, b: SubstS, e: ExprS)
    requires
        uncaptured(a, e),
        leafy(e),
        range_leafy(a),
        range_leafy(b),
        handles_agree(a, b, e),
    ensures
        value_sub(b, value_sub(a, value(e))) == value_sub(then_s(a, b), value(e)),
{
    let z: Seq<TypeS> = Seq::empty();
    let v = value(e);
    let ab = then_s(a, b);
    lemma_leafy_value(e);
    lemma_uncaptured_value(a, e);
    assert forall|k: NameS| #[trigger] values(a).dom().contains(k) implies (
    values(a)[k] matches MappingS::Discharge(t) ==> leafy(t)) by {
        assert(a.dom().contains(k));
        match a[k] {
            MappingS::Discharge(t) => {
                lemma_leafy_value(t);
                lemma_plain_leafy(z, value(t));
            },
            MappingS::Rename(_) => {},
        }
    }
    assert forall|n: NameS| #[trigger] free_in_value(n, v) implies meaning_of(z, values(ab), n)
        == replaced(z, values(b), meaning_of(z, values(a), n)) by {
        law_composition_of_names(a, b, n);
    }
    assert forall|n: NameS| #[trigger] writes_free(n, v) implies handle_target(
        values(b),
        handle_target(values(a), n),
    ) == handle_target(values(ab), n) by {
        lemma_writes_in_the_value(n, e);
        lemma_handle_by_value(a, n);
        lemma_handle_by_value(b, handle_target(a, n));
        lemma_handle_by_value(ab, n);
    }
    lemma_compose_plain(z, values(a), values(b), values(ab), v);
}

proof fn lemma_writes_none(n: NameS, e: ExprS)
    requires
        writes_no_handle(e),
    ensures
        !writes_free(n, e),
    decreases e,
{
    assert forall|i: int| 0 <= i < e.kids.len() implies !writes_free(n, #[trigger] e.kids[i]) by {
        lemma_writes_none(n, e.kids[i]);
    }
}

/// Whether `ab` makes of `e` what `a` and then `b` make of it: the same value,
/// and the same term where nothing is typed yet.
pub open spec fn applied_in_turn(
    in_place: bool,
    a: SubstS,
    b: SubstS,
    ab: SubstS,
    e: ExprS,
) -> bool {
    &&& value(sub_expr(in_place, b, sub_expr(in_place, a, e))) == value(sub_expr(in_place, ab, e))
    &&& blank(e) && range_blank(a) && range_blank(b) && returns_as_written(a, b, e) ==> sub_expr(
        in_place,
        b,
        sub_expr(in_place, a, e),
    ) == sub_expr(in_place, ab, e)
}

/// Applying a composition is applying its parts one after the other: it gives
/// the same value, and the same term where nothing is typed yet and what is sent
/// away and back comes back as it was.
pub proof fn law_applying_a_composition(in_place: bool, a: SubstS, b: SubstS, e: ExprS)
    requires
        sub_ok(in_place, a, e),
        leafy(e),
        range_leafy(a),
        range_leafy(b),
        handles_agree(a, b, e),
    ensures
        applied_in_turn(in_place, a, b, then_s(a, b), e),
{
    let first = sub_expr(in_place, a, e);
    let ab = then_s(a, b);
    lemma_allowed_uncaptured(in_place, a, e);
    lemma_leafy_after(in_place, a, e);
    lemma_value_of_sub(in_place, b, first);
    lemma_value_of_sub(in_place, a, e);
    lemma_value_of_sub(in_place, ab, e);
    lemma_values_compose(a, b, e);
    if blank(e) && range_blank(a) && range_blank(b) && returns_as_written(a, b, e) {
        let z = untyped_slot();
        lemma_blank_sub(in_place, a, e);
        lemma_blank_sub(in_place, b, first);
        lemma_range_blank_then(a, b);
        lemma_blank_sub(in_place, ab, e);
        assert forall|n: NameS| #[trigger] free_in_value(n, e) implies composes_at(
            z,
            a,
            b,
            ab,
            n,
            e,
        ) by {
            if ab.dom().contains(n) {
                lemma_blank_composition_of_names(a, b, n);
            }
        }
        lemma_compose(z, a, b, ab, e);
    }
}

proof fn lemma_replaced_plain(z: Seq<TypeS>, s: SubstS, e: ExprS)
    requires
        plain_refs(z, e),
        range_plain(z, s),
    ensures
        plain_refs(z, replaced(z, s, e)),
    decreases e,
{
    lemma_plain_leafy(z, e);
    if e.head is Var {
        lemma_replaced_leaf(z, s, e);
    } else {
        let out = replaced(z, s, e);
        assert forall|i: int| 0 <= i < out.kids.len() implies plain_refs(z, #[trigger] out.kids[i]) by {
            let inner = without(s, scope_of(e.head, i));
            assert forall|k: NameS| #[trigger] inner.dom().contains(k) implies (
            inner[k] matches MappingS::Discharge(t) ==> plain_refs(z, t)) by {
                assert(s.dom().contains(k));
            }
            lemma_replaced_plain(z, inner, e.kids[i]);
        }
    }
}

proof fn lemma_plain_range(z: Seq<TypeS>, s: SubstS)
    requires
        range_plain(z, s),
    ensures
        range_leafy(s),
{
    assert forall|k: NameS| #[trigger] s.dom().contains(k) implies (
    s[k] matches MappingS::Discharge(t) ==> leafy(t)) by {
        match s[k] {
            MappingS::Discharge(t) => lemma_plain_leafy(z, t),
            MappingS::Rename(_) => {},
        }
    }
}

/// Unannotated references that are sent away and back come back as they were.
proof fn lemma_plain_returns(a: SubstS, b: SubstS, e: ExprS)
    requires
        plain_refs(untyped_slot(), e),
        range_plain(untyped_slot(), a),
        range_plain(untyped_slot(), b),
        range_blank(a),
        range_blank(b),
    ensures
        returns_as_written(a, b, e),
{
    let z = untyped_slot();
    lemma_plain_range(z, a);
    assert forall|n: NameS| #[trigger]
        free_in_value(n, e) && touched(a, b, n) && !then_s(a, b).dom().contains(n) implies refs_are(
        n,
        replaced(z, b, meaning_of(z, a, n)),
        e,
    ) by {
        lemma_plain_refs_are(z, n, e);
        if a.dom().contains(n) {
            match a[n] {
                MappingS::Rename(to) => {
                    lemma_replaced_var(z, b, to);
                },
                MappingS::Discharge(t) => {
                    lemma_blank_sub(false, b, t);
                    lemma_replaced_plain(z, b, t);
                },
            }
        } else {
            lemma_replaced_var(z, b, n);
        }
    }
}

/// Where nothing is typed yet, no reference is annotated and no handle is
/// written, applying a composition gives the term that applying its parts one
/// after the other gives.
pub proof fn law_applying_a_composition_to_an_untyped_term(
    in_place: bool,
    a: SubstS,
    b: SubstS,
    e: ExprS,
)
    requires
        sub_ok(in_place, a, e),
        blank(e),
        range_blank(a),
        range_blank(b),
        plain_refs(untyped_slot(), e),
        range_plain(untyped_slot(), a),
        range_plain(untyped_slot(), b),
        writes_no_handle(e),
    ensures
        sub_expr(in_place, then_s(a, b), e) == sub_expr(in_place, b, sub_expr(in_place, a, e)),
{
    assert forall|n: NameS| #[trigger] writes_free(n, e) implies handle_target(
        b,
        handle_target(a, n),
    ) == handle_target(then_s(a, b), n) by {
        lemma_writes_none(n, e);
    }
    lemma_plain_leafy(untyped_slot(), e);
    lemma_plain_range(untyped_slot(), a);
    lemma_plain_range(untyped_slot(), b);
    lemma_plain_returns(a, b, e);
    law_applying_a_composition(in_place, a, b, e);
}

/// The substitution that replaces nothing leaves terms and types as they are.
pub proof fn law_identity_changes_nothing(in_place: bool, e: ExprS, t: TypeS)
    ensures
        sub_expr(in_place, Map::empty(), e) == e,
        sub_ty(in_place, Map::empty(), t) == t,
{
}

/// A substitution none of whose names occurs in a term leaves it as it is.
pub proof fn law_vacuous_substitution(in_place: bool, s: SubstS, e: ExprS)
    requires
        forall|n: NameS| #[trigger] s.dom().contains(n) ==> !free_in(n, e),
    ensures
        sub_expr(in_place, s, e) == e,
{
}

/// Composing with the substitution that replaces nothing changes nothing.
pub proof fn law_composing_with_identity(s: SubstS)
    ensures
        then_s(Map::empty(), s) == s,
        then_s(s, Map::empty()) == s,
{
}

/// However three substitutions are composed, a name stands for the same.
pub proof fn law_composition_associates(a: SubstS, b: SubstS, c: SubstS, n: NameS)
    requires
        range_leafy(a),
        range_leafy(b),
        range_leafy(c),
        forall|k: NameS| #[trigger]
            a.dom().contains(k) ==> (a[k] matches MappingS::Discharge(t) ==> sub_ok(false, b, t)
                && handles_agree(b, c, t)),
    ensures
        value_of_name(then_s(then_s(a, b), c), n) == value_of_name(then_s(a, then_s(b, c)), n),
{
    let ab = then_s(a, b);
    let bc = then_s(b, c);
    let z: Seq<TypeS> = Seq::empty();
    lemma_range_leafy_then(a, b);
    lemma_range_leafy_then(b, c);
    law_composition_of_names(ab, c, n);
    law_composition_of_names(a, b, n);
    law_composition_of_names(a, bc, n);
    if a.dom().contains(n) && a[n] is Discharge {
        let t = a[n]->Discharge_0;
        lemma_allowed_uncaptured(false, b, t);
        lemma_values_compose(b, c, t);
    } else {
        let m = if a.dom().contains(n) {
            a[n]->Rename_0
        } else {
            n
        };
        assert(value_of_name(a, n) == bare_var(z, m));
        law_composition_of_names(b, c, m);
        lemma_replaced_var(z, values(b), m);
        lemma_replaced_var(z, values(bc), m);
    }
}

/// A renaming followed by its inverse gives a term of its source context back:
/// its value, and the term itself where nothing is typed yet and no reference is
/// annotated.
pub proof fn law_inverse_round_trip(in_place: bool, s: SubstS, tau: SubstS, e: ExprS)
    requires
        invertible(s),
        inverse_of(s, tau),
        sub_ok(in_place, s, e),
        leafy(e),
        forall|n: NameS| #[trigger]
            tau.dom().contains(n) && !s.dom().contains(n) ==> !free_in_value(n, e),
    ensures
        value(sub_expr(in_place, tau, sub_expr(in_place, s, e))) == value(e),
        blank(e) && plain_refs(untyped_slot(), e) ==> sub_expr(
            in_place,
            tau,
            sub_expr(in_place, s, e),
        ) == e,
{
    let z: Seq<TypeS> = Seq::empty();
    let v = value(e);
    let first = sub_expr(in_place, s, e);
    let vs = values(s);
    let vt = values(tau);
    assert(renames_only(s));
    assert(renames_only(tau)) by {
        assert forall|n: NameS| #[trigger] tau.dom().contains(n) implies tau[n] is Rename by {
            let k = choose|k: NameS| #[trigger]
                s.dom().contains(k) && s[k] == MappingS::Rename(n);
            assert(tau[n] == MappingS::Rename(k));
        }
    }
    assert(vs =~= s);
    assert(vt =~= tau);
    lemma_leafy_after(in_place, s, e);
    lemma_value_of_sub(in_place, tau, first);
    lemma_value_of_sub(in_place, s, e);
    lemma_allowed_uncaptured(in_place, s, e);
    lemma_uncaptured_value(s, e);
    lemma_leafy_value(e);
    assert forall|n: NameS| #[trigger] tau.dom().contains(n) && !s.dom().contains(n) implies !free_in_value(
        n,
        v,
    ) by {
        lemma_free_in_the_value(n, e);
    }
    lemma_undone(z, s, tau, v);
    if blank(e) && plain_refs(untyped_slot(), e) {
        lemma_blank_sub(in_place, s, e);
        lemma_blank_sub(in_place, tau, first);
        lemma_undone(untyped_slot(), s, tau, e);
    }
}

/// Whether `s` discharges nothing.
spec fn renames_only(s: SubstS) -> bool {
    forall|k: NameS| #[trigger] s.dom().contains(k) ==> s[k] is Rename
}

proof fn lemma_undone(z: Seq<TypeS>, s: SubstS, tau: SubstS, e: ExprS)
    requires
        invertible(s),
        inverse_of(s, tau),
        uncaptured(s, e),
        plain_refs(z, e),
        forall|n: NameS| #[trigger]
            tau.dom().contains(n) && !s.dom().contains(n) ==> !free_in_value(n, e),
    ensures
        replaced(z, tau, replaced(z, s, e)) == e,
{
    let none: SubstS = Map::empty();
    assert forall|n: NameS| #[trigger] free_in_value(n, e) implies meaning_of(z, none, n)
        == replaced(z, tau, meaning_of(z, s, n)) by {
        if s.dom().contains(n) {
            assert(s[n] is Rename);
            lemma_replaced_var(z, tau, s[n]->Rename_0);
        } else {
            if tau.dom().contains(n) {
                assert(!free_in_value(n, e));
            }
            lemma_replaced_var(z, tau, n);
        }
    }
    assert forall|n: NameS| #[trigger] writes_free(n, e) implies handle_target(
        tau,
        handle_target(s, n),
    ) == handle_target(none, n) by {
        lemma_written_is_free(n, e);
        if s.dom().contains(n) {
            assert(s[n] is Rename);
        } else if tau.dom().contains(n) {
            assert(!free_in_value(n, e));
        }
    }
    lemma_compose_plain(z, s, tau, none, e);
    lemma_nothing_replaced(z, e);
}

/// A composition that discharges a name has no inverse.
pub proof fn law_discharges_have_no_inverse(a: SubstS, b: SubstS, n: NameS)
    requires
        then_s(a, b).dom().contains(n),
        then_s(a, b)[n] is Discharge,
    ensures
        !invertible(then_s(a, b)),
{
}

} // verus!
