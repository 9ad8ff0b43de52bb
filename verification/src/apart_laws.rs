//! The law that closing loses no restriction: what told two apart before tells
//! them apart after.

use vstd::prelude::*;
use crate::ast::{ExprS, HeadS, TypeS};
use crate::name::NameS;
use crate::pi::{
    MappingS, expr_refers_out, index_at, kid_depth, opened_ty, pi_expr, pi_head, pi_preds,
    pi_ty, points_at, refers_out,
};
use crate::pi_laws::{
    apart, apart_ty, closing, law_conversion_leaves_sets, lemma_distance, opening, plain_expr,
    plain_ty, sets_in, sets_in_ty, unbound_in, unbound_in_ty,
};
use crate::refine_eq::{
    filter_of, forms_match, lemma_scopes_match, one_is, pairs_under, pred_among, pred_eq,
    refs_match, same_pred,
};
use crate::refinement_set::{law_a_set_has_no_duplicates, lemma_kept_members};
use crate::scope::{free_in, free_in_ty, own_ref, scope_of, ty_binds};

verus! {

/// Whether every binder of a term in `t` is a name, and none an index.
pub open spec fn binds_names_ty(t: TypeS) -> bool
    decreases t,
{
    (forall|i: int| 0 <= i < t.kids.len() ==> binds_names_ty(#[trigger] t.kids[i])) && forall|i: int|
        0 <= i < t.preds.len() ==> binds_names(#[trigger] t.preds[i])
}

/// Whether every binder of a term in `e` is a name, and none an index.
pub open spec fn binds_names(e: ExprS) -> bool
    decreases e,
{
    (forall|i: int|
        0 <= i < e.kids.len() ==> no_index(#[trigger] scope_of(e.head, i))) && (forall|i: int|
        0 <= i < e.kids.len() ==> binds_names(#[trigger] e.kids[i])) && forall|i: int|
        0 <= i < e.tys.len() ==> binds_names_ty(#[trigger] e.tys[i])
}

pub open spec fn no_index(ns: Seq<NameS>) -> bool {
    forall|i: int| 0 <= i < ns.len() ==> !((#[trigger] ns[i]) is PiBound)
}

spec fn lefts(pairs: Seq<(NameS, NameS)>) -> Seq<NameS> {
    Seq::new(pairs.len(), |i: int| pairs[i].0)
}

spec fn rights(pairs: Seq<(NameS, NameS)>) -> Seq<NameS> {
    Seq::new(pairs.len(), |i: int| pairs[i].1)
}

spec fn pairs_named(pairs: Seq<(NameS, NameS)>) -> bool {
    forall|i: int|
        0 <= i < pairs.len() ==> !((#[trigger] pairs[i]).0 is PiBound) && !(pairs[i].1 is PiBound)
}

/// A name that no pair names is itself.
proof fn lemma_unpaired(pairs: Seq<(NameS, NameS)>, b: NameS)
    requires
        pairs_named(pairs),
        !(b is PiBound),
        forall|i: int| 0 <= i < pairs.len() ==> (#[trigger] pairs[i]).0 != b && pairs[i].1 != b,
    ensures
        refs_match(pairs, b, b),
    decreases pairs.len(),
{
    if pairs.len() > 0 {
        let last = pairs[pairs.len() - 1];
        assert(last.0 != b && last.1 != b);
        let d = pairs.drop_last();
        assert forall|i: int| 0 <= i < d.len() implies (#[trigger] d[i]).0 != b && d[i].1 != b && !(
        d[i].0 is PiBound) && !(d[i].1 is PiBound) by {
            assert(d[i] == pairs[i]);
        }
        lemma_unpaired(d, b);
    }
}

/// An index matches no other reference than itself.
proof fn lemma_index_alone(pairs: Seq<(NameS, NameS)>, x: NameS, m: NameS)
    requires
        pairs_named(pairs),
        x is PiBound,
        m.ident() != x.ident(),
    ensures
        !refs_match(pairs, x, m),
        !refs_match(pairs, m, x),
    decreases pairs.len(),
{
    if pairs.len() > 0 {
        let last = pairs[pairs.len() - 1];
        assert(!(last.0 is PiBound) && !(last.1 is PiBound));
        let d = pairs.drop_last();
        assert forall|i: int| 0 <= i < d.len() implies !((#[trigger] d[i]).0 is PiBound) && !(
        d[i].1 is PiBound) by {
            assert(d[i] == pairs[i]);
        }
        lemma_index_alone(d, x, m);
    }
}

/// What closing makes of a reference.
spec fn closed_ref(b: NameS, n: NameS, d: u32, sh: Seq<NameS>) -> NameS {
    if !sh.contains(n) && n == b {
        NameS::PiBound(d, Some(n.base()))
    } else {
        n
    }
}

proof fn lemma_closed_head(b: NameS, n: NameS, d: u32, sh: Seq<NameS>)
    ensures
        pi_head(closing(b), HeadS::Var(n), d, sh) == HeadS::Var(closed_ref(b, n, d, sh)),
{
    lemma_distance(b, n);
    assert(index_at(0, d) == d);
}

proof fn lemma_refs_reflect(
    b: NameS,
    n: NameS,
    m: NameS,
    d: u32,
    front: Seq<NameS>,
    pairs: Seq<(NameS, NameS)>,
)
    requires
        pairs_named(pairs),
        !(b is PiBound),
        n.pi_bound_index() != Some(d),
        m.pi_bound_index() != Some(d),
        refs_match(
            pairs,
            closed_ref(b, n, d, front + lefts(pairs)),
            closed_ref(b, m, d, front + rights(pairs)),
        ),
    ensures
        refs_match(pairs, n, m),
{
    let l = front + lefts(pairs);
    let r = front + rights(pairs);
    let x = closed_ref(b, n, d, l);
    let y = closed_ref(b, m, d, r);
    let nc = !l.contains(n) && n == b;
    let mc = !r.contains(m) && m == b;
    if nc && mc {
        assert forall|i: int| 0 <= i < pairs.len() implies (#[trigger] pairs[i]).0 != b
            && pairs[i].1 != b by {
            assert(l[front.len() + i] == pairs[i].0);
            assert(r[front.len() + i] == pairs[i].1);
        }
        lemma_unpaired(pairs, b);
    } else if nc {
        lemma_index_alone(pairs, x, m);
    } else if mc {
        lemma_index_alone(pairs, y, n);
    }
}

/// What closing makes equal was equal.
proof fn lemma_close_reflects(
    b: NameS,
    x: ExprS,
    y: ExprS,
    d: u32,
    front: Seq<NameS>,
    pairs: Seq<(NameS, NameS)>,
)
    requires
        pairs_named(pairs),
        !(b is PiBound),
        binds_names(x),
        binds_names(y),
        !expr_refers_out(x, d),
        !expr_refers_out(y, d),
        apart(closing(b), x, d, front + lefts(pairs)),
        apart(closing(b), y, d, front + rights(pairs)),
        pred_eq(
            pi_expr(closing(b), x, d, front + lefts(pairs)),
            pi_expr(closing(b), y, d, front + rights(pairs)),
            pairs,
        ),
    ensures
        pred_eq(x, y, pairs),
    decreases x,
{
    let l = front + lefts(pairs);
    let r = front + rights(pairs);
    let cx = pi_expr(closing(b), x, d, l);
    let cy = pi_expr(closing(b), y, d, r);
    match x.head {
        HeadS::Var(n) => lemma_closed_head(b, n, d, l),
        _ => {},
    }
    match y.head {
        HeadS::Var(m) => lemma_closed_head(b, m, d, r),
        _ => {},
    }
    match (x.head, y.head) {
        (HeadS::Var(n), HeadS::Var(m)) => lemma_refs_reflect(b, n, m, d, front, pairs),
        _ => {},
    }
    assert(forms_match(x.head, y.head, pairs));
    assert forall|i: int| 0 <= i < x.kids.len() implies pred_eq(
        #[trigger] x.kids[i],
        y.kids[i],
        pairs_under(x.head, y.head, i, pairs),
    ) by {
        let sx = scope_of(x.head, i);
        let sy = scope_of(y.head, i);
        lemma_scopes_match(x.head, y.head, i, pairs);
        let under = pairs_under(x.head, y.head, i, pairs);
        assert(scope_of(cx.head, i) == sx && scope_of(cy.head, i) == sy);
        assert(pairs_under(cx.head, cy.head, i, pairs) == under);
        assert(front + lefts(under) =~= l + sx);
        assert(front + rights(under) =~= r + sy);
        assert(no_index(sx) && no_index(sy));
        assert forall|k: int| 0 <= k < under.len() implies !((#[trigger] under[k]).0 is PiBound)
            && !(under[k].1 is PiBound) by {
            if k < pairs.len() {
                assert(under[k] == pairs[k]);
            } else {
                let j = k - pairs.len();
                assert(under[k] == (sx[j], sy[j]));
            }
        }
        assert(cx.kids[i] == pi_expr(closing(b), x.kids[i], d, l + sx));
        assert(cy.kids[i] == pi_expr(closing(b), y.kids[i], d, r + sy));
        assert(pred_eq(cx.kids[i], cy.kids[i], under));
        lemma_close_reflects(b, x.kids[i], y.kids[i], d, front, under);
    }
    lemma_close_filter(b, x, d, l);
    lemma_close_filter(b, y, d, r);
    if let (Some(ps), Some(qs)) = (filter_of(x), filter_of(y)) {
        let s = x.tys[x.tys.len() - 1];
        let dom = s.kids[s.kids.len() - 2];
        let cs = cx.tys[cx.tys.len() - 1];
        let cdom = cs.kids[cs.kids.len() - 2];
        let cqs = filter_of(cy)->0;
        let t = y.tys[y.tys.len() - 1];
        assert forall|i: int| 0 <= i < dom.preds.len() implies pred_among(
            #[trigger] dom.preds[i],
            qs,
            pairs,
        ) by {
            assert(pred_among(cdom.preds[i], cqs, pairs));
            let j = choose|j: int| 0 <= j < cqs.len() && pred_eq(cdom.preds[i], #[trigger] cqs[j], pairs);
            lemma_filter_member(b, x, d, l, i);
            lemma_filter_member(b, y, d, r, j);
            assert(decreases_to!(x => x.tys[x.tys.len() - 1]));
            assert(decreases_to!(s => s.kids[s.kids.len() - 2]));
            lemma_close_reflects(b, dom.preds[i], qs[j], d, front, pairs);
        }
        assert forall|j: int| 0 <= j < qs.len() implies one_is(
            dom.preds,
            #[trigger] qs[j],
            pairs,
        ) by {
            assert(one_is(cdom.preds, cqs[j], pairs));
            let i = choose|i: int|
                0 <= i < cdom.preds.len() && pred_eq(#[trigger] cdom.preds[i], cqs[j], pairs);
            lemma_filter_member(b, x, d, l, i);
            lemma_filter_member(b, y, d, r, j);
            assert(decreases_to!(x => x.tys[x.tys.len() - 1]));
            assert(decreases_to!(s => s.kids[s.kids.len() - 2]));
            lemma_close_reflects(b, dom.preds[i], qs[j], d, front, pairs);
        }
    }
}

/// What closing makes of the filter of a cast.
proof fn lemma_close_filter(b: NameS, e: ExprS, d: u32, sh: Seq<NameS>)
    requires
        apart(closing(b), e, d, sh),
    ensures
        filter_of(pi_expr(closing(b), e, d, sh)) is Some == filter_of(e) is Some,
        filter_of(e) matches Some(ps) ==> filter_of(pi_expr(closing(b), e, d, sh)) == Some(
            Seq::new(ps.len(), |i: int| pi_expr(closing(b), ps[i], d, sh)),
        ),
{
    let c = pi_expr(closing(b), e, d, sh);
    if e.head is Cast && e.tys.len() > 0 {
        let s = e.tys[e.tys.len() - 1];
        let cs = c.tys[c.tys.len() - 1];
        assert(cs == pi_ty(closing(b), s, d, sh));
        assert(apart_ty(closing(b), s, d, sh));
        if s.head is Fun && s.kids.len() >= 2 {
            let k = s.kids.len() - 2;
            let dom = s.kids[k];
            assert(kid_depth(s, k, d) == d);
            assert(cs.kids[k] == pi_ty(closing(b), dom, d, sh));
            assert(apart_ty(closing(b), dom, d, sh));
            let raw = pi_preds(closing(b), dom, d, sh);
            law_a_set_has_no_duplicates(raw);
            assert(raw =~= Seq::new(
                dom.preds.len(),
                |i: int| pi_expr(closing(b), dom.preds[i], d, sh),
            ));
        }
    }
}

/// What holds of a cast holds of the members of its filter.
proof fn lemma_filter_member(b: NameS, e: ExprS, d: u32, sh: Seq<NameS>, i: int)
    requires
        binds_names(e),
        !expr_refers_out(e, d),
        apart(closing(b), e, d, sh),
        filter_of(e) is Some,
        0 <= i < filter_of(e)->0.len(),
    ensures
        binds_names((filter_of(e)->0)[i]),
        !expr_refers_out((filter_of(e)->0)[i], d),
        apart(closing(b), (filter_of(e)->0)[i], d, sh),
{
    let s = e.tys[e.tys.len() - 1];
    let k = s.kids.len() - 2;
    let dom = s.kids[k];
    assert(kid_depth(s, k, d) == d);
    assert(binds_names_ty(s));
    assert(binds_names_ty(dom));
    assert(!refers_out(s, d));
    assert(!refers_out(dom, d));
    assert(apart_ty(closing(b), s, d, sh));
    assert(apart_ty(closing(b), dom, d, sh));
    assert(apart(closing(b), dom.preds[i], d, sh));
}

proof fn lemma_close_apart(b: NameS, t: TypeS, d: u32, sh: Seq<NameS>)
    requires
        !(b is PiBound),
        sets_in_ty(t),
        binds_names_ty(t),
        !refers_out(t, d),
    ensures
        apart_ty(closing(b), t, d, sh),
    decreases t,
{
    assert forall|i: int| 0 <= i < t.kids.len() implies apart_ty(
        closing(b),
        #[trigger] t.kids[i],
        kid_depth(t, i, d),
        sh,
    ) by {
        lemma_close_apart(b, t.kids[i], kid_depth(t, i, d), sh);
    }
    assert forall|i: int| 0 <= i < t.preds.len() implies apart(
        closing(b),
        #[trigger] t.preds[i],
        d,
        sh,
    ) by {
        lemma_close_apart_expr(b, t.preds[i], d, sh);
    }
    let raw = pi_preds(closing(b), t, d, sh);
    let none = Seq::<(NameS, NameS)>::empty();
    assert(sh + lefts(none) =~= sh);
    assert(sh + rights(none) =~= sh);
    assert forall|i: int, j: int| 0 <= i < j < raw.len() implies !same_pred(
        #[trigger] raw[i],
        #[trigger] raw[j],
    ) by {
        if same_pred(raw[i], raw[j]) {
            assert(apart(closing(b), t.preds[i], d, sh) && apart(closing(b), t.preds[j], d, sh));
            lemma_close_reflects(b, t.preds[i], t.preds[j], d, sh, none);
            assert(same_pred(t.preds[i], t.preds[j]));
        }
    }
}

proof fn lemma_close_apart_expr(b: NameS, e: ExprS, d: u32, sh: Seq<NameS>)
    requires
        !(b is PiBound),
        sets_in(e),
        binds_names(e),
        !expr_refers_out(e, d),
    ensures
        apart(closing(b), e, d, sh),
    decreases e,
{
    assert forall|i: int| 0 <= i < e.kids.len() implies apart(
        closing(b),
        #[trigger] e.kids[i],
        d,
        sh + scope_of(e.head, i),
    ) by {
        lemma_close_apart_expr(b, e.kids[i], d, sh + scope_of(e.head, i));
    }
    assert forall|i: int| 0 <= i < e.tys.len() implies apart_ty(
        closing(b),
        #[trigger] e.tys[i],
        d,
        sh,
    ) by {
        lemma_close_apart(b, e.tys[i], d, sh);
    }
}

/// Closing makes no two restrictions of a set one, where the type held no
/// reference to the function before.
pub proof fn law_closing_keeps_restrictions_apart(b: NameS, t: TypeS)
    requires
        !(b is PiBound),
        sets_in_ty(t),
        binds_names_ty(t),
        !refers_out(t, 0),
    ensures
        apart_ty(closing(b), t, 0, Seq::empty()),
{
    lemma_close_apart(b, t, 0, Seq::empty());
}

// ---- opening at a new name ----

/// Whether `e` holds no reference to `b`, bound or free.
spec fn unnamed(b: NameS, e: ExprS) -> bool {
    !free_in(b, e) && unbound_in(b, e)
}

proof fn lemma_new_alone(pairs: Seq<(NameS, NameS)>, b: NameS, m: NameS)
    requires
        pairs_named(pairs),
        !(b is PiBound),
        m != b,
        forall|i: int| 0 <= i < pairs.len() ==> (#[trigger] pairs[i]).0 != b && pairs[i].1 != b,
    ensures
        !refs_match(pairs, b, m),
        !refs_match(pairs, m, b),
    decreases pairs.len(),
{
    if pairs.len() > 0 {
        let last = pairs[pairs.len() - 1];
        assert(last.0 != b && last.1 != b);
        let d = pairs.drop_last();
        assert forall|i: int| 0 <= i < d.len() implies (#[trigger] d[i]).0 != b && d[i].1 != b && !(
        d[i].0 is PiBound) && !(d[i].1 is PiBound) by {
            assert(d[i] == pairs[i]);
        }
        lemma_new_alone(d, b, m);
    }
}

proof fn lemma_index_itself(pairs: Seq<(NameS, NameS)>, x: NameS, y: NameS)
    requires
        pairs_named(pairs),
        x is PiBound,
        x.ident() == y.ident(),
    ensures
        refs_match(pairs, x, y),
    decreases pairs.len(),
{
    if pairs.len() > 0 {
        let last = pairs[pairs.len() - 1];
        assert(!(last.0 is PiBound) && !(last.1 is PiBound));
        let d = pairs.drop_last();
        assert forall|i: int| 0 <= i < d.len() implies !((#[trigger] d[i]).0 is PiBound) && !(
        d[i].1 is PiBound) by {
            assert(d[i] == pairs[i]);
        }
        lemma_index_itself(d, x, y);
    }
}

spec fn opened_ref(b: NameS, n: NameS, d: u32) -> NameS {
    if n.pi_bound_index() == Some(d) {
        b
    } else {
        n
    }
}

proof fn lemma_opened_refs_reflect(
    b: NameS,
    n: NameS,
    m: NameS,
    d: u32,
    pairs: Seq<(NameS, NameS)>,
)
    requires
        pairs_named(pairs),
        !(b is PiBound),
        n != b,
        m != b,
        forall|i: int| 0 <= i < pairs.len() ==> (#[trigger] pairs[i]).0 != b && pairs[i].1 != b,
        refs_match(pairs, opened_ref(b, n, d), opened_ref(b, m, d)),
    ensures
        refs_match(pairs, n, m),
{
    let nc = n.pi_bound_index() == Some(d);
    let mc = m.pi_bound_index() == Some(d);
    if nc && mc {
        lemma_index_itself(pairs, n, m);
    } else if nc {
        lemma_new_alone(pairs, b, m);
    } else if mc {
        lemma_new_alone(pairs, b, n);
    }
}

/// What opening at a new name makes equal was equal.
proof fn lemma_open_reflects(
    b: NameS,
    x: ExprS,
    y: ExprS,
    d: u32,
    l: Seq<NameS>,
    r: Seq<NameS>,
    pairs: Seq<(NameS, NameS)>,
)
    requires
        pairs_named(pairs),
        forall|i: int| 0 <= i < pairs.len() ==> (#[trigger] pairs[i]).0 != b && pairs[i].1 != b,
        !(b is PiBound),
        b != NameS::Elem,
        binds_names(x),
        binds_names(y),
        plain_expr(x),
        plain_expr(y),
        unnamed(b, x),
        unnamed(b, y),
        apart(opening(b), x, d, l),
        apart(opening(b), y, d, r),
        pred_eq(pi_expr(opening(b), x, d, l), pi_expr(opening(b), y, d, r), pairs),
    ensures
        pred_eq(x, y, pairs),
    decreases x,
{
    let cx = pi_expr(opening(b), x, d, l);
    let cy = pi_expr(opening(b), y, d, r);
    match (x.head, y.head) {
        (HeadS::Var(n), HeadS::Var(m)) => {
            assert(own_ref(x.head) == Some(n) && own_ref(y.head) == Some(m));
            assert(cx.head == HeadS::Var(opened_ref(b, n, d)));
            assert(cy.head == HeadS::Var(opened_ref(b, m, d)));
            lemma_opened_refs_reflect(b, n, m, d, pairs);
        },
        _ => {},
    }
    assert(forms_match(x.head, y.head, pairs));
    assert(cx.kids.len() == x.kids.len() && cy.kids.len() == y.kids.len());
    assert forall|i: int| 0 <= i < x.kids.len() implies pred_eq(
        #[trigger] x.kids[i],
        y.kids[i],
        pairs_under(x.head, y.head, i, pairs),
    ) by {
        let sx = scope_of(x.head, i);
        let sy = scope_of(y.head, i);
        lemma_scopes_match(x.head, y.head, i, pairs);
        let under = pairs_under(x.head, y.head, i, pairs);
        assert(cx.head == x.head || (x.head is Var && cx.head is Var));
        assert(cy.head == y.head || (y.head is Var && cy.head is Var));
        assert(scope_of(cx.head, i) =~= sx && scope_of(cy.head, i) =~= sy);
        assert(pairs_under(cx.head, cy.head, i, pairs) == under);
        assert(no_index(sx) && no_index(sy));
        assert(!sx.contains(b) && !sy.contains(b));
        assert forall|k: int| 0 <= k < under.len() implies !((#[trigger] under[k]).0 is PiBound)
            && !(under[k].1 is PiBound) && under[k].0 != b && under[k].1 != b by {
            if k < pairs.len() {
                assert(under[k] == pairs[k]);
            } else {
                let j = k - pairs.len();
                assert(under[k] == (sx[j], sy[j]));
                assert(sx.contains(sx[j]) && sy.contains(sy[j]));
            }
        }
        assert(cx.kids[i] == pi_expr(opening(b), x.kids[i], d, l + sx));
        assert(cy.kids[i] == pi_expr(opening(b), y.kids[i], d, r + sy));
        assert(pred_eq(cx.kids[i], cy.kids[i], under));
        assert(unnamed(b, x.kids[i]) && unnamed(b, y.kids[i]));
        lemma_open_reflects(b, x.kids[i], y.kids[i], d, l + sx, r + sy, under);
    }
    lemma_open_filter(b, x, d, l);
    lemma_open_filter(b, y, d, r);
    if let (Some(ps), Some(qs)) = (filter_of(x), filter_of(y)) {
        let s = x.tys[x.tys.len() - 1];
        let dom = s.kids[s.kids.len() - 2];
        let cs = cx.tys[cx.tys.len() - 1];
        let cdom = cs.kids[cs.kids.len() - 2];
        let cqs = filter_of(cy)->0;
        assert forall|i: int| 0 <= i < dom.preds.len() implies pred_among(
            #[trigger] dom.preds[i],
            qs,
            pairs,
        ) by {
            assert(pred_among(cdom.preds[i], cqs, pairs));
            let j = choose|j: int| 0 <= j < cqs.len() && pred_eq(cdom.preds[i], #[trigger] cqs[j], pairs);
            lemma_open_member(b, x, d, l, i);
            lemma_open_member(b, y, d, r, j);
            assert(decreases_to!(x => x.tys[x.tys.len() - 1]));
            assert(decreases_to!(s => s.kids[s.kids.len() - 2]));
            lemma_open_reflects(b, dom.preds[i], qs[j], d, l, r, pairs);
        }
        assert forall|j: int| 0 <= j < qs.len() implies one_is(
            dom.preds,
            #[trigger] qs[j],
            pairs,
        ) by {
            assert(one_is(cdom.preds, cqs[j], pairs));
            let i = choose|i: int|
                0 <= i < cdom.preds.len() && pred_eq(#[trigger] cdom.preds[i], cqs[j], pairs);
            lemma_open_member(b, x, d, l, i);
            lemma_open_member(b, y, d, r, j);
            assert(decreases_to!(x => x.tys[x.tys.len() - 1]));
            assert(decreases_to!(s => s.kids[s.kids.len() - 2]));
            lemma_open_reflects(b, dom.preds[i], qs[j], d, l, r, pairs);
        }
    }
}

proof fn lemma_open_filter(b: NameS, e: ExprS, d: u32, sh: Seq<NameS>)
    requires
        apart(opening(b), e, d, sh),
    ensures
        filter_of(pi_expr(opening(b), e, d, sh)) is Some == filter_of(e) is Some,
        filter_of(e) matches Some(ps) ==> filter_of(pi_expr(opening(b), e, d, sh)) == Some(
            Seq::new(ps.len(), |i: int| pi_expr(opening(b), ps[i], d, sh)),
        ),
{
    let c = pi_expr(opening(b), e, d, sh);
    if e.head is Cast && e.tys.len() > 0 {
        let s = e.tys[e.tys.len() - 1];
        let cs = c.tys[c.tys.len() - 1];
        assert(cs == pi_ty(opening(b), s, d, sh));
        assert(apart_ty(opening(b), s, d, sh));
        if s.head is Fun && s.kids.len() >= 2 {
            let k = s.kids.len() - 2;
            let dom = s.kids[k];
            assert(kid_depth(s, k, d) == d);
            assert(cs.kids[k] == pi_ty(opening(b), dom, d, sh));
            assert(apart_ty(opening(b), dom, d, sh));
            let raw = pi_preds(opening(b), dom, d, sh);
            law_a_set_has_no_duplicates(raw);
            assert(raw =~= Seq::new(
                dom.preds.len(),
                |i: int| pi_expr(opening(b), dom.preds[i], d, sh),
            ));
        }
    }
}

proof fn lemma_open_member(b: NameS, e: ExprS, d: u32, sh: Seq<NameS>, i: int)
    requires
        b != NameS::Elem,
        binds_names(e),
        plain_expr(e),
        unnamed(b, e),
        apart(opening(b), e, d, sh),
        filter_of(e) is Some,
        0 <= i < filter_of(e)->0.len(),
    ensures
        binds_names((filter_of(e)->0)[i]),
        plain_expr((filter_of(e)->0)[i]),
        unnamed(b, (filter_of(e)->0)[i]),
        apart(opening(b), (filter_of(e)->0)[i], d, sh),
{
    let s = e.tys[e.tys.len() - 1];
    let k = s.kids.len() - 2;
    let dom = s.kids[k];
    assert(kid_depth(s, k, d) == d);
    assert(binds_names_ty(s) && binds_names_ty(dom));
    assert(plain_ty(s));
    assert(plain_ty(dom));
    assert(unbound_in_ty(b, s));
    assert(unbound_in_ty(b, dom));
    assert(!ty_binds(s, k, b));
    assert(!free_in_ty(b, s));
    assert(!free_in_ty(b, dom));
    assert(apart_ty(opening(b), s, d, sh));
    assert(apart_ty(opening(b), dom, d, sh));
    assert(apart(opening(b), dom.preds[i], d, sh));
}

proof fn lemma_open_apart(b: NameS, t: TypeS, d: u32, sh: Seq<NameS>)
    requires
        !(b is PiBound),
        b != NameS::Elem,
        sets_in_ty(t),
        binds_names_ty(t),
        plain_ty(t),
        !free_in_ty(b, t),
        unbound_in_ty(b, t),
    ensures
        apart_ty(opening(b), t, d, sh),
    decreases t,
{
    assert forall|i: int| 0 <= i < t.kids.len() implies apart_ty(
        opening(b),
        #[trigger] t.kids[i],
        kid_depth(t, i, d),
        sh,
    ) by {
        assert(!ty_binds(t, i, b));
        lemma_open_apart(b, t.kids[i], kid_depth(t, i, d), sh);
    }
    assert forall|i: int| 0 <= i < t.preds.len() implies apart(
        opening(b),
        #[trigger] t.preds[i],
        d,
        sh,
    ) && unnamed(b, t.preds[i]) by {
        lemma_open_apart_expr(b, t.preds[i], d, sh);
    }
    let raw = pi_preds(opening(b), t, d, sh);
    let none = Seq::<(NameS, NameS)>::empty();
    assert forall|i: int, j: int| 0 <= i < j < raw.len() implies !same_pred(
        #[trigger] raw[i],
        #[trigger] raw[j],
    ) by {
        if same_pred(raw[i], raw[j]) {
            assert(unnamed(b, t.preds[i]) && unnamed(b, t.preds[j]));
            lemma_open_reflects(b, t.preds[i], t.preds[j], d, sh, sh, none);
            assert(same_pred(t.preds[i], t.preds[j]));
        }
    }
}

proof fn lemma_open_apart_expr(b: NameS, e: ExprS, d: u32, sh: Seq<NameS>)
    requires
        !(b is PiBound),
        b != NameS::Elem,
        sets_in(e),
        binds_names(e),
        plain_expr(e),
        unnamed(b, e),
    ensures
        apart(opening(b), e, d, sh),
    decreases e,
{
    assert forall|i: int| 0 <= i < e.kids.len() implies apart(
        opening(b),
        #[trigger] e.kids[i],
        d,
        sh + scope_of(e.head, i),
    ) by {
        assert(!scope_of(e.head, i).contains(b));
        assert(unnamed(b, e.kids[i]));
        lemma_open_apart_expr(b, e.kids[i], d, sh + scope_of(e.head, i));
    }
    assert forall|i: int| 0 <= i < e.tys.len() implies apart_ty(
        opening(b),
        #[trigger] e.tys[i],
        d,
        sh,
    ) by {
        lemma_open_apart(b, e.tys[i], d, sh);
    }
}

/// What is opened holds no more reference to the function.
proof fn lemma_opened_within(b: NameS, t: TypeS, d: u32, sh: Seq<NameS>)
    requires
        !(b is PiBound),
        binds_names_ty(t),
        plain_ty(t),
    ensures
        !refers_out(pi_ty(opening(b), t, d, sh), d),
        binds_names_ty(pi_ty(opening(b), t, d, sh)),
    decreases t,
{
    let out = pi_ty(opening(b), t, d, sh);
    let raw = pi_preds(opening(b), t, d, sh);
    lemma_kept_members(raw);
    assert forall|i: int| 0 <= i < out.kids.len() implies !refers_out(
        #[trigger] out.kids[i],
        kid_depth(out, i, d),
    ) && binds_names_ty(out.kids[i]) by {
        assert(kid_depth(out, i, d) == kid_depth(t, i, d));
        lemma_opened_within(b, t.kids[i], kid_depth(t, i, d), sh);
    }
    assert forall|i: int| 0 <= i < out.preds.len() implies !expr_refers_out(
        #[trigger] out.preds[i],
        d,
    ) && binds_names(out.preds[i]) by {
        let k = choose|k: int| 0 <= k < raw.len() && raw[k] == out.preds[i];
        lemma_opened_within_expr(b, t.preds[k], d, sh);
    }
}

proof fn lemma_opened_within_expr(b: NameS, e: ExprS, d: u32, sh: Seq<NameS>)
    requires
        !(b is PiBound),
        binds_names(e),
        plain_expr(e),
    ensures
        !expr_refers_out(pi_expr(opening(b), e, d, sh), d),
        binds_names(pi_expr(opening(b), e, d, sh)),
    decreases e,
{
    let out = pi_expr(opening(b), e, d, sh);
    assert forall|i: int| 0 <= i < e.tys.len() implies !refers_out(
        pi_ty(opening(b), #[trigger] e.tys[i], d, sh),
        d,
    ) && binds_names_ty(pi_ty(opening(b), e.tys[i], d, sh)) by {
        lemma_opened_within(b, e.tys[i], d, sh);
    }
    if points_at(e.head, d) {
        assert(e.tys.len() == 1);
        assert(out.kids =~= Seq::empty());
        assert(out.tys.len() == 1);
        assert(out.tys[0] == pi_ty(opening(b), e.tys[0], d, sh));
    } else {
        assert(out.head == e.head);
        assert forall|i: int| 0 <= i < out.kids.len() implies !expr_refers_out(
            #[trigger] out.kids[i],
            d,
        ) && binds_names(out.kids[i]) && no_index(scope_of(out.head, i)) by {
            assert(no_index(scope_of(e.head, i)));
            lemma_opened_within_expr(b, e.kids[i], d, sh + scope_of(e.head, i));
        }
        assert forall|i: int| 0 <= i < out.kids.len() implies no_index(
            #[trigger] scope_of(out.head, i),
        ) by {
            assert(no_index(scope_of(e.head, i)));
        }
        assert forall|i: int| 0 <= i < out.tys.len() implies !refers_out(#[trigger] out.tys[i], d)
            && binds_names_ty(out.tys[i]) by {
            assert(out.tys[i] == pi_ty(opening(b), e.tys[i], d, sh));
        }
    }
}

/// Opening at a name that does not occur makes no two restrictions of a set one,
/// and neither does closing again what it gives.
pub proof fn law_opening_at_a_new_name_keeps_restrictions_apart(b: NameS, t: TypeS)
    requires
        !(b is PiBound),
        b != NameS::Elem,
        sets_in_ty(t),
        binds_names_ty(t),
        plain_ty(t),
        !free_in_ty(b, t),
        unbound_in_ty(b, t),
    ensures
        apart_ty(opening(b), t, 0, Seq::empty()),
        apart_ty(closing(b), opened_ty(MappingS::Rename(b), t), 0, Seq::empty()),
{
    lemma_open_apart(b, t, 0, Seq::empty());
    lemma_opened_within(b, t, 0, Seq::empty());
    law_conversion_leaves_sets(opening(b), t, 0, Seq::empty());
    law_closing_keeps_restrictions_apart(b, opened_ty(MappingS::Rename(b), t));
}

} // verus!
