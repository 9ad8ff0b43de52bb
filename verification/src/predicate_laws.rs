//! The laws of comparing predicates, and of the sets they make up.

use vstd::prelude::*;
use crate::ast::{ExprS, HeadS};
use crate::name::NameS;
use crate::refine_eq::{
    cast_filter, filter_of, forms_match, lemma_scopes_match, one_is, pairs_under,
    patterns_match, pred_among, pred_eq, refs_match, same_pred,
};
use crate::refinement_set::{distinct, same_set, set_has, set_insert};

verus! {

/// Whether every pair is of one name with itself.
pub open spec fn diagonal(pairs: Seq<(NameS, NameS)>) -> bool {
    forall|i: int| 0 <= i < pairs.len() ==> (#[trigger] pairs[i]).0 == pairs[i].1
}

pub proof fn lemma_diagonal_refs(pairs: Seq<(NameS, NameS)>, x: NameS, y: NameS)
    requires
        diagonal(pairs),
    ensures
        refs_match(pairs, x, y) == (x.ident() == y.ident()),
    decreases pairs.len(),
{
    if pairs.len() > 0 {
        assert(pairs[pairs.len() - 1].0 == pairs[pairs.len() - 1].1);
        lemma_diagonal_refs(pairs.drop_last(), x, y);
    }
}

proof fn lemma_equals_itself(a: ExprS, pairs: Seq<(NameS, NameS)>)
    requires
        diagonal(pairs),
    ensures
        pred_eq(a, a, pairs),
    decreases a,
{
    match a.head {
        HeadS::Var(x) => lemma_diagonal_refs(pairs, x, x),
        HeadS::Feed(x) => lemma_diagonal_refs(pairs, x, x),
        HeadS::Define(x) => lemma_diagonal_refs(pairs, x, x),
        HeadS::MutWrite(x) => lemma_diagonal_refs(pairs, x, x),
        _ => {},
    }
    assert(forms_match(a.head, a.head, pairs));
    assert forall|i: int| 0 <= i < a.kids.len() implies pred_eq(
        #[trigger] a.kids[i],
        a.kids[i],
        pairs_under(a.head, a.head, i, pairs),
    ) by {
        let under = pairs_under(a.head, a.head, i, pairs);
        assert forall|k: int| 0 <= k < under.len() implies (#[trigger] under[k]).0 == under[k].1 by {
            if k < pairs.len() {
                assert(pairs[k].0 == pairs[k].1);
            }
        }
        lemma_equals_itself(a.kids[i], pairs_under(a.head, a.head, i, pairs));
    }
    if filter_of(a) is Some {
        let s = a.tys[a.tys.len() - 1];
        if cast_filter(s) is Some {
            let dom = s.kids[s.kids.len() - 2];
            assert forall|i: int| 0 <= i < dom.preds.len() implies pred_among(
                #[trigger] dom.preds[i],
                dom.preds,
                pairs,
            ) by {
                lemma_equals_itself(dom.preds[i], pairs);
            }
            assert forall|i: int| 0 <= i < dom.preds.len() implies one_is(
                dom.preds,
                #[trigger] dom.preds[i],
                pairs,
            ) by {
                lemma_equals_itself(dom.preds[i], pairs);
            }
        }
    }
}

/// A predicate is the same restriction as itself.
pub proof fn law_predicate_equals_itself(a: ExprS)
    ensures
        same_pred(a, a),
{
    lemma_equals_itself(a, Seq::empty());
}

/// The pairing of `p`'s left names with `q`'s right names.
pub open spec fn joined_pairs(p: Seq<(NameS, NameS)>, q: Seq<(NameS, NameS)>) -> Seq<
    (NameS, NameS),
> {
    Seq::new(p.len(), |i: int| (p[i].0, q[i].1))
}

/// Whether `q` pairs on where `p` leaves off.
pub open spec fn chained(p: Seq<(NameS, NameS)>, q: Seq<(NameS, NameS)>) -> bool {
    p.len() == q.len() && forall|i: int| 0 <= i < p.len() ==> (#[trigger] p[i]).1 == q[i].0
}

proof fn lemma_chained_refs(
    p: Seq<(NameS, NameS)>,
    q: Seq<(NameS, NameS)>,
    x: NameS,
    y: NameS,
    z: NameS,
)
    requires
        chained(p, q),
        refs_match(p, x, y),
        refs_match(q, y, z),
    ensures
        refs_match(joined_pairs(p, q), x, z),
    decreases p.len(),
{
    let j = joined_pairs(p, q);
    if p.len() > 0 {
        let n = p.len() - 1;
        assert(p[n].1 == q[n].0);
        assert(j.last() == (p[n].0, q[n].1));
        assert(j.drop_last() =~= joined_pairs(p.drop_last(), q.drop_last()));
        if !(p[n].0.ident() == x.ident() || p[n].1.ident() == y.ident()) {
            assert forall|i: int| 0 <= i < p.drop_last().len() implies (
            #[trigger] p.drop_last()[i]).1 == q.drop_last()[i].0 by {
                assert(p[i].1 == q[i].0);
            }
            lemma_chained_refs(p.drop_last(), q.drop_last(), x, y, z);
        }
    }
}

proof fn lemma_chained_under(
    a: HeadS,
    b: HeadS,
    c: HeadS,
    i: int,
    p: Seq<(NameS, NameS)>,
    q: Seq<(NameS, NameS)>,
)
    requires
        chained(p, q),
        forms_match(a, b, p),
        forms_match(b, c, q),
    ensures
        chained(pairs_under(a, b, i, p), pairs_under(b, c, i, q)),
        joined_pairs(pairs_under(a, b, i, p), pairs_under(b, c, i, q)) == pairs_under(
            a,
            c,
            i,
            joined_pairs(p, q),
        ),
{
    lemma_scopes_match(a, b, i, p);
    lemma_scopes_match(b, c, i, q);
    let pu = pairs_under(a, b, i, p);
    let qu = pairs_under(b, c, i, q);
    assert forall|k: int| 0 <= k < pu.len() implies (#[trigger] pu[k]).1 == qu[k].0 by {
        if k < p.len() {
            assert(p[k].1 == q[k].0);
        }
    }
    assert(joined_pairs(pu, qu) =~= pairs_under(a, c, i, joined_pairs(p, q)));
}

proof fn lemma_equal_through(
    a: ExprS,
    b: ExprS,
    c: ExprS,
    p: Seq<(NameS, NameS)>,
    q: Seq<(NameS, NameS)>,
)
    requires
        chained(p, q),
        pred_eq(a, b, p),
        pred_eq(b, c, q),
    ensures
        pred_eq(a, c, joined_pairs(p, q)),
    decreases a,
{
    let j = joined_pairs(p, q);
    match (a.head, b.head, c.head) {
        (HeadS::Var(x), HeadS::Var(y), HeadS::Var(z)) => lemma_chained_refs(p, q, x, y, z),
        (HeadS::Feed(x), HeadS::Feed(y), HeadS::Feed(z)) => lemma_chained_refs(p, q, x, y, z),
        (HeadS::Define(x), HeadS::Define(y), HeadS::Define(z)) => lemma_chained_refs(
            p,
            q,
            x,
            y,
            z,
        ),
        (HeadS::MutWrite(x), HeadS::MutWrite(y), HeadS::MutWrite(z)) => lemma_chained_refs(
            p,
            q,
            x,
            y,
            z,
        ),
        (HeadS::Case(s, ps), HeadS::Case(t, qs), HeadS::Case(u, rs)) => {
            assert forall|i: int| 0 <= i < ps.len() implies patterns_match(
                #[trigger] ps[i],
                rs[i],
            ) by {
                assert(patterns_match(ps[i], qs[i]));
                assert(patterns_match(qs[i], rs[i]));
            }
        },
        _ => {},
    }
    assert(forms_match(a.head, c.head, j));
    assert forall|i: int| 0 <= i < a.kids.len() implies pred_eq(
        #[trigger] a.kids[i],
        c.kids[i],
        pairs_under(a.head, c.head, i, j),
    ) by {
        lemma_chained_under(a.head, b.head, c.head, i, p, q);
        assert(pred_eq(b.kids[i], c.kids[i], pairs_under(b.head, c.head, i, q)));
        lemma_equal_through(
            a.kids[i],
            b.kids[i],
            c.kids[i],
            pairs_under(a.head, b.head, i, p),
            pairs_under(b.head, c.head, i, q),
        );
    }
    if filter_of(a) is Some {
        let s = a.tys[a.tys.len() - 1];
        let t = b.tys[b.tys.len() - 1];
        let u = c.tys[c.tys.len() - 1];
        if cast_filter(s) is Some {
            let ps = s.kids[s.kids.len() - 2].preds;
            let qs = t.kids[t.kids.len() - 2].preds;
            let rs = u.kids[u.kids.len() - 2].preds;
            assert forall|i: int| 0 <= i < ps.len() implies pred_among(#[trigger] ps[i], rs, j) by {
                assert(pred_among(s.kids[s.kids.len() - 2].preds[i], qs, p));
                let k = choose|k: int| 0 <= k < qs.len() && pred_eq(ps[i], #[trigger] qs[k], p);
                assert(pred_among(t.kids[t.kids.len() - 2].preds[k], rs, q));
                let m = choose|m: int| 0 <= m < rs.len() && pred_eq(qs[k], #[trigger] rs[m], q);
                lemma_equal_through(ps[i], qs[k], rs[m], p, q);
            }
            assert forall|m: int| 0 <= m < rs.len() implies one_is(ps, #[trigger] rs[m], j) by {
                assert(one_is(qs, rs[m], q));
                let k = choose|k: int| 0 <= k < qs.len() && pred_eq(#[trigger] qs[k], rs[m], q);
                assert(one_is(ps, qs[k], p));
                let i = choose|i: int| 0 <= i < ps.len() && pred_eq(#[trigger] ps[i], qs[k], p);
                assert(decreases_to!(s => s.kids[s.kids.len() - 2].preds[i]));
                lemma_equal_through(ps[i], qs[k], rs[m], p, q);
            }
        }
    }
}

/// Predicates that are one restriction with a third are one restriction.
pub proof fn law_equal_predicates_chain(a: ExprS, b: ExprS, c: ExprS)
    requires
        same_pred(a, b),
        same_pred(b, c),
    ensures
        same_pred(a, c),
{
    let none: Seq<(NameS, NameS)> = Seq::empty();
    lemma_equal_through(a, b, c, none, none);
    assert(joined_pairs(none, none) =~= none);
}

/// The pairing read from right to left.
pub open spec fn flipped(p: Seq<(NameS, NameS)>) -> Seq<(NameS, NameS)> {
    Seq::new(p.len(), |i: int| (p[i].1, p[i].0))
}

proof fn lemma_flipped_refs(p: Seq<(NameS, NameS)>, x: NameS, y: NameS)
    requires
        refs_match(p, x, y),
    ensures
        refs_match(flipped(p), y, x),
    decreases p.len(),
{
    if p.len() > 0 {
        assert(flipped(p).last() == (p.last().1, p.last().0));
        assert(flipped(p).drop_last() =~= flipped(p.drop_last()));
        if !(p.last().0.ident() == x.ident() || p.last().1.ident() == y.ident()) {
            lemma_flipped_refs(p.drop_last(), x, y);
        }
    }
}

proof fn lemma_same_behind(
    d: Seq<(NameS, NameS)>,
    f: Seq<(NameS, NameS)>,
    w: Seq<(NameS, NameS)>,
    x: NameS,
    y: NameS,
)
    requires
        diagonal(d),
        diagonal(f),
    ensures
        refs_match(d + w, x, y) == refs_match(f + w, x, y),
    decreases w.len(),
{
    if w.len() == 0 {
        assert(d + w =~= d);
        assert(f + w =~= f);
        lemma_diagonal_refs(d, x, y);
        lemma_diagonal_refs(f, x, y);
    } else {
        assert((d + w).last() == w.last());
        assert((f + w).last() == w.last());
        assert((d + w).drop_last() =~= d + w.drop_last());
        assert((f + w).drop_last() =~= f + w.drop_last());
        lemma_same_behind(d, f, w.drop_last(), x, y);
    }
}

proof fn lemma_diagonal_front(
    a: ExprS,
    b: ExprS,
    d: Seq<(NameS, NameS)>,
    f: Seq<(NameS, NameS)>,
    w: Seq<(NameS, NameS)>,
)
    requires
        diagonal(d),
        diagonal(f),
        pred_eq(a, b, d + w),
    ensures
        pred_eq(a, b, f + w),
    decreases a,
{
    match (a.head, b.head) {
        (HeadS::Var(x), HeadS::Var(y)) => lemma_same_behind(d, f, w, x, y),
        (HeadS::Feed(x), HeadS::Feed(y)) => lemma_same_behind(d, f, w, x, y),
        (HeadS::Define(x), HeadS::Define(y)) => lemma_same_behind(d, f, w, x, y),
        (HeadS::MutWrite(x), HeadS::MutWrite(y)) => lemma_same_behind(d, f, w, x, y),
        _ => {},
    }
    assert(forms_match(a.head, b.head, f + w));
    assert forall|i: int| 0 <= i < a.kids.len() implies pred_eq(
        #[trigger] a.kids[i],
        b.kids[i],
        pairs_under(a.head, b.head, i, f + w),
    ) by {
        let more = pairs_under(a.head, b.head, i, w);
        assert(pairs_under(a.head, b.head, i, d + w) =~= d + more);
        assert(pairs_under(a.head, b.head, i, f + w) =~= f + more);
        lemma_diagonal_front(a.kids[i], b.kids[i], d, f, more);
    }
    if filter_of(a) is Some {
        let s = a.tys[a.tys.len() - 1];
        let t = b.tys[b.tys.len() - 1];
        if cast_filter(s) is Some {
            let ps = s.kids[s.kids.len() - 2].preds;
            let qs = t.kids[t.kids.len() - 2].preds;
            assert forall|i: int| 0 <= i < ps.len() implies pred_among(
                #[trigger] ps[i],
                qs,
                f + w,
            ) by {
                assert(pred_among(s.kids[s.kids.len() - 2].preds[i], qs, d + w));
                let k = choose|k: int| 0 <= k < qs.len() && pred_eq(ps[i], #[trigger] qs[k], d + w);
                lemma_diagonal_front(ps[i], qs[k], d, f, w);
            }
            assert forall|k: int| 0 <= k < qs.len() implies one_is(
                ps,
                #[trigger] qs[k],
                f + w,
            ) by {
                assert(one_is(ps, qs[k], d + w));
                let i = choose|i: int| 0 <= i < ps.len() && pred_eq(#[trigger] ps[i], qs[k], d + w);
                lemma_diagonal_front(ps[i], qs[k], d, f, w);
            }
        }
    }
}

/// As many different places as there are places are all of them.
proof fn lemma_every_place(places: Seq<int>, n: nat, k: int)
    requires
        places.len() == n,
        places.no_duplicates(),
        forall|i: int| 0 <= i < n ==> 0 <= #[trigger] places[i] < n,
        0 <= k < n,
    ensures
        places.contains(k),
{
    let all = vstd::set_lib::set_int_range(0, n as int);
    vstd::set_lib::lemma_int_range(0, n as int);
    places.unique_seq_to_set();
    assert(places.to_set().subset_of(all)) by {
        assert forall|x: int| places.to_set().contains(x) implies all.contains(x) by {
            let i = choose|i: int| 0 <= i < places.len() && places[i] == x;
            assert(0 <= places[i] < n);
        }
    }
    vstd::seq_lib::seq_to_set_is_finite(places);
    vstd::set_lib::lemma_subset_equality(places.to_set(), all);
    assert(places.to_set().contains(k));
}

proof fn lemma_equal_back(a: ExprS, b: ExprS, p: Seq<(NameS, NameS)>)
    requires
        pred_eq(a, b, p),
    ensures
        pred_eq(b, a, flipped(p)),
    decreases a,
{
    let r = flipped(p);
    match (a.head, b.head) {
        (HeadS::Var(x), HeadS::Var(y)) => lemma_flipped_refs(p, x, y),
        (HeadS::Feed(x), HeadS::Feed(y)) => lemma_flipped_refs(p, x, y),
        (HeadS::Define(x), HeadS::Define(y)) => lemma_flipped_refs(p, x, y),
        (HeadS::MutWrite(x), HeadS::MutWrite(y)) => lemma_flipped_refs(p, x, y),
        (HeadS::Case(s, ps), HeadS::Case(t, qs)) => {
            assert forall|i: int| 0 <= i < qs.len() implies patterns_match(
                #[trigger] qs[i],
                ps[i],
            ) by {
                assert(patterns_match(ps[i], qs[i]));
            }
        },
        _ => {},
    }
    assert(forms_match(b.head, a.head, r));
    assert forall|i: int| 0 <= i < b.kids.len() implies pred_eq(
        #[trigger] b.kids[i],
        a.kids[i],
        pairs_under(b.head, a.head, i, r),
    ) by {
        assert(pred_eq(a.kids[i], b.kids[i], pairs_under(a.head, b.head, i, p)));
        lemma_scopes_match(a.head, b.head, i, p);
        assert(flipped(pairs_under(a.head, b.head, i, p)) =~= pairs_under(b.head, a.head, i, r));
        lemma_equal_back(a.kids[i], b.kids[i], pairs_under(a.head, b.head, i, p));
    }
    if filter_of(a) is Some {
        let s = a.tys[a.tys.len() - 1];
        let t = b.tys[b.tys.len() - 1];
        if cast_filter(s) is Some {
            let ps = s.kids[s.kids.len() - 2].preds;
            let qs = t.kids[t.kids.len() - 2].preds;
            assert forall|m: int| 0 <= m < qs.len() implies pred_among(
                #[trigger] qs[m],
                ps,
                r,
            ) by {
                assert(one_is(ps, qs[m], p));
                let i = choose|i: int| 0 <= i < ps.len() && pred_eq(#[trigger] ps[i], qs[m], p);
                lemma_equal_back(ps[i], qs[m], p);
            }
            assert forall|i: int| 0 <= i < ps.len() implies one_is(qs, #[trigger] ps[i], r) by {
                assert(pred_among(s.kids[s.kids.len() - 2].preds[i], qs, p));
                let m = choose|m: int| 0 <= m < qs.len() && pred_eq(ps[i], #[trigger] qs[m], p);
                lemma_equal_back(ps[i], qs[m], p);
            }
        }
    }
}

/// Where as many restrictions as there are, no two of them one, are each among
/// others, those are all among them.
pub proof fn lemma_all_are_met(ps: Seq<ExprS>, qs: Seq<ExprS>, p: Seq<(NameS, NameS)>)
    requires
        distinct(ps),
        ps.len() == qs.len(),
        forall|i: int| 0 <= i < ps.len() ==> pred_among(#[trigger] ps[i], qs, p),
    ensures
        forall|m: int| 0 <= m < qs.len() ==> one_is(ps, #[trigger] qs[m], p),
{
    let n = ps.len();
    let r = flipped(p);
    // Each restriction has its own place among the others.
    let places: Seq<int> = Seq::new(
        n,
        |i: int| choose|k: int| 0 <= k < qs.len() && pred_eq(ps[i], #[trigger] qs[k], p),
    );
    assert forall|i: int| 0 <= i < n implies 0 <= #[trigger] places[i] < n && pred_eq(
        ps[i],
        qs[places[i]],
        p,
    ) by {
        assert(pred_among(ps[i], qs, p));
    }
    assert forall|i: int, k: int| 0 <= i < k < n implies places[i] != places[k] by {
        if places[i] == places[k] {
            let q = qs[places[i]];
            assert(pred_eq(ps[k], qs[places[k]], p));
            lemma_equal_back(ps[k], q, p);
            assert(chained(p, r));
            lemma_equal_through(ps[i], q, ps[k], p, r);
            let j = joined_pairs(p, r);
            assert(diagonal(j));
            let none: Seq<(NameS, NameS)> = Seq::empty();
            assert(j + none =~= j);
            lemma_diagonal_front(ps[i], ps[k], j, none, none);
            assert(none + none =~= none);
            assert(same_pred(ps[i], ps[k]));
        }
    }
    assert(places.no_duplicates());
    assert forall|m: int| 0 <= m < qs.len() implies one_is(ps, #[trigger] qs[m], p) by {
        lemma_every_place(places, n, m);
        let i = choose|i: int| 0 <= i < places.len() && places[i] == m;
        assert(pred_eq(ps[i], qs[m], p));
    }
}

/// Predicates that are one restriction are so read in either order.
pub proof fn law_equal_predicates_either_way(a: ExprS, b: ExprS)
    requires
        same_pred(a, b),
    ensures
        same_pred(b, a),
{
    let none: Seq<(NameS, NameS)> = Seq::empty();
    lemma_equal_back(a, b, none);
    assert(flipped(none) =~= none);
}

/// A set of restrictions is equal to every arrangement of it.
pub proof fn law_set_equality_ignores_order(s: Seq<ExprS>, t: Seq<ExprS>)
    requires
        s.to_multiset() == t.to_multiset(),
    ensures
        same_set(s, t),
{
    broadcast use vstd::seq_lib::group_to_multiset_ensures;

    assert(s.len() == s.to_multiset().len());
    assert(t.len() == t.to_multiset().len());
    assert forall|i: int| 0 <= i < s.len() implies set_has(t, #[trigger] s[i]) by {
        assert(s.contains(s[i]));
        assert(s.to_multiset().count(s[i]) > 0);
        assert(t.contains(s[i]));
        let j = choose|j: int| 0 <= j < t.len() && t[j] == s[i];
        law_predicate_equals_itself(s[i]);
        assert(same_pred(t[j], s[i]));
    }
}

/// A restriction is in a set once it was added.
pub proof fn law_added_restriction_is_there(s: Seq<ExprS>, p: ExprS)
    ensures
        set_has(set_insert(s, p), p),
{
    if !set_has(s, p) {
        law_predicate_equals_itself(p);
        let t = set_insert(s, p);
        assert(same_pred(t[t.len() - 1], p));
    }
}

} // verus!
