//! The laws of what equal predicates have in common.

use vstd::prelude::*;
use crate::ast::{ExprS, HeadS};
use crate::meaning::{Meant, Model, Valuation, meant, setting_all};
use crate::meaning_laws::{kid_alike, lemma_alike};
use crate::name::NameS;
use crate::predicate_laws::law_equal_predicates_either_way;
use crate::refine_eq::{
    lemma_scopes_match, pairs_under, patterns_match, pred_eq, refs_match, same_pred,
};
use crate::scope::{free_in_value, own_ref, scope_of};

verus! {

/// Whether `n` is the left name of a pair.
spec fn on_the_left(pairs: Seq<(NameS, NameS)>, n: NameS) -> bool {
    exists|k: int| 0 <= k < pairs.len() && (#[trigger] pairs[k]).0 == n
}

/// Whether `n` is the right name of a pair.
spec fn on_the_right(pairs: Seq<(NameS, NameS)>, n: NameS) -> bool {
    exists|k: int| 0 <= k < pairs.len() && (#[trigger] pairs[k]).1 == n
}

proof fn lemma_unpaired_match(pairs: Seq<(NameS, NameS)>, n: NameS, y: NameS)
    requires
        refs_match(pairs, n, y),
        !on_the_left(pairs, n),
        !(n is PiBound),
    ensures
        y == n,
        !on_the_right(pairs, n),
    decreases pairs.len(),
{
    if pairs.len() > 0 {
        let front = pairs.drop_last();
        let last = pairs[pairs.len() - 1];
        assert(last == pairs.last());
        assert(last.0 != n);
        assert forall|k: int| 0 <= k < front.len() implies (#[trigger] front[k]).0 != n by {
            assert(front[k] == pairs[k]);
        }
        lemma_unpaired_match(front, n, y);
        assert forall|k: int| 0 <= k < pairs.len() implies (#[trigger] pairs[k]).1 != n by {
            if k < front.len() {
                assert(front[k] == pairs[k]);
            }
        }
    }
}

proof fn lemma_free_in_equal(a: ExprS, b: ExprS, pairs: Seq<(NameS, NameS)>, n: NameS)
    requires
        pred_eq(a, b, pairs),
        !on_the_left(pairs, n),
        !(n is PiBound),
        free_in_value(n, a),
    ensures
        !on_the_right(pairs, n),
        free_in_value(n, b),
    decreases a,
{
    if own_ref(a.head) == Some(n) {
        let y = own_ref(b.head)->0;
        lemma_unpaired_match(pairs, n, y);
    } else {
        let i = choose|i: int|
            0 <= i < a.kids.len() && !scope_of(a.head, i).contains(n) && free_in_value(
                n,
                #[trigger] a.kids[i],
            );
        let below = pairs_under(a.head, b.head, i, pairs);
        let ns = scope_of(a.head, i);
        let ms = scope_of(b.head, i);
        lemma_scopes_match(a.head, b.head, i, pairs);
        assert forall|k: int| 0 <= k < below.len() implies (#[trigger] below[k]).0 != n by {
            if k < pairs.len() {
                assert(below[k] == pairs[k]);
            } else {
                assert(below[k] == (ns[k - pairs.len()], ms[k - pairs.len()]));
                assert(ns.contains(ns[k - pairs.len()]));
            }
        }
        lemma_free_in_equal(a.kids[i], b.kids[i], below, n);
        assert forall|k: int| 0 <= k < pairs.len() implies (#[trigger] pairs[k]).1 != n by {
            assert(below[k] == pairs[k]);
        }
        assert(!ms.contains(n)) by {
            if ms.contains(n) {
                let k = choose|k: int| 0 <= k < ms.len() && ms[k] == n;
                assert(below[pairs.len() + k] == (ns[k], ms[k]));
            }
        }
        assert(free_in_value(n, b.kids[i]));
    }
}

/// Equal predicates have the same free names.
pub proof fn law_equal_predicates_have_the_same_free_names(a: ExprS, b: ExprS, n: NameS)
    requires
        same_pred(a, b),
        !(n is PiBound),
    ensures
        free_in_value(n, a) == free_in_value(n, b),
{
    law_equal_predicates_either_way(a, b);
    let none = Seq::<(NameS, NameS)>::empty();
    if free_in_value(n, a) {
        lemma_free_in_equal(a, b, none, n);
    }
    if free_in_value(n, b) {
        lemma_free_in_equal(b, a, none, n);
    }
}

/// Whether `e` binds no name and touches no handle.
pub open spec fn binds_nothing(e: ExprS) -> bool
    decreases e,
{
    &&& !(e.head is Feed || e.head is Define || e.head is MutWrite || e.head is LetRec)
    &&& match e.head {
        HeadS::Case(_, ps) => forall|i: int| 0 <= i < ps.len() ==> (#[trigger] ps[i]) is None,
        _ => true,
    }
    &&& forall|i: int|
        0 <= i < e.kids.len() ==> scope_of(e.head, i).len() == 0 && binds_nothing(
            #[trigger] e.kids[i],
        )
    &&& !(e.head is Lambda || e.head is Let || e.head is MutDecl || e.head is For)
}

/// Equal predicates that bind nothing mean the same, whatever the names they read mean.
pub proof fn law_equal_predicates_mean_the_same(m: Model, rho: Valuation, a: ExprS, b: ExprS)
    requires
        same_pred(a, b),
        binds_nothing(a),
    ensures
        meant(m, rho, a) == meant(m, rho, b),
    decreases a,
{
    let none = Seq::<(NameS, NameS)>::empty();
    match (a.head, b.head) {
        (HeadS::Var(x), HeadS::Var(y)) => {
            assert(x.ident() == y.ident());
        },
        _ => {
            match (a.head, b.head) {
                (HeadS::Case(s, ps), HeadS::Case(t, qs)) => {
                    assert forall|i: int| 0 <= i < ps.len() implies ps[i] == qs[i] by {
                        assert(patterns_match(ps[i], qs[i]));
                    }
                    assert(ps =~= qs);
                },
                _ => {},
            }
            assert(a.head == b.head);
            assert forall|i: int| 0 <= i < a.kids.len() implies #[trigger] kid_alike(
                m,
                rho,
                a,
                rho,
                b,
                i,
            ) by {
                let below = pairs_under(a.head, b.head, i, none);
                assert(scope_of(a.head, i).len() == 0);
                assert(below =~= none);
                assert forall|ds: Seq<Meant>| #[trigger]
                    meant(m, setting_all(rho, scope_of(a.head, i), ds), a.kids[i]) == meant(
                        m,
                        setting_all(rho, scope_of(a.head, i), ds),
                        b.kids[i],
                    ) by {
                    law_equal_predicates_mean_the_same(
                        m,
                        setting_all(rho, scope_of(a.head, i), ds),
                        a.kids[i],
                        b.kids[i],
                    );
                }
            }
            lemma_alike(m, rho, a, rho, b);
        },
    }
}

} // verus!
