//! The law that the name of a binder makes no difference to a predicate.

use vstd::prelude::*;
use crate::ast::{ExprS, HeadS};
use crate::name::NameS;
use crate::predicate_laws::law_predicate_equals_itself;
use crate::refine_eq::{filter_of, forms_match, pairs_under, pred_eq, refs_match, same_pred};
use crate::scope::scope_of;
use crate::subst_laws::leafy;
use crate::swap::{kids_renamed, uses_renamed};

verus! {

/// Whether `e` neither binds `x` or `y` nor refers to `y`, refers to `x` by plain
/// references alone, and holds no filter.
pub open spec fn free_to_rename(x: NameS, y: NameS, e: ExprS) -> bool
    decreases e,
{
    &&& e.head != HeadS::Var(y)
    &&& match e.head {
        HeadS::Feed(n) => n != x && n != y,
        HeadS::Define(n) => n != x && n != y,
        HeadS::MutWrite(n) => n != x && n != y,
        _ => true,
    }
    &&& filter_of(e) is None
    &&& forall|i: int|
        0 <= i < e.kids.len() ==> {
            &&& free_to_rename(x, y, #[trigger] e.kids[i])
            &&& !scope_of(e.head, i).contains(x)
            &&& !scope_of(e.head, i).contains(y)
        }
}

/// Whether the pairs behind the first pair names with themselves, and none is `x` or `y`.
spec fn paired_beyond(x: NameS, y: NameS, pairs: Seq<(NameS, NameS)>) -> bool {
    pairs.len() > 0 && pairs[0] == (x, y) && forall|k: int|
        1 <= k < pairs.len() ==> (#[trigger] pairs[k]).0 == pairs[k].1 && pairs[k].0 != x
            && pairs[k].0 != y
}

proof fn lemma_beyond_match(x: NameS, y: NameS, pairs: Seq<(NameS, NameS)>, n: NameS)
    requires
        paired_beyond(x, y, pairs),
        n != y,
        !(x is PiBound),
        !(y is PiBound),
    ensures
        refs_match(pairs, n, if n == x { y } else { n }),
    decreases pairs.len(),
{
    if pairs.len() > 1 {
        let front = pairs.drop_last();
        assert forall|k: int| 1 <= k < front.len() implies (#[trigger] front[k]).0 == front[k].1
            && front[k].0 != x && front[k].0 != y by {
            assert(front[k] == pairs[k]);
        }
        lemma_beyond_match(x, y, front, n);
        let last = pairs[pairs.len() - 1];
        assert(last == pairs.last());
        assert(last.0 == last.1 && last.0 != x && last.0 != y);
    } else {
        assert(pairs.last() == (x, y));
        assert(pairs.drop_last().len() == 0);
        assert(refs_match(pairs.drop_last(), n, n));
    }
}

proof fn lemma_renamed_eq(x: NameS, y: NameS, e: ExprS, pairs: Seq<(NameS, NameS)>)
    requires
        free_to_rename(x, y, e),
        leafy(e),
        paired_beyond(x, y, pairs),
        !(x is PiBound),
        !(y is PiBound),
    ensures
        pred_eq(e, uses_renamed(x, y, e), pairs),
    decreases e,
{
    let f = uses_renamed(x, y, e);
    let ks = kids_renamed(x, y, e);
    match e.head {
        HeadS::Var(n) => {
            lemma_beyond_match(x, y, pairs, n);
        },
        HeadS::Feed(n) => {
            lemma_beyond_match(x, y, pairs, n);
        },
        HeadS::Define(n) => {
            lemma_beyond_match(x, y, pairs, n);
        },
        HeadS::MutWrite(n) => {
            lemma_beyond_match(x, y, pairs, n);
        },
        _ => {},
    }
    assert(forms_match(e.head, f.head, pairs));
    if e.head != HeadS::Var(x) {
        assert forall|i: int| 0 <= i < e.kids.len() implies pred_eq(
            #[trigger] e.kids[i],
            f.kids[i],
            pairs_under(e.head, f.head, i, pairs),
        ) by {
            let ns = scope_of(e.head, i);
            let below = pairs_under(e.head, f.head, i, pairs);
            assert forall|k: int| 1 <= k < below.len() implies (#[trigger] below[k]).0 == below[k].1
                && below[k].0 != x && below[k].0 != y by {
                if k < pairs.len() {
                    assert(below[k] == pairs[k]);
                } else {
                    assert(below[k] == (ns[k - pairs.len()], ns[k - pairs.len()]));
                    assert(ns.contains(ns[k - pairs.len()]));
                }
            }
            assert(below[0] == pairs[0]);
            lemma_renamed_eq(x, y, e.kids[i], below);
            assert(f.kids[i] == uses_renamed(x, y, e.kids[i]));
        }
    }
    assert(filter_of(f) == filter_of(e));
}

/// The form with `y` for the name it binds.
pub open spec fn rebound(h: HeadS, y: NameS) -> HeadS {
    match h {
        HeadS::Lambda(_) => HeadS::Lambda(y),
        HeadS::Let(_) => HeadS::Let(y),
        HeadS::MutDecl(_) => HeadS::MutDecl(y),
        HeadS::For(_) => HeadS::For(y),
        _ => h,
    }
}

/// The name that a form binds over its last subterm.
pub open spec fn bound_last(h: HeadS) -> Option<NameS> {
    match h {
        HeadS::Lambda(x) => Some(x),
        HeadS::Let(x) => Some(x),
        HeadS::MutDecl(x) => Some(x),
        HeadS::For(x) => Some(x),
        _ => None,
    }
}

/// The name of a binder makes no difference: a predicate is the same restriction once
/// what it binds has another name that it does not mention.
pub proof fn law_the_name_of_a_binder_makes_no_difference(e: ExprS, x: NameS, y: NameS)
    requires
        bound_last(e.head) == Some(x),
        e.kids.len() == (if e.head is Lambda { 1int } else { 2 }),
        free_to_rename(x, y, e.kids.last()),
        leafy(e.kids.last()),
        !(x is PiBound),
        !(y is PiBound),
    ensures
        ({
            let n = e.kids.len() - 1;
            same_pred(
                e,
                ExprS {
                    head: rebound(e.head, y),
                    kids: e.kids.update(n, uses_renamed(x, y, e.kids[n])),
                    ..e
                },
            )
        }),
{
    let n = e.kids.len() - 1;
    let f = ExprS {
        head: rebound(e.head, y),
        kids: e.kids.update(n, uses_renamed(x, y, e.kids[n])),
        ..e
    };
    let none = Seq::<(NameS, NameS)>::empty();
    assert(e.kids.last() == e.kids[n]);
    assert forall|i: int| 0 <= i < e.kids.len() implies pred_eq(
        #[trigger] e.kids[i],
        f.kids[i],
        pairs_under(e.head, f.head, i, none),
    ) by {
        let below = pairs_under(e.head, f.head, i, none);
        if i == n {
            assert(below =~= seq![(x, y)]);
            lemma_renamed_eq(x, y, e.kids[n], seq![(x, y)]);
        } else {
            assert(below =~= none);
            law_predicate_equals_itself(e.kids[i]);
        }
    }
    assert(filter_of(e) is None && filter_of(f) is None);
}

} // verus!
