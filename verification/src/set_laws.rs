//! Laws of joining and meeting sets of restrictions.

use vstd::prelude::*;
use crate::ast::ExprS;
use crate::predicate_laws::{
    law_equal_predicates_chain, law_equal_predicates_either_way, law_predicate_equals_itself,
};
use crate::refine_eq::same_pred;
use crate::refinement_set::{
    distinct, law_intersection_is_a_set, lemma_extend_keeps_distinct, same_set, set_extend,
    set_has, set_intersect,
};

verus! {

/// The union of two sets holds a restriction where either of them does.
pub proof fn law_union_holds_either(s: Seq<ExprS>, t: Seq<ExprS>, p: ExprS)
    ensures
        set_has(set_extend(s, t), p) <==> set_has(s, p) || set_has(t, p),
    decreases t.len(),
{
    let out = set_extend(s, t);
    if t.len() > 0 {
        let d = t.drop_last();
        let x = t.last();
        let mid = set_extend(s, d);
        assert(x == t[t.len() - 1]);
        law_union_holds_either(s, d, p);
        if set_has(mid, p) {
            let i = choose|i: int| 0 <= i < mid.len() && same_pred(#[trigger] mid[i], p);
            assert(out[i] == mid[i]);
        }
        if set_has(d, p) {
            let i = choose|i: int| 0 <= i < d.len() && same_pred(#[trigger] d[i], p);
            assert(t[i] == d[i]);
        }
        if same_pred(x, p) {
            if set_has(mid, x) {
                let i = choose|i: int| 0 <= i < mid.len() && same_pred(#[trigger] mid[i], x);
                law_equal_predicates_chain(mid[i], x, p);
            } else {
                assert(out[out.len() - 1] == x);
            }
        }
        if set_has(t, p) {
            let i = choose|i: int| 0 <= i < t.len() && same_pred(#[trigger] t[i], p);
            if i < d.len() {
                assert(d[i] == t[i]);
            }
        }
        if set_has(out, p) {
            let i = choose|i: int| 0 <= i < out.len() && same_pred(#[trigger] out[i], p);
            if i < mid.len() {
                assert(mid[i] == out[i]);
            } else {
                assert(out[i] == x);
            }
        }
    }
}

proof fn lemma_intersection_keeps(s: Seq<ExprS>, t: Seq<ExprS>, i: int)
    requires
        0 <= i < s.len(),
        set_has(t, s[i]),
    ensures
        set_intersect(s, t).contains(s[i]),
    decreases s.len(),
{
    let d = s.drop_last();
    let rest = set_intersect(d, t);
    let out = set_intersect(s, t);
    if i < d.len() {
        assert(d[i] == s[i]);
        lemma_intersection_keeps(d, t, i);
        let k = choose|k: int| 0 <= k < rest.len() && rest[k] == s[i];
        assert(out[k] == s[i]);
    } else {
        assert(out[out.len() - 1] == s[i]);
    }
}

/// The intersection of two sets holds a restriction where both of them do.
pub proof fn law_intersection_holds_both(s: Seq<ExprS>, t: Seq<ExprS>, p: ExprS)
    requires
        distinct(s),
    ensures
        set_has(set_intersect(s, t), p) <==> set_has(s, p) && set_has(t, p),
{
    let out = set_intersect(s, t);
    law_intersection_is_a_set(s, t);
    if set_has(out, p) {
        let i = choose|i: int| 0 <= i < out.len() && same_pred(#[trigger] out[i], p);
        assert(s.contains(out[i]) && set_has(t, out[i]));
        let k = choose|k: int| 0 <= k < s.len() && s[k] == out[i];
        assert(same_pred(s[k], p));
        let j = choose|j: int| 0 <= j < t.len() && same_pred(#[trigger] t[j], out[i]);
        law_equal_predicates_chain(t[j], s[k], p);
    }
    if set_has(s, p) && set_has(t, p) {
        let i = choose|i: int| 0 <= i < s.len() && same_pred(#[trigger] s[i], p);
        let j = choose|j: int| 0 <= j < t.len() && same_pred(#[trigger] t[j], p);
        law_equal_predicates_either_way(s[i], p);
        law_equal_predicates_chain(t[j], p, s[i]);
        assert(set_has(t, s[i]));
        lemma_intersection_keeps(s, t, i);
        let k = choose|k: int| 0 <= k < out.len() && out[k] == s[i];
        assert(same_pred(out[k], p));
    }
}

/// A set whose restrictions are all in another is no larger.
proof fn lemma_no_larger(s: Seq<ExprS>, t: Seq<ExprS>)
    requires
        distinct(s),
        forall|i: int| 0 <= i < s.len() ==> set_has(t, #[trigger] s[i]),
    ensures
        s.len() <= t.len(),
{
    let places: Seq<int> = Seq::new(
        s.len(),
        |i: int| choose|k: int| 0 <= k < t.len() && same_pred(#[trigger] t[k], s[i]),
    );
    assert forall|i: int| 0 <= i < s.len() implies 0 <= #[trigger] places[i] < t.len() && same_pred(
        t[places[i]],
        s[i],
    ) by {
        assert(set_has(t, s[i]));
    }
    assert forall|i: int, k: int| 0 <= i < k < s.len() implies places[i] != places[k] by {
        if places[i] == places[k] {
            assert(same_pred(t[places[k]], s[k]));
            law_equal_predicates_either_way(t[places[i]], s[i]);
            law_equal_predicates_chain(s[i], t[places[i]], s[k]);
        }
    }
    assert(places.no_duplicates());
    let all = vstd::set_lib::set_int_range(0, t.len() as int);
    vstd::set_lib::lemma_int_range(0, t.len() as int);
    places.unique_seq_to_set();
    assert(places.to_set().subset_of(all)) by {
        assert forall|x: int| places.to_set().contains(x) implies all.contains(x) by {
            let i = choose|i: int| 0 <= i < places.len() && places[i] == x;
            assert(0 <= places[i] < t.len());
        }
    }
    vstd::set_lib::lemma_len_subset(places.to_set(), all);
}

/// Sets that hold the same restrictions are equal.
pub proof fn law_same_members_same_set(s: Seq<ExprS>, t: Seq<ExprS>)
    requires
        distinct(s),
        distinct(t),
        forall|p: ExprS| set_has(s, p) <==> set_has(t, p),
    ensures
        same_set(s, t),
        same_set(t, s),
{
    assert forall|i: int| 0 <= i < s.len() implies set_has(t, #[trigger] s[i]) by {
        law_predicate_equals_itself(s[i]);
        assert(set_has(s, s[i]));
    }
    assert forall|i: int| 0 <= i < t.len() implies set_has(s, #[trigger] t[i]) by {
        law_predicate_equals_itself(t[i]);
        assert(set_has(t, t[i]));
    }
    lemma_no_larger(s, t);
    lemma_no_larger(t, s);
}

proof fn lemma_extend_by_held(s: Seq<ExprS>, t: Seq<ExprS>)
    requires
        forall|i: int| 0 <= i < t.len() ==> set_has(s, #[trigger] t[i]),
    ensures
        set_extend(s, t) == s,
    decreases t.len(),
{
    if t.len() > 0 {
        let d = t.drop_last();
        assert forall|i: int| 0 <= i < d.len() implies set_has(s, #[trigger] d[i]) by {
            assert(d[i] == t[i]);
        }
        lemma_extend_by_held(s, d);
        assert(t.last() == t[t.len() - 1]);
    }
}

/// The union of sets is a set, the same set whichever is named first and
/// however three are grouped. A set joined with itself, or with the empty set,
/// is as it was.
pub proof fn law_union_is_conjunction(s: Seq<ExprS>, t: Seq<ExprS>, u: Seq<ExprS>)
    requires
        distinct(s),
        distinct(t),
        distinct(u),
    ensures
        distinct(set_extend(s, t)),
        same_set(set_extend(s, t), set_extend(t, s)),
        same_set(set_extend(set_extend(s, t), u), set_extend(s, set_extend(t, u))),
        set_extend(s, s) == s,
        set_extend(s, Seq::empty()) == s,
{
    let st = set_extend(s, t);
    let ts = set_extend(t, s);
    let tu = set_extend(t, u);
    lemma_extend_keeps_distinct(s, t);
    lemma_extend_keeps_distinct(t, s);
    lemma_extend_keeps_distinct(t, u);
    lemma_extend_keeps_distinct(st, u);
    lemma_extend_keeps_distinct(s, tu);
    assert forall|p: ExprS| set_has(st, p) <==> set_has(ts, p) by {
        law_union_holds_either(s, t, p);
        law_union_holds_either(t, s, p);
    }
    law_same_members_same_set(st, ts);
    assert forall|p: ExprS| set_has(set_extend(st, u), p) <==> set_has(set_extend(s, tu), p) by {
        law_union_holds_either(s, t, p);
        law_union_holds_either(st, u, p);
        law_union_holds_either(t, u, p);
        law_union_holds_either(s, tu, p);
    }
    law_same_members_same_set(set_extend(st, u), set_extend(s, tu));
    assert forall|i: int| 0 <= i < s.len() implies set_has(s, #[trigger] s[i]) by {
        law_predicate_equals_itself(s[i]);
    }
    lemma_extend_by_held(s, s);
}

/// The intersection of two sets is the same set whichever is named first.
pub proof fn law_intersection_either_way(s: Seq<ExprS>, t: Seq<ExprS>)
    requires
        distinct(s),
        distinct(t),
    ensures
        distinct(set_intersect(s, t)),
        same_set(set_intersect(s, t), set_intersect(t, s)),
{
    let st = set_intersect(s, t);
    let ts = set_intersect(t, s);
    law_intersection_is_a_set(s, t);
    law_intersection_is_a_set(t, s);
    assert forall|p: ExprS| set_has(st, p) <==> set_has(ts, p) by {
        law_intersection_holds_both(s, t, p);
        law_intersection_holds_both(t, s, p);
    }
    law_same_members_same_set(st, ts);
}

} // verus!
