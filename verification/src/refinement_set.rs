//! The predicates a type is restricted by, as a set: a predicate that is
//! already there is not added again, and the one that came first stays.
use std::rc::Rc;
use vstd::prelude::*;
use crate::ast::{Expr, ExprS, Refinement, predicates_view};
use crate::refine_eq::{eq_refinement_predicate, same_pred};
use crate::set_laws::{
    law_intersection_either_way, law_intersection_holds_both, law_union_holds_either,
    law_union_is_conjunction,
};
use crate::sharing::{share, shared_refs_view, shared_view};
use crate::tree::refs;

verus! {

/// Whether `p` is one of the restrictions `s`.
pub open spec fn set_has(s: Seq<ExprS>, p: ExprS) -> bool {
    exists|j: int| 0 <= j < s.len() && same_pred(#[trigger] s[j], p)
}

/// `s` with `p` added where it was not there.
pub open spec fn set_insert(s: Seq<ExprS>, p: ExprS) -> Seq<ExprS> {
    if set_has(s, p) {
        s
    } else {
        s.push(p)
    }
}

/// `s` with the predicates `ps` added in order.
pub open spec fn set_extend(s: Seq<ExprS>, ps: Seq<ExprS>) -> Seq<ExprS>
    decreases ps.len(),
{
    if ps.len() == 0 {
        s
    } else {
        set_insert(set_extend(s, ps.drop_last()), ps.last())
    }
}

/// The predicates of `ps`, each once, in order of first occurrence.
pub open spec fn deduped(ps: Seq<ExprS>) -> Seq<ExprS> {
    set_extend(Seq::empty(), ps)
}

/// The restrictions of `s` that are also in `t`.
pub open spec fn set_intersect(s: Seq<ExprS>, t: Seq<ExprS>) -> Seq<ExprS>
    decreases s.len(),
{
    if s.len() == 0 {
        Seq::empty()
    } else {
        let rest = set_intersect(s.drop_last(), t);
        if set_has(t, s.last()) {
            rest.push(s.last())
        } else {
            rest
        }
    }
}

/// Whether two sets hold the same restrictions, as far as size and containment
/// tell.
pub open spec fn same_set(s: Seq<ExprS>, t: Seq<ExprS>) -> bool {
    s.len() == t.len() && forall|i: int| 0 <= i < s.len() ==> set_has(t, #[trigger] s[i])
}

/// No restriction is listed twice.
pub open spec fn distinct(s: Seq<ExprS>) -> bool {
    forall|i: int, j: int|
        0 <= i < j < s.len() ==> !same_pred(#[trigger] s[i], #[trigger] s[j])
}

/// Adding a predicate to a set leaves a set.
pub proof fn lemma_insert_keeps_distinct(s: Seq<ExprS>, p: ExprS)
    requires
        distinct(s),
    ensures
        distinct(set_insert(s, p)),
{
    let t = set_insert(s, p);
    assert forall|i: int, j: int| 0 <= i < j < t.len() implies !same_pred(
        #[trigger] t[i],
        #[trigger] t[j],
    ) by {
        if j == s.len() {
            assert(s[i] == t[i]);
        } else {
            assert(t[i] == s[i] && t[j] == s[j]);
        }
    }
}

/// Adding predicates to a set leaves a set.
pub proof fn lemma_extend_keeps_distinct(s: Seq<ExprS>, ps: Seq<ExprS>)
    requires
        distinct(s),
    ensures
        distinct(set_extend(s, ps)),
    decreases ps.len(),
{
    if ps.len() > 0 {
        lemma_extend_keeps_distinct(s, ps.drop_last());
        lemma_insert_keeps_distinct(set_extend(s, ps.drop_last()), ps.last());
    }
}

/// What a set is extended to holds what was there and what was added.
pub proof fn lemma_extend_members(s: Seq<ExprS>, ps: Seq<ExprS>)
    ensures
        set_extend(s, ps).len() <= s.len() + ps.len(),
        forall|i: int|
            0 <= i < set_extend(s, ps).len() ==> s.contains(#[trigger] set_extend(s, ps)[i])
                || ps.contains(set_extend(s, ps)[i]),
    decreases ps.len(),
{
    let out = set_extend(s, ps);
    if ps.len() > 0 {
        let d = ps.drop_last();
        lemma_extend_members(s, d);
        let before = set_extend(s, d);
        assert forall|i: int| 0 <= i < out.len() implies s.contains(#[trigger] out[i])
            || ps.contains(out[i]) by {
            if i < before.len() {
                assert(out[i] == before[i]);
                if d.contains(before[i]) {
                    let k = choose|k: int| 0 <= k < d.len() && d[k] == before[i];
                    assert(ps[k] == out[i]);
                }
            } else {
                assert(out[i] == ps[ps.len() - 1]);
            }
        }
    } else {
        assert forall|i: int| 0 <= i < out.len() implies s.contains(#[trigger] out[i]) by {
            assert(out[i] == s[i]);
        }
    }
}

/// What is kept of predicates is some of them.
pub proof fn lemma_kept_members(ps: Seq<ExprS>)
    ensures
        deduped(ps).len() <= ps.len(),
        forall|i: int| 0 <= i < deduped(ps).len() ==> ps.contains(#[trigger] deduped(ps)[i]),
{
    let none = Seq::<ExprS>::empty();
    lemma_extend_members(none, ps);
    assert forall|i: int| 0 <= i < deduped(ps).len() implies ps.contains(
        #[trigger] deduped(ps)[i],
    ) by {
        assert(!none.contains(set_extend(none, ps)[i]));
    }
}

/// Whatever predicates a rewrite leaves behind, what is kept of them is a set.
pub proof fn law_rewrite_leaves_a_set(ps: Seq<ExprS>)
    ensures
        distinct(deduped(ps)),
{
    lemma_extend_keeps_distinct(Seq::empty(), ps);
}

/// A set is not changed by dropping its duplicates.
pub proof fn law_a_set_has_no_duplicates(s: Seq<ExprS>)
    requires
        distinct(s),
    ensures
        deduped(s) == s,
    decreases s.len(),
{
    if s.len() == 0 {
        assert(s =~= Seq::empty());
    } else {
        let t = s.drop_last();
        assert forall|i: int, j: int| 0 <= i < j < t.len() implies !same_pred(
            #[trigger] t[i],
            #[trigger] t[j],
        ) by {
            assert(t[i] == s[i] && t[j] == s[j]);
        }
        law_a_set_has_no_duplicates(t);
        assert forall|j: int| 0 <= j < t.len() implies !same_pred(#[trigger] t[j], s.last()) by {
            assert(t[j] == s[j] && s.last() == s[s.len() - 1]);
        }
        assert(t.push(s.last()) =~= s);
    }
}

/// The restrictions common to a set and another are a set.
pub proof fn law_intersection_is_a_set(s: Seq<ExprS>, t: Seq<ExprS>)
    requires
        distinct(s),
    ensures
        distinct(set_intersect(s, t)),
        forall|i: int|
            0 <= i < set_intersect(s, t).len() ==> s.contains(#[trigger] set_intersect(s, t)[i])
                && set_has(t, set_intersect(s, t)[i]),
    decreases s.len(),
{
    if s.len() > 0 {
        let d = s.drop_last();
        assert forall|i: int, j: int| 0 <= i < j < d.len() implies !same_pred(
            #[trigger] d[i],
            #[trigger] d[j],
        ) by {
            assert(d[i] == s[i] && d[j] == s[j]);
        }
        law_intersection_is_a_set(d, t);
        let rest = set_intersect(d, t);
        let r = set_intersect(s, t);
        assert forall|i: int| 0 <= i < r.len() implies s.contains(#[trigger] r[i]) && set_has(
            t,
            r[i],
        ) by {
            if i < rest.len() {
                assert(r[i] == rest[i]);
                let k = choose|k: int| 0 <= k < d.len() && d[k] == rest[i];
                assert(s[k] == r[i]);
            } else {
                assert(r[i] == s[s.len() - 1]);
            }
        }
        assert forall|i: int, j: int| 0 <= i < j < r.len() implies !same_pred(
            #[trigger] r[i],
            #[trigger] r[j],
        ) by {
            assert(r[i] == rest[i]);
            if j < rest.len() {
                assert(r[j] == rest[j]);
            } else {
                let k = choose|k: int| 0 <= k < d.len() && d[k] == rest[i];
                assert(d[k] == s[k]);
                assert(r[j] == s[s.len() - 1]);
            }
        }
    }
}

impl Refinement {
    /// The restriction by `predicate`.
    pub fn born(predicate: Rc<Expr>) -> (r: Refinement)
        ensures
            r.predicate == predicate,
    {
        Refinement { predicate }
    }

    /// The restriction by what `template` makes of `args`.
    pub fn born_from_template<F: Fn(&Vec<Expr>) -> Expr>(template: F, args: &Vec<Expr>) -> (r:
        Refinement)
        requires
            template.requires((args,)),
        ensures
            exists|p: Expr| template.ensures((args,), p) && r.predicate.view() == p.view(),
    {
        let p = template(args);
        Refinement::born(Rc::new(p))
    }

    /// Another restriction by the same predicate.
    pub fn sharing(predicate: &Rc<Expr>) -> (r: Refinement)
        ensures
            r.predicate == *predicate,
    {
        Refinement { predicate: share(predicate) }
    }

    /// Whether the two are one restriction.
    pub fn same(&self, other: &Refinement) -> (r: bool)
        ensures
            r == same_pred(self.predicate.view(), other.predicate.view()),
    {
        eq_refinement_predicate(&self.predicate, &other.predicate)
    }
}

impl Clone for Refinement {
    fn clone(&self) -> (r: Refinement)
        ensures
            r.predicate == self.predicate,
    {
        Refinement::sharing(&self.predicate)
    }
}

/// The predicates a type is restricted by: no two are one restriction.
#[derive(Debug)]
pub struct RefinementSet {
    items: Vec<Refinement>,
}

impl RefinementSet {
    /// The restrictions, in the order they came.
    pub closed spec fn members(&self) -> Seq<Refinement> {
        self.items@
    }

    pub open spec fn view(&self) -> Seq<ExprS>
        decreases self,
    {
        predicates_view(self.members())
    }

    /// No two members are one restriction.
    #[verifier::type_invariant]
    spec fn is_set(self) -> bool {
        distinct(self.view())
    }

    pub fn new() -> (r: RefinementSet)
        ensures
            r.view() == Seq::<ExprS>::empty(),
    {
        let items: Vec<Refinement> = Vec::new();
        assert(predicates_view(items@) =~= Seq::<ExprS>::empty());
        RefinementSet { items }
    }

    pub fn one(r: Refinement) -> (s: RefinementSet)
        ensures
            s.view() == seq![r.predicate.view()],
    {
        let mut items: Vec<Refinement> = Vec::new();
        items.push(r);
        assert(predicates_view(items@) =~= seq![r.predicate.view()]);
        RefinementSet { items }
    }

    /// Whether `r` is one of the restrictions.
    pub fn contains(&self, r: &Refinement) -> (b: bool)
        ensures
            b == set_has(self.view(), r.predicate.view()),
    {
        let mut i: usize = 0;
        while i < self.items.len()
            invariant
                i <= self.items.len(),
                forall|j: int|
                    0 <= j < i ==> !same_pred(#[trigger] self.view()[j], r.predicate.view()),
            decreases self.items.len() - i,
        {
            assert(self.view()[i as int] == self.items@[i as int].predicate.view());
            if self.items[i].same(r) {
                return true;
            }
            i = i + 1;
        }
        false
    }

    /// Adds `r` unless it is there, and tells whether it was added.
    pub fn insert(&mut self, r: Refinement) -> (added: bool)
        ensures
            added == !set_has(old(self).view(), r.predicate.view()),
            final(self).view() == set_insert(old(self).view(), r.predicate.view()),
    {
        if self.contains(&r) {
            return false;
        }
        let mut taken = RefinementSet::new();
        std::mem::swap(self, &mut taken);
        let ghost before = taken.view();
        proof {
            use_type_invariant(&taken);
            lemma_insert_keeps_distinct(before, r.predicate.view());
        }
        let mut items = taken.items;
        items.push(r);
        assert(predicates_view(items@) =~= before.push(r.predicate.view()));
        *self = RefinementSet { items };
        true
    }

    /// Adds each of `other` in order.
    pub fn extend(&mut self, other: Vec<Refinement>)
        ensures
            final(self).view() == set_extend(old(self).view(), predicates_view(other@)),
    {
        let ghost start = self.view();
        let ghost all = predicates_view(other@);
        let mut i: usize = 0;
        assert(all.take(0) =~= Seq::empty());
        while i < other.len()
            invariant
                i <= other.len(),
                all == predicates_view(other@),
                self.view() == set_extend(start, all.take(i as int)),
            decreases other.len() - i,
        {
            self.insert(other[i].clone());
            assert(all.take(i + 1).drop_last() =~= all.take(i as int));
            assert(all.take(i + 1).last() == other@[i as int].predicate.view());
            i = i + 1;
        }
        assert(all.take(i as int) =~= all);
    }

    /// These restrictions and those of `other`.
    pub fn union(self, other: &RefinementSet) -> (r: RefinementSet)
        ensures
            r.view() == set_extend(self.view(), other.view()),
            distinct(r.view()),
            forall|p: ExprS| #[trigger]
                set_has(r.view(), p) <==> set_has(self.view(), p) || set_has(other.view(), p),
            same_set(r.view(), set_extend(other.view(), self.view())),
            self.view() == other.view() ==> r.view() == self.view(),
    {
        proof {
            use_type_invariant(&self);
            use_type_invariant(other);
            law_union_is_conjunction(self.view(), other.view(), other.view());
            assert forall|p: ExprS| #[trigger]
                set_has(set_extend(self.view(), other.view()), p) <==> set_has(self.view(), p)
                    || set_has(other.view(), p) by {
                law_union_holds_either(self.view(), other.view(), p);
            }
        }
        let mut out = self;
        let copy = other.clone();
        out.extend(copy.items);
        out
    }

    /// The restrictions that are also in `other`.
    pub fn intersect(&self, other: &RefinementSet) -> (r: RefinementSet)
        ensures
            r.view() == set_intersect(self.view(), other.view()),
            distinct(r.view()),
            forall|p: ExprS| #[trigger]
                set_has(r.view(), p) <==> set_has(self.view(), p) && set_has(other.view(), p),
            same_set(r.view(), set_intersect(other.view(), self.view())),
    {
        let mut kept: Vec<Refinement> = Vec::new();
        let ghost all = self.view();
        let mut i: usize = 0;
        assert(all.take(0) =~= Seq::empty());
        assert(predicates_view(kept@) =~= Seq::empty());
        while i < self.items.len()
            invariant
                i <= self.items.len(),
                all == self.view(),
                predicates_view(kept@) == set_intersect(all.take(i as int), other.view()),
            decreases self.items.len() - i,
        {
            assert(all.take(i + 1).drop_last() =~= all.take(i as int));
            assert(all.take(i + 1).last() == self.items@[i as int].predicate.view());
            let ghost before = predicates_view(kept@);
            if other.contains(&self.items[i]) {
                let c = self.items[i].clone();
                kept.push(c);
                assert(predicates_view(kept@) =~= before.push(c.predicate.view()));
            }
            i = i + 1;
        }
        assert(all.take(i as int) =~= all);
        proof {
            use_type_invariant(self);
            use_type_invariant(other);
            law_intersection_either_way(all, other.view());
            assert forall|p: ExprS| #[trigger]
                set_has(set_intersect(all, other.view()), p) <==> set_has(all, p) && set_has(
                    other.view(),
                    p,
                ) by {
                law_intersection_holds_both(all, other.view(), p);
            }
        }
        RefinementSet { items: kept }
    }

    pub fn as_slice(&self) -> (r: &[Refinement])
        ensures
            r@ == self.members(),
    {
        self.items.as_slice()
    }

    pub fn is_empty(&self) -> (r: bool)
        ensures
            r == (self.view().len() == 0),
    {
        self.items.len() == 0
    }

    pub fn len(&self) -> (r: usize)
        ensures
            r == self.view().len(),
            r == self.members().len(),
            distinct(self.view()),
    {
        proof {
            use_type_invariant(self);
        }
        self.items.len()
    }

    /// The restriction in place `i`.
    pub fn member(&self, i: usize) -> (r: &Refinement)
        requires
            i < self.members().len(),
        ensures
            *r == self.members()[i as int],
    {
        &self.items[i]
    }

    /// The restrictions in order.
    pub fn iter(&self) -> (r: Vec<&Refinement>)
        ensures
            r@.len() == self.members().len(),
            forall|i: int| 0 <= i < r@.len() ==> *r@[i] == self.members()[i],
    {
        refs(&self.items)
    }

    /// The restriction, where there is exactly one.
    pub fn sole(&self) -> (r: Option<&Refinement>)
        ensures
            match r {
                Some(x) => self.view() == seq![x.predicate.view()],
                None => self.view().len() != 1,
            },
    {
        if self.items.len() == 1 {
            assert(self.view() =~= seq![self.items@[0].predicate.view()]);
            Some(&self.items[0])
        } else {
            None
        }
    }

    /// Whether the two sets hold the same restrictions.
    pub fn same(&self, other: &RefinementSet) -> (r: bool)
        ensures
            r == same_set(self.view(), other.view()),
    {
        if self.items.len() != other.items.len() {
            return false;
        }
        let mut i: usize = 0;
        while i < self.items.len()
            invariant
                i <= self.items.len(),
                forall|j: int| 0 <= j < i ==> set_has(other.view(), #[trigger] self.view()[j]),
            decreases self.items.len() - i,
        {
            assert(self.view()[i as int] == self.items@[i as int].predicate.view());
            if !other.contains(&self.items[i]) {
                return false;
            }
            i = i + 1;
        }
        true
    }

    /// Replaces each restriction by what `f` makes of it at its position; what
    /// then coincides is kept once.
    pub fn rewrite_each<F: Fn(usize, &Refinement) -> Refinement>(&mut self, f: F)
        requires
            forall|i: usize, r: &Refinement| i < old(self).members().len() ==> f.requires((i, r)),
        ensures
            exists|q: Seq<Refinement>| #[trigger] rewritten_by(f, old(self).members(), q)
                && final(self).view() == deduped(predicates_view(q)),
    {
        let ghost before = self.members();
        let q = rewritten(&self.items, f);
        let ghost all = q@;
        let kept = RefinementSet::from_iter(q);
        *self = kept;
        assert(rewritten_by(f, before, all));
        assert(self.view() == deduped(predicates_view(all)));
    }

    /// As [`RefinementSet::rewrite_each`], stopping at the first failure: the
    /// restrictions from there on stay as they are.
    pub fn try_rewrite_each<E, F: Fn(usize, &Refinement) -> Result<Refinement, E>>(
        &mut self,
        f: F,
    ) -> (outcome: Result<(), E>)
        requires
            forall|i: usize, r: &Refinement| i < old(self).members().len() ==> f.requires((i, r)),
        ensures
            exists|q: Seq<Refinement>, k: int| #[trigger]
                try_rewritten_by(f, old(self).members(), q, k, outcome) && final(self).view()
                    == deduped(predicates_view(q)),
    {
        let ghost before = self.members();
        let (q, outcome) = try_rewritten(&self.items, f);
        let ghost all = q@;
        let ghost k = choose|k: int| try_rewritten_by(f, before, all, k, outcome);
        let kept = RefinementSet::from_iter(q);
        *self = kept;
        assert(try_rewritten_by(f, before, all, k, outcome));
        assert(self.view() == deduped(predicates_view(all)));
        outcome
    }
}

/// What `f` makes of each of `items`.
fn rewritten<F: Fn(usize, &Refinement) -> Refinement>(items: &Vec<Refinement>, f: F) -> (q: Vec<
    Refinement,
>)
    requires
        forall|i: usize, r: &Refinement| i < items@.len() ==> f.requires((i, r)),
    ensures
        rewritten_by(f, items@, q@),
{
    let mut q: Vec<Refinement> = Vec::new();
    let mut i: usize = 0;
    while i < items.len()
        invariant
            i <= items.len(),
            q.len() == i,
            forall|j: usize, r: &Refinement| j < items@.len() ==> f.requires((j, r)),
            forall|j: int| 0 <= j < i ==> f.ensures((j as usize, &items@[j]), #[trigger] q@[j]),
        decreases items.len() - i,
    {
        let r = f(i, &items[i]);
        q.push(r);
        i = i + 1;
    }
    q
}

/// What `f` makes of the first of `items` it does not fail at, then the rest as
/// they are.
fn try_rewritten<E, F: Fn(usize, &Refinement) -> Result<Refinement, E>>(
    items: &Vec<Refinement>,
    f: F,
) -> (r: (Vec<Refinement>, Result<(), E>))
    requires
        forall|i: usize, r: &Refinement| i < items@.len() ==> f.requires((i, r)),
    ensures
        exists|k: int| try_rewritten_by(f, items@, r.0@, k, r.1),
{
    let mut q: Vec<Refinement> = Vec::new();
    let mut outcome: Result<(), E> = Ok(());
    let mut stopped = false;
    let mut i: usize = 0;
    let ghost mut k: int = 0;
    while i < items.len()
        invariant
            i <= items.len(),
            q.len() == i,
            forall|j: usize, r: &Refinement| j < items@.len() ==> f.requires((j, r)),
            0 <= k <= i,
            !stopped ==> k == i && outcome is Ok,
            stopped ==> k < i && outcome is Err && f.ensures(
                (k as usize, &items@[k]),
                Err(outcome->Err_0),
            ),
            forall|j: int|
                0 <= j < k ==> f.ensures((j as usize, &items@[j]), Ok(#[trigger] q@[j])),
            forall|j: int|
                k <= j < i ==> (#[trigger] q@[j]).predicate.view() == items@[j].predicate.view(),
        decreases items.len() - i,
    {
        if stopped {
            q.push(items[i].clone());
        } else {
            match f(i, &items[i]) {
                Ok(r) => {
                    q.push(r);
                    proof {
                        k = k + 1;
                    }
                },
                Err(e) => {
                    outcome = Err(e);
                    stopped = true;
                    q.push(items[i].clone());
                },
            }
        }
        i = i + 1;
    }
    let r = (q, outcome);
    assert(try_rewritten_by(f, items@, r.0@, k, r.1));
    r
}

/// `q` is what `f` makes of each of `before`.
pub open spec fn rewritten_by<F: Fn(usize, &Refinement) -> Refinement>(
    f: F,
    before: Seq<Refinement>,
    q: Seq<Refinement>,
) -> bool {
    q.len() == before.len() && forall|j: int|
        0 <= j < q.len() ==> f.ensures((j as usize, &before[j]), #[trigger] q[j])
}

/// `q` is what `f` makes of the first `k` of `before` and then the rest as they
/// were: `f` failed at `k`, or `k` is all of them.
pub open spec fn try_rewritten_by<E, F: Fn(usize, &Refinement) -> Result<Refinement, E>>(
    f: F,
    before: Seq<Refinement>,
    q: Seq<Refinement>,
    k: int,
    outcome: Result<(), E>,
) -> bool {
    &&& q.len() == before.len()
    &&& 0 <= k <= q.len()
    &&& forall|j: int| 0 <= j < k ==> f.ensures((j as usize, &before[j]), Ok(#[trigger] q[j]))
    &&& forall|j: int|
        k <= j < q.len() ==> (#[trigger] q[j]).predicate.view() == before[j].predicate.view()
    &&& match outcome {
        Ok(_) => k == q.len(),
        Err(e) => k < q.len() && f.ensures((k as usize, &before[k]), Err(e)),
    }
}

impl Clone for RefinementSet {
    fn clone(&self) -> (r: RefinementSet)
        ensures
            r.view() == self.view(),
    {
        let mut items: Vec<Refinement> = Vec::new();
        let mut i: usize = 0;
        while i < self.items.len()
            invariant
                i <= self.items.len(),
                items.len() == i,
                forall|j: int|
                    0 <= j < i ==> (#[trigger] items@[j]).predicate.view()
                        == self.items@[j].predicate.view(),
            decreases self.items.len() - i,
        {
            items.push(self.items[i].clone());
            i = i + 1;
        }
        assert(predicates_view(items@) =~= self.view());
        proof {
            use_type_invariant(self);
        }
        RefinementSet { items }
    }
}

impl RefinementSet {
    /// The restrictions `rs`, each once.
    pub fn from_iter(rs: Vec<Refinement>) -> (r: RefinementSet)
        ensures
            r.view() == deduped(predicates_view(rs@)),
    {
        let mut out = RefinementSet::new();
        out.extend(rs);
        out
    }

    /// The restrictions in order.
    pub fn into_iter(self) -> (r: Vec<Refinement>)
        ensures
            predicates_view(r@) == self.view(),
    {
        self.items
    }

    /// The predicates of the restrictions, to be shared.
    pub fn shared(&self) -> (r: Vec<&Rc<Expr>>)
        ensures
            shared_refs_view(r@) == self.view(),
            distinct(self.view()),
    {
        let mut out: Vec<&Rc<Expr>> = Vec::new();
        let mut i: usize = 0;
        while i < self.items.len()
            invariant
                i <= self.items.len(),
                out.len() == i,
                forall|j: int| 0 <= j < i ==> *out@[j] == self.items@[j].predicate,
            decreases self.items.len() - i,
        {
            out.push(&self.items[i].predicate);
            i = i + 1;
        }
        assert(shared_refs_view(out@) =~= self.view());
        proof {
            use_type_invariant(self);
        }
        out
    }

    /// The restrictions by the predicates `ps`, each once.
    pub fn restricting(ps: Vec<Rc<Expr>>) -> (r: RefinementSet)
        ensures
            r.view() == deduped(shared_view(ps@)),
    {
        let ghost all = shared_view(ps@);
        let mut out = RefinementSet::new();
        let mut i: usize = 0;
        assert(all.take(0) =~= Seq::empty());
        while i < ps.len()
            invariant
                i <= ps.len(),
                all == shared_view(ps@),
                out.view() == deduped(all.take(i as int)),
            decreases ps.len() - i,
        {
            let _ = out.insert(Refinement::sharing(&ps[i]));
            assert(all.take(i + 1).drop_last() =~= all.take(i as int));
            assert(all.take(i + 1).last() == ps@[i as int].view());
            i = i + 1;
        }
        assert(all.take(i as int) =~= all);
        out
    }
}

} // verus!
