//! Equality of predicates, types and terms.
//!
//! A predicate is compared up to the names of its own binders and without its
//! type slots, save that a cast's target counts for the filter it applies.
use vstd::prelude::*;
use crate::ast::{
    Branch, Builtin, Expr, ExprS, FieldKey, HeadS, Lit, PatternS, ProjKey, Refinement, Type,
    TypeS, TypedExprNode, arm_keys_view, field_names_view, patterns_view,
};
use crate::name::{Name, NameS, names_view};
use crate::predicate_laws::lemma_all_are_met;
use crate::refinement_set::RefinementSet;
use crate::scope::{scope, scope_of};
use crate::text::same_text;
use crate::tree::expr_refs_view;

verus! {

/// Whether two references name the same thing, given the binders paired so far,
/// innermost last: the innermost pair that either one names must pair both.
pub open spec fn refs_match(pairs: Seq<(NameS, NameS)>, x: NameS, y: NameS) -> bool
    decreases pairs.len(),
{
    if pairs.len() == 0 {
        x.ident() == y.ident()
    } else {
        let (l, r) = pairs.last();
        if l.ident() == x.ident() || r.ident() == y.ident() {
            l.ident() == x.ident() && r.ident() == y.ident()
        } else {
            refs_match(pairs.drop_last(), x, y)
        }
    }
}

pub open spec fn patterns_match(p: Option<PatternS>, q: Option<PatternS>) -> bool {
    match (p, q) {
        (Some(x), Some(y)) => x.tag == y.tag,
        (None, None) => true,
        _ => false,
    }
}

/// Whether two forms agree, their binders' names aside.
pub open spec fn forms_match(a: HeadS, b: HeadS, pairs: Seq<(NameS, NameS)>) -> bool {
    match (a, b) {
        (HeadS::Var(x), HeadS::Var(y)) => refs_match(pairs, x, y),
        (HeadS::Feed(x), HeadS::Feed(y)) => refs_match(pairs, x, y),
        (HeadS::Define(x), HeadS::Define(y)) => refs_match(pairs, x, y),
        (HeadS::MutWrite(x), HeadS::MutWrite(y)) => refs_match(pairs, x, y),
        (HeadS::Lambda(_), HeadS::Lambda(_)) => true,
        (HeadS::Let(_), HeadS::Let(_)) => true,
        (HeadS::MutDecl(_), HeadS::MutDecl(_)) => true,
        (HeadS::For(_), HeadS::For(_)) => true,
        (HeadS::LetRec(ns), HeadS::LetRec(ms)) => ns.len() == ms.len(),
        (HeadS::Case(s, ps), HeadS::Case(t, qs)) => s == t && ps.len() == qs.len() && forall|i: int|
            0 <= i < ps.len() ==> patterns_match(#[trigger] ps[i], qs[i]),
        _ => a == b,
    }
}

/// The names of two lists paired in order, as far as both go.
pub open spec fn paired(l: Seq<NameS>, r: Seq<NameS>) -> Seq<(NameS, NameS)> {
    Seq::new(if l.len() <= r.len() { l.len() } else { r.len() }, |k: int| (l[k], r[k]))
}

/// The pairing under the binders of subterm `i`.
pub open spec fn pairs_under(
    a: HeadS,
    b: HeadS,
    i: int,
    pairs: Seq<(NameS, NameS)>,
) -> Seq<(NameS, NameS)> {
    pairs + paired(scope_of(a, i), scope_of(b, i))
}

/// Forms that agree bind as many names over each subterm.
pub proof fn lemma_scopes_match(a: HeadS, b: HeadS, i: int, pairs: Seq<(NameS, NameS)>)
    requires
        forms_match(a, b, pairs),
    ensures
        scope_of(a, i).len() == scope_of(b, i).len(),
{
    match (a, b) {
        (HeadS::Case(s, ps), HeadS::Case(_, qs)) => {
            let j = if s { i - 1 } else { i };
            if 0 <= j < 2 * ps.len() {
                assert(patterns_match(ps[j / 2], qs[j / 2]));
            }
        },
        _ => {},
    }
}

/// The filter a cast to this type applies: the predicates of its domain.
pub open spec fn cast_filter(target: TypeS) -> Option<Seq<ExprS>> {
    if target.head is Fun && target.kids.len() >= 2 {
        let domain = target.kids[target.kids.len() - 2];
        if domain.head is Refinement {
            Some(domain.preds)
        } else {
            None
        }
    } else {
        None
    }
}

/// The filter a cast applies.
pub open spec fn filter_of(e: ExprS) -> Option<Seq<ExprS>> {
    if e.head is Cast && e.tys.len() > 0 {
        cast_filter(e.tys[e.tys.len() - 1])
    } else {
        None
    }
}

/// Whether `p` is one of the restrictions `qs` under the pairing `pairs`.
pub open spec fn pred_among(p: ExprS, qs: Seq<ExprS>, pairs: Seq<(NameS, NameS)>) -> bool
    decreases p, 1int,
{
    exists|j: int| 0 <= j < qs.len() && pred_eq(p, #[trigger] qs[j], pairs)
}

/// Whether one of the restrictions `ps` is `q` under the pairing `pairs`.
pub open spec fn one_is(ps: Seq<ExprS>, q: ExprS, pairs: Seq<(NameS, NameS)>) -> bool
    decreases ps, 1int,
{
    exists|i: int| 0 <= i < ps.len() && pred_eq(#[trigger] ps[i], q, pairs)
}

/// Whether two predicates are the same restriction under the pairing `pairs`.
/// The filters of casts are compared as sets.
pub open spec fn pred_eq(a: ExprS, b: ExprS, pairs: Seq<(NameS, NameS)>) -> bool
    decreases a, 0int,
{
    &&& forms_match(a.head, b.head, pairs)
    &&& a.kids.len() == b.kids.len()
    &&& forall|i: int|
        0 <= i < a.kids.len() ==> pred_eq(
            #[trigger] a.kids[i],
            b.kids[i],
            pairs_under(a.head, b.head, i, pairs),
        )
    &&& {
        let s = a.tys[a.tys.len() - 1];
        match (filter_of(a), filter_of(b)) {
            (None, None) => true,
            (Some(ps), Some(qs)) => {
                &&& ps.len() == qs.len()
                &&& forall|i: int|
                    0 <= i < s.kids[s.kids.len() - 2].preds.len() ==> pred_among(
                        #[trigger] s.kids[s.kids.len() - 2].preds[i],
                        qs,
                        pairs,
                    )
                &&& forall|j: int|
                    0 <= j < qs.len() ==> one_is(
                        s.kids[s.kids.len() - 2].preds,
                        #[trigger] qs[j],
                        pairs,
                    )
            },
            _ => false,
        }
    }
}

/// Whether two predicates are one restriction.
pub open spec fn same_pred(a: ExprS, b: ExprS) -> bool {
    pred_eq(a, b, Seq::empty())
}

pub open spec fn pairs_view(v: Seq<(Name, Name)>) -> Seq<(NameS, NameS)> {
    Seq::new(v.len(), |i: int| (v[i].0@, v[i].1@))
}

/// Whether two references name the same thing under `pairs`.
pub fn paired_refs_match(pairs: &Vec<(Name, Name)>, x: &Name, y: &Name) -> (r: bool)
    ensures
        r == refs_match(pairs_view(pairs@), x@, y@),
{
    let mut n: usize = pairs.len();
    let ghost whole = pairs_view(pairs@);
    assert(whole.take(n as int) =~= whole);
    while n > 0
        invariant
            n <= pairs.len(),
            whole == pairs_view(pairs@),
            refs_match(whole, x@, y@) == refs_match(whole.take(n as int), x@, y@),
        decreases n,
    {
        let l = pairs[n - 1].0.same_ident(x);
        let r = pairs[n - 1].1.same_ident(y);
        assert(whole.take(n as int).last() == (pairs@[n - 1].0@, pairs@[n - 1].1@));
        if l || r {
            return l && r;
        }
        assert(whole.take(n as int).drop_last() =~= whole.take(n - 1));
        n = n - 1;
    }
    x.same_ident(y)
}

// ---- equality of the leaves ----

impl Lit {
    pub fn same(&self, other: &Lit) -> (r: bool)
        ensures
            r == (self.view() == other.view()),
    {
        match (self, other) {
            (Lit::Int(a), Lit::Int(b)) => *a == *b,
            (Lit::String(a), Lit::String(b)) => same_text(a.as_str(), b.as_str()),
            (Lit::Bool(a), Lit::Bool(b)) => *a == *b,
            (Lit::Unit, Lit::Unit) => true,
            _ => false,
        }
    }
}

impl FieldKey {
    pub fn same(&self, other: &FieldKey) -> (r: bool)
        ensures
            r == (self.view() == other.view()),
    {
        match (self, other) {
            (FieldKey::Index(a), FieldKey::Index(b)) => *a == *b,
            (FieldKey::Name(a), FieldKey::Name(b)) => same_text(a.as_str(), b.as_str()),
            _ => false,
        }
    }
}

impl ProjKey {
    pub fn same(&self, other: &ProjKey) -> (r: bool)
        ensures
            r == (self.view() == other.view()),
    {
        match (self, other) {
            (ProjKey::Index(a), ProjKey::Index(b)) => *a == *b,
            (ProjKey::Field(a), ProjKey::Field(b)) => same_text(a.as_str(), b.as_str()),
            _ => false,
        }
    }
}

impl Builtin {
    pub fn same(&self, other: &Builtin) -> (r: bool)
        ensures
            r == (self.view() == other.view()),
    {
        match (self, other) {
            (Builtin::AsOf, Builtin::AsOf) => true,
            (Builtin::AsOfRead, Builtin::AsOfRead) => true,
            (Builtin::AwaitFinal, Builtin::AwaitFinal) => true,
            (Builtin::BeginTxn, Builtin::BeginTxn) => true,
            (Builtin::Box, Builtin::Box) => true,
            (Builtin::Const, Builtin::Const) => true,
            (Builtin::FinalRead, Builtin::FinalRead) => true,
            (Builtin::GetPrevTxn, Builtin::GetPrevTxn) => true,
            (Builtin::Iterate, Builtin::Iterate) => true,
            (Builtin::VariantProject(a), Builtin::VariantProject(b)) => same_text(
                a.as_str(),
                b.as_str(),
            ),
            (Builtin::VariantWrap(a), Builtin::VariantWrap(b)) => same_text(a.as_str(), b.as_str()),
            (Builtin::Zip, Builtin::Zip) => true,
            _ => false,
        }
    }
}

/// Whether the labels of two records agree in order.
pub fn same_fields<T>(a: &Vec<(String, T)>, b: &Vec<(String, T)>) -> (r: bool)
    ensures
        r == (field_names_view(a@) == field_names_view(b@)),
{
    if a.len() != b.len() {
        assert(field_names_view(a@).len() != field_names_view(b@).len());
        return false;
    }
    let mut i: usize = 0;
    while i < a.len()
        invariant
            i <= a.len(),
            a.len() == b.len(),
            forall|j: int| 0 <= j < i ==> field_names_view(a@)[j] == field_names_view(b@)[j],
        decreases a.len() - i,
    {
        if !same_text(a[i].0.as_str(), b[i].0.as_str()) {
            assert(field_names_view(a@)[i as int] != field_names_view(b@)[i as int]);
            return false;
        }
        i = i + 1;
    }
    assert(field_names_view(a@) =~= field_names_view(b@));
    true
}

/// Whether the labels of two arm lists agree in order.
pub fn same_arm_keys<T>(a: &Vec<(FieldKey, T)>, b: &Vec<(FieldKey, T)>) -> (r: bool)
    ensures
        r == (arm_keys_view(a@) == arm_keys_view(b@)),
{
    if a.len() != b.len() {
        assert(arm_keys_view(a@).len() != arm_keys_view(b@).len());
        return false;
    }
    let mut i: usize = 0;
    while i < a.len()
        invariant
            i <= a.len(),
            a.len() == b.len(),
            forall|j: int| 0 <= j < i ==> arm_keys_view(a@)[j] == arm_keys_view(b@)[j],
        decreases a.len() - i,
    {
        if !a[i].0.same(&b[i].0) {
            assert(arm_keys_view(a@)[i as int] != arm_keys_view(b@)[i as int]);
            return false;
        }
        i = i + 1;
    }
    assert(arm_keys_view(a@) =~= arm_keys_view(b@));
    true
}

/// Whether the patterns of two cases agree, the names they bind aside.
fn same_arms(b1: &Vec<Branch>, b2: &Vec<Branch>) -> (r: bool)
    ensures
        r == (patterns_view(b1@).len() == patterns_view(b2@).len() && forall|i: int|
            0 <= i < patterns_view(b1@).len() ==> patterns_match(
                #[trigger] patterns_view(b1@)[i],
                patterns_view(b2@)[i],
            )),
{
    if b1.len() != b2.len() {
        return false;
    }
    let mut i: usize = 0;
    while i < b1.len()
        invariant
            i <= b1.len(),
            b1.len() == b2.len(),
            forall|j: int|
                0 <= j < i ==> patterns_match(
                    #[trigger] patterns_view(b1@)[j],
                    patterns_view(b2@)[j],
                ),
        decreases b1.len() - i,
    {
        let agree = match (&b1[i].pattern, &b2[i].pattern) {
            (Some(p), Some(q)) => same_text(p.tag.as_str(), q.tag.as_str()),
            (None, None) => true,
            _ => false,
        };
        if !agree {
            assert(!patterns_match(patterns_view(b1@)[i as int], patterns_view(b2@)[i as int]));
            return false;
        }
        i = i + 1;
    }
    true
}

/// Whether two forms agree, their binders' names aside.
fn same_form(a: &TypedExprNode, b: &TypedExprNode, pairs: &Vec<(Name, Name)>) -> (r: bool)
    ensures
        r == forms_match(a.head(), b.head(), pairs_view(pairs@)),
{
    match (a, b) {
        (TypedExprNode::Var(x), TypedExprNode::Var(y)) => paired_refs_match(pairs, x, y),
        (
            TypedExprNode::Feed { name: n1, value: _ },
            TypedExprNode::Feed { name: n2, value: _ },
        ) => paired_refs_match(pairs, n1, n2),
        (
            TypedExprNode::Define { name: n1, value: _ },
            TypedExprNode::Define { name: n2, value: _ },
        ) => paired_refs_match(pairs, n1, n2),
        (
            TypedExprNode::MutWrite { name: n1, value: _ },
            TypedExprNode::MutWrite { name: n2, value: _ },
        ) => paired_refs_match(pairs, n1, n2),
        (TypedExprNode::Lambda { .. }, TypedExprNode::Lambda { .. }) => true,
        (TypedExprNode::Let { .. }, TypedExprNode::Let { .. }) => true,
        (TypedExprNode::MutDecl { .. }, TypedExprNode::MutDecl { .. }) => true,
        (TypedExprNode::For { .. }, TypedExprNode::For { .. }) => true,
        (
            TypedExprNode::LetRec { bindings: d1, body: _ },
            TypedExprNode::LetRec { bindings: d2, body: _ },
        ) => d1.len() == d2.len(),
        (
            TypedExprNode::Case { scrutinee: s1, branches: b1 },
            TypedExprNode::Case { scrutinee: s2, branches: b2 },
        ) => s1.is_some() == s2.is_some() && same_arms(b1, b2),
        _ => a.same_head(b),
    }
}

/// The filter a cast to `target` applies.
pub fn cast_target_refinement(target: &Type) -> (r: Option<&RefinementSet>)
    ensures
        match r {
            Some(set) => cast_filter(target.view()) == Some(set.view()),
            None => cast_filter(target.view()) is None,
        },
{
    match target {
        Type::Fun { name, fun_kind, domain, codomain } => {
            let ghost kids = target.view().kids;
            assert(kids[kids.len() - 2] == domain.view());
            match &**domain {
                Type::Refinement(_, set) => Some(set),
                _ => None,
            }
        },
        _ => None,
    }
}

/// Whether the filters of two casts are one, under the pairing in force.
#[verifier::loop_isolation(false)]
fn eq_cast_target_predicates(
    a: &Expr,
    b: &Expr,
    t1: &Type,
    t2: &Type,
    pairs: &mut Vec<(Name, Name)>,
) -> (r: bool)
    requires
        a.node is Cast,
        b.node is Cast,
        t1.view() == a.view().tys[a.view().tys.len() - 1],
        t2.view() == b.view().tys[b.view().tys.len() - 1],
    ensures
        pairs_view(final(pairs)@) == pairs_view(old(pairs)@),
        r == (match (cast_filter(t1.view()), cast_filter(t2.view())) {
            (None, None) => true,
            (Some(ps), Some(qs)) => {
                &&& ps.len() == qs.len()
                &&& forall|i: int|
                    0 <= i < ps.len() ==> pred_among(#[trigger] ps[i], qs, pairs_view(old(pairs)@))
                &&& forall|j: int|
                    0 <= j < qs.len() ==> one_is(ps, #[trigger] qs[j], pairs_view(old(pairs)@))
            },
            _ => false,
        }),
    decreases a.view(), 0int,
{
    match (cast_target_refinement(t1), cast_target_refinement(t2)) {
        (None, None) => true,
        (Some(s1), Some(s2)) => {
            let ghost ps = s1.view();
            let ghost qs = s2.view();
            let ghost pv = pairs_view(pairs@);
            let n: usize = s1.len();
            if n != s2.len() {
                return false;
            }
            proof {
                let k = t1.view().kids;
                assert(ps == k[k.len() - 2].preds);
            }
            let mut i: usize = 0;
            while i < n
                invariant
                    i <= n,
                    n == s1.members().len(),
                    n == s2.members().len(),
                    ps == s1.view(),
                    qs == s2.view(),
                    pairs_view(pairs@) == pv,
                    t1.view() == a.view().tys[a.view().tys.len() - 1],
                    a.view().tys.len() > 0,
                    t1.view().kids.len() >= 2,
                    ps == t1.view().kids[t1.view().kids.len() - 2].preds,
                    forall|k: int| 0 <= k < i ==> pred_among(#[trigger] ps[k], qs, pv),
                decreases n - i,
            {
                let mut found = false;
                let mut j: usize = 0;
                while j < n && !found
                    invariant
                        i < n,
                        j <= n,
                        n == s1.members().len(),
                        n == s2.members().len(),
                        ps == s1.view(),
                        qs == s2.view(),
                        pairs_view(pairs@) == pv,
                        t1.view() == a.view().tys[a.view().tys.len() - 1],
                        a.view().tys.len() > 0,
                        t1.view().kids.len() >= 2,
                        ps == t1.view().kids[t1.view().kids.len() - 2].preds,
                        found ==> pred_among(ps[i as int], qs, pv),
                        !found ==> forall|k: int| 0 <= k < j ==> !pred_eq(ps[i as int], #[trigger] qs[k], pv),
                    decreases n - j,
                {
                    assert(ps[i as int] == s1.members()[i as int].predicate.view());
                    assert(qs[j as int] == s2.members()[j as int].predicate.view());
                    proof {
                        let tv = a.view().tys[a.view().tys.len() - 1];
                        assert(decreases_to!(a.view() => tv));
                        assert(decreases_to!(tv => tv.kids[tv.kids.len() - 2]));
                        assert(decreases_to!(tv.kids[tv.kids.len() - 2] => ps[i as int]));
                    }
                    if eq_refinement_predicate_go(
                        &s1.member(i).predicate,
                        &s2.member(j).predicate,
                        pairs,
                    ) {
                        found = true;
                    }
                    j = j + 1;
                }
                if !found {
                    assert(!pred_among(ps[i as int], qs, pv));
                    return false;
                }
                i = i + 1;
            }
            proof {
                lemma_all_are_met(ps, qs, pv);
            }
            true
        },
        _ => false,
    }
}

/// Pairs the names of two lists in order.
fn pair_names(pairs: &mut Vec<(Name, Name)>, l: &Vec<Name>, r: &Vec<Name>)
    requires
        l@.len() == r@.len(),
    ensures
        pairs_view(final(pairs)@) == pairs_view(old(pairs)@) + paired(
            names_view(l@),
            names_view(r@),
        ),
{
    let ghost start = pairs_view(pairs@);
    let ghost more = paired(names_view(l@), names_view(r@));
    let mut k: usize = 0;
    assert(start + more.take(0) =~= start);
    while k < l.len()
        invariant
            k <= l@.len(),
            l@.len() == r@.len(),
            more == paired(names_view(l@), names_view(r@)),
            pairs_view(pairs@) == start + more.take(k as int),
        decreases l.len() - k,
    {
        let ghost before = pairs@;
        pairs.push((l[k].clone(), r[k].clone()));
        proof {
            assert(pairs_view(pairs@) =~= pairs_view(before).push((l@[k as int]@, r@[k as int]@)));
            assert(more.take(k + 1) =~= more.take(k as int).push(more[k as int]));
            assert(pairs_view(pairs@) =~= start + more.take(k + 1));
        }
        k = k + 1;
    }
    assert(more.take(k as int) =~= more);
}

/// Whether two predicates are the same restriction under `pairs`, which is left
/// as it was.
#[verifier::loop_isolation(false)]
pub fn eq_refinement_predicate_go(a: &Expr, b: &Expr, pairs: &mut Vec<(Name, Name)>) -> (r: bool)
    ensures
        pairs_view(final(pairs)@) == pairs_view(old(pairs)@),
        r == pred_eq(a.view(), b.view(), pairs_view(old(pairs)@)),
    decreases a.view(), 1int,
{
    let ghost pv = pairs_view(pairs@);
    if !same_form(&a.node, &b.node, pairs) {
        return false;
    }
    let ka = a.children();
    let kb = b.children();
    assert(ka@.len() == a.view().kids.len());
    assert(kb@.len() == b.view().kids.len());
    if ka.len() != kb.len() {
        return false;
    }
    let mut i: usize = 0;
    while i < ka.len()
        invariant
            i <= ka.len(),
            ka.len() == kb.len(),
            expr_refs_view(ka@) == a.view().kids,
            expr_refs_view(kb@) == b.view().kids,
            pairs_view(pairs@) == pv,
            forall|j: int|
                0 <= j < i ==> pred_eq(
                    #[trigger] a.view().kids[j],
                    b.view().kids[j],
                    pairs_under(a.view().head, b.view().head, j, pv),
                ),
        decreases ka.len() - i,
    {
        assert(ka@[i as int].view() == a.view().kids[i as int]);
        assert(kb@[i as int].view() == b.view().kids[i as int]);
        assert(ka@.len() == a.view().kids.len());
        assert(kb@.len() == b.view().kids.len());
        let l = scope(a, i);
        let r = scope(b, i);
        proof {
            lemma_scopes_match(a.view().head, b.view().head, i as int, pv);
        }
        let paired_before: usize = pairs.len();
        assert(pairs_view(pairs@).len() == paired_before);
        pair_names(pairs, &l, &r);
        let same = eq_refinement_predicate_go(ka[i], kb[i], pairs);
        pairs.truncate(paired_before);
        assert(pairs_view(pairs@) =~= pv) by {
            let under = pairs_under(a.view().head, b.view().head, i as int, pv);
            assert(under.take(pv.len() as int) =~= pv);
        }
        if !same {
            return false;
        }
        i = i + 1;
    }
    match (&a.node, &b.node) {
        (
            TypedExprNode::Cast { value: _, target: t1 },
            TypedExprNode::Cast { value: _, target: t2 },
        ) => {
            let r = eq_cast_target_predicates(a, b, t1, t2, pairs);
            assert(a.view().head is Cast);
            assert(r == pred_eq(a.view(), b.view(), pv));
            r
        },
        _ => true,
    }
}

/// Whether two predicates are one restriction: the same up to the names of
/// their own binders, their types aside.
pub fn eq_refinement_predicate(a: &Expr, b: &Expr) -> (r: bool)
    ensures
        r == same_pred(a.view(), b.view()),
{
    let mut pairs: Vec<(Name, Name)> = Vec::new();
    assert(pairs_view(pairs@) =~= Seq::empty());
    eq_refinement_predicate_go(a, b, &mut pairs)
}

} // verus!
