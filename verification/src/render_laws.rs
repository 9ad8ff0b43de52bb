//! Laws of how types read.

use vstd::prelude::*;
use crate::ast::{FunKindS, KindShapeS, Refinement, TypeHeadS, TypeS, WitnessId, WitnessS};
use crate::canonical::binders_counted;
use crate::kind_vars::{arrow_text, binders_of};
use crate::symbolic::{
    ShowS, flat_texts, pred_texts, range_start, range_text, singleton_of, slot_texts, tag_texts,
    ty_kid_texts, ty_text, witnesses_text,
};
use crate::text::{
    law_sorted, lemma_text_lt_irreflexive, lemma_text_lt_total, lemma_text_lt_transitive,
    sorted, text_lt,
};
use crate::witness::binders_at;
use crate::witness_walk::{ActS, acted_ty};

verus! {

/// The relation of a text to one that does not come before it.
spec fn not_after() -> spec_fn(Seq<char>, Seq<char>) -> bool {
    |a: Seq<char>, b: Seq<char>| !text_lt(b, a)
}

proof fn lemma_not_after_orders()
    ensures
        vstd::relations::total_ordering(not_after()),
{
    let r = not_after();
    assert forall|a: Seq<char>| #[trigger] r(a, a) by {
        lemma_text_lt_irreflexive(a);
    }
    assert forall|a: Seq<char>, b: Seq<char>| #[trigger] r(a, b) && #[trigger] r(b, a) implies a
        == b by {
        lemma_text_lt_total(a, b);
    }
    assert forall|a: Seq<char>, b: Seq<char>, d: Seq<char>| #[trigger] r(a, b) && #[trigger] r(
        b,
        d,
    ) implies r(a, d) by {
        lemma_text_lt_total(a, b);
        lemma_text_lt_total(b, d);
        if text_lt(d, a) {
            if text_lt(a, b) {
                lemma_text_lt_transitive(d, a, b);
            }
        }
    }
    assert forall|a: Seq<char>, b: Seq<char>| #[trigger] r(a, b) || #[trigger] r(b, a) by {
        if text_lt(a, b) && text_lt(b, a) {
            lemma_text_lt_transitive(a, b, a);
            lemma_text_lt_irreflexive(a);
        }
    }
}

proof fn lemma_sorted_by_members(a: Seq<Seq<char>>, b: Seq<Seq<char>>)
    requires
        a.to_multiset() == b.to_multiset(),
    ensures
        sorted(a) == sorted(b),
{
    law_sorted(a);
    law_sorted(b);
    lemma_not_after_orders();
    vstd::seq_lib::lemma_sorted_unique(sorted(a), sorted(b), not_after());
}

/// The texts of the same predicates, however listed, are the same texts.
proof fn lemma_texts_by_members(c: ShowS, t: TypeS, u: TypeS)
    requires
        t.preds.to_multiset() == u.preds.to_multiset(),
    ensures
        pred_texts(c, t).to_multiset() == pred_texts(c, u).to_multiset(),
    decreases t.preds.len(),
{
    broadcast use vstd::seq_lib::group_to_multiset_ensures;

    let n = t.preds.len();
    t.preds.to_multiset_ensures();
    u.preds.to_multiset_ensures();
    assert(n == u.preds.len());
    if n == 0 {
        assert(pred_texts(c, t) =~= pred_texts(c, u));
    } else {
        let p = t.preds.last();
        assert(t.preds.contains(p));
        assert(t.preds.to_multiset().count(p) > 0);
        assert(u.preds.contains(p));
        let j = choose|j: int| 0 <= j < u.preds.len() && u.preds[j] == p;
        let t2 = TypeS { preds: t.preds.remove(n - 1), ..t };
        let u2 = TypeS { preds: u.preds.remove(j), ..u };
        assert(t2.preds.to_multiset() =~= u2.preds.to_multiset());
        lemma_texts_by_members(c, t2, u2);
        let a = pred_texts(c, t);
        let b = pred_texts(c, u);
        assert(a.remove(n - 1) =~= pred_texts(c, t2));
        assert(b.remove(j) =~= pred_texts(c, u2));
        assert(a[n - 1] == b[j]);
        let x = a[n - 1];
        assert(a.contains(x) && b.contains(x));
        assert(a.to_multiset() =~= a.remove(n - 1).to_multiset().insert(x));
        assert(b.to_multiset() =~= b.remove(j).to_multiset().insert(x));
    }
}

/// How a restricted type reads does not depend on the order its restrictions
/// are held in.
pub proof fn law_reading_ignores_order(c: ShowS, t: TypeS, u: TypeS)
    requires
        t.head is Refinement,
        u.head is Refinement,
        t.kids == u.kids,
        t.preds.to_multiset() == u.preds.to_multiset(),
    ensures
        ty_text(c, t) == ty_text(c, u),
{
    broadcast use vstd::seq_lib::group_to_multiset_ensures;

    lemma_texts_by_members(c, t, u);
    lemma_sorted_by_members(pred_texts(c, t), pred_texts(c, u));
    t.preds.to_multiset_ensures();
    u.preds.to_multiset_ensures();
    assert(t.preds.len() == u.preds.len());
    if t.preds.len() == 1 {
        assert(t.preds.contains(t.preds[0]));
        assert(t.preds.to_multiset().count(t.preds[0]) > 0);
        assert(u.preds.contains(t.preds[0]));
        assert(u.preds[0] == t.preds[0]);
    }
    assert(singleton_of(t) == singleton_of(u));
}

/// Whether two forms differ at most in the identities of witnesses.
pub open spec fn alike_head(h: TypeHeadS, k: TypeHeadS) -> bool {
    match (h, k) {
        (TypeHeadS::WitnessRef(_), TypeHeadS::WitnessRef(_)) => true,
        (
            TypeHeadS::Fun(x, FunKindS::Data(Some(ws))),
            TypeHeadS::Fun(y, FunKindS::Data(Some(vs))),
        ) => {
            &&& x == y
            &&& ws.len() == vs.len()
            &&& forall|i: int| 0 <= i < ws.len() ==> (#[trigger] ws[i]).shape == vs[i].shape
        },
        _ => h == k,
    }
}

/// Whether two types differ at most in the identities of witnesses.
pub open spec fn alike(t: TypeS, u: TypeS) -> bool
    decreases t,
{
    &&& alike_head(t.head, u.head)
    &&& t.head is WitnessRef || {
        &&& t.kids.len() == u.kids.len()
        &&& forall|i: int| 0 <= i < t.kids.len() ==> alike(#[trigger] t.kids[i], u.kids[i])
        &&& t.preds == u.preds
    }
}

proof fn lemma_alike_starts(ws: Seq<WitnessS>, vs: Seq<WitnessS>, n: nat)
    requires
        ws.len() == vs.len(),
        forall|i: int| 0 <= i < ws.len() ==> (#[trigger] ws[i]).shape == vs[i].shape,
        n <= ws.len(),
    ensures
        range_start(ws, n) == range_start(vs, n),
    decreases n,
{
    if n > 0 {
        lemma_alike_starts(ws, vs, (n - 1) as nat);
        assert(ws[n - 1].shape == vs[n - 1].shape);
    }
}

proof fn lemma_alike_kids(c: ShowS, t: TypeS, u: TypeS)
    requires
        !c.ids,
        alike(t, u),
        !(t.head is WitnessRef),
    ensures
        forall|i: int, d: ShowS|
            0 <= i < t.kids.len() && !d.ids ==> #[trigger] ty_text(d, t.kids[i]) == ty_text(
                d,
                u.kids[i],
            ),
    decreases t, 0int, 0nat,
{
    assert forall|i: int, d: ShowS| 0 <= i < t.kids.len() && !d.ids implies #[trigger] ty_text(
        d,
        t.kids[i],
    ) == ty_text(d, u.kids[i]) by {
        assert(alike(t.kids[i], u.kids[i]));
        lemma_alike_text(d, t.kids[i], u.kids[i]);
    }
}

proof fn lemma_alike_kid_texts(c: ShowS, t: TypeS, u: TypeS, from: int, n: nat)
    requires
        t.kids.len() == u.kids.len(),
        forall|i: int|
            0 <= i < t.kids.len() ==> #[trigger] ty_text(c, t.kids[i]) == ty_text(c, u.kids[i]),
    ensures
        ty_kid_texts(c, t, from, n) == ty_kid_texts(c, u, from, n),
{
    let a = ty_kid_texts(c, t, from, n);
    let b = ty_kid_texts(c, u, from, n);
    assert forall|i: int| 0 <= i < n implies #[trigger] a[i] == b[i] by {
        if 0 <= from && from + i < t.kids.len() {
            assert(ty_text(c, t.kids[from + i]) == ty_text(c, u.kids[from + i]));
        }
    }
    assert(a =~= b);
}

proof fn lemma_alike_witnesses(
    c: ShowS,
    t: TypeS,
    u: TypeS,
    ws: Seq<WitnessS>,
    vs: Seq<WitnessS>,
    n: nat,
)
    requires
        !c.ids,
        alike(t, u),
        !(t.head is WitnessRef),
        ws.len() == vs.len(),
        forall|i: int| 0 <= i < ws.len() ==> (#[trigger] ws[i]).shape == vs[i].shape,
    ensures
        witnesses_text(c, t, ws, n) == witnesses_text(c, u, vs, n),
    decreases t, 1int, n,
{
    if 0 < n <= ws.len() {
        lemma_alike_witnesses(c, t, u, ws, vs, (n - 1) as nat);
        lemma_alike_starts(ws, vs, (n - 1) as nat);
        lemma_alike_kids(c, t, u);
        let i = n - 1;
        assert(ws[i].shape == vs[i].shape);
        let from = range_start(ws, i as nat) as int;
        match ws[i].shape {
            KindShapeS::Enumerated(m) => {
                lemma_alike_kid_texts(c.detached(), t, u, from, m);
            },
            KindShapeS::SubtypesOf => {
                if from < t.kids.len() {
                    assert(ty_text(c.detached(), t.kids[from]) == ty_text(
                        c.detached(),
                        u.kids[from],
                    ));
                }
            },
            _ => {},
        }
        assert(range_text(c, t, ws, i) == range_text(c, u, vs, i));
    }
}

proof fn lemma_alike_flat(c: ShowS, t: TypeS, u: TypeS, n: nat)
    requires
        !c.ids,
        alike(t, u),
        !(t.head is WitnessRef),
    ensures
        flat_texts(c, t, n) == flat_texts(c, u, n),
    decreases t, 1int, n,
{
    if 0 < n <= t.kids.len() {
        lemma_alike_flat(c, t, u, (n - 1) as nat);
        lemma_alike_kids(c, t, u);
        let a = t.kids[n - 1];
        let b = u.kids[n - 1];
        assert(alike(a, b));
        assert(ty_text(c, a) == ty_text(c, b));
        if a.head is Variant {
            lemma_alike_flat(c, a, b, a.kids.len());
        }
    }
}

proof fn lemma_alike_text(c: ShowS, t: TypeS, u: TypeS)
    requires
        !c.ids,
        alike(t, u),
    ensures
        ty_text(c, t) == ty_text(c, u),
    decreases t, 2int, 0nat,
{
    if !(t.head is WitnessRef) {
        lemma_alike_kids(c, t, u);
        let n = t.kids.len();
        if n >= 1 {
            assert(ty_text(c, t.kids[0]) == ty_text(c, u.kids[0]));
        }
        if n >= 2 {
            assert(ty_text(c, t.kids[1]) == ty_text(c, u.kids[1]));
        }
        match t.head {
            TypeHeadS::Fun(name, kind) => {
                match u.head {
                    TypeHeadS::Fun(_, other) => {
                        lemma_alike_witnesses(
                            c,
                            t,
                            u,
                            binders_of(kind),
                            binders_of(other),
                            binders_of(kind).len(),
                        );
                        assert(arrow_text(c.kinds, kind) == arrow_text(c.kinds, other));
                        if n >= 2 {
                            assert(ty_text(c, t.kids[n - 2]) == ty_text(c, u.kids[n - 2]));
                            assert(ty_text(c.crossing(name), t.kids[n - 1]) == ty_text(
                                c.crossing(name),
                                u.kids[n - 1],
                            ));
                        }
                    },
                    _ => {},
                }
            },
            TypeHeadS::Tuple => {
                lemma_alike_kid_texts(c, t, u, 0, n);
            },
            TypeHeadS::Record(names) => {
                assert forall|i: int| 0 <= i < n implies #[trigger] slot_texts(c, t, names)[i]
                    == slot_texts(c, u, names)[i] by {
                    assert(ty_text(c, t.kids[i]) == ty_text(c, u.kids[i]));
                }
                assert(slot_texts(c, t, names) =~= slot_texts(c, u, names));
            },
            TypeHeadS::Variant(keys, _) => {
                lemma_alike_flat(c, t, u, n);
                assert forall|i: int| 0 <= i < n implies #[trigger] tag_texts(c, t, keys)[i]
                    == tag_texts(c, u, keys)[i] by {
                    assert(alike(t.kids[i], u.kids[i]));
                    assert(ty_text(c, t.kids[i]) == ty_text(c, u.kids[i]));
                }
                assert(tag_texts(c, t, keys) =~= tag_texts(c, u, keys));
            },
            TypeHeadS::Refinement => {
                assert(pred_texts(c, t) =~= pred_texts(c, u));
                assert(singleton_of(t) == singleton_of(u));
            },
            _ => {},
        }
    }
}

/// Where identities do not show, types that differ only in the identities of
/// witnesses read the same.
pub proof fn law_reading_hides_identities(c: ShowS, t: TypeS, u: TypeS)
    requires
        !c.ids,
        alike(t, u),
    ensures
        ty_text(c, t) == ty_text(c, u),
{
    lemma_alike_text(c, t, u);
}

proof fn lemma_renamed_alike(m: Map<WitnessId, WitnessId>, t: TypeS)
    ensures
        alike(t, acted_ty(ActS::Rename(m), t)),
    decreases t,
{
    let u = acted_ty(ActS::Rename(m), t);
    if !(t.head is WitnessRef) {
        assert forall|i: int| 0 <= i < t.kids.len() implies alike(#[trigger] t.kids[i], u.kids[i]) by {
            lemma_renamed_alike(m, t.kids[i]);
        }
    }
}

proof fn lemma_counted_alike(t: TypeS, scope: Seq<WitnessId>)
    ensures
        alike(t, binders_counted(t, scope)),
    decreases t,
{
    let u = binders_counted(t, scope);
    if !(t.head is WitnessRef) {
        assert forall|i: int| 0 <= i < t.kids.len() implies alike(#[trigger] t.kids[i], u.kids[i]) by {
            lemma_counted_alike(t.kids[i], scope + binders_at(t, i));
        }
    }
}

/// Where identities do not show, a type reads the same with its witnesses
/// renamed, and so does its canonical copy.
pub proof fn law_renaming_reads_the_same(c: ShowS, m: Map<WitnessId, WitnessId>, t: TypeS)
    requires
        !c.ids,
    ensures
        ty_text(c, acted_ty(ActS::Rename(m), t)) == ty_text(c, t),
        ty_text(c, binders_counted(t, Seq::empty())) == ty_text(c, t),
{
    lemma_renamed_alike(m, t);
    lemma_alike_text(c, t, acted_ty(ActS::Rename(m), t));
    lemma_counted_alike(t, Seq::empty());
    lemma_alike_text(c, t, binders_counted(t, Seq::empty()));
}

} // verus!
