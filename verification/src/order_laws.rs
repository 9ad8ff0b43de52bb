//! Laws of the order in which restrictions are applied.

use vstd::prelude::*;
use crate::ast::{ExprS, TypeS};
use crate::kind::BoundsS;
use crate::predicate_order::{
    applied, arranged, by_text, dependency_order_s, element_ty, law_each_applied_once,
    lemma_arranged, lemma_by_text, lemma_placed, lemma_ready_within, placed_by_text,
    reads_narrowed, ready_from, texts_of, waits,
};
use crate::render::symbolic_s;
use crate::text::{
    law_sorted, lemma_text_lt_irreflexive, lemma_text_lt_total, lemma_text_lt_transitive,
    sorted, sorted_insert, text_lt,
};

verus! {

/// Whether every predicate of `order` reads the narrowing of another of them.
pub open spec fn all_wait(order: Seq<usize>, preds: Seq<ExprS>) -> bool {
    forall|k: int| 0 <= k < order.len() ==> #[trigger] waits(order, preds, k)
}

proof fn lemma_ready(order: Seq<usize>, preds: Seq<ExprS>, k: int)
    requires
        0 <= k <= order.len(),
        forall|j: int| 0 <= j < k ==> #[trigger] waits(order, preds, j),
    ensures
        all_wait(order, preds) || !waits(order, preds, ready_from(order, preds, k)),
    decreases order.len() - k,
{
    if k < order.len() && waits(order, preds, k) {
        lemma_ready(order, preds, k + 1);
    }
}

proof fn lemma_first_reads_no_later(order: Seq<usize>, preds: Seq<ExprS>, j: int)
    requires
        order.len() > 0,
        0 < j < order.len(),
    ensures
        ({
            let out = arranged(order, preds);
            reads_narrowed(preds[out[0] as int], preds[out[j] as int]) ==> all_wait(order, preds)
        }),
{
    broadcast use vstd::seq_lib::group_to_multiset_ensures;

    let k = ready_from(order, preds, 0);
    lemma_ready_within(order, preds, 0);
    lemma_ready(order, preds, 0);
    let rest = order.remove(k);
    let out = arranged(order, preds);
    let tail = arranged(rest, preds);
    lemma_arranged(rest, preds);
    assert(out[j] == tail[j - 1]);
    assert(tail.contains(tail[j - 1]));
    assert(tail.to_multiset().count(tail[j - 1]) > 0);
    assert(rest.contains(tail[j - 1]));
    let i = choose|i: int| 0 <= i < rest.len() && rest[i] == tail[j - 1];
    let at = if i < k { i } else { i + 1 };
    assert(order[at] == out[j]);
    assert(at != k);
}

/// Whether all wait does not depend on the order they stand in.
proof fn lemma_all_wait_any_order(a: Seq<usize>, b: Seq<usize>, preds: Seq<ExprS>)
    requires
        a.no_duplicates(),
        a.to_multiset() == b.to_multiset(),
        all_wait(a, preds),
    ensures
        all_wait(b, preds),
{
    broadcast use vstd::seq_lib::group_to_multiset_ensures;

    assert forall|k: int| 0 <= k < b.len() implies #[trigger] waits(b, preds, k) by {
        assert(b.contains(b[k]));
        assert(b.to_multiset().count(b[k]) > 0);
        assert(a.contains(b[k]));
        let i = choose|i: int| 0 <= i < a.len() && a[i] == b[k];
        assert(waits(a, preds, i));
        let j = choose|j: int|
            0 <= j < a.len() && j != i && reads_narrowed(
                preds[a[i] as int],
                preds[#[trigger] a[j] as int],
            );
        assert(a.contains(a[j]));
        assert(a.to_multiset().count(a[j]) > 0);
        assert(b.contains(a[j]));
        let m = choose|m: int| 0 <= m < b.len() && b[m] == a[j];
        assert(m != k);
        assert(reads_narrowed(preds[b[k] as int], preds[b[m] as int]));
    }
}

proof fn lemma_reads_no_later(order: Seq<usize>, preds: Seq<ExprS>, i: int, j: int)
    requires
        order.no_duplicates(),
        0 <= i < j < order.len(),
    ensures
        ({
            let out = arranged(order, preds);
            reads_narrowed(preds[out[i] as int], preds[out[j] as int]) ==> all_wait(
                out.skip(i),
                preds,
            )
        }),
    decreases order.len(),
{
    let out = arranged(order, preds);
    lemma_arranged(order, preds);
    if i == 0 {
        lemma_first_reads_no_later(order, preds, j);
        assert(out.skip(0) =~= out);
        if all_wait(order, preds) {
            lemma_all_wait_any_order(order, out, preds);
        }
    } else {
        let k = ready_from(order, preds, 0);
        lemma_ready_within(order, preds, 0);
        let rest = order.remove(k);
        let tail = arranged(rest, preds);
        lemma_arranged(rest, preds);
        assert(rest.no_duplicates());
        lemma_reads_no_later(rest, preds, i - 1, j - 1);
        assert(out[i] == tail[i - 1] && out[j] == tail[j - 1]);
        assert(out.skip(i) =~= tail.skip(i - 1));
    }
}

/// A restriction is applied before another whose narrowing it reads only where
/// it and all those applied after it read the narrowing of one another, so that
/// none of them can come first.
pub proof fn law_applied_after_what_it_reads(
    kinds: Seq<BoundsS>,
    preds: Seq<ExprS>,
    i: int,
    j: int,
)
    requires
        preds.len() <= usize::MAX,
        0 <= i < j < preds.len(),
    ensures
        ({
            let order = dependency_order_s(kinds, preds);
            reads_narrowed(preds[order[i] as int], preds[order[j] as int]) ==> all_wait(
                order.skip(i),
                preds,
            )
        }),
{
    lemma_by_text(texts_of(kinds, preds), preds.len());
    lemma_reads_no_later(by_text(texts_of(kinds, preds), preds.len()), preds, i, j);
}

/// The predicates at the places that `order` lists.
pub open spec fn preds_at(order: Seq<usize>, preds: Seq<ExprS>) -> Seq<ExprS> {
    Seq::new(order.len(), |k: int| preds[order[k] as int])
}

/// The predicates in the order they are applied.
pub open spec fn in_turn(kinds: Seq<BoundsS>, preds: Seq<ExprS>) -> Seq<ExprS> {
    preds_at(dependency_order_s(kinds, preds), preds)
}

/// Whether no two of the predicates read the same.
pub open spec fn read_apart(kinds: Seq<BoundsS>, preds: Seq<ExprS>) -> bool {
    forall|i: int, j: int|
        0 <= i < j < preds.len() ==> symbolic_s(kinds, #[trigger] preds[i]) != symbolic_s(
            kinds,
            #[trigger] preds[j],
        )
}

/// Whether each of the predicates reads as something before the next.
spec fn rising(kinds: Seq<BoundsS>, preds: Seq<ExprS>) -> bool {
    forall|i: int, j: int|
        0 <= i < j < preds.len() ==> text_lt(
            symbolic_s(kinds, #[trigger] preds[i]),
            symbolic_s(kinds, #[trigger] preds[j]),
        )
}

spec fn texts_at(order: Seq<usize>, texts: Seq<Seq<char>>) -> Seq<Seq<char>> {
    Seq::new(order.len(), |k: int| texts[order[k] as int])
}

proof fn lemma_placed_sorted(order: Seq<usize>, texts: Seq<Seq<char>>, x: usize)
    ensures
        texts_at(placed_by_text(order, texts, x), texts) == sorted_insert(
            texts_at(order, texts),
            texts[x as int],
        ),
    decreases order.len(),
{
    let all = texts_at(order, texts);
    if order.len() > 0 && text_lt(texts[x as int], texts[order.last() as int]) {
        let d = order.drop_last();
        lemma_placed_sorted(d, texts, x);
        assert(texts_at(d, texts) =~= all.drop_last());
        assert(texts_at(placed_by_text(order, texts, x), texts) =~= sorted_insert(
            all,
            texts[x as int],
        ));
    } else {
        assert(texts_at(order.push(x), texts) =~= all.push(texts[x as int]));
        if order.len() == 0 {
            assert(all.push(texts[x as int]) =~= seq![texts[x as int]]);
        }
    }
}

proof fn lemma_by_text_sorted(texts: Seq<Seq<char>>, n: nat)
    requires
        n <= texts.len(),
        n <= usize::MAX,
    ensures
        texts_at(by_text(texts, n), texts) == sorted(texts.take(n as int)),
    decreases n,
{
    let now = texts.take(n as int);
    if n == 0 {
        assert(texts_at(by_text(texts, n), texts) =~= sorted(now));
    } else {
        let m = (n - 1) as nat;
        lemma_by_text_sorted(texts, m);
        lemma_placed_sorted(by_text(texts, m), texts, m as usize);
        assert(now.drop_last() =~= texts.take(m as int));
        assert(now.last() == texts[m as int]);
    }
}

proof fn lemma_by_text_holds(texts: Seq<Seq<char>>, n: nat, i: int)
    requires
        0 <= i < n,
        n <= usize::MAX,
    ensures
        by_text(texts, n).contains(i as usize),
    decreases n,
{
    broadcast use vstd::seq_lib::group_to_multiset_ensures;

    let m = (n - 1) as nat;
    let prev = by_text(texts, m);
    let next = by_text(texts, n);
    lemma_placed(prev, texts, m as usize);
    if i < m {
        lemma_by_text_holds(texts, m, i);
        assert(prev.to_multiset().count(i as usize) > 0);
    }
    assert(next.to_multiset().count(i as usize) > 0);
}

/// By how they read, the predicates rise, and none is lost or added.
proof fn lemma_listed_by_text(kinds: Seq<BoundsS>, preds: Seq<ExprS>)
    requires
        preds.len() <= usize::MAX,
        read_apart(kinds, preds),
    ensures
        ({
            let l = preds_at(by_text(texts_of(kinds, preds), preds.len()), preds);
            rising(kinds, l) && forall|p: ExprS| l.contains(p) <==> preds.contains(p)
        }),
{
    let texts = texts_of(kinds, preds);
    let n = preds.len();
    let order = by_text(texts, n);
    let l = preds_at(order, preds);
    lemma_by_text(texts, n);
    lemma_by_text_sorted(texts, n);
    assert(texts.take(n as int) =~= texts);
    law_sorted(texts);
    let s = texts_at(order, texts);
    assert forall|i: int, j: int| 0 <= i < j < l.len() implies text_lt(
        symbolic_s(kinds, #[trigger] l[i]),
        symbolic_s(kinds, #[trigger] l[j]),
    ) by {
        assert((order[i] as int) < n && (order[j] as int) < n);
        assert(order[i] != order[j]);
        assert(s[i] == symbolic_s(kinds, l[i]) && s[j] == symbolic_s(kinds, l[j]));
        assert(!text_lt(s[j], s[i]));
        if order[i] < order[j] {
            assert(symbolic_s(kinds, preds[order[i] as int]) != symbolic_s(
                kinds,
                preds[order[j] as int],
            ));
        } else {
            assert(symbolic_s(kinds, preds[order[j] as int]) != symbolic_s(
                kinds,
                preds[order[i] as int],
            ));
        }
        lemma_text_lt_total(s[i], s[j]);
    }
    assert forall|p: ExprS| l.contains(p) <==> preds.contains(p) by {
        if l.contains(p) {
            let k = choose|k: int| 0 <= k < l.len() && l[k] == p;
            assert((order[k] as int) < n);
            assert(preds[order[k] as int] == p);
        }
        if preds.contains(p) {
            let i = choose|i: int| 0 <= i < preds.len() && preds[i] == p;
            lemma_by_text_holds(texts, n, i);
            let k = choose|k: int| 0 <= k < order.len() && order[k] == i as usize;
            assert(l[k] == p);
        }
    }
}

/// Predicates that rise are fixed by which they are.
proof fn lemma_rising_fixed(kinds: Seq<BoundsS>, a: Seq<ExprS>, b: Seq<ExprS>)
    requires
        rising(kinds, a),
        rising(kinds, b),
        forall|p: ExprS| a.contains(p) <==> b.contains(p),
    ensures
        a == b,
    decreases a.len(),
{
    if a.len() == 0 {
        if b.len() > 0 {
            assert(b.contains(b[0]));
        }
        assert(a =~= b);
    } else {
        assert(a.contains(a.last()));
        let j = choose|j: int| 0 <= j < b.len() && b[j] == a.last();
        assert(b.contains(b.last()));
        let i = choose|i: int| 0 <= i < a.len() && a[i] == b.last();
        let at = symbolic_s(kinds, a.last());
        let bt = symbolic_s(kinds, b.last());
        if i < a.len() - 1 && j < b.len() - 1 {
            assert(text_lt(symbolic_s(kinds, a[i]), symbolic_s(kinds, a[a.len() - 1])));
            assert(text_lt(symbolic_s(kinds, b[j]), symbolic_s(kinds, b[b.len() - 1])));
            lemma_text_lt_transitive(at, bt, at);
            lemma_text_lt_irreflexive(at);
        }
        assert(a.last() == b.last());
        let x = a.drop_last();
        let y = b.drop_last();
        assert(rising(kinds, x)) by {
            assert forall|i: int, j: int| 0 <= i < j < x.len() implies text_lt(
                symbolic_s(kinds, #[trigger] x[i]),
                symbolic_s(kinds, #[trigger] x[j]),
            ) by {
                assert(x[i] == a[i] && x[j] == a[j]);
            }
        }
        assert(rising(kinds, y)) by {
            assert forall|i: int, j: int| 0 <= i < j < y.len() implies text_lt(
                symbolic_s(kinds, #[trigger] y[i]),
                symbolic_s(kinds, #[trigger] y[j]),
            ) by {
                assert(y[i] == b[i] && y[j] == b[j]);
            }
        }
        lemma_last_gone(kinds, a);
        lemma_last_gone(kinds, b);
        assert forall|p: ExprS| x.contains(p) <==> y.contains(p) by {
            assert(a.contains(p) <==> b.contains(p));
        }
        lemma_rising_fixed(kinds, x, y);
        assert(a =~= x.push(a.last()));
        assert(b =~= y.push(b.last()));
    }
}

/// Without the last of predicates that rise, all the others are left.
proof fn lemma_last_gone(kinds: Seq<BoundsS>, a: Seq<ExprS>)
    requires
        rising(kinds, a),
        a.len() > 0,
    ensures
        forall|p: ExprS| #[trigger]
            a.drop_last().contains(p) <==> a.contains(p) && p != a.last(),
{
    let x = a.drop_last();
    assert forall|p: ExprS| #[trigger] x.contains(p) <==> a.contains(p) && p != a.last() by {
        if x.contains(p) {
            let i = choose|i: int| 0 <= i < x.len() && x[i] == p;
            assert(a[i] == p);
            assert(text_lt(symbolic_s(kinds, a[i]), symbolic_s(kinds, a[a.len() - 1])));
            lemma_text_lt_irreflexive(symbolic_s(kinds, a.last()));
        }
        if a.contains(p) && p != a.last() {
            let i = choose|i: int| 0 <= i < a.len() && a[i] == p;
            assert(x[i] == p);
        }
    }
}

proof fn lemma_waits_by_predicates(
    a: Seq<usize>,
    pa: Seq<ExprS>,
    b: Seq<usize>,
    pb: Seq<ExprS>,
    k: int,
)
    requires
        preds_at(a, pa) == preds_at(b, pb),
        0 <= k < a.len(),
    ensures
        waits(a, pa, k) == waits(b, pb, k),
{
    let l = preds_at(a, pa);
    assert(a.len() == l.len() && b.len() == l.len());
    assert forall|j: int| 0 <= j < l.len() implies pa[#[trigger] a[j] as int]
        == pb[b[j] as int] by {
        assert(l[j] == pa[a[j] as int]);
        assert(preds_at(b, pb)[j] == pb[b[j] as int]);
    }
    if waits(a, pa, k) {
        let j = choose|j: int|
            0 <= j < a.len() && j != k && reads_narrowed(
                pa[a[k] as int],
                pa[#[trigger] a[j] as int],
            );
        assert(reads_narrowed(pb[b[k] as int], pb[b[j] as int]));
    }
    if waits(b, pb, k) {
        let j = choose|j: int|
            0 <= j < b.len() && j != k && reads_narrowed(
                pb[b[k] as int],
                pb[#[trigger] b[j] as int],
            );
        assert(reads_narrowed(pa[a[k] as int], pa[a[j] as int]));
    }
}

proof fn lemma_ready_by_predicates(
    a: Seq<usize>,
    pa: Seq<ExprS>,
    b: Seq<usize>,
    pb: Seq<ExprS>,
    k: int,
)
    requires
        preds_at(a, pa) == preds_at(b, pb),
        0 <= k,
    ensures
        ready_from(a, pa, k) == ready_from(b, pb, k),
    decreases a.len() - k,
{
    assert(a.len() == preds_at(a, pa).len() && b.len() == preds_at(b, pb).len());
    if k < a.len() {
        lemma_waits_by_predicates(a, pa, b, pb, k);
        lemma_ready_by_predicates(a, pa, b, pb, k + 1);
    }
}

proof fn lemma_arranged_by_predicates(
    a: Seq<usize>,
    pa: Seq<ExprS>,
    b: Seq<usize>,
    pb: Seq<ExprS>,
)
    requires
        preds_at(a, pa) == preds_at(b, pb),
    ensures
        preds_at(arranged(a, pa), pa) == preds_at(arranged(b, pb), pb),
    decreases a.len(),
{
    let l = preds_at(a, pa);
    assert(a.len() == l.len() && b.len() == preds_at(b, pb).len());
    if a.len() > 0 {
        let k = ready_from(a, pa, 0);
        lemma_ready_by_predicates(a, pa, b, pb, 0);
        lemma_ready_within(a, pa, 0);
        let ra = a.remove(k);
        let rb = b.remove(k);
        assert(preds_at(ra, pa) =~= l.remove(k));
        assert(preds_at(rb, pb) =~= preds_at(b, pb).remove(k));
        lemma_arranged_by_predicates(ra, pa, rb, pb);
        assert(l[k] == pa[a[k] as int]);
        assert(preds_at(b, pb)[k] == pb[b[k] as int]);
        assert(preds_at(arranged(a, pa), pa) =~= seq![l[k]] + preds_at(arranged(ra, pa), pa));
        assert(preds_at(arranged(b, pb), pb) =~= seq![l[k]] + preds_at(arranged(rb, pb), pb));
    } else {
        assert(preds_at(arranged(a, pa), pa) =~= preds_at(arranged(b, pb), pb));
    }
}

proof fn lemma_applied_by_predicates(
    a: Seq<usize>,
    pa: Seq<ExprS>,
    b: Seq<usize>,
    pb: Seq<ExprS>,
    n: nat,
)
    requires
        preds_at(a, pa) == preds_at(b, pb),
        n <= a.len(),
    ensures
        applied(pa, a, n) == applied(pb, b, n),
    decreases n,
{
    assert(a.len() == preds_at(a, pa).len() && b.len() == preds_at(b, pb).len());
    if n > 0 {
        lemma_applied_by_predicates(a, pa, b, pb, (n - 1) as nat);
        assert(preds_at(a, pa)[n - 1] == pa[a[n - 1] as int]);
        assert(preds_at(b, pb)[n - 1] == pb[b[n - 1] as int]);
    }
}

/// The order in which restrictions are applied, and the types of the elements
/// along it, depend on which restrictions there are and not on where a list of
/// them holds each one, as long as no two of them read the same.
pub proof fn law_order_is_of_the_members(
    kinds: Seq<BoundsS>,
    base: TypeS,
    preds: Seq<ExprS>,
    other: Seq<ExprS>,
)
    requires
        preds.len() <= usize::MAX,
        other.len() <= usize::MAX,
        read_apart(kinds, preds),
        read_apart(kinds, other),
        forall|p: ExprS| preds.contains(p) <==> other.contains(p),
    ensures
        in_turn(kinds, preds) == in_turn(kinds, other),
        forall|k: int|
            0 <= k < preds.len() ==> #[trigger] element_ty(
                base,
                preds,
                dependency_order_s(kinds, preds),
                k,
            ) == element_ty(base, other, dependency_order_s(kinds, other), k),
{
    let a = by_text(texts_of(kinds, preds), preds.len());
    let b = by_text(texts_of(kinds, other), other.len());
    lemma_listed_by_text(kinds, preds);
    lemma_listed_by_text(kinds, other);
    let la = preds_at(a, preds);
    let lb = preds_at(b, other);
    assert forall|p: ExprS| la.contains(p) <==> lb.contains(p) by {
        assert(preds.contains(p) <==> other.contains(p));
    }
    lemma_rising_fixed(kinds, la, lb);
    lemma_arranged_by_predicates(a, preds, b, other);
    law_each_applied_once(kinds, preds);
    let oa = dependency_order_s(kinds, preds);
    let ob = dependency_order_s(kinds, other);
    assert forall|k: int| 0 <= k < preds.len() implies #[trigger] element_ty(base, preds, oa, k)
        == element_ty(base, other, ob, k) by {
        lemma_applied_by_predicates(oa, preds, ob, other, k as nat);
    }
}

} // verus!
