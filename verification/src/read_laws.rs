//! The laws of the two reads of a history: a pass that resolves the one leaves
//! the other, and none that it owes is left.

use vstd::prelude::*;
use crate::as_of::binds_read;
use crate::as_of_pass::{joined_kids, joined_reads, live_kids, live_reads, positioned};
use crate::ast::{BuiltinS, ExprS, TypeS};
use crate::awaits::final_reads;
use crate::name::NameS;
use crate::probe::{PickS, gathered, gathered_upto, opt_seq};
use crate::swap::{SwapS, swapped, swapped_kids};
use crate::tree::with_kids;
use crate::txn_terms::{sampling_read_s, value_ty_of};

verus! {

proof fn lemma_in_gathered(p: PickS, e: ExprS, n: NameS, m: nat)
    requires
        m <= e.kids.len(),
        gathered_upto(p, e, m).contains(n),
    ensures
        exists|i: int| 0 <= i < m && gathered(p, #[trigger] e.kids[i]).contains(n),
    decreases m,
{
    let before = gathered_upto(p, e, (m - 1) as nat);
    let here = gathered(p, e.kids[m - 1]);
    let at = choose|j: int| 0 <= j < (before + here).len() && (before + here)[j] == n;
    if at < before.len() {
        assert(before[at] == n);
        lemma_in_gathered(p, e, n, (m - 1) as nat);
    } else {
        assert(here[at - before.len()] == n);
    }
}

proof fn lemma_none_gathered(p: PickS, e: ExprS)
    requires
        gathered(p, e).len() == 0,
    ensures
        p.at(e) is None,
        forall|i: int| 0 <= i < e.kids.len() ==> gathered(p, #[trigger] e.kids[i]).len() == 0,
{
    assert forall|i: int| 0 <= i < e.kids.len() implies gathered(
        p,
        #[trigger] e.kids[i],
    ).len() == 0 by {
        lemma_upto_grows(p, e, i + 1, e.kids.len() as int);
    }
}

proof fn lemma_upto_grows(p: PickS, e: ExprS, i: int, m: int)
    requires
        0 < i <= m <= e.kids.len(),
    ensures
        gathered(p, e.kids[i - 1]).len() <= gathered_upto(p, e, m as nat).len(),
    decreases m,
{
    if i < m {
        lemma_upto_grows(p, e, i, m - 1);
    }
}

proof fn lemma_nothing_joined(e: ExprS, uid: u64)
    requires
        gathered(PickS::Sampled, e).len() == 0,
    ensures
        joined_reads(e, uid) == Some((e, uid)),
    decreases e, e.kids.len() + 1,
{
    lemma_none_gathered(PickS::Sampled, e);
    if binds_read(e) {
        assert(PickS::Sampled.at(e.kids[0]) is Some);
        lemma_none_gathered(PickS::Sampled, e.kids[0]);
    }
    lemma_nothing_joined_upto(e, uid, e.kids.len());
    assert(e.kids.take(e.kids.len() as int) =~= e.kids);
}

proof fn lemma_nothing_joined_upto(e: ExprS, uid: u64, m: nat)
    requires
        m <= e.kids.len(),
        forall|i: int|
            0 <= i < e.kids.len() ==> gathered(PickS::Sampled, #[trigger] e.kids[i]).len() == 0,
    ensures
        joined_kids(e, uid, m) == Some((e.kids.take(m as int), uid)),
    decreases e, m,
{
    if m == 0 {
        assert(e.kids.take(0) =~= Seq::empty());
    } else {
        lemma_nothing_joined_upto(e, uid, (m - 1) as nat);
        lemma_nothing_joined(e.kids[m - 1], uid);
        assert(e.kids.take(m - 1).push(e.kids[m - 1]) =~= e.kids.take(m as int));
    }
}

proof fn lemma_nothing_dropped(e: ExprS)
    requires
        gathered(PickS::Sampled, e).len() == 0,
    ensures
        live_reads(e) == e,
    decreases e,
{
    lemma_none_gathered(PickS::Sampled, e);
    if binds_read(e) {
        assert(PickS::Sampled.at(e.kids[0]) is Some);
        lemma_none_gathered(PickS::Sampled, e.kids[0]);
    }
    let ks = live_kids(e);
    assert forall|i: int| 0 <= i < e.kids.len() implies #[trigger] ks[i] == e.kids[i] by {
        lemma_nothing_dropped(e.kids[i]);
    }
    assert(ks =~= e.kids);
}

/// Positioning as-of reads leaves a program that has none as it was, whatever
/// other reads of histories it has, and mints no name for it.
pub proof fn law_nothing_sampled_nothing_changed(e: ExprS, uid: u64)
    requires
        gathered(PickS::Sampled, e).len() == 0,
    ensures
        joined_reads(e, uid) == Some((e, uid)),
        positioned(e, uid) == e,
{
    lemma_nothing_joined(e, uid);
    lemma_nothing_dropped(e);
}

/// Whether the terms of `env` await nothing and are neither references nor
/// builtins.
pub open spec fn awaits_nothing(env: Map<NameS, ExprS>) -> bool {
    forall|n: NameS| #[trigger]
        env.dom().contains(n) ==> gathered(PickS::Awaited, env[n]).len() == 0 && env[n].head
            is Apply
}

proof fn lemma_awaits_resolved(env: Map<NameS, ExprS>, e: ExprS, k: NameS)
    requires
        awaits_nothing(env),
        env.dom().contains(k),
    ensures
        !gathered(PickS::Awaited, swapped(SwapS::Await, env, e)).contains(k),
    decreases e,
{
    let out = swapped(SwapS::Await, env, e);
    match SwapS::Await.key(e) {
        Some(n) if env.dom().contains(n) => {},
        _ => {
            let ks = swapped_kids(SwapS::Await, env, e);
            assert(out == with_kids(e, ks));
            assert(PickS::Awaited.at(out) != Some(k)) by {
                if e.head is Apply && e.kids.len() == 2 {
                    assert(ks[0] == swapped(SwapS::Await, env, e.kids[0]));
                    assert(ks[1] == swapped(SwapS::Await, env, e.kids[1]));
                }
            }
            if gathered(PickS::Awaited, out).contains(k) {
                let own = opt_seq(PickS::Awaited.at(out));
                let below = gathered_upto(PickS::Awaited, out, out.kids.len());
                let at = choose|j: int| 0 <= j < (own + below).len() && (own + below)[j] == k;
                assert(at >= own.len());
                assert(below[at - own.len()] == k);
                lemma_in_gathered(PickS::Awaited, out, k, out.kids.len());
                let i = choose|i: int|
                    0 <= i < out.kids.len() && gathered(
                        PickS::Awaited,
                        #[trigger] out.kids[i],
                    ).contains(k);
                lemma_awaits_resolved(env, e.kids[i], k);
            }
        },
    }
}

proof fn lemma_final_read_awaits_nothing(hist: NameS, ty: TypeS)
    ensures
        gathered(PickS::Awaited, sampling_read_s(hist, ty, BuiltinS::FinalRead)).len() == 0,
        sampling_read_s(hist, ty, BuiltinS::FinalRead).head is Apply,
{
    let r = sampling_read_s(hist, ty, BuiltinS::FinalRead);
    let p = PickS::Awaited;
    assert(gathered_upto(p, r.kids[0], 0).len() == 0);
    assert(gathered_upto(p, r.kids[1], 0).len() == 0);
    assert(gathered(p, r.kids[0]).len() == 0);
    assert(gathered(p, r.kids[1]).len() == 0);
    assert(gathered_upto(p, r, 0).len() == 0);
    assert(gathered_upto(p, r, 1).len() == 0);
    assert(gathered_upto(p, r, 2).len() == 0);
}

/// Once the awaits of the keys with histories are resolved, none of these keys
/// is awaited.
pub proof fn law_no_await_of_a_key_is_left(
    e: ExprS,
    hist: Map<NameS, NameS>,
    inits: Map<NameS, ExprS>,
    k: NameS,
)
    requires
        hist.dom().contains(k),
    ensures
        !gathered(PickS::Awaited, swapped(SwapS::Await, final_reads(hist, inits), e)).contains(k),
{
    let env = final_reads(hist, inits);
    assert forall|n: NameS| #[trigger] env.dom().contains(n) implies gathered(
        PickS::Awaited,
        env[n],
    ).len() == 0 && env[n].head is Apply by {
        lemma_final_read_awaits_nothing(hist[n], value_ty_of(inits[n].ty()));
    }
    lemma_awaits_resolved(env, e, k);
}

} // verus!
