//! Terms that hold nothing transactional, and how they are put together.

use vstd::prelude::*;
use crate::ast::{ExprS, HeadS, LogicKind};
use crate::capture::discharged;
use crate::cross_domain::{DefS, FeedS};
use crate::decision::{
    TapS, and_s, arm_predicate, disjoined, logic_s, none_hold, not_s, some_hold,
};
use crate::name::NameS;
use crate::probe::{SignS, shows};
use crate::scope::scope_of;
use crate::subst::env_subst;
use crate::substitution::{SubstS, is_live, sub_expr, sub_kids, without};
use crate::walk::{
    ArmS, WalkS, all_carry, arm_guards, carried, rejoined, rejoined_kids, rejoined_value,
    walked, walked_arms, walked_stmt,
};

verus! {

/// Whether `e` holds neither a block nor a write of one of `txn`.
pub open spec fn clear(txn: Seq<NameS>, e: ExprS) -> bool
    decreases e,
{
    &&& !(e.head is Begin)
    &&& !(e.head matches HeadS::MutWrite(n) && txn.contains(n))
    &&& forall|i: int| 0 <= i < e.kids.len() ==> clear(txn, #[trigger] e.kids[i])
}

/// Whether `e` is computed without effects: it holds neither a block nor a write.
pub open spec fn effectless(e: ExprS) -> bool
    decreases e,
{
    &&& !(e.head is Begin)
    &&& !(e.head is MutWrite)
    &&& forall|i: int| 0 <= i < e.kids.len() ==> effectless(#[trigger] e.kids[i])
}

pub open spec fn all_clear(txn: Seq<NameS>, es: Seq<ExprS>) -> bool {
    forall|i: int| 0 <= i < es.len() ==> clear(txn, #[trigger] es[i])
}

pub open spec fn all_effectless(es: Seq<ExprS>) -> bool {
    forall|i: int| 0 <= i < es.len() ==> effectless(#[trigger] es[i])
}

pub open spec fn env_clear(txn: Seq<NameS>, env: Map<NameS, ExprS>) -> bool {
    forall|n: NameS| #[trigger] env.dom().contains(n) ==> clear(txn, env[n])
}

pub open spec fn env_effectless(env: Map<NameS, ExprS>) -> bool {
    forall|n: NameS| #[trigger] env.dom().contains(n) ==> effectless(env[n])
}

pub open spec fn defs_clear(txn: Seq<NameS>, ds: Seq<DefS>) -> bool {
    forall|i: int| 0 <= i < ds.len() ==> clear(txn, (#[trigger] ds[i]).def)
}

pub open spec fn feeds_clear(txn: Seq<NameS>, fs: Seq<FeedS>) -> bool {
    forall|i: int| 0 <= i < fs.len() ==> clear(txn, (#[trigger] fs[i]).value)
}

pub proof fn lemma_clear_shows(txn: Seq<NameS>, e: ExprS)
    ensures
        clear(txn, e) <==> !shows(SignS::Begin, e) && !shows(SignS::Writes(txn), e),
    decreases e,
{
    assert forall|i: int| 0 <= i < e.kids.len() implies (clear(txn, #[trigger] e.kids[i]) <==> !shows(
        SignS::Begin,
        e.kids[i],
    ) && !shows(SignS::Writes(txn), e.kids[i])) by {
        lemma_clear_shows(txn, e.kids[i]);
    }
}

pub proof fn lemma_effectless_clear(txn: Seq<NameS>, e: ExprS)
    requires
        effectless(e),
    ensures
        clear(txn, e),
    decreases e,
{
    assert forall|i: int| 0 <= i < e.kids.len() implies clear(txn, #[trigger] e.kids[i]) by {
        lemma_effectless_clear(txn, e.kids[i]);
    }
}

/// A substitution that puts in what is effectless leaves what is effectless so.
pub proof fn lemma_effectless_sub(in_place: bool, sigma: SubstS, e: ExprS)
    requires
        effectless(e),
        forall|n: NameS| #[trigger]
            sigma.dom().contains(n) && sigma[n] is Discharge ==> effectless(sigma[n]->Discharge_0),
    ensures
        effectless(sub_expr(in_place, sigma, e)),
    decreases e,
{
    if is_live(sigma, e) && !(e.head is Var && sigma.dom().contains(e.head->Var_0)) {
        let ks = sub_kids(in_place, sigma, e);
        let out = sub_expr(in_place, sigma, e);
        assert forall|i: int| 0 <= i < ks.len() implies effectless(#[trigger] ks[i]) by {
            assert(effectless(e.kids[i]));
            lemma_effectless_sub(in_place, without(sigma, scope_of(e.head, i)), e.kids[i]);
        }
        assert(out.kids == ks);
    }
}

proof fn lemma_effectless_discharged(env: Map<NameS, ExprS>, e: ExprS)
    requires
        env_effectless(env),
        effectless(e),
    ensures
        discharged(env, e) matches Some(b) ==> effectless(b),
{
    lemma_effectless_sub(true, env_subst(env, e), e);
}

/// Whether what the block `b` computes is computed without effects: what it
/// binds, writes, replies and chooses by.
pub open spec fn block_plain(b: ExprS) -> bool
    decreases b, 1int,
{
    match b.head {
        HeadS::Let(_) => b.kids.len() == 2 ==> effectless(b.kids[0]) && block_plain(b.kids[1]),
        HeadS::ExprStmt => b.kids.len() == 2 ==> statement_plain(b.kids[0]) && block_plain(
            b.kids[1],
        ),
        _ => true,
    }
}

pub open spec fn statement_plain(e: ExprS) -> bool
    decreases e, 0int,
{
    match e.head {
        HeadS::MutWrite(_) => all_effectless(e.kids),
        HeadS::Feed(_) => all_effectless(e.kids),
        HeadS::Case(false, _) => forall|i: int|
            0 <= i < e.kids.len() ==> if i % 2 == 0 {
                effectless(#[trigger] e.kids[i])
            } else {
                block_plain(e.kids[i])
            },
        _ => true,
    }
}

pub open spec fn taps_effectless(taps: Seq<TapS>) -> bool {
    forall|i: int|
        0 <= i < taps.len() ==> effectless((#[trigger] taps[i]).value) && effectless(taps[i].path)
}

pub open spec fn walk_effectless(w: WalkS) -> bool {
    &&& env_effectless(w.env)
    &&& all_effectless(w.commits)
    &&& taps_effectless(w.taps)
}

pub open spec fn arms_effectless(arms: Seq<ArmS>) -> bool {
    forall|i: int|
        0 <= i < arms.len() ==> effectless((#[trigger] arms[i]).guard) && env_effectless(
            arms[i].env,
        )
}

proof fn lemma_logic(k: LogicKind, a: ExprS, b: ExprS)
    requires
        effectless(a),
        effectless(b),
    ensures
        effectless(logic_s(k, a, b)),
{
    let e = logic_s(k, a, b);
    assert forall|i: int| 0 <= i < e.kids.len() implies effectless(#[trigger] e.kids[i]) by {
        if i == 0 {
        } else {
            assert(i == 1);
        }
    }
}

proof fn lemma_and(a: ExprS, b: ExprS)
    requires
        effectless(a),
        effectless(b),
    ensures
        effectless(and_s(a, b)),
{
    lemma_logic(LogicKind::And, a, b);
}

proof fn lemma_none_hold(priors: Seq<ExprS>, n: nat)
    requires
        all_effectless(priors),
        n <= priors.len(),
    ensures
        effectless(none_hold(priors, n)),
    decreases n,
{
    if n > 0 {
        lemma_none_hold(priors, (n - 1) as nat);
        let e = not_s(priors[n - 1]);
        assert(effectless(priors[n - 1]));
        assert forall|i: int| 0 <= i < e.kids.len() implies effectless(#[trigger] e.kids[i]) by {
            assert(i == 0);
        }
        lemma_and(none_hold(priors, (n - 1) as nat), e);
    }
}

proof fn lemma_some_hold(paths: Seq<ExprS>, n: nat)
    requires
        all_effectless(paths),
        n <= paths.len(),
    ensures
        some_hold(paths, n) matches Some(d) ==> effectless(d),
    decreases n,
{
    if n > 0 {
        lemma_some_hold(paths, (n - 1) as nat);
        assert(effectless(paths[n - 1]));
        if let Some(d) = some_hold(paths, (n - 1) as nat) {
            lemma_logic(LogicKind::Or, d, paths[n - 1]);
        }
    }
}

pub proof fn lemma_disjoined(paths: Seq<ExprS>)
    requires
        all_effectless(paths),
    ensures
        effectless(disjoined(paths)),
{
    lemma_some_hold(paths, paths.len());
}

proof fn lemma_rejoined(snap: Map<NameS, ExprS>, arms: Seq<ArmS>, writes: Seq<NameS>, n: nat)
    requires
        env_effectless(snap),
        arms_effectless(arms),
        n <= writes.len(),
    ensures
        rejoined(snap, arms, writes, n) matches Some(m) ==> env_effectless(m),
    decreases n,
{
    if n > 0 {
        lemma_rejoined(snap, arms, writes, (n - 1) as nat);
        let k = writes[n - 1];
        if all_carry(snap, arms, k) {
            let e = rejoined_value(snap, arms, k);
            reveal(rejoined_kids);
            assert forall|i: int| 0 <= i < e.kids.len() implies effectless(#[trigger] e.kids[i]) by {
                let a = arms[i / 2];
                assert(0 <= i / 2 < arms.len());
                assert(effectless(a.guard) && env_effectless(a.env));
                assert(carried(snap, arms, k, i / 2) is Some);
            }
            assert(effectless(e));
        }
    }
}

pub proof fn lemma_walked(block: ExprS, path: ExprS, writes: Seq<NameS>, st: WalkS)
    requires
        block_plain(block),
        effectless(path),
        walk_effectless(st),
    ensures
        walked(block, path, writes, st) matches Some(w) ==> walk_effectless(w),
    decreases block, 2int, 0nat,
{
    match block.head {
        HeadS::Let(n) => if block.kids.len() == 2 {
            lemma_effectless_discharged(st.env, block.kids[0]);
            if let Some(b) = discharged(st.env, block.kids[0]) {
                lemma_walked(
                    block.kids[1],
                    path,
                    writes,
                    WalkS { env: st.env.insert(n, b), ..st },
                );
            }
        },
        HeadS::ExprStmt => if block.kids.len() == 2 {
            lemma_walked_stmt(block.kids[0], path, writes, st);
            if let Some(s) = walked_stmt(block.kids[0], path, writes, st) {
                lemma_walked(block.kids[1], path, writes, s);
            }
        },
        _ => {},
    }
}

proof fn lemma_walked_stmt(e: ExprS, path: ExprS, writes: Seq<NameS>, st: WalkS)
    requires
        statement_plain(e),
        effectless(path),
        walk_effectless(st),
    ensures
        walked_stmt(e, path, writes, st) matches Some(w) ==> walk_effectless(w),
    decreases e, 1int, 0nat,
{
    match e.head {
        HeadS::MutWrite(n) => if e.kids.len() == 1 {
            assert(effectless(e.kids[0]));
            lemma_effectless_discharged(st.env, e.kids[0]);
        },
        HeadS::Feed(n) => if e.kids.len() == 1 {
            assert(effectless(e.kids[0]));
            lemma_effectless_discharged(st.env, e.kids[0]);
        },
        HeadS::Case(false, _) => {
            lemma_walked_arms(e, path, writes, st, e.kids.len() / 2);
            if let Some((arms, s)) = walked_arms(e, path, writes, st, e.kids.len() / 2) {
                lemma_rejoined(st.env, arms, writes, writes.len());
            }
        },
        _ => {},
    }
}

proof fn lemma_walked_arms(e: ExprS, path: ExprS, writes: Seq<NameS>, st: WalkS, n: nat)
    requires
        statement_plain(e),
        e.head matches HeadS::Case(false, _),
        effectless(path),
        walk_effectless(st),
    ensures
        walked_arms(e, path, writes, st, n) matches Some((arms, w)) ==> arms_effectless(arms)
            && walk_effectless(w),
    decreases e, 0int, n,
{
    if n > 0 && 2 * n <= e.kids.len() {
        lemma_walked_arms(e, path, writes, st, (n - 1) as nat);
        if let Some((arms, s)) = walked_arms(e, path, writes, st, (n - 1) as nat) {
            let g = 2 * n - 2;
            assert(g % 2 == 0 && (g + 1) % 2 == 1);
            assert(effectless(e.kids[g]));
            assert(block_plain(e.kids[g + 1]));
            lemma_effectless_discharged(st.env, e.kids[g]);
            if let Some(guard) = discharged(st.env, e.kids[g]) {
                let priors = arm_guards(arms);
                assert(all_effectless(priors));
                lemma_none_hold(priors, priors.len());
                lemma_and(none_hold(priors, priors.len()), guard);
                lemma_and(path, arm_predicate(guard, priors));
                lemma_walked(
                    e.kids[g + 1],
                    and_s(path, arm_predicate(guard, priors)),
                    writes,
                    WalkS { env: st.env, ..s },
                );
            }
        }
    }
}

} // verus!
