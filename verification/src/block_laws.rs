//! The law that the decision of a transaction is what running its block comes to.

use vstd::prelude::*;
use crate::ast::{ExprS, HeadS, LogicKind};
use crate::capture::discharged;
use crate::decision::{
    TapS, and_s, arm_predicate, disjoined, is_true, logic_s, none_hold, not_s, said_before,
    some_always, some_hold, truth,
};
use crate::equality::expr_eq;
use crate::meaning::{Model, Val, Valuation, first_arm, guards_only, is_held, meant, setting};
use crate::meaning_laws::{
    agree_on, law_discharging_keeps_the_meaning, lemma_equal_terms_mean_the_same,
    lemma_meant_by_free_names, stands_for_names, under_env,
};
use crate::name::NameS;
use crate::scope::{free_in_value, scope_of};
use crate::subst_laws::leafy;
use crate::walk::{
    ArmS, WalkS, all_carry, arm_guards, carried, changed, no_patterns, rejoined, rejoined_kids,
    rejoined_value, same_term, stands_for, walked, walked_arms, walked_stmt,
};

verus! {

/// A reply that a block makes: the handle it goes to and what is sent.
pub struct Reply {
    pub to: NameS,
    pub sent: Val,
}

/// What running a block comes to: what the names mean behind it, whether control
/// reached a write or a reply, and the replies in the order they are made.
pub struct Ran {
    pub rho: Valuation,
    pub acted: bool,
    pub replies: Seq<Reply>,
}

/// Nothing done.
pub open spec fn idle(rho: Valuation) -> Ran {
    Ran { rho, acted: false, replies: Seq::empty() }
}

/// One after the other.
pub open spec fn one_by_one(a: Ran, b: Ran) -> Ran {
    Ran { rho: b.rho, acted: a.acted || b.acted, replies: a.replies + b.replies }
}

/// What running `block` comes to, where the names mean `rho`. A write changes what its
/// variable means for what follows it. Of the arms of a choice the first runs whose
/// guard holds, and only the variables of `writes` keep what it gave them.
pub open spec fn run_block(m: Model, rho: Valuation, writes: Seq<NameS>, block: ExprS) -> Ran
    decreases block, 3nat,
{
    match block.head {
        HeadS::Let(n) if block.kids.len() == 2 => run_block(
            m,
            setting(rho, n, meant(m, rho, block.kids[0])),
            writes,
            block.kids[1],
        ),
        HeadS::ExprStmt if block.kids.len() == 2 => {
            let s = run_stmt(m, rho, writes, block.kids[0]);
            one_by_one(s, run_block(m, s.rho, writes, block.kids[1]))
        },
        _ => idle(rho),
    }
}

/// What running one statement comes to.
pub open spec fn run_stmt(m: Model, rho: Valuation, writes: Seq<NameS>, e: ExprS) -> Ran
    decreases e, 2nat,
{
    match e.head {
        HeadS::MutWrite(n) if e.kids.len() == 1 => Ran {
            rho: setting(rho, n, meant(m, rho, e.kids[0])),
            acted: true,
            replies: Seq::empty(),
        },
        HeadS::Feed(n) if e.kids.len() == 1 => Ran {
            rho,
            acted: true,
            replies: seq![Reply { to: n, sent: meant(m, rho, e.kids[0]).val }],
        },
        HeadS::Case(false, _) => match taken_arm(m, rho, e, e.kids.len() / 2) {
            Some(i) => if 0 <= 2 * i + 1 < e.kids.len() {
                let r = run_block(m, rho, writes, e.kids[2 * i + 1]);
                Ran { rho: kept_of(rho, writes, r.rho), ..r }
            } else {
                idle(rho)
            },
            None => idle(rho),
        },
        _ => idle(rho),
    }
}

/// `rho`, with the names `writes` meaning what they mean in `after`.
pub open spec fn kept_of(rho: Valuation, writes: Seq<NameS>, after: Valuation) -> Valuation {
    |k: NameS| if writes.contains(k) { after(k) } else { rho(k) }
}

/// Whether the guard of arm `i` holds.
pub open spec fn guard_held(m: Model, rho: Valuation, e: ExprS, i: int) -> bool {
    is_held(meant(m, rho, e.kids[2 * i]))
}

/// The first of the first `n` arms whose guard holds.
pub open spec fn taken_arm(m: Model, rho: Valuation, e: ExprS, n: nat) -> Option<int>
    decreases n,
{
    if n == 0 {
        None
    } else {
        match taken_arm(m, rho, e, (n - 1) as nat) {
            Some(i) => Some(i),
            None => if guard_held(m, rho, e, n - 1) {
                Some(n - 1)
            } else {
                None
            },
        }
    }
}

/// Whether `e` is formed as terms are: a choice of nothing has a guard and a body for
/// each arm and no patterns, and lets and writes give values to names.
pub open spec fn sets_names(e: ExprS) -> bool
    decreases e,
{
    &&& e.head matches HeadS::Let(n) ==> !(n is PiBound)
    &&& e.head matches HeadS::MutWrite(n) ==> !(n is PiBound)
    &&& e.head matches HeadS::Case(false, ps) ==> e.kids.len() == 2 * ps.len() && guards_only(ps)
    &&& forall|i: int| 0 <= i < e.kids.len() ==> sets_names(#[trigger] e.kids[i])
}

/// Whether one of the conditions from `from` on holds.
pub open spec fn one_held(m: Model, rho: Valuation, paths: Seq<ExprS>, from: int) -> bool {
    exists|i: int| from <= i < paths.len() && is_held(meant(m, rho, #[trigger] paths[i]))
}

/// The replies among the first `n` whose condition holds.
pub open spec fn fired(m: Model, rho: Valuation, taps: Seq<TapS>, n: nat) -> Seq<Reply>
    decreases n,
{
    if n == 0 || n > taps.len() {
        Seq::empty()
    } else {
        let before = fired(m, rho, taps, (n - 1) as nat);
        let t = taps[n - 1];
        if is_held(meant(m, rho, t.path)) {
            before.push(Reply { to: t.defer, sent: meant(m, rho, t.value).val })
        } else {
            before
        }
    }
}

proof fn lemma_fired_grows(m: Model, rho: Valuation, a: Seq<TapS>, b: Seq<TapS>, n: nat)
    requires
        a.len() <= b.len(),
        n <= a.len(),
        forall|i: int| 0 <= i < a.len() ==> a[i] == #[trigger] b[i],
    ensures
        fired(m, rho, a, n) == fired(m, rho, b, n),
    decreases n,
{
    if n > 0 {
        lemma_fired_grows(m, rho, a, b, (n - 1) as nat);
        assert(a[n - 1] == b[n - 1]);
    }
}

/// A conjunction holds where both conditions do.
pub proof fn lemma_and_held(m: Model, rho: Valuation, a: ExprS, b: ExprS)
    ensures
        is_held(meant(m, rho, and_s(a, b))) <==> is_held(meant(m, rho, a)) && is_held(
            meant(m, rho, b),
        ),
{
    let e = logic_s(LogicKind::And, a, b);
    assert(e.kids[0] == a && e.kids[1] == b);
}

proof fn lemma_none_held(m: Model, rho: Valuation, priors: Seq<ExprS>, n: nat)
    requires
        n <= priors.len(),
    ensures
        is_held(meant(m, rho, none_hold(priors, n))) <==> forall|j: int|
            0 <= j < n ==> !is_held(meant(m, rho, #[trigger] priors[j])),
    decreases n,
{
    if n > 0 {
        lemma_none_held(m, rho, priors, (n - 1) as nat);
        let before = none_hold(priors, (n - 1) as nat);
        let last = not_s(priors[n - 1]);
        assert(last.kids[0] == priors[n - 1]);
        lemma_and_held(m, rho, before, last);
    }
}

/// An arm is taken where its guard holds and no earlier one does.
pub proof fn lemma_arm_held(m: Model, rho: Valuation, guard: ExprS, priors: Seq<ExprS>)
    ensures
        is_held(meant(m, rho, arm_predicate(guard, priors))) <==> is_held(meant(m, rho, guard)) && forall|
            j: int,
        | 0 <= j < priors.len() ==> !is_held(meant(m, rho, #[trigger] priors[j])),
{
    lemma_none_held(m, rho, priors, priors.len());
    lemma_and_held(m, rho, none_hold(priors, priors.len()), guard);
}

proof fn lemma_some_held(m: Model, rho: Valuation, paths: Seq<ExprS>, n: nat)
    requires
        n <= paths.len(),
    ensures
        match some_hold(paths, n) {
            Some(d) => is_held(meant(m, rho, d)) <==> exists|i: int|
                0 <= i < n && is_held(meant(m, rho, #[trigger] paths[i])),
            None => n == 0,
        },
    decreases n,
{
    if n > 0 {
        lemma_some_held(m, rho, paths, (n - 1) as nat);
        if said_before(paths, n - 1) {
            let j = choose|j: int| 0 <= j < n - 1 && expr_eq(#[trigger] paths[j], paths[n - 1]);
            lemma_equal_terms_mean_the_same(m, rho, paths[j], paths[n - 1]);
            assert(is_held(meant(m, rho, paths[n - 1])) == is_held(meant(m, rho, paths[j])));
        } else {
            match some_hold(paths, (n - 1) as nat) {
                Some(d) => {
                    let e = logic_s(LogicKind::Or, d, paths[n - 1]);
                    assert(e.kids[0] == d && e.kids[1] == paths[n - 1]);
                },
                None => {},
            }
            assert(is_held(meant(m, rho, paths[n - 1])) == is_held(meant(m, rho, paths[n - 1])));
        }
    }
}

/// A disjunction of conditions holds where one of them does.
pub proof fn law_disjunction(m: Model, rho: Valuation, paths: Seq<ExprS>)
    ensures
        is_held(meant(m, rho, disjoined(paths))) <==> one_held(m, rho, paths, 0),
{
    lemma_some_held(m, rho, paths, paths.len());
    if some_always(paths) {
        let i = choose|i: int| 0 <= i < paths.len() && is_true(#[trigger] paths[i]);
        assert(is_held(meant(m, rho, paths[i])));
    }
}

/// Whether walking from `st` to `end` under the condition `path` records `r`: what the
/// names mean behind it, that it acts, and its replies.
spec fn records(m: Model, rho: Valuation, path: ExprS, st: WalkS, end: WalkS, r: Ran) -> bool {
    let on = is_held(meant(m, rho, path));
    &&& stands_for_names(end.env)
    &&& forall|n: NameS| #[trigger] st.env.dom().contains(n) ==> end.env.dom().contains(n)
    &&& under_env(m, rho, end.env) == r.rho
    &&& records_acts(m, rho, st, end, on && r.acted)
    &&& records_replies(m, rho, st, end, if on { r.replies } else { Seq::empty() })
}

/// Whether a condition added since `st` holds exactly where `acted`.
spec fn records_acts(m: Model, rho: Valuation, st: WalkS, end: WalkS, acted: bool) -> bool {
    &&& st.commits.len() <= end.commits.len()
    &&& forall|i: int| 0 <= i < st.commits.len() ==> st.commits[i] == #[trigger] end.commits[i]
    &&& one_held(m, rho, end.commits, st.commits.len() as int) == acted
}

/// Whether the replies added since `st` whose condition holds are `replies`.
spec fn records_replies(m: Model, rho: Valuation, st: WalkS, end: WalkS, replies: Seq<Reply>) -> bool {
    &&& st.taps.len() <= end.taps.len()
    &&& forall|i: int| 0 <= i < st.taps.len() ==> st.taps[i] == #[trigger] end.taps[i]
    &&& fired(m, rho, end.taps, end.taps.len()) == fired(m, rho, st.taps, st.taps.len()) + replies
}

proof fn lemma_acts_chain(m: Model, rho: Valuation, a: WalkS, b: WalkS, c: WalkS, p: bool, q: bool)
    requires
        records_acts(m, rho, a, b, p),
        records_acts(m, rho, b, c, q),
    ensures
        records_acts(m, rho, a, c, p || q),
{
    let n = a.commits.len() as int;
    let k = b.commits.len() as int;
    assert forall|i: int| 0 <= i < n implies a.commits[i] == #[trigger] c.commits[i] by {
        assert(a.commits[i] == b.commits[i]);
        assert(b.commits[i] == c.commits[i]);
    }
    if one_held(m, rho, b.commits, n) {
        let i = choose|i: int| n <= i < b.commits.len() && is_held(meant(m, rho, #[trigger] b.commits[i]));
        assert(b.commits[i] == c.commits[i]);
        assert(is_held(meant(m, rho, c.commits[i])));
    }
    if one_held(m, rho, c.commits, k) {
        let i = choose|i: int| k <= i < c.commits.len() && is_held(meant(m, rho, #[trigger] c.commits[i]));
        assert(is_held(meant(m, rho, c.commits[i])));
    }
    if one_held(m, rho, c.commits, n) {
        let i = choose|i: int| n <= i < c.commits.len() && is_held(meant(m, rho, #[trigger] c.commits[i]));
        if i < k {
            assert(b.commits[i] == c.commits[i]);
            assert(is_held(meant(m, rho, b.commits[i])));
        } else {
            assert(is_held(meant(m, rho, c.commits[i])));
        }
    }
}

proof fn lemma_replies_chain(
    m: Model,
    rho: Valuation,
    a: WalkS,
    b: WalkS,
    c: WalkS,
    p: Seq<Reply>,
    q: Seq<Reply>,
)
    requires
        records_replies(m, rho, a, b, p),
        records_replies(m, rho, b, c, q),
    ensures
        records_replies(m, rho, a, c, p + q),
{
    assert forall|i: int| 0 <= i < a.taps.len() implies a.taps[i] == #[trigger] c.taps[i] by {
        assert(a.taps[i] == b.taps[i]);
        assert(b.taps[i] == c.taps[i]);
    }
    let f = fired(m, rho, a.taps, a.taps.len());
    assert((f + p) + q =~= f + (p + q));
}

proof fn lemma_no_acts(m: Model, rho: Valuation, st: WalkS, end: WalkS)
    requires
        st.commits == end.commits,
    ensures
        records_acts(m, rho, st, end, false),
{
}

proof fn lemma_no_replies(m: Model, rho: Valuation, st: WalkS, end: WalkS)
    requires
        st.taps == end.taps,
    ensures
        records_replies(m, rho, st, end, Seq::empty()),
{
    let f = fired(m, rho, st.taps, st.taps.len());
    assert(f + Seq::empty() =~= f);
}

proof fn lemma_one_act(m: Model, rho: Valuation, st: WalkS, end: WalkS, path: ExprS)
    requires
        end.commits == st.commits.push(path),
    ensures
        records_acts(m, rho, st, end, is_held(meant(m, rho, path))),
{
    let k = st.commits.len() as int;
    assert(end.commits[k] == path);
    if is_held(meant(m, rho, path)) {
        assert(is_held(meant(m, rho, end.commits[k])));
    }
}

/// Giving a name a term gives it the term's meaning.
pub proof fn lemma_env_set(m: Model, rho: Valuation, env: Map<NameS, ExprS>, n: NameS, t: ExprS)
    ensures
        under_env(m, rho, env.insert(n, t)) == setting(under_env(m, rho, env), n, meant(m, rho, t)),
{
    assert(under_env(m, rho, env.insert(n, t)) =~= setting(
        under_env(m, rho, env),
        n,
        meant(m, rho, t),
    ));
}

proof fn lemma_taken(m: Model, rho: Valuation, e: ExprS, n: nat)
    ensures
        match taken_arm(m, rho, e, n) {
            Some(i) => 0 <= i < n && guard_held(m, rho, e, i) && forall|j: int|
                0 <= j < i ==> !#[trigger] guard_held(m, rho, e, j),
            None => forall|j: int| 0 <= j < n ==> !#[trigger] guard_held(m, rho, e, j),
        },
    decreases n,
{
    if n > 0 {
        lemma_taken(m, rho, e, (n - 1) as nat);
    }
}

/// Whether the first `n` arms of `e` stand for what running them comes to.
spec fn arms_follow(
    m: Model,
    rho: Valuation,
    writes: Seq<NameS>,
    st: WalkS,
    e: ExprS,
    arms: Seq<ArmS>,
) -> bool {
    let here = under_env(m, rho, st.env);
    forall|i: int|
        0 <= i < arms.len() ==> arm_follows(m, rho, here, writes, st, e, #[trigger] arms[i], i)
}

spec fn arm_follows(
    m: Model,
    rho: Valuation,
    here: Valuation,
    writes: Seq<NameS>,
    st: WalkS,
    e: ExprS,
    arm: ArmS,
    i: int,
) -> bool {
    &&& meant(m, rho, arm.guard) == meant(m, here, e.kids[2 * i])
    &&& stands_for_names(arm.env)
    &&& forall|n: NameS| #[trigger] st.env.dom().contains(n) ==> arm.env.dom().contains(n)
    &&& under_env(m, rho, arm.env) == run_block(m, here, writes, e.kids[2 * i + 1]).rho
}

/// What the arm that is taken comes to.
spec fn arm_ran(m: Model, here: Valuation, writes: Seq<NameS>, e: ExprS, i: Option<int>) -> Ran {
    match i {
        Some(i) => run_block(m, here, writes, e.kids[2 * i + 1]),
        None => idle(here),
    }
}

proof fn lemma_arms(
    m: Model,
    rho: Valuation,
    e: ExprS,
    path: ExprS,
    writes: Seq<NameS>,
    st: WalkS,
    n: nat,
)
    requires
        walked_arms(e, path, writes, st, n) is Some,
        2 * n <= e.kids.len(),
        leafy(e),
        sets_names(e),
        !(e.head is Var),
        stands_for_names(st.env),
        forall|i: int| 0 <= i < writes.len() ==> !((#[trigger] writes[i]) is PiBound),
    ensures
        ({
            let (arms, end) = walked_arms(e, path, writes, st, n)->0;
            let here = under_env(m, rho, st.env);
            let r = arm_ran(m, here, writes, e, taken_arm(m, here, e, n));
            let on = is_held(meant(m, rho, path));
            &&& arms.len() == n
            &&& arms_follow(m, rho, writes, st, e, arms)
            &&& records_acts(m, rho, st, end, on && r.acted)
            &&& records_replies(m, rho, st, end, if on { r.replies } else { Seq::empty() })
        }),
    decreases e, 0int, n,
{
    let here = under_env(m, rho, st.env);
    let on = is_held(meant(m, rho, path));
    if n == 0 {
        lemma_no_acts(m, rho, st, st);
        lemma_no_replies(m, rho, st, st);
        assert(idle(here).replies =~= Seq::empty());
    } else {
        lemma_arms(m, rho, e, path, writes, st, (n - 1) as nat);
        let (arms, s) = walked_arms(e, path, writes, st, (n - 1) as nat)->0;
        let g = e.kids[2 * n - 2];
        let body = e.kids[2 * n - 1];
        let guard = discharged(st.env, g)->0;
        law_discharging_keeps_the_meaning(m, rho, st.env, g);
        let arm_path = and_s(path, arm_predicate(guard, arm_guards(arms)));
        let from = WalkS { env: st.env, ..s };
        lemma_blocks(m, rho, body, arm_path, writes, from);
        let t = walked(body, arm_path, writes, from)->0;
        let r = run_block(m, here, writes, body);
        let before = taken_arm(m, here, e, (n - 1) as nat);
        let rb = arm_ran(m, here, writes, e, before);
        lemma_taken(m, here, e, (n - 1) as nat);
        lemma_and_held(m, rho, path, arm_predicate(guard, arm_guards(arms)));
        lemma_arm_held(m, rho, guard, arm_guards(arms));
        let held = guard_held(m, here, e, n - 1);
        assert(is_held(meant(m, rho, arm_path)) <==> on && held && before is None) by {
            assert forall|j: int| 0 <= j < n - 1 implies is_held(
                meant(m, rho, #[trigger] arm_guards(arms)[j]),
            ) == guard_held(m, here, e, j) by {
                assert(arm_follows(m, rho, here, writes, st, e, arms[j], j));
            }
            if before is Some {
                let i = before->0;
                assert(guard_held(m, here, e, i));
                assert(is_held(meant(m, rho, arm_guards(arms)[i])));
            } else {
                assert forall|j: int| 0 <= j < arm_guards(arms).len() implies !is_held(
                    meant(m, rho, #[trigger] arm_guards(arms)[j]),
                ) by {
                    assert(!guard_held(m, here, e, j));
                }
            }
        }
        let arm_on = is_held(meant(m, rho, arm_path));
        lemma_acts_chain(m, rho, st, from, t, on && rb.acted, arm_on && r.acted);
        let p = if on { rb.replies } else { Seq::empty() };
        let q = if arm_on { r.replies } else { Seq::empty() };
        lemma_replies_chain(m, rho, st, from, t, p, q);
        let all = arm_ran(m, here, writes, e, taken_arm(m, here, e, n));
        assert((on && rb.acted) || (arm_on && r.acted) <==> on && all.acted);
        assert(p + q =~= if on { all.replies } else { Seq::empty() });
        let out = arms.push(ArmS { guard, env: t.env });
        assert forall|i: int| 0 <= i < out.len() implies arm_follows(
            m,
            rho,
            here,
            writes,
            st,
            e,
            #[trigger] out[i],
            i,
        ) by {
            if i < n - 1 {
                assert(arm_follows(m, rho, here, writes, st, e, arms[i], i));
            }
        }
    }
}

/// What a choice of the guards and values of arms means: the value behind the arm that
/// is taken.
pub proof fn lemma_choice_meant(m: Model, rho: Valuation, c: ExprS, i: int, j: nat)
    requires
        j <= i,
        2 * i + 1 < c.kids.len(),
        is_held(meant(m, rho, c.kids[2 * i])),
        forall|k: int| 0 <= k < i ==> !is_held(#[trigger] meant(m, rho, c.kids[2 * k])),
    ensures
        first_arm(m, rho, c, j) == meant(m, rho, c.kids[2 * i + 1]),
    decreases i - j,
{
    if j < i {
        lemma_choice_meant(m, rho, c, i, j + 1);
        assert(!is_held(meant(m, rho, c.kids[2 * (j as int)])));
    }
}

proof fn lemma_rejoined_value(
    m: Model,
    rho: Valuation,
    e: ExprS,
    writes: Seq<NameS>,
    st: WalkS,
    arms: Seq<ArmS>,
    i: int,
    k: NameS,
)
    requires
        arms_follow(m, rho, writes, st, e, arms),
        taken_arm(m, under_env(m, rho, st.env), e, arms.len()) == Some(i),
        0 <= i < arms.len(),
        changed(st.env, arms, k) ==> all_carry(st.env, arms, k),
    ensures
        changed(st.env, arms, k) ==> meant(m, rho, rejoined_value(st.env, arms, k)) == under_env(
            m,
            rho,
            arms[i].env,
        )(k),
        !changed(st.env, arms, k) ==> under_env(m, rho, st.env)(k) == under_env(
            m,
            rho,
            arms[i].env,
        )(k),
{
    let here = under_env(m, rho, st.env);
    assert(arm_follows(m, rho, here, writes, st, e, arms[i], i));
    if changed(st.env, arms, k) {
        let c = rejoined_value(st.env, arms, k);
        reveal(rejoined_kids);
        reveal(no_patterns);
        lemma_taken(m, here, e, arms.len());
        assert(carried(st.env, arms, k, i) is Some);
        assert(c.kids[2 * i] == arms[i].guard);
        assert(c.kids[2 * i + 1] == carried(st.env, arms, k, i)->0);
        assert(is_held(meant(m, rho, c.kids[2 * i]))) by {
            assert(guard_held(m, here, e, i));
        }
        assert forall|j: int| 0 <= j < i implies !is_held(
            #[trigger] meant(m, rho, c.kids[2 * j]),
        ) by {
            assert(arm_follows(m, rho, here, writes, st, e, arms[j], j));
            assert(c.kids[2 * j] == arms[j].guard);
            assert(!guard_held(m, here, e, j));
        }
        lemma_choice_meant(m, rho, c, i, 0);
        assert(guards_only(no_patterns(arms.len())));
    } else {
        assert(same_term(stands_for(arms[i].env, k), stands_for(st.env, k)));
        if arms[i].env.dom().contains(k) {
            lemma_equal_terms_mean_the_same(m, rho, arms[i].env[k], st.env[k]);
        }
    }
}

proof fn lemma_rejoined(
    m: Model,
    rho: Valuation,
    e: ExprS,
    writes: Seq<NameS>,
    st: WalkS,
    arms: Seq<ArmS>,
    i: int,
    n: nat,
)
    requires
        arms_follow(m, rho, writes, st, e, arms),
        taken_arm(m, under_env(m, rho, st.env), e, arms.len()) == Some(i),
        0 <= i < arms.len(),
        n <= writes.len(),
        rejoined(st.env, arms, writes, n) is Some,
        stands_for_names(st.env),
    ensures
        ({
            let env = rejoined(st.env, arms, writes, n)->0;
            &&& forall|k: NameS| #[trigger] st.env.dom().contains(k) ==> env.dom().contains(k)
            &&& forall|k: NameS| #[trigger]
                env.dom().contains(k) ==> arms[i].env.dom().contains(k) || st.env.dom().contains(k)
                    || writes.contains(k)
            &&& forall|k: NameS| #[trigger]
                under_env(m, rho, env)(k) == (if writes.take(n as int).contains(k) {
                    under_env(m, rho, arms[i].env)(k)
                } else {
                    under_env(m, rho, st.env)(k)
                })
        }),
    decreases n,
{
    if n > 0 {
        lemma_rejoined(m, rho, e, writes, st, arms, i, (n - 1) as nat);
        let k = writes[n - 1];
        lemma_rejoined_value(m, rho, e, writes, st, arms, i, k);
        let before = rejoined(st.env, arms, writes, (n - 1) as nat)->0;
        let env = rejoined(st.env, arms, writes, n)->0;
        assert(writes.take(n as int) =~= writes.take(n - 1).push(k));
        assert forall|x: NameS| #[trigger] under_env(m, rho, env)(x) == (if writes.take(
            n as int,
        ).contains(x) {
            under_env(m, rho, arms[i].env)(x)
        } else {
            under_env(m, rho, st.env)(x)
        }) by {
            let old = under_env(m, rho, before)(x);
            if x == k {
                assert(writes.take(n as int)[n - 1] == k);
            } else {
                assert(writes.take(n as int).contains(x) == writes.take(n - 1).contains(x)) by {
                    if writes.take(n as int).contains(x) {
                        let j = choose|j: int| 0 <= j < n && #[trigger] writes.take(n as int)[j] == x;
                        assert(writes.take(n - 1)[j] == x);
                    }
                    if writes.take(n - 1).contains(x) {
                        let j = choose|j: int| 0 <= j < n - 1 && #[trigger] writes.take(n - 1)[j] == x;
                        assert(writes.take(n as int)[j] == x);
                    }
                }
            }
        }
    } else {
        assert(writes.take(0) =~= Seq::empty());
    }
}

/// What a statement comes to is what walking it records.
proof fn lemma_stmt(
    m: Model,
    rho: Valuation,
    e: ExprS,
    path: ExprS,
    writes: Seq<NameS>,
    st: WalkS,
)
    requires
        walked_stmt(e, path, writes, st) is Some,
        leafy(e),
        sets_names(e),
        stands_for_names(st.env),
        forall|i: int| 0 <= i < writes.len() ==> !((#[trigger] writes[i]) is PiBound),
    ensures
        records(
            m,
            rho,
            path,
            st,
            walked_stmt(e, path, writes, st)->0,
            run_stmt(m, under_env(m, rho, st.env), writes, e),
        ),
    decreases e, 1int, 0nat,
{
    let here = under_env(m, rho, st.env);
    let end = walked_stmt(e, path, writes, st)->0;
    let r = run_stmt(m, here, writes, e);
    let on = is_held(meant(m, rho, path));
    match e.head {
        HeadS::MutWrite(n) => {
            law_discharging_keeps_the_meaning(m, rho, st.env, e.kids[0]);
            lemma_env_set(m, rho, st.env, n, discharged(st.env, e.kids[0])->0);
            lemma_one_act(m, rho, st, end, path);
            lemma_no_replies(m, rho, st, end);
            assert(r.replies =~= Seq::empty());
        },
        HeadS::Feed(n) => {
            law_discharging_keeps_the_meaning(m, rho, st.env, e.kids[0]);
            lemma_one_act(m, rho, st, end, path);
            let k = st.taps.len();
            lemma_fired_grows(m, rho, st.taps, end.taps, k);
            let f = fired(m, rho, st.taps, k);
            assert(end.taps.len() == k + 1);
            assert(fired(m, rho, end.taps, k + 1) =~= f + (if on {
                r.replies
            } else {
                Seq::empty()
            }));
        },
        HeadS::Case(false, ps) => {
            let n = e.kids.len() / 2;
            lemma_arms(m, rho, e, path, writes, st, n);
            let (arms, s) = walked_arms(e, path, writes, st, n)->0;
            lemma_taken(m, here, e, n);
            assert(guard_held(m, here, e, n - 1)) by {
                assert(e.kids[2 * (n - 1)] == e.kids[e.kids.len() - 2]);
            }
            let i = taken_arm(m, here, e, n)->0;
            assert(arm_follows(m, rho, here, writes, st, e, arms[i], i));
            lemma_rejoined(m, rho, e, writes, st, arms, i, writes.len());
            assert(writes.take(writes.len() as int) =~= writes);
            let ri = run_block(m, here, writes, e.kids[2 * i + 1]);
            assert(under_env(m, rho, end.env) =~= kept_of(here, writes, ri.rho));
            assert(stands_for_names(end.env)) by {
                assert forall|k: NameS| #[trigger] end.env.dom().contains(k) implies !(k is PiBound) by {
                    if writes.contains(k) {
                        let j = choose|j: int| 0 <= j < writes.len() && writes[j] == k;
                        assert(!(writes[j] is PiBound));
                    }
                }
            }
        },
        _ => {},
    }
}

/// What a block comes to is what walking it records.
proof fn lemma_blocks(
    m: Model,
    rho: Valuation,
    block: ExprS,
    path: ExprS,
    writes: Seq<NameS>,
    st: WalkS,
)
    requires
        walked(block, path, writes, st) is Some,
        leafy(block),
        sets_names(block),
        stands_for_names(st.env),
        forall|i: int| 0 <= i < writes.len() ==> !((#[trigger] writes[i]) is PiBound),
    ensures
        records(
            m,
            rho,
            path,
            st,
            walked(block, path, writes, st)->0,
            run_block(m, under_env(m, rho, st.env), writes, block),
        ),
    decreases block, 2int, 0nat,
{
    let here = under_env(m, rho, st.env);
    let end = walked(block, path, writes, st)->0;
    let on = is_held(meant(m, rho, path));
    match block.head {
        HeadS::Let(n) => {
            law_discharging_keeps_the_meaning(m, rho, st.env, block.kids[0]);
            let b = discharged(st.env, block.kids[0])->0;
            let mid = WalkS { env: st.env.insert(n, b), ..st };
            lemma_env_set(m, rho, st.env, n, b);
            lemma_blocks(m, rho, block.kids[1], path, writes, mid);
            assert forall|k: NameS| #[trigger] st.env.dom().contains(k) implies end.env.dom().contains(
                k,
            ) by {
                assert(mid.env.dom().contains(k));
            }
        },
        HeadS::ExprStmt => {
            let mid = walked_stmt(block.kids[0], path, writes, st)->0;
            let r1 = run_stmt(m, here, writes, block.kids[0]);
            lemma_stmt(m, rho, block.kids[0], path, writes, st);
            lemma_blocks(m, rho, block.kids[1], path, writes, mid);
            let r2 = run_block(m, r1.rho, writes, block.kids[1]);
            lemma_acts_chain(m, rho, st, mid, end, on && r1.acted, on && r2.acted);
            let p = if on { r1.replies } else { Seq::empty() };
            let q = if on { r2.replies } else { Seq::empty() };
            lemma_replies_chain(m, rho, st, mid, end, p, q);
            assert(p + q =~= if on { r1.replies + r2.replies } else { Seq::empty() });
            assert forall|k: NameS| #[trigger] st.env.dom().contains(k) implies end.env.dom().contains(
                k,
            ) by {
                assert(mid.env.dom().contains(k));
            }
        },
        _ => {
            lemma_no_acts(m, rho, st, st);
            lemma_no_replies(m, rho, st, st);
            assert(idle(here).replies =~= Seq::empty());
        },
    }
}

/// Walking a block as it starts says what running it comes to: behind it each name
/// stands for a term that means what the name means, the conditions collected hold where
/// control reaches a write or a reply, and the replies whose conditions hold are those
/// that are made, in order.
pub proof fn law_a_block_is_walked_as_it_runs(
    m: Model,
    rho: Valuation,
    block: ExprS,
    writes: Seq<NameS>,
    env: Map<NameS, ExprS>,
    counter: u64,
    end: WalkS,
)
    requires
        walked(
            block,
            truth(true),
            writes,
            WalkS { env, commits: Seq::empty(), taps: Seq::empty(), counter },
        ) == Some(end),
        leafy(block),
        sets_names(block),
        stands_for_names(env),
        forall|i: int| 0 <= i < writes.len() ==> !((#[trigger] writes[i]) is PiBound),
    ensures
        ({
            let r = run_block(m, under_env(m, rho, env), writes, block);
            &&& forall|n: NameS| #[trigger] under_env(m, rho, end.env)(n) == (r.rho)(n)
            &&& is_held(meant(m, rho, disjoined(end.commits))) == r.acted
            &&& fired(m, rho, end.taps, end.taps.len()) == r.replies
        }),
{
    let st = WalkS { env, commits: Seq::empty(), taps: Seq::empty(), counter };
    lemma_blocks(m, rho, block, truth(true), writes, st);
    law_disjunction(m, rho, end.commits);
    let r = run_block(m, under_env(m, rho, env), writes, block);
    assert(fired(m, rho, st.taps, 0) + r.replies =~= r.replies);
}

/// Whether two runs do the same, and leave alone what the valuations they started from
/// differ in.
pub open spec fn run_alike(a: Valuation, b: Valuation, p: Ran, q: Ran) -> bool {
    &&& p.acted == q.acted
    &&& p.replies == q.replies
    &&& forall|n: NameS| #[trigger] a(n) == b(n) ==> (p.rho)(n) == (q.rho)(n)
}

proof fn lemma_agree_kid(a: Valuation, b: Valuation, e: ExprS, i: int)
    requires
        agree_on(a, b, e),
        0 <= i < e.kids.len(),
        scope_of(e.head, i).len() == 0,
    ensures
        agree_on(a, b, e.kids[i]),
{
    assert forall|n: NameS| #[trigger] free_in_value(n, e.kids[i]) && !(n is PiBound) implies a(n)
        == b(n) by {
        assert(!scope_of(e.head, i).contains(n));
        assert(free_in_value(n, e));
    }
}

proof fn lemma_taken_alike(m: Model, a: Valuation, b: Valuation, e: ExprS, n: nat)
    requires
        2 * n <= e.kids.len(),
        forall|i: int| 0 <= i < e.kids.len() ==> agree_on(a, b, #[trigger] e.kids[i]),
    ensures
        taken_arm(m, a, e, n) == taken_arm(m, b, e, n),
    decreases n,
{
    if n > 0 {
        lemma_taken_alike(m, a, b, e, (n - 1) as nat);
        lemma_meant_by_free_names(m, a, b, e.kids[2 * (n - 1)]);
    }
}

/// A block runs by what its free names mean.
pub proof fn lemma_runs_by_free_names(
    m: Model,
    a: Valuation,
    b: Valuation,
    writes: Seq<NameS>,
    block: ExprS,
)
    requires
        agree_on(a, b, block),
        sets_names(block),
    ensures
        run_alike(a, b, run_block(m, a, writes, block), run_block(m, b, writes, block)),
    decreases block, 1nat,
{
    match block.head {
        HeadS::Let(x) => {
            if block.kids.len() == 2 {
                lemma_agree_kid(a, b, block, 0);
                lemma_meant_by_free_names(m, a, b, block.kids[0]);
                let d = meant(m, a, block.kids[0]);
                let a1 = setting(a, x, d);
                let b1 = setting(b, x, d);
                assert forall|n: NameS| #[trigger] free_in_value(n, block.kids[1]) && !(n is PiBound)
                    implies a1(n) == b1(n) by {
                    if n != x {
                        assert(!scope_of(block.head, 1).contains(n));
                        assert(free_in_value(n, block));
                    }
                }
                lemma_runs_by_free_names(m, a1, b1, writes, block.kids[1]);
                assert forall|n: NameS| #[trigger] a(n) == b(n) implies (run_block(
                    m,
                    a,
                    writes,
                    block,
                ).rho)(n) == (run_block(m, b, writes, block).rho)(n) by {
                    assert(a1(n) == b1(n));
                }
            }
        },
        HeadS::ExprStmt => {
            if block.kids.len() == 2 {
                lemma_agree_kid(a, b, block, 0);
                lemma_agree_kid(a, b, block, 1);
                lemma_stmts_by_free_names(m, a, b, writes, block.kids[0]);
                let p = run_stmt(m, a, writes, block.kids[0]);
                let q = run_stmt(m, b, writes, block.kids[0]);
                assert forall|n: NameS| #[trigger] free_in_value(n, block.kids[1]) && !(n is PiBound)
                    implies (p.rho)(n) == (q.rho)(n) by {
                    assert(a(n) == b(n));
                }
                lemma_runs_by_free_names(m, p.rho, q.rho, writes, block.kids[1]);
                assert forall|n: NameS| #[trigger] a(n) == b(n) implies (run_block(
                    m,
                    a,
                    writes,
                    block,
                ).rho)(n) == (run_block(m, b, writes, block).rho)(n) by {
                    assert((p.rho)(n) == (q.rho)(n));
                }
            }
        },
        _ => {},
    }
}

proof fn lemma_stmts_by_free_names(
    m: Model,
    a: Valuation,
    b: Valuation,
    writes: Seq<NameS>,
    e: ExprS,
)
    requires
        agree_on(a, b, e),
        sets_names(e),
    ensures
        run_alike(a, b, run_stmt(m, a, writes, e), run_stmt(m, b, writes, e)),
    decreases e, 0nat,
{
    match e.head {
        HeadS::MutWrite(n) => {
            if e.kids.len() == 1 {
                lemma_agree_kid(a, b, e, 0);
                lemma_meant_by_free_names(m, a, b, e.kids[0]);
            }
        },
        HeadS::Feed(n) => {
            if e.kids.len() == 1 {
                lemma_agree_kid(a, b, e, 0);
                lemma_meant_by_free_names(m, a, b, e.kids[0]);
            }
        },
        HeadS::Case(false, ps) => {
            assert forall|i: int| 0 <= i < e.kids.len() implies agree_on(a, b, #[trigger] e.kids[i]) by {
                assert(ps[i / 2] is None);
                lemma_agree_kid(a, b, e, i);
            }
            let n = e.kids.len() / 2;
            lemma_taken_alike(m, a, b, e, n);
            match taken_arm(m, a, e, n) {
                Some(i) => {
                    if 0 <= 2 * i + 1 < e.kids.len() {
                        lemma_runs_by_free_names(m, a, b, writes, e.kids[2 * i + 1]);
                    }
                },
                None => {},
            }
        },
        _ => {},
    }
}

} // verus!
