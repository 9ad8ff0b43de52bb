//! Running a transaction block over terms: what it writes, replies and commits.
use vstd::prelude::*;
use crate::ast::{
    Branch, Expr, ExprS, HeadS, Lit, LitS, PatternS, Type, TypeS, TypedExprNode,
    branch_kids_view, branch_tys_view, exprs_view, patterns_view,
};
use crate::capture::{discharged, opt_expr_view};
use crate::decision::{
    Tap, TapS, and_path, and_s, arm_predicate, is_true, synthesize_arm_predicate, taps_view,
};
use crate::equality::expr_eq;
use crate::layout::{cat4, put4};
use crate::make::term;
use crate::name::{Name, NameS, NameSupply, has_name, names_view};
use crate::name_map::NameMap;
use crate::subst::{env_view, lemma_seen_all, lemma_seen_step, seen};
use crate::substitution::Subst;
use crate::text::{nat_text, show_u64};
use crate::txn_terms::is_true_lit;

verus! {

/// How far a block has run.
pub struct WalkS {
    /// The term that each name stands for.
    pub env: Map<NameS, ExprS>,
    /// The conditions under which the block commits.
    pub commits: Seq<ExprS>,
    /// The replies.
    pub taps: Seq<TapS>,
    /// The number of the next reply.
    pub counter: u64,
}

pub struct Walk {
    pub env: NameMap<Expr>,
    pub commits: Vec<Expr>,
    pub taps: Vec<Tap>,
    pub counter: u64,
}

impl Walk {
    pub open spec fn view(&self) -> WalkS {
        WalkS {
            env: env_view(self.env.view()),
            commits: exprs_view(self.commits@),
            taps: taps_view(self.taps@),
            counter: self.counter,
        }
    }
}

/// One arm of a choice that has run: its guard, and what the names stand for
/// behind it.
pub struct ArmS {
    pub guard: ExprS,
    pub env: Map<NameS, ExprS>,
}

pub open spec fn arm_guards(arms: Seq<ArmS>) -> Seq<ExprS> {
    Seq::new(arms.len(), |i: int| arms[i].guard)
}

/// What a name stands for.
pub open spec fn stands_for(env: Map<NameS, ExprS>, n: NameS) -> Option<ExprS> {
    if env.dom().contains(n) {
        Some(env[n])
    } else {
        None
    }
}

pub open spec fn same_term(a: Option<ExprS>, b: Option<ExprS>) -> bool {
    match (a, b) {
        (Some(x), Some(y)) => expr_eq(x, y),
        (None, None) => true,
        _ => false,
    }
}

/// Whether some arm gives `n` another value.
pub open spec fn changed(snap: Map<NameS, ExprS>, arms: Seq<ArmS>, n: NameS) -> bool {
    exists|i: int|
        0 <= i < arms.len() && !same_term(
            stands_for((#[trigger] arms[i]).env, n),
            stands_for(snap, n),
        )
}

/// What `n` stands for behind arm `i`.
pub open spec fn carried(snap: Map<NameS, ExprS>, arms: Seq<ArmS>, n: NameS, i: int) -> Option<
    ExprS,
> {
    match stands_for(arms[i].env, n) {
        Some(e) => Some(e),
        None => stands_for(snap, n),
    }
}

/// Whether every arm has a value for `n`.
pub open spec fn all_carry(snap: Map<NameS, ExprS>, arms: Seq<ArmS>, n: NameS) -> bool {
    forall|i: int| 0 <= i < arms.len() ==> (#[trigger] carried(snap, arms, n, i)) is Some
}

/// The guards of the arms and the values of `n` behind them, arm by arm.
#[verifier::opaque]
pub open spec fn rejoined_kids(snap: Map<NameS, ExprS>, arms: Seq<ArmS>, n: NameS) -> Seq<ExprS> {
    Seq::new(
        2 * arms.len(),
        |k: int|
            if k % 2 == 0 {
                arms[k / 2].guard
            } else {
                carried(snap, arms, n, k / 2)->0
            },
    )
}

/// That many arms without patterns.
#[verifier::opaque]
pub open spec fn no_patterns(n: nat) -> Seq<Option<PatternS>> {
    Seq::new(n, |i: int| None::<PatternS>)
}

/// The value of `n` behind the choice: the choice of its values behind the arms.
pub open spec fn rejoined_value(snap: Map<NameS, ExprS>, arms: Seq<ArmS>, n: NameS) -> ExprS {
    let ty = match stands_for(snap, n) {
        Some(e) => e.ty(),
        None => (carried(snap, arms, n, 0)->0).ty(),
    };
    term(HeadS::Case(false, no_patterns(arms.len())), rejoined_kids(snap, arms, n), ty)
}

/// What the names stand for behind a choice, the first `n` of `writes` rejoined.
pub open spec fn rejoined(
    snap: Map<NameS, ExprS>,
    arms: Seq<ArmS>,
    writes: Seq<NameS>,
    n: nat,
) -> Option<Map<NameS, ExprS>>
    decreases n,
{
    if n == 0 {
        Some(snap)
    } else {
        let k = writes[n - 1];
        match rejoined(snap, arms, writes, (n - 1) as nat) {
            Some(m) => if changed(snap, arms, k) {
                if all_carry(snap, arms, k) {
                    Some(m.insert(k, rejoined_value(snap, arms, k)))
                } else {
                    None
                }
            } else {
                Some(m)
            },
            None => None,
        }
    }
}

/// Whether the arms of a choice end in one that is always taken.
pub open spec fn is_total(e: ExprS) -> bool {
    e.kids.len() >= 2 && is_true(e.kids[e.kids.len() - 2])
}

/// What a block makes of `st`, where it runs under the condition `path` and may
/// write `writes`. There is nothing where it holds what no block may hold.
pub open spec fn walked(block: ExprS, path: ExprS, writes: Seq<NameS>, st: WalkS) -> Option<WalkS>
    decreases block, 2int, 0nat,
{
    match block.head {
        HeadS::Lit(LitS::Unit) => Some(st),
        HeadS::Let(n) => if block.kids.len() == 2 {
            match discharged(st.env, block.kids[0]) {
                Some(b) => walked(
                    block.kids[1],
                    path,
                    writes,
                    WalkS { env: st.env.insert(n, b), ..st },
                ),
                None => None,
            }
        } else {
            None
        },
        HeadS::ExprStmt => if block.kids.len() == 2 {
            match walked_stmt(block.kids[0], path, writes, st) {
                Some(s) => walked(block.kids[1], path, writes, s),
                None => None,
            }
        } else {
            None
        },
        _ => None,
    }
}

/// What one statement of a block makes of `st`.
pub open spec fn walked_stmt(e: ExprS, path: ExprS, writes: Seq<NameS>, st: WalkS) -> Option<WalkS>
    decreases e, 1int, 0nat,
{
    match e.head {
        HeadS::MutWrite(n) => if e.kids.len() == 1 && writes.contains(n) {
            match discharged(st.env, e.kids[0]) {
                Some(v) => Some(
                    WalkS { env: st.env.insert(n, v), commits: st.commits.push(path), ..st },
                ),
                None => None,
            }
        } else {
            None
        },
        HeadS::Case(false, _) => if is_total(e) {
            match walked_arms(e, path, writes, st, e.kids.len() / 2) {
                Some((arms, s)) => match rejoined(st.env, arms, writes, writes.len()) {
                    Some(env) => Some(WalkS { env, ..s }),
                    None => None,
                },
                None => None,
            }
        } else {
            None
        },
        HeadS::Feed(n) => if e.kids.len() == 1 {
            match discharged(st.env, e.kids[0]) {
                Some(v) => Some(
                    WalkS {
                        commits: st.commits.push(path),
                        taps: st.taps.push(
                            TapS {
                                defer: n,
                                field: cat4("to_"@, n.base(), "_"@, nat_text(st.counter as nat)),
                                value: v,
                                path,
                            },
                        ),
                        counter: NameSupply::after(st.counter),
                        ..st
                    },
                ),
                None => None,
            }
        } else {
            None
        },
        _ => None,
    }
}

/// The first `n` arms of a choice, each run from where the choice starts.
pub open spec fn walked_arms(e: ExprS, path: ExprS, writes: Seq<NameS>, st: WalkS, n: nat) -> Option<
    (Seq<ArmS>, WalkS),
>
    decreases e, 0int, n,
{
    if n == 0 || 2 * n > e.kids.len() {
        Some((Seq::empty(), st))
    } else {
        match walked_arms(e, path, writes, st, (n - 1) as nat) {
            Some((arms, s)) => match discharged(st.env, e.kids[2 * n - 2]) {
                Some(guard) => match walked(
                    e.kids[2 * n - 1],
                    and_s(path, arm_predicate(guard, arm_guards(arms))),
                    writes,
                    WalkS { env: st.env, ..s },
                ) {
                    Some(t) => Some((arms.push(ArmS { guard, env: t.env }), t)),
                    None => None,
                },
                None => None,
            },
            None => None,
        }
    }
}

// ---- the executable side ----

/// A copy of an environment.
pub fn copy_env(env: &NameMap<Expr>) -> (r: NameMap<Expr>)
    ensures
        env_view(r.view()) == env_view(env.view()),
{
    let n: usize = env.len();
    let ghost keys = env.keys_view();
    let ghost m = env_view(env.view());
    let mut out: NameMap<Expr> = NameMap::new();
    let mut i: usize = 0;
    while i < n
        invariant
            i <= n,
            n == keys.len(),
            keys == env.keys_view(),
            m == env_view(env.view()),
            forall|k: NameS| #[trigger] out.view().dom().contains(k) <==> seen(keys, i as int, k),
            forall|k: NameS| #[trigger] out.view().dom().contains(k) ==> out.view()[k].view()
                == m[k],
        decreases n - i,
    {
        proof {
            lemma_seen_step(keys, i as int);
        }
        let key = env.key(i);
        let value = env.value(i).clone();
        let ghost before = out.view();
        out = out.inserted(key.clone(), value);
        assert(m[keys[i as int]] == value.view());
        i = i + 1;
    }
    proof {
        lemma_seen_all(keys);
        assert forall|k: NameS| #[trigger] m.dom().contains(k) <==> out.view().dom().contains(k) by {
            assert(env.view().dom().contains(k) <==> keys.contains(k));
        }
        assert(env_view(out.view()) =~= m);
    }
    out
}

pub struct Arm {
    pub guard: Expr,
    pub env: NameMap<Expr>,
}

impl Arm {
    pub open spec fn view(&self) -> ArmS {
        ArmS { guard: self.guard.view(), env: env_view(self.env.view()) }
    }
}

pub open spec fn arms_view(v: Seq<Arm>) -> Seq<ArmS> {
    Seq::new(v.len(), |i: int| v[i].view())
}

fn stored<'a>(env: &'a NameMap<Expr>, n: &Name) -> (r: Option<&'a Expr>)
    ensures
        match r {
            Some(e) => stands_for(env_view(env.view()), n@) == Some(e.view()),
            None => stands_for(env_view(env.view()), n@) is None,
        },
{
    assert(env_view(env.view()).dom() =~= env.view().dom());
    env.get(n)
}

fn is_changed(snap: &NameMap<Expr>, arms: &Vec<Arm>, n: &Name) -> (r: bool)
    ensures
        r == changed(env_view(snap.view()), arms_view(arms@), n@),
{
    let ghost sv = env_view(snap.view());
    let ghost av = arms_view(arms@);
    let mut i: usize = 0;
    while i < arms.len()
        invariant
            i <= arms.len(),
            sv == env_view(snap.view()),
            av == arms_view(arms@),
            forall|j: int|
                0 <= j < i ==> same_term(
                    stands_for((#[trigger] av[j]).env, n@),
                    stands_for(sv, n@),
                ),
        decreases arms.len() - i,
    {
        assert(av[i as int] == arms@[i as int].view());
        let same = match (stored(&arms[i].env, n), stored(snap, n)) {
            (Some(x), Some(y)) => x.same(y),
            (None, None) => true,
            _ => false,
        };
        if !same {
            return true;
        }
        i = i + 1;
    }
    false
}

spec fn branches_carry(
    snap: Map<NameS, ExprS>,
    arms: Seq<ArmS>,
    n: NameS,
    branches: Seq<Branch>,
    upto: int,
) -> bool {
    &&& branches.len() == upto
    &&& forall|j: int|
        0 <= j < upto ==> (#[trigger] branches[j]).pattern is None && branches[j].guard.view()
            == arms[j].guard && carried(snap, arms, n, j) == Some(branches[j].body.view())
}

/// The arms with the values that `n` has behind them.
fn carried_branches(snap: &NameMap<Expr>, arms: &Vec<Arm>, n: &Name) -> (r: Option<Vec<Branch>>)
    ensures
        match r {
            Some(bs) => branches_carry(
                env_view(snap.view()),
                arms_view(arms@),
                n@,
                bs@,
                arms@.len() as int,
            ),
            None => !all_carry(env_view(snap.view()), arms_view(arms@), n@),
        },
{
    let ghost sv = env_view(snap.view());
    let ghost av = arms_view(arms@);
    let mut branches: Vec<Branch> = Vec::new();
    let mut i: usize = 0;
    while i < arms.len()
        invariant
            i <= arms.len(),
            sv == env_view(snap.view()),
            av == arms_view(arms@),
            branches_carry(sv, av, n@, branches@, i as int),
        decreases arms.len() - i,
    {
        assert(av[i as int] == arms@[i as int].view());
        let body = match stored(&arms[i].env, n) {
            Some(e) => e.clone(),
            None => match stored(snap, n) {
                Some(e) => e.clone(),
                None => {
                    assert(carried(sv, av, n@, i as int) is None);
                    return None;
                },
            },
        };
        assert(carried(sv, av, n@, i as int) == Some(body.view()));
        branches.push(Branch { pattern: None, guard: arms[i].guard.clone(), body });
        i = i + 1;
    }
    Some(branches)
}

proof fn lemma_rejoined_kids(
    snap: Map<NameS, ExprS>,
    arms: Seq<ArmS>,
    n: NameS,
    branches: Seq<Branch>,
)
    requires
        branches_carry(snap, arms, n, branches, arms.len() as int),
    ensures
        all_carry(snap, arms, n),
        branch_kids_view(branches) == rejoined_kids(snap, arms, n),
        patterns_view(branches) == no_patterns(arms.len()),
{
    reveal(rejoined_kids);
    reveal(no_patterns);
    assert forall|j: int| 0 <= j < arms.len() implies (#[trigger] carried(
        snap,
        arms,
        n,
        j,
    )) is Some by {
        assert(branches[j].pattern is None);
    }
    let kids = branch_kids_view(branches);
    let want = rejoined_kids(snap, arms, n);
    assert(kids.len() == want.len());
    assert forall|k: int| 0 <= k < kids.len() implies kids[k] == want[k] by {
        let j = k / 2;
        assert(0 <= j < branches.len());
        assert(branches[j].pattern is None);
    }
    assert(kids =~= want);
    assert forall|j: int| 0 <= j < branches.len() implies #[trigger] patterns_view(branches)[j]
        == None::<PatternS> by {
        assert(branches[j].pattern is None);
    }
    assert(patterns_view(branches) =~= Seq::new(arms.len(), |i: int| None::<PatternS>));
}

/// The value of `n` behind a choice.
fn rejoin_value(snap: &NameMap<Expr>, arms: &Vec<Arm>, n: &Name) -> (r: Option<Expr>)
    requires
        arms@.len() > 0,
    ensures
        opt_expr_view(r) == (if all_carry(env_view(snap.view()), arms_view(arms@), n@) {
            Some(rejoined_value(env_view(snap.view()), arms_view(arms@), n@))
        } else {
            None
        }),
{
    let ghost sv = env_view(snap.view());
    let ghost av = arms_view(arms@);
    match carried_branches(snap, arms, n) {
        Some(branches) => {
            proof {
                lemma_rejoined_kids(sv, av, n@, branches@);
            }
            let ty = match stored(snap, n) {
                Some(e) => {
                    assert(e.view().tys[0] == e.ty.view());
                    e.ty.clone()
                },
                None => {
                    assert(branches@[0].pattern is None);
                    assert(branches@[0].body.view().tys[0] == branches@[0].body.ty.view());
                    branches[0].body.ty.clone()
                },
            };
            Some(plain_case(branches, ty))
        },
        None => None,
    }
}

/// A choice of these arms, at type `ty`.
fn plain_case(branches: Vec<Branch>, ty: Type) -> (r: Expr)
    requires
        forall|i: int| 0 <= i < branches@.len() ==> (#[trigger] branches@[i]).pattern is None,
    ensures
        r.view() == term(
            HeadS::Case(false, patterns_view(branches@)),
            branch_kids_view(branches@),
            ty.view(),
        ),
{
    proof {
        lemma_no_pattern_tys(branches@);
    }
    let out = Expr {
        node: TypedExprNode::Case { scrutinee: None, branches },
        ty,
        user_annotation: None,
    };
    assert(out.view().tys =~= seq![ty.view()]);
    out
}

proof fn lemma_arm_at(branches: Seq<Branch>, i: int)
    requires
        0 <= i < branches.len(),
    ensures
        branch_kids_view(branches).len() == 2 * branches.len(),
        branch_kids_view(branches)[2 * (i + 1) - 2] == branches[i].guard.view(),
        branch_kids_view(branches)[2 * (i + 1) - 1] == branches[i].body.view(),
{
    let k = branch_kids_view(branches);
    assert((2 * i) / 2 == i && (2 * i + 1) / 2 == i && (2 * i) % 2 == 0 && (2 * i + 1) % 2 == 1);
    assert(k[2 * i] == branches[i].guard.view());
    assert(k[2 * i + 1] == branches[i].body.view());
}

/// What the names stand for behind a choice.
#[verifier::loop_isolation(false)]
fn rejoin(snap: &NameMap<Expr>, arms: &Vec<Arm>, writes: &Vec<Name>) -> (r: Option<NameMap<Expr>>)
    requires
        arms@.len() > 0,
    ensures
        match rejoined(
            env_view(snap.view()),
            arms_view(arms@),
            names_view(writes@),
            writes@.len(),
        ) {
            Some(m) => (r matches Some(x) && env_view(x.view()) == m),
            None => r is None,
        },
{
    let ghost sv = env_view(snap.view());
    let ghost av = arms_view(arms@);
    let ghost wv = names_view(writes@);
    let mut out = copy_env(snap);
    let mut i: usize = 0;
    while i < writes.len()
        invariant
            i <= writes.len(),
            rejoined(sv, av, wv, i as nat) == Some(env_view(out.view())),
        decreases writes.len() - i,
    {
        assert(wv[i as int] == writes@[i as int]@);
        if is_changed(snap, arms, &writes[i]) {
            match rejoin_value(snap, arms, &writes[i]) {
                Some(e) => {
                    let ghost before = out.view();
                    out = out.inserted(writes[i].clone(), e);
                    assert(env_view(out.view()) =~= env_view(before).insert(
                        writes@[i as int]@,
                        e.view(),
                    ));
                },
                None => {
                    proof {
                        lemma_rejoined_stops(sv, av, wv, (i + 1) as nat, wv.len());
                    }
                    return None;
                },
            }
        }
        i = i + 1;
    }
    Some(out)
}

proof fn lemma_rejoined_stops(
    snap: Map<NameS, ExprS>,
    arms: Seq<ArmS>,
    writes: Seq<NameS>,
    i: nat,
    n: nat,
)
    requires
        i <= n,
        rejoined(snap, arms, writes, i) is None,
    ensures
        rejoined(snap, arms, writes, n) is None,
    decreases n,
{
    if i < n {
        lemma_rejoined_stops(snap, arms, writes, i, (n - 1) as nat);
    }
}

pub open spec fn opt_walk_view(w: Option<Walk>) -> Option<WalkS> {
    match w {
        Some(x) => Some(x.view()),
        None => None,
    }
}

/// Runs a block under the condition `path`.
pub fn walk_block(block: &Expr, path: &Expr, writes: &Vec<Name>, st: Walk) -> (r: Option<Walk>)
    ensures
        opt_walk_view(r) == walked(block.view(), path.view(), names_view(writes@), st.view()),
    decreases block.view(), 4int,
{
    let ghost bv = block.view();
    match &block.node {
        TypedExprNode::Lit(Lit::Unit) => Some(st),
        TypedExprNode::Let { binding, bound_expr, body } => {
            assert(bv.kids[0] == bound_expr.view());
            assert(bv.kids[1] == body.view());
            assert(decreases_to!(bv => bv.kids[1]));
            match Subst::try_discharge_env(bound_expr, &st.env) {
                Some(b) => {
                    let ghost before = st.view();
                    let Walk { env, commits, taps, counter } = st;
                    let ghost ev = env.view();
                    let env = env.inserted(binding.name.clone(), b);
                    assert(env_view(env.view()) =~= env_view(ev).insert(
                        binding.name@,
                        b.view(),
                    ));
                    walk_block(body, path, writes, Walk { env, commits, taps, counter })
                },
                None => None,
            }
        },
        TypedExprNode::ExprStmt { expr, body } => {
            assert(bv.kids[0] == expr.view());
            assert(bv.kids[1] == body.view());
            assert(decreases_to!(bv => bv.kids[0]));
            assert(decreases_to!(bv => bv.kids[1]));
            match walk_stmt(expr, path, writes, st) {
                Some(s) => walk_block(body, path, writes, s),
                None => None,
            }
        },
        _ => None,
    }
}

fn walk_stmt(e: &Expr, path: &Expr, writes: &Vec<Name>, st: Walk) -> (r: Option<Walk>)
    ensures
        opt_walk_view(r) == walked_stmt(e.view(), path.view(), names_view(writes@), st.view()),
    decreases e.view(), 3int,
{
    let ghost ev = e.view();
    match &e.node {
        TypedExprNode::MutWrite { name, value } => {
            assert(ev.kids[0] == value.view());
            if !has_name(writes, name) {
                return None;
            }
            match Subst::try_discharge_env(value, &st.env) {
                Some(v) => {
                    let Walk { env, commits, taps, counter } = st;
                    let ghost m = env.view();
                    let ghost cs = commits@;
                    let mut commits = commits;
                    let env = env.inserted(name.clone(), v);
                    commits.push(path.clone());
                    assert(env_view(env.view()) =~= env_view(m).insert(name@, v.view()));
                    assert(exprs_view(commits@) =~= exprs_view(cs).push(path.view()));
                    Some(Walk { env, commits, taps, counter })
                },
                None => None,
            }
        },
        TypedExprNode::Feed { name, value } => {
            assert(ev.kids[0] == value.view());
            match Subst::try_discharge_env(value, &st.env) {
                Some(v) => {
                    let Walk { env, commits, taps, counter } = st;
                    let ghost cs = commits@;
                    let ghost ts = taps@;
                    let mut commits = commits;
                    let mut taps = taps;
                    let field = put4(
                        "to_",
                        name.base().as_str(),
                        "_",
                        show_u64(counter).as_str(),
                    );
                    let tap = Tap { defer: name.clone(), field, value: v, path: path.clone() };
                    taps.push(tap);
                    commits.push(path.clone());
                    assert(exprs_view(commits@) =~= exprs_view(cs).push(path.view()));
                    assert(taps_view(taps@) =~= taps_view(ts).push(tap.view()));
                    let next: u64 = if counter == u64::MAX { 0 } else { counter + 1 };
                    Some(Walk { env, commits, taps, counter: next })
                },
                None => None,
            }
        },
        TypedExprNode::Case { scrutinee: None, branches } => walk_case(
            e,
            branches,
            path,
            writes,
            st,
        ),
        _ => None,
    }
}

/// Whether the arms of the choice `e` are these.
#[verifier::opaque]
spec fn arms_are(e: ExprS, branches: Seq<Branch>) -> bool {
    e.kids == branch_kids_view(branches)
}

/// Runs arm `i` of a choice.
fn walk_arm(
    e: &Expr,
    branches: &Vec<Branch>,
    i: usize,
    path: &Expr,
    writes: &Vec<Name>,
    snapshot: &NameMap<Expr>,
    priors: &Vec<Expr>,
    st: Walk,
) -> (r: Option<(Expr, Walk)>)
    requires
        i < branches@.len(),
        arms_are(e.view(), branches@),
    ensures
        match discharged(env_view(snapshot.view()), e.view().kids[2 * (i + 1) - 2]) {
            Some(g) => match walked(
                e.view().kids[2 * (i + 1) - 1],
                and_s(path.view(), arm_predicate(g, exprs_view(priors@))),
                names_view(writes@),
                WalkS { env: env_view(snapshot.view()), ..st.view() },
            ) {
                Some(t) => (r matches Some((x, w)) && x.view() == g && w.view() == t),
                None => r is None,
            },
            None => r is None,
        },
    decreases e.view(), 0int,
{
    let ghost ev = e.view();
    proof {
        reveal(arms_are);
        lemma_arm_at(branches@, i as int);
        assert(decreases_to!(ev => ev.kids[2 * (i + 1) - 1]));
    }
    let branch = &branches[i];
    match Subst::try_discharge_env(&branch.guard, snapshot) {
        Some(guard) => {
            let pi = synthesize_arm_predicate(&guard, priors);
            let arm_path = and_path(path, &pi);
            let Walk { env: _, commits, taps, counter } = st;
            let inner = Walk { env: copy_env(snapshot), commits, taps, counter };
            match walk_block(&branch.body, &arm_path, writes, inner) {
                Some(t) => Some((guard, t)),
                None => None,
            }
        },
        None => None,
    }
}

/// Runs the arms of a choice, each from where the choice starts.
fn walk_arms(
    e: &Expr,
    branches: &Vec<Branch>,
    path: &Expr,
    writes: &Vec<Name>,
    st: Walk,
) -> (r: Option<(Vec<Arm>, Walk)>)
    requires
        arms_are(e.view(), branches@),
        e.view().kids.len() == 2 * branches@.len(),
    ensures
        match walked_arms(
            e.view(),
            path.view(),
            names_view(writes@),
            st.view(),
            branches@.len(),
        ) {
            Some((a, s)) => (r matches Some((x, w)) && arms_view(x@) == a && w.view().commits
                == s.commits && w.view().taps == s.taps && w.view().counter == s.counter),
            None => r is None,
        },
    decreases e.view(), 1int,
{
    let ghost ev = e.view();
    let ghost pv = path.view();
    let ghost wv = names_view(writes@);
    let ghost start = st.view();
    let snapshot = copy_env(&st.env);
    let mut cur = st;
    let mut arms: Vec<Arm> = Vec::new();
    let mut priors: Vec<Expr> = Vec::new();
    let ghost mut run = start;
    let mut i: usize = 0;
    assert(arms_view(arms@) =~= Seq::empty());
    assert(exprs_view(priors@) =~= arm_guards(arms_view(arms@)));
    while i < branches.len()
        invariant
            i <= branches.len(),
            ev == e.view(),
            pv == path.view(),
            wv == names_view(writes@),
            arms_are(ev, branches@),
            ev.kids.len() == 2 * branches@.len(),
            env_view(snapshot.view()) == start.env,
            arms.len() == i,
            exprs_view(priors@) == arm_guards(arms_view(arms@)),
            walked_arms(ev, pv, wv, start, i as nat) == Some((arms_view(arms@), run)),
            (WalkS { env: start.env, ..run }) == (WalkS { env: start.env, ..cur.view() }),
            start == st.view(),
        decreases branches.len() - i,
    {
        let ghost a0 = arms@;
        let ghost p0 = priors@;
        let ghost r0 = run;
        let ghost n1 = (i + 1) as nat;
        match walk_arm(e, branches, i, path, writes, &snapshot, &priors, cur) {
            Some((guard, t)) => {
                proof {
                    run = t.view();
                    lemma_arms_step(
                        ev,
                        pv,
                        wv,
                        start,
                        n1,
                        arms_view(a0),
                        r0,
                        guard.view(),
                        t.view(),
                    );
                }
                let Walk { env, commits, taps, counter } = t;
                priors.push(guard.clone());
                arms.push(Arm { guard, env });
                cur = Walk { env: NameMap::new(), commits, taps, counter };
                proof {
                    let arm = ArmS { guard: guard.view(), env: env_view(env.view()) };
                    assert(arms_view(arms@) =~= arms_view(a0).push(arm));
                    assert(exprs_view(priors@) =~= exprs_view(p0).push(arm.guard));
                    assert(arm_guards(arms_view(a0).push(arm)) =~= arm_guards(
                        arms_view(a0),
                    ).push(arm.guard));
                }
            },
            None => {
                proof {
                    lemma_arms_stop(ev, pv, wv, start, n1, branches@.len());
                }
                return None;
            },
        }
        i = i + 1;
    }
    Some((arms, cur))
}

/// Whether the arms of a choice end in one that is always taken.
fn ends_total(e: &Expr, branches: &Vec<Branch>) -> (r: bool)
    requires
        e.view().kids == branch_kids_view(branches@),
    ensures
        r == is_total(e.view()),
        e.view().kids.len() == 2 * branches@.len(),
{
    let ghost ev = e.view();
    if branches.len() == 0 {
        assert(ev.kids.len() == 0);
        return false;
    }
    let last: usize = branches.len() - 1;
    proof {
        lemma_arm_at(branches@, last as int);
    }
    assert(ev.kids[ev.kids.len() - 2] == branches@[last as int].guard.view());
    is_true_lit(&branches[last].guard)
}

/// Runs a choice.
fn walk_case(
    e: &Expr,
    branches: &Vec<Branch>,
    path: &Expr,
    writes: &Vec<Name>,
    st: Walk,
) -> (r: Option<Walk>)
    requires
        e.view().head matches HeadS::Case(false, _),
        e.view().kids == branch_kids_view(branches@),
    ensures
        opt_walk_view(r) == walked_stmt(e.view(), path.view(), names_view(writes@), st.view()),
    decreases e.view(), 2int,
{
    if !ends_total(e, branches) {
        return None;
    }
    assert(arms_are(e.view(), branches@)) by {
        reveal(arms_are);
    }
    let snapshot = copy_env(&st.env);
    assert(e.view().kids.len() / 2 == branches@.len());
    match walk_arms(e, branches, path, writes, st) {
        Some((arms, s)) => {
            proof {
                lemma_arms_len(
                    e.view(),
                    path.view(),
                    names_view(writes@),
                    st.view(),
                    branches@.len(),
                );
            }
            match rejoin(&snapshot, &arms, writes) {
                Some(env) => {
                    let Walk { env: _, commits, taps, counter } = s;
                    Some(Walk { env, commits, taps, counter })
                },
                None => None,
            }
        },
        None => None,
    }
}

proof fn lemma_arms_len(e: ExprS, path: ExprS, writes: Seq<NameS>, st: WalkS, n: nat)
    requires
        2 * n <= e.kids.len(),
    ensures
        walked_arms(e, path, writes, st, n) matches Some((a, s)) ==> a.len() == n,
    decreases n,
{
    if n > 0 {
        lemma_arms_len(e, path, writes, st, (n - 1) as nat);
    }
}

proof fn lemma_arms_step(
    e: ExprS,
    path: ExprS,
    writes: Seq<NameS>,
    st: WalkS,
    n: nat,
    arms: Seq<ArmS>,
    s: WalkS,
    g: ExprS,
    t: WalkS,
)
    requires
        0 < n,
        2 * n <= e.kids.len(),
        walked_arms(e, path, writes, st, (n - 1) as nat) == Some((arms, s)),
        discharged(st.env, e.kids[2 * n - 2]) == Some(g),
        walked(
            e.kids[2 * n - 1],
            and_s(path, arm_predicate(g, arm_guards(arms))),
            writes,
            WalkS { env: st.env, ..s },
        ) == Some(t),
    ensures
        walked_arms(e, path, writes, st, n) == Some((arms.push(ArmS { guard: g, env: t.env }), t)),
{
}

proof fn lemma_no_pattern_tys(branches: Seq<Branch>)
    requires
        forall|i: int| 0 <= i < branches.len() ==> (#[trigger] branches[i]).pattern is None,
    ensures
        branch_tys_view(branches) == Seq::<TypeS>::empty(),
    decreases branches.len(),
{
    if branches.len() > 0 {
        lemma_no_pattern_tys(branches.take(branches.len() - 1));
    }
    assert(branch_tys_view(branches) =~= Seq::<TypeS>::empty());
}

proof fn lemma_arms_stop(
    e: ExprS,
    path: ExprS,
    writes: Seq<NameS>,
    st: WalkS,
    i: nat,
    n: nat,
)
    requires
        i <= n,
        2 * n <= e.kids.len(),
        walked_arms(e, path, writes, st, i) is None,
    ensures
        walked_arms(e, path, writes, st, n) is None,
    decreases n,
{
    if i < n {
        lemma_arms_stop(e, path, writes, st, i, (n - 1) as nat);
    }
}

} // verus!
