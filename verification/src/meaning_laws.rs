//! What a term means does not depend on names that are not free in it, and
//! substitution respects it.

use vstd::prelude::*;
use crate::ast::{ExprS, HeadS, TypeS};
use crate::capture::discharged;
use crate::equality::expr_eq;
use crate::meaning::{
    Meant, Model, Val, Valuation, first_arm, guards_only, kids_meant, kids_open, left_open,
    meant, setting, setting_all, unhandled,
};
use crate::name::NameS;
use crate::scope::{free_in_value, own_ref, scope_of};
use crate::subst::env_subst;
use crate::subst_laws::{
    kid_uncaptured, leafy, lemma_allowed_uncaptured, lemma_free_in_the_value,
    lemma_free_in_value, lemma_leafy_value, lemma_plain_leafy, lemma_uncaptured_value,
    lemma_value_of_sub, meaning_of, mentions_name, replaced, uncaptured, value,
};
use crate::substitution::{SubstS, sub_expr, without};

verus! {

/// Whether the two valuations agree on the names free in `e`.
pub open spec fn agree_on(a: Valuation, b: Valuation, e: ExprS) -> bool {
    forall|n: NameS| #[trigger] free_in_value(n, e) && !(n is PiBound) ==> a(n) == b(n)
}

proof fn lemma_agree_under(a: Valuation, b: Valuation, e: ExprS, i: int, ds: Seq<Meant>)
    requires
        agree_on(a, b, e),
        0 <= i < e.kids.len(),
    ensures
        agree_on(
            setting_all(a, scope_of(e.head, i), ds),
            setting_all(b, scope_of(e.head, i), ds),
            e.kids[i],
        ),
{
    let ns = scope_of(e.head, i);
    assert forall|n: NameS| #[trigger] free_in_value(n, e.kids[i]) && !(n is PiBound) implies
        setting_all(a, ns, ds)(n) == setting_all(b, ns, ds)(n) by {
        if !ns.contains(n) {
            assert(free_in_value(n, e));
        }
    }
}

proof fn lemma_agree_here(a: Valuation, b: Valuation, e: ExprS, i: int)
    requires
        agree_on(a, b, e),
        0 <= i < e.kids.len(),
        scope_of(e.head, i).len() == 0,
    ensures
        agree_on(a, b, e.kids[i]),
{
    assert forall|n: NameS| #[trigger] free_in_value(n, e.kids[i]) && !(n is PiBound) implies a(n)
        == b(n) by {
        assert(!scope_of(e.head, i).contains(n));
        assert(free_in_value(n, e));
    }
}

proof fn lemma_first_arm_agrees(m: Model, a: Valuation, b: Valuation, e: ExprS, i: nat)
    requires
        forall|j: int|
            0 <= j < e.kids.len() ==> meant(m, a, #[trigger] e.kids[j]) == meant(m, b, e.kids[j]),
        left_open(m, a, e) == left_open(m, b, e),
    ensures
        first_arm(m, a, e, i) == first_arm(m, b, e, i),
    decreases e.kids.len() - i,
{
    if 2 * i + 1 < e.kids.len() {
        lemma_first_arm_agrees(m, a, b, e, i + 1);
        assert(meant(m, a, e.kids[(2 * i) as int]) == meant(m, b, e.kids[(2 * i) as int]));
        assert(meant(m, a, e.kids[(2 * i + 1) as int]) == meant(m, b, e.kids[(2 * i + 1) as int]));
    }
}

/// A term means what its free names make it mean.
pub proof fn lemma_meant_by_free_names(m: Model, a: Valuation, b: Valuation, e: ExprS)
    requires
        agree_on(a, b, e),
    ensures
        meant(m, a, e) == meant(m, b, e),
    decreases e,
{
    let oa = kids_open(m, a, e);
    let ob = kids_open(m, b, e);
    assert forall|i: int| 0 <= i < e.kids.len() implies #[trigger] oa[i] == ob[i] by {
        assert forall|ds: Seq<Meant>| #[trigger] oa[i](ds) == ob[i](ds) by {
            lemma_agree_under(a, b, e, i, ds);
            lemma_meant_by_free_names(
                m,
                setting_all(a, scope_of(e.head, i), ds),
                setting_all(b, scope_of(e.head, i), ds),
                e.kids[i],
            );
        }
        assert(oa[i] =~= ob[i]);
    }
    assert(oa =~= ob);
    assert(left_open(m, a, e) == left_open(m, b, e));
    assert forall|i: int| 0 <= i < e.kids.len() && scope_of(e.head, i).len() == 0 implies meant(
        m,
        a,
        #[trigger] e.kids[i],
    ) == meant(m, b, e.kids[i]) by {
        lemma_agree_here(a, b, e, i);
        lemma_meant_by_free_names(m, a, b, e.kids[i]);
    }
    let n = e.kids.len();
    match e.head {
        HeadS::Var(x) => {
            assert(own_ref(e.head) == Some(x));
            assert(free_in_value(x, e));
        },
        HeadS::Lambda(x) => {
            if n == 1 {
                let fa = meant(m, a, e).at;
                let fb = meant(m, b, e).at;
                assert forall|v: Val| #[trigger] fa(v) == fb(v) by {
                    let ra = setting(a, x, m.of(v));
                    let rb = setting(b, x, m.of(v));
                    assert forall|k: NameS| #[trigger] free_in_value(k, e.kids[0]) && !(k is PiBound)
                        implies ra(k) == rb(k) by {
                        if k != x {
                            assert(!scope_of(e.head, 0).contains(k));
                            assert(free_in_value(k, e));
                        }
                    }
                    lemma_meant_by_free_names(m, ra, rb, e.kids[0]);
                }
                assert(fa =~= fb);
            }
        },
        HeadS::Let(x) => {
            if n == 2 {
                let d = meant(m, a, e.kids[0]);
                assert(d == meant(m, b, e.kids[0]));
                let ra = setting(a, x, d);
                let rb = setting(b, x, d);
                assert forall|k: NameS| #[trigger] free_in_value(k, e.kids[1]) && !(k is PiBound)
                    implies ra(k) == rb(k) by {
                    if k != x {
                        assert(!scope_of(e.head, 1).contains(k));
                        assert(free_in_value(k, e));
                    }
                }
                lemma_meant_by_free_names(m, ra, rb, e.kids[1]);
            }
        },
        HeadS::Tuple | HeadS::Record(_) | HeadS::Compose | HeadS::Copair => {
            assert(kids_meant(m, a, e) =~= kids_meant(m, b, e));
        },
        HeadS::Case(false, ps) => {
            if guards_only(ps) {
                assert forall|i: int| 0 <= i < n implies meant(m, a, #[trigger] e.kids[i]) == meant(
                    m,
                    b,
                    e.kids[i],
                ) by {
                    if 0 <= i < 2 * ps.len() {
                        assert(ps[i / 2] is None);
                    }
                    assert(scope_of(e.head, i).len() == 0);
                }
                lemma_first_arm_agrees(m, a, b, e, 0);
            }
        },
        _ => {
            if n >= 1 {
                assert(scope_of(e.head, 0).len() == 0 ==> meant(m, a, e.kids[0]) == meant(
                    m,
                    b,
                    e.kids[0],
                ));
            }
            if n >= 2 {
                assert(scope_of(e.head, 1).len() == 0 ==> meant(m, a, e.kids[1]) == meant(
                    m,
                    b,
                    e.kids[1],
                ));
            }
        },
    }
}

/// Whether subterm `i` of `e` means what subterm `i` of `f` means, whatever the names
/// bound over them mean.
pub open spec fn kid_alike(m: Model, a: Valuation, e: ExprS, b: Valuation, f: ExprS, i: int) -> bool {
    forall|ds: Seq<Meant>| #[trigger]
        meant(m, setting_all(a, scope_of(e.head, i), ds), e.kids[i]) == meant(
            m,
            setting_all(b, scope_of(e.head, i), ds),
            f.kids[i],
        )
}

proof fn lemma_setting_none(a: Valuation, ds: Seq<Meant>)
    ensures
        setting_all(a, Seq::empty(), ds) == a,
{
    assert(setting_all(a, Seq::empty(), ds) =~= a);
}

proof fn lemma_setting_one(a: Valuation, x: NameS, d: Meant)
    ensures
        setting_all(a, seq![x], seq![d]) == setting(a, x, d),
{
    let s = setting_all(a, seq![x], seq![d]);
    let t = setting(a, x, d);
    assert forall|k: NameS| #[trigger] s(k) == t(k) by {
        let ns = seq![x];
        assert(ns[0] == x);
        if ns.contains(k) {
            assert(k == x);
            assert(ns.index_of(x) == 0);
        }
    }
    assert(s =~= t);
}

proof fn lemma_first_arms_alike(m: Model, a: Valuation, e: ExprS, b: Valuation, f: ExprS, i: nat)
    requires
        e.kids.len() == f.kids.len(),
        forall|j: int|
            0 <= j < e.kids.len() ==> meant(m, a, #[trigger] e.kids[j]) == meant(m, b, f.kids[j]),
        left_open(m, a, e) == left_open(m, b, f),
    ensures
        first_arm(m, a, e, i) == first_arm(m, b, f, i),
    decreases e.kids.len() - i,
{
    if 2 * i + 1 < e.kids.len() {
        lemma_first_arms_alike(m, a, e, b, f, i + 1);
        assert(meant(m, a, e.kids[(2 * i) as int]) == meant(m, b, f.kids[(2 * i) as int]));
        assert(meant(m, a, e.kids[(2 * i + 1) as int]) == meant(m, b, f.kids[(2 * i + 1) as int]));
    }
}

/// Terms of one form whose subterms mean the same mean the same.
pub proof fn lemma_alike(m: Model, a: Valuation, e: ExprS, b: Valuation, f: ExprS)
    requires
        !(e.head is Var),
        unhandled(e.head) == unhandled(f.head),
        e.kids.len() == f.kids.len(),
        forall|i: int| 0 <= i < e.kids.len() ==> #[trigger] kid_alike(m, a, e, b, f, i),
    ensures
        meant(m, a, e) == meant(m, b, f),
{
    let n = e.kids.len();
    assert forall|i: int| scope_of(e.head, i) == scope_of(f.head, i) by {}
    let oa = kids_open(m, a, e);
    let ob = kids_open(m, b, f);
    assert forall|i: int| 0 <= i < n implies #[trigger] oa[i] == ob[i] by {
        assert(kid_alike(m, a, e, b, f, i));
        assert forall|ds: Seq<Meant>| #[trigger] oa[i](ds) == ob[i](ds) by {
            assert(meant(m, setting_all(a, scope_of(e.head, i), ds), e.kids[i]) == meant(
                m,
                setting_all(b, scope_of(e.head, i), ds),
                f.kids[i],
            ));
        }
        assert(oa[i] =~= ob[i]);
    }
    assert(oa =~= ob);
    assert(left_open(m, a, e) == left_open(m, b, f));
    assert forall|i: int| 0 <= i < n && scope_of(e.head, i).len() == 0 implies meant(
        m,
        a,
        #[trigger] e.kids[i],
    ) == meant(m, b, f.kids[i]) by {
        assert(kid_alike(m, a, e, b, f, i));
        let ds: Seq<Meant> = Seq::empty();
        assert(scope_of(e.head, i) =~= Seq::empty());
        lemma_setting_none(a, ds);
        lemma_setting_none(b, ds);
        assert(meant(m, setting_all(a, scope_of(e.head, i), ds), e.kids[i]) == meant(
            m,
            setting_all(b, scope_of(e.head, i), ds),
            f.kids[i],
        ));
    }
    match e.head {
        HeadS::Lambda(x) => {
            if n == 1 {
                let fa = meant(m, a, e).at;
                let fb = meant(m, b, f).at;
                assert forall|v: Val| #[trigger] fa(v) == fb(v) by {
                    assert(kid_alike(m, a, e, b, f, 0));
                    lemma_setting_one(a, x, m.of(v));
                    lemma_setting_one(b, x, m.of(v));
                    let ds = seq![m.of(v)];
                    assert(meant(m, setting_all(a, scope_of(e.head, 0), ds), e.kids[0]) == meant(
                        m,
                        setting_all(b, scope_of(e.head, 0), ds),
                        f.kids[0],
                    ));
                }
                assert(fa =~= fb);
            }
        },
        HeadS::Let(x) => {
            if n == 2 {
                let d = meant(m, a, e.kids[0]);
                assert(d == meant(m, b, f.kids[0]));
                assert(kid_alike(m, a, e, b, f, 1));
                lemma_setting_one(a, x, d);
                lemma_setting_one(b, x, d);
                let ds = seq![d];
                assert(meant(m, setting_all(a, scope_of(e.head, 1), ds), e.kids[1]) == meant(
                    m,
                    setting_all(b, scope_of(e.head, 1), ds),
                    f.kids[1],
                ));
            }
        },
        HeadS::Tuple | HeadS::Record(_) | HeadS::Compose | HeadS::Copair => {
            assert(kids_meant(m, a, e) =~= kids_meant(m, b, f));
        },
        HeadS::Case(false, ps) => {
            if guards_only(ps) {
                assert forall|i: int| 0 <= i < n implies meant(m, a, #[trigger] e.kids[i]) == meant(
                    m,
                    b,
                    f.kids[i],
                ) by {
                    if 0 <= i < 2 * ps.len() {
                        assert(ps[i / 2] is None);
                    }
                    assert(scope_of(e.head, i).len() == 0);
                }
                lemma_first_arms_alike(m, a, e, b, f, 0);
            }
        },
        _ => {
            if n >= 1 {
                assert(scope_of(e.head, 0).len() == 0 ==> meant(m, a, e.kids[0]) == meant(
                    m,
                    b,
                    f.kids[0],
                ));
            }
            if n >= 2 {
                assert(scope_of(e.head, 1).len() == 0 ==> meant(m, a, e.kids[1]) == meant(
                    m,
                    b,
                    f.kids[1],
                ));
            }
        },
    }
}

/// Type slots are no part of what a term means.
pub proof fn lemma_meant_by_value(m: Model, a: Valuation, e: ExprS)
    ensures
        meant(m, a, value(e)) == meant(m, a, e),
    decreases e,
{
    let v = value(e);
    if !(e.head is Var) {
        assert forall|i: int| 0 <= i < v.kids.len() implies #[trigger] kid_alike(m, a, v, a, e, i) by {
            assert forall|ds: Seq<Meant>| #[trigger]
                meant(m, setting_all(a, scope_of(v.head, i), ds), v.kids[i]) == meant(
                    m,
                    setting_all(a, scope_of(v.head, i), ds),
                    e.kids[i],
                ) by {
                lemma_meant_by_value(m, setting_all(a, scope_of(v.head, i), ds), e.kids[i]);
            }
        }
        lemma_alike(m, a, v, a, e);
    }
}

/// Equal terms mean the same.
pub proof fn lemma_equal_terms_mean_the_same(m: Model, a: Valuation, e: ExprS, f: ExprS)
    requires
        expr_eq(e, f),
    ensures
        meant(m, a, e) == meant(m, a, f),
    decreases e,
{
    if !(e.head is Var) {
        assert(e.head == f.head);
        assert forall|i: int| 0 <= i < e.kids.len() implies #[trigger] kid_alike(m, a, e, a, f, i) by {
            assert forall|ds: Seq<Meant>| #[trigger]
                meant(m, setting_all(a, scope_of(e.head, i), ds), e.kids[i]) == meant(
                    m,
                    setting_all(a, scope_of(e.head, i), ds),
                    f.kids[i],
                ) by {
                lemma_equal_terms_mean_the_same(
                    m,
                    setting_all(a, scope_of(e.head, i), ds),
                    e.kids[i],
                    f.kids[i],
                );
            }
        }
        lemma_alike(m, a, e, a, f);
    }
}

/// What the names mean where each that `s` replaces means what is put in for it.
pub open spec fn under(m: Model, rho: Valuation, s: SubstS) -> Valuation {
    |n: NameS|
        if s.dom().contains(n) {
            meant(m, rho, meaning_of(Seq::empty(), s, n))
        } else {
            rho(n)
        }
}

/// Whether `s` replaces no reference to an enclosing function.
pub open spec fn replaces_names(s: SubstS) -> bool {
    forall|n: NameS| #[trigger] s.dom().contains(n) ==> !(n is PiBound)
}

/// Replacing names by terms is taking the names to mean what the terms mean.
proof fn lemma_replaced_meant(m: Model, rho: Valuation, s: SubstS, e: ExprS)
    requires
        leafy(e),
        replaces_names(s),
        uncaptured(s, e),
    ensures
        meant(m, rho, replaced(Seq::empty(), s, e)) == meant(m, under(m, rho, s), e),
    decreases e,
{
    let z: Seq<TypeS> = Seq::empty();
    let out = replaced(z, s, e);
    match e.head {
        HeadS::Var(x) => {
            if !s.dom().contains(x) {
                assert(out.kids =~= e.kids);
            }
        },
        _ => {
            let inner = under(m, rho, s);
            assert forall|i: int| 0 <= i < out.kids.len() implies #[trigger] kid_alike(
                m,
                rho,
                out,
                inner,
                e,
                i,
            ) by {
                let ns = scope_of(e.head, i);
                let s1 = without(s, ns);
                assert(scope_of(out.head, i) == ns);
                assert(kid_uncaptured(s, e, i));
                assert(replaces_names(s1));
                assert forall|ds: Seq<Meant>| #[trigger]
                    meant(m, setting_all(rho, scope_of(out.head, i), ds), out.kids[i]) == meant(
                        m,
                        setting_all(inner, scope_of(out.head, i), ds),
                        e.kids[i],
                    ) by {
                    let r1 = setting_all(rho, ns, ds);
                    lemma_replaced_meant(m, r1, s1, e.kids[i]);
                    let u1 = under(m, r1, s1);
                    let u2 = setting_all(inner, ns, ds);
                    assert forall|n: NameS| #[trigger] free_in_value(n, e.kids[i]) && !(n is PiBound)
                        implies u1(n) == u2(n) by {
                        if !ns.contains(n) && s.dom().contains(n) {
                            let t = meaning_of(z, s, n);
                            assert forall|w: NameS| #[trigger] free_in_value(w, t) && !(w is PiBound)
                                implies r1(w) == rho(w) by {
                                assert(mentions_name(s[n], w));
                                assert(!ns.contains(w));
                            }
                            lemma_meant_by_free_names(m, r1, rho, t);
                            assert(meaning_of(z, s1, n) == t);
                        }
                    }
                    lemma_meant_by_free_names(m, u1, u2, e.kids[i]);
                }
            }
            lemma_alike(m, rho, out, inner, e);
        },
    }
}

/// What the names mean where each that `env` has a term for means what the term does.
pub open spec fn under_env(m: Model, rho: Valuation, env: Map<NameS, ExprS>) -> Valuation {
    |n: NameS|
        if env.dom().contains(n) {
            meant(m, rho, env[n])
        } else {
            rho(n)
        }
}

/// Whether `env` has terms for names only.
pub open spec fn stands_for_names(env: Map<NameS, ExprS>) -> bool {
    forall|n: NameS| #[trigger] env.dom().contains(n) ==> !(n is PiBound)
}

/// Putting the terms of an environment in for its names gives a term that means what
/// the term did where the names mean what the terms mean.
pub proof fn law_discharging_keeps_the_meaning(
    m: Model,
    rho: Valuation,
    env: Map<NameS, ExprS>,
    e: ExprS,
)
    requires
        leafy(e),
        stands_for_names(env),
        discharged(env, e) is Some,
    ensures
        meant(m, rho, discharged(env, e)->0) == meant(m, under_env(m, rho, env), e),
{
    let s = env_subst(env, e);
    let z: Seq<TypeS> = Seq::empty();
    let out = sub_expr(true, s, e);
    let vs = crate::subst_laws::values(s);
    let v = value(e);
    lemma_value_of_sub(true, s, e);
    lemma_meant_by_value(m, rho, out);
    lemma_allowed_uncaptured(true, s, e);
    lemma_uncaptured_value(s, e);
    lemma_leafy_value(e);
    lemma_plain_leafy(z, v);
    assert(replaces_names(vs));
    lemma_replaced_meant(m, rho, vs, v);
    let u1 = under(m, rho, vs);
    let u2 = under_env(m, rho, env);
    assert forall|n: NameS| #[trigger] free_in_value(n, v) && !(n is PiBound) implies u1(n) == u2(
        n,
    ) by {
        lemma_free_in_the_value(n, e);
        lemma_free_in_value(n, e);
        if env.dom().contains(n) {
            assert(vs.dom().contains(n));
            assert(meaning_of(z, vs, n) == value(env[n]));
            lemma_meant_by_value(m, rho, env[n]);
        }
    }
    lemma_meant_by_free_names(m, u1, u2, v);
    lemma_meant_by_value(m, u2, e);
}

} // verus!
