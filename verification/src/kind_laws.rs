//! The laws of kind variables: every variable has a pin, which looking deeper
//! into constructions does not change, and an edge between two makes what is
//! known of one known of the other.

use vstd::prelude::*;
use crate::ast::{FunKindS, FunKindVarId};
use crate::kind::{
    BoundsS, bounded_by, bounds_of, built_pin, covers, covers_all, is_least_pin, is_path,
    kind_pin, lemma_least_pin_unique, own_pin, reaches, total_width, var_pin,
};
use crate::kind_pin::{KindPin, pin_le};

verus! {

/// All that two pins both say.
pub open spec fn meet_s(a: KindPin, b: KindPin) -> KindPin {
    if pin_le(a, b) {
        a
    } else if pin_le(b, a) {
        b
    } else if pin_le(KindPin::Data, a) && pin_le(KindPin::Data, b) {
        KindPin::Data
    } else {
        KindPin::Unpinned
    }
}

proof fn lemma_meet(a: KindPin, b: KindPin, c: KindPin)
    ensures
        pin_le(meet_s(a, b), a),
        pin_le(meet_s(a, b), b),
        pin_le(c, a) && pin_le(c, b) ==> pin_le(c, meet_s(a, b)),
{
}

proof fn lemma_meet_covers(
    a: KindPin,
    b: KindPin,
    vars: Seq<BoundsS>,
    v: FunKindVarId,
    depth: nat,
)
    requires
        covers_all(a, vars, v, depth),
        covers_all(b, vars, v, depth),
    ensures
        covers_all(meet_s(a, b), vars, v, depth),
{
    assert forall|w: FunKindVarId| #[trigger] reaches(vars, v, w) implies covers(
        meet_s(a, b),
        vars,
        w,
        depth,
    ) by {
        assert(covers(a, vars, w, depth) && covers(b, vars, w, depth));
        let known = bounds_of(vars, w);
        lemma_meet(a, b, known.stamped);
        lemma_meet(a, b, built_pin(vars, w, depth));
        assert forall|i: int| 0 <= i < known.lower.len() implies pin_le(
            own_pin(#[trigger] known.lower[i]),
            meet_s(a, b),
        ) by {
            lemma_meet(a, b, own_pin(known.lower[i]));
        }
        assert forall|i: int| 0 <= i < known.upper.len() implies pin_le(
            own_pin(#[trigger] known.upper[i]),
            meet_s(a, b),
        ) by {
            lemma_meet(a, b, own_pin(known.upper[i]));
        }
    }
}

/// A pin below which nothing says all is the least that does.
proof fn lemma_lowest_is_least(r: KindPin, vars: Seq<BoundsS>, v: FunKindVarId, depth: nat)
    requires
        covers_all(r, vars, v, depth),
        forall|s: KindPin| #[trigger] pin_le(s, r) && covers_all(s, vars, v, depth) ==> s == r,
    ensures
        is_least_pin(r, vars, v, depth),
{
    assert forall|s: KindPin| covers_all(s, vars, v, depth) implies #[trigger] pin_le(r, s) by {
        lemma_meet_covers(r, s, vars, v, depth);
        lemma_meet(r, s, r);
        assert(pin_le(meet_s(r, s), r));
    }
}

/// Every variable has a pin: there is a least one that says all that is recorded
/// of the variables it reaches.
pub proof fn law_every_variable_has_a_pin(vars: Seq<BoundsS>, v: FunKindVarId, depth: nat)
    ensures
        is_least_pin(var_pin(vars, v, depth), vars, v, depth),
{
    assert(covers_all(KindPin::Conflict, vars, v, depth));
    let r = if covers_all(KindPin::Unpinned, vars, v, depth) {
        KindPin::Unpinned
    } else if covers_all(KindPin::Compute, vars, v, depth) {
        KindPin::Compute
    } else if covers_all(KindPin::Data, vars, v, depth) {
        KindPin::Data
    } else if covers_all(KindPin::Plain, vars, v, depth) {
        KindPin::Plain
    } else if exists|n: usize| #[trigger] covers_all(KindPin::Sum(n), vars, v, depth) {
        KindPin::Sum(choose|n: usize| #[trigger] covers_all(KindPin::Sum(n), vars, v, depth))
    } else {
        KindPin::Conflict
    };
    assert forall|s: KindPin| #[trigger]
        pin_le(s, r) && covers_all(s, vars, v, depth) implies s == r by {
        match s {
            KindPin::Sum(n) => {
                assert(covers_all(KindPin::Sum(n), vars, v, depth));
            },
            _ => {},
        }
    }
    lemma_lowest_is_least(r, vars, v, depth);
    assert(pin_le(r, r));
}

/// What is known of a variable is known of every variable that it bounds.
pub proof fn law_bounds_pass_on_what_is_known(
    vars: Seq<BoundsS>,
    v: FunKindVarId,
    w: FunKindVarId,
    depth: nat,
)
    requires
        bounded_by(vars, v, w),
    ensures
        pin_le(var_pin(vars, w, depth), var_pin(vars, v, depth)),
{
    law_every_variable_has_a_pin(vars, v, depth);
    law_every_variable_has_a_pin(vars, w, depth);
    let r = var_pin(vars, v, depth);
    assert(covers_all(r, vars, w, depth)) by {
        assert forall|x: FunKindVarId| #[trigger] reaches(vars, w, x) implies covers(
            r,
            vars,
            x,
            depth,
        ) by {
            lemma_reaches_from(vars, v, w, x);
        }
    }
}

proof fn lemma_reaches_from(
    vars: Seq<BoundsS>,
    v: FunKindVarId,
    w: FunKindVarId,
    x: FunKindVarId,
)
    requires
        bounded_by(vars, v, w),
        reaches(vars, w, x),
    ensures
        reaches(vars, v, x),
{
    let path = choose|path: Seq<FunKindVarId>| #[trigger]
        is_path(vars, path) && path[0] == w && path[path.len() - 1] == x;
    let longer = seq![v] + path;
    assert forall|i: int| 0 <= i < longer.len() - 1 implies bounded_by(
        vars,
        #[trigger] longer[i],
        longer[i + 1],
    ) by {
        if i > 0 {
            assert(bounded_by(vars, path[i - 1], path[i - 1 + 1]));
        }
    }
    assert(is_path(vars, longer));
    assert(longer[longer.len() - 1] == x);
}

/// An edge recorded at both of its ends pins both to one kind.
pub proof fn law_an_edge_has_one_pin(
    vars: Seq<BoundsS>,
    v: FunKindVarId,
    w: FunKindVarId,
    depth: nat,
)
    requires
        bounded_by(vars, v, w),
        bounded_by(vars, w, v),
    ensures
        var_pin(vars, v, depth) == var_pin(vars, w, depth),
{
    law_bounds_pass_on_what_is_known(vars, v, w, depth);
    law_bounds_pass_on_what_is_known(vars, w, v, depth);
}

/// Whether `rank` falls along constructions and does not rise along bounds, so
/// that no variable is built over itself.
pub open spec fn acyclic_by(vars: Seq<BoundsS>, rank: spec_fn(FunKindVarId) -> nat) -> bool {
    &&& forall|v: FunKindVarId, w: FunKindVarId| #[trigger]
        bounded_by(vars, v, w) ==> rank(w) <= rank(v)
    &&& forall|v: FunKindVarId, x: FunKindVarId| #[trigger]
        bounds_of(vars, v).built_over.contains(FunKindS::Var(x)) ==> rank(x) < rank(v)
}

/// Whether what was built over something has a rank above the lowest.
spec fn built_ranked(vars: Seq<BoundsS>, rank: spec_fn(FunKindVarId) -> nat) -> bool {
    forall|v: FunKindVarId|
        (#[trigger] bounds_of(vars, v)).built_over.len() > 0 ==> rank(v) > 0
}

proof fn lemma_rank_along(
    vars: Seq<BoundsS>,
    rank: spec_fn(FunKindVarId) -> nat,
    path: Seq<FunKindVarId>,
    i: int,
)
    requires
        acyclic_by(vars, rank),
        is_path(vars, path),
        0 <= i < path.len(),
    ensures
        rank(path[i]) <= rank(path[0]),
    decreases i,
{
    if i > 0 {
        lemma_rank_along(vars, rank, path, i - 1);
        assert(bounded_by(vars, path[i - 1], path[i - 1 + 1]));
    }
}

/// The width of what was built over is found `d` deep where it is found `e` deep.
proof fn lemma_deep_width(
    vars: Seq<BoundsS>,
    rank: spec_fn(FunKindVarId) -> nat,
    sources: Seq<FunKindS>,
    m: nat,
    d: nat,
    e: nat,
)
    requires
        acyclic_by(vars, rank),
        built_ranked(vars, rank),
        forall|x: FunKindVarId| #[trigger] sources.contains(FunKindS::Var(x)) ==> rank(x) < m,
        m <= d + 1,
        m <= e + 1,
    ensures
        total_width(vars, sources, d) == total_width(vars, sources, e),
    decreases m, 0int, sources.len(),
{
    if sources.len() > 0 {
        let rest = sources.drop_last();
        assert forall|x: FunKindVarId| #[trigger] rest.contains(FunKindS::Var(x)) implies rank(x)
            < m by {
            let i = choose|i: int| 0 <= i < rest.len() && rest[i] == FunKindS::Var(x);
            assert(sources[i] == FunKindS::Var(x));
            assert(sources.contains(FunKindS::Var(x)));
        }
        lemma_deep_width(vars, rank, rest, m, d, e);
        match sources.last() {
            FunKindS::Var(x) => {
                assert(sources[sources.len() - 1] == FunKindS::Var(x));
                assert(sources.contains(FunKindS::Var(x)));
                lemma_deep(vars, rank, x, d, e);
            },
            _ => {},
        }
        assert(kind_pin(vars, sources.last(), d) == kind_pin(vars, sources.last(), e));
    }
}

proof fn lemma_deep(
    vars: Seq<BoundsS>,
    rank: spec_fn(FunKindVarId) -> nat,
    v: FunKindVarId,
    d: nat,
    e: nat,
)
    requires
        acyclic_by(vars, rank),
        built_ranked(vars, rank),
        rank(v) <= d,
        rank(v) <= e,
    ensures
        var_pin(vars, v, d) == var_pin(vars, v, e),
    decreases rank(v), 1int, 0nat,
{
    assert forall|w: FunKindVarId| #[trigger] reaches(vars, v, w) implies built_pin(vars, w, d)
        == built_pin(vars, w, e) by {
        let path = choose|path: Seq<FunKindVarId>| #[trigger]
            is_path(vars, path) && path[0] == v && path[path.len() - 1] == w;
        lemma_rank_along(vars, rank, path, path.len() - 1);
        let sources = bounds_of(vars, w).built_over;
        if sources.len() > 0 {
            assert(rank(w) > 0);
            assert forall|x: FunKindVarId| #[trigger] sources.contains(FunKindS::Var(x)) implies rank(
                x,
            ) < rank(w) by {
                assert(bounds_of(vars, w).built_over.contains(FunKindS::Var(x)));
            }
            lemma_deep_width(vars, rank, sources, rank(w), (d - 1) as nat, (e - 1) as nat);
        }
    }
    assert forall|s: KindPin| #[trigger] covers_all(s, vars, v, d) == covers_all(
        s,
        vars,
        v,
        e,
    ) by {
        if covers_all(s, vars, v, d) {
            assert forall|w: FunKindVarId| #[trigger] reaches(vars, v, w) implies covers(
                s,
                vars,
                w,
                e,
            ) by {
                assert(covers(s, vars, w, d));
            }
        }
        if covers_all(s, vars, v, e) {
            assert forall|w: FunKindVarId| #[trigger] reaches(vars, v, w) implies covers(
                s,
                vars,
                w,
                d,
            ) by {
                assert(covers(s, vars, w, e));
            }
        }
    }
    law_every_variable_has_a_pin(vars, v, d);
    law_every_variable_has_a_pin(vars, v, e);
    let p = var_pin(vars, v, d);
    assert(covers_all(p, vars, v, e)) by {
        assert(covers_all(p, vars, v, d));
    }
    assert(is_least_pin(p, vars, v, e)) by {
        assert forall|s: KindPin| covers_all(s, vars, v, e) implies #[trigger] pin_le(p, s) by {
            assert(covers_all(s, vars, v, d));
        }
    }
    lemma_least_pin_unique(p, var_pin(vars, v, e), vars, v, e);
}

/// The ranks of the variables that are no higher than that of `v`.
spec fn ranks_upto(vars: Seq<BoundsS>, rank: spec_fn(FunKindVarId) -> nat, v: FunKindVarId) -> Set<
    nat,
> {
    Set::new(
        |r: nat|
            r <= rank(v) && exists|u: u32| #[trigger]
                rank(FunKindVarId(u)) == r && (u as int) < vars.len(),
    )
}

/// How many ranks there are up to that of `v`, none where nothing is recorded
/// of it.
spec fn low_rank(vars: Seq<BoundsS>, rank: spec_fn(FunKindVarId) -> nat, v: FunKindVarId) -> nat {
    if (v.0 as int) < vars.len() {
        ranks_upto(vars, rank, v).len()
    } else {
        0
    }
}

/// There are no more ranks than variables.
proof fn lemma_ranks_few(
    vars: Seq<BoundsS>,
    rank: spec_fn(FunKindVarId) -> nat,
    v: FunKindVarId,
    n: nat,
)
    requires
        n <= vars.len(),
    ensures
        ({
            let some = Set::new(
                |r: nat|
                    exists|u: u32| #[trigger]
                        rank(FunKindVarId(u)) == r && (u as int) < n,
            );
            some.finite() && some.len() <= n
        }),
    decreases n,
{
    let some = Set::new(
        |r: nat| exists|u: u32| #[trigger] rank(FunKindVarId(u)) == r && (u as int) < n,
    );
    if n == 0 {
        assert(some =~= Set::empty());
    } else {
        let m = (n - 1) as nat;
        let fewer = Set::new(
            |r: nat| exists|u: u32| #[trigger] rank(FunKindVarId(u)) == r && (u as int) < m,
        );
        lemma_ranks_few(vars, rank, v, m);
        if m <= u32::MAX {
            let top = rank(FunKindVarId(m as u32));
            assert(some =~= fewer.insert(top)) by {
                assert forall|r: nat| some.contains(r) <==> fewer.insert(top).contains(r) by {
                    if some.contains(r) {
                        let u = choose|u: u32| #[trigger]
                            rank(FunKindVarId(u)) == r && (u as int) < n;
                        if u as int == m {
                            assert(u == m as u32);
                        } else {
                            assert(rank(FunKindVarId(u)) == r && (u as int) < m);
                        }
                    }
                    if fewer.contains(r) {
                        let u = choose|u: u32| #[trigger]
                            rank(FunKindVarId(u)) == r && (u as int) < m;
                        assert(rank(FunKindVarId(u)) == r && (u as int) < n);
                    }
                    if r == top {
                        assert(rank(FunKindVarId(m as u32)) == r && ((m as u32) as int) < n);
                    }
                }
            }
        } else {
            assert(some =~= fewer) by {
                assert forall|r: nat| some.contains(r) <==> fewer.contains(r) by {
                    if some.contains(r) {
                        let u = choose|u: u32| #[trigger]
                            rank(FunKindVarId(u)) == r && (u as int) < n;
                        assert(rank(FunKindVarId(u)) == r && (u as int) < m);
                    }
                    if fewer.contains(r) {
                        let u = choose|u: u32| #[trigger]
                            rank(FunKindVarId(u)) == r && (u as int) < m;
                        assert(rank(FunKindVarId(u)) == r && (u as int) < n);
                    }
                }
            }
        }
    }
}

proof fn lemma_low_rank(vars: Seq<BoundsS>, rank: spec_fn(FunKindVarId) -> nat, v: FunKindVarId)
    ensures
        low_rank(vars, rank, v) <= vars.len(),
        ranks_upto(vars, rank, v).finite(),
        (v.0 as int) < vars.len() ==> low_rank(vars, rank, v) > 0,
{
    lemma_ranks_few(vars, rank, v, vars.len());
    let all = Set::new(
        |r: nat| exists|u: u32| #[trigger] rank(FunKindVarId(u)) == r && (u as int) < vars.len(),
    );
    let some = ranks_upto(vars, rank, v);
    assert(some.subset_of(all));
    vstd::set_lib::lemma_len_subset(some, all);
    if (v.0 as int) < vars.len() {
        assert(rank(FunKindVarId(v.0)) == rank(v));
        assert(some.contains(rank(v)));
        assert(some.len() > 0);
    }
}

proof fn lemma_low_rank_ordered(
    vars: Seq<BoundsS>,
    rank: spec_fn(FunKindVarId) -> nat,
    x: FunKindVarId,
    v: FunKindVarId,
)
    requires
        rank(x) <= rank(v),
        (v.0 as int) < vars.len(),
    ensures
        low_rank(vars, rank, x) <= low_rank(vars, rank, v),
        rank(x) < rank(v) ==> low_rank(vars, rank, x) < low_rank(vars, rank, v),
{
    lemma_low_rank(vars, rank, x);
    lemma_low_rank(vars, rank, v);
    let a = ranks_upto(vars, rank, x);
    let b = ranks_upto(vars, rank, v);
    assert(a.subset_of(b));
    vstd::set_lib::lemma_len_subset(a, b);
    if rank(x) < rank(v) {
        assert(rank(FunKindVarId(v.0)) == rank(v));
        let c = b.remove(rank(v));
        assert(b.contains(rank(v)));
        assert(a.subset_of(c));
        vstd::set_lib::lemma_len_subset(a, c);
    }
}

/// Looking into constructions as deep as there are variables finds all there is
/// to find: where no variable is built over itself, looking deeper pins no
/// variable otherwise.
pub proof fn law_looking_deeper_changes_nothing(
    vars: Seq<BoundsS>,
    rank: spec_fn(FunKindVarId) -> nat,
    v: FunKindVarId,
    depth: nat,
)
    requires
        acyclic_by(vars, rank),
        depth >= vars.len(),
    ensures
        var_pin(vars, v, depth) == var_pin(vars, v, vars.len()),
{
    let low = |w: FunKindVarId| low_rank(vars, rank, w);
    assert(acyclic_by(vars, low)) by {
        assert forall|a: FunKindVarId, w: FunKindVarId| #[trigger]
            bounded_by(vars, a, w) implies low(w) <= low(a) by {
            assert((a.0 as int) < vars.len());
            lemma_low_rank_ordered(vars, rank, w, a);
        }
        assert forall|a: FunKindVarId, x: FunKindVarId| #[trigger]
            bounds_of(vars, a).built_over.contains(FunKindS::Var(x)) implies low(x) < low(a) by {
            assert((a.0 as int) < vars.len());
            lemma_low_rank_ordered(vars, rank, x, a);
        }
    }
    assert(built_ranked(vars, low)) by {
        assert forall|a: FunKindVarId|
            (#[trigger] bounds_of(vars, a)).built_over.len() > 0 implies low(a) > 0 by {
            lemma_low_rank(vars, rank, a);
        }
    }
    lemma_low_rank(vars, rank, v);
    lemma_deep(vars, low, v, depth, vars.len());
}

/// Whether two records hold the same bounds of each variable, on whichever side
/// and in whatever order.
pub open spec fn same_facts(vars: Seq<BoundsS>, other: Seq<BoundsS>) -> bool {
    forall|v: FunKindVarId|
        {
            let a = #[trigger] bounds_of(vars, v);
            let b = bounds_of(other, v);
            &&& a.stamped == b.stamped
            &&& a.built_over == b.built_over
            &&& forall|k: FunKindS|
                a.lower.contains(k) || a.upper.contains(k) <==> b.lower.contains(k)
                    || b.upper.contains(k)
        }
}

proof fn lemma_same_bounded(vars: Seq<BoundsS>, other: Seq<BoundsS>)
    requires
        same_facts(vars, other),
    ensures
        forall|v: FunKindVarId, w: FunKindVarId| #[trigger]
            bounded_by(vars, v, w) == bounded_by(other, v, w),
        same_facts(other, vars),
{
    assert forall|v: FunKindVarId, w: FunKindVarId| #[trigger]
        bounded_by(vars, v, w) == bounded_by(other, v, w) by {
        let a = bounds_of(vars, v);
        let b = bounds_of(other, v);
        assert(a.lower.contains(FunKindS::Var(w)) || a.upper.contains(FunKindS::Var(w))
            <==> b.lower.contains(FunKindS::Var(w)) || b.upper.contains(FunKindS::Var(w)));
    }
    assert forall|v: FunKindVarId|
        {
            let a = #[trigger] bounds_of(other, v);
            let b = bounds_of(vars, v);
            &&& a.stamped == b.stamped
            &&& a.built_over == b.built_over
            &&& forall|k: FunKindS|
                a.lower.contains(k) || a.upper.contains(k) <==> b.lower.contains(k)
                    || b.upper.contains(k)
        } by {
        assert(bounds_of(vars, v) == bounds_of(vars, v));
    }
}

proof fn lemma_same_reaches(
    vars: Seq<BoundsS>,
    other: Seq<BoundsS>,
    v: FunKindVarId,
    w: FunKindVarId,
)
    requires
        same_facts(vars, other),
        reaches(vars, v, w),
    ensures
        reaches(other, v, w),
{
    lemma_same_bounded(vars, other);
    let path = choose|path: Seq<FunKindVarId>| #[trigger]
        is_path(vars, path) && path[0] == v && path[path.len() - 1] == w;
    assert(is_path(other, path)) by {
        assert forall|i: int| 0 <= i < path.len() - 1 implies bounded_by(
            other,
            #[trigger] path[i],
            path[i + 1],
        ) by {
            assert(bounded_by(vars, path[i], path[i + 1]));
        }
    }
}

proof fn lemma_same_width(
    vars: Seq<BoundsS>,
    other: Seq<BoundsS>,
    sources: Seq<FunKindS>,
    depth: nat,
)
    requires
        same_facts(vars, other),
    ensures
        total_width(vars, sources, depth) == total_width(other, sources, depth),
    decreases depth, 2int, sources.len(),
{
    if sources.len() > 0 {
        lemma_same_width(vars, other, sources.drop_last(), depth);
        match sources.last() {
            FunKindS::Var(x) => law_a_pin_does_not_tell_how_bounds_came(vars, other, x, depth),
            _ => {},
        }
        assert(kind_pin(vars, sources.last(), depth) == kind_pin(other, sources.last(), depth));
    }
}

proof fn lemma_same_covers(
    s: KindPin,
    vars: Seq<BoundsS>,
    other: Seq<BoundsS>,
    w: FunKindVarId,
    depth: nat,
)
    requires
        same_facts(vars, other),
        covers(s, vars, w, depth),
    ensures
        covers(s, other, w, depth),
    decreases depth, 0int, 0nat,
{
    let a = bounds_of(vars, w);
    let b = bounds_of(other, w);
    assert(a.built_over == b.built_over);
    if depth > 0 && a.built_over.len() > 0 {
        lemma_same_width(vars, other, a.built_over, (depth - 1) as nat);
    }
    assert forall|i: int| 0 <= i < b.lower.len() implies pin_le(own_pin(#[trigger] b.lower[i]), s) by {
        let k = b.lower[i];
        assert(b.lower.contains(k));
        if a.lower.contains(k) {
            let j = choose|j: int| 0 <= j < a.lower.len() && a.lower[j] == k;
            assert(pin_le(own_pin(a.lower[j]), s));
        } else {
            let j = choose|j: int| 0 <= j < a.upper.len() && a.upper[j] == k;
            assert(pin_le(own_pin(a.upper[j]), s));
        }
    }
    assert forall|i: int| 0 <= i < b.upper.len() implies pin_le(own_pin(#[trigger] b.upper[i]), s) by {
        let k = b.upper[i];
        assert(b.upper.contains(k));
        if a.lower.contains(k) {
            let j = choose|j: int| 0 <= j < a.lower.len() && a.lower[j] == k;
            assert(pin_le(own_pin(a.lower[j]), s));
        } else {
            let j = choose|j: int| 0 <= j < a.upper.len() && a.upper[j] == k;
            assert(pin_le(own_pin(a.upper[j]), s));
        }
    }
}

/// What a variable is pinned to does not depend on the side its bounds were
/// recorded on, nor on their order.
pub proof fn law_a_pin_does_not_tell_how_bounds_came(
    vars: Seq<BoundsS>,
    other: Seq<BoundsS>,
    v: FunKindVarId,
    depth: nat,
)
    requires
        same_facts(vars, other),
    ensures
        var_pin(vars, v, depth) == var_pin(other, v, depth),
    decreases depth, 1int, 0nat,
{
    lemma_same_bounded(vars, other);
    assert forall|s: KindPin| #[trigger] covers_all(s, vars, v, depth) implies covers_all(
        s,
        other,
        v,
        depth,
    ) by {
        assert forall|w: FunKindVarId| #[trigger] reaches(other, v, w) implies covers(
            s,
            other,
            w,
            depth,
        ) by {
            lemma_same_reaches(other, vars, v, w);
            lemma_same_covers(s, vars, other, w, depth);
        }
    }
    assert forall|s: KindPin| #[trigger] covers_all(s, other, v, depth) implies covers_all(
        s,
        vars,
        v,
        depth,
    ) by {
        assert forall|w: FunKindVarId| #[trigger] reaches(vars, v, w) implies covers(
            s,
            vars,
            w,
            depth,
        ) by {
            lemma_same_reaches(vars, other, v, w);
            lemma_same_covers(s, other, vars, w, depth);
        }
    }
    law_every_variable_has_a_pin(vars, v, depth);
    law_every_variable_has_a_pin(other, v, depth);
    let p = var_pin(vars, v, depth);
    assert(covers_all(p, other, v, depth)) by {
        assert(covers_all(p, vars, v, depth));
    }
    assert(is_least_pin(p, other, v, depth)) by {
        assert forall|s: KindPin| covers_all(s, other, v, depth) implies #[trigger] pin_le(p, s) by {
            assert(covers_all(s, vars, v, depth));
        }
    }
    lemma_least_pin_unique(p, var_pin(other, v, depth), other, v, depth);
}

} // verus!
