//! The law that no store is let wait for its own completion.

use vstd::prelude::*;
use crate::acyclic::{
    CycleS, awaited_in, clash, flattened, free_list, least_in, marks, marks_of, marks_upto,
    seed_cycle, site_cycle, site_key, site_store, store_at, store_cycle, store_of_key,
    with_marks,
};
use crate::ast::{BuiltinS, ExprS, HeadS};
use crate::awaits::{seeds_of, settled_awaits};
use crate::cross_domain::FoldS;
use crate::name::{
    NameS, lemma_name_lt_irreflexive, lemma_name_lt_total, lemma_name_lt_transitive,
};
use crate::name_map::{lemma_sorted_names, names_ascending};
use crate::partition::{SiteS, footprints, partitioned};
use crate::partition_laws::{
    in_some, law_keys_of_a_block_share, law_one_store_means_sharing,
    law_sharing_is_an_equivalence, law_stores_are_the_classes,
};
use crate::probe::{PickS, SignS, gathered, gathered_upto, opt_seq, shows};
use crate::scope::{free_in_value, own_ref, scope_of};
use crate::strip::HarvestS;
use crate::transact::{RunS, clean_strip, keys_of, lemma_keys_of, run_s, written_of};

verus! {

/// A value that a program gives a name: by a `let`, as the value a mutable variable
/// starts with, or by a write.
pub struct Given {
    pub name: NameS,
    pub value: ExprS,
}

/// What a node itself gives.
pub open spec fn given_here(e: ExprS) -> Seq<Given> {
    if e.kids.len() == 0 {
        Seq::empty()
    } else {
        match e.head {
            HeadS::Let(n) => seq![Given { name: n, value: e.kids[0] }],
            HeadS::MutDecl(n) => seq![Given { name: n, value: e.kids[0] }],
            HeadS::MutWrite(n) => seq![Given { name: n, value: e.kids[0] }],
            _ => Seq::empty(),
        }
    }
}

/// The values that a program gives names, in the order it is written in.
pub open spec fn given(e: ExprS) -> Seq<Given>
    decreases e, e.kids.len() + 1,
{
    given_here(e) + given_upto(e, e.kids.len())
}

pub open spec fn given_upto(e: ExprS, n: nat) -> Seq<Given>
    decreases e, n,
{
    if n == 0 || n > e.kids.len() {
        Seq::empty()
    } else {
        given_upto(e, (n - 1) as nat) + given(e.kids[n - 1])
    }
}

/// Whether `e` awaits the final value of `k`.
pub open spec fn awaits_key(k: NameS, e: ExprS) -> bool
    decreases e,
{
    (e.head is Apply && e.kids.len() == 2 && e.kids[0].head == HeadS::Builtin(BuiltinS::AwaitFinal)
        && e.kids[1].head == HeadS::Var(k)) || exists|i: int|
        0 <= i < e.kids.len() && awaits_key(k, #[trigger] e.kids[i])
}

/// Whether value `i` waits for `k`: it awaits it, or names something that was given a
/// value before that waits for it.
pub open spec fn value_waits(gs: Seq<Given>, i: int, k: NameS) -> bool
    decreases i,
{
    0 <= i < gs.len() && (awaits_key(k, gs[i].value) || exists|j: int|
        0 <= j < i && free_in_value((#[trigger] gs[j]).name, gs[i].value) && value_waits(gs, j, k))
}

/// Whether `e` waits for `k`, behind what the program has given values to.
pub open spec fn waits_for(gs: Seq<Given>, e: ExprS, k: NameS) -> bool {
    awaits_key(k, e) || exists|j: int|
        0 <= j < gs.len() && free_in_value((#[trigger] gs[j]).name, e) && value_waits(gs, j, k)
}

// ---- what is gathered ----

proof fn lemma_awaits_gathered(e: ExprS, k: NameS)
    ensures
        gathered(PickS::Awaited, e).contains(k) <==> awaits_key(k, e),
    decreases e, e.kids.len() + 1,
{
    let own = opt_seq(PickS::Awaited.at(e));
    let rest = gathered_upto(PickS::Awaited, e, e.kids.len());
    lemma_awaits_upto(e, e.kids.len(), k);
    let all = gathered(PickS::Awaited, e);
    assert(all == own + rest);
    lemma_in_sum(own, rest, k);
    assert(own.contains(k) <==> (e.head is Apply && e.kids.len() == 2 && e.kids[0].head
        == HeadS::Builtin(BuiltinS::AwaitFinal) && e.kids[1].head == HeadS::Var(k))) by {
        if PickS::Awaited.at(e) is Some {
            assert(own[0] == PickS::Awaited.at(e)->0);
        }
    }
}

proof fn lemma_awaits_upto(e: ExprS, n: nat, k: NameS)
    requires
        n <= e.kids.len(),
    ensures
        gathered_upto(PickS::Awaited, e, n).contains(k) <==> exists|i: int|
            0 <= i < n && awaits_key(k, #[trigger] e.kids[i]),
    decreases e, n,
{
    if n > 0 {
        lemma_awaits_upto(e, (n - 1) as nat, k);
        lemma_awaits_gathered(e.kids[n - 1], k);
        let a = gathered_upto(PickS::Awaited, e, (n - 1) as nat);
        let b = gathered(PickS::Awaited, e.kids[n - 1]);
        assert(gathered_upto(PickS::Awaited, e, n) == a + b);
        lemma_in_sum(a, b, k);
        if awaits_key(k, e.kids[n - 1]) {
            assert(exists|i: int| 0 <= i < n && awaits_key(k, #[trigger] e.kids[i]));
        }
    }
}

pub proof fn lemma_in_sum(a: Seq<NameS>, b: Seq<NameS>, k: NameS)
    ensures
        (a + b).contains(k) <==> a.contains(k) || b.contains(k),
{
    let s = a + b;
    if a.contains(k) {
        let i = choose|i: int| 0 <= i < a.len() && a[i] == k;
        assert(s[i] == k);
    }
    if b.contains(k) {
        let i = choose|i: int| 0 <= i < b.len() && b[i] == k;
        assert(s[a.len() + i] == k);
    }
    if s.contains(k) {
        let i = choose|i: int| 0 <= i < s.len() && s[i] == k;
        if i < a.len() {
            assert(a[i] == k);
        } else {
            assert(b[i - a.len()] == k);
        }
    }
}

// ---- the free names of a term in their order ----

proof fn lemma_with(s: Seq<NameS>, n: NameS) -> (t: Seq<NameS>)
    requires
        names_ascending(s),
    ensures
        names_ascending(t),
        forall|k: NameS| #[trigger] t.contains(k) <==> s.contains(k) || k == n,
    decreases s.len(),
{
    if s.len() == 0 {
        let t = seq![n];
        assert(t[0] == n);
        t
    } else {
        let init = s.drop_last();
        let last = s.last();
        lemma_name_lt_total(last, n);
        if last == n {
            assert(s[s.len() - 1] == n);
            s
        } else if last.lt(n) {
            let t = s.push(n);
            assert forall|i: int, j: int| 0 <= i < j < t.len() implies (#[trigger] t[i]).lt(
                #[trigger] t[j],
            ) by {
                if j == s.len() {
                    if i < s.len() - 1 {
                        assert(s[i].lt(s[s.len() - 1]));
                        lemma_name_lt_transitive(s[i], last, n);
                    }
                } else {
                    assert(s[i].lt(s[j]));
                }
            }
            assert forall|k: NameS| #[trigger] t.contains(k) <==> s.contains(k) || k == n by {
                if s.contains(k) {
                    let i = choose|i: int| 0 <= i < s.len() && s[i] == k;
                    assert(t[i] == k);
                }
                if k == n {
                    assert(t[s.len() as int] == k);
                }
            }
            t
        } else {
            assert(names_ascending(init)) by {
                assert forall|i: int, j: int| 0 <= i < j < init.len() implies (#[trigger] init[i]).lt(
                    #[trigger] init[j],
                ) by {
                    assert(s[i].lt(s[j]));
                }
            }
            let u = lemma_with(init, n);
            let t = u.push(last);
            assert forall|i: int, j: int| 0 <= i < j < t.len() implies (#[trigger] t[i]).lt(
                #[trigger] t[j],
            ) by {
                if j == u.len() {
                    assert(u.contains(u[i]));
                    if u[i] != n {
                        let x = choose|x: int| 0 <= x < init.len() && init[x] == u[i];
                        assert(s[x].lt(s[s.len() - 1]));
                    }
                } else {
                    assert(u[i].lt(u[j]));
                }
            }
            assert forall|k: NameS| #[trigger] t.contains(k) <==> s.contains(k) || k == n by {
                if u.contains(k) {
                    let i = choose|i: int| 0 <= i < u.len() && u[i] == k;
                    assert(t[i] == k);
                }
                if k == last {
                    assert(t[u.len() as int] == k);
                    assert(s[s.len() - 1] == k);
                }
                if init.contains(k) {
                    let i = choose|i: int| 0 <= i < init.len() && init[i] == k;
                    assert(s[i] == k);
                }
                if s.contains(k) {
                    let i = choose|i: int| 0 <= i < s.len() && s[i] == k;
                    if i < init.len() {
                        assert(init[i] == k);
                    }
                }
                if t.contains(k) {
                    let i = choose|i: int| 0 <= i < t.len() && t[i] == k;
                    if i < u.len() {
                        assert(u[i] == k);
                        assert(u.contains(k));
                    }
                }
            }
            t
        }
    }
}

proof fn lemma_union(a: Seq<NameS>, b: Seq<NameS>, n: nat) -> (t: Seq<NameS>)
    requires
        names_ascending(a),
        n <= b.len(),
    ensures
        names_ascending(t),
        forall|k: NameS| #[trigger] t.contains(k) <==> a.contains(k) || b.take(n as int).contains(k),
    decreases n,
{
    if n == 0 {
        assert(b.take(0) =~= Seq::empty());
        a
    } else {
        let u = lemma_union(a, b, (n - 1) as nat);
        let t = lemma_with(u, b[n - 1]);
        assert(b.take(n as int) =~= b.take(n - 1) + seq![b[n - 1]]);
        assert forall|k: NameS| #[trigger] t.contains(k) <==> a.contains(k) || b.take(
            n as int,
        ).contains(k) by {
            lemma_in_sum(b.take(n - 1), seq![b[n - 1]], k);
            assert(seq![b[n - 1]].contains(k) <==> k == b[n - 1]) by {
                assert(seq![b[n - 1]][0] == b[n - 1]);
            }
            assert(u.contains(k) <==> a.contains(k) || b.take(n - 1).contains(k));
        }
        t
    }
}

/// Every name in a term can be listed.
proof fn lemma_occurring(e: ExprS) -> (t: Seq<NameS>)
    ensures
        names_ascending(t),
        forall|k: NameS| #[trigger] free_in_value(k, e) ==> t.contains(k),
    decreases e, e.kids.len() + 1,
{
    let u = lemma_occurring_upto(e, e.kids.len());
    let t = match own_ref(e.head) {
        Some(n) => lemma_with(u, n),
        None => u,
    };
    assert forall|k: NameS| #[trigger] free_in_value(k, e) implies t.contains(k) by {
        if own_ref(e.head) != Some(k) {
            let i = choose|i: int|
                0 <= i < e.kids.len() && !scope_of(e.head, i).contains(k) && free_in_value(
                    k,
                    #[trigger] e.kids[i],
                );
            assert(free_in_value(k, e.kids[i]));
            assert(u.contains(k));
        }
    }
    t
}

proof fn lemma_occurring_upto(e: ExprS, n: nat) -> (t: Seq<NameS>)
    requires
        n <= e.kids.len(),
    ensures
        names_ascending(t),
        forall|k: NameS, i: int|
            0 <= i < n && #[trigger] free_in_value(k, e.kids[i]) ==> t.contains(k),
    decreases e, n,
{
    if n == 0 {
        Seq::empty()
    } else {
        let a = lemma_occurring_upto(e, (n - 1) as nat);
        let b = lemma_occurring(e.kids[n - 1]);
        let t = lemma_union(a, b, b.len());
        assert(b.take(b.len() as int) =~= b);
        assert forall|k: NameS, i: int|
            0 <= i < n && #[trigger] free_in_value(k, e.kids[i]) implies t.contains(k) by {
            if i == n - 1 {
                assert(b.contains(k));
            } else {
                assert(a.contains(k));
            }
        }
        t
    }
}

proof fn lemma_only_free(s: Seq<NameS>, e: ExprS) -> (t: Seq<NameS>)
    requires
        names_ascending(s),
    ensures
        names_ascending(t),
        forall|k: NameS| #[trigger] t.contains(k) <==> s.contains(k) && free_in_value(k, e),
    decreases s.len(),
{
    if s.len() == 0 {
        s
    } else {
        let init = s.drop_last();
        assert(names_ascending(init)) by {
            assert forall|i: int, j: int| 0 <= i < j < init.len() implies (#[trigger] init[i]).lt(
                #[trigger] init[j],
            ) by {
                assert(s[i].lt(s[j]));
            }
        }
        let u = lemma_only_free(init, e);
        assert(s =~= init + seq![s.last()]);
        assert forall|k: NameS| s.contains(k) <==> init.contains(k) || k == s.last() by {
            lemma_in_sum(init, seq![s.last()], k);
            assert(seq![s.last()][0] == s.last());
        }
        if free_in_value(s.last(), e) {
            lemma_with(u, s.last())
        } else {
            u
        }
    }
}

/// The free names of a term are listed.
proof fn lemma_free_list(e: ExprS, k: NameS)
    ensures
        free_list(e).contains(k) <==> free_in_value(k, e),
{
    let s = lemma_occurring(e);
    let t = lemma_only_free(s, e);
    let set = Set::new(|n: NameS| free_in_value(n, e));
    assert forall|n: NameS| t.contains(n) <==> set.contains(n) by {
        if free_in_value(n, e) {
            assert(s.contains(n));
        }
    }
    lemma_sorted_names(t, set);
}

// ---- the marks ----

proof fn lemma_marks_of(ns: Seq<NameS>, marked: Map<NameS, Seq<NameS>>, n: nat, k: NameS)
    requires
        n <= ns.len(),
    ensures
        marks_of(ns, marked, n).contains(k) <==> exists|i: int|
            0 <= i < n && marked.dom().contains(#[trigger] ns[i]) && marked[ns[i]].contains(k),
    decreases n,
{
    if n > 0 {
        lemma_marks_of(ns, marked, (n - 1) as nat, k);
        let before = marks_of(ns, marked, (n - 1) as nat);
        if marked.dom().contains(ns[n - 1]) {
            lemma_in_sum(before, marked[ns[n - 1]], k);
        }
    }
}

/// What a term waits for by the marks.
proof fn lemma_awaited_in(e: ExprS, marked: Map<NameS, Seq<NameS>>, k: NameS)
    ensures
        awaited_in(e, marked).contains(k) <==> awaits_key(k, e) || exists|n: NameS|
            free_in_value(n, e) && #[trigger] marked.dom().contains(n) && marked[n].contains(k),
{
    let ns = free_list(e);
    lemma_awaits_gathered(e, k);
    lemma_marks_of(ns, marked, ns.len(), k);
    lemma_in_sum(gathered(PickS::Awaited, e), marks_of(ns, marked, ns.len()), k);
    if exists|i: int|
        0 <= i < ns.len() && marked.dom().contains(#[trigger] ns[i]) && marked[ns[i]].contains(k) {
        let i = choose|i: int|
            0 <= i < ns.len() && marked.dom().contains(#[trigger] ns[i]) && marked[ns[i]].contains(k);
        assert(ns.contains(ns[i]));
        lemma_free_list(e, ns[i]);
        assert(marked.dom().contains(ns[i]));
    }
    if exists|n: NameS|
        free_in_value(n, e) && #[trigger] marked.dom().contains(n) && marked[n].contains(k) {
        let n = choose|n: NameS|
            free_in_value(n, e) && #[trigger] marked.dom().contains(n) && marked[n].contains(k);
        lemma_free_list(e, n);
        let i = choose|i: int| 0 <= i < ns.len() && ns[i] == n;
        assert(marked.dom().contains(ns[i]));
    }
}

/// `marked` after the first `n` of `gs`.
spec fn marked_by(marked: Map<NameS, Seq<NameS>>, gs: Seq<Given>, n: nat) -> Map<NameS, Seq<NameS>>
    decreases n,
{
    if n == 0 || n > gs.len() {
        marked
    } else {
        let before = marked_by(marked, gs, (n - 1) as nat);
        with_marks(before, gs[n - 1].name, awaited_in(gs[n - 1].value, before))
    }
}

proof fn lemma_marked_sum(marked: Map<NameS, Seq<NameS>>, a: Seq<Given>, b: Seq<Given>, n: nat)
    requires
        n <= b.len(),
    ensures
        marked_by(marked, a + b, (a.len() + n) as nat) == marked_by(
            marked_by(marked, a, a.len()),
            b,
            n,
        ),
    decreases n,
{
    if n == 0 {
        lemma_marked_start(marked, a, b, a.len());
    } else {
        lemma_marked_sum(marked, a, b, (n - 1) as nat);
        assert((a + b)[a.len() + n - 1] == b[n - 1]);
    }
}

proof fn lemma_marked_start(marked: Map<NameS, Seq<NameS>>, a: Seq<Given>, b: Seq<Given>, n: nat)
    requires
        n <= a.len(),
    ensures
        marked_by(marked, a + b, n) == marked_by(marked, a, n),
    decreases n,
{
    if n > 0 {
        lemma_marked_start(marked, a, b, (n - 1) as nat);
        assert((a + b)[n - 1] == a[n - 1]);
    }
}

/// The marks of a program are those of the values it gives, one after the other.
proof fn lemma_marks(e: ExprS, marked: Map<NameS, Seq<NameS>>)
    ensures
        marks(e, marked) == marked_by(marked, given(e), given(e).len()),
    decreases e, e.kids.len() + 1,
{
    let here = given_here(e);
    let own = marked_by(marked, here, here.len());
    if here.len() > 0 {
        assert(marked_by(marked, here, 0) == marked);
        assert(own == with_marks(marked, here[0].name, awaited_in(here[0].value, marked)));
    }
    lemma_marks_upto(e, own, e.kids.len());
    let rest = given_upto(e, e.kids.len());
    assert(given(e) == here + rest);
    lemma_marked_sum(marked, here, rest, rest.len());
}

proof fn lemma_marks_upto(e: ExprS, marked: Map<NameS, Seq<NameS>>, n: nat)
    requires
        n <= e.kids.len(),
    ensures
        marks_upto(e, marked, n) == marked_by(marked, given_upto(e, n), given_upto(e, n).len()),
    decreases e, n,
{
    if n > 0 {
        lemma_marks_upto(e, marked, (n - 1) as nat);
        let a = given_upto(e, (n - 1) as nat);
        let b = given(e.kids[n - 1]);
        lemma_marks(e.kids[n - 1], marked_by(marked, a, a.len()));
        lemma_marked_sum(marked, a, b, b.len());
    }
}

/// What a name is marked with is what a value it was given waits for.
proof fn lemma_marked(gs: Seq<Given>, n: nat, x: NameS, k: NameS)
    requires
        n <= gs.len(),
    ensures
        ({
            let marked = marked_by(Map::empty(), gs, n);
            (marked.dom().contains(x) && marked[x].contains(k)) <==> exists|j: int|
                0 <= j < n && (#[trigger] gs[j]).name == x && value_waits(gs, j, k)
        }),
    decreases n,
{
    if n > 0 {
        let before = marked_by(Map::empty(), gs, (n - 1) as nat);
        let g = gs[n - 1];
        let keys = awaited_in(g.value, before);
        lemma_marked(gs, (n - 1) as nat, x, k);
        lemma_awaited_in(g.value, before, k);
        // the value waits by the marks exactly where it waits
        if keys.contains(k) && !awaits_key(k, g.value) {
            let y = choose|y: NameS|
                free_in_value(y, g.value) && #[trigger] before.dom().contains(y) && before[y].contains(k);
            lemma_marked(gs, (n - 1) as nat, y, k);
            let j = choose|j: int|
                0 <= j < n - 1 && (#[trigger] gs[j]).name == y && value_waits(gs, j, k);
            assert(value_waits(gs, j, k));
            assert(value_waits(gs, n - 1, k));
        }
        if value_waits(gs, n - 1, k) && !awaits_key(k, g.value) {
            let j = choose|j: int|
                0 <= j < n - 1 && free_in_value((#[trigger] gs[j]).name, g.value) && value_waits(
                    gs,
                    j,
                    k,
                );
            lemma_marked(gs, (n - 1) as nat, gs[j].name, k);
            assert(value_waits(gs, j, k));
            assert(before.dom().contains(gs[j].name));
        }
        assert(keys.contains(k) <==> value_waits(gs, n - 1, k));
        if before.dom().contains(g.name) {
            lemma_in_sum(before[g.name], keys, k);
        }
        let marked = marked_by(Map::empty(), gs, n);
        assert(marked == with_marks(before, g.name, keys));
        if x == g.name {
            if keys.contains(k) {
                assert(value_waits(gs, n - 1, k));
            }
        }
    }
}

/// A term waits by the marks of a program exactly for what it waits for behind it.
proof fn lemma_waits_for(e: ExprS, t: ExprS, k: NameS)
    ensures
        awaited_in(t, marks(e, Map::empty())).contains(k) <==> waits_for(given(e), t, k),
{
    let gs = given(e);
    let marked = marks(e, Map::empty());
    lemma_marks(e, Map::empty());
    lemma_awaited_in(t, marked, k);
    if exists|y: NameS|
        free_in_value(y, t) && #[trigger] marked.dom().contains(y) && marked[y].contains(k) {
        let y = choose|y: NameS|
            free_in_value(y, t) && #[trigger] marked.dom().contains(y) && marked[y].contains(k);
        lemma_marked(gs, gs.len(), y, k);
        let j = choose|j: int| 0 <= j < gs.len() && (#[trigger] gs[j]).name == y && value_waits(gs, j, k);
        assert(value_waits(gs, j, k));
    }
    if exists|j: int|
        0 <= j < gs.len() && free_in_value((#[trigger] gs[j]).name, t) && value_waits(gs, j, k) {
        let j = choose|j: int|
            0 <= j < gs.len() && free_in_value((#[trigger] gs[j]).name, t) && value_waits(gs, j, k);
        lemma_marked(gs, gs.len(), gs[j].name, k);
        assert(marked.dom().contains(gs[j].name));
    }
}

// ---- stores ----

/// Whether no key is in two stores.
pub open spec fn stores_apart(groups: Seq<Seq<NameS>>) -> bool {
    forall|g: int, h: int, k: NameS|
        0 <= g < groups.len() && 0 <= h < groups.len() && #[trigger] groups[g].contains(k)
            && #[trigger] groups[h].contains(k) ==> g == h
}

/// Whether a site reads or writes a key.
pub open spec fn touches(s: SiteS, k: NameS) -> bool {
    s.read_keys.contains(k) || s.write_keys.contains(k)
}

/// Whether what a site touches is in one store.
pub open spec fn in_one_store(s: SiteS, groups: Seq<Seq<NameS>>) -> bool {
    forall|a: NameS, b: NameS, g: int|
        #[trigger] touches(s, a) && #[trigger] touches(s, b) && 0 <= g < groups.len()
            && #[trigger] groups[g].contains(a) ==> groups[g].contains(b)
}

/// Whether the two keys are in one store.
pub open spec fn share_store(groups: Seq<Seq<NameS>>, a: NameS, b: NameS) -> bool {
    exists|g: int|
        0 <= g < groups.len() && #[trigger] groups[g].contains(a) && groups[g].contains(b)
}

proof fn lemma_store_at(groups: Seq<Seq<NameS>>, k: NameS, n: nat)
    requires
        n <= groups.len(),
    ensures
        match store_of_key(groups, k, n) {
            Some(g) => 0 <= g < n && groups[g].contains(k),
            None => forall|g: int| 0 <= g < n ==> !(#[trigger] groups[g]).contains(k),
        },
    decreases n,
{
    if n > 0 {
        lemma_store_at(groups, k, (n - 1) as nat);
    }
}

proof fn lemma_least_in(ks: Seq<NameS>, groups: Seq<Seq<NameS>>, g: int, n: nat)
    requires
        n <= ks.len(),
    ensures
        match least_in(ks, groups, g, n) {
            Some(k) => ks.contains(k) && store_at(groups, k) == Some(g) && forall|i: int|
                0 <= i < n && store_at(groups, #[trigger] ks[i]) == Some(g) ==> !ks[i].lt(k),
            None => forall|i: int|
                0 <= i < n ==> store_at(groups, #[trigger] ks[i]) != Some(g),
        },
    decreases n,
{
    if n > 0 {
        lemma_least_in(ks, groups, g, (n - 1) as nat);
        let k = ks[n - 1];
        lemma_name_lt_irreflexive(k);
        match (least_in(ks, groups, g, (n - 1) as nat), least_in(ks, groups, g, n)) {
            (Some(b), Some(out)) => {
                assert forall|i: int|
                    0 <= i < n && store_at(groups, #[trigger] ks[i]) == Some(g) implies !ks[i].lt(
                    out,
                ) by {
                    if i < n - 1 && out == k && ks[i].lt(k) {
                        lemma_name_lt_transitive(ks[i], k, b);
                    }
                }
            },
            _ => {},
        }
    }
}

/// A clash is with a key of the store that is awaited.
proof fn lemma_clash(awaited: Seq<NameS>, groups: Seq<Seq<NameS>>, k: NameS)
    requires
        stores_apart(groups),
    ensures
        match clash(awaited, groups, store_at(groups, k)) {
            Some(j) => awaited.contains(j) && share_store(groups, k, j) && forall|i: NameS|
                #[trigger] awaited.contains(i) && share_store(groups, k, i) ==> !i.lt(j),
            None => forall|j: NameS| #[trigger] awaited.contains(j) ==> !share_store(groups, k, j),
        },
{
    lemma_store_at(groups, k, groups.len());
    match store_at(groups, k) {
        Some(g) => {
            lemma_least_in(awaited, groups, g, awaited.len());
            match least_in(awaited, groups, g, awaited.len()) {
                Some(j) => {
                    lemma_store_at(groups, j, groups.len());
                    assert(groups[g].contains(k));
                    assert(share_store(groups, k, j));
                    assert forall|i: NameS| #[trigger] awaited.contains(i) && share_store(
                        groups,
                        k,
                        i,
                    ) implies !i.lt(j) by {
                        let h = choose|h: int|
                            0 <= h < groups.len() && #[trigger] groups[h].contains(k)
                                && groups[h].contains(i);
                        assert(h == g);
                        lemma_store_at(groups, i, groups.len());
                        assert(groups[h].contains(i));
                        let x = choose|x: int| 0 <= x < awaited.len() && awaited[x] == i;
                        assert(store_at(groups, awaited[x]) == Some(g));
                    }
                },
                None => {
                    assert forall|j: NameS| #[trigger] awaited.contains(j) implies !share_store(
                        groups,
                        k,
                        j,
                    ) by {
                        if share_store(groups, k, j) {
                            let h = choose|h: int|
                                0 <= h < groups.len() && #[trigger] groups[h].contains(k)
                                    && groups[h].contains(j);
                            assert(h == g);
                            lemma_store_at(groups, j, groups.len());
                            assert(groups[h].contains(j));
                            let i = choose|i: int| 0 <= i < awaited.len() && awaited[i] == j;
                            assert(store_at(groups, awaited[i]) != Some(g));
                            assert(store_at(groups, j) == Some(g));
                        }
                    }
                },
            }
        },
        None => {
            assert forall|j: NameS| #[trigger] awaited.contains(j) implies !share_store(
                groups,
                k,
                j,
            ) by {}
        },
    }
}

proof fn lemma_flattened(groups: Seq<Seq<NameS>>, n: nat, k: NameS)
    requires
        n <= groups.len(),
    ensures
        flattened(groups, n).contains(k) <==> exists|g: int|
            0 <= g < n && (#[trigger] groups[g]).contains(k),
    decreases n,
{
    if n > 0 {
        lemma_flattened(groups, (n - 1) as nat, k);
        lemma_in_sum(flattened(groups, (n - 1) as nat), groups[n - 1], k);
    }
}

proof fn lemma_seed_cycle(
    e: ExprS,
    ks: Seq<NameS>,
    inits: Map<NameS, ExprS>,
    groups: Seq<Seq<NameS>>,
    n: nat,
)
    requires
        stores_apart(groups),
        n <= ks.len(),
    ensures
        match seed_cycle(ks, inits, marks(e, Map::empty()), groups, n) {
            Some(CycleS::Seed(k, j)) => share_store(groups, k, j) && waits_for(
                given(e),
                inits[k],
                j,
            ) && forall|i: NameS|
                #[trigger] share_store(groups, k, i) && waits_for(given(e), inits[k], i) ==> !i.lt(
                    j,
                ),
            Some(_) => false,
            None => forall|i: int, j: NameS|
                0 <= i < n && #[trigger] share_store(groups, ks[i], j) ==> !waits_for(
                    given(e),
                    inits[ks[i]],
                    j,
                ),
        },
    decreases n,
{
    if n > 0 {
        lemma_seed_cycle(e, ks, inits, groups, (n - 1) as nat);
        let k = ks[n - 1];
        let awaited = awaited_in(inits[k], marks(e, Map::empty()));
        lemma_clash(awaited, groups, k);
        match clash(awaited, groups, store_at(groups, k)) {
            Some(j) => {
                lemma_waits_for(e, inits[k], j);
                assert forall|i: NameS|
                    #[trigger] share_store(groups, k, i) && waits_for(
                        given(e),
                        inits[k],
                        i,
                    ) implies !i.lt(j) by {
                    lemma_waits_for(e, inits[k], i);
                    assert(awaited.contains(i));
                }
            },
            None => {
                assert forall|j: NameS| #[trigger] share_store(groups, k, j) implies !waits_for(
                    given(e),
                    inits[k],
                    j,
                ) by {
                    lemma_waits_for(e, inits[k], j);
                    if awaited.contains(j) {
                        assert(!share_store(groups, k, j));
                    }
                }
            },
        }
    }
}

/// Whether a site feeds a store that what it waits for is read out of.
pub open spec fn site_waits_on_itself(
    gs: Seq<Given>,
    groups: Seq<Seq<NameS>>,
    s: SiteS,
    t: ExprS,
    k: NameS,
) -> bool {
    waits_for(gs, t, k) && exists|j: NameS| #[trigger] touches(s, j) && share_store(groups, j, k)
}

proof fn lemma_site_clash(
    e: ExprS,
    groups: Seq<Seq<NameS>>,
    s: SiteS,
    t: ExprS,
)
    requires
        stores_apart(groups),
        in_one_store(s, groups),
    ensures
        match clash(awaited_in(t, marks(e, Map::empty())), groups, site_store(s, groups)) {
            Some(k) => site_waits_on_itself(given(e), groups, s, t, k),
            None => forall|k: NameS| !#[trigger] site_waits_on_itself(given(e), groups, s, t, k),
        },
{
    let awaited = awaited_in(t, marks(e, Map::empty()));
    match site_key(s) {
        Some(x) => {
            assert(touches(s, x)) by {
                if s.write_keys.len() > 0 {
                    assert(s.write_keys[0] == x);
                } else {
                    assert(s.read_keys[0] == x);
                }
            }
            lemma_clash(awaited, groups, x);
            match clash(awaited, groups, store_at(groups, x)) {
                Some(k) => {
                    lemma_waits_for(e, t, k);
                    assert(touches(s, x) && share_store(groups, x, k));
                },
                None => {
                    assert forall|k: NameS| !#[trigger] site_waits_on_itself(
                        given(e),
                        groups,
                        s,
                        t,
                        k,
                    ) by {
                        if site_waits_on_itself(given(e), groups, s, t, k) {
                            lemma_waits_for(e, t, k);
                            assert(awaited.contains(k));
                            let j = choose|j: NameS| #[trigger] touches(s, j) && share_store(
                                groups,
                                j,
                                k,
                            );
                            let g = choose|g: int|
                                0 <= g < groups.len() && #[trigger] groups[g].contains(j)
                                    && groups[g].contains(k);
                            assert(groups[g].contains(x));
                            assert(share_store(groups, x, k));
                        }
                    }
                },
            }
        },
        None => {
            assert forall|k: NameS| !#[trigger] site_waits_on_itself(
                given(e),
                groups,
                s,
                t,
                k,
            ) by {
                if exists|j: NameS| #[trigger] touches(s, j) && share_store(groups, j, k) {
                    let j = choose|j: NameS| #[trigger] touches(s, j) && share_store(groups, j, k);
                    assert(s.read_keys.contains(j) || s.write_keys.contains(j));
                }
            }
        },
    }
}

proof fn lemma_site_cycle(e: ExprS, sites: Seq<SiteS>, groups: Seq<Seq<NameS>>, n: nat)
    requires
        stores_apart(groups),
        forall|i: int| 0 <= i < sites.len() ==> in_one_store(#[trigger] sites[i], groups),
        n <= sites.len(),
    ensures
        match site_cycle(sites, marks(e, Map::empty()), groups, n) {
            Some(CycleS::Source(k)) => exists|i: int|
                0 <= i < n && site_waits_on_itself(
                    given(e),
                    groups,
                    #[trigger] sites[i],
                    sites[i].source,
                    k,
                ),
            Some(CycleS::Body(k)) => exists|i: int|
                0 <= i < n && site_waits_on_itself(
                    given(e),
                    groups,
                    #[trigger] sites[i],
                    sites[i].block,
                    k,
                ),
            Some(_) => false,
            None => forall|i: int, k: NameS|
                #![trigger touches(sites[i], k)]
                #![trigger waits_for(given(e), sites[i].source, k)]
                #![trigger waits_for(given(e), sites[i].block, k)]
                0 <= i < n ==> !site_waits_on_itself(given(e), groups, sites[i], sites[i].source, k)
                    && !site_waits_on_itself(given(e), groups, sites[i], sites[i].block, k),
        },
    decreases n,
{
    if n > 0 {
        lemma_site_cycle(e, sites, groups, (n - 1) as nat);
        let s = sites[n - 1];
        assert(in_one_store(s, groups));
        lemma_site_clash(e, groups, s, s.source);
        lemma_site_clash(e, groups, s, s.block);
    }
}

/// A program is let through exactly where no store waits for its own completion: no
/// value that a key starts with waits for a key of the same store, and neither what a
/// writer runs over nor what it does waits for a key of the store it touches. What is
/// reported otherwise is so, and of a starting value the least key it waits for.
///
/// A value waits for a key where it awaits it, and where it names something that was
/// given, before it in the program, a value that waits for it.
pub proof fn law_no_store_awaits_itself(
    e: ExprS,
    sites: Seq<SiteS>,
    inits: Map<NameS, ExprS>,
    groups: Seq<Seq<NameS>>,
)
    requires
        stores_apart(groups),
        forall|i: int| 0 <= i < sites.len() ==> in_one_store(#[trigger] sites[i], groups),
    ensures
        store_cycle(e, sites, inits, groups) is None <==> (forall|k: NameS, j: NameS|
            #[trigger] share_store(groups, k, j) ==> !waits_for(given(e), inits[k], j)) && (forall|
            i: int,
            k: NameS,
        |
            #![trigger touches(sites[i], k)]
            #![trigger waits_for(given(e), sites[i].source, k)]
            #![trigger waits_for(given(e), sites[i].block, k)]
            0 <= i < sites.len() ==> !site_waits_on_itself(
                given(e),
                groups,
                sites[i],
                sites[i].source,
                k,
            ) && !site_waits_on_itself(given(e), groups, sites[i], sites[i].block, k)),
        match store_cycle(e, sites, inits, groups) {
            Some(CycleS::Seed(k, j)) => share_store(groups, k, j) && waits_for(
                given(e),
                inits[k],
                j,
            ) && forall|i: NameS|
                #[trigger] share_store(groups, k, i) && waits_for(given(e), inits[k], i) ==> !i.lt(
                    j,
                ),
            Some(CycleS::Source(k)) => exists|i: int|
                0 <= i < sites.len() && site_waits_on_itself(
                    given(e),
                    groups,
                    #[trigger] sites[i],
                    sites[i].source,
                    k,
                ),
            Some(CycleS::Body(k)) => exists|i: int|
                0 <= i < sites.len() && site_waits_on_itself(
                    given(e),
                    groups,
                    #[trigger] sites[i],
                    sites[i].block,
                    k,
                ),
            None => true,
        },
{
    let ks = flattened(groups, groups.len());
    let marked = marks(e, Map::empty());
    lemma_seed_cycle(e, ks, inits, groups, ks.len());
    lemma_site_cycle(e, sites, groups, sites.len());
    if seed_cycle(ks, inits, marked, groups, ks.len()) is None {
        assert forall|k: NameS, j: NameS| #[trigger] share_store(groups, k, j) implies !waits_for(
            given(e),
            inits[k],
            j,
        ) by {
            let g = choose|g: int|
                0 <= g < groups.len() && #[trigger] groups[g].contains(k) && groups[g].contains(j);
            lemma_flattened(groups, groups.len(), k);
            assert(groups[g].contains(k));
            let i = choose|i: int| 0 <= i < ks.len() && ks[i] == k;
            assert(share_store(groups, ks[i], j));
        }
        match site_cycle(sites, marked, groups, sites.len()) {
            Some(CycleS::Source(k)) => {
                let i = choose|i: int|
                    0 <= i < sites.len() && site_waits_on_itself(
                        given(e),
                        groups,
                        #[trigger] sites[i],
                        sites[i].source,
                        k,
                    );
                assert(waits_for(given(e), sites[i].source, k));
            },
            Some(CycleS::Body(k)) => {
                let i = choose|i: int|
                    0 <= i < sites.len() && site_waits_on_itself(
                        given(e),
                        groups,
                        #[trigger] sites[i],
                        sites[i].block,
                        k,
                    );
                assert(waits_for(given(e), sites[i].block, k));
            },
            _ => {},
        }
    }
}

/// The stores of a program are apart, and all that a writer touches is in one of them.
pub proof fn law_a_writer_touches_one_store(sites: Seq<SiteS>, read_only: Seq<Seq<NameS>>)
    ensures
        ({
            let groups = partitioned(keys_of(sites, sites.len()), footprints(sites, read_only));
            stores_apart(groups) && forall|i: int|
                0 <= i < sites.len() ==> in_one_store(#[trigger] sites[i], groups)
        }),
{
    let ks = keys_of(sites, sites.len());
    let fps = footprints(sites, read_only);
    let groups = partitioned(ks, fps);
    lemma_keys_of(sites, sites.len());
    law_stores_are_the_classes(ks, fps);
    assert forall|g: int, h: int, k: NameS|
        0 <= g < groups.len() && 0 <= h < groups.len() && #[trigger] groups[g].contains(k)
            && #[trigger] groups[h].contains(k) implies g == h by {
        law_one_store_means_sharing(ks, fps, g, h, k, k);
        law_sharing_is_an_equivalence(ks, fps, k, k, k);
    }
    assert forall|i: int| 0 <= i < sites.len() implies in_one_store(#[trigger] sites[i], groups) by {
        let s = sites[i];
        let all = s.read_keys + s.write_keys;
        assert(fps[i] == all);
        assert forall|a: NameS, b: NameS, g: int|
            #[trigger] touches(s, a) && #[trigger] touches(s, b) && 0 <= g < groups.len()
                && #[trigger] groups[g].contains(a) implies groups[g].contains(b) by {
            lemma_in_sum(s.read_keys, s.write_keys, a);
            lemma_in_sum(s.read_keys, s.write_keys, b);
            assert((sites[i].read_keys + sites[i].write_keys).contains(a));
            assert((sites[i].read_keys + sites[i].write_keys).contains(b));
            law_keys_of_a_block_share(ks, fps, i, a, b);
            let x = choose|x: int| 0 <= x < ks.len() && ks[x] == b;
            assert(in_some(groups, ks[x]));
            let h = choose|h: int| 0 <= h < groups.len() && (#[trigger] groups[h]).contains(b);
            law_one_store_means_sharing(ks, fps, g, h, a, b);
        }
    }
}

/// A program whose writers were taken out is turned down only for a store that waits
/// for its own completion, and where one does it is never carried through.
pub proof fn law_a_program_that_awaits_itself_is_turned_down(
    e: ExprS,
    txn: Seq<NameS>,
    folds: Seq<FoldS>,
    uid: u64,
    s: ExprS,
    h: HarvestS,
)
    requires
        clean_strip(e, txn) == Some((s, h)),
        h.sites.len() > 0,
        txn.len() > 0 || shows(SignS::Begin, e),
    ensures
        ({
            let t = settled_awaits(s, written_of(h.sites, h.sites.len()));
            let keys = keys_of(h.sites, h.sites.len());
            let groups = partitioned(keys, footprints(h.sites, h.read_only));
            let seeds = seeds_of(t, keys);
            let run = run_s(e, txn, folds, uid);
            &&& run matches RunS::Rejected(CycleS::Seed(k, j)) ==> share_store(groups, k, j)
                && waits_for(given(t), seeds[k], j)
            &&& run matches RunS::Rejected(CycleS::Source(k)) ==> exists|i: int|
                0 <= i < h.sites.len() && site_waits_on_itself(
                    given(t),
                    groups,
                    #[trigger] h.sites[i],
                    h.sites[i].source,
                    k,
                )
            &&& run matches RunS::Rejected(CycleS::Body(k)) ==> exists|i: int|
                0 <= i < h.sites.len() && site_waits_on_itself(
                    given(t),
                    groups,
                    #[trigger] h.sites[i],
                    h.sites[i].block,
                    k,
                )
            &&& run is Done ==> (forall|k: NameS, j: NameS|
                #[trigger] share_store(groups, k, j) ==> !waits_for(given(t), seeds[k], j)) && (
            forall|i: int, k: NameS|
                #![trigger touches(h.sites[i], k)]
                #![trigger waits_for(given(t), h.sites[i].source, k)]
                #![trigger waits_for(given(t), h.sites[i].block, k)]
                0 <= i < h.sites.len() ==> !site_waits_on_itself(
                    given(t),
                    groups,
                    h.sites[i],
                    h.sites[i].source,
                    k,
                ) && !site_waits_on_itself(given(t), groups, h.sites[i], h.sites[i].block, k))
        }),
{
    let t = settled_awaits(s, written_of(h.sites, h.sites.len()));
    let keys = keys_of(h.sites, h.sites.len());
    let groups = partitioned(keys, footprints(h.sites, h.read_only));
    let seeds = seeds_of(t, keys);
    law_a_writer_touches_one_store(h.sites, h.read_only);
    law_no_store_awaits_itself(t, h.sites, seeds, groups);
}

// ---- waiting as a relation ----

/// Whether `r` holds of every value that awaits a key, and of every value that names
/// something that was given, anywhere in the program, a value it holds of.
pub open spec fn passes_on(gs: Seq<Given>, r: spec_fn(int, NameS) -> bool) -> bool {
    forall|i: int, k: NameS|
        #![trigger r(i, k)]
        0 <= i < gs.len() && (awaits_key(k, gs[i].value) || exists|j: int|
            0 <= j < gs.len() && free_in_value((#[trigger] gs[j]).name, gs[i].value) && r(j, k))
            ==> r(i, k)
}

/// Whether what a value names is given only before it.
pub open spec fn given_first(gs: Seq<Given>) -> bool {
    forall|i: int, j: int|
        0 <= i < gs.len() && 0 <= j < gs.len() && free_in_value(
            (#[trigger] gs[j]).name,
            (#[trigger] gs[i]).value,
        ) ==> j < i
}

/// No value waits for a key but those that must, by what they await and what they name.
pub proof fn law_nothing_waits_but_what_must(
    gs: Seq<Given>,
    r: spec_fn(int, NameS) -> bool,
    i: int,
    k: NameS,
)
    requires
        passes_on(gs, r),
        value_waits(gs, i, k),
    ensures
        r(i, k),
    decreases i,
{
    let shown = r(i, k);
    if !awaits_key(k, gs[i].value) {
        let j = choose|j: int|
            0 <= j < i && free_in_value((#[trigger] gs[j]).name, gs[i].value) && value_waits(
                gs,
                j,
                k,
            );
        law_nothing_waits_but_what_must(gs, r, j, k);
    }
}

/// Where a program gives names their values before it reads them, all that must wait
/// does: waiting is then the least relation that holds of what awaits a key and of what
/// names something given a value that it holds of.
pub proof fn law_what_must_wait_waits(gs: Seq<Given>)
    requires
        given_first(gs),
    ensures
        passes_on(gs, |i: int, k: NameS| value_waits(gs, i, k)),
{
    let r = |i: int, k: NameS| value_waits(gs, i, k);
    assert forall|i: int, k: NameS|
        #![trigger r(i, k)]
        0 <= i < gs.len() && (awaits_key(k, gs[i].value) || exists|j: int|
            0 <= j < gs.len() && free_in_value((#[trigger] gs[j]).name, gs[i].value) && r(
                j,
                k,
            )) implies r(i, k) by {
        if !awaits_key(k, gs[i].value) {
            let j = choose|j: int|
                0 <= j < gs.len() && free_in_value((#[trigger] gs[j]).name, gs[i].value) && r(j, k);
            assert(value_waits(gs, j, k));
            assert(j < i);
        }
        assert(value_waits(gs, i, k));
    }
}

} // verus!
