//! The laws of where keys get their first values, of giving references another name, and
//! of what a run of a block commits.

use vstd::prelude::*;
use crate::ast::{ExprS, HeadS};
use crate::awaits::{seeds, seeds_of, seeds_upto};
use crate::block_laws::Ran;
use crate::decision::TapS;
use crate::history_laws::decided_write;
use crate::join_laws::binds_not;
use crate::meaning::{Meant, Model, Val, Valuation, meant, setting, setting_all};
use crate::meaning_laws::{kid_alike, lemma_alike};
use crate::name::NameS;
use crate::scope::scope_of;
use crate::subst_laws::leafy;
use crate::swap::{kids_renamed, uses_renamed};
use crate::waiting_laws::Given;
use crate::writer_laws::decides;

verus! {

/// The mutable variables that a program declares with the values they start with, in the
/// order it is written in.
pub open spec fn declarations(e: ExprS) -> Seq<Given>
    decreases e, e.kids.len() + 1,
{
    (if e.head is MutDecl && e.kids.len() == 2 {
        seq![Given { name: e.head->MutDecl_0, value: e.kids[0] }]
    } else {
        Seq::empty()
    }) + declarations_upto(e, e.kids.len())
}

pub open spec fn declarations_upto(e: ExprS, n: nat) -> Seq<Given>
    decreases e, n,
{
    if n == 0 || n > e.kids.len() {
        Seq::empty()
    } else {
        declarations_upto(e, (n - 1) as nat) + declarations(e.kids[n - 1])
    }
}

/// Whether `i` is the first place of `ds` that is of `k`.
pub open spec fn first_of(ds: Seq<Given>, k: NameS, i: int) -> bool {
    0 <= i < ds.len() && ds[i].name == k && forall|j: int|
        0 <= j < i ==> (#[trigger] ds[j]).name != k
}

/// `acc` with the first of the first `n` of `ds` for each key that it lacks.
spec fn taken_up(acc: Map<NameS, ExprS>, keys: Seq<NameS>, ds: Seq<Given>, n: nat) -> Map<
    NameS,
    ExprS,
>
    decreases n,
{
    if n == 0 || n > ds.len() {
        acc
    } else {
        let before = taken_up(acc, keys, ds, (n - 1) as nat);
        let d = ds[n - 1];
        if keys.contains(d.name) && !before.dom().contains(d.name) {
            before.insert(d.name, d.value)
        } else {
            before
        }
    }
}

proof fn lemma_taken_sum(
    acc: Map<NameS, ExprS>,
    keys: Seq<NameS>,
    a: Seq<Given>,
    b: Seq<Given>,
    n: nat,
)
    requires
        n <= b.len(),
    ensures
        taken_up(acc, keys, a + b, (a.len() + n) as nat) == taken_up(
            taken_up(acc, keys, a, a.len()),
            keys,
            b,
            n,
        ),
    decreases n,
{
    if n == 0 {
        lemma_taken_start(acc, keys, a, b, a.len());
    } else {
        lemma_taken_sum(acc, keys, a, b, (n - 1) as nat);
        assert((a + b)[a.len() + n - 1] == b[n - 1]);
    }
}

proof fn lemma_taken_start(
    acc: Map<NameS, ExprS>,
    keys: Seq<NameS>,
    a: Seq<Given>,
    b: Seq<Given>,
    n: nat,
)
    requires
        n <= a.len(),
    ensures
        taken_up(acc, keys, a + b, n) == taken_up(acc, keys, a, n),
    decreases n,
{
    if n > 0 {
        lemma_taken_start(acc, keys, a, b, (n - 1) as nat);
        assert((a + b)[n - 1] == a[n - 1]);
    }
}

proof fn lemma_seeds(e: ExprS, keys: Seq<NameS>, acc: Map<NameS, ExprS>)
    ensures
        seeds(e, keys, acc) == taken_up(acc, keys, declarations(e), declarations(e).len()),
    decreases e, e.kids.len() + 1,
{
    let here = if e.head is MutDecl && e.kids.len() == 2 {
        seq![Given { name: e.head->MutDecl_0, value: e.kids[0] }]
    } else {
        Seq::empty()
    };
    let own = taken_up(acc, keys, here, here.len());
    if here.len() > 0 {
        assert(taken_up(acc, keys, here, 0) == acc);
    }
    lemma_seeds_upto(e, keys, own, e.kids.len());
    let rest = declarations_upto(e, e.kids.len());
    assert(declarations(e) == here + rest);
    lemma_taken_sum(acc, keys, here, rest, rest.len());
}

proof fn lemma_seeds_upto(e: ExprS, keys: Seq<NameS>, acc: Map<NameS, ExprS>, n: nat)
    requires
        n <= e.kids.len(),
    ensures
        seeds_upto(e, keys, acc, n) == taken_up(
            acc,
            keys,
            declarations_upto(e, n),
            declarations_upto(e, n).len(),
        ),
    decreases e, n,
{
    if n > 0 {
        lemma_seeds_upto(e, keys, acc, (n - 1) as nat);
        let a = declarations_upto(e, (n - 1) as nat);
        let b = declarations(e.kids[n - 1]);
        lemma_seeds(e.kids[n - 1], keys, taken_up(acc, keys, a, a.len()));
        lemma_taken_sum(acc, keys, a, b, b.len());
    }
}

proof fn lemma_taken_up(keys: Seq<NameS>, ds: Seq<Given>, n: nat, k: NameS)
    requires
        n <= ds.len(),
    ensures
        ({
            let out = taken_up(Map::empty(), keys, ds, n);
            &&& out.dom().contains(k) <==> keys.contains(k) && exists|i: int|
                0 <= i < n && (#[trigger] ds[i]).name == k
            &&& out.dom().contains(k) ==> exists|i: int|
                i < n && #[trigger] first_of(ds, k, i) && out[k] == ds[i].value
        }),
    decreases n,
{
    if n > 0 {
        lemma_taken_up(keys, ds, (n - 1) as nat, k);
        let before = taken_up(Map::empty(), keys, ds, (n - 1) as nat);
        if ds[n - 1].name == k && keys.contains(k) && !before.dom().contains(k) {
            assert(first_of(ds, k, n - 1));
        }
    }
}

/// A key starts with the value that the first declaration of it in the program gives it,
/// and has one exactly where the program declares it.
pub proof fn law_a_key_starts_as_first_declared(e: ExprS, keys: Seq<NameS>, k: NameS)
    ensures
        seeds_of(e, keys).dom().contains(k) <==> keys.contains(k) && exists|i: int|
            #[trigger] first_of(declarations(e), k, i),
        seeds_of(e, keys).dom().contains(k) ==> exists|i: int| #[trigger]
            first_of(declarations(e), k, i) && seeds_of(e, keys)[k] == declarations(e)[i].value,
{
    let ds = declarations(e);
    lemma_seeds(e, keys, Map::empty());
    lemma_taken_up(keys, ds, ds.len(), k);
}

// ---- other names ----

/// Making the references to a name references to another is taking the name to mean what
/// the other means, where nothing binds either.
pub proof fn law_renaming_reads_the_other_name(
    m: Model,
    rho: Valuation,
    from: NameS,
    to: NameS,
    e: ExprS,
)
    requires
        binds_not(from, e),
        binds_not(to, e),
        leafy(e),
        !(from is PiBound),
        !(to is PiBound),
    ensures
        meant(m, rho, uses_renamed(from, to, e)) == meant(m, setting(rho, from, rho(to)), e),
    decreases e,
{
    let out = uses_renamed(from, to, e);
    let u = setting(rho, from, rho(to));
    let ks = kids_renamed(from, to, e);
    match e.head {
        HeadS::Var(n) => {},
        _ => {
            assert forall|i: int| 0 <= i < out.kids.len() implies #[trigger] kid_alike(
                m,
                rho,
                out,
                u,
                e,
                i,
            ) by {
                let ns = scope_of(e.head, i);
                let kid = e.kids[i];
                assert(binds_not(from, kid) && !ns.contains(from));
                assert(binds_not(to, kid) && !ns.contains(to));
                assert forall|ds: Seq<Meant>| #[trigger]
                    meant(m, setting_all(rho, scope_of(out.head, i), ds), out.kids[i]) == meant(
                        m,
                        setting_all(u, scope_of(out.head, i), ds),
                        e.kids[i],
                    ) by {
                    let r1 = setting_all(rho, ns, ds);
                    law_renaming_reads_the_other_name(m, r1, from, to, kid);
                    assert(setting(r1, from, r1(to)) =~= setting_all(u, ns, ds));
                }
            }
            lemma_alike(m, rho, out, u, e);
        },
    }
}

// ---- what a run commits ----

/// What a decision writes to each place is what the run of the block leaves the variable
/// of that place with, where the run wrote or replied; otherwise it writes nothing.
pub proof fn law_a_decision_writes_what_the_run_leaves(
    decided: Val,
    r: Ran,
    writes: Seq<NameS>,
    taps: Seq<TapS>,
    i: int,
)
    requires
        decides(decided, r, writes, taps),
        0 <= i < writes.len(),
    ensures
        decided_write(decided, i) == (if r.acted {
            Some((r.rho)(writes[i]).val)
        } else {
            None
        }),
{
    reveal_strlit("abort");
    reveal_strlit("commit");
    if !r.acted {
        assert("abort"@.len() == 5);
        assert("commit"@.len() == 6);
    }
}

} // verus!
