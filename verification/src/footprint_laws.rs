//! The laws of what a transaction block touches, and of how it is taken apart.

use vstd::prelude::*;
use crate::ast::{ExprS, FootprintS, HeadS, LitS, TypeS};
use crate::awaits::beyond;
use crate::block::{
    footprint_of, guarded_upto, guarded_write, noted, noted_upto, prepended, runs_under,
    spliced, split_block, with_name,
};
use crate::make::stmt_s;
use crate::name::NameS;
use crate::partition::no_repeats;
use crate::symbolic::lead;

verus! {

/// Whether `e` refers to `n` anywhere.
pub open spec fn refers(n: NameS, e: ExprS) -> bool
    decreases e,
{
    e.head == HeadS::Var(n) || exists|i: int|
        0 <= i < e.kids.len() && refers(n, #[trigger] e.kids[i])
}

/// Whether `e` writes `n` anywhere.
pub open spec fn writes_to(n: NameS, e: ExprS) -> bool
    decreases e,
{
    e.head == HeadS::MutWrite(n) || exists|i: int|
        0 <= i < e.kids.len() && writes_to(n, #[trigger] e.kids[i])
}

/// Whether `e` has a choice that writes `n` in one of its arms.
pub open spec fn chooses_to_write(n: NameS, e: ExprS) -> bool
    decreases e,
{
    exists|i: int|
        0 <= i < e.kids.len() && (chooses_to_write(n, #[trigger] e.kids[i]) || (e.head matches HeadS::Case(
            false,
            _,
        ) && i % 2 == 1 && writes_to(n, e.kids[i])))
}

proof fn lemma_with_name(ns: Seq<NameS>, n: NameS, k: NameS)
    ensures
        with_name(ns, n).contains(k) <==> ns.contains(k) || k == n,
        no_repeats(ns) ==> no_repeats(with_name(ns, n)),
{
    let out = with_name(ns, n);
    if !ns.contains(n) {
        assert(out[ns.len() as int] == n);
        if ns.contains(k) {
            let i = choose|i: int| 0 <= i < ns.len() && ns[i] == k;
            assert(out[i] == k);
        }
        if no_repeats(ns) {
            assert forall|i: int, j: int| 0 <= i < j < out.len() implies out[i] != out[j] by {
                if j == ns.len() {
                    assert(ns.contains(ns[i]));
                }
            }
        }
    }
}

proof fn lemma_noted(txn: Seq<NameS>, under: bool, e: ExprS, acc: FootprintS, k: NameS)
    ensures
        ({
            let out = noted(txn, under, e, acc);
            &&& out.write_keys.contains(k) <==> acc.write_keys.contains(k) || (txn.contains(k)
                && writes_to(k, e))
            &&& out.read_keys.contains(k) <==> acc.read_keys.contains(k) || (txn.contains(k) && (
            refers(k, e) || chooses_to_write(k, e) || (under && writes_to(k, e))))
            &&& no_repeats(acc.read_keys) ==> no_repeats(out.read_keys)
            &&& no_repeats(acc.write_keys) ==> no_repeats(out.write_keys)
        }),
    decreases e, e.kids.len() + 1,
{
    lemma_noted_upto(txn, under, e, acc, e.kids.len(), k);
    let a = noted_upto(txn, under, e, acc, e.kids.len());
    match e.head {
        HeadS::Var(n) => {
            lemma_with_name(a.read_keys, n, k);
        },
        HeadS::MutWrite(n) => {
            lemma_with_name(a.read_keys, n, k);
            lemma_with_name(a.write_keys, n, k);
        },
        _ => {},
    }
}

proof fn lemma_noted_upto(
    txn: Seq<NameS>,
    under: bool,
    e: ExprS,
    acc: FootprintS,
    n: nat,
    k: NameS,
)
    requires
        n <= e.kids.len(),
    ensures
        ({
            let out = noted_upto(txn, under, e, acc, n);
            let arm = |i: int| e.head matches HeadS::Case(false, _) && i % 2 == 1;
            &&& out.write_keys.contains(k) <==> acc.write_keys.contains(k) || (txn.contains(k)
                && exists|i: int| 0 <= i < n && writes_to(k, #[trigger] e.kids[i]))
            &&& out.read_keys.contains(k) <==> acc.read_keys.contains(k) || (txn.contains(k)
                && exists|i: int|
                0 <= i < n && (refers(k, #[trigger] e.kids[i]) || chooses_to_write(k, e.kids[i]) || ((
                under || arm(i)) && writes_to(k, e.kids[i]))))
            &&& no_repeats(acc.read_keys) ==> no_repeats(out.read_keys)
            &&& no_repeats(acc.write_keys) ==> no_repeats(out.write_keys)
        }),
    decreases e, n,
{
    if n > 0 {
        lemma_noted_upto(txn, under, e, acc, (n - 1) as nat, k);
        let before = noted_upto(txn, under, e, acc, (n - 1) as nat);
        lemma_noted(txn, runs_under(e, n - 1, under), e.kids[n - 1], before, k);
    }
}

/// The footprint of a block is what it touches: it writes the transactional variables
/// that some write of it names, and reads those that it refers to and those that it
/// writes in an arm of a choice, which keep their values in the others. None is listed
/// twice.
pub proof fn law_a_footprint_is_what_is_touched(txn: Seq<NameS>, e: ExprS, k: NameS)
    ensures
        footprint_of(txn, e).write_keys.contains(k) <==> txn.contains(k) && writes_to(k, e),
        footprint_of(txn, e).read_keys.contains(k) <==> txn.contains(k) && (refers(k, e)
            || chooses_to_write(k, e)),
        no_repeats(footprint_of(txn, e).read_keys),
        no_repeats(footprint_of(txn, e).write_keys),
{
    let none = FootprintS { read_keys: Seq::empty(), write_keys: Seq::empty() };
    lemma_noted(txn, false, e, none, k);
}

// ---- writes under a choice ----

/// Whether subterm `i` of `e` is a condition of a choice.
pub open spec fn is_condition(e: ExprS, i: int) -> bool {
    e.head matches HeadS::Case(false, _) && i % 2 == 0
}

/// Whether `e` writes `n` outside the conditions of its choices.
pub open spec fn acts_upon(n: NameS, e: ExprS) -> bool
    decreases e,
{
    e.head == HeadS::MutWrite(n) || exists|i: int|
        0 <= i < e.kids.len() && !is_condition(e, i) && acts_upon(n, #[trigger] e.kids[i])
}

/// Whether `e` has a choice that acts on `n` in one of its arms, outside conditions.
pub open spec fn acts_by_choice(n: NameS, e: ExprS) -> bool
    decreases e,
{
    exists|i: int|
        0 <= i < e.kids.len() && !is_condition(e, i) && (acts_by_choice(n, #[trigger] e.kids[i])
            || (e.head matches HeadS::Case(false, _) && acts_upon(n, e.kids[i])))
}

/// Whether subterm `i` of `e` acts on `n` under a choice, where `under` is whether `e` is
/// under one.
spec fn part_acts(under: bool, e: ExprS, n: NameS, i: int) -> bool {
    0 <= i < e.kids.len() && !is_condition(e, i) && (acts_by_choice(n, e.kids[i]) || ((under || (
    e.head matches HeadS::Case(false, _))) && acts_upon(n, e.kids[i])))
}

/// Whether `e` acts on `n` under a choice, where `under` is whether `e` is under one.
spec fn acts_so(under: bool, n: NameS, e: ExprS) -> bool {
    acts_by_choice(n, e) || (under && acts_upon(n, e))
}

proof fn lemma_guarded(txn: Seq<NameS>, under: bool, e: ExprS)
    ensures
        guarded_write(txn, under, e) matches Some(n) ==> !txn.contains(n) && acts_so(under, n, e),
        guarded_write(txn, under, e) is None ==> forall|n: NameS|
            #[trigger] acts_so(under, n, e) ==> txn.contains(n),
    decreases e, e.kids.len() + 1,
{
    lemma_guarded_upto(txn, under, e, e.kids.len());
    let found = guarded_upto(txn, under, e, e.kids.len());
    let own = e.head matches HeadS::MutWrite(n) && under && !txn.contains(n);
    if own {
        let n = e.head->MutWrite_0;
        assert(acts_upon(n, e));
        assert(guarded_write(txn, under, e) == Some(n));
        assert(under && !txn.contains(n));
    } else {
        assert(guarded_write(txn, under, e) == found);
        match found {
            Some(n) => {
                let i = choose|i: int| #[trigger] part_acts(under, e, n, i);
                let kid = e.kids[i];
                if acts_by_choice(n, kid) {
                    assert(acts_by_choice(n, e));
                } else if e.head matches HeadS::Case(false, _) {
                    assert(acts_by_choice(n, e));
                } else {
                    assert(under);
                    assert(acts_upon(n, e));
                }
                assert(!txn.contains(n));
                assert(acts_so(under, n, e));
            },
            None => {
                assert forall|n: NameS|
                    #[trigger] acts_so(under, n, e) implies txn.contains(n) by {
                    if acts_by_choice(n, e) {
                        let i = choose|i: int|
                            0 <= i < e.kids.len() && !is_condition(e, i) && (acts_by_choice(
                                n,
                                #[trigger] e.kids[i],
                            ) || (e.head matches HeadS::Case(false, _) && acts_upon(n, e.kids[i])));
                        assert(part_acts(under, e, n, i));
                    } else if e.head != HeadS::MutWrite(n) {
                        let i = choose|i: int|
                            0 <= i < e.kids.len() && !is_condition(e, i) && acts_upon(
                                n,
                                #[trigger] e.kids[i],
                            );
                        assert(part_acts(under, e, n, i));
                    }
                }
                assert(guarded_write(txn, under, e) is None);
            },
        }
    }
}

proof fn lemma_guarded_upto(txn: Seq<NameS>, under: bool, e: ExprS, n: nat)
    requires
        n <= e.kids.len(),
    ensures
        match guarded_upto(txn, under, e, n) {
            Some(x) => !txn.contains(x) && exists|i: int| #[trigger] part_acts(under, e, x, i),
            None => forall|x: NameS, i: int|
                i < n && #[trigger] part_acts(under, e, x, i) ==> txn.contains(x),
        },
    decreases e, n,
{
    if n > 0 {
        lemma_guarded_upto(txn, under, e, (n - 1) as nat);
        let kid = e.kids[n - 1];
        if guarded_upto(txn, under, e, (n - 1) as nat) is None {
            if !is_condition(e, n - 1) {
                let below = runs_under(e, n - 1, under);
                lemma_guarded(txn, below, kid);
                assert(below == (under || (e.head matches HeadS::Case(false, _))));
                match guarded_write(txn, below, kid) {
                    Some(x) => {
                        assert(part_acts(under, e, x, n - 1));
                    },
                    None => {
                        assert forall|x: NameS| #[trigger] part_acts(under, e, x, n - 1) implies txn.contains(
                            x,
                        ) by {
                            let known = acts_so(below, x, kid);
                        }
                    },
                }
            }
            if guarded_upto(txn, under, e, n) is None {
                assert forall|x: NameS, i: int|
                    i < n && #[trigger] part_acts(under, e, x, i) implies txn.contains(x) by {
                    if i == n - 1 {
                        assert(part_acts(under, e, x, n - 1));
                    }
                }
            }
        }
    }
}

/// A block is faulted for a write under a choice exactly where it has one of a variable
/// that is not transactional, and then for one that it has. The conditions of a choice
/// are not looked into.
pub proof fn law_a_write_under_a_choice_is_found(txn: Seq<NameS>, e: ExprS)
    ensures
        match guarded_write(txn, false, e) {
            Some(n) => !txn.contains(n) && acts_by_choice(n, e),
            None => forall|n: NameS| #[trigger] acts_by_choice(n, e) ==> txn.contains(n),
        },
{
    lemma_guarded(txn, false, e);
    if guarded_write(txn, false, e) is None {
        assert forall|n: NameS| #[trigger] acts_by_choice(n, e) implies txn.contains(n) by {
            let known = acts_so(false, n, e);
        }
    }
}

// ---- the statements of a block ----

/// A step of a block: a term run for what it does, or a name given a value.
pub enum StepS {
    Run(ExprS),
    Give(NameS, TypeS, ExprS),
}

/// The steps of a block, in order.
pub open spec fn steps(e: ExprS) -> Seq<StepS>
    decreases e,
{
    if e.kids.len() == 2 {
        match e.head {
            HeadS::ExprStmt => seq![StepS::Run(e.kids[0])] + steps(e.kids[1]),
            HeadS::Let(n) => seq![StepS::Give(n, e.tys[if e.annotated { 2int } else { 1 }], e.kids[0])]
                + steps(e.kids[1]),
            _ => Seq::empty(),
        }
    } else {
        Seq::empty()
    }
}

/// What a block comes to behind its steps.
pub open spec fn comes_to(e: ExprS) -> ExprS
    decreases e,
{
    if e.kids.len() == 2 && (e.head is ExprStmt || e.head is Let) {
        comes_to(e.kids[1])
    } else {
        e
    }
}

/// Whether a step writes what is not transactional.
pub open spec fn writes_beyond(txn: Seq<NameS>) -> spec_fn(StepS) -> bool {
    |s: StepS|
        match s {
            StepS::Run(t) => t.head matches HeadS::MutWrite(n) && !txn.contains(n),
            StepS::Give(_, _, _) => false,
        }
}

/// Whether a step is part of what a block commits.
pub open spec fn stays_within(txn: Seq<NameS>) -> spec_fn(StepS) -> bool {
    |s: StepS| !writes_beyond(txn)(s)
}

/// The steps that run the terms.
pub open spec fn runs(es: Seq<ExprS>) -> Seq<StepS> {
    es.map_values(|e: ExprS| StepS::Run(e))
}

proof fn lemma_filter_none(p: spec_fn(StepS) -> bool)
    ensures
        Seq::<StepS>::empty().filter(p) == Seq::<StepS>::empty(),
{
    reveal(Seq::filter);
}

proof fn lemma_filter_front(s: StepS, rest: Seq<StepS>, p: spec_fn(StepS) -> bool)
    ensures
        (seq![s] + rest).filter(p) == (if p(s) { seq![s] } else { Seq::empty() }) + rest.filter(p),
    decreases rest.len(),
{
    reveal(Seq::filter);
    let all = seq![s] + rest;
    if rest.len() == 0 {
        assert(all.drop_last() =~= Seq::empty());
        assert(all.last() == s);
        assert(Seq::<StepS>::empty().filter(p) =~= Seq::empty());
        assert(rest.filter(p) =~= Seq::empty());
        assert(all.filter(p) =~= (if p(s) { seq![s] } else { Seq::empty() }) + rest.filter(p));
    } else {
        assert(all.drop_last() =~= seq![s] + rest.drop_last());
        assert(all.last() == rest.last());
        lemma_filter_front(s, rest.drop_last(), p);
        assert(all.filter(p) =~= (if p(s) { seq![s] } else { Seq::empty() }) + rest.filter(p));
    }
}

/// Parting a writing block leaves its steps in order, without those that write what is
/// not transactional, and those are what is lifted out, in order. What the block comes
/// to stays.
pub proof fn law_parting_a_block_keeps_its_steps(txn: Seq<NameS>, e: ExprS)
    requires
        split_block(e, txn) is Some,
    ensures
        ({
            let (b, lifted) = split_block(e, txn)->0;
            let beyond = writes_beyond(txn);
            &&& runs(lifted) == steps(e).filter(beyond)
            &&& steps(b) == steps(e).filter(stays_within(txn))
            &&& comes_to(b) == comes_to(e)
        }),
    decreases e,
{
    let (b, lifted) = split_block(e, txn)->0;
    let beyond = writes_beyond(txn);
    let within = stays_within(txn);
    match e.head {
        HeadS::ExprStmt => {
            law_parting_a_block_keeps_its_steps(txn, e.kids[1]);
            let (b1, l1) = split_block(e.kids[1], txn)->0;
            let s = StepS::Run(e.kids[0]);
            lemma_filter_front(s, steps(e.kids[1]), beyond);
            lemma_filter_front(s, steps(e.kids[1]), within);
            if beyond(s) {
                assert(lifted == seq![e.kids[0]] + l1);
                assert(runs(lifted) =~= seq![s] + runs(l1));
                assert(steps(b) =~= Seq::<StepS>::empty() + steps(b1));
            } else {
                assert(b.kids[0] == e.kids[0] && b.kids[1] == b1);
                assert(steps(b) == seq![s] + steps(b1));
                assert(runs(lifted) =~= Seq::<StepS>::empty() + runs(l1));
            }
        },
        HeadS::Let(n) => {
            law_parting_a_block_keeps_its_steps(txn, e.kids[1]);
            let (b1, l1) = split_block(e.kids[1], txn)->0;
            let s = StepS::Give(n, e.tys[if e.annotated { 2int } else { 1 }], e.kids[0]);
            lemma_filter_front(s, steps(e.kids[1]), beyond);
            lemma_filter_front(s, steps(e.kids[1]), within);
            assert(b.kids[0] == e.kids[0] && b.kids[1] == b1);
            assert(steps(b) == seq![s] + steps(b1));
            assert(runs(lifted) =~= Seq::<StepS>::empty() + runs(l1));
        },
        _ => {
            assert(steps(e) =~= Seq::empty());
            assert(runs(lifted) =~= Seq::empty());
            lemma_filter_none(beyond);
            lemma_filter_none(within);
        },
    }
}

/// Terms put before a block are run before it, in order.
pub proof fn law_what_is_put_before_runs_before(es: Seq<ExprS>, rest: ExprS)
    ensures
        steps(prepended(es, rest)) == runs(es) + steps(rest),
        comes_to(prepended(es, rest)) == comes_to(rest),
    decreases es.len(),
{
    if es.len() == 0 {
        assert(runs(es) + steps(rest) =~= steps(rest));
    } else {
        let s = stmt_s(es.last(), rest, rest.ty());
        assert(s.kids[0] == es.last() && s.kids[1] == rest);
        law_what_is_put_before_runs_before(es.drop_last(), s);
        assert(steps(s) == seq![StepS::Run(es.last())] + steps(rest));
        assert(runs(es) =~= runs(es.drop_last()) + seq![StepS::Run(es.last())]);
        assert(runs(es.drop_last()) + steps(s) =~= runs(es) + steps(rest));
    }
}

/// A block run in place runs its steps, then what it comes to unless that is nothing,
/// and then the rest.
pub proof fn law_a_block_run_in_place_runs_first(block: ExprS, rest: ExprS)
    requires
        spliced(block, rest) is Some,
    ensures
        ({
            let out = spliced(block, rest)->0;
            let end = comes_to(block);
            let last = if end.head == HeadS::Lit(LitS::Unit) {
                Seq::empty()
            } else {
                seq![StepS::Run(end)]
            };
            &&& steps(out) == steps(block) + last + steps(rest)
            &&& comes_to(out) == comes_to(rest)
        }),
    decreases block,
{
    let out = spliced(block, rest)->0;
    let end = comes_to(block);
    let last = if end.head == HeadS::Lit(LitS::Unit) {
        Seq::empty()
    } else {
        seq![StepS::Run(end)]
    };
    match block.head {
        HeadS::Lit(LitS::Unit) => {
            assert(steps(block) =~= Seq::empty());
            assert(steps(block) + last + steps(rest) =~= steps(rest));
        },
        HeadS::ExprStmt => {
            law_a_block_run_in_place_runs_first(block.kids[1], rest);
            let b = spliced(block.kids[1], rest)->0;
            assert(out.kids[0] == block.kids[0] && out.kids[1] == b);
            assert(steps(out) == seq![StepS::Run(block.kids[0])] + steps(b));
            assert(steps(out) =~= steps(block) + last + steps(rest));
        },
        HeadS::Let(n) => {
            law_a_block_run_in_place_runs_first(block.kids[1], rest);
            let b = spliced(block.kids[1], rest)->0;
            assert(out.kids[0] == block.kids[0] && out.kids[1] == b);
            let s = StepS::Give(n, block.tys[if block.annotated { 2int } else { 1 }], block.kids[0]);
            assert(out.tys[1] == block.tys[lead(block)]);
            assert(steps(out) == seq![s] + steps(b));
            assert(steps(out) =~= steps(block) + last + steps(rest));
        },
        _ => {
            assert(out.kids[0] == block && out.kids[1] == rest);
            assert(steps(block) =~= Seq::empty());
            assert(steps(out) == seq![StepS::Run(block)] + steps(rest));
            assert(steps(out) =~= steps(block) + last + steps(rest));
        },
    }
}

} // verus!
