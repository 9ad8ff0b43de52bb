//! The law of awaiting: an await uses its variable up.

use vstd::prelude::*;
use crate::ast::{ExprS, HeadS};
use crate::checks::{awaits, awaits_upto};
use crate::name::NameS;
use crate::probe::SignS;

verus! {

/// What a node does with a variable: await its final value, or mention it.
pub enum UseS {
    Await(NameS),
    Mention(NameS),
}

impl UseS {
    pub open spec fn name(self) -> NameS {
        match self {
            UseS::Await(n) => n,
            UseS::Mention(n) => n,
        }
    }
}

/// The variable that a node other than an await mentions.
pub open spec fn own_mention(e: ExprS) -> Seq<UseS> {
    match e.head {
        HeadS::Var(n) => seq![UseS::Mention(n)],
        HeadS::MutWrite(n) => seq![UseS::Mention(n)],
        _ => Seq::empty(),
    }
}

/// The uses of variables in `e`, in the order they are met.
pub open spec fn uses(e: ExprS) -> Seq<UseS>
    decreases e, e.kids.len() + 1,
{
    if SignS::AwaitFinal.at(e) {
        match e.kids[1].head {
            HeadS::Var(n) => seq![UseS::Await(n)],
            _ => Seq::empty(),
        }
    } else {
        own_mention(e) + uses_upto(e, e.kids.len())
    }
}

/// The uses of variables in the first `n` subterms of `e`.
pub open spec fn uses_upto(e: ExprS, n: nat) -> Seq<UseS>
    decreases e, n,
{
    if n == 0 || n > e.kids.len() {
        Seq::empty()
    } else {
        uses_upto(e, (n - 1) as nat) + uses(e.kids[n - 1])
    }
}

/// Whether every await in `e` is of a variable.
pub open spec fn awaits_variables(e: ExprS) -> bool
    decreases e,
{
    if SignS::AwaitFinal.at(e) {
        e.kids[1].head is Var
    } else {
        forall|i: int| 0 <= i < e.kids.len() ==> awaits_variables(#[trigger] e.kids[i])
    }
}

/// Whether nothing uses a variable after its await.
pub open spec fn used_up_by_await(us: Seq<UseS>) -> bool {
    forall|i: int, j: int|
        0 <= i < j < us.len() && us[i] is Await ==> (#[trigger] us[j]).name() != (#[trigger] us[i]).name()
}

/// Whether nothing in `us` uses one of `gone`.
pub open spec fn keeps_off(gone: Seq<NameS>, us: Seq<UseS>) -> bool {
    forall|i: int| 0 <= i < us.len() ==> !gone.contains((#[trigger] us[i]).name())
}

/// The variables awaited, in order.
pub open spec fn names_used_up(us: Seq<UseS>) -> Seq<NameS>
    decreases us.len(),
{
    if us.len() == 0 {
        Seq::empty()
    } else {
        let before = names_used_up(us.drop_last());
        match us.last() {
            UseS::Await(n) => before.push(n),
            UseS::Mention(_) => before,
        }
    }
}

proof fn lemma_used_names(us: Seq<UseS>, n: NameS)
    ensures
        names_used_up(us).contains(n) <==> exists|i: int|
            0 <= i < us.len() && #[trigger] us[i] == UseS::Await(n),
    decreases us.len(),
{
    if us.len() > 0 {
        let d = us.drop_last();
        lemma_used_names(d, n);
        let b = names_used_up(d);
        let last = us.last();
        if names_used_up(us).contains(n) {
            if last == UseS::Await(n) {
                assert(us[us.len() - 1] == UseS::Await(n));
            } else {
                assert(b.contains(n)) by {
                    let k = choose|k: int|
                        0 <= k < names_used_up(us).len() && names_used_up(us)[k] == n;
                    assert(b[k] == n);
                }
                let i = choose|i: int| 0 <= i < d.len() && #[trigger] d[i] == UseS::Await(n);
                assert(us[i] == UseS::Await(n));
            }
        }
        if exists|i: int| 0 <= i < us.len() && #[trigger] us[i] == UseS::Await(n) {
            let i = choose|i: int| 0 <= i < us.len() && #[trigger] us[i] == UseS::Await(n);
            if i < d.len() {
                assert(d[i] == UseS::Await(n));
                let k = choose|k: int| 0 <= k < b.len() && b[k] == n;
                assert(names_used_up(us)[k] == n);
            } else {
                assert(names_used_up(us)[b.len() as int] == n);
            }
        }
    }
}

proof fn lemma_used_names_both(x: Seq<UseS>, y: Seq<UseS>)
    ensures
        names_used_up(x + y) == names_used_up(x) + names_used_up(y),
    decreases y.len(),
{
    if y.len() == 0 {
        assert(x + y =~= x);
        assert(names_used_up(x) + names_used_up(y) =~= names_used_up(x));
    } else {
        assert((x + y).drop_last() =~= x + y.drop_last());
        assert((x + y).last() == y.last());
        lemma_used_names_both(x, y.drop_last());
        assert(names_used_up(x + y) =~= names_used_up(x) + names_used_up(y));
    }
}

/// Whether `us` may follow where `gone` has been awaited.
pub open spec fn may_follow(gone: Seq<NameS>, us: Seq<UseS>) -> bool {
    keeps_off(gone, us) && used_up_by_await(us)
}

proof fn lemma_follow_both(gone: Seq<NameS>, x: Seq<UseS>, y: Seq<UseS>)
    ensures
        may_follow(gone, x + y) <==> may_follow(gone, x) && may_follow(gone + names_used_up(x), y),
{
    let all = x + y;
    let then = gone + names_used_up(x);
    if may_follow(gone, all) {
        assert forall|i: int| 0 <= i < x.len() implies !gone.contains((#[trigger] x[i]).name()) by {
            assert(all[i] == x[i]);
        }
        assert forall|i: int, j: int| 0 <= i < j < x.len() && x[i] is Await implies (
        #[trigger] x[j]).name() != (#[trigger] x[i]).name() by {
            assert(all[i] == x[i] && all[j] == x[j]);
        }
        assert forall|j: int| 0 <= j < y.len() implies !then.contains((#[trigger] y[j]).name()) by {
            let n = y[j].name();
            let at = x.len() + j;
            assert(all[at] == y[j]);
            if then.contains(n) {
                let k = choose|k: int| 0 <= k < then.len() && then[k] == n;
                if k < gone.len() {
                    assert(gone[k] == n);
                } else {
                    assert(names_used_up(x)[k - gone.len()] == n);
                    lemma_used_names(x, n);
                    let i = choose|i: int| 0 <= i < x.len() && #[trigger] x[i] == UseS::Await(n);
                    assert(all[i] == x[i]);
                }
            }
        }
        assert forall|i: int, j: int| 0 <= i < j < y.len() && y[i] is Await implies (
        #[trigger] y[j]).name() != (#[trigger] y[i]).name() by {
            assert(all[x.len() + i] == y[i] && all[x.len() + j] == y[j]);
        }
    }
    if may_follow(gone, x) && may_follow(then, y) {
        assert forall|j: int| 0 <= j < y.len() implies !gone.contains((#[trigger] y[j]).name()) by {
            let n = y[j].name();
            assert(!then.contains(n));
            if gone.contains(n) {
                let k = choose|k: int| 0 <= k < gone.len() && gone[k] == n;
                assert(then[k] == n);
            }
        }
        assert forall|i: int| 0 <= i < all.len() implies !gone.contains(
            (#[trigger] all[i]).name(),
        ) by {
            if i < x.len() {
                assert(all[i] == x[i]);
            } else {
                assert(all[i] == y[i - x.len()]);
            }
        }
        assert forall|i: int, j: int| 0 <= i < j < all.len() && all[i] is Await implies (
        #[trigger] all[j]).name() != (#[trigger] all[i]).name() by {
            if j < x.len() {
                assert(all[i] == x[i] && all[j] == x[j]);
            } else {
                let b = y[j - x.len()];
                assert(all[j] == b);
                if i < x.len() {
                    assert(all[i] == x[i]);
                    let n = x[i].name();
                    assert(x[i] == UseS::Await(n));
                    lemma_used_names(x, n);
                    let k = choose|k: int| 0 <= k < names_used_up(x).len() && names_used_up(x)[k] == n;
                    assert(then[gone.len() + k] == n);
                    assert(!then.contains(b.name()));
                } else {
                    assert(all[i] == y[i - x.len()]);
                }
            }
        }
    }
}

proof fn lemma_one_use(gone: Seq<NameS>, u: UseS)
    ensures
        may_follow(gone, seq![u]) <==> !gone.contains(u.name()),
{
    let us = seq![u];
    assert(us[0] == u);
}

proof fn lemma_awaits(e: ExprS, gone: Seq<NameS>)
    requires
        awaits_variables(e),
    ensures
        match awaits(e, gone) {
            Ok(after) => may_follow(gone, uses(e)) && after == gone + names_used_up(uses(e)),
            Err(_) => !may_follow(gone, uses(e)),
        },
    decreases e, e.kids.len() + 1,
{
    if SignS::AwaitFinal.at(e) {
        let n = e.kids[1].head->Var_0;
        lemma_one_use(gone, UseS::Await(n));
        let us = seq![UseS::Await(n)];
        assert(us.drop_last() =~= Seq::empty());
        assert(us.last() == UseS::Await(n));
        assert(names_used_up(us.drop_last()) =~= Seq::empty());
        assert(gone + names_used_up(us) =~= gone.push(n));
    } else {
        let own = own_mention(e);
        let below = uses_upto(e, e.kids.len());
        lemma_awaits_upto(e, gone, e.kids.len());
        lemma_follow_both(gone, own, below);
        lemma_used_names_both(own, below);
        match e.head {
            HeadS::Var(n) => {
                lemma_one_use(gone, UseS::Mention(n));
            },
            HeadS::MutWrite(n) => {
                lemma_one_use(gone, UseS::Mention(n));
            },
            _ => {
                assert(may_follow(gone, own));
            },
        }
        assert(names_used_up(own) =~= Seq::empty()) by {
            if own.len() > 0 {
                assert(own.drop_last() =~= Seq::empty());
                assert(names_used_up(own.drop_last()) =~= Seq::empty());
            }
        }
        assert(gone + names_used_up(own) =~= gone);
        assert(names_used_up(own) + names_used_up(below) =~= names_used_up(below));
    }
}

proof fn lemma_awaits_upto(e: ExprS, gone: Seq<NameS>, n: nat)
    requires
        n <= e.kids.len(),
        forall|i: int| 0 <= i < e.kids.len() ==> awaits_variables(#[trigger] e.kids[i]),
    ensures
        match awaits_upto(e, gone, n) {
            Ok(after) => may_follow(gone, uses_upto(e, n)) && after == gone + names_used_up(
                uses_upto(e, n),
            ),
            Err(_) => !may_follow(gone, uses_upto(e, n)),
        },
    decreases e, n,
{
    if n == 0 {
        assert(gone + names_used_up(uses_upto(e, 0)) =~= gone);
    } else {
        let before = uses_upto(e, (n - 1) as nat);
        let here = uses(e.kids[n - 1]);
        lemma_awaits_upto(e, gone, (n - 1) as nat);
        lemma_awaits(e.kids[n - 1], gone + names_used_up(before));
        lemma_follow_both(gone, before, here);
        lemma_used_names_both(before, here);
        assert(gone + names_used_up(before) + names_used_up(here) =~= gone + (names_used_up(before)
            + names_used_up(here)));
    }
}

/// A program passes the check of awaits exactly where no use of a variable, a
/// second await among them, follows its await.
pub proof fn law_an_await_uses_up_its_variable(e: ExprS)
    requires
        awaits_variables(e),
    ensures
        awaits(e, Seq::empty()) is Ok <==> used_up_by_await(uses(e)),
{
    lemma_awaits(e, Seq::empty());
    assert(keeps_off(Seq::empty(), uses(e)));
}

} // verus!
