//! The laws of the transactional phase: what it leaves alone, and what its
//! stores look like.

use vstd::prelude::*;
use crate::ast::{BuiltinS, ExprS, HeadS};
use crate::awaits::{beyond, seeds_of};
use crate::cross_domain::FoldS;
use crate::name::NameS;
use crate::probe::{PickS, SignS, gathered, shows};
use crate::scope::{free_in_value, own_ref, scope_of};
use crate::store::{CommitS, histories, history_def, planned_writers};
use crate::strip::{HarvestS, LoopS, runs_block, stripped, stripped_upto};
use crate::swap::{SwapS, swapped, swapped_kids};
use crate::symbolic::lead;
use crate::transact::{RunS, run_s, written_of};
use crate::writer::WriterS;

verus! {

proof fn lemma_nothing_to_strip(e: ExprS, txn: Seq<NameS>, enclosing: Option<LoopS>, acc: HarvestS)
    requires
        !shows(SignS::Begin, e),
    ensures
        stripped(e, txn, enclosing, acc) == Some((e, acc)),
    decreases e, e.kids.len() + 1,
{
    if e.kids.len() > 0 {
        assert(!shows(SignS::Begin, e.kids[0]));
    }
    assert(!runs_block(e));
    if e.head is For && e.kids.len() == 2 {
        assert(!shows(SignS::Begin, e.kids[1]));
        lemma_nothing_to_strip(e.kids[0], txn, enclosing, acc);
        let l = LoopS {
            target: e.head->For_0,
            target_ty: e.tys[lead(e)],
            source: e.kids[0],
            writes: gathered(PickS::WrittenBeyond(txn), e.kids[1]),
        };
        lemma_nothing_to_strip(e.kids[1], txn, Some(l), acc);
        assert(seq![e.kids[0], e.kids[1]] =~= e.kids);
    } else {
        lemma_nothing_to_strip_upto(e, txn, enclosing, acc, e.kids.len());
        assert(e.kids.take(e.kids.len() as int) =~= e.kids);
    }
}

proof fn lemma_nothing_to_strip_upto(
    e: ExprS,
    txn: Seq<NameS>,
    enclosing: Option<LoopS>,
    acc: HarvestS,
    n: nat,
)
    requires
        !shows(SignS::Begin, e),
        n <= e.kids.len(),
    ensures
        stripped_upto(e, txn, enclosing, acc, n) == Some((e.kids.take(n as int), acc)),
    decreases e, n,
{
    if n > 0 {
        lemma_nothing_to_strip_upto(e, txn, enclosing, acc, (n - 1) as nat);
        assert(!shows(SignS::Begin, e.kids[n - 1]));
        lemma_nothing_to_strip(e.kids[n - 1], txn, enclosing, acc);
        assert(e.kids.take(n - 1).push(e.kids[n - 1]) =~= e.kids.take(n as int));
    } else {
        assert(e.kids.take(0) =~= Seq::empty());
    }
}

proof fn lemma_nothing_awaited(env: Map<NameS, ExprS>, e: ExprS)
    requires
        !shows(SignS::AwaitFinal, e),
    ensures
        swapped(SwapS::Await, env, e) == e,
    decreases e,
{
    let ks = swapped_kids(SwapS::Await, env, e);
    assert forall|i: int| 0 <= i < e.kids.len() implies #[trigger] ks[i] == e.kids[i] by {
        assert(!shows(SignS::AwaitFinal, e.kids[i]));
        lemma_nothing_awaited(env, e.kids[i]);
    }
    assert(ks =~= e.kids);
}

/// A program without transactions comes out as it went in, and no name is
/// minted for it.
pub proof fn law_nothing_transactional_nothing_changed(
    e: ExprS,
    txn: Seq<NameS>,
    folds: Seq<FoldS>,
    uid: u64,
)
    requires
        !shows(SignS::Begin, e),
        !shows(SignS::Writes(txn), e),
        !shows(SignS::AwaitFinal, e),
    ensures
        run_s(e, txn, folds, uid) == RunS::Done(e, uid),
{
    let none = HarvestS { sites: Seq::empty(), read_only: Seq::empty() };
    lemma_nothing_to_strip(e, txn, None, none);
    let awaited = gathered(PickS::Awaited, e);
    lemma_nothing_awaited(seeds_of(e, beyond(awaited, Seq::empty(), awaited.len())), e);
    assert(written_of(none.sites, 0) =~= Seq::empty());
}

/// A program that the phase rewrote awaits nothing any more.
pub proof fn law_no_await_is_left(
    e: ExprS,
    txn: Seq<NameS>,
    folds: Seq<FoldS>,
    uid: u64,
    out: ExprS,
    next: u64,
)
    requires
        txn.len() > 0 || shows(SignS::Begin, e),
        run_s(e, txn, folds, uid) == RunS::Done(out, next),
    ensures
        !shows(SignS::AwaitFinal, out),
{
}

/// The application of the guarded read of a history at a time, with the value
/// to begin with.
pub open spec fn is_guarded_read(e: ExprS) -> bool {
    e.head is Apply && e.kids.len() == 2 && e.kids[0].head == HeadS::Builtin(BuiltinS::GetPrevTxn)
        && e.kids[1].head is Tuple && e.kids[1].kids.len() == 3
}

/// Whether `e` reads `n` other than behind a guarded read.
pub open spec fn reads_unguarded(n: NameS, e: ExprS) -> bool
    decreases e,
{
    if is_guarded_read(e) {
        reads_unguarded(n, e.kids[1].kids[1]) || reads_unguarded(n, e.kids[1].kids[2])
    } else {
        own_ref(e.head) == Some(n) || exists|i: int|
            0 <= i < e.kids.len() && !scope_of(e.head, i).contains(n) && reads_unguarded(
                n,
                #[trigger] e.kids[i],
            )
    }
}

proof fn lemma_unguarded_is_free(n: NameS, e: ExprS)
    requires
        reads_unguarded(n, e),
    ensures
        free_in_value(n, e),
    decreases e,
{
    if is_guarded_read(e) {
        let arg = e.kids[1];
        if reads_unguarded(n, arg.kids[1]) {
            lemma_unguarded_is_free(n, arg.kids[1]);
        } else {
            lemma_unguarded_is_free(n, arg.kids[2]);
        }
        assert(free_in_value(n, arg)) by {
            assert(scope_of(arg.head, 1) =~= Seq::empty());
            assert(scope_of(arg.head, 2) =~= Seq::empty());
        }
        assert(scope_of(e.head, 1) =~= Seq::empty());
    } else if own_ref(e.head) != Some(n) {
        let i = choose|i: int|
            0 <= i < e.kids.len() && !scope_of(e.head, i).contains(n) && reads_unguarded(
                n,
                #[trigger] e.kids[i],
            );
        lemma_unguarded_is_free(n, e.kids[i]);
    }
}

/// A history reads what is committed only behind the guarded read, so no cycle
/// through it goes unguarded: unguarded it reads at most what the value to
/// begin with reads.
pub proof fn law_histories_are_guarded(
    k: NameS,
    hist: NameS,
    init: ExprS,
    views: Seq<ExprS>,
    uid: u64,
    n: NameS,
)
    requires
        !free_in_value(n, init),
    ensures
        !reads_unguarded(n, history_def(k, hist, init, views, uid).def),
{
    let def = history_def(k, hist, init, views, uid).def;
    let t = NameS::Fresh("__t"@, uid);
    let read = def.kids[0];
    assert(is_guarded_read(read));
    assert(read.kids[1].kids[2] == init);
    assert(read.kids[1].kids[1].head == HeadS::Var(t));
    if reads_unguarded(n, init) {
        lemma_unguarded_is_free(n, init);
    }
    if n != t {
        assert(!reads_unguarded(n, read.kids[1].kids[1]));
        assert(!reads_unguarded(n, read));
    } else {
        assert(scope_of(def.head, 0)[0] == t);
        assert(scope_of(def.head, 0).contains(n));
    }
}

/// A store has one history for each of its keys, named as the key's history is.
pub proof fn law_one_history_for_each_key(
    keys: Seq<NameS>,
    hist: Map<NameS, NameS>,
    inits: Map<NameS, ExprS>,
    ws: Seq<WriterS>,
    cs: Seq<CommitS>,
    uid: u64,
    n: nat,
)
    requires
        n <= keys.len(),
        histories(keys, hist, inits, ws, cs, uid, n) is Some,
    ensures
        histories(keys, hist, inits, ws, cs, uid, n)->0.len() == n,
        forall|i: int|
            0 <= i < n ==> (#[trigger] histories(keys, hist, inits, ws, cs, uid, n)->0[i]).name
                == hist[keys[i]],
    decreases n,
{
    if n > 0 {
        law_one_history_for_each_key(keys, hist, inits, ws, cs, uid, (n - 1) as nat);
    }
}

/// A store has one stream of commits for each of its writers.
pub proof fn law_one_stream_for_each_writer(
    ws: Seq<WriterS>,
    hist: Map<NameS, NameS>,
    inits: Map<NameS, ExprS>,
    first: u64,
    n: nat,
)
    requires
        planned_writers(ws, hist, inits, first, n) is Some,
    ensures
        planned_writers(ws, hist, inits, first, n)->0.commits.len() == n,
    decreases n,
{
    if n > 0 {
        law_one_stream_for_each_writer(ws, hist, inits, first, (n - 1) as nat);
    }
}

} // verus!
