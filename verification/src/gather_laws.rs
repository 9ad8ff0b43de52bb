//! The laws of what is gathered from a term.

use vstd::prelude::*;
use crate::ast::{BuiltinS, ExprS, HeadS};
use crate::footprint_laws::{refers, writes_to};
use crate::name::NameS;
use crate::probe::{PickS, SignS, gathered, gathered_upto, opt_seq, shows};
use crate::waiting_laws::lemma_in_sum;

verus! {

/// Whether some node of `e` gives `n`.
spec fn gives(p: PickS, n: NameS, e: ExprS) -> bool
    decreases e,
{
    p.at(e) == Some(n) || exists|i: int| 0 <= i < e.kids.len() && gives(p, n, #[trigger] e.kids[i])
}

/// Whether `e` feeds or defines the handle `n` anywhere.
pub open spec fn feeds_handle(n: NameS, e: ExprS) -> bool
    decreases e,
{
    e.head == HeadS::Feed(n) || e.head == HeadS::Define(n) || exists|i: int|
        0 <= i < e.kids.len() && feeds_handle(n, #[trigger] e.kids[i])
}

/// Whether `e` reads the history `n` at a position that is not supplied, anywhere.
pub open spec fn samples(n: NameS, e: ExprS) -> bool
    decreases e,
{
    (e.head is Apply && e.kids.len() == 2 && e.kids[0].head == HeadS::Builtin(BuiltinS::AsOfRead)
        && e.kids[1].head == HeadS::Var(n)) || exists|i: int|
        0 <= i < e.kids.len() && samples(n, #[trigger] e.kids[i])
}

proof fn lemma_gathered(p: PickS, e: ExprS, n: NameS)
    ensures
        gathered(p, e).contains(n) <==> gives(p, n, e),
    decreases e, e.kids.len() + 1,
{
    let own = opt_seq(p.at(e));
    let rest = gathered_upto(p, e, e.kids.len());
    lemma_gathered_upto(p, e, e.kids.len(), n);
    let all = gathered(p, e);
    assert(all == own + rest);
    lemma_in_sum(own, rest, n);
    assert(own.contains(n) <==> p.at(e) == Some(n)) by {
        if p.at(e) is Some {
            assert(own[0] == p.at(e)->0);
        }
    }
}

proof fn lemma_gathered_upto(p: PickS, e: ExprS, k: nat, n: NameS)
    requires
        k <= e.kids.len(),
    ensures
        gathered_upto(p, e, k).contains(n) <==> exists|i: int|
            0 <= i < k && gives(p, n, #[trigger] e.kids[i]),
    decreases e, k,
{
    if k > 0 {
        lemma_gathered_upto(p, e, (k - 1) as nat, n);
        lemma_gathered(p, e.kids[k - 1], n);
        let a = gathered_upto(p, e, (k - 1) as nat);
        let b = gathered(p, e.kids[k - 1]);
        assert(gathered_upto(p, e, k) == a + b);
        lemma_in_sum(a, b, n);
        if gives(p, n, e.kids[k - 1]) {
            assert(exists|i: int| 0 <= i < k && gives(p, n, #[trigger] e.kids[i]));
        }
    }
}

proof fn lemma_gives(ns: Seq<NameS>, e: ExprS, n: NameS)
    ensures
        gives(PickS::WrittenBeyond(ns), n, e) <==> !ns.contains(n) && writes_to(n, e),
        gives(PickS::ReadBeyond(ns), n, e) <==> !ns.contains(n) && refers(n, e),
        gives(PickS::Fed, n, e) <==> feeds_handle(n, e),
        gives(PickS::Sampled, n, e) <==> samples(n, e),
    decreases e,
{
    assert forall|i: int| 0 <= i < e.kids.len() implies {
        let k = #[trigger] e.kids[i];
        &&& gives(PickS::WrittenBeyond(ns), n, k) <==> !ns.contains(n) && writes_to(n, k)
        &&& gives(PickS::ReadBeyond(ns), n, k) <==> !ns.contains(n) && refers(n, k)
        &&& gives(PickS::Fed, n, k) <==> feeds_handle(n, k)
        &&& gives(PickS::Sampled, n, k) <==> samples(n, k)
    } by {
        lemma_gives(ns, e.kids[i], n);
    }
}

/// What is gathered from a term is what it mentions so, anywhere in it: the variables it
/// writes and those it refers to beyond the given ones, the handles it feeds, and the
/// histories it samples.
pub proof fn law_what_is_gathered_is_mentioned(ns: Seq<NameS>, e: ExprS, n: NameS)
    ensures
        gathered(PickS::WrittenBeyond(ns), e).contains(n) <==> !ns.contains(n) && writes_to(n, e),
        gathered(PickS::ReadBeyond(ns), e).contains(n) <==> !ns.contains(n) && refers(n, e),
        gathered(PickS::Fed, e).contains(n) <==> feeds_handle(n, e),
        gathered(PickS::Sampled, e).contains(n) <==> samples(n, e),
{
    lemma_gives(ns, e, n);
    lemma_gathered(PickS::WrittenBeyond(ns), e, n);
    lemma_gathered(PickS::ReadBeyond(ns), e, n);
    lemma_gathered(PickS::Fed, e, n);
    lemma_gathered(PickS::Sampled, e, n);
}

/// A term shows a write of one of some variables exactly where it writes one of them.
pub proof fn law_a_shown_write_is_of_one_of_them(ns: Seq<NameS>, e: ExprS)
    ensures
        shows(SignS::Writes(ns), e) <==> exists|n: NameS|
            ns.contains(n) && #[trigger] writes_to(n, e),
    decreases e,
{
    if shows(SignS::Writes(ns), e) {
        if SignS::Writes(ns).at(e) {
            let n = e.head->MutWrite_0;
            assert(writes_to(n, e));
        } else {
            let i = choose|i: int|
                0 <= i < e.kids.len() && shows(SignS::Writes(ns), #[trigger] e.kids[i]);
            law_a_shown_write_is_of_one_of_them(ns, e.kids[i]);
            let n = choose|n: NameS| ns.contains(n) && #[trigger] writes_to(n, e.kids[i]);
            assert(writes_to(n, e));
        }
    }
    if exists|n: NameS| ns.contains(n) && #[trigger] writes_to(n, e) {
        let n = choose|n: NameS| ns.contains(n) && #[trigger] writes_to(n, e);
        if e.head != HeadS::MutWrite(n) {
            let i = choose|i: int| 0 <= i < e.kids.len() && writes_to(n, #[trigger] e.kids[i]);
            assert(writes_to(n, e.kids[i]));
            law_a_shown_write_is_of_one_of_them(ns, e.kids[i]);
            assert(shows(SignS::Writes(ns), e.kids[i]));
        }
    }
}

} // verus!
