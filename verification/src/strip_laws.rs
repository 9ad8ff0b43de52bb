//! The law of stripping: a program whose blocks stand where blocks may comes out
//! without them.

use vstd::prelude::*;
use crate::ast::{ExprS, HeadS, LitS};
use crate::block::{footprint_of, prepended, spliced, split_block};
use crate::make::stmt_s;
use crate::name::NameS;
use crate::probe::{PickS, SignS, gathered, shows};
use crate::strip::{
    HarvestS, LoopS, begins, lemma_begins_kid, lemma_block_begins, runs_block, site_of,
    stripped, stripped_upto, with_reads,
};
use crate::symbolic::lead;
use crate::transact::clean_strip;

verus! {

/// Whether the block `block` is one that stripping takes: it holds no other
/// block, declares no mutable variable along its spine, and what it writes
/// beside the variables `txn` is computed without writing one of them.
pub open spec fn block_taken(block: ExprS, txn: Seq<NameS>) -> bool {
    &&& !shows(SignS::Begin, block)
    &&& spliced(block, block) is Some
    &&& split_block(block, txn) matches Some((_, lifted)) && forall|i: int|
        0 <= i < lifted.len() ==> !shows(SignS::Writes(txn), #[trigger] lifted[i])
}

/// Whether every block in `e` is run as a statement, a writing one in a loop, and
/// the variables `txn` are written in blocks alone. `in_loop` tells whether `e`
/// itself stands in a loop.
pub open spec fn blocks_placed(e: ExprS, txn: Seq<NameS>, in_loop: bool) -> bool
    decreases e,
{
    if runs_block(e) {
        let block = e.kids[0].kids[0];
        &&& block_taken(block, txn)
        &&& shows(SignS::Writes(txn), block) ==> in_loop
        &&& blocks_placed(e.kids[1], txn, in_loop)
    } else {
        &&& !SignS::Begin.at(e)
        &&& !SignS::Writes(txn).at(e)
        &&& forall|i: int|
            0 <= i < e.kids.len() ==> blocks_placed(
                #[trigger] e.kids[i],
                txn,
                in_loop || (e.head is For && e.kids.len() == 2 && i == 1),
            )
    }
}

proof fn lemma_plain_is_placed(e: ExprS, txn: Seq<NameS>, in_loop: bool)
    requires
        !shows(SignS::Begin, e),
        !shows(SignS::Writes(txn), e),
    ensures
        blocks_placed(e, txn, in_loop),
    decreases e,
{
    if runs_block(e) {
        assert(shows(SignS::Begin, e.kids[0]));
    }
    assert forall|i: int| 0 <= i < e.kids.len() implies blocks_placed(
        #[trigger] e.kids[i],
        txn,
        in_loop || (e.head is For && e.kids.len() == 2 && i == 1),
    ) by {
        assert(!shows(SignS::Begin, e.kids[i]) && !shows(SignS::Writes(txn), e.kids[i]));
        lemma_plain_is_placed(
            e.kids[i],
            txn,
            in_loop || (e.head is For && e.kids.len() == 2 && i == 1),
        );
    }
}

proof fn lemma_two_placed(e: ExprS, txn: Seq<NameS>, in_loop: bool)
    requires
        e.kids.len() == 2,
        e.head is ExprStmt || e.head is Let,
        !(e.kids[0].head is Begin),
        blocks_placed(e.kids[0], txn, in_loop),
        blocks_placed(e.kids[1], txn, in_loop),
    ensures
        blocks_placed(e, txn, in_loop),
{
    assert forall|i: int| 0 <= i < e.kids.len() implies blocks_placed(
        #[trigger] e.kids[i],
        txn,
        in_loop || (e.head is For && e.kids.len() == 2 && i == 1),
    ) by {
        if i == 0 {
        } else {
            assert(i == 1);
        }
    }
}

proof fn lemma_prepended_placed(es: Seq<ExprS>, rest: ExprS, txn: Seq<NameS>, in_loop: bool)
    requires
        forall|i: int|
            0 <= i < es.len() ==> !shows(SignS::Begin, #[trigger] es[i]) && !shows(
                SignS::Writes(txn),
                es[i],
            ),
        blocks_placed(rest, txn, in_loop),
    ensures
        blocks_placed(prepended(es, rest), txn, in_loop),
    decreases es.len(),
{
    if es.len() > 0 {
        let last = es[es.len() - 1];
        let s = stmt_s(es.last(), rest, rest.ty());
        assert(!shows(SignS::Begin, last));
        lemma_plain_is_placed(last, txn, in_loop);
        assert(s.kids[0] == last && s.kids[1] == rest);
        lemma_two_placed(s, txn, in_loop);
        let d = es.drop_last();
        assert forall|i: int| 0 <= i < d.len() implies !shows(SignS::Begin, #[trigger] d[i])
            && !shows(SignS::Writes(txn), d[i]) by {
            assert(d[i] == es[i]);
        }
        lemma_prepended_placed(d, s, txn, in_loop);
    }
}

proof fn lemma_spliced_placed(block: ExprS, rest: ExprS, txn: Seq<NameS>, in_loop: bool)
    requires
        !shows(SignS::Begin, block),
        !shows(SignS::Writes(txn), block),
        blocks_placed(rest, txn, in_loop),
    ensures
        spliced(block, rest) matches Some(s) ==> blocks_placed(s, txn, in_loop),
    decreases block,
{
    if let Some(s) = spliced(block, rest) {
        match block.head {
            HeadS::Lit(LitS::Unit) => {},
            HeadS::ExprStmt => {
                assert(!shows(SignS::Begin, block.kids[0]) && !shows(SignS::Begin, block.kids[1]));
                assert(!shows(SignS::Writes(txn), block.kids[0]));
                assert(!shows(SignS::Writes(txn), block.kids[1]));
                lemma_spliced_placed(block.kids[1], rest, txn, in_loop);
                lemma_plain_is_placed(block.kids[0], txn, in_loop);
                lemma_two_placed(s, txn, in_loop);
            },
            HeadS::Let(_) => {
                assert(!shows(SignS::Begin, block.kids[0]) && !shows(SignS::Begin, block.kids[1]));
                assert(!shows(SignS::Writes(txn), block.kids[0]));
                assert(!shows(SignS::Writes(txn), block.kids[1]));
                lemma_spliced_placed(block.kids[1], rest, txn, in_loop);
                lemma_plain_is_placed(block.kids[0], txn, in_loop);
                lemma_two_placed(s, txn, in_loop);
            },
            HeadS::MutDecl(_) => {},
            _ => {
                lemma_plain_is_placed(block, txn, in_loop);
                assert(s.kids[0] == block && s.kids[1] == rest);
                lemma_two_placed(s, txn, in_loop);
            },
        }
    }
}

/// Whether a block can be spliced does not depend on what follows it.
proof fn lemma_splice_any(block: ExprS, a: ExprS, b: ExprS)
    ensures
        spliced(block, a) is Some == spliced(block, b) is Some,
    decreases block,
{
    match block.head {
        HeadS::ExprStmt => if block.kids.len() == 2 {
            lemma_splice_any(block.kids[1], a, b);
        },
        HeadS::Let(_) => if block.kids.len() == 2 {
            lemma_splice_any(block.kids[1], a, b);
        },
        _ => {},
    }
}

proof fn lemma_lifted_no_block(block: ExprS, txn: Seq<NameS>)
    requires
        !shows(SignS::Begin, block),
    ensures
        split_block(block, txn) matches Some((_, lifted)) ==> forall|i: int|
            0 <= i < lifted.len() ==> !shows(SignS::Begin, #[trigger] lifted[i]),
    decreases block,
{
    match block.head {
        HeadS::ExprStmt => if block.kids.len() == 2 {
            assert(!shows(SignS::Begin, block.kids[0]) && !shows(SignS::Begin, block.kids[1]));
            lemma_lifted_no_block(block.kids[1], txn);
            if let Some((_, lifted)) = split_block(block, txn) {
                if let Some((_, below)) = split_block(block.kids[1], txn) {
                    assert forall|i: int| 0 <= i < lifted.len() implies !shows(
                        SignS::Begin,
                        #[trigger] lifted[i],
                    ) by {
                        if block.kids[0].head matches HeadS::MutWrite(n) && !txn.contains(n) {
                            if i > 0 {
                                assert(lifted[i] == below[i - 1]);
                            }
                        } else {
                            assert(lifted[i] == below[i]);
                        }
                    }
                }
            }
        },
        HeadS::Let(_) => if block.kids.len() == 2 {
            assert(!shows(SignS::Begin, block.kids[1]));
            lemma_lifted_no_block(block.kids[1], txn);
        },
        _ => {},
    }
}

/// Whether nothing transactional is in `s`.
pub open spec fn untransacted(s: ExprS, txn: Seq<NameS>) -> bool {
    !shows(SignS::Begin, s) && !shows(SignS::Writes(txn), s)
}

proof fn lemma_stripped(e: ExprS, txn: Seq<NameS>, enclosing: Option<LoopS>, acc: HarvestS)
    requires
        blocks_placed(e, txn, enclosing is Some),
    ensures
        stripped(e, txn, enclosing, acc) matches Some((s, _)) && untransacted(s, txn),
    decreases begins(e), e, e.kids.len() + 1,
{
    let in_loop = enclosing is Some;
    if runs_block(e) {
        let block = e.kids[0].kids[0];
        let rest = e.kids[1];
        lemma_block_begins(e, txn);
        if shows(SignS::Writes(txn), block) {
            let lifted = (split_block(block, txn)->0).1;
            lemma_lifted_no_block(block, txn);
            assert forall|i: int| 0 <= i < lifted.len() implies !shows(
                SignS::Begin,
                #[trigger] lifted[i],
            ) && !shows(SignS::Writes(txn), lifted[i]) by {}
            lemma_prepended_placed(lifted, rest, txn, in_loop);
            let b = (split_block(block, txn)->0).0;
            lemma_stripped(
                prepended(lifted, rest),
                txn,
                enclosing,
                HarvestS { sites: acc.sites.push(site_of(enclosing->0, b, txn)), ..acc },
            );
        } else {
            lemma_splice_any(block, block, rest);
            lemma_spliced_placed(block, rest, txn, in_loop);
            lemma_stripped(
                spliced(block, rest)->0,
                txn,
                enclosing,
                with_reads(acc, footprint_of(txn, block).read_keys),
            );
        }
    } else if e.head is For && e.kids.len() == 2 {
        lemma_begins_kid(e, 0);
        lemma_begins_kid(e, 1);
        assert(decreases_to!(e => e.kids[0]));
        assert(decreases_to!(e => e.kids[1]));
        assert(blocks_placed(e.kids[0], txn, in_loop));
        assert(blocks_placed(e.kids[1], txn, true));
        lemma_stripped(e.kids[0], txn, enclosing, acc);
        let (source, a) = stripped(e.kids[0], txn, enclosing, acc)->0;
        let l = LoopS {
            target: e.head->For_0,
            target_ty: e.tys[lead(e)],
            source,
            writes: gathered(PickS::WrittenBeyond(txn), e.kids[1]),
        };
        lemma_stripped(e.kids[1], txn, Some(l), a);
        let out = (stripped(e, txn, enclosing, acc)->0).0;
        assert forall|i: int| 0 <= i < out.kids.len() implies untransacted(
            #[trigger] out.kids[i],
            txn,
        ) by {
            if i == 0 {
            } else {
                assert(i == 1);
            }
        }
        lemma_untransacted(out, txn);
    } else {
        lemma_stripped_upto(e, txn, enclosing, acc, e.kids.len());
        let out = (stripped(e, txn, enclosing, acc)->0).0;
        lemma_untransacted(out, txn);
    }
}

proof fn lemma_untransacted(e: ExprS, txn: Seq<NameS>)
    requires
        !SignS::Begin.at(e),
        !SignS::Writes(txn).at(e),
        forall|i: int| 0 <= i < e.kids.len() ==> untransacted(#[trigger] e.kids[i], txn),
    ensures
        untransacted(e, txn),
{
    assert forall|i: int| 0 <= i < e.kids.len() implies !shows(SignS::Begin, #[trigger] e.kids[i])
        && !shows(SignS::Writes(txn), e.kids[i]) by {
        assert(untransacted(e.kids[i], txn));
    }
}

proof fn lemma_stripped_upto(
    e: ExprS,
    txn: Seq<NameS>,
    enclosing: Option<LoopS>,
    acc: HarvestS,
    n: nat,
)
    requires
        n <= e.kids.len(),
        forall|i: int|
            0 <= i < e.kids.len() ==> blocks_placed(
                #[trigger] e.kids[i],
                txn,
                enclosing is Some || (e.head is For && e.kids.len() == 2 && i == 1),
            ),
        !(e.head is For && e.kids.len() == 2),
    ensures
        stripped_upto(e, txn, enclosing, acc, n) matches Some((ks, _)) && ks.len() == n && forall|
            i: int,
        |
            0 <= i < n ==> untransacted(#[trigger] ks[i], txn),
    decreases begins(e), e, n,
{
    if n > 0 {
        lemma_stripped_upto(e, txn, enclosing, acc, (n - 1) as nat);
        lemma_begins_kid(e, n - 1);
        assert(decreases_to!(e => e.kids[n - 1]));
        assert(blocks_placed(e.kids[n - 1], txn, enclosing is Some));
        let a = (stripped_upto(e, txn, enclosing, acc, (n - 1) as nat)->0).1;
        lemma_stripped(e.kids[n - 1], txn, enclosing, a);
    }
}

/// Where every block stands where blocks may, they are all taken out of the
/// program: what is left holds neither a block nor a write of a transactional
/// variable.
pub proof fn law_no_block_is_left(e: ExprS, txn: Seq<NameS>)
    requires
        blocks_placed(e, txn, false),
    ensures
        clean_strip(e, txn) matches Some((s, _)) && !shows(SignS::Begin, s) && !shows(
            SignS::Writes(txn),
            s,
        ),
{
    lemma_stripped(e, txn, None, HarvestS { sites: Seq::empty(), read_only: Seq::empty() });
}

} // verus!
