//! Hashing a set of restrictions: its size, and what the hashes of its members
//! add up to, so that the order they are listed in does not tell.

use vstd::prelude::*;
use crate::ast::ExprS;
use crate::name::{Name, NameS, names_view};
use crate::predicate_hash::{
    HashToken, HashTokenS, hash_refinement_predicate, hash_tokens,
    law_equal_predicates_hash_alike, lefts, rights, tokens_view,
};
use crate::predicate_laws::{law_equal_predicates_chain, law_equal_predicates_either_way};
use crate::refine_eq::same_pred;
use crate::refinement_set::{RefinementSet, distinct, same_set, set_has};

verus! {

/// What the numbers add up to.
pub open spec fn total(hs: Seq<u64>) -> int
    decreases hs.len(),
{
    if hs.len() == 0 {
        0
    } else {
        total(hs.drop_last()) + hs.last()
    }
}

/// What the hashes of members combine to: their sum, wrapped.
pub open spec fn combined(hs: Seq<u64>) -> int {
    total(hs) % 0x1_0000_0000_0000_0000
}

/// What a hash is fed of each of the restrictions.
pub open spec fn member_tokens(s: Seq<ExprS>) -> Seq<Seq<HashTokenS>> {
    Seq::new(s.len(), |i: int| hash_tokens(s[i], Seq::empty()))
}

/// The hashes of the restrictions under the hash `h`.
pub open spec fn member_hashes(h: spec_fn(Seq<HashTokenS>) -> u64, s: Seq<ExprS>) -> Seq<u64> {
    Seq::new(s.len(), |i: int| h(hash_tokens(s[i], Seq::empty())))
}

/// The wrapped sum of the hashes of members.
pub fn combine_hashes(hs: &Vec<u64>) -> (r: u64)
    ensures
        r as int == combined(hs@),
{
    let mut sum: u64 = 0;
    let mut i: usize = 0;
    assert(hs@.take(0) =~= Seq::empty());
    while i < hs.len()
        invariant
            i <= hs.len(),
            sum as int == combined(hs@.take(i as int)),
        decreases hs.len() - i,
    {
        let ghost before = hs@.take(i as int);
        let ghost after = hs@.take(i + 1);
        assert(after.drop_last() =~= before);
        assert(after.last() == hs@[i as int]);
        sum = sum.wrapping_add(hs[i]);
        i = i + 1;
    }
    assert(hs@.take(i as int) =~= hs@);
    sum
}

pub open spec fn token_lists_view(v: Seq<Vec<HashToken>>) -> Seq<Seq<HashTokenS>> {
    Seq::new(v.len(), |i: int| tokens_view(v[i]@))
}

impl RefinementSet {
    /// What a hash is fed of each member, to be hashed one by one and combined.
    pub fn hash_parts(&self) -> (r: Vec<Vec<HashToken>>)
        ensures
            token_lists_view(r@) == member_tokens(self.view()),
    {
        let none: Vec<Name> = Vec::new();
        let mut out: Vec<Vec<HashToken>> = Vec::new();
        let n: usize = self.len();
        let mut i: usize = 0;
        assert(names_view(none@) =~= Seq::empty());
        while i < n
            invariant
                i <= n,
                n == self.members().len(),
                out.len() == i,
                names_view(none@) == Seq::<NameS>::empty(),
                forall|j: int|
                    0 <= j < i ==> tokens_view((#[trigger] out@[j])@) == hash_tokens(
                        self.view()[j],
                        Seq::empty(),
                    ),
            decreases n - i,
        {
            assert(self.view()[i as int] == self.members()[i as int].predicate.view());
            out.push(hash_refinement_predicate(&self.member(i).predicate, &none));
            i = i + 1;
        }
        assert(token_lists_view(out@) =~= member_tokens(self.view()));
        out
    }
}

proof fn lemma_total_without(hs: Seq<u64>, j: int)
    requires
        0 <= j < hs.len(),
    ensures
        total(hs) == total(hs.remove(j)) + hs[j],
    decreases hs.len(),
{
    let last = hs.len() - 1;
    if j == last {
        assert(hs.remove(j) =~= hs.drop_last());
    } else {
        lemma_total_without(hs.drop_last(), j);
        assert(hs.remove(j).drop_last() =~= hs.drop_last().remove(j));
        assert(hs.remove(j).last() == hs.last());
    }
}

proof fn lemma_equal_totals(h: spec_fn(Seq<HashTokenS>) -> u64, s: Seq<ExprS>, t: Seq<ExprS>)
    requires
        same_set(s, t),
        distinct(s),
    ensures
        total(member_hashes(h, s)) == total(member_hashes(h, t)),
    decreases s.len(),
{
    if s.len() > 0 {
        let n = s.len() - 1;
        assert(set_has(t, s[n]));
        let j = choose|j: int| 0 <= j < t.len() && same_pred(#[trigger] t[j], s[n]);
        let rest = s.drop_last();
        let others = t.remove(j);
        let none: Seq<(NameS, NameS)> = Seq::empty();
        law_equal_predicates_hash_alike(t[j], s[n], none);
        assert(lefts(none) =~= Seq::empty());
        assert(rights(none) =~= Seq::empty());
        assert forall|i: int| 0 <= i < rest.len() implies set_has(others, #[trigger] rest[i]) by {
            assert(rest[i] == s[i]);
            assert(set_has(t, s[i]));
            let k = choose|k: int| 0 <= k < t.len() && same_pred(#[trigger] t[k], s[i]);
            if k == j {
                law_equal_predicates_either_way(t[j], s[i]);
                law_equal_predicates_chain(s[i], t[j], s[n]);
                assert(same_pred(s[i], s[n]));
            }
            let at = if k < j { k } else { k - 1 };
            assert(others[at] == t[k]);
        }
        assert forall|i: int, k: int| 0 <= i < k < rest.len() implies !same_pred(
            #[trigger] rest[i],
            #[trigger] rest[k],
        ) by {
            assert(rest[i] == s[i] && rest[k] == s[k]);
        }
        lemma_equal_totals(h, rest, others);
        assert(member_hashes(h, s).drop_last() =~= member_hashes(h, rest));
        assert(member_hashes(h, t).remove(j) =~= member_hashes(h, others));
        lemma_total_without(member_hashes(h, t), j);
    }
}

/// Equal sets of restrictions hash alike, whatever each member is hashed by.
pub proof fn law_equal_sets_hash_alike(
    h: spec_fn(Seq<HashTokenS>) -> u64,
    s: Seq<ExprS>,
    t: Seq<ExprS>,
)
    requires
        same_set(s, t),
        distinct(s),
    ensures
        s.len() == t.len(),
        combined(member_hashes(h, s)) == combined(member_hashes(h, t)),
{
    lemma_equal_totals(h, s, t);
}

} // verus!
