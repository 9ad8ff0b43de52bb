//! Predicates that several restrictions share: one term behind several handles,
//! and the record a walk keeps so that handles on one term become handles on
//! one result.

use std::rc::Rc;
use vstd::prelude::*;
use crate::ast::{Expr, ExprS};

verus! {

pub open spec fn shared_view(v: Seq<Rc<Expr>>) -> Seq<ExprS> {
    Seq::new(v.len(), |i: int| v[i].view())
}

pub open spec fn shared_refs_view(v: Seq<&Rc<Expr>>) -> Seq<ExprS> {
    Seq::new(v.len(), |i: int| v[i].view())
}

/// Another handle on the predicate `p`. Calls `Rc::clone`, which gives a second
/// pointer to the same allocation: the value behind both is one.
#[verifier::external_body]
pub(crate) fn share(p: &Rc<Expr>) -> (r: Rc<Expr>)
    ensures
        r == *p,
{
    Rc::clone(p)
}

/// Another handle on each of the predicates.
pub fn share_all(ps: &Vec<&Rc<Expr>>) -> (r: Vec<Rc<Expr>>)
    ensures
        shared_view(r@) == shared_refs_view(ps@),
{
    let mut out: Vec<Rc<Expr>> = Vec::new();
    let mut i: usize = 0;
    while i < ps.len()
        invariant
            i <= ps.len(),
            out.len() == i,
            forall|j: int| 0 <= j < i ==> (#[trigger] out@[j]).view() == ps@[j].view(),
        decreases ps.len() - i,
    {
        out.push(share(ps[i]));
        i = i + 1;
    }
    assert(shared_view(out@) =~= shared_refs_view(ps@));
    out
}

/// Whether the two are handles on one term. Calls `Rc::ptr_eq`, which compares
/// where the two point; handles on one allocation hold one value. Two terms that
/// are merely equal may answer either way.
#[verifier::external_body]
pub(crate) fn one_term(a: &Rc<Expr>, b: &Rc<Expr>) -> (r: bool)
    ensures
        r ==> *a == *b,
{
    Rc::ptr_eq(a, b)
}

/// A predicate a walk has been over: where it stood, and what became of it.
pub struct Rebuilt {
    pub source: Rc<Expr>,
    pub depth: u32,
    pub result: Rc<Expr>,
}

/// The predicates one walk has been over.
pub struct PredMemo {
    pub done: Vec<Rebuilt>,
}

impl PredMemo {
    /// Whether every result is what `f` makes of the predicate where it stood.
    pub open spec fn follows(&self, f: spec_fn(ExprS, u32) -> ExprS) -> bool {
        forall|i: int|
            0 <= i < self.done@.len() ==> (#[trigger] self.done@[i]).result.view() == f(
                self.done@[i].source.view(),
                self.done@[i].depth,
            )
    }

    /// A record of nothing.
    pub fn new() -> (r: PredMemo)
        ensures
            forall|f: spec_fn(ExprS, u32) -> ExprS| #[trigger] r.follows(f),
    {
        PredMemo { done: Vec::new() }
    }

    /// Another handle on what became of the term `p` at this depth, where the
    /// walk has been over it.
    pub fn find(&self, p: &Rc<Expr>, depth: u32) -> (r: Option<Rc<Expr>>)
        ensures
            r is Some ==> forall|f: spec_fn(ExprS, u32) -> ExprS| #[trigger]
                self.follows(f) ==> r->0.view() == f(p.view(), depth),
    {
        let mut i: usize = 0;
        while i < self.done.len()
            invariant
                i <= self.done.len(),
            decreases self.done.len() - i,
        {
            let d = &self.done[i];
            if d.depth == depth && one_term(&d.source, p) {
                assert(self.done@[i as int].source == *p);
                assert(self.done@[i as int].result == d.result);
                return Some(share(&d.result));
            }
            i = i + 1;
        }
        None
    }

    /// Records what became of the term `p` at this depth.
    pub fn note(&mut self, p: &Rc<Expr>, depth: u32, q: &Rc<Expr>)
        ensures
            forall|f: spec_fn(ExprS, u32) -> ExprS| #[trigger]
                final(self).follows(f) <==> old(self).follows(f) && q.view() == f(p.view(), depth),
    {
        let ghost before = self.done@;
        self.done.push(Rebuilt { source: share(p), depth, result: share(q) });
        proof {
            assert(self.done@[before.len() as int].source == *p);
            assert forall|f: spec_fn(ExprS, u32) -> ExprS| #[trigger]
                self.follows(f) implies old(self).follows(f) && q.view() == f(p.view(), depth) by {
                assert forall|i: int| 0 <= i < before.len() implies (#[trigger]
                before[i]).result.view() == f(before[i].source.view(), before[i].depth) by {
                    assert(self.done@[i] == before[i]);
                }
            }
        }
    }
}

} // verus!
