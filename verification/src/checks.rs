//! What a program with transactions may not hold.
use vstd::prelude::*;
use crate::ast::{Builtin, Expr, ExprS, HeadS, TypedExprNode, opt_name_view};
use crate::block::{guarded_non_txn_write, guarded_write};
use crate::layout::{cat3, cat5, put3, put5};
use crate::name::{Name, NameS, has_name, names_view};
use crate::probe::{Pick, PickS, Sign, SignS, gather, gathered, occurs, shows};
use crate::text::owned;
use crate::tree::expr_refs_view;

verus! {

/// Whether some transaction block of `e` holds another.
pub open spec fn nests(e: ExprS) -> bool
    decreases e,
{
    ||| e.head is Begin && e.kids.len() == 1 && shows(SignS::Begin, e.kids[0])
    ||| exists|i: int| 0 <= i < e.kids.len() && nests(#[trigger] e.kids[i])
}

#[verifier::loop_isolation(false)]
fn holds_nested(e: &Expr) -> (r: bool)
    ensures
        r == nests(e.view()),
    decreases e.view(),
{
    let ghost ev = e.view();
    match &e.node {
        TypedExprNode::Begin { body } => {
            assert(ev.kids[0] == body.view());
            if occurs(&Sign::Begin, body) {
                return true;
            }
        },
        _ => {},
    }
    let kids = e.children();
    assert(kids@.len() == ev.kids.len());
    let mut i: usize = 0;
    while i < kids.len()
        invariant
            i <= kids.len(),
            forall|j: int| 0 <= j < i ==> !nests(#[trigger] ev.kids[j]),
        decreases kids.len() - i,
    {
        assert(kids@[i as int].view() == ev.kids[i as int]);
        if holds_nested(kids[i]) {
            return true;
        }
        i = i + 1;
    }
    false
}

/// Rejects a transaction block inside another, whatever the stores.
pub fn check_no_nested_transactions(expr: &Expr, _txn_stores: &Vec<Name>) -> (r: Result<
    (),
    String,
>)
    ensures
        r is Err == nests(expr.view()),
        r matches Err(m) ==> m@
            == "nested `with begin():` transactions are not supported: a transactional writer called inside a `with begin():` block would run its own transaction within the outer one"@,
{
    if holds_nested(expr) {
        Err(
            owned(
                "nested `with begin():` transactions are not supported: a transactional writer called inside a `with begin():` block would run its own transaction within the outer one",
            ),
        )
    } else {
        Ok(())
    }
}

/// A write that a transaction block may not hold.
pub enum FaultS {
    /// One of a block that writes no transactional variable.
    Uncommitted,
    /// One under a choice.
    Guarded,
}

impl FaultS {
    /// The name of the fault at a transaction block.
    pub open spec fn at(self, txn: Seq<NameS>, e: ExprS) -> Option<NameS> {
        if e.head is Begin && e.kids.len() == 1 {
            let body = e.kids[0];
            match self {
                FaultS::Uncommitted => {
                    let ws = gathered(PickS::WrittenBeyond(txn), body);
                    if !shows(SignS::Writes(txn), body) && ws.len() > 0 {
                        Some(ws[0])
                    } else {
                        None
                    }
                },
                FaultS::Guarded => guarded_write(txn, false, body),
            }
        } else {
            None
        }
    }
}

/// The first fault in `e`, each node before its subterms.
pub open spec fn first_fault(f: FaultS, txn: Seq<NameS>, e: ExprS) -> Option<NameS>
    decreases e, e.kids.len() + 1,
{
    match f.at(txn, e) {
        Some(n) => Some(n),
        None => first_fault_upto(f, txn, e, e.kids.len()),
    }
}

pub open spec fn first_fault_upto(f: FaultS, txn: Seq<NameS>, e: ExprS, n: nat) -> Option<NameS>
    decreases e, n,
{
    if n == 0 || n > e.kids.len() {
        None
    } else {
        match first_fault_upto(f, txn, e, (n - 1) as nat) {
            Some(x) => Some(x),
            None => first_fault(f, txn, e.kids[n - 1]),
        }
    }
}

pub enum Fault {
    Uncommitted,
    Guarded,
}

impl Fault {
    pub open spec fn view(&self) -> FaultS {
        match self {
            Fault::Uncommitted => FaultS::Uncommitted,
            Fault::Guarded => FaultS::Guarded,
        }
    }
}

fn find_fault(f: &Fault, txn: &Vec<Name>, e: &Expr) -> (r: Option<Name>)
    ensures
        opt_name_view(r) == first_fault(f.view(), names_view(txn@), e.view()),
    decreases e.view(),
{
    let ghost ev = e.view();
    let ghost tv = names_view(txn@);
    match &e.node {
        TypedExprNode::Begin { body } => {
            assert(ev.kids[0] == body.view());
            match f {
                Fault::Uncommitted => {
                    if !occurs(&Sign::Writes(txn), body) {
                        let ws = gather(&Pick::WrittenBeyond(txn), body);
                        if ws.len() > 0 {
                            assert(names_view(ws@)[0] == ws@[0]@);
                            return Some(ws[0].clone());
                        }
                    }
                },
                Fault::Guarded => {
                    let w = guarded_non_txn_write(body, txn, false);
                    if w.is_some() {
                        return w;
                    }
                },
            }
        },
        _ => {},
    }
    let kids = e.children();
    assert(kids@.len() == ev.kids.len());
    let mut found: Option<Name> = None;
    let mut i: usize = 0;
    while i < kids.len()
        invariant
            i <= kids.len(),
            ev == e.view(),
            tv == names_view(txn@),
            kids@.len() == ev.kids.len(),
            expr_refs_view(kids@) == ev.kids,
            opt_name_view(found) == first_fault_upto(f.view(), tv, ev, i as nat),
        decreases kids.len() - i,
    {
        assert(kids@[i as int].view() == ev.kids[i as int]);
        if found.is_none() {
            found = find_fault(f, txn, kids[i]);
        }
        i = i + 1;
    }
    found
}

/// What is said of a write in a block that commits nothing.
pub open spec fn uncommitted_text(n: NameS) -> Seq<char> {
    cat5(
        "`"@,
        n.base(),
        "` is written inside a `with begin():` block that commits no transactional mutable variable, so the block provides no atomicity. If `"@,
        n.base(),
        "` is an induction accumulator, move its write outside the block; if it should be a transactional mutable variable, declare it `Mut(…, Txn)` and write it alongside a mutable variable in the block"@,
    )
}

/// Rejects a transaction block that writes, but nothing transactional.
pub fn check_no_induction_only_transactions(expr: &Expr, txn_mut_vars: &Vec<Name>) -> (r: Result<
    (),
    String,
>)
    ensures
        match first_fault(FaultS::Uncommitted, names_view(txn_mut_vars@), expr.view()) {
            Some(n) => (r matches Err(m) && m@ == uncommitted_text(n)),
            None => r is Ok,
        },
{
    match find_fault(&Fault::Uncommitted, txn_mut_vars, expr) {
        Some(n) => {
            let name = n.to_text();
            Err(
                put5(
                    "`",
                    name.as_str(),
                    "` is written inside a `with begin():` block that commits no transactional mutable variable, so the block provides no atomicity. If `",
                    name.as_str(),
                    "` is an induction accumulator, move its write outside the block; if it should be a transactional mutable variable, declare it `Mut(…, Txn)` and write it alongside a mutable variable in the block",
                ),
            )
        },
        None => Ok(()),
    }
}

/// What is said of a write under a choice.
pub open spec fn guarded_text(n: NameS) -> Seq<char> {
    cat3(
        "`"@,
        n.base(),
        "` is written under an `if` inside a `with begin():` block. A guarded induction write in a transaction block is not supported — move the write outside the block, or (if it should be shared across the transaction) declare it `Mut(…, Txn)` and write it directly, not under a branch"@,
    )
}

/// Rejects a write under a choice in a transaction block, unless it is of a
/// transactional variable.
pub fn check_no_guarded_induction_write_in_block(expr: &Expr, txn_mut_vars: &Vec<Name>) -> (r:
    Result<(), String>)
    ensures
        match first_fault(FaultS::Guarded, names_view(txn_mut_vars@), expr.view()) {
            Some(n) => (r matches Err(m) && m@ == guarded_text(n)),
            None => r is Ok,
        },
{
    match find_fault(&Fault::Guarded, txn_mut_vars, expr) {
        Some(n) => Err(
            put3(
                "`",
                n.to_text().as_str(),
                "` is written under an `if` inside a `with begin():` block. A guarded induction write in a transaction block is not supported — move the write outside the block, or (if it should be shared across the transaction) declare it `Mut(…, Txn)` and write it directly, not under a branch",
            ),
        ),
        None => Ok(()),
    }
}

/// What is wrong with an await.
pub enum AwaitFaultS {
    /// This variable was awaited before.
    UsedUp(NameS),
    /// The operand is no reference to a variable.
    NotBare,
}

impl AwaitFaultS {
    pub open spec fn said(self) -> Seq<char> {
        match self {
            AwaitFaultS::UsedUp(n) => cat5(
                "`"@,
                n.base(),
                "` is unreferenceable after `await_final("@,
                n.base(),
                ")`: the await consumes the mutable variable, declaring its commit history complete"@,
            ),
            AwaitFaultS::NotBare =>
                "await_final's operand must be a bare mutable variable reference"@,
        }
    }
}

/// What has been awaited once `e` has run, where `awaited` was before; or the
/// first mention of an awaited variable.
pub open spec fn awaits(e: ExprS, awaited: Seq<NameS>) -> Result<Seq<NameS>, AwaitFaultS>
    decreases e, e.kids.len() + 1,
{
    if SignS::AwaitFinal.at(e) {
        match e.kids[1].head {
            HeadS::Var(n) => if awaited.contains(n) {
                Err(AwaitFaultS::UsedUp(n))
            } else {
                Ok(awaited.push(n))
            },
            _ => Err(AwaitFaultS::NotBare),
        }
    } else {
        match e.head {
            HeadS::Var(n) => if awaited.contains(n) {
                Err(AwaitFaultS::UsedUp(n))
            } else {
                awaits_upto(e, awaited, e.kids.len())
            },
            HeadS::MutWrite(n) => if awaited.contains(n) {
                Err(AwaitFaultS::UsedUp(n))
            } else {
                awaits_upto(e, awaited, e.kids.len())
            },
            _ => awaits_upto(e, awaited, e.kids.len()),
        }
    }
}

/// The same of the first `n` subterms of `e`.
pub open spec fn awaits_upto(e: ExprS, awaited: Seq<NameS>, n: nat) -> Result<
    Seq<NameS>,
    AwaitFaultS,
>
    decreases e, n,
{
    if n == 0 || n > e.kids.len() {
        Ok(awaited)
    } else {
        match awaits_upto(e, awaited, (n - 1) as nat) {
            Ok(a) => awaits(e.kids[n - 1], a),
            Err(f) => Err(f),
        }
    }
}

fn used_up(reg: &Name) -> (r: String)
    ensures
        r@ == AwaitFaultS::UsedUp(reg@).said(),
{
    let name = reg.base();
    put5(
        "`",
        name.as_str(),
        "` is unreferenceable after `await_final(",
        name.as_str(),
        ")`: the await consumes the mutable variable, declaring its commit history complete",
    )
}

fn await_walk(e: &Expr, awaited: &mut Vec<Name>) -> (r: Result<(), String>)
    ensures
        match awaits(e.view(), names_view(old(awaited)@)) {
            Ok(a) => r is Ok && names_view(final(awaited)@) == a,
            Err(f) => (r matches Err(m) && m@ == f.said()),
        },
    decreases e.view(), 1int,
{
    let ghost ev = e.view();
    let ghost start = names_view(awaited@);
    match &e.node {
        TypedExprNode::Var(reg) => {
            if has_name(awaited, reg) {
                return Err(used_up(reg));
            }
        },
        TypedExprNode::MutWrite { name, value } => {
            if has_name(awaited, name) {
                return Err(used_up(name));
            }
        },
        TypedExprNode::Apply { function, argument } => {
            assert(ev.kids[0] == function.view());
            assert(ev.kids[1] == argument.view());
            match &function.node {
                TypedExprNode::Builtin(Builtin::AwaitFinal) => {
                    return match &argument.node {
                        TypedExprNode::Var(reg) => {
                            if has_name(awaited, reg) {
                                Err(used_up(reg))
                            } else {
                                let ghost before = awaited@;
                                awaited.push(reg.clone());
                                assert(names_view(awaited@) =~= names_view(before).push(reg@));
                                Ok(())
                            }
                        },
                        _ => Err(
                            owned(
                                "await_final's operand must be a bare mutable variable reference",
                            ),
                        ),
                    };
                },
                _ => {},
            }
        },
        _ => {},
    }
    await_walk_kids(e, awaited)
}

fn await_walk_kids(e: &Expr, awaited: &mut Vec<Name>) -> (r: Result<(), String>)
    ensures
        match awaits_upto(e.view(), names_view(old(awaited)@), e.view().kids.len()) {
            Ok(a) => r is Ok && names_view(final(awaited)@) == a,
            Err(f) => (r matches Err(m) && m@ == f.said()),
        },
    decreases e.view(), 0int,
{
    let ghost ev = e.view();
    let ghost start = names_view(awaited@);
    let kids = e.children();
    assert(kids@.len() == ev.kids.len());
    let mut result: Result<(), String> = Ok(());
    let mut i: usize = 0;
    while i < kids.len()
        invariant
            i <= kids.len(),
            ev == e.view(),
            kids@.len() == ev.kids.len(),
            expr_refs_view(kids@) == ev.kids,
            match awaits_upto(ev, start, i as nat) {
                Ok(a) => result is Ok && names_view(awaited@) == a,
                Err(f) => (result matches Err(m) && m@ == f.said()),
            },
        decreases kids.len() - i,
    {
        assert(kids@[i as int].view() == ev.kids[i as int]);
        if result.is_ok() {
            result = await_walk(kids[i], awaited);
        }
        i = i + 1;
    }
    result
}

/// Rejects a mention of a mutable variable after its final value was awaited.
pub fn check_await_final_linearity(expr: &Expr) -> (r: Result<(), String>)
    ensures
        match awaits(expr.view(), Seq::empty()) {
            Ok(a) => r is Ok,
            Err(f) => (r matches Err(m) && m@ == f.said()),
        },
{
    let mut awaited: Vec<Name> = Vec::new();
    assert(names_view(awaited@) =~= Seq::empty());
    await_walk(expr, &mut awaited)
}

} // verus!
