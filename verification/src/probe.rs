//! Looking for forms in a term.
use vstd::prelude::*;
use crate::ast::{Builtin, BuiltinS, Expr, ExprS, HeadS, Type, TypeS, TypedExprNode};
use crate::name::{Name, NameS, has_name, names_view};
use crate::symbolic::lead;
use crate::tree::expr_refs_view;
use crate::txn_terms::{bare, bared};

verus! {

/// A form that a node can have.
pub enum SignS {
    /// A transaction block.
    Begin,
    /// An await of a mutable variable's final value.
    AwaitFinal,
    /// A write of one of these.
    Writes(Seq<NameS>),
    /// A reference to this name.
    Reads(NameS),
}

impl SignS {
    pub open spec fn at(self, e: ExprS) -> bool {
        match self {
            SignS::Begin => e.head is Begin,
            SignS::AwaitFinal => e.head is Apply && e.kids.len() == 2 && e.kids[0].head
                == HeadS::Builtin(BuiltinS::AwaitFinal),
            SignS::Writes(ns) => e.head matches HeadS::MutWrite(n) && ns.contains(n),
            SignS::Reads(n) => e.head == HeadS::Var(n),
        }
    }
}

/// Whether some node of `e` has the form.
pub open spec fn shows(s: SignS, e: ExprS) -> bool
    decreases e,
{
    s.at(e) || exists|i: int| 0 <= i < e.kids.len() && shows(s, #[trigger] e.kids[i])
}

/// A name that a node can give.
pub enum PickS {
    /// The transactional mutable variable that a node declares.
    TxnDeclared,
    /// The name that a node writes, where it is none of these.
    WrittenBeyond(Seq<NameS>),
    /// The name that a node refers to, where it is none of these.
    ReadBeyond(Seq<NameS>),
    /// The mutable variable whose final value a node awaits.
    Awaited,
    /// The history that a node reads at an unsupplied position.
    Sampled,
    /// The handle that a node feeds or defines.
    Fed,
}

/// The name that a builtin is applied to.
pub open spec fn builtin_operand(b: BuiltinS, e: ExprS) -> Option<NameS> {
    if e.head is Apply && e.kids.len() == 2 && e.kids[0].head == HeadS::Builtin(b) {
        match e.kids[1].head {
            HeadS::Var(n) => Some(n),
            _ => None,
        }
    } else {
        None
    }
}

/// Whether a type is that of a transactional mutable variable.
pub open spec fn is_txn_var_ty(t: TypeS) -> bool {
    let u = bare(t);
    u.head is History && u.kids.len() == 2 && bare(u.kids[1]).head is Txn
}

impl PickS {
    pub open spec fn at(self, e: ExprS) -> Option<NameS> {
        match self {
            PickS::TxnDeclared => match e.head {
                HeadS::MutDecl(n) => if is_txn_var_ty(e.tys[lead(e)]) { Some(n) } else { None },
                _ => None,
            },
            PickS::WrittenBeyond(ns) => match e.head {
                HeadS::MutWrite(n) => if ns.contains(n) { None } else { Some(n) },
                _ => None,
            },
            PickS::ReadBeyond(ns) => match e.head {
                HeadS::Var(n) => if ns.contains(n) { None } else { Some(n) },
                _ => None,
            },
            PickS::Awaited => builtin_operand(BuiltinS::AwaitFinal, e),
            PickS::Sampled => builtin_operand(BuiltinS::AsOfRead, e),
            PickS::Fed => match e.head {
                HeadS::Feed(n) => Some(n),
                HeadS::Define(n) => Some(n),
                _ => None,
            },
        }
    }
}

pub open spec fn opt_seq(n: Option<NameS>) -> Seq<NameS> {
    match n {
        Some(x) => seq![x],
        None => Seq::empty(),
    }
}

/// The names that the nodes of `e` give, each node before its subterms.
pub open spec fn gathered(p: PickS, e: ExprS) -> Seq<NameS>
    decreases e, e.kids.len() + 1,
{
    opt_seq(p.at(e)) + gathered_upto(p, e, e.kids.len())
}

/// The names that the first `n` subterms of `e` give.
pub open spec fn gathered_upto(p: PickS, e: ExprS, n: nat) -> Seq<NameS>
    decreases e, n,
{
    if n == 0 || n > e.kids.len() {
        Seq::empty()
    } else {
        gathered_upto(p, e, (n - 1) as nat) + gathered(p, e.kids[n - 1])
    }
}

pub enum Sign<'a> {
    Begin,
    AwaitFinal,
    Writes(&'a Vec<Name>),
    Reads(&'a Name),
}

impl<'a> Sign<'a> {
    pub open spec fn view(&self) -> SignS {
        match self {
            Sign::Begin => SignS::Begin,
            Sign::AwaitFinal => SignS::AwaitFinal,
            Sign::Writes(ns) => SignS::Writes(names_view(ns@)),
            Sign::Reads(n) => SignS::Reads(n@),
        }
    }

    fn holds_at(&self, e: &Expr) -> (r: bool)
        ensures
            r == self.view().at(e.view()),
    {
        match self {
            Sign::Begin => match &e.node {
                TypedExprNode::Begin { .. } => true,
                _ => false,
            },
            Sign::AwaitFinal => match &e.node {
                TypedExprNode::Apply { function, argument } => {
                    assert(e.view().kids[0] == function.view());
                    match &function.node {
                        TypedExprNode::Builtin(Builtin::AwaitFinal) => true,
                        _ => false,
                    }
                },
                _ => false,
            },
            Sign::Writes(ns) => match &e.node {
                TypedExprNode::MutWrite { name, value } => has_name(ns, name),
                _ => false,
            },
            Sign::Reads(n) => match &e.node {
                TypedExprNode::Var(m) => m.same(n),
                _ => false,
            },
        }
    }
}

/// Whether some node of `e` has the form.
#[verifier::loop_isolation(false)]
pub fn occurs(s: &Sign, e: &Expr) -> (r: bool)
    ensures
        r == shows(s.view(), e.view()),
    decreases e.view(),
{
    let ghost ev = e.view();
    if s.holds_at(e) {
        return true;
    }
    let kids = e.children();
    assert(kids@.len() == ev.kids.len());
    let mut i: usize = 0;
    while i < kids.len()
        invariant
            i <= kids.len(),
            forall|j: int| 0 <= j < i ==> !shows(s.view(), #[trigger] ev.kids[j]),
        decreases kids.len() - i,
    {
        assert(kids@[i as int].view() == ev.kids[i as int]);
        if occurs(s, kids[i]) {
            return true;
        }
        i = i + 1;
    }
    false
}

pub enum Pick<'a> {
    TxnDeclared,
    WrittenBeyond(&'a Vec<Name>),
    ReadBeyond(&'a Vec<Name>),
    Awaited,
    Sampled,
    Fed,
}

/// The name that a builtin is applied to.
pub fn operand_of<'a>(b: &Builtin, e: &'a Expr) -> (r: Option<&'a Name>)
    ensures
        match r {
            Some(n) => builtin_operand(b.view(), e.view()) == Some(n@),
            None => builtin_operand(b.view(), e.view()) is None,
        },
{
    match &e.node {
        TypedExprNode::Apply { function, argument } => {
            assert(e.view().kids[0] == function.view());
            assert(e.view().kids[1] == argument.view());
            match &function.node {
                TypedExprNode::Builtin(f) => if f.same(b) {
                    match &argument.node {
                        TypedExprNode::Var(n) => Some(n),
                        _ => None,
                    }
                } else {
                    None
                },
                _ => None,
            }
        },
        _ => None,
    }
}

/// Whether a type is that of a transactional mutable variable.
pub fn is_txn_mut_var(ty: &Type) -> (r: bool)
    ensures
        r == is_txn_var_ty(ty.view()),
{
    let u = bared(ty);
    match u {
        Type::History { value, domain, history_kind } => {
            assert(u.view().kids[1] == domain.view());
            match bared(domain) {
                Type::Txn => true,
                _ => false,
            }
        },
        _ => false,
    }
}

impl<'a> Pick<'a> {
    pub open spec fn view(&self) -> PickS {
        match self {
            Pick::TxnDeclared => PickS::TxnDeclared,
            Pick::WrittenBeyond(ns) => PickS::WrittenBeyond(names_view(ns@)),
            Pick::ReadBeyond(ns) => PickS::ReadBeyond(names_view(ns@)),
            Pick::Awaited => PickS::Awaited,
            Pick::Sampled => PickS::Sampled,
            Pick::Fed => PickS::Fed,
        }
    }

    fn from_node<'b>(&self, e: &'b Expr) -> (r: Option<&'b Name>)
        ensures
            match r {
                Some(n) => self.view().at(e.view()) == Some(n@),
                None => self.view().at(e.view()) is None,
            },
    {
        match self {
            Pick::TxnDeclared => match &e.node {
                TypedExprNode::MutDecl { binding, init, body } => {
                    assert(e.view().tys[lead(e.view())] == binding.ty.view());
                    if is_txn_mut_var(&binding.ty) {
                        Some(&binding.name)
                    } else {
                        None
                    }
                },
                _ => None,
            },
            Pick::WrittenBeyond(ns) => match &e.node {
                TypedExprNode::MutWrite { name, value } => if has_name(ns, name) {
                    None
                } else {
                    Some(name)
                },
                _ => None,
            },
            Pick::ReadBeyond(ns) => match &e.node {
                TypedExprNode::Var(n) => if has_name(ns, n) {
                    None
                } else {
                    Some(n)
                },
                _ => None,
            },
            Pick::Awaited => operand_of(&Builtin::AwaitFinal, e),
            Pick::Sampled => operand_of(&Builtin::AsOfRead, e),
            Pick::Fed => match &e.node {
                TypedExprNode::Feed { name, value } => Some(name),
                TypedExprNode::Define { name, value } => Some(name),
                _ => None,
            },
        }
    }
}

/// The names that the nodes of `e` give, each node before its subterms.
pub fn gather(p: &Pick, e: &Expr) -> (r: Vec<Name>)
    ensures
        names_view(r@) == gathered(p.view(), e.view()),
{
    let mut out: Vec<Name> = Vec::new();
    gather_into(p, e, &mut out);
    assert(names_view(out@) =~= gathered(p.view(), e.view()));
    out
}

fn gather_into(p: &Pick, e: &Expr, out: &mut Vec<Name>)
    ensures
        names_view(final(out)@) == names_view(old(out)@) + gathered(p.view(), e.view()),
    decreases e.view(),
{
    let ghost ev = e.view();
    let ghost start = names_view(out@);
    match p.from_node(e) {
        Some(n) => out.push(n.clone()),
        None => {},
    }
    let ghost own = opt_seq(p.view().at(ev));
    assert(names_view(out@) =~= start + own);
    let kids = e.children();
    assert(kids@.len() == ev.kids.len());
    assert(gathered_upto(p.view(), ev, 0) =~= Seq::empty());
    assert(names_view(out@) =~= start + own + gathered_upto(p.view(), ev, 0));
    let mut i: usize = 0;
    while i < kids.len()
        invariant
            i <= kids.len(),
            ev == e.view(),
            kids@.len() == ev.kids.len(),
            expr_refs_view(kids@) == ev.kids,
            names_view(out@) == start + own + gathered_upto(p.view(), ev, i as nat),
        decreases kids.len() - i,
    {
        assert(kids@[i as int].view() == ev.kids[i as int]);
        gather_into(p, kids[i], out);
        assert(names_view(out@) =~= start + own + gathered_upto(p.view(), ev, (i + 1) as nat));
        i = i + 1;
    }
    assert(start + own + gathered_upto(p.view(), ev, ev.kids.len()) =~= start + gathered(
        p.view(),
        ev,
    ));
}

/// The transactional mutable variables that `e` declares.
pub fn collect_txn_mut_vars(expr: &Expr) -> (r: Vec<Name>)
    ensures
        names_view(r@) == gathered(PickS::TxnDeclared, expr.view()),
{
    gather(&Pick::TxnDeclared, expr)
}

} // verus!
