//! What a predicate is hashed by: its form, the leaves that tell forms apart,
//! and the places of its own binders in lieu of their names.

use vstd::prelude::*;
use crate::ast::{
    AggregateKind, BinOpKind, Builtin, BuiltinS, Expr, ExprS, FieldKeyS, HeadS, Lit, LitS,
    ProjKey, TypedExprNode, UnaryOpKind,
};
use crate::name::{Name, NameS, names_view};
use crate::pi::shadowed_under;
use crate::refine_eq::{forms_match, lemma_scopes_match, pairs_under, pred_eq, refs_match};
use crate::scope::scope_of;
use crate::text::same_text;
use crate::tree::expr_refs_view;

verus! {

/// One thing a hash is fed.
pub enum HashTokenS {
    Form(u8),
    Level(nat),
    Name(NameS),
    Lit(LitS),
    Builtin(BuiltinS),
    BinOp(BinOpKind),
    UnaryOp(UnaryOpKind),
    Aggregate(AggregateKind),
    Text(Seq<char>),
    Index(usize),
}

/// One thing a hash is fed.
#[derive(Debug)]
pub enum HashToken {
    Form(u8),
    Level(usize),
    Name(Name),
    Lit(Lit),
    Builtin(Builtin),
    BinOp(BinOpKind),
    UnaryOp(UnaryOpKind),
    Aggregate(AggregateKind),
    Text(String),
    Index(usize),
}

impl HashToken {
    pub open spec fn view(&self) -> HashTokenS {
        match self {
            HashToken::Form(n) => HashTokenS::Form(*n),
            HashToken::Level(n) => HashTokenS::Level(*n as nat),
            HashToken::Name(n) => HashTokenS::Name(n@.ident()),
            HashToken::Lit(l) => HashTokenS::Lit(l.view()),
            HashToken::Builtin(b) => HashTokenS::Builtin(b.view()),
            HashToken::BinOp(k) => HashTokenS::BinOp(*k),
            HashToken::UnaryOp(k) => HashTokenS::UnaryOp(*k),
            HashToken::Aggregate(k) => HashTokenS::Aggregate(*k),
            HashToken::Text(s) => HashTokenS::Text(s@),
            HashToken::Index(n) => HashTokenS::Index(*n),
        }
    }

    /// Whether two tokens are one.
    pub fn same(&self, other: &HashToken) -> (r: bool)
        ensures
            r == (self.view() == other.view()),
    {
        match (self, other) {
            (HashToken::Form(a), HashToken::Form(b)) => *a == *b,
            (HashToken::Level(a), HashToken::Level(b)) => *a == *b,
            (HashToken::Name(a), HashToken::Name(b)) => a.same_ident(b),
            (HashToken::Lit(a), HashToken::Lit(b)) => a.same(b),
            (HashToken::Builtin(a), HashToken::Builtin(b)) => a.same(b),
            (HashToken::BinOp(a), HashToken::BinOp(b)) => *a == *b,
            (HashToken::UnaryOp(a), HashToken::UnaryOp(b)) => *a == *b,
            (HashToken::Aggregate(a), HashToken::Aggregate(b)) => *a == *b,
            (HashToken::Text(a), HashToken::Text(b)) => same_text(a.as_str(), b.as_str()),
            (HashToken::Index(a), HashToken::Index(b)) => *a == *b,
            _ => false,
        }
    }
}

pub open spec fn tokens_view(v: Seq<HashToken>) -> Seq<HashTokenS> {
    Seq::new(v.len(), |i: int| v[i].view())
}

/// The number of a form.
pub open spec fn form_number(h: HeadS) -> u8 {
    match h {
        HeadS::Lit(_) => 0,
        HeadS::Var(_) => 1,
        HeadS::Builtin(_) => 2,
        HeadS::BinOp(_) => 3,
        HeadS::UnaryOp(_) => 4,
        HeadS::Apply => 5,
        HeadS::Cast => 6,
        HeadS::Lambda(_) => 7,
        HeadS::Aggregate(_) => 8,
        HeadS::MutDecl(_) => 9,
        HeadS::Let(_) => 10,
        HeadS::List => 11,
        HeadS::Tuple => 12,
        HeadS::Record(_) => 13,
        HeadS::Case(_, _) => 14,
        HeadS::VariantCtor(_) => 15,
        HeadS::Transact(_, _) => 16,
        HeadS::LetRec(_) => 17,
        HeadS::For(_) => 18,
        HeadS::MutWrite(_) => 19,
        HeadS::Source(_) => 20,
        HeadS::Compose => 21,
        HeadS::DisjointJoin => 22,
        HeadS::Copair => 23,
        HeadS::Proj(_) => 24,
        HeadS::ExprStmt => 25,
        HeadS::Feed(_) => 26,
        HeadS::Define(_) => 27,
        HeadS::Defer => 28,
        HeadS::Begin => 29,
        HeadS::Error => 30,
        HeadS::Realize => 31,
    }
}

/// Where `n` last stands in `scope`.
pub open spec fn level_in(scope: Seq<NameS>, n: NameS) -> Option<nat>
    decreases scope.len(),
{
    if scope.len() == 0 {
        None
    } else if scope.last().ident() == n.ident() {
        Some((scope.len() - 1) as nat)
    } else {
        level_in(scope.drop_last(), n)
    }
}

/// What a hash is fed of a form besides its number.
pub open spec fn leaf_tokens(h: HeadS, scope: Seq<NameS>) -> Seq<HashTokenS> {
    match h {
        HeadS::Lit(LitS::Unit) => Seq::empty(),
        HeadS::Lit(l) => seq![HashTokenS::Lit(l)],
        HeadS::Var(n) => match level_in(scope, n) {
            Some(k) => seq![HashTokenS::Level(k)],
            None => seq![HashTokenS::Name(n.ident())],
        },
        HeadS::Builtin(b) => seq![HashTokenS::Builtin(b)],
        HeadS::BinOp(k) => seq![HashTokenS::BinOp(k)],
        HeadS::UnaryOp(k) => seq![HashTokenS::UnaryOp(k)],
        HeadS::Aggregate(k) => seq![HashTokenS::Aggregate(k)],
        HeadS::VariantCtor(t) => seq![HashTokenS::Text(t)],
        HeadS::Proj(FieldKeyS::Index(i)) => seq![HashTokenS::Index(i)],
        HeadS::Proj(FieldKeyS::Name(f)) => seq![HashTokenS::Text(f)],
        _ => Seq::empty(),
    }
}

/// What a hash is fed of a predicate under `scope`.
pub open spec fn hash_tokens(e: ExprS, scope: Seq<NameS>) -> Seq<HashTokenS>
    decreases e, e.kids.len() + 1,
{
    seq![HashTokenS::Form(form_number(e.head))] + leaf_tokens(e.head, scope) + hash_tokens_upto(
        e,
        scope,
        e.kids.len(),
    )
}

/// What a hash is fed of the first `n` subterms.
pub open spec fn hash_tokens_upto(e: ExprS, scope: Seq<NameS>, n: nat) -> Seq<HashTokenS>
    decreases e, n,
{
    if n == 0 || n > e.kids.len() {
        Seq::empty()
    } else {
        hash_tokens_upto(e, scope, (n - 1) as nat) + hash_tokens(
            e.kids[n - 1],
            scope + scope_of(e.head, n - 1),
        )
    }
}

/// The left names of a pairing.
pub open spec fn lefts(pairs: Seq<(NameS, NameS)>) -> Seq<NameS> {
    Seq::new(pairs.len(), |i: int| pairs[i].0)
}

/// The right names of a pairing.
pub open spec fn rights(pairs: Seq<(NameS, NameS)>) -> Seq<NameS> {
    Seq::new(pairs.len(), |i: int| pairs[i].1)
}

proof fn lemma_matched_levels(pairs: Seq<(NameS, NameS)>, x: NameS, y: NameS)
    requires
        refs_match(pairs, x, y),
    ensures
        level_in(lefts(pairs), x) == level_in(rights(pairs), y),
        level_in(lefts(pairs), x) is None ==> x.ident() == y.ident(),
    decreases pairs.len(),
{
    if pairs.len() > 0 {
        let init = pairs.drop_last();
        assert(lefts(pairs).drop_last() =~= lefts(init));
        assert(rights(pairs).drop_last() =~= rights(init));
        let (l, r) = pairs.last();
        if !(l.ident() == x.ident() || r.ident() == y.ident()) {
            lemma_matched_levels(init, x, y);
        }
    }
}

proof fn lemma_paired_scopes(a: HeadS, b: HeadS, i: int, pairs: Seq<(NameS, NameS)>)
    requires
        forms_match(a, b, pairs),
    ensures
        lefts(pairs) + scope_of(a, i) == lefts(pairs_under(a, b, i, pairs)),
        rights(pairs) + scope_of(b, i) == rights(pairs_under(a, b, i, pairs)),
{
    let under = pairs_under(a, b, i, pairs);
    lemma_scopes_match(a, b, i, pairs);
    assert(lefts(pairs) + scope_of(a, i) =~= lefts(under));
    assert(rights(pairs) + scope_of(b, i) =~= rights(under));
}

/// Predicates that are one restriction under a pairing of binders feed a hash
/// the same.
pub proof fn law_equal_predicates_hash_alike(a: ExprS, b: ExprS, pairs: Seq<(NameS, NameS)>)
    requires
        pred_eq(a, b, pairs),
    ensures
        hash_tokens(a, lefts(pairs)) == hash_tokens(b, rights(pairs)),
    decreases a, a.kids.len() + 1,
{
    match (a.head, b.head) {
        (HeadS::Var(x), HeadS::Var(y)) => lemma_matched_levels(pairs, x, y),
        _ => {},
    }
    assert(form_number(a.head) == form_number(b.head));
    assert(leaf_tokens(a.head, lefts(pairs)) == leaf_tokens(b.head, rights(pairs)));
    lemma_hash_upto(a, b, pairs, a.kids.len());
}

proof fn lemma_hash_upto(a: ExprS, b: ExprS, pairs: Seq<(NameS, NameS)>, n: nat)
    requires
        pred_eq(a, b, pairs),
        n <= a.kids.len(),
    ensures
        hash_tokens_upto(a, lefts(pairs), n) == hash_tokens_upto(b, rights(pairs), n),
    decreases a, n,
{
    if n > 0 {
        lemma_hash_upto(a, b, pairs, (n - 1) as nat);
        lemma_paired_scopes(a.head, b.head, n - 1, pairs);
        let under = pairs_under(a.head, b.head, n - 1, pairs);
        assert(pred_eq(a.kids[n - 1], b.kids[n - 1], under));
        law_equal_predicates_hash_alike(a.kids[n - 1], b.kids[n - 1], under);
    }
}

/// The number of a form.
fn number_of(node: &TypedExprNode) -> (r: u8)
    ensures
        r == form_number(node.head()),
{
    match node {
        TypedExprNode::Lit(_) => 0,
        TypedExprNode::Var(_) => 1,
        TypedExprNode::Builtin(_) => 2,
        TypedExprNode::BinOp { .. } => 3,
        TypedExprNode::UnaryOp(_, _) => 4,
        TypedExprNode::Apply { .. } => 5,
        TypedExprNode::Cast { .. } => 6,
        TypedExprNode::Lambda { .. } => 7,
        TypedExprNode::Aggregate { .. } => 8,
        TypedExprNode::MutDecl { .. } => 9,
        TypedExprNode::Let { .. } => 10,
        TypedExprNode::List(_) => 11,
        TypedExprNode::Tuple(_) => 12,
        TypedExprNode::Record(_) => 13,
        TypedExprNode::Case { .. } => 14,
        TypedExprNode::VariantCtor { .. } => 15,
        TypedExprNode::Transact { .. } => 16,
        TypedExprNode::LetRec { .. } => 17,
        TypedExprNode::For { .. } => 18,
        TypedExprNode::MutWrite { .. } => 19,
        TypedExprNode::Source(_) => 20,
        TypedExprNode::Compose(_) => 21,
        TypedExprNode::DisjointJoin(_) => 22,
        TypedExprNode::Copair(_) => 23,
        TypedExprNode::Proj(_) => 24,
        TypedExprNode::ExprStmt { .. } => 25,
        TypedExprNode::Feed { .. } => 26,
        TypedExprNode::Define { .. } => 27,
        TypedExprNode::Defer => 28,
        TypedExprNode::Begin { .. } => 29,
        TypedExprNode::Error => 30,
        TypedExprNode::Realize(_) => 31,
    }
}

/// Where `n` last stands in `scope`.
fn find_level(scope: &Vec<Name>, n: &Name) -> (r: Option<usize>)
    ensures
        match r {
            Some(k) => level_in(names_view(scope@), n@) == Some(k as nat),
            None => level_in(names_view(scope@), n@) is None,
        },
{
    let ghost all = names_view(scope@);
    let mut k: usize = scope.len();
    assert(all.take(k as int) =~= all);
    while k > 0
        invariant
            k <= scope.len(),
            all == names_view(scope@),
            level_in(all, n@) == level_in(all.take(k as int), n@),
        decreases k,
    {
        k = k - 1;
        assert(all.take(k + 1).drop_last() =~= all.take(k as int));
        assert(all.take(k + 1).last() == scope@[k as int]@);
        if scope[k].same_ident(n) {
            return Some(k);
        }
    }
    None
}

/// What a hash is fed of a form besides its number.
fn leaf_of(node: &TypedExprNode, scope: &Vec<Name>) -> (r: Option<HashToken>)
    ensures
        leaf_tokens(node.head(), names_view(scope@)) == (match r {
            Some(t) => seq![t.view()],
            None => Seq::empty(),
        }),
{
    match node {
        TypedExprNode::Lit(Lit::Unit) => None,
        TypedExprNode::Lit(l) => Some(HashToken::Lit(l.clone())),
        TypedExprNode::Var(n) => match find_level(scope, n) {
            Some(k) => Some(HashToken::Level(k)),
            None => Some(HashToken::Name(n.clone())),
        },
        TypedExprNode::Builtin(b) => Some(HashToken::Builtin(b.clone())),
        TypedExprNode::BinOp { left, op, right } => Some(HashToken::BinOp(*op)),
        TypedExprNode::UnaryOp(kind, _) => Some(HashToken::UnaryOp(*kind)),
        TypedExprNode::Aggregate { input, kind } => Some(HashToken::Aggregate(*kind)),
        TypedExprNode::VariantCtor { tag, payload } => Some(HashToken::Text(tag.clone())),
        TypedExprNode::Proj(ProjKey::Index(i)) => Some(HashToken::Index(*i)),
        TypedExprNode::Proj(ProjKey::Field(f)) => Some(HashToken::Text(f.clone())),
        _ => None,
    }
}

/// What a hash is fed of a predicate, under the binders `scope`: its forms and
/// their leaves, no types, and a reference to a binder of the predicate by the
/// binder's place.
pub fn hash_refinement_predicate(e: &Expr, scope: &Vec<Name>) -> (r: Vec<HashToken>)
    ensures
        tokens_view(r@) == hash_tokens(e.view(), names_view(scope@)),
    decreases e.view(),
{
    let ghost ev = e.view();
    let ghost sv = names_view(scope@);
    let mut out: Vec<HashToken> = Vec::new();
    out.push(HashToken::Form(number_of(&e.node)));
    assert(tokens_view(out@) =~= seq![HashTokenS::Form(form_number(ev.head))]);
    let leaf = leaf_of(&e.node, scope);
    match leaf {
        Some(t) => {
            let ghost before = out@;
            out.push(t);
            assert(tokens_view(out@) =~= tokens_view(before) + seq![t.view()]);
        },
        None => {
            assert(tokens_view(out@) =~= tokens_view(out@) + Seq::<HashTokenS>::empty());
        },
    }
    let ghost front = seq![HashTokenS::Form(form_number(ev.head))] + leaf_tokens(ev.head, sv);
    assert(tokens_view(out@) == front);
    let kids = e.children();
    assert(kids@.len() == ev.kids.len());
    assert(front + hash_tokens_upto(ev, sv, 0) =~= front);
    let mut i: usize = 0;
    while i < kids.len()
        invariant
            i <= kids.len(),
            ev == e.view(),
            sv == names_view(scope@),
            kids@.len() == ev.kids.len(),
            expr_refs_view(kids@) == ev.kids,
            tokens_view(out@) == front + hash_tokens_upto(ev, sv, i as nat),
        decreases kids.len() - i,
    {
        assert(kids@[i as int].view() == ev.kids[i as int]);
        assert(decreases_to!(ev => ev.kids[i as int]));
        let inner = shadowed_under(scope, e, i);
        let ghost before = out@;
        let mut more = hash_refinement_predicate(kids[i], &inner);
        let ghost added = more@;
        out.append(&mut more);
        proof {
            assert(tokens_view(out@) =~= tokens_view(before) + tokens_view(added));
            assert(tokens_view(out@) =~= front + hash_tokens_upto(ev, sv, (i + 1) as nat));
        }
        i = i + 1;
    }
    out
}

} // verus!
