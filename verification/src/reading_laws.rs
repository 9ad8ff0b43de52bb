//! The grammar that terms are printed in, and the law that what is printed for a term
//! reads as it.
//!
//! Operators bind by level, from `or` to `not` and the comparisons to the arithmetic;
//! those of one level group to the left. What stands where a tighter form is due is in
//! parentheses.

use vstd::prelude::*;
use crate::ast::{
    AggregateKind, ArithmeticKind, BinOpKind, BuiltinS, CompareKind, Expr, ExprS, FieldKeyS,
    FootprintS, HeadS, LitS, LogicKind, PatternS, TypedExprNode, UnaryOpKind, binder_defs_view,
    branch_kids_view, exprs_view, field_exprs_view, field_names_view, key_inits_view,
    patterns_view, writer_kids_view,
};
use crate::layout::{cat2, cat3, cat4, cat5, cat6, cat7, cat8};
use crate::make::unresolved;
use crate::name::NameS;
use crate::symbolic::{
    Precedence, ShowS, arm_text, arm_texts, ascription, bases, chain_text, def_texts,
    field_texts, init_texts, inner, kid_texts, lead, op_prec, op_text, plain, text, ty_text,
    writer_text, writer_texts,
};
use crate::text::{escaped, int_text, joined, nat_text};

verus! {

/// How an operator is spelled.
pub open spec fn spelled(op: BinOpKind) -> Seq<char> {
    match op {
        BinOpKind::BoolLogic(LogicKind::Or) => "or"@,
        BinOpKind::BoolLogic(LogicKind::Nor) => "nor"@,
        BinOpKind::BoolLogic(LogicKind::Xor) => "xor"@,
        BinOpKind::BoolLogic(LogicKind::Xnor) => "xnor"@,
        BinOpKind::BoolLogic(LogicKind::And) => "and"@,
        BinOpKind::BoolLogic(LogicKind::Nand) => "nand"@,
        BinOpKind::Compare(CompareKind::Equals) => "=="@,
        BinOpKind::Compare(CompareKind::NotEquals) => "!="@,
        BinOpKind::Compare(CompareKind::Less) => "<"@,
        BinOpKind::Compare(CompareKind::LessEquals) => "<="@,
        BinOpKind::Compare(CompareKind::Greater) => ">"@,
        BinOpKind::Compare(CompareKind::GreaterEquals) => ">="@,
        BinOpKind::Arithmetic(ArithmeticKind::Add) => "+"@,
        BinOpKind::Arithmetic(ArithmeticKind::AddRefined) => "+"@,
        BinOpKind::Arithmetic(ArithmeticKind::Sub) => "-"@,
        BinOpKind::Concat => "++"@,
        BinOpKind::Arithmetic(ArithmeticKind::Mul) => "*"@,
        BinOpKind::Arithmetic(ArithmeticKind::FloorDiv) => "//"@,
    }
}

/// How tightly an operator binds.
pub open spec fn op_level(op: BinOpKind) -> int {
    match op {
        BinOpKind::BoolLogic(LogicKind::Or) => 1,
        BinOpKind::BoolLogic(LogicKind::Nor) => 1,
        BinOpKind::BoolLogic(LogicKind::Xor) => 1,
        BinOpKind::BoolLogic(LogicKind::Xnor) => 1,
        BinOpKind::BoolLogic(LogicKind::And) => 2,
        BinOpKind::BoolLogic(LogicKind::Nand) => 2,
        BinOpKind::Compare(_) => 4,
        BinOpKind::Arithmetic(ArithmeticKind::Add) => 6,
        BinOpKind::Arithmetic(ArithmeticKind::AddRefined) => 6,
        BinOpKind::Arithmetic(ArithmeticKind::Sub) => 6,
        BinOpKind::Concat => 6,
        BinOpKind::Arithmetic(ArithmeticKind::Mul) => 7,
        BinOpKind::Arithmetic(ArithmeticKind::FloorDiv) => 7,
    }
}

/// Whether `e` runs over all there is, which has a word of its own.
pub open spec fn runs_over_all(e: ExprS) -> bool {
    e.head is Apply && e.kids.len() == 2 && e.kids[0].head == HeadS::Builtin(BuiltinS::Iterate)
        && e.kids[1].head is Apply && e.kids[1].kids.len() == 2 && e.kids[1].kids[0].head
        == HeadS::Builtin(BuiltinS::Const) && e.kids[1].kids[1].head == HeadS::Lit(
        LitS::Bool(true),
    )
}

/// The level of a form: nothing stands looser than a binder, a statement or a block,
/// and nothing tighter than what has brackets or a word of its own.
pub open spec fn level(e: ExprS) -> int {
    if runs_over_all(e) {
        11
    } else {
        match e.head {
            HeadS::Lambda(_) => 0,
            HeadS::Aggregate(_) => 0,
            HeadS::MutDecl(_) => 0,
            HeadS::Let(_) => 0,
            HeadS::Case(_, _) => 0,
            HeadS::Transact(_, _) => 0,
            HeadS::LetRec(_) => 0,
            HeadS::For(_) => 0,
            HeadS::MutWrite(_) => 0,
            HeadS::ExprStmt => 0,
            HeadS::BinOp(op) => op_level(op),
            HeadS::DisjointJoin => 2,
            HeadS::Copair => 2,
            HeadS::UnaryOp(UnaryOpKind::Not) => 3,
            HeadS::Compose => 5,
            HeadS::Apply => 8,
            HeadS::UnaryOp(UnaryOpKind::Neg) => 9,
            _ => 11,
        }
    }
}

/// The level due where part `i` of `e` stands.
pub open spec fn due(e: ExprS, i: int) -> int {
    match e.head {
        HeadS::BinOp(op) => if i == 0 { op_level(op) } else { op_level(op) + 1 },
        HeadS::UnaryOp(UnaryOpKind::Not) => 3,
        HeadS::UnaryOp(UnaryOpKind::Neg) => 9,
        // the argument comes first
        HeadS::Apply => if i == 1 { 8 } else { 9 },
        HeadS::Compose => if i == 0 { 5 } else { 6 },
        HeadS::DisjointJoin => if i == 0 { 2 } else { 3 },
        HeadS::Copair => if i == 0 { 2 } else { 3 },
        HeadS::For(_) => if i == 0 { 8 } else { 0 },
        _ => 0,
    }
}

/// The texts one behind the other, with `sep` between them.
pub open spec fn in_a_row(ts: Seq<Seq<char>>, sep: Seq<char>) -> Seq<char>
    decreases ts.len(),
{
    if ts.len() == 0 {
        Seq::empty()
    } else if ts.len() == 1 {
        ts[0]
    } else {
        ts[0] + (sep + in_a_row(ts.drop_first(), sep))
    }
}

/// A chain: what it starts with, and behind the sign what follows.
pub open spec fn chain_of(ts: Seq<Seq<char>>, sep: Seq<char>) -> Seq<char> {
    if ts.len() == 0 {
        sep
    } else {
        ts[0] + sep + in_a_row(ts.drop_first(), sep)
    }
}

/// What a name reads as: that of a function's domain as the function names it.
pub open spec fn read_name(c: ShowS, n: NameS) -> Seq<char> {
    match n {
        NameS::PiBound(k, _) => if k < c.env.len() && c.env[c.env.len() - 1 - k] is Some {
            (c.env[c.env.len() - 1 - k]->0).base()
        } else {
            n.base()
        },
        _ => n.base(),
    }
}

pub open spec fn read_lit(l: LitS) -> Seq<char> {
    match l {
        LitS::Int(n) => int_text(n as int),
        LitS::String(s) => "\""@ + escaped(s) + "\""@,
        LitS::Bool(b) => if b { "true"@ } else { "false"@ },
        LitS::Unit => "unit"@,
    }
}

pub open spec fn read_builtin(b: BuiltinS) -> Seq<char> {
    match b {
        BuiltinS::AsOf => "as_of"@,
        BuiltinS::AsOfRead => "as_of_read"@,
        BuiltinS::AwaitFinal => "await_final"@,
        BuiltinS::BeginTxn => "begin"@,
        BuiltinS::Box => "box"@,
        BuiltinS::Const => "const"@,
        BuiltinS::FinalRead => "final_read"@,
        BuiltinS::GetPrevTxn => "get_prev_txn"@,
        BuiltinS::Iterate => "iterate"@,
        BuiltinS::VariantProject(t) => "variant_project(`"@ + t + ")"@,
        BuiltinS::VariantWrap(t) => "variant_wrap(`"@ + t + ")"@,
        BuiltinS::Zip => "zip"@,
    }
}

pub open spec fn read_aggregate(k: AggregateKind) -> Seq<char> {
    match k {
        AggregateKind::Count => "Count"@,
        AggregateKind::Max => "Max"@,
        AggregateKind::Min => "Min"@,
        AggregateKind::Sum => "Sum"@,
    }
}

/// The type a binder is declared with, where it is known.
pub open spec fn declared(c: ShowS, e: ExprS, slot: int) -> Seq<char> {
    let at = (if e.annotated { 2int } else { 1 }) + slot;
    if 0 <= at < e.tys.len() && !unresolved(e.tys[at]) {
        " : "@ + ty_text(c, e.tys[at])
    } else {
        Seq::empty()
    }
}

/// An arm of a choice with these parts.
pub open spec fn read_arm(
    pattern: Option<PatternS>,
    guard: ExprS,
    guard_text: Seq<char>,
    body_text: Seq<char>,
) -> Seq<char> {
    match pattern {
        Some(p) => if guard.head == HeadS::Lit(LitS::Bool(true)) {
            "`"@ + p.tag + "("@ + p.name.base() + ")"@ + Seq::empty() + " → "@ + body_text
        } else {
            "`"@ + p.tag + "("@ + p.name.base() + ")"@ + (" if "@ + guard_text) + " → "@ + body_text
        },
        None => guard_text + " → "@ + body_text,
    }
}

/// The spellings of names.
pub open spec fn spellings(ns: Seq<NameS>) -> Seq<Seq<char>> {
    ns.map_values(|n: NameS| n.base())
}

/// A form with the parts that read `s`.
pub open spec fn written(c: ShowS, e: ExprS, s: Seq<Seq<char>>) -> Seq<char> {
    match e.head {
        HeadS::Lit(l) => read_lit(l),
        HeadS::Var(x) => read_name(c, x),
        HeadS::Builtin(b) => read_builtin(b),
        HeadS::BinOp(op) => s[0] + " "@ + spelled(op) + " "@ + s[1],
        HeadS::UnaryOp(UnaryOpKind::Neg) => "-"@ + s[0],
        HeadS::UnaryOp(UnaryOpKind::Not) => "not "@ + s[0],
        HeadS::Apply => if e.kids[0].head is Proj {
            s[1] + Seq::empty() + s[0]
        } else {
            s[1] + " ▷ "@ + s[0]
        },
        HeadS::Cast => if unresolved(e.tys[0]) {
            "cast("@ + ty_text(c, e.tys[if e.annotated { 2int } else { 1 }]) + ", "@ + s[0] + ")"@
        } else {
            "cast("@ + s[0] + ")"@
        },
        HeadS::Lambda(x) => "λ "@ + x.base() + declared(c, e, 0) + " → "@ + s[0],
        HeadS::Aggregate(k) => read_aggregate(k) + "("@ + s[0] + ")"@,
        HeadS::MutDecl(x) => x.base() + declared(c, e, 0) + " := "@ + s[0] + "\nin "@ + s[1],
        HeadS::Let(x) => "let "@ + x.base() + declared(c, e, 0) + " = "@ + s[0] + "\nin "@ + s[1],
        HeadS::List => "["@ + in_a_row(s, ", "@) + "]"@,
        HeadS::Tuple => "("@ + in_a_row(s, ", "@) + ")"@,
        HeadS::Record(names) => "("@ + in_a_row(
            Seq::new(s.len(), |i: int| names[i] + ": "@ + s[i]),
            ", "@,
        ) + ")"@,
        HeadS::Case(false, patterns) => "{ "@ + in_a_row(
            Seq::new(
                patterns.len(),
                |i: int| read_arm(patterns[i], e.kids[2 * i], s[2 * i], s[2 * i + 1]),
            ),
            "; "@,
        ) + " }"@,
        HeadS::Case(true, patterns) => "match "@ + s[0] + " { "@ + in_a_row(
            Seq::new(
                patterns.len(),
                |i: int| read_arm(patterns[i], e.kids[1 + 2 * i], s[1 + 2 * i], s[1 + 2 * i + 1]),
            ),
            "; "@,
        ) + " }"@,
        HeadS::VariantCtor(tag) => "`"@ + tag + "("@ + s[0] + ")"@,
        HeadS::Transact(keys, prints) => "transact ("@ + in_a_row(
            Seq::new(keys.len(), |i: int| keys[i].base() + " = "@ + s[i]),
            ", "@,
        ) + ") { "@ + in_a_row(
            Seq::new(
                prints.len(),
                |i: int|
                    "["@ + in_a_row(spellings(prints[i].read_keys), ", "@) + "]⇒["@ + in_a_row(
                        spellings(prints[i].write_keys),
                        ", "@,
                    ) + "] over "@ + s[keys.len() + 2 * i] + " do "@ + s[keys.len() + 2 * i + 1],
            ),
            "; "@,
        ) + " }"@,
        HeadS::LetRec(names) => "letrec "@ + in_a_row(
            Seq::new(names.len(), |i: int| names[i].base() + declared(c, e, i) + " = "@ + s[i]),
            "; "@,
        ) + "\nin "@ + s[names.len() as int],
        HeadS::For(x) => "for "@ + x.base() + " in "@ + s[0] + " do "@ + s[1],
        HeadS::MutWrite(x) => x.base() + " := "@ + s[0],
        HeadS::Source(name) => "source("@ + name + ")"@,
        HeadS::Compose => chain_of(s, " ≫ "@),
        HeadS::DisjointJoin => chain_of(s, " ⊔ "@),
        HeadS::Copair => chain_of(s, " ⊎ "@),
        HeadS::Proj(FieldKeyS::Index(n)) => "."@ + nat_text(n as nat),
        HeadS::Proj(FieldKeyS::Name(label)) => "."@ + label,
        HeadS::ExprStmt => s[0] + "; "@ + s[1],
        HeadS::Feed(x) => "feed("@ + x.base() + ", "@ + s[0] + ")"@,
        HeadS::Define(x) => "define("@ + x.base() + ", "@ + s[0] + ")"@,
        HeadS::Defer => "defer"@,
        HeadS::Begin => "begin { "@ + s[0] + " }"@,
        HeadS::Error => "<error>"@,
        HeadS::Realize => "realize("@ + s[0] + ")"@,
    }
}

/// The form with the type of the term, where types show.
pub open spec fn marked_with_type(c: ShowS, e: ExprS, t: Seq<char>) -> Seq<char> {
    if c.types && e.tys.len() > 0 {
        t + ":<"@ + ty_text(c, e.tys[0]) + ">"@
    } else {
        t
    }
}

/// A text read as a term: the term, what stands for it, whether that is in
/// parentheses, and the readings of its parts.
pub struct Phrase {
    pub term: ExprS,
    pub bare: Seq<char>,
    pub wrapped: bool,
    pub parts: Seq<Phrase>,
}

impl Phrase {
    /// The text read.
    pub open spec fn said(self) -> Seq<char> {
        if self.wrapped {
            "("@ + self.bare + ")"@
        } else {
            self.bare
        }
    }

    /// How tight a form it is.
    pub open spec fn tightness(self) -> int {
        if self.wrapped {
            11
        } else {
            level(self.term)
        }
    }
}

/// The texts of the parts.
pub open spec fn saids(ps: Seq<Phrase>) -> Seq<Seq<char>> {
    Seq::new(ps.len(), |i: int| ps[i].said())
}

/// Whether the grammar reads the text so: the parts are read as the parts of the term,
/// each is as tight as is due where it stands, and the text is the form with them.
/// Parentheses may stand round any part.
pub open spec fn reads_as(c: ShowS, p: Phrase) -> bool
    decreases p,
{
    if runs_over_all(p.term) {
        p.bare == "iterate"@
    } else {
        &&& p.parts.len() == p.term.kids.len()
        &&& forall|i: int|
            0 <= i < p.parts.len() ==> {
                &&& (#[trigger] p.parts[i]).term == p.term.kids[i]
                &&& p.parts[i].tightness() >= due(p.term, i)
                &&& reads_as(c, p.parts[i])
            }
        &&& p.bare == marked_with_type(c, p.term, written(c, p.term, saids(p.parts)))
    }
}

/// Whether parentheses stand only where the text would read otherwise without them.
pub open spec fn sparing(p: Phrase) -> bool
    decreases p,
{
    runs_over_all(p.term) || forall|i: int|
        0 <= i < p.parts.len() ==> {
            &&& (#[trigger] p.parts[i]).wrapped ==> level(p.parts[i].term) < due(p.term, i)
            &&& sparing(p.parts[i])
        }
}

/// Whether a term has as many parts as its form calls for.
pub open spec fn has_its_parts(e: ExprS) -> bool {
    match e.head {
        HeadS::BinOp(_) => e.kids.len() == 2,
        HeadS::UnaryOp(_) => e.kids.len() == 1,
        HeadS::Apply => e.kids.len() == 2,
        HeadS::Cast => e.kids.len() == 1 && e.tys.len() == (if e.annotated { 3int } else { 2 }),
        HeadS::Lambda(_) => e.kids.len() == 1,
        HeadS::Aggregate(_) => e.kids.len() == 1,
        HeadS::MutDecl(_) => e.kids.len() == 2,
        HeadS::Let(_) => e.kids.len() == 2,
        HeadS::Record(names) => e.kids.len() == names.len(),
        HeadS::Case(has_scrutinee, patterns) => e.kids.len() == (if has_scrutinee { 1int } else { 0 })
            + 2 * patterns.len(),
        HeadS::VariantCtor(_) => e.kids.len() == 1,
        HeadS::Transact(keys, prints) => e.kids.len() == keys.len() + 2 * prints.len(),
        HeadS::LetRec(names) => e.kids.len() == names.len() + 1,
        HeadS::For(_) => e.kids.len() == 2,
        HeadS::MutWrite(_) => e.kids.len() == 1,
        HeadS::ExprStmt => e.kids.len() == 2,
        HeadS::Feed(_) => e.kids.len() == 1,
        HeadS::Define(_) => e.kids.len() == 1,
        HeadS::Begin => e.kids.len() == 1,
        HeadS::Realize => e.kids.len() == 1,
        HeadS::Lit(_) | HeadS::Var(_) | HeadS::Builtin(_) | HeadS::Source(_) | HeadS::Proj(_)
        | HeadS::Defer | HeadS::Error => e.kids.len() == 0,
        _ => true,
    }
}

/// Whether a term and all terms in it have as many parts as their forms call for.
pub open spec fn whole(e: ExprS) -> bool
    decreases e,
{
    has_its_parts(e) && forall|i: int| 0 <= i < e.kids.len() ==> whole(#[trigger] e.kids[i])
}

// ---- the printed text is read ----

/// The precedence of a level.
spec fn of_level(l: int) -> Precedence {
    if l <= 0 {
        Precedence::Lowest
    } else if l == 1 {
        Precedence::Or
    } else if l == 2 {
        Precedence::And
    } else if l == 3 {
        Precedence::Not
    } else if l == 4 {
        Precedence::Compare
    } else if l == 5 {
        Precedence::Compose
    } else if l == 6 {
        Precedence::Add
    } else if l == 7 {
        Precedence::Mul
    } else if l == 8 {
        Precedence::Apply
    } else if l == 9 {
        Precedence::Unary
    } else if l == 10 {
        Precedence::Subscript
    } else {
        Precedence::Atom
    }
}

/// What is printed for `e` where level `min` is due, as a reading.
spec fn reading(c: ShowS, e: ExprS, min: int) -> Phrase
    decreases e,
{
    Phrase {
        term: e,
        bare: inner(c, e).1,
        wrapped: level(e) < min,
        parts: Seq::new(
            e.kids.len(),
            |i: int|
                if 0 <= i < e.kids.len() {
                    reading(c, e.kids[i], due(e, i))
                } else {
                    arbitrary()
                },
        ),
    }
}

pub proof fn lemma_in_a_row(ts: Seq<Seq<char>>, sep: Seq<char>)
    ensures
        joined(ts, sep) == in_a_row(ts, sep),
    decreases ts.len(),
{
    if ts.len() > 1 {
        lemma_in_a_row(ts.drop_last(), sep);
        lemma_in_a_row(ts.drop_first(), sep);
        let rest = ts.drop_first();
        let init = ts.drop_last();
        assert(rest.last() == ts.last());
        if ts.len() == 2 {
            assert(init[0] == ts[0]);
            assert(joined(ts, sep) =~= in_a_row(ts, sep));
        } else {
            assert(init.drop_first() =~= rest.drop_last());
            lemma_in_a_row(rest.drop_last(), sep);
            assert(in_a_row(init, sep) == init[0] + (sep + in_a_row(init.drop_first(), sep)));
            assert(joined(rest, sep) == joined(rest.drop_last(), sep) + sep + rest.last());
            assert(joined(ts, sep) =~= in_a_row(ts, sep));
        }
    }
}

/// The precedence of a form is its level.
proof fn lemma_level(c: ShowS, e: ExprS)
    requires
        whole(e),
    ensures
        inner(c, e).0.rank() == level(e),
{
    let p = plain(c, e);
    match e.head {
        HeadS::BinOp(op) => {
            match op {
                BinOpKind::BoolLogic(k) => {},
                BinOpKind::Compare(k) => {},
                BinOpKind::Arithmetic(k) => {},
                BinOpKind::Concat => {},
            }
        },
        _ => {},
    }
}

/// What a part reads is what is printed for it where it stands.
proof fn lemma_part(c: ShowS, e: ExprS, min: int)
    requires
        whole(e),
        0 <= min <= 11,
    ensures
        reading(c, e, min).said() == text(c, e, of_level(min)),
        reading(c, e, min).tightness() >= min,
        reading(c, e, min).wrapped ==> level(e) < min,
{
    reveal(cat3);
    lemma_level(c, e);
    let (p, t) = inner(c, e);
}

/// The parts of `e` as they are printed.
spec fn printed(c: ShowS, e: ExprS) -> Seq<Seq<char>> {
    Seq::new(e.kids.len(), |i: int| text(c, e.kids[i], of_level(due(e, i))))
}

#[verifier::rlimit(40)]
proof fn lemma_written_first(c: ShowS, e: ExprS)
    requires
        whole(e),
        match e.head {
            HeadS::List | HeadS::Tuple | HeadS::Record(_) | HeadS::Case(_, _)
            | HeadS::Transact(_, _) | HeadS::LetRec(_) | HeadS::Compose | HeadS::DisjointJoin
            | HeadS::Copair => false,
            _ => true,
        },
    ensures
        plain(c, e).1 == written(c, e, printed(c, e)),
{
    reveal(cat2);
    reveal(cat3);
    reveal(cat4);
    reveal(cat5);
    reveal(cat6);
    reveal(cat7);
    let s = printed(c, e);
    let low = Precedence::Lowest;
    match e.head {
        HeadS::BinOp(op) => {
            assert(of_level(op_level(op)) == op_prec(op));
            assert(of_level(op_level(op) + 1) == op_prec(op).next());
            assert(spelled(op) == op_text(op));
        },
        HeadS::Lambda(x) => {
            assert(ascription(c, e, lead(e)) == declared(c, e, 0));
        },
        HeadS::MutDecl(x) => {
            assert(ascription(c, e, lead(e)) == declared(c, e, 0));
        },
        HeadS::Let(x) => {
            assert(ascription(c, e, lead(e)) == declared(c, e, 0));
        },
        _ => {},
    }
}

proof fn lemma_written_rows(c: ShowS, e: ExprS)
    requires
        whole(e),
        e.head is List || e.head is Tuple || e.head is Record,
    ensures
        plain(c, e).1 == written(c, e, printed(c, e)),
{
    reveal(cat3);
    let s = printed(c, e);
    let low = Precedence::Lowest;
    match e.head {
        HeadS::Record(names) => {
            let rows = Seq::new(s.len(), |i: int| names[i] + ": "@ + s[i]);
            assert(field_texts(c, e, names) =~= rows);
            lemma_in_a_row(rows, ", "@);
        },
        _ => {
            assert(kid_texts(c, e, 0, e.kids.len(), low) =~= s);
            lemma_in_a_row(s, ", "@);
        },
    }
}

proof fn lemma_written_chain(c: ShowS, e: ExprS)
    requires
        whole(e),
        e.head is Compose || e.head is DisjointJoin || e.head is Copair,
    ensures
        plain(c, e).1 == written(c, e, printed(c, e)),
{
    reveal(cat3);
    let s = printed(c, e);
    let prec = if e.head is Compose { Precedence::Compose } else { Precedence::And };
    let sep = match e.head {
        HeadS::Compose => " ≫ "@,
        HeadS::DisjointJoin => " ⊔ "@,
        _ => " ⊎ "@,
    };
    let shown = chain_text(c, e, prec, sep);
    if e.kids.len() > 0 {
        let rest = kid_texts(c, e, 1, (e.kids.len() - 1) as nat, prec.next());
        assert(rest =~= s.drop_first());
        lemma_in_a_row(rest, sep);
        assert(s[0] == text(c, e.kids[0], prec));
    }
}

proof fn lemma_written_choice(c: ShowS, e: ExprS, has_scrutinee: bool, patterns: Seq<Option<PatternS>>)
    requires
        whole(e),
        e.head == HeadS::Case(has_scrutinee, patterns),
    ensures
        plain(c, e).1 == written(c, e, printed(c, e)),
{
    reveal(cat2);
    reveal(cat3);
    reveal(cat5);
    reveal(cat8);
    let s = printed(c, e);
    let start: int = if has_scrutinee { 1 } else { 0 };
    let rows = Seq::new(
        patterns.len(),
        |i: int|
            read_arm(patterns[i], e.kids[start + 2 * i], s[start + 2 * i], s[start + 2 * i + 1]),
    );
    let shown = arm_texts(c, e, start, patterns);
    assert forall|i: int| 0 <= i < patterns.len() implies shown[i] == rows[i] by {
        let arm = arm_text(c, e, start, patterns, i);
        assert(shown[i] == arm);
        assert(s[start + 2 * i] == text(c, e.kids[start + 2 * i], Precedence::Lowest));
        assert(s[start + 2 * i + 1] == text(c, e.kids[start + 2 * i + 1], Precedence::Lowest));
    }
    assert(shown =~= rows);
    lemma_in_a_row(rows, "; "@);
    if has_scrutinee {
        assert(rows =~= Seq::new(
            patterns.len(),
            |i: int| read_arm(patterns[i], e.kids[1 + 2 * i], s[1 + 2 * i], s[1 + 2 * i + 1]),
        ));
    } else {
        assert(rows =~= Seq::new(
            patterns.len(),
            |i: int| read_arm(patterns[i], e.kids[2 * i], s[2 * i], s[2 * i + 1]),
        ));
    }
}

proof fn lemma_written_store(c: ShowS, e: ExprS, keys: Seq<NameS>, prints: Seq<FootprintS>)
    requires
        whole(e),
        e.head == HeadS::Transact(keys, prints),
    ensures
        plain(c, e).1 == written(c, e, printed(c, e)),
{
    reveal(cat3);
    reveal(cat5);
    reveal(cat8);
    let s = printed(c, e);
    let starts = Seq::new(keys.len(), |i: int| keys[i].base() + " = "@ + s[i]);
    assert(init_texts(c, e, keys) =~= starts);
    lemma_in_a_row(starts, ", "@);
    let k = keys.len() as int;
    let rows = Seq::new(
        prints.len(),
        |i: int|
            "["@ + in_a_row(spellings(prints[i].read_keys), ", "@) + "]⇒["@ + in_a_row(
                spellings(prints[i].write_keys),
                ", "@,
            ) + "] over "@ + s[keys.len() + 2 * i] + " do "@ + s[keys.len() + 2 * i + 1],
    );
    let shown = writer_texts(c, e, k, prints);
    assert forall|i: int| 0 <= i < prints.len() implies shown[i] == rows[i] by {
        let w = writer_text(c, e, k, prints, i);
        assert(shown[i] == w);
        assert(bases(prints[i].read_keys) =~= spellings(prints[i].read_keys));
        assert(bases(prints[i].write_keys) =~= spellings(prints[i].write_keys));
        lemma_in_a_row(spellings(prints[i].read_keys), ", "@);
        lemma_in_a_row(spellings(prints[i].write_keys), ", "@);
        assert(s[k + 2 * i] == text(c, e.kids[k + 2 * i], Precedence::Lowest));
        assert(s[k + 2 * i + 1] == text(c, e.kids[k + 2 * i + 1], Precedence::Lowest));
    }
    assert(shown =~= rows);
    lemma_in_a_row(rows, "; "@);
}

proof fn lemma_written_group(c: ShowS, e: ExprS, names: Seq<NameS>)
    requires
        whole(e),
        e.head == HeadS::LetRec(names),
    ensures
        plain(c, e).1 == written(c, e, printed(c, e)),
{
    reveal(cat2);
    reveal(cat4);
    let s = printed(c, e);
    let rows = Seq::new(
        names.len(),
        |i: int| names[i].base() + declared(c, e, i) + " = "@ + s[i],
    );
    let shown = def_texts(c, e, names);
    assert forall|i: int| 0 <= i < names.len() implies shown[i] == rows[i] by {
        assert(ascription(c, e, lead(e) + i) == declared(c, e, i));
    }
    assert(shown =~= rows);
    lemma_in_a_row(rows, "; "@);
}

/// The form of `e` is printed as the grammar writes it.
proof fn lemma_written(c: ShowS, e: ExprS)
    requires
        whole(e),
        !runs_over_all(e),
    ensures
        inner(c, e).1 == marked_with_type(c, e, written(c, e, printed(c, e))),
{
    reveal(cat4);
    match e.head {
        HeadS::List => lemma_written_rows(c, e),
        HeadS::Tuple => lemma_written_rows(c, e),
        HeadS::Record(_) => lemma_written_rows(c, e),
        HeadS::Compose => lemma_written_chain(c, e),
        HeadS::DisjointJoin => lemma_written_chain(c, e),
        HeadS::Copair => lemma_written_chain(c, e),
        HeadS::Case(h, ps) => lemma_written_choice(c, e, h, ps),
        HeadS::Transact(ks, ps) => lemma_written_store(c, e, ks, ps),
        HeadS::LetRec(ns) => lemma_written_group(c, e, ns),
        _ => lemma_written_first(c, e),
    }
    let p = plain(c, e);
}

proof fn lemma_reading(c: ShowS, e: ExprS, min: int)
    requires
        whole(e),
        0 <= min <= 11,
    ensures
        reads_as(c, reading(c, e, min)),
        sparing(reading(c, e, min)),
    decreases e,
{
    let p = reading(c, e, min);
    if !runs_over_all(e) {
        assert forall|i: int| 0 <= i < p.parts.len() implies {
            &&& (#[trigger] p.parts[i]).term == e.kids[i]
            &&& p.parts[i].tightness() >= due(e, i)
            &&& reads_as(c, p.parts[i])
            &&& p.parts[i].wrapped ==> level(p.parts[i].term) < due(e, i)
            &&& sparing(p.parts[i])
            &&& p.parts[i].said() == text(c, e.kids[i], of_level(due(e, i)))
        } by {
            assert(whole(e.kids[i]));
            assert(0 <= due(e, i) <= 11);
            lemma_reading(c, e.kids[i], due(e, i));
            lemma_part(c, e.kids[i], due(e, i));
            let q = reading(c, e.kids[i], due(e, i));
            assert(p.parts[i] == q);
        }
        assert(saids(p.parts) =~= printed(c, e));
        lemma_written(c, e);
    }
}

/// What is printed for a term reads as that term, with `and` tighter than `or`, the
/// comparisons tighter than `not`, and operators of one level grouped to the left; and
/// no parentheses stand where the text would read the same without them.
pub proof fn law_what_is_printed_reads_as_the_term(c: ShowS, e: ExprS, min: Precedence) -> (p:
    Phrase)
    requires
        whole(e),
    ensures
        reads_as(c, p),
        sparing(p),
        p.term == e,
        p.said() == text(c, e, min),
        p.tightness() >= min.rank(),
        p.wrapped ==> level(e) < min.rank(),
{
    let l = min.rank();
    lemma_reading(c, e, l);
    lemma_part(c, e, l);
    assert(of_level(l) == min);
    reading(c, e, l)
}

/// An operand of an operator is printed in parentheses exactly where its own form is
/// looser than the operator, or, on the right, no tighter. So an `or` directly under an
/// `and` is in parentheses on either side, and an `and` under an `or` is not on the left.
pub proof fn law_operands_are_grouped(c: ShowS, e: ExprS, op: BinOpKind)
    requires
        whole(e),
        e.head == HeadS::BinOp(op),
        !c.types,
    ensures
        ({
            let alone = |i: int| text(c, e.kids[i], Precedence::Lowest);
            let left = if level(e.kids[0]) < op_level(op) {
                "("@ + alone(0) + ")"@
            } else {
                alone(0)
            };
            let right = if level(e.kids[1]) <= op_level(op) {
                "("@ + alone(1) + ")"@
            } else {
                alone(1)
            };
            text(c, e, Precedence::Lowest) == left + " "@ + spelled(op) + " "@ + right
        }),
{
    reveal(cat3);
    lemma_written(c, e);
    lemma_level(c, e);
    assert(whole(e.kids[0]) && whole(e.kids[1]));
    lemma_level(c, e.kids[0]);
    lemma_level(c, e.kids[1]);
    let l = op_level(op);
    assert(printed(c, e)[0] == text(c, e.kids[0], of_level(l)));
    assert(printed(c, e)[1] == text(c, e.kids[1], of_level(l + 1)));
    assert(of_level(l).rank() == l);
    assert(of_level(l + 1).rank() == l + 1);
}

proof fn lemma_all_whole(v: Seq<Expr>)
    ensures
        forall|i: int| 0 <= i < exprs_view(v).len() ==> whole(#[trigger] exprs_view(v)[i]),
    decreases v,
{
    assert forall|i: int| 0 <= i < exprs_view(v).len() implies whole(#[trigger] exprs_view(v)[i]) by {
        law_every_term_is_whole(v[i]);
    }
}

proof fn lemma_one_whole(e: ExprS, a: ExprS)
    requires
        has_its_parts(e),
        e.kids == seq![a],
        whole(a),
    ensures
        whole(e),
{
    assert forall|i: int| 0 <= i < e.kids.len() implies whole(#[trigger] e.kids[i]) by {
        assert(e.kids[i] == a);
    }
}

proof fn lemma_two_whole(e: ExprS, a: ExprS, b: ExprS)
    requires
        has_its_parts(e),
        e.kids == seq![a, b],
        whole(a),
        whole(b),
    ensures
        whole(e),
{
    assert forall|i: int| 0 <= i < e.kids.len() implies whole(#[trigger] e.kids[i]) by {
        assert(e.kids[i] == a || e.kids[i] == b);
    }
}

proof fn lemma_has_its_parts(e: Expr)
    ensures
        has_its_parts(e.view()),
{
    match e.node {
        TypedExprNode::Record(fs) => {
            assert(e.view().kids == field_exprs_view(fs@));
            assert(e.view().head == HeadS::Record(field_names_view(fs@)));
            assert(field_exprs_view(fs@).len() == fs@.len());
            assert(field_names_view(fs@).len() == fs@.len());
            assert(has_its_parts(e.view()));
        },
        TypedExprNode::Transact { keys, writers, domain } => {
            assert(e.view().kids == key_inits_view(keys@) + writer_kids_view(writers@));
            assert(has_its_parts(e.view()));
        },
        TypedExprNode::LetRec { bindings, body } => {
            assert(e.view().kids == binder_defs_view(bindings@).push(body.view()));
            assert(has_its_parts(e.view()));
        },
        TypedExprNode::Case { scrutinee, branches } => {
            let arms = branch_kids_view(branches@);
            assert(arms.len() == 2 * branches@.len());
            assert(patterns_view(branches@).len() == branches@.len());
            match scrutinee {
                Some(x) => {
                    assert(e.view().kids == seq![x.view()] + arms);
                },
                None => {
                    assert(e.view().kids == arms);
                },
            }
            assert(has_its_parts(e.view()));
        },
        _ => {
            assert(has_its_parts(e.view()));
        },
    }
}

/// Every term has the parts that its form calls for.
#[verifier::spinoff_prover]
#[verifier::rlimit(60)]
pub proof fn law_every_term_is_whole(e: Expr)
    ensures
        whole(e.view()),
    decreases e,
{
    let ev = e.view();
    lemma_has_its_parts(e);
    match e.node {
        TypedExprNode::BinOp { left, op, right } => {
            law_every_term_is_whole(*left);
            law_every_term_is_whole(*right);
            lemma_two_whole(ev, left.view(), right.view());
        },
        TypedExprNode::UnaryOp(op, x) => {
            law_every_term_is_whole(*x);
            lemma_one_whole(ev, x.view());
        },
        TypedExprNode::Apply { function, argument } => {
            law_every_term_is_whole(*function);
            law_every_term_is_whole(*argument);
            lemma_two_whole(ev, function.view(), argument.view());
        },
        TypedExprNode::Cast { value, target } => {
            law_every_term_is_whole(*value);
            lemma_one_whole(ev, value.view());
        },
        TypedExprNode::Lambda { param, body } => {
            law_every_term_is_whole(*body);
            lemma_one_whole(ev, body.view());
        },
        TypedExprNode::Aggregate { input, kind } => {
            law_every_term_is_whole(*input);
            lemma_one_whole(ev, input.view());
        },
        TypedExprNode::MutDecl { binding, init, body } => {
            law_every_term_is_whole(*init);
            law_every_term_is_whole(*body);
            lemma_two_whole(ev, init.view(), body.view());
        },
        TypedExprNode::Let { binding, bound_expr, body } => {
            law_every_term_is_whole(*bound_expr);
            law_every_term_is_whole(*body);
            lemma_two_whole(ev, bound_expr.view(), body.view());
        },
        TypedExprNode::List(v) => {
            lemma_all_whole(v@);
            assert(ev.kids == exprs_view(v@));
            assert(whole(ev));
        },
        TypedExprNode::Tuple(v) => {
            lemma_all_whole(v@);
            assert(ev.kids == exprs_view(v@));
            assert(whole(ev));
        },
        TypedExprNode::Record(fs) => {
            assert forall|i: int| 0 <= i < ev.kids.len() implies whole(#[trigger] ev.kids[i]) by {
                assert(ev.kids == field_exprs_view(fs@));
                law_every_term_is_whole(fs@[i].1);
            }
            assert(whole(ev));
        },
        TypedExprNode::Case { scrutinee, branches } => {
            let k: int = if scrutinee is Some { 1 } else { 0 };
            match scrutinee {
                Some(x) => law_every_term_is_whole(*x),
                None => {},
            }
            assert forall|i: int| 0 <= i < ev.kids.len() implies whole(#[trigger] ev.kids[i]) by {
                if i >= k {
                    assert(ev.kids.len() == k + branch_kids_view(branches@).len());
                    assert(0 <= (i - k) / 2 < branches@.len());
                    let b = branches@[(i - k) / 2];
                    law_every_term_is_whole(b.guard);
                    law_every_term_is_whole(b.body);
                    assert(ev.kids[i] == branch_kids_view(branches@)[i - k]);
                }
            }
            assert(whole(ev));
        },
        TypedExprNode::VariantCtor { tag, payload } => {
            law_every_term_is_whole(*payload);
            lemma_one_whole(ev, payload.view());
        },
        TypedExprNode::Transact { keys, writers, domain } => {
            let k = keys@.len();
            let starts = key_inits_view(keys@);
            let blocks = writer_kids_view(writers@);
            assert(starts.len() == k);
            assert(blocks.len() == 2 * writers@.len());
            assert(ev.kids == starts + blocks);
            assert forall|i: int| 0 <= i < ev.kids.len() implies whole(#[trigger] ev.kids[i]) by {
                if i < k {
                    assert(ev.kids[i] == key_inits_view(keys@)[i]);
                    law_every_term_is_whole(keys@[i].init);
                } else {
                    assert(0 <= (i - k) / 2 < writers@.len());
                    let w = writers@[(i - k) / 2];
                    law_every_term_is_whole(w.source);
                    law_every_term_is_whole(w.body);
                    assert(ev.kids[i] == writer_kids_view(writers@)[i - k]);
                }
            }
            assert(whole(ev));
        },
        TypedExprNode::LetRec { bindings, body } => {
            law_every_term_is_whole(*body);
            let defs = binder_defs_view(bindings@);
            assert(defs.len() == bindings@.len());
            assert(ev.kids == defs.push(body.view()));
            assert forall|i: int| 0 <= i < ev.kids.len() implies whole(#[trigger] ev.kids[i]) by {
                if i < bindings@.len() {
                    assert(ev.kids[i] == binder_defs_view(bindings@)[i]);
                    law_every_term_is_whole(bindings@[i].1);
                }
            }
            assert(whole(ev));
        },
        TypedExprNode::For { target, iter, body } => {
            law_every_term_is_whole(*iter);
            law_every_term_is_whole(*body);
            lemma_two_whole(ev, iter.view(), body.view());
        },
        TypedExprNode::MutWrite { name, value } => {
            law_every_term_is_whole(*value);
            lemma_one_whole(ev, value.view());
        },
        TypedExprNode::Compose(v) => {
            lemma_all_whole(v@);
            assert(ev.kids == exprs_view(v@));
            assert(whole(ev));
        },
        TypedExprNode::DisjointJoin(v) => {
            lemma_all_whole(v@);
            assert(ev.kids == exprs_view(v@));
            assert(whole(ev));
        },
        TypedExprNode::Copair(v) => {
            lemma_all_whole(v@);
            assert(ev.kids == exprs_view(v@));
            assert(whole(ev));
        },
        TypedExprNode::ExprStmt { expr, body } => {
            law_every_term_is_whole(*expr);
            law_every_term_is_whole(*body);
            lemma_two_whole(ev, expr.view(), body.view());
        },
        TypedExprNode::Feed { name, value } => {
            law_every_term_is_whole(*value);
            lemma_one_whole(ev, value.view());
        },
        TypedExprNode::Define { name, value } => {
            law_every_term_is_whole(*value);
            lemma_one_whole(ev, value.view());
        },
        TypedExprNode::Begin { body } => {
            law_every_term_is_whole(*body);
            lemma_one_whole(ev, body.view());
        },
        TypedExprNode::Realize(x) => {
            law_every_term_is_whole(*x);
            lemma_one_whole(ev, x.view());
        },
        _ => {
            assert(whole(ev));
        },
    }
}

} // verus!
