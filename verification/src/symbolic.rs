//! How terms and types read.
use vstd::prelude::*;
use crate::ast::{
    AggregateKind, ArithmeticKind, BaseType, BinOpKind, BuiltinS, CompareKind, ExprS, FieldKeyS,
    FootprintS, HeadS, HistoryKind, KindShapeS, LitS, LogicKind, Openness, PatternS, Refinement,
    TypeHeadS, TypeS, UnaryOpKind, WitnessS,
};
use crate::kind::BoundsS;
use crate::kind_vars::{arrow_text, binders_of};
use crate::layout::{cat2, cat3, cat4, cat5, cat6, cat7, cat8, cat9};
use crate::make::unresolved;
use crate::name::NameS;
use crate::text::{escaped, int_text, joined, nat_text, sorted};

verus! {

/// How tightly a form binds.
#[derive(Clone, Copy, PartialEq, Eq, Debug, Structural)]
pub enum Precedence {
    Lowest,
    Or,
    And,
    Not,
    Compare,
    Compose,
    Add,
    Mul,
    Apply,
    Unary,
    Subscript,
    Atom,
}

impl Precedence {
    pub open spec fn rank(self) -> int {
        match self {
            Precedence::Lowest => 0,
            Precedence::Or => 1,
            Precedence::And => 2,
            Precedence::Not => 3,
            Precedence::Compare => 4,
            Precedence::Compose => 5,
            Precedence::Add => 6,
            Precedence::Mul => 7,
            Precedence::Apply => 8,
            Precedence::Unary => 9,
            Precedence::Subscript => 10,
            Precedence::Atom => 11,
        }
    }

    /// The next tighter precedence.
    pub open spec fn next(self) -> Precedence {
        match self {
            Precedence::Lowest => Precedence::Or,
            Precedence::Or => Precedence::And,
            Precedence::And => Precedence::Not,
            Precedence::Not => Precedence::Compare,
            Precedence::Compare => Precedence::Compose,
            Precedence::Compose => Precedence::Add,
            Precedence::Add => Precedence::Mul,
            Precedence::Mul => Precedence::Apply,
            Precedence::Apply => Precedence::Unary,
            Precedence::Unary => Precedence::Subscript,
            Precedence::Subscript => Precedence::Atom,
            Precedence::Atom => Precedence::Atom,
        }
    }

    /// The next tighter precedence.
    pub fn next_highest(self) -> (r: Precedence)
        ensures
            r == self.next(),
    {
        match self {
            Precedence::Lowest => Precedence::Or,
            Precedence::Or => Precedence::And,
            Precedence::And => Precedence::Not,
            Precedence::Not => Precedence::Compare,
            Precedence::Compare => Precedence::Compose,
            Precedence::Compose => Precedence::Add,
            Precedence::Add => Precedence::Mul,
            Precedence::Mul => Precedence::Apply,
            Precedence::Apply => Precedence::Unary,
            Precedence::Unary => Precedence::Subscript,
            Precedence::Subscript => Precedence::Atom,
            Precedence::Atom => Precedence::Atom,
        }
    }

    pub(crate) fn level(self) -> (r: u8)
        ensures
            r == self.rank(),
    {
        match self {
            Precedence::Lowest => 0,
            Precedence::Or => 1,
            Precedence::And => 2,
            Precedence::Not => 3,
            Precedence::Compare => 4,
            Precedence::Compose => 5,
            Precedence::Add => 6,
            Precedence::Mul => 7,
            Precedence::Apply => 8,
            Precedence::Unary => 9,
            Precedence::Subscript => 10,
            Precedence::Atom => 11,
        }
    }
}

/// What a rendering is read in: whether each term shows its type, whether
/// witnesses show their identity, what is known of kinds, and the binders of the
/// functions it is inside of, innermost last.
pub struct ShowS {
    pub types: bool,
    pub ids: bool,
    pub kinds: Seq<BoundsS>,
    pub env: Seq<Option<NameS>>,
}

impl ShowS {
    /// Inside the function with binder `n`.
    pub open spec fn crossing(self, n: Option<NameS>) -> ShowS {
        ShowS { env: self.env.push(n), ..self }
    }

    /// Without the types of terms.
    pub open spec fn untyped(self) -> ShowS {
        ShowS { types: false, ..self }
    }

    /// Outside every function and without the types of terms.
    pub open spec fn detached(self) -> ShowS {
        ShowS { types: false, env: Seq::empty(), ..self }
    }

    /// The name of the binder `k` crossings out, if it has one.
    pub open spec fn binder(self, k: u32) -> Option<NameS> {
        if k < self.env.len() {
            self.env[self.env.len() - 1 - k]
        } else {
            None
        }
    }
}

pub open spec fn keyword_s(b: BaseType) -> Seq<char> {
    match b {
        BaseType::Int => "Int"@,
        BaseType::String => "String"@,
        BaseType::Bool => "Bool"@,
        BaseType::Unit => "Unit"@,
    }
}

pub open spec fn lit_text(l: LitS) -> Seq<char> {
    match l {
        LitS::Int(n) => int_text(n as int),
        LitS::String(s) => cat3("\""@, escaped(s), "\""@),
        LitS::Bool(b) => if b { "true"@ } else { "false"@ },
        LitS::Unit => "unit"@,
    }
}

pub open spec fn builtin_text(b: BuiltinS) -> Seq<char> {
    match b {
        BuiltinS::AsOf => "as_of"@,
        BuiltinS::AsOfRead => "as_of_read"@,
        BuiltinS::AwaitFinal => "await_final"@,
        BuiltinS::BeginTxn => "begin"@,
        BuiltinS::Box => "box"@,
        BuiltinS::Const => "const"@,
        BuiltinS::FinalRead => "final_read"@,
        BuiltinS::GetPrevTxn => "get_prev_txn"@,
        BuiltinS::Iterate => "iterate"@,
        BuiltinS::VariantProject(t) => cat3("variant_project(`"@, t, ")"@),
        BuiltinS::VariantWrap(t) => cat3("variant_wrap(`"@, t, ")"@),
        BuiltinS::Zip => "zip"@,
    }
}

pub open spec fn op_text(op: BinOpKind) -> Seq<char> {
    match op {
        BinOpKind::BoolLogic(LogicKind::And) => "and"@,
        BinOpKind::BoolLogic(LogicKind::Or) => "or"@,
        BinOpKind::BoolLogic(LogicKind::Nand) => "nand"@,
        BinOpKind::BoolLogic(LogicKind::Nor) => "nor"@,
        BinOpKind::BoolLogic(LogicKind::Xor) => "xor"@,
        BinOpKind::BoolLogic(LogicKind::Xnor) => "xnor"@,
        BinOpKind::Compare(CompareKind::Equals) => "=="@,
        BinOpKind::Compare(CompareKind::NotEquals) => "!="@,
        BinOpKind::Compare(CompareKind::Less) => "<"@,
        BinOpKind::Compare(CompareKind::LessEquals) => "<="@,
        BinOpKind::Compare(CompareKind::Greater) => ">"@,
        BinOpKind::Compare(CompareKind::GreaterEquals) => ">="@,
        BinOpKind::Arithmetic(ArithmeticKind::Add) => "+"@,
        BinOpKind::Arithmetic(ArithmeticKind::AddRefined) => "+"@,
        BinOpKind::Arithmetic(ArithmeticKind::Sub) => "-"@,
        BinOpKind::Arithmetic(ArithmeticKind::Mul) => "*"@,
        BinOpKind::Arithmetic(ArithmeticKind::FloorDiv) => "//"@,
        BinOpKind::Concat => "++"@,
    }
}

pub open spec fn op_prec(op: BinOpKind) -> Precedence {
    match op {
        BinOpKind::BoolLogic(LogicKind::And) => Precedence::And,
        BinOpKind::BoolLogic(LogicKind::Nand) => Precedence::And,
        BinOpKind::BoolLogic(_) => Precedence::Or,
        BinOpKind::Compare(_) => Precedence::Compare,
        BinOpKind::Arithmetic(ArithmeticKind::Mul) => Precedence::Mul,
        BinOpKind::Arithmetic(ArithmeticKind::FloorDiv) => Precedence::Mul,
        BinOpKind::Arithmetic(_) => Precedence::Add,
        BinOpKind::Concat => Precedence::Add,
    }
}

pub open spec fn aggregate_text(k: AggregateKind) -> Seq<char> {
    match k {
        AggregateKind::Count => "Count"@,
        AggregateKind::Max => "Max"@,
        AggregateKind::Min => "Min"@,
        AggregateKind::Sum => "Sum"@,
    }
}

pub open spec fn key_text(k: FieldKeyS) -> Seq<char> {
    match k {
        FieldKeyS::Index(n) => nat_text(n as nat),
        FieldKeyS::Name(s) => s,
    }
}

/// A reference as it reads: the name of the function's binder where it refers
/// to one that is named here.
pub open spec fn var_text(c: ShowS, n: NameS) -> Seq<char> {
    match n {
        NameS::PiBound(k, _) => match c.binder(k) {
            Some(b) => b.base(),
            None => n.base(),
        },
        _ => n.base(),
    }
}

/// The spellings of names.
pub open spec fn bases(ns: Seq<NameS>) -> Seq<Seq<char>> {
    Seq::new(ns.len(), |i: int| ns[i].base())
}

/// The application of `iterate` to the predicate that always holds.
pub open spec fn is_bare_iterate(e: ExprS) -> bool {
    &&& e.head is Apply
    &&& e.kids.len() == 2
    &&& e.kids[0].head == HeadS::Builtin(BuiltinS::Iterate)
    &&& e.kids[1].head is Apply
    &&& e.kids[1].kids.len() == 2
    &&& e.kids[1].kids[0].head == HeadS::Builtin(BuiltinS::Const)
    &&& e.kids[1].kids[1].head == HeadS::Lit(LitS::Bool(true))
}

/// Where the type slots of the form itself start.
pub open spec fn lead(e: ExprS) -> int {
    if e.annotated { 2 } else { 1 }
}

/// The literal a singleton type is pinned to: its one predicate says that the
/// element equals it.
pub open spec fn singleton_of(t: TypeS) -> Option<LitS> {
    if t.head is Refinement && t.preds.len() == 1 {
        let p = t.preds[0];
        if p.head == HeadS::BinOp(BinOpKind::Compare(CompareKind::Equals)) && p.kids.len() == 2
            && p.kids[0].head == HeadS::Var(NameS::Elem) {
            match p.kids[1].head {
                HeadS::Lit(l) => Some(l),
                _ => None,
            }
        } else {
            None
        }
    } else {
        None
    }
}

/// Whether every label is a position.
pub open spec fn positional(keys: Seq<FieldKeyS>) -> bool {
    forall|i: int| 0 <= i < keys.len() ==> (#[trigger] keys[i]) is Index
}

/// Whether a type is an anonymous sum: one whose labels are positions.
pub open spec fn is_anonymous_sum(t: TypeS) -> bool {
    t.head matches TypeHeadS::Variant(keys, _) && positional(keys)
}

/// A text in braces, unless it already is.
pub open spec fn braced(p: Seq<char>) -> Seq<char> {
    if p.len() > 0 && p[0] == '{' && p.last() == '}' {
        p
    } else {
        cat3("{"@, p, "}"@)
    }
}

/// How many types a range of this form names.
pub open spec fn shape_width(s: KindShapeS) -> nat {
    match s {
        KindShapeS::Enumerated(n) => n,
        KindShapeS::SubtypesOf => 1,
        _ => 0,
    }
}

/// Where the types of range `n` start among a function's components.
pub open spec fn range_start(ws: Seq<WitnessS>, n: nat) -> nat
    decreases n,
{
    if n == 0 {
        0
    } else {
        range_start(ws, (n - 1) as nat) + shape_width(ws[n - 1].shape)
    }
}

/// A function type as it reads, its witnesses aside.
pub open spec fn arrow_layout(
    name: Option<NameS>,
    domain: Seq<char>,
    arrow: Seq<char>,
    codomain: Seq<char>,
) -> Seq<char> {
    match name {
        Some(x) => cat9("(("@, x.base(), ": "@, domain, ") "@, arrow, " "@, codomain, ")"@),
        None => cat7("("@, domain, " "@, arrow, " "@, codomain, ")"@),
    }
}

/// What shows that a variant admits more tags.
pub open spec fn more_text(openness: Openness) -> Seq<char> {
    if openness is Open {
        " | …"@
    } else {
        Seq::empty()
    }
}

/// A term as it reads where `min` is the loosest precedence that stands
/// without parentheses.
pub open spec fn text(c: ShowS, e: ExprS, min: Precedence) -> Seq<char>
    decreases e, 5int,
{
    let (p, t) = inner(c, e);
    if p.rank() < min.rank() {
        cat3("("@, t, ")"@)
    } else {
        t
    }
}

/// The texts of the subterms from `from` on.
pub open spec fn kid_texts(c: ShowS, e: ExprS, from: int, n: nat, min: Precedence) -> Seq<Seq<char>>
    decreases e, 0int,
{
    Seq::new(
        n,
        |i: int|
            if 0 <= i < n && 0 <= from && from + i < e.kids.len() {
                text(c, e.kids[from + i], min)
            } else {
                arbitrary()
            },
    )
}

/// ` : ` and the type, where it is known.
pub open spec fn ascription(c: ShowS, e: ExprS, slot: int) -> Seq<char>
    decreases e, 0int,
{
    if 0 <= slot < e.tys.len() && !unresolved(e.tys[slot]) {
        cat2(" : "@, ty_text(c, e.tys[slot]))
    } else {
        Seq::empty()
    }
}

/// Arm `i` of a case.
pub open spec fn arm_text(c: ShowS, e: ExprS, start: int, patterns: Seq<Option<PatternS>>, i: int) -> Seq<
    char,
>
    decreases e, 1int,
{
    if 0 <= i < patterns.len() && 0 <= start && start + 2 * i + 1 < e.kids.len() {
        let guard = e.kids[start + 2 * i];
        let body = e.kids[start + 2 * i + 1];
        match patterns[i] {
            Some(p) => cat8("`"@, p.tag, "("@, p.name.base(), ")"@, if guard.head == HeadS::Lit(
                LitS::Bool(true),
            ) {
                Seq::empty()
            } else {
                cat2(" if "@, text(c, guard, Precedence::Lowest))
            }, " → "@, text(c, body, Precedence::Lowest)),
            None => cat3(text(c, guard, Precedence::Lowest), " → "@, text(c, body, Precedence::Lowest)),
        }
    } else {
        Seq::empty()
    }
}

/// Writer `i` of a store with `k` keys.
pub open spec fn writer_text(c: ShowS, e: ExprS, k: int, prints: Seq<FootprintS>, i: int) -> Seq<char>
    decreases e, 1int,
{
    if 0 <= i < prints.len() && 0 <= k && k + 2 * i + 1 < e.kids.len() {
        cat8("["@, joined(bases(prints[i].read_keys), ", "@), "]⇒["@, joined(
            bases(prints[i].write_keys),
            ", "@,
        ), "] over "@, text(c, e.kids[k + 2 * i], Precedence::Lowest), " do "@, text(
            c,
            e.kids[k + 2 * i + 1],
            Precedence::Lowest,
        ))
    } else {
        Seq::empty()
    }
}

/// The labelled subterms of a record.
pub open spec fn field_texts(c: ShowS, e: ExprS, names: Seq<Seq<char>>) -> Seq<Seq<char>>
    decreases e, 1int,
{
    Seq::new(
        e.kids.len(),
        |i: int|
            if 0 <= i < e.kids.len() {
                cat3(names[i], ": "@, text(c, e.kids[i], Precedence::Lowest))
            } else {
                arbitrary()
            },
    )
}

/// The arms of a case.
pub open spec fn arm_texts(c: ShowS, e: ExprS, start: int, patterns: Seq<Option<PatternS>>) -> Seq<
    Seq<char>,
>
    decreases e, 2int,
{
    Seq::new(patterns.len(), |i: int| arm_text(c, e, start, patterns, i))
}

/// The keys of a store with their initial values.
pub open spec fn init_texts(c: ShowS, e: ExprS, keys: Seq<NameS>) -> Seq<Seq<char>>
    decreases e, 1int,
{
    Seq::new(
        keys.len(),
        |i: int|
            if 0 <= i < e.kids.len() {
                cat3(keys[i].base(), " = "@, text(c, e.kids[i], Precedence::Lowest))
            } else {
                arbitrary()
            },
    )
}

/// The writers of a store with `k` keys.
pub open spec fn writer_texts(c: ShowS, e: ExprS, k: int, prints: Seq<FootprintS>) -> Seq<Seq<char>>
    decreases e, 2int,
{
    Seq::new(prints.len(), |i: int| writer_text(c, e, k, prints, i))
}

/// The definitions of a recursive group.
pub open spec fn def_texts(c: ShowS, e: ExprS, names: Seq<NameS>) -> Seq<Seq<char>>
    decreases e, 1int,
{
    Seq::new(
        names.len(),
        |i: int|
            if 0 <= i < e.kids.len() {
                cat4(
                    names[i].base(),
                    ascription(c, e, lead(e) + i),
                    " = "@,
                    text(c, e.kids[i], Precedence::Lowest),
                )
            } else {
                arbitrary()
            },
    )
}

/// The first subterm, and behind `sep` the others.
pub open spec fn chain_text(c: ShowS, e: ExprS, prec: Precedence, sep: Seq<char>) -> Seq<char>
    decreases e, 1int,
{
    if e.kids.len() == 0 {
        sep
    } else {
        cat3(
            text(c, e.kids[0], prec),
            sep,
            joined(kid_texts(c, e, 1, (e.kids.len() - 1) as nat, prec.next()), sep),
        )
    }
}

/// A term as it reads, with the precedence of its form.
pub open spec fn inner(c: ShowS, e: ExprS) -> (Precedence, Seq<char>)
    decreases e, 4int,
{
    if is_bare_iterate(e) {
        (Precedence::Atom, "iterate"@)
    } else {
        let (p, t) = plain(c, e);
        if c.types && e.tys.len() > 0 {
            (p, cat4(t, ":<"@, ty_text(c, e.tys[0]), ">"@))
        } else {
            (p, t)
        }
    }
}

/// A term as it reads, its own type aside.
pub open spec fn plain(c: ShowS, e: ExprS) -> (Precedence, Seq<char>)
    decreases e, 3int,
{
    let low = Precedence::Lowest;
    let n = e.kids.len();
    match e.head {
        HeadS::Lit(l) => (Precedence::Atom, lit_text(l)),
        HeadS::Var(x) => (Precedence::Atom, var_text(c, x)),
        HeadS::Builtin(b) => (Precedence::Atom, builtin_text(b)),
        HeadS::BinOp(op) => if n == 2 {
            (
                op_prec(op),
                cat5(text(c, e.kids[0], op_prec(op)), " "@, op_text(op), " "@, text(
                    c,
                    e.kids[1],
                    op_prec(op).next(),
                )),
            )
        } else {
            arbitrary()
        },
        HeadS::UnaryOp(op) => if n == 1 {
            match op {
                UnaryOpKind::Neg => (
                    Precedence::Unary,
                    cat2("-"@, text(c, e.kids[0], Precedence::Unary)),
                ),
                UnaryOpKind::Not => (
                    Precedence::Not,
                    cat2("not "@, text(c, e.kids[0], Precedence::Not)),
                ),
            }
        } else {
            arbitrary()
        },
        HeadS::Apply => if n == 2 {
            (
                Precedence::Apply,
                cat3(
                    text(c, e.kids[1], Precedence::Apply),
                    if e.kids[0].head is Proj {
                        Seq::empty()
                    } else {
                        " ▷ "@
                    },
                    text(c, e.kids[0], Precedence::Apply.next()),
                ),
            )
        } else {
            arbitrary()
        },
        HeadS::Cast => if n == 1 && e.tys.len() == lead(e) + 1 {
            (
                Precedence::Atom,
                if unresolved(e.tys[0]) {
                    cat5("cast("@, ty_text(c, e.tys[lead(e)]), ", "@, text(c, e.kids[0], low), ")"@)
                } else {
                    cat3("cast("@, text(c, e.kids[0], low), ")"@)
                },
            )
        } else {
            arbitrary()
        },
        HeadS::Lambda(x) => if n == 1 {
            (low, cat5("λ "@, x.base(), ascription(c, e, lead(e)), " → "@, text(c, e.kids[0], low)))
        } else {
            arbitrary()
        },
        HeadS::Aggregate(k) => if n == 1 {
            (low, cat4(aggregate_text(k), "("@, text(c, e.kids[0], low), ")"@))
        } else {
            arbitrary()
        },
        HeadS::MutDecl(x) => if n == 2 {
            (
                low,
                cat6(x.base(), ascription(c, e, lead(e)), " := "@, text(c, e.kids[0], low), "\nin "@, text(c, e.kids[1], low)),
            )
        } else {
            arbitrary()
        },
        HeadS::Let(x) => if n == 2 {
            (
                low,
                cat7("let "@, x.base(), ascription(c, e, lead(e)), " = "@, text(c, e.kids[0], low), "\nin "@, text(c, e.kids[1], low)),
            )
        } else {
            arbitrary()
        },
        HeadS::List => (
            Precedence::Atom,
            cat3("["@, joined(kid_texts(c, e, 0, n, low), ", "@), "]"@),
        ),
        HeadS::Tuple => (
            Precedence::Atom,
            cat3("("@, joined(kid_texts(c, e, 0, n, low), ", "@), ")"@),
        ),
        HeadS::Record(names) => (
            Precedence::Atom,
            cat3("("@, joined(field_texts(c, e, names), ", "@), ")"@),
        ),
        HeadS::Case(has_scrutinee, patterns) => {
            let start: int = if has_scrutinee { 1 } else { 0 };
            let arms = joined(arm_texts(c, e, start, patterns), "; "@);
            if has_scrutinee && n > 0 {
                (low, cat5("match "@, text(c, e.kids[0], low), " { "@, arms, " }"@))
            } else {
                (low, cat3("{ "@, arms, " }"@))
            }
        },
        HeadS::VariantCtor(tag) => if n == 1 {
            (Precedence::Atom, cat5("`"@, tag, "("@, text(c, e.kids[0], low), ")"@))
        } else {
            arbitrary()
        },
        HeadS::Transact(keys, prints) => (
            low,
            cat5(
                "transact ("@,
                joined(init_texts(c, e, keys), ", "@),
                ") { "@,
                joined(writer_texts(c, e, keys.len() as int, prints), "; "@),
                " }"@,
            ),
        ),
        HeadS::LetRec(names) => if n == names.len() + 1 {
            (
                low,
                cat4(
                    "letrec "@,
                    joined(def_texts(c, e, names), "; "@),
                    "\nin "@,
                    text(c, e.kids[n - 1], low),
                ),
            )
        } else {
            arbitrary()
        },
        HeadS::For(x) => if n == 2 {
            (
                low,
                cat6("for "@, x.base(), " in "@, text(c, e.kids[0], Precedence::Apply), " do "@, text(
                    c,
                    e.kids[1],
                    low,
                )),
            )
        } else {
            arbitrary()
        },
        HeadS::MutWrite(x) => if n == 1 {
            (low, cat3(x.base(), " := "@, text(c, e.kids[0], low)))
        } else {
            arbitrary()
        },
        HeadS::Source(s) => (Precedence::Atom, cat3("source("@, s, ")"@)),
        HeadS::Compose => (Precedence::Compose, chain_text(c, e, Precedence::Compose, " ≫ "@)),
        HeadS::DisjointJoin => (Precedence::And, chain_text(c, e, Precedence::And, " ⊔ "@)),
        HeadS::Copair => (Precedence::And, chain_text(c, e, Precedence::And, " ⊎ "@)),
        HeadS::Proj(k) => (Precedence::Atom, cat2("."@, key_text(k))),
        HeadS::ExprStmt => if n == 2 {
            (low, cat3(text(c, e.kids[0], low), "; "@, text(c, e.kids[1], low)))
        } else {
            arbitrary()
        },
        HeadS::Feed(x) => if n == 1 {
            (Precedence::Atom, cat5("feed("@, x.base(), ", "@, text(c, e.kids[0], low), ")"@))
        } else {
            arbitrary()
        },
        HeadS::Define(x) => if n == 1 {
            (Precedence::Atom, cat5("define("@, x.base(), ", "@, text(c, e.kids[0], low), ")"@))
        } else {
            arbitrary()
        },
        HeadS::Defer => (Precedence::Atom, "defer"@),
        HeadS::Begin => if n == 1 {
            (Precedence::Atom, cat3("begin { "@, text(c, e.kids[0], low), " }"@))
        } else {
            arbitrary()
        },
        HeadS::Error => (Precedence::Atom, "<error>"@),
        HeadS::Realize => if n == 1 {
            (Precedence::Atom, cat3("realize("@, text(c, e.kids[0], low), ")"@))
        } else {
            arbitrary()
        },
    }
}

/// The texts of the components.
pub open spec fn ty_kid_texts(c: ShowS, t: TypeS, from: int, n: nat) -> Seq<Seq<char>>
    decreases t, 0int,
{
    Seq::new(
        n,
        |i: int|
            if 0 <= i < n && 0 <= from && from + i < t.kids.len() {
                ty_text(c, t.kids[from + i])
            } else {
                arbitrary()
            },
    )
}

/// The range of witness `i` of a function as it reads. It is read outside every
/// function.
pub open spec fn range_text(c: ShowS, t: TypeS, ws: Seq<WitnessS>, i: int) -> Seq<char>
    decreases t, 1int,
{
    let from = range_start(ws, i as nat) as int;
    match ws[i].shape {
        KindShapeS::Enumerated(n) => cat3("["@, joined(ty_kid_texts(c.detached(), t, from, n), ", "@), "]"@),
        KindShapeS::SubtypesOf => if from < t.kids.len() {
            cat3("SubtypesOf("@, ty_text(c.detached(), t.kids[from]), ")"@)
        } else {
            arbitrary()
        },
        KindShapeS::UIntRanges => "UIntRanges"@,
        KindShapeS::Type => "Type"@,
    }
}

/// The first `n` witnesses of a function as they read.
pub open spec fn witnesses_text(c: ShowS, t: TypeS, ws: Seq<WitnessS>, n: nat) -> Seq<char>
    decreases t, 2int, n,
{
    if n == 0 || n > ws.len() {
        Seq::empty()
    } else {
        cat6(witnesses_text(c, t, ws, (n - 1) as nat), "Σ ("@, if c.ids {
            cat2("σ@"@, nat_text(ws[n - 1].id.0.0 as nat))
        } else {
            "σ"@
        }, " : "@, range_text(c, t, ws, n - 1), "). "@)
    }
}

/// The parts of an anonymous sum, those of its anonymous parts in their place.
pub open spec fn flat_texts(c: ShowS, t: TypeS, n: nat) -> Seq<Seq<char>>
    decreases t, 2int, n,
{
    if n == 0 || n > t.kids.len() {
        Seq::empty()
    } else {
        flat_texts(c, t, (n - 1) as nat) + (if is_anonymous_sum(t.kids[n - 1]) {
            flat_texts(c, t.kids[n - 1], t.kids[n - 1].kids.len())
        } else {
            seq![ty_text(c, t.kids[n - 1])]
        })
    }
}

/// The labelled types of a record.
pub open spec fn slot_texts(c: ShowS, t: TypeS, names: Seq<Seq<char>>) -> Seq<Seq<char>>
    decreases t, 1int,
{
    Seq::new(
        t.kids.len(),
        |i: int|
            if 0 <= i < t.kids.len() {
                cat3(names[i], ": "@, ty_text(c, t.kids[i]))
            } else {
                arbitrary()
            },
    )
}

/// The tags of a variant with their payloads. A unit payload does not show.
pub open spec fn tag_texts(c: ShowS, t: TypeS, keys: Seq<FieldKeyS>) -> Seq<Seq<char>>
    decreases t, 1int,
{
    Seq::new(
        t.kids.len(),
        |i: int|
            if 0 <= i < t.kids.len() {
                cat3(
                    "`"@,
                    key_text(keys[i]),
                    if t.kids[i].head == TypeHeadS::Base(BaseType::Unit) {
                        Seq::empty()
                    } else {
                        braced(ty_text(c, t.kids[i]))
                    },
                )
            } else {
                arbitrary()
            },
    )
}

/// The predicates of a refinement, without types.
pub open spec fn pred_texts(c: ShowS, t: TypeS) -> Seq<Seq<char>>
    decreases t, 1int,
{
    Seq::new(
        t.preds.len(),
        |i: int|
            if 0 <= i < t.preds.len() {
                text(c.untyped(), t.preds[i], Precedence::Lowest)
            } else {
                arbitrary()
            },
    )
}

/// A type as it reads.
pub open spec fn ty_text(c: ShowS, t: TypeS) -> Seq<char>
    decreases t, 3int,
{
    let n = t.kids.len();
    match t.head {
        TypeHeadS::Base(b) => keyword_s(b),
        TypeHeadS::BoundedHole => if n == 1 {
            cat2("<:"@, ty_text(c, t.kids[0]))
        } else {
            arbitrary()
        },
        TypeHeadS::UIntRange(k) => if k == 0 {
            "∅"@
        } else {
            cat3("[0, "@, nat_text((k - 1) as nat), "]"@)
        },
        TypeHeadS::Fun(name, kind) => if n >= 2 {
            cat2(
                witnesses_text(c, t, binders_of(kind), binders_of(kind).len()),
                arrow_layout(
                    name,
                    ty_text(c, t.kids[n - 2]),
                    arrow_text(c.kinds, kind),
                    ty_text(c.crossing(name), t.kids[n - 1]),
                ),
            )
        } else {
            arbitrary()
        },
        TypeHeadS::Tuple => cat3("("@, joined(ty_kid_texts(c, t, 0, n), ", "@), ")"@),
        TypeHeadS::Record(names) => cat3("{"@, joined(slot_texts(c, t, names), ", "@), "}"@),
        TypeHeadS::Variant(keys, openness) => if positional(keys) {
            cat2(joined(flat_texts(c, t, n), " | "@), more_text(openness))
        } else {
            cat4("{"@, joined(tag_texts(c, t, keys), " | "@), more_text(openness), "}"@)
        },
        TypeHeadS::Refinement => if n == 1 {
            match singleton_of(t) {
                Some(l) => cat3(ty_text(c, t.kids[0]), "@"@, lit_text(l)),
                None => cat5(
                    "{"@,
                    ty_text(c, t.kids[0]),
                    " | "@,
                    joined(sorted(pred_texts(c, t)), ", "@),
                    "}"@,
                ),
            }
        } else {
            arbitrary()
        },
        TypeHeadS::Hole => "_"@,
        TypeHeadS::SharedHole(id) => cat2("_#"@, nat_text(id as nat)),
        TypeHeadS::Infer(v) => cat2("?"@, nat_text(v.uid as nat)),
        TypeHeadS::DataSource(s) => cat3("source("@, s, ")"@),
        TypeHeadS::ChanDom(x, _) => cat3("chan("@, x.base(), ")"@),
        TypeHeadS::Txn => "Txn"@,
        TypeHeadS::History(k) => if n == 2 {
            match k {
                HistoryKind::Overwrite => cat5("Mut("@, ty_text(c, t.kids[0]), ", "@, ty_text(
                    c,
                    t.kids[1],
                ), ")"@),
                HistoryKind::Append => cat5("feed("@, ty_text(c, t.kids[1]), " ⤇ "@, ty_text(
                    c,
                    t.kids[0],
                ), ")"@),
            }
        } else {
            arbitrary()
        },
        TypeHeadS::WitnessRef(w) => if c.ids {
            cat2("σ@"@, nat_text(w.0.0 as nat))
        } else {
            "σ"@
        },
    }
}

} // verus!
