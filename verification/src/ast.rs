//! Terms and types of the core language.
//!
//! A term is a head, its subterms and its type slots; a type is a head, its
//! component types and, where it is refined, its predicates. The `..S` types
//! are that reading as mathematical values: every contract of the library is
//! stated over them.
use std::rc::Rc;
use vstd::prelude::*;
use crate::name::{Name, NameS, names_view};
use crate::refinement_set::RefinementSet;

verus! {

#[derive(Clone, Copy, PartialEq, Eq, Debug, Structural)]
pub enum BaseType {
    Int,
    String,
    Bool,
    Unit,
}

#[derive(Clone, Copy, PartialEq, Eq, Debug, Structural)]
pub enum LogicKind {
    And,
    Or,
    Nand,
    Nor,
    Xor,
    Xnor,
}

#[derive(Clone, Copy, PartialEq, Eq, Debug, Structural)]
pub enum CompareKind {
    Equals,
    NotEquals,
    Less,
    LessEquals,
    Greater,
    GreaterEquals,
}

#[derive(Clone, Copy, PartialEq, Eq, Debug, Structural)]
pub enum ArithmeticKind {
    Add,
    AddRefined,
    Sub,
    Mul,
    FloorDiv,
}

#[derive(Clone, Copy, PartialEq, Eq, Debug, Structural)]
pub enum BinOpKind {
    BoolLogic(LogicKind),
    Compare(CompareKind),
    Arithmetic(ArithmeticKind),
    Concat,
}

#[derive(Clone, Copy, PartialEq, Eq, Debug, Structural)]
pub enum UnaryOpKind {
    Neg,
    Not,
}

#[derive(Clone, Copy, PartialEq, Eq, Debug, Structural)]
pub enum AggregateKind {
    Count,
    Max,
    Min,
    Sum,
}

/// How a history absorbs a write.
#[derive(Clone, Copy, PartialEq, Eq, PartialOrd, Ord, Hash, Debug, Structural)]
pub enum HistoryKind {
    /// A mutable variable: the last write is the value.
    Overwrite,
    /// A feed: every write is kept.
    Append,
}

/// Whether a variant type admits tags beyond the ones it lists.
#[derive(Clone, Copy, PartialEq, Eq, Hash, Debug, Structural)]
pub enum Openness {
    Closed,
    Open,
}

/// The identity of a witness binder.
#[derive(Clone, Copy, PartialEq, Eq, PartialOrd, Ord, Hash, Debug, Structural)]
pub struct WitnessBinderId(pub u32);

/// The identity of a witness: the binder that introduces it.
#[derive(Clone, Copy, PartialEq, Eq, PartialOrd, Ord, Hash, Debug, Structural)]
pub struct WitnessId(pub WitnessBinderId);

/// The identity of a function-kind variable.
#[derive(Clone, Copy, PartialEq, Eq, PartialOrd, Ord, Hash, Debug, Structural)]
pub struct FunKindVarId(pub u32);

/// An inference variable: its identity and the kind its function reading has.
#[derive(Clone, Copy, PartialEq, Eq, Debug, Structural)]
pub struct InferVar {
    pub uid: u32,
    pub fun_kind: FunKindVarId,
}

/// The level a channel domain was introduced at. It carries no identity.
#[derive(Clone, Copy, Debug)]
pub struct ChanLevel(pub u32);

#[derive(Debug)]
pub enum Lit {
    Int(i64),
    String(String),
    Bool(bool),
    Unit,
}

pub enum LitS {
    Int(i64),
    String(Seq<char>),
    Bool(bool),
    Unit,
}

/// A field label: a position or a spelling.
#[derive(Debug)]
pub enum FieldKey {
    Index(usize),
    Name(String),
}

pub enum FieldKeyS {
    Index(usize),
    Name(Seq<char>),
}

#[derive(Debug)]
pub enum ProjKey {
    Index(usize),
    Field(String),
}

/// The operations the language provides.
#[derive(Debug)]
pub enum Builtin {
    AsOf,
    AsOfRead,
    AwaitFinal,
    BeginTxn,
    Box,
    Const,
    FinalRead,
    GetPrevTxn,
    Iterate,
    VariantProject(String),
    VariantWrap(String),
    Zip,
}

pub enum BuiltinS {
    AsOf,
    AsOfRead,
    AwaitFinal,
    BeginTxn,
    Box,
    Const,
    FinalRead,
    GetPrevTxn,
    Iterate,
    VariantProject(Seq<char>),
    VariantWrap(Seq<char>),
    Zip,
}

/// What a witness ranges over.
#[derive(Debug)]
pub enum TypeKind {
    Enumerated(Vec<Type>),
    UIntRanges,
    SubtypesOf(Box<Type>),
    Type,
}

/// A witness binder and its range.
#[derive(Debug)]
pub struct Witness {
    pub id: WitnessId,
    pub range: TypeKind,
}

/// What kind of function an arrow is: a computation, data, or not known yet.
#[derive(Debug)]
pub enum FunKind {
    Compute,
    Data(Option<Vec<Witness>>),
    Var(FunKindVarId),
}

/// A predicate restricting a type.
#[derive(Debug)]
pub struct Refinement {
    pub predicate: Rc<Expr>,
}

#[derive(Debug)]
pub enum Type {
    Base(BaseType),
    UIntRange(usize),
    Fun { name: Option<Name>, fun_kind: FunKind, domain: Box<Type>, codomain: Box<Type> },
    Tuple(Vec<Type>),
    Record(Vec<(String, Type)>),
    Variant(Vec<(FieldKey, Type)>, Openness),
    Refinement(Box<Type>, RefinementSet),
    Hole,
    SharedHole(u32),
    BoundedHole(Box<Type>),
    Infer(InferVar),
    DataSource(String),
    ChanDom(Name, ChanLevel),
    Txn,
    History { value: Box<Type>, domain: Box<Type>, history_kind: HistoryKind },
    WitnessRef(WitnessId),
}

/// A binder and the type it binds at.
#[derive(Debug)]
pub struct TypedBinding {
    pub name: Name,
    pub ty: Type,
}

/// The pattern of a match arm.
#[derive(Debug)]
pub struct Pattern {
    pub tag: String,
    pub binding: TypedBinding,
    pub empty_payload: bool,
}

/// One arm of a case.
#[derive(Debug)]
pub struct Branch {
    pub pattern: Option<Pattern>,
    pub guard: Expr,
    pub body: Expr,
}

/// A key of a commit store and its initial value.
#[derive(Debug)]
pub struct TransactKey {
    pub name: Name,
    pub init: Expr,
}

/// A writer of a commit store: its footprint, its source and its decision.
#[derive(Debug)]
pub struct WriterSite {
    pub read_keys: Vec<Name>,
    pub write_keys: Vec<Name>,
    pub source: Expr,
    pub body: Expr,
}

#[derive(Debug)]
#[allow(inconsistent_fields)]
pub enum TypedExprNode {
    Lit(Lit),
    Var(Name),
    Builtin(Builtin),
    BinOp { left: Box<Expr>, op: BinOpKind, right: Box<Expr> },
    UnaryOp(UnaryOpKind, Box<Expr>),
    Apply { function: Box<Expr>, argument: Box<Expr> },
    Cast { value: Box<Expr>, target: Type },
    Lambda { param: TypedBinding, body: Box<Expr> },
    Aggregate { input: Box<Expr>, kind: AggregateKind },
    MutDecl { binding: TypedBinding, init: Box<Expr>, body: Box<Expr> },
    Let { binding: TypedBinding, bound_expr: Box<Expr>, body: Box<Expr> },
    List(Vec<Expr>),
    Tuple(Vec<Expr>),
    Record(Vec<(String, Expr)>),
    Case { scrutinee: Option<Box<Expr>>, branches: Vec<Branch> },
    VariantCtor { tag: String, payload: Box<Expr> },
    Transact { keys: Vec<TransactKey>, writers: Vec<WriterSite>, domain: Type },
    LetRec { bindings: Vec<(TypedBinding, Expr)>, body: Box<Expr> },
    For { target: TypedBinding, iter: Box<Expr>, body: Box<Expr> },
    MutWrite { name: Name, value: Box<Expr> },
    Source(String),
    Compose(Vec<Expr>),
    DisjointJoin(Vec<Expr>),
    Copair(Vec<Expr>),
    Proj(ProjKey),
    ExprStmt { expr: Box<Expr>, body: Box<Expr> },
    Feed { name: Name, value: Box<Expr> },
    Define { name: Name, value: Box<Expr> },
    Defer,
    Begin { body: Box<Expr> },
    Error,
    Realize(Box<Expr>),
}

/// A term with its recorded type.
#[derive(Debug)]
pub struct Expr {
    pub node: TypedExprNode,
    pub ty: Type,
    pub user_annotation: Option<Type>,
}

pub type TypedExpr = Expr;

// ---- the mathematical reading ----

/// The form of a range, without its types.
pub enum KindShapeS {
    Enumerated(nat),
    UIntRanges,
    SubtypesOf,
    Type,
}

pub struct WitnessS {
    pub id: WitnessId,
    pub shape: KindShapeS,
}

pub enum FunKindS {
    Compute,
    Data(Option<Seq<WitnessS>>),
    Var(FunKindVarId),
}

pub enum TypeHeadS {
    Base(BaseType),
    UIntRange(usize),
    Fun(Option<NameS>, FunKindS),
    Tuple,
    Record(Seq<Seq<char>>),
    Variant(Seq<FieldKeyS>, Openness),
    Refinement,
    Hole,
    SharedHole(u32),
    BoundedHole,
    Infer(InferVar),
    DataSource(Seq<char>),
    ChanDom(NameS, ChanLevel),
    Txn,
    History(HistoryKind),
    WitnessRef(WitnessId),
}

/// A type: its form, its component types in order, and its predicates. A
/// function's components are its witnesses' ranges, its domain and its codomain.
pub struct TypeS {
    pub head: TypeHeadS,
    pub kids: Seq<TypeS>,
    pub preds: Seq<ExprS>,
}

pub struct PatternS {
    pub tag: Seq<char>,
    pub name: NameS,
    pub empty_payload: bool,
}

pub struct FootprintS {
    pub read_keys: Seq<NameS>,
    pub write_keys: Seq<NameS>,
}

pub enum HeadS {
    Lit(LitS),
    Var(NameS),
    Builtin(BuiltinS),
    BinOp(BinOpKind),
    UnaryOp(UnaryOpKind),
    Apply,
    Cast,
    Lambda(NameS),
    Aggregate(AggregateKind),
    MutDecl(NameS),
    Let(NameS),
    List,
    Tuple,
    Record(Seq<Seq<char>>),
    Case(bool, Seq<Option<PatternS>>),
    VariantCtor(Seq<char>),
    Transact(Seq<NameS>, Seq<FootprintS>),
    LetRec(Seq<NameS>),
    For(NameS),
    MutWrite(NameS),
    Source(Seq<char>),
    Compose,
    DisjointJoin,
    Copair,
    Proj(FieldKeyS),
    ExprStmt,
    Feed(NameS),
    Define(NameS),
    Defer,
    Begin,
    Error,
    Realize,
}

/// A term: its form, its subterms in order, and its type slots. The first slot
/// is the recorded type, the next the annotation where there is one, then the
/// slots of its form: a cast's target, each binder's declared type, a store's
/// domain.
pub struct ExprS {
    pub head: HeadS,
    pub kids: Seq<ExprS>,
    pub tys: Seq<TypeS>,
    pub annotated: bool,
}

impl Lit {
    pub open spec fn view(&self) -> LitS {
        match self {
            Lit::Int(n) => LitS::Int(*n),
            Lit::String(s) => LitS::String(s@),
            Lit::Bool(b) => LitS::Bool(*b),
            Lit::Unit => LitS::Unit,
        }
    }
}

impl FieldKey {
    pub open spec fn view(&self) -> FieldKeyS {
        match self {
            FieldKey::Index(n) => FieldKeyS::Index(*n),
            FieldKey::Name(s) => FieldKeyS::Name(s@),
        }
    }
}

impl ProjKey {
    pub open spec fn view(&self) -> FieldKeyS {
        match self {
            ProjKey::Index(n) => FieldKeyS::Index(*n),
            ProjKey::Field(s) => FieldKeyS::Name(s@),
        }
    }
}

impl Builtin {
    pub open spec fn view(&self) -> BuiltinS {
        match self {
            Builtin::AsOf => BuiltinS::AsOf,
            Builtin::AsOfRead => BuiltinS::AsOfRead,
            Builtin::AwaitFinal => BuiltinS::AwaitFinal,
            Builtin::BeginTxn => BuiltinS::BeginTxn,
            Builtin::Box => BuiltinS::Box,
            Builtin::Const => BuiltinS::Const,
            Builtin::FinalRead => BuiltinS::FinalRead,
            Builtin::GetPrevTxn => BuiltinS::GetPrevTxn,
            Builtin::Iterate => BuiltinS::Iterate,
            Builtin::VariantProject(t) => BuiltinS::VariantProject(t@),
            Builtin::VariantWrap(t) => BuiltinS::VariantWrap(t@),
            Builtin::Zip => BuiltinS::Zip,
        }
    }
}

impl TypeKind {
    pub open spec fn shape(&self) -> KindShapeS {
        match self {
            TypeKind::Enumerated(ts) => KindShapeS::Enumerated(ts@.len()),
            TypeKind::UIntRanges => KindShapeS::UIntRanges,
            TypeKind::SubtypesOf(_) => KindShapeS::SubtypesOf,
            TypeKind::Type => KindShapeS::Type,
        }
    }

    /// The types of a range, in order.
    pub open spec fn types_view(&self) -> Seq<TypeS>
        decreases self,
    {
        match self {
            TypeKind::Enumerated(ts) => types_view(ts@),
            TypeKind::SubtypesOf(k) => seq![k.view()],
            TypeKind::UIntRanges => Seq::empty(),
            TypeKind::Type => Seq::empty(),
        }
    }
}

impl Witness {
    pub open spec fn view(&self) -> WitnessS {
        WitnessS { id: self.id, shape: self.range.shape() }
    }
}

pub open spec fn witnesses_view(ws: Seq<Witness>) -> Seq<WitnessS> {
    Seq::new(ws.len(), |i: int| ws[i].view())
}

/// The types of the ranges of `ws`, in order.
pub open spec fn witness_types_view(ws: Seq<Witness>) -> Seq<TypeS>
    decreases ws,
{
    if ws.len() == 0 {
        Seq::empty()
    } else {
        witness_types_view(ws.take(ws.len() - 1)) + ws[ws.len() - 1].range.types_view()
    }
}

impl FunKind {
    pub open spec fn view(&self) -> FunKindS {
        match self {
            FunKind::Compute => FunKindS::Compute,
            FunKind::Data(None) => FunKindS::Data(None),
            FunKind::Data(Some(ws)) => FunKindS::Data(Some(witnesses_view(ws@))),
            FunKind::Var(v) => FunKindS::Var(*v),
        }
    }

    pub open spec fn types_view(&self) -> Seq<TypeS>
        decreases self,
    {
        match self {
            FunKind::Data(Some(ws)) => witness_types_view(ws@),
            _ => Seq::empty(),
        }
    }
}

pub open spec fn opt_name_view(n: Option<Name>) -> Option<NameS> {
    match n {
        Some(x) => Some(x@),
        None => None,
    }
}

pub open spec fn types_view(v: Seq<Type>) -> Seq<TypeS>
    decreases v,
{
    Seq::new(v.len(), |i: int| if 0 <= i < v.len() { v[i].view() } else { arbitrary() })
}

pub open spec fn field_types_view(v: Seq<(String, Type)>) -> Seq<TypeS>
    decreases v,
{
    Seq::new(v.len(), |i: int| if 0 <= i < v.len() { v[i].1.view() } else { arbitrary() })
}

pub open spec fn field_names_view<T>(v: Seq<(String, T)>) -> Seq<Seq<char>> {
    Seq::new(v.len(), |i: int| v[i].0@)
}

pub open spec fn arm_types_view(v: Seq<(FieldKey, Type)>) -> Seq<TypeS>
    decreases v,
{
    Seq::new(v.len(), |i: int| if 0 <= i < v.len() { v[i].1.view() } else { arbitrary() })
}

pub open spec fn arm_keys_view<T>(v: Seq<(FieldKey, T)>) -> Seq<FieldKeyS> {
    Seq::new(v.len(), |i: int| v[i].0.view())
}

pub open spec fn predicates_view(v: Seq<Refinement>) -> Seq<ExprS>
    decreases v,
{
    Seq::new(v.len(), |i: int| if 0 <= i < v.len() { v[i].predicate.view() } else { arbitrary() })
}

/// A type without components.
pub open spec fn leaf_ty(head: TypeHeadS) -> TypeS {
    TypeS { head, kids: Seq::empty(), preds: Seq::empty() }
}

/// A type with the components `kids`.
pub open spec fn node_ty(head: TypeHeadS, kids: Seq<TypeS>) -> TypeS {
    TypeS { head, kids, preds: Seq::empty() }
}

impl Type {
    pub open spec fn view(&self) -> TypeS
        decreases self,
    {
        match self {
            Type::Base(b) => leaf_ty(TypeHeadS::Base(*b)),
            Type::UIntRange(n) => leaf_ty(TypeHeadS::UIntRange(*n)),
            Type::Fun { name, fun_kind, domain, codomain } => node_ty(
                TypeHeadS::Fun(opt_name_view(*name), fun_kind.view()),
                fun_kind.types_view().push(domain.view()).push(codomain.view()),
            ),
            Type::Tuple(ts) => node_ty(TypeHeadS::Tuple, types_view(ts@)),
            Type::Record(fs) => node_ty(
                TypeHeadS::Record(field_names_view(fs@)),
                field_types_view(fs@),
            ),
            Type::Variant(arms, openness) => node_ty(
                TypeHeadS::Variant(arm_keys_view(arms@), *openness),
                arm_types_view(arms@),
            ),
            Type::Refinement(base, set) => TypeS {
                head: TypeHeadS::Refinement,
                kids: seq![base.view()],
                preds: set.view(),
            },
            Type::Hole => leaf_ty(TypeHeadS::Hole),
            Type::SharedHole(id) => leaf_ty(TypeHeadS::SharedHole(*id)),
            Type::BoundedHole(t) => node_ty(TypeHeadS::BoundedHole, seq![t.view()]),
            Type::Infer(v) => leaf_ty(TypeHeadS::Infer(*v)),
            Type::DataSource(s) => leaf_ty(TypeHeadS::DataSource(s@)),
            Type::ChanDom(n, l) => leaf_ty(TypeHeadS::ChanDom(n@, *l)),
            Type::Txn => leaf_ty(TypeHeadS::Txn),
            Type::History { value, domain, history_kind } => node_ty(
                TypeHeadS::History(*history_kind),
                seq![value.view(), domain.view()],
            ),
            Type::WitnessRef(w) => leaf_ty(TypeHeadS::WitnessRef(*w)),
        }
    }
}

pub open spec fn opt_type_view(t: Option<Type>) -> Option<TypeS>
    decreases t,
{
    match t {
        Some(x) => Some(x.view()),
        None => None,
    }
}

pub open spec fn exprs_view(v: Seq<Expr>) -> Seq<ExprS>
    decreases v,
{
    Seq::new(v.len(), |i: int| if 0 <= i < v.len() { v[i].view() } else { arbitrary() })
}

pub open spec fn field_exprs_view(v: Seq<(String, Expr)>) -> Seq<ExprS>
    decreases v,
{
    Seq::new(v.len(), |i: int| if 0 <= i < v.len() { v[i].1.view() } else { arbitrary() })
}

impl Pattern {
    pub open spec fn view(&self) -> PatternS {
        PatternS { tag: self.tag@, name: self.binding.name@, empty_payload: self.empty_payload }
    }
}

pub open spec fn opt_pattern_view(p: Option<Pattern>) -> Option<PatternS> {
    match p {
        Some(x) => Some(x.view()),
        None => None,
    }
}

pub open spec fn patterns_view(v: Seq<Branch>) -> Seq<Option<PatternS>> {
    Seq::new(v.len(), |i: int| opt_pattern_view(v[i].pattern))
}

/// The guards and bodies of the arms, arm by arm.
pub open spec fn branch_kids_view(v: Seq<Branch>) -> Seq<ExprS>
    decreases v,
{
    Seq::new(
        (2 * v.len()) as nat,
        |i: int|
            if 0 <= i < 2 * v.len() {
                if i % 2 == 0 { v[i / 2].guard.view() } else { v[i / 2].body.view() }
            } else {
                arbitrary()
            },
    )
}

/// The declared types of the arms' binders, in order.
pub open spec fn branch_tys_view(v: Seq<Branch>) -> Seq<TypeS>
    decreases v,
{
    if v.len() == 0 {
        Seq::empty()
    } else {
        let rest = branch_tys_view(v.take(v.len() - 1));
        match v[v.len() - 1].pattern {
            Some(p) => rest.push(p.binding.ty.view()),
            None => rest,
        }
    }
}

pub open spec fn key_names_view(v: Seq<TransactKey>) -> Seq<NameS> {
    Seq::new(v.len(), |i: int| v[i].name@)
}

pub open spec fn key_inits_view(v: Seq<TransactKey>) -> Seq<ExprS>
    decreases v,
{
    Seq::new(v.len(), |i: int| if 0 <= i < v.len() { v[i].init.view() } else { arbitrary() })
}

pub open spec fn footprints_view(v: Seq<WriterSite>) -> Seq<FootprintS> {
    Seq::new(
        v.len(),
        |i: int|
            FootprintS {
                read_keys: names_view(v[i].read_keys@),
                write_keys: names_view(v[i].write_keys@),
            },
    )
}

/// The sources and bodies of the writers, writer by writer.
pub open spec fn writer_kids_view(v: Seq<WriterSite>) -> Seq<ExprS>
    decreases v,
{
    Seq::new(
        (2 * v.len()) as nat,
        |i: int|
            if 0 <= i < 2 * v.len() {
                if i % 2 == 0 { v[i / 2].source.view() } else { v[i / 2].body.view() }
            } else {
                arbitrary()
            },
    )
}

pub open spec fn binder_names_view(v: Seq<(TypedBinding, Expr)>) -> Seq<NameS> {
    Seq::new(v.len(), |i: int| v[i].0.name@)
}

pub open spec fn binder_tys_view(v: Seq<(TypedBinding, Expr)>) -> Seq<TypeS>
    decreases v,
{
    Seq::new(v.len(), |i: int| if 0 <= i < v.len() { v[i].0.ty.view() } else { arbitrary() })
}

pub open spec fn binder_defs_view(v: Seq<(TypedBinding, Expr)>) -> Seq<ExprS>
    decreases v,
{
    Seq::new(v.len(), |i: int| if 0 <= i < v.len() { v[i].1.view() } else { arbitrary() })
}

impl TypedExprNode {
    pub open spec fn head(&self) -> HeadS {
        match self {
            TypedExprNode::Lit(l) => HeadS::Lit(l.view()),
            TypedExprNode::Var(n) => HeadS::Var(n@),
            TypedExprNode::Builtin(b) => HeadS::Builtin(b.view()),
            TypedExprNode::BinOp { left, op, right } => HeadS::BinOp(*op),
            TypedExprNode::UnaryOp(op, e) => HeadS::UnaryOp(*op),
            TypedExprNode::Apply { function, argument } => HeadS::Apply,
            TypedExprNode::Cast { value, target } => HeadS::Cast,
            TypedExprNode::Lambda { param, body } => HeadS::Lambda(param.name@),
            TypedExprNode::Aggregate { input, kind } => HeadS::Aggregate(*kind),
            TypedExprNode::MutDecl { binding, init, body } => HeadS::MutDecl(binding.name@),
            TypedExprNode::Let { binding, bound_expr, body } => HeadS::Let(binding.name@),
            TypedExprNode::List(v) => HeadS::List,
            TypedExprNode::Tuple(v) => HeadS::Tuple,
            TypedExprNode::Record(fs) => HeadS::Record(field_names_view(fs@)),
            TypedExprNode::Case { scrutinee, branches } => HeadS::Case(
                scrutinee is Some,
                patterns_view(branches@),
            ),
            TypedExprNode::VariantCtor { tag, payload } => HeadS::VariantCtor(tag@),
            TypedExprNode::Transact { keys, writers, domain } => HeadS::Transact(
                key_names_view(keys@),
                footprints_view(writers@),
            ),
            TypedExprNode::LetRec { bindings, body } => HeadS::LetRec(binder_names_view(bindings@)),
            TypedExprNode::For { target, iter, body } => HeadS::For(target.name@),
            TypedExprNode::MutWrite { name, value } => HeadS::MutWrite(name@),
            TypedExprNode::Source(s) => HeadS::Source(s@),
            TypedExprNode::Compose(v) => HeadS::Compose,
            TypedExprNode::DisjointJoin(v) => HeadS::DisjointJoin,
            TypedExprNode::Copair(v) => HeadS::Copair,
            TypedExprNode::Proj(k) => HeadS::Proj(k.view()),
            TypedExprNode::ExprStmt { expr, body } => HeadS::ExprStmt,
            TypedExprNode::Feed { name, value } => HeadS::Feed(name@),
            TypedExprNode::Define { name, value } => HeadS::Define(name@),
            TypedExprNode::Defer => HeadS::Defer,
            TypedExprNode::Begin { body } => HeadS::Begin,
            TypedExprNode::Error => HeadS::Error,
            TypedExprNode::Realize(e) => HeadS::Realize,
        }
    }

    /// The subterms, in the order a walk visits them.
    pub open spec fn kids(&self) -> Seq<ExprS>
        decreases self,
    {
        match self {
            TypedExprNode::BinOp { left, op, right } => seq![left.view(), right.view()],
            TypedExprNode::UnaryOp(op, e) => seq![e.view()],
            TypedExprNode::Apply { function, argument } => seq![function.view(), argument.view()],
            TypedExprNode::Cast { value, target } => seq![value.view()],
            TypedExprNode::Lambda { param, body } => seq![body.view()],
            TypedExprNode::Aggregate { input, kind } => seq![input.view()],
            TypedExprNode::MutDecl { binding, init, body } => seq![init.view(), body.view()],
            TypedExprNode::Let { binding, bound_expr, body } => seq![bound_expr.view(), body.view()],
            TypedExprNode::List(v) => exprs_view(v@),
            TypedExprNode::Tuple(v) => exprs_view(v@),
            TypedExprNode::Record(fs) => field_exprs_view(fs@),
            TypedExprNode::Case { scrutinee, branches } => match scrutinee {
                Some(s) => seq![s.view()] + branch_kids_view(branches@),
                None => branch_kids_view(branches@),
            },
            TypedExprNode::VariantCtor { tag, payload } => seq![payload.view()],
            TypedExprNode::Transact { keys, writers, domain } => key_inits_view(keys@)
                + writer_kids_view(writers@),
            TypedExprNode::LetRec { bindings, body } => binder_defs_view(bindings@).push(
                body.view(),
            ),
            TypedExprNode::For { target, iter, body } => seq![iter.view(), body.view()],
            TypedExprNode::MutWrite { name, value } => seq![value.view()],
            TypedExprNode::Compose(v) => exprs_view(v@),
            TypedExprNode::DisjointJoin(v) => exprs_view(v@),
            TypedExprNode::Copair(v) => exprs_view(v@),
            TypedExprNode::ExprStmt { expr, body } => seq![expr.view(), body.view()],
            TypedExprNode::Feed { name, value } => seq![value.view()],
            TypedExprNode::Define { name, value } => seq![value.view()],
            TypedExprNode::Begin { body } => seq![body.view()],
            TypedExprNode::Realize(e) => seq![e.view()],
            _ => Seq::empty(),
        }
    }

    /// The type slots of the form itself.
    pub open spec fn slots(&self) -> Seq<TypeS>
        decreases self,
    {
        match self {
            TypedExprNode::Cast { value, target } => seq![target.view()],
            TypedExprNode::Lambda { param, body } => seq![param.ty.view()],
            TypedExprNode::MutDecl { binding, init, body } => seq![binding.ty.view()],
            TypedExprNode::Let { binding, bound_expr, body } => seq![binding.ty.view()],
            TypedExprNode::Case { scrutinee, branches } => branch_tys_view(branches@),
            TypedExprNode::Transact { keys, writers, domain } => seq![domain.view()],
            TypedExprNode::LetRec { bindings, body } => binder_tys_view(bindings@),
            TypedExprNode::For { target, iter, body } => seq![target.ty.view()],
            _ => Seq::empty(),
        }
    }
}

impl Expr {
    pub open spec fn view(&self) -> ExprS
        decreases self,
    {
        ExprS {
            head: self.node.head(),
            kids: self.node.kids(),
            tys: match self.user_annotation {
                Some(t) => seq![self.ty.view(), t.view()] + self.node.slots(),
                None => seq![self.ty.view()] + self.node.slots(),
            },
            annotated: self.user_annotation is Some,
        }
    }
}

} // verus!
