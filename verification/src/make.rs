//! Building terms and types.
use vstd::prelude::*;
use crate::ast::{
    AggregateKind, BaseType, BinOpKind, Builtin, BuiltinS, Expr, ExprS, FieldKeyS, FunKind,
    FunKindS, HeadS, Lit, LitS, ProjKey, Type, TypeHeadS, TypeS, TypedBinding, TypedExprNode,
    UnaryOpKind, binder_defs_view, binder_names_view, binder_tys_view, exprs_view,
    field_exprs_view, field_names_view, leaf_ty, node_ty, opt_type_view,
};
use crate::name::{Name, NameS};
use crate::tree::with_ty;

verus! {

// ---- types, as values ----

pub open spec fn base_ty(b: BaseType) -> TypeS {
    leaf_ty(TypeHeadS::Base(b))
}

pub open spec fn hole_ty() -> TypeS {
    leaf_ty(TypeHeadS::Hole)
}

pub open spec fn txn_ty() -> TypeS {
    leaf_ty(TypeHeadS::Txn)
}

/// The function type with the given binder, kind and ends.
pub open spec fn arrow_ty(name: Option<NameS>, kind: FunKindS, d: TypeS, c: TypeS) -> TypeS {
    node_ty(TypeHeadS::Fun(name, kind), seq![d, c])
}

/// The computation from `d` to `c`.
pub open spec fn fun_ty(d: TypeS, c: TypeS) -> TypeS {
    arrow_ty(None, FunKindS::Compute, d, c)
}

/// The data function from `d` to `c`.
pub open spec fn data_fun_ty(d: TypeS, c: TypeS) -> TypeS {
    arrow_ty(None, FunKindS::Data(None), d, c)
}

pub open spec fn tuple_ty(ts: Seq<TypeS>) -> TypeS {
    node_ty(TypeHeadS::Tuple, ts)
}

pub open spec fn record_ty(names: Seq<Seq<char>>, ts: Seq<TypeS>) -> TypeS {
    node_ty(TypeHeadS::Record(names), ts)
}

/// The domain of a function type.
pub open spec fn domain_of(t: TypeS) -> Option<TypeS> {
    if t.head is Fun {
        Some(t.kids[t.kids.len() - 2])
    } else {
        None
    }
}

/// The codomain of a function type.
pub open spec fn codomain_of(t: TypeS) -> Option<TypeS> {
    if t.head is Fun {
        Some(t.kids[t.kids.len() - 1])
    } else {
        None
    }
}

/// Whether a type is not known yet.
pub open spec fn unresolved(t: TypeS) -> bool {
    t.head is Hole || t.head is Infer
}

/// The computation from `d` to `c`, or the hole where either is not known yet.
pub open spec fn fun_or_hole(d: TypeS, c: TypeS) -> TypeS {
    if unresolved(d) || unresolved(c) {
        hole_ty()
    } else {
        fun_ty(d, c)
    }
}

// ---- terms, as values ----

/// A term of this form with the recorded type `ty` and no annotation.
pub open spec fn term(head: HeadS, kids: Seq<ExprS>, ty: TypeS) -> ExprS {
    ExprS { head, kids, tys: seq![ty], annotated: false }
}

/// A term of this form that carries one type slot of its own.
pub open spec fn slotted(head: HeadS, kids: Seq<ExprS>, ty: TypeS, slot: TypeS) -> ExprS {
    ExprS { head, kids, tys: seq![ty, slot], annotated: false }
}

impl ExprS {
    /// The recorded type.
    pub open spec fn ty(self) -> TypeS {
        self.tys[0]
    }
}

pub open spec fn var_s(n: NameS, ty: TypeS) -> ExprS {
    term(HeadS::Var(n), Seq::empty(), ty)
}

pub open spec fn lit_s(l: LitS, ty: TypeS) -> ExprS {
    term(HeadS::Lit(l), Seq::empty(), ty)
}

pub open spec fn builtin_s(b: BuiltinS, ty: TypeS) -> ExprS {
    term(HeadS::Builtin(b), Seq::empty(), ty)
}

/// `argument ▷ function`.
pub open spec fn apply_s(argument: ExprS, function: ExprS, ty: TypeS) -> ExprS {
    term(HeadS::Apply, seq![function, argument], ty)
}

pub open spec fn lambda_s(n: NameS, param_ty: TypeS, body: ExprS, ty: TypeS) -> ExprS {
    slotted(HeadS::Lambda(n), seq![body], ty, param_ty)
}

pub open spec fn let_s(n: NameS, bound_ty: TypeS, bound: ExprS, body: ExprS, ty: TypeS) -> ExprS {
    slotted(HeadS::Let(n), seq![bound, body], ty, bound_ty)
}

pub open spec fn stmt_s(expr: ExprS, body: ExprS, ty: TypeS) -> ExprS {
    term(HeadS::ExprStmt, seq![expr, body], ty)
}

pub open spec fn tuple_s(es: Seq<ExprS>, ty: TypeS) -> ExprS {
    term(HeadS::Tuple, es, ty)
}

pub open spec fn compose_s(es: Seq<ExprS>, ty: TypeS) -> ExprS {
    term(HeadS::Compose, es, ty)
}

pub open spec fn record_s(names: Seq<Seq<char>>, es: Seq<ExprS>, ty: TypeS) -> ExprS {
    term(HeadS::Record(names), es, ty)
}

pub open spec fn proj_field_s(f: Seq<char>, ty: TypeS) -> ExprS {
    term(HeadS::Proj(FieldKeyS::Name(f)), Seq::empty(), ty)
}

pub open spec fn proj_index_s(i: usize, ty: TypeS) -> ExprS {
    term(HeadS::Proj(FieldKeyS::Index(i)), Seq::empty(), ty)
}

impl Expr {
    /// An untyped term of this form.
    pub fn new(node: TypedExprNode) -> (r: Expr)
        ensures
            r.view() == (ExprS {
                head: node.head(),
                kids: node.kids(),
                tys: seq![hole_ty()] + node.slots(),
                annotated: false,
            }),
    {
        Expr { node, ty: Type::Hole, user_annotation: None }
    }

    /// This term with the recorded type `ty`.
    pub fn with_ty(self, ty: Type) -> (r: Expr)
        ensures
            r.view() == with_ty(self.view(), ty.view()),
    {
        let out = Expr { node: self.node, ty, user_annotation: self.user_annotation };
        assert(out.view().tys =~= self.view().tys.update(0, ty.view()));
        out
    }

    pub fn var(n: Name) -> (r: Expr)
        ensures
            r.view() == var_s(n@, hole_ty()),
    {
        let out = Expr::new(TypedExprNode::Var(n));
        assert(out.view().tys =~= seq![hole_ty()]);
        out
    }

    pub fn lit(l: Lit) -> (r: Expr)
        ensures
            r.view() == lit_s(l.view(), hole_ty()),
    {
        let out = Expr::new(TypedExprNode::Lit(l));
        assert(out.view().tys =~= seq![hole_ty()]);
        out
    }

    pub fn builtin(b: Builtin) -> (r: Expr)
        ensures
            r.view() == builtin_s(b.view(), hole_ty()),
    {
        let out = Expr::new(TypedExprNode::Builtin(b));
        assert(out.view().tys =~= seq![hole_ty()]);
        out
    }

    /// `argument ▷ function`.
    pub fn apply(argument: Expr, function: Expr) -> (r: Expr)
        ensures
            r.view() == apply_s(argument.view(), function.view(), hole_ty()),
    {
        let out = Expr::new(
            TypedExprNode::Apply { function: Box::new(function), argument: Box::new(argument) },
        );
        assert(out.view().tys =~= seq![hole_ty()]);
        out
    }

    /// A function of `name`, typed where both of its ends are known.
    pub fn lambda(name: Name, param_ty: Type, body: Expr) -> (r: Expr)
        ensures
            r.view() == lambda_s(
                name@,
                param_ty.view(),
                body.view(),
                fun_or_hole(param_ty.view(), body.view().ty()),
            ),
    {
        let ty = Type::compute_fun_or_hole(&param_ty, &body.ty);
        let ghost bv = body.view();
        let out = Expr {
            node: TypedExprNode::Lambda {
                param: TypedBinding { name, ty: param_ty },
                body: Box::new(body),
            },
            ty,
            user_annotation: None,
        };
        assert(bv.tys[0] == body.ty.view());
        assert(out.view().tys =~= seq![
            fun_or_hole(param_ty.view(), bv.ty()),
            param_ty.view(),
        ]);
        out
    }

    /// `let name = bound in body`, the binder and the term taking their types
    /// from the bound term and the body.
    pub fn let_bind(name: Name, bound: Expr, body: Expr) -> (r: Expr)
        ensures
            r.view() == let_s(
                name@,
                bound.view().ty(),
                bound.view(),
                body.view(),
                body.view().ty(),
            ),
    {
        let ty = body.ty.clone();
        let bty = bound.ty.clone();
        let out = Expr {
            node: TypedExprNode::Let {
                binding: TypedBinding { name, ty: bty },
                bound_expr: Box::new(bound),
                body: Box::new(body),
            },
            ty,
            user_annotation: None,
        };
        assert(out.view().tys =~= seq![body.view().ty(), bound.view().ty()]);
        out
    }

    pub fn tuple(es: Vec<Expr>) -> (r: Expr)
        ensures
            r.view() == tuple_s(exprs_view(es@), hole_ty()),
    {
        let out = Expr::new(TypedExprNode::Tuple(es));
        assert(out.view().tys =~= seq![hole_ty()]);
        out
    }

    pub fn list(es: Vec<Expr>) -> (r: Expr)
        ensures
            r.view() == term(HeadS::List, exprs_view(es@), hole_ty()),
    {
        let out = Expr::new(TypedExprNode::List(es));
        assert(out.view().tys =~= seq![hole_ty()]);
        out
    }

    pub fn compose(es: Vec<Expr>) -> (r: Expr)
        ensures
            r.view() == compose_s(exprs_view(es@), hole_ty()),
    {
        let out = Expr::new(TypedExprNode::Compose(es));
        assert(out.view().tys =~= seq![hole_ty()]);
        out
    }

    pub fn copair(es: Vec<Expr>) -> (r: Expr)
        ensures
            r.view() == term(HeadS::Copair, exprs_view(es@), hole_ty()),
    {
        let out = Expr::new(TypedExprNode::Copair(es));
        assert(out.view().tys =~= seq![hole_ty()]);
        out
    }

    pub fn record(fs: Vec<(String, Expr)>) -> (r: Expr)
        ensures
            r.view() == record_s(field_names_view(fs@), field_exprs_view(fs@), hole_ty()),
    {
        let out = Expr::new(TypedExprNode::Record(fs));
        assert(out.view().tys =~= seq![hole_ty()]);
        out
    }

    pub fn proj_index(i: usize) -> (r: Expr)
        ensures
            r.view() == proj_index_s(i, hole_ty()),
    {
        let out = Expr::new(TypedExprNode::Proj(ProjKey::Index(i)));
        assert(out.view().tys =~= seq![hole_ty()]);
        out
    }

    pub fn proj_field(f: String) -> (r: Expr)
        ensures
            r.view() == proj_field_s(f@, hole_ty()),
    {
        let out = Expr::new(TypedExprNode::Proj(ProjKey::Field(f)));
        assert(out.view().tys =~= seq![hole_ty()]);
        out
    }

    pub fn binop(left: Expr, op: BinOpKind, right: Expr) -> (r: Expr)
        ensures
            r.view() == term(HeadS::BinOp(op), seq![left.view(), right.view()], hole_ty()),
    {
        let out = Expr::new(
            TypedExprNode::BinOp { left: Box::new(left), op, right: Box::new(right) },
        );
        assert(out.view().tys =~= seq![hole_ty()]);
        out
    }

    pub fn unary(op: UnaryOpKind, e: Expr) -> (r: Expr)
        ensures
            r.view() == term(HeadS::UnaryOp(op), seq![e.view()], hole_ty()),
    {
        let out = Expr::new(TypedExprNode::UnaryOp(op, Box::new(e)));
        assert(out.view().tys =~= seq![hole_ty()]);
        out
    }

    pub fn aggregate(input: Expr, kind: AggregateKind) -> (r: Expr)
        ensures
            r.view() == term(HeadS::Aggregate(kind), seq![input.view()], hole_ty()),
    {
        let out = Expr::new(TypedExprNode::Aggregate { input: Box::new(input), kind });
        assert(out.view().tys =~= seq![hole_ty()]);
        out
    }

    pub fn cast(value: Expr, target: Type) -> (r: Expr)
        ensures
            r.view() == slotted(HeadS::Cast, seq![value.view()], hole_ty(), target.view()),
    {
        let out = Expr::new(TypedExprNode::Cast { value: Box::new(value), target });
        assert(out.view().tys =~= seq![hole_ty(), target.view()]);
        out
    }

    pub fn expr_stmt(expr: Expr, body: Expr) -> (r: Expr)
        ensures
            r.view() == stmt_s(expr.view(), body.view(), hole_ty()),
    {
        let out = Expr::new(TypedExprNode::ExprStmt { expr: Box::new(expr), body: Box::new(body) });
        assert(out.view().tys =~= seq![hole_ty()]);
        out
    }

    pub fn mut_write(name: Name, value: Expr) -> (r: Expr)
        ensures
            r.view() == term(HeadS::MutWrite(name@), seq![value.view()], hole_ty()),
    {
        let out = Expr::new(TypedExprNode::MutWrite { name, value: Box::new(value) });
        assert(out.view().tys =~= seq![hole_ty()]);
        out
    }

    pub fn mut_decl(name: Name, ty: Type, init: Expr, body: Expr) -> (r: Expr)
        ensures
            r.view() == slotted(
                HeadS::MutDecl(name@),
                seq![init.view(), body.view()],
                hole_ty(),
                ty.view(),
            ),
    {
        let out = Expr::new(
            TypedExprNode::MutDecl {
                binding: TypedBinding { name, ty },
                init: Box::new(init),
                body: Box::new(body),
            },
        );
        assert(out.view().tys =~= seq![hole_ty(), ty.view()]);
        out
    }

    pub fn feed(name: Name, value: Expr) -> (r: Expr)
        ensures
            r.view() == term(HeadS::Feed(name@), seq![value.view()], hole_ty()),
    {
        let out = Expr::new(TypedExprNode::Feed { name, value: Box::new(value) });
        assert(out.view().tys =~= seq![hole_ty()]);
        out
    }

    pub fn begin(body: Expr) -> (r: Expr)
        ensures
            r.view() == term(HeadS::Begin, seq![body.view()], hole_ty()),
    {
        let out = Expr::new(TypedExprNode::Begin { body: Box::new(body) });
        assert(out.view().tys =~= seq![hole_ty()]);
        out
    }

    pub fn letrec(bindings: Vec<(TypedBinding, Expr)>, body: Expr) -> (r: Expr)
        ensures
            r.view() == (ExprS {
                head: HeadS::LetRec(binder_names_view(bindings@)),
                kids: binder_defs_view(bindings@).push(body.view()),
                tys: seq![hole_ty()] + binder_tys_view(bindings@),
                annotated: false,
            }),
    {
        Expr::new(TypedExprNode::LetRec { bindings, body: Box::new(body) })
    }
}

impl TypedBinding {
    /// `name` at `ty`.
    pub fn typed(name: Name, ty: Type) -> (r: TypedBinding)
        ensures
            r.name@ == name@,
            r.ty.view() == ty.view(),
    {
        TypedBinding { name, ty }
    }

    /// `name`, at a type not known yet.
    pub fn new_unannotated(name: Name) -> (r: TypedBinding)
        ensures
            r.name@ == name@,
            r.ty.view() == hole_ty(),
    {
        TypedBinding { name, ty: Type::Hole }
    }
}

impl Clone for TypedBinding {
    fn clone(&self) -> (r: TypedBinding)
        ensures
            r.name@ == self.name@,
            r.ty.view() == self.ty.view(),
    {
        TypedBinding { name: self.name.clone(), ty: self.ty.clone() }
    }
}

impl Type {
    /// The computation from `domain` to `codomain`.
    pub fn fun(domain: Type, codomain: Type) -> (r: Type)
        ensures
            r.view() == fun_ty(domain.view(), codomain.view()),
    {
        let out = Type::Fun {
            name: None,
            fun_kind: FunKind::Compute,
            domain: Box::new(domain),
            codomain: Box::new(codomain),
        };
        assert(FunKind::Compute.types_view() =~= Seq::empty());
        assert(out.view().kids =~= seq![domain.view(), codomain.view()]);
        out
    }

    /// The data function from `domain` to `codomain`.
    pub fn data_fun(domain: Type, codomain: Type) -> (r: Type)
        ensures
            r.view() == data_fun_ty(domain.view(), codomain.view()),
    {
        let out = Type::Fun {
            name: None,
            fun_kind: FunKind::Data(None),
            domain: Box::new(domain),
            codomain: Box::new(codomain),
        };
        assert(FunKind::Data(None).types_view() =~= Seq::empty());
        assert(out.view().kids =~= seq![domain.view(), codomain.view()]);
        out
    }

    /// Whether the type is not known yet.
    pub fn is_unresolved(&self) -> (r: bool)
        ensures
            r == unresolved(self.view()),
    {
        match self {
            Type::Hole => true,
            Type::Infer(_) => true,
            _ => false,
        }
    }

    /// The computation from `domain` to `codomain`, or the hole where either is
    /// not known yet.
    pub fn compute_fun_or_hole(domain: &Type, codomain: &Type) -> (r: Type)
        ensures
            r.view() == fun_or_hole(domain.view(), codomain.view()),
    {
        if domain.is_unresolved() || codomain.is_unresolved() {
            Type::Hole
        } else {
            Type::fun(domain.clone(), codomain.clone())
        }
    }

    /// The domain of a function type.
    pub fn domain(&self) -> (r: Option<Type>)
        ensures
            opt_type_view(r) == domain_of(self.view()),
    {
        match self {
            Type::Fun { name, fun_kind, domain, codomain } => {
                let ghost k = self.view().kids;
                assert(k[k.len() - 2] == domain.view());
                Some((**domain).clone())
            },
            _ => None,
        }
    }

    /// The codomain of a function type.
    pub fn codomain(&self) -> (r: Option<Type>)
        ensures
            opt_type_view(r) == codomain_of(self.view()),
    {
        match self {
            Type::Fun { name, fun_kind, domain, codomain } => {
                let ghost k = self.view().kids;
                assert(k[k.len() - 1] == codomain.view());
                Some((**codomain).clone())
            },
            _ => None,
        }
    }
}

} // verus!
