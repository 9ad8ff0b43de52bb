use std::rc::Rc;

use ccl::ast::{
    AggregateKind, ArithmeticKind, BaseType, BinOpKind, Branch, Expr, Lit, LogicKind, Refinement,
    TransactKey, Type, TypedBinding, TypedExprNode, UnaryOpKind, WriterSite,
};
use ccl::kind::KindVars;
use ccl::name::Name;
use ccl::render::{symbolic, symbolic_typed};

fn shows(e: Expr, expected: &str) {
    assert_eq!(symbolic(&e, &KindVars::new()), expected);
}

fn raw(s: &str) -> Name {
    Name::raw(s)
}

fn var(s: &str) -> Expr {
    Expr::var(raw(s))
}

fn num(n: i64) -> Expr {
    Expr::lit(Lit::Int(n))
}

fn add(l: Expr, r: Expr) -> Expr {
    Expr::binop(l, BinOpKind::Arithmetic(ArithmeticKind::Add), r)
}

fn times(l: Expr, r: Expr) -> Expr {
    Expr::binop(l, BinOpKind::Arithmetic(ArithmeticKind::Mul), r)
}

fn minus(l: Expr, r: Expr) -> Expr {
    Expr::binop(l, BinOpKind::Arithmetic(ArithmeticKind::Sub), r)
}

#[test]
fn test_symbolic_proj_as_function_renders_postfix() {
    shows(Expr::apply(var("t"), Expr::proj_index(0)), "t.0");
    shows(
        Expr::apply(var("rec"), Expr::proj_field("name".to_string())),
        "rec.name",
    );
    shows(Expr::apply(Expr::proj_index(0), var("f")), ".0 ▷ f");
}

#[test]
fn test_symbolic_complex() {
    let mut vars = KindVars::new();
    let expr = Expr::let_bind(
        raw("x"),
        Expr::binop(
            Expr::unary(UnaryOpKind::Not, var("a")),
            BinOpKind::BoolLogic(LogicKind::Or),
            var("b"),
        ),
        Expr::apply(
            var("x"),
            Expr::lambda(
                raw("y"),
                Type::infer(0, &mut vars),
                add(var("y"), times(num(1), num(2))),
            ),
        ),
    );
    let expected = "\
let x = not a or b
in x ▷ (λ y → y + 1 * 2)";
    assert_eq!(symbolic(&expr, &vars), expected);
}

#[test]
fn literals_render() {
    shows(num(42), "42");
    shows(num(-7), "-7");
    shows(Expr::lit(Lit::String("hi".to_string())), r#""hi""#);
    shows(
        Expr::lit(Lit::String("a\"b\n\u{e9}".to_string())),
        r#""a\"b\n\u{e9}""#,
    );
    shows(Expr::lit(Lit::Bool(true)), "true");
    shows(Expr::lit(Lit::Unit), "unit");
    shows(var("x"), "x");
}

#[test]
fn projections_render() {
    shows(Expr::proj_index(0), ".0");
    shows(Expr::proj_index(1), ".1");
    shows(Expr::proj_field("name".to_string()), ".name");
    shows(Expr::apply(var("x"), Expr::proj_index(0)), "x.0");
    shows(
        Expr::apply(var("r"), Expr::proj_field("id".to_string())),
        "r.id",
    );
}

#[test]
fn operators_render_by_precedence() {
    shows(add(add(var("a"), var("b")), var("c")), "a + b + c");
    shows(minus(var("a"), minus(var("b"), var("c"))), "a - (b - c)");
    shows(times(add(var("a"), var("b")), var("c")), "(a + b) * c");
    shows(add(var("a"), times(var("b"), var("c"))), "a + b * c");
    shows(
        times(Expr::unary(UnaryOpKind::Neg, var("a")), var("b")),
        "-a * b",
    );
    let logic = |k: LogicKind| Expr::binop(var("a"), BinOpKind::BoolLogic(k), var("b"));
    shows(
        Expr::unary(UnaryOpKind::Not, logic(LogicKind::And)),
        "not (a and b)",
    );
    shows(
        Expr::unary(UnaryOpKind::Not, logic(LogicKind::Or)),
        "not (a or b)",
    );
}

#[test]
fn applications_render_as_pipes() {
    shows(Expr::apply(var("x"), var("f")), "x ▷ f");
    shows(
        Expr::apply(Expr::apply(var("x"), var("f")), var("g")),
        "x ▷ f ▷ g",
    );
    shows(
        Expr::apply(var("y"), Expr::apply(var("x"), var("f"))),
        "y ▷ (x ▷ f)",
    );
    shows(
        Expr::apply(var("x"), Expr::compose(vec![var("f"), var("g")])),
        "x ▷ (f ≫ g)",
    );
    shows(
        Expr::apply(
            Expr::tuple(vec![num(3), num(4)]),
            Expr::compose(vec![
                Expr::apply(
                    Expr::tuple(vec![var("mul"), Expr::apply(num(1), var("const"))]),
                    var("zip"),
                ),
                var("add"),
            ]),
        ),
        "(3, 4) ▷ ((mul, 1 ▷ const) ▷ zip ≫ add)",
    );
    shows(
        Expr::apply(var("x"), add(var("f"), var("g"))),
        "x ▷ (f + g)",
    );
    shows(
        Expr::apply(var("x"), Expr::let_bind(raw("f"), var("g"), var("f"))),
        "x ▷ (let f = g\nin f)",
    );
}

#[test]
fn functions_render_their_parameter_type() {
    let mut vars = KindVars::new();
    let e = Expr::lambda(raw("x"), Type::infer(0, &mut vars), var("x"));
    assert_eq!(symbolic(&e, &vars), "λ x → x");
    let applied = Expr::apply(var("v"), e);
    assert_eq!(symbolic(&applied, &vars), "v ▷ (λ x → x)");
    shows(
        Expr::lambda(raw("x"), Type::Base(BaseType::Int), var("x")),
        "λ x : Int → x",
    );
    shows(
        Expr::lambda(
            raw("x"),
            Type::fun(Type::Base(BaseType::Int), Type::Base(BaseType::Bool)),
            var("x"),
        ),
        "λ x : (Int ⇒ Bool) → x",
    );
    shows(
        Expr::lambda(
            raw("x"),
            Type::refined_one(
                Type::Base(BaseType::Int),
                Refinement::born(Rc::new(Expr::lit(Lit::Bool(true)))),
            ),
            var("x"),
        ),
        "λ x : {Int | true} → x",
    );
}

#[test]
fn bindings_render() {
    shows(
        Expr::let_bind(raw("x"), num(1), var("x")),
        "let x = 1\nin x",
    );
    shows(
        Expr::let_bind(
            raw("x"),
            Expr::lit(Lit::Bool(true)).with_ty(Type::Base(BaseType::Bool)),
            var("x"),
        ),
        "let x : Bool = true\nin x",
    );
    shows(
        Expr::letrec(
            vec![
                (TypedBinding::new_unannotated(raw("x")), num(0)),
                (TypedBinding::new_unannotated(raw("y")), var("x")),
            ],
            var("y"),
        ),
        "letrec x = 0; y = x\nin y",
    );
    shows(
        Expr::letrec(
            vec![(
                TypedBinding::typed(raw("x"), Type::Base(BaseType::Int)),
                num(0),
            )],
            var("x"),
        ),
        "letrec x : Int = 0\nin x",
    );
}

#[test]
fn data_renders() {
    shows(Expr::list(vec![]), "[]");
    shows(Expr::list(vec![num(1), num(2)]), "[1, 2]");
    shows(Expr::tuple(vec![num(1), num(2)]), "(1, 2)");
    shows(
        Expr::record(vec![
            ("a".to_string(), num(1)),
            ("b".to_string(), num(2)),
        ]),
        "(a: 1, b: 2)",
    );
    shows(Expr::aggregate(var("xs"), AggregateKind::Max), "Max(xs)");
}

fn guarded(guard: Expr, body: Expr) -> Branch {
    Branch { pattern: None, guard, body }
}

#[test]
fn cases_render() {
    shows(
        Expr::new(TypedExprNode::Case {
            scrutinee: None,
            branches: vec![guarded(Expr::lit(Lit::Bool(true)), num(0))],
        }),
        "{ true → 0 }",
    );
    shows(
        Expr::new(TypedExprNode::Case {
            scrutinee: None,
            branches: vec![
                guarded(var("x"), num(1)),
                guarded(Expr::lit(Lit::Bool(true)), num(0)),
            ],
        }),
        "{ x → 1; true → 0 }",
    );
}

#[test]
fn transactions_render() {
    shows(
        Expr::new(TypedExprNode::Transact {
            keys: vec![TransactKey { name: raw("i"), init: num(0) }],
            writers: vec![WriterSite {
                read_keys: vec![raw("i")],
                write_keys: vec![raw("i")],
                source: var("xs"),
                body: var("i"),
            }],
            domain: Type::Base(BaseType::Int),
        }),
        "transact (i = 0) { [i]⇒[i] over xs do i }",
    );
    shows(
        Expr::new(TypedExprNode::Transact {
            keys: vec![
                TransactKey { name: raw("x"), init: num(0) },
                TransactKey { name: raw("y"), init: num(1) },
            ],
            writers: vec![WriterSite {
                read_keys: vec![raw("x"), raw("y")],
                write_keys: vec![raw("x"), raw("y")],
                source: var("xs"),
                body: Expr::tuple(vec![var("x"), var("y")]),
            }],
            domain: Type::Base(BaseType::Int),
        }),
        "transact (x = 0, y = 1) { [x, y]⇒[x, y] over xs do (x, y) }",
    );
}

#[test]
fn a_typed_rendering_shows_every_type() {
    let e = add(
        num(1).with_ty(Type::Base(BaseType::Int)),
        var("y").with_ty(Type::Base(BaseType::Int)),
    )
    .with_ty(Type::Base(BaseType::Int));
    assert_eq!(
        symbolic_typed(&e, &KindVars::new()),
        "1:<Int> + y:<Int>:<Int>"
    );
}
