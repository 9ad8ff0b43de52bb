use std::rc::Rc;

use ccl::ast::{
    BaseType, BinOpKind, Branch, ChanLevel, CompareKind, Expr, FieldKey, FunKind, HistoryKind,
    Lit, Pattern, Refinement, Type, TypeKind, TypedBinding, TypedExprNode,
};
use ccl::kind::KindVars;
use ccl::name::{Name, NameSupply};
use ccl::predicate_hash::{HashToken, hash_refinement_predicate};
use ccl::predicate_order::{application_elem_types, application_order};
use ccl::refine_eq::eq_refinement_predicate;
use ccl::refinement_set::RefinementSet;
use ccl::render::symbolic;
use ccl::set_hash::combine_hashes;
use ccl::type_forms::{V_NONE, V_SOME};
use ccl::witness::has_free_witness_ref;

fn base_int() -> Type {
    Type::Base(BaseType::Int)
}

fn shown(e: &Expr) -> String {
    symbolic(e, &KindVars::new())
}

fn text(t: &Type) -> String {
    t.to_text(&KindVars::new())
}

fn same_tokens(a: &Vec<HashToken>, b: &Vec<HashToken>) -> bool {
    a.len() == b.len() && a.iter().zip(b).all(|(x, y)| x.same(y))
}

fn assert_same_restriction(a: &Expr, b: &Expr) {
    assert!(
        eq_refinement_predicate(a, b),
        "expected the same restriction:\n  {}\n  {}",
        shown(a),
        shown(b),
    );
    let none = Vec::new();
    assert!(
        same_tokens(
            &hash_refinement_predicate(a, &none),
            &hash_refinement_predicate(b, &none)
        ),
        "equal refinements must hash alike"
    );
}

#[test]
fn a_rebuilt_predicate_containing_realize_equals_itself() {
    let realizing = || {
        Rc::new(
            Expr::new(TypedExprNode::Realize(Box::new(
                Expr::new(TypedExprNode::Var(Name::elem())).with_ty(base_int()),
            )))
            .with_ty(base_int()),
        )
    };
    let (a, b) = (Refinement::born(realizing()), Refinement::born(realizing()));
    assert!(
        !Rc::ptr_eq(&a.predicate, &b.predicate),
        "the premise: these must be distinct terms"
    );
    assert_eq!(
        a, b,
        "a rebuilt predicate must equal the one it was built from"
    );
}

#[test]
fn fun_like_rebuilds_under_a_sum_exemplar() {
    let mut vars = KindVars::new();
    let exemplar = Type::sum_over(
        TypeKind::Enumerated(vec![Type::UIntRange(2), Type::UIntRange(3)]),
        None,
        base_int(),
        &mut vars,
    );
    let ex = exemplar.sum().expect("built as a sum")[0].clone();
    let rebuilt = Type::fun_like(
        &exemplar,
        Type::WitnessRef(*ex.id()),
        Type::Base(BaseType::Bool),
    );
    let ws = rebuilt.sum().expect("a sum exemplar must rebuild into a sum");
    assert_eq!(ws.len(), 1);
    assert!(
        ws[0].type_kind().same(&TypeKind::Enumerated(vec![
            Type::UIntRange(2),
            Type::UIntRange(3)
        ])),
        "the witness's type kind carries over"
    );
    assert!(
        matches!(&rebuilt, Type::Fun { fun_kind: FunKind::Data(..), .. }),
        "the body stays a data function"
    );
    assert!(
        !has_free_witness_ref(&rebuilt, &Vec::new()),
        "the rebuilt domain's witness is bound by the rebuilt sum"
    );
}

fn greater_than_one(b: &Name) -> Expr {
    Expr::binop(
        Expr::var(b.clone()),
        BinOpKind::Compare(CompareKind::Greater),
        Expr::lit(Lit::Int(1)),
    )
}

#[test]
fn lambdas_differing_in_their_binder_are_one_restriction() {
    let build = |binder: &str| {
        let b = Name::raw(binder);
        Expr::lambda(b.clone(), base_int(), greater_than_one(&b))
    };
    assert_same_restriction(&build("p"), &build("q"));
}

#[test]
fn lets_differing_in_their_binder_are_one_restriction() {
    let build = |binder: &str| {
        let b = Name::raw(binder);
        Expr::let_bind(b.clone(), Expr::lit(Lit::Int(1)), greater_than_one(&b))
    };
    assert_same_restriction(&build("p"), &build("q"));
}

#[test]
fn patterns_differing_in_their_binder_are_one_restriction() {
    let build = |binder: &str| {
        let b = Name::raw(binder);
        Expr::new(TypedExprNode::Case {
            scrutinee: Some(Box::new(Expr::lit(Lit::Unit))),
            branches: vec![Branch {
                pattern: Some(Pattern {
                    tag: "some".to_string(),
                    binding: TypedBinding::typed(b.clone(), base_int()),
                    empty_payload: false,
                }),
                guard: Expr::lit(Lit::Bool(true)),
                body: greater_than_one(&b),
            }],
        })
    };
    assert_same_restriction(&build("p"), &build("q"));
}

#[test]
fn alpha_invariance_resolves_shadowing_innermost_first() {
    let nested = |outer: &str, inner: &str, referenced: &str| {
        Expr::lambda(
            Name::raw(outer),
            base_int(),
            Expr::lambda(
                Name::raw(inner),
                base_int(),
                Expr::var(Name::raw(referenced)),
            ),
        )
    };
    assert_same_restriction(&nested("a", "b", "b"), &nested("x", "y", "y"));
    assert_same_restriction(&nested("a", "a", "a"), &nested("x", "x", "x"));
    assert!(!eq_refinement_predicate(
        &nested("a", "b", "a"),
        &nested("x", "y", "y")
    ));
}

#[test]
fn a_free_reference_still_compares_by_name() {
    let refinement = |free: &str| {
        Expr::lambda(
            Name::raw("p"),
            base_int(),
            Expr::binop(
                Expr::var(Name::raw("p")),
                BinOpKind::Compare(CompareKind::Equals),
                Expr::var(Name::raw(free)),
            ),
        )
    };
    assert_same_restriction(&refinement("k"), &refinement("k"));
    assert!(
        !eq_refinement_predicate(&refinement("k"), &refinement("m")),
        "distinct enclosing binders must stay distinct"
    );
}

#[test]
fn a_captured_reference_is_not_a_free_one_of_the_same_spelling() {
    let p = Name::raw("p");
    let binds_it = Expr::lambda(p.clone(), base_int(), greater_than_one(&p));
    let leaves_it_free = Expr::lambda(Name::raw("q"), base_int(), greater_than_one(&p));
    assert!(
        !eq_refinement_predicate(&binds_it, &leaves_it_free),
        "a bound reference and a free one of the same spelling are two restrictions"
    );
    assert!(
        !eq_refinement_predicate(&leaves_it_free, &binds_it),
        "and the relation is symmetric, so the mirrored arm rejects too"
    );
}

#[test]
fn a_bound_reference_hashes_by_its_place() {
    let p = Name::raw("p");
    let tokens = hash_refinement_predicate(
        &Expr::lambda(p.clone(), base_int(), Expr::var(p)),
        &Vec::new(),
    );
    assert_eq!(tokens.len(), 3);
    assert!(tokens[0].same(&HashToken::Form(7)));
    assert!(tokens[1].same(&HashToken::Form(1)));
    assert!(tokens[2].same(&HashToken::Level(0)));
    let free = hash_refinement_predicate(&Expr::var(Name::raw("k")), &Vec::new());
    assert!(free[1].same(&HashToken::Name(Name::raw("k"))));
}

#[test]
fn independent_refinements_order_by_content_not_by_storage() {
    let vars = KindVars::new();
    let refinement = |name: &str| {
        Refinement::born(Rc::new(Expr::binop(
            Expr::var(Name::raw(name)),
            BinOpKind::Compare(CompareKind::Equals),
            Expr::lit(Lit::Int(1)),
        )))
    };
    let (a, b) = (refinement("a"), refinement("b"));
    let base = base_int();
    let narrowed_by = |r: &Refinement| Type::refined(base.clone(), RefinementSet::one(r.clone()));

    let ab = application_elem_types(&vec![a.clone(), b.clone()], &base, &vars);
    let ba = application_elem_types(&vec![b.clone(), a.clone()], &base, &vars);
    assert_eq!(ab, vec![base.clone(), narrowed_by(&a)], "stored [a, b]");
    assert_eq!(ba, vec![narrowed_by(&a), base.clone()], "stored [b, a]");
}

#[test]
fn a_predicate_reading_a_narrowed_value_applies_after_that_narrowing() {
    let vars = KindVars::new();
    let base = base_int();
    let inner = Refinement::born(Rc::new(Expr::binop(
        Expr::var(Name::elem()),
        BinOpKind::Compare(CompareKind::Equals),
        Expr::lit(Lit::Int(1)),
    )));
    let outer = Refinement::born(Rc::new(Expr::binop(
        Expr::var(Name::elem()).with_ty(Type::refined(
            base.clone(),
            RefinementSet::one(inner.clone()),
        )),
        BinOpKind::Compare(CompareKind::Equals),
        Expr::lit(Lit::Int(2)),
    )));
    let stored = vec![outer.clone(), inner.clone()];
    let elems = application_elem_types(&stored, &base, &vars);
    assert_eq!(
        elems,
        vec![
            Type::refined(base.clone(), RefinementSet::one(inner.clone())),
            base.clone()
        ],
        "the outer refinement applies second, under the narrowing it reads"
    );
    let steps = application_order(&stored, &base, &vars);
    assert_eq!(*steps[0].0, inner);
    assert_eq!(steps[0].1, base);
    assert_eq!(*steps[1].0, outer);
}

fn rng(n: usize) -> Type {
    Type::UIntRange(n)
}

#[test]
fn a_kind_refuses_only_what_it_can_be_certain_of() {
    assert!(!TypeKind::UIntRanges.refuses(&rng(3)));
    assert!(TypeKind::UIntRanges.refuses(&Type::DataSource("s".to_string())));
    let refined = Type::refined_one(
        rng(3),
        Refinement::born(Rc::new(Expr::lit(Lit::Bool(true)))),
    );
    assert!(TypeKind::UIntRanges.refuses(&refined));
    assert!(!TypeKind::UIntRanges.refuses(&Type::Hole));
    assert!(!TypeKind::Type.refuses(&Type::DataSource("s".to_string())));
    assert!(!TypeKind::SubtypesOf(Box::new(Type::Hole)).refuses(&rng(3)));
    assert!(!TypeKind::SubtypesOf(Box::new(rng(3))).refuses(&rng(3)));
    assert!(!TypeKind::SubtypesOf(Box::new(rng(3))).refuses(&rng(2)));
    assert!(TypeKind::Enumerated(vec![rng(3)]).refuses(&rng(2)));
    assert!(!TypeKind::Enumerated(vec![rng(3)]).refuses(&rng(3)));
    assert!(!TypeKind::Enumerated(vec![rng(3)]).refuses(&Type::Hole));
    assert!(!TypeKind::Enumerated(vec![Type::Hole]).refuses(&rng(2)));
}

fn refined_data_fun(domain: Type, filter: Expr, codomain: Type, fun_kind: FunKind) -> Type {
    Type::Fun {
        name: None,
        fun_kind,
        domain: Box::new(Type::Refinement(
            Box::new(domain),
            RefinementSet::one(Refinement::born(Rc::new(filter))),
        )),
        codomain: Box::new(codomain),
    }
}

#[test]
fn refinement_eq_distinguishes_cast_target_predicates() {
    let mut vars = KindVars::new();
    let mut cast_pred = |op: CompareKind| {
        let filter = Expr::binop(
            Expr::var(Name::raw("x")),
            BinOpKind::Compare(op),
            Expr::lit(Lit::Int(0)),
        );
        Expr::cast(
            Expr::var(Name::raw("xs")),
            refined_data_fun(Type::Hole, filter, Type::Hole, FunKind::fresh_data(&mut vars)),
        )
    };
    let gt = Refinement::born(Rc::new(cast_pred(CompareKind::Greater)));
    let gt_twin = Refinement::born(Rc::new(cast_pred(CompareKind::Greater)));
    let lt = Refinement::born(Rc::new(cast_pred(CompareKind::Less)));
    assert_eq!(
        gt, gt_twin,
        "casts with structurally equal target predicates are one refinement"
    );
    assert_ne!(
        gt, lt,
        "casts differing only in the target's nested filter are distinct refinements"
    );
}

#[test]
fn a_rewrite_that_collapses_two_refinements_leaves_a_set() {
    let eq_to = |name: &str| {
        Refinement::born(Rc::new(Expr::binop(
            Expr::var(Name::elem()),
            BinOpKind::Compare(CompareKind::Equals),
            Expr::var(Name::raw(name)),
        )))
    };
    let mut set = RefinementSet::new();
    set.insert(eq_to("x"));
    set.insert(eq_to("y"));
    assert_eq!(set.len(), 2, "two distinct predicates, two refinements");

    set.rewrite_each(|_, _| eq_to("z"));

    assert_eq!(set.len(), 1, "the collapsed pair is one refinement: {set:?}");
    assert_eq!(
        set,
        RefinementSet::one(eq_to("z")),
        "and equals the set built with one insert"
    );
}

#[test]
fn cast_target_vintages_render_alike_but_do_not_dedup() {
    let mut vars = KindVars::new();
    let mut vintage = |marker: i64| {
        let target = refined_data_fun(
            base_int(),
            Expr::lit(Lit::Int(marker)),
            base_int(),
            FunKind::fresh_data(&mut vars),
        );
        Refinement::born(Rc::new(
            Expr::cast(Expr::lit(Lit::Int(0)), target).with_ty(base_int()),
        ))
    };
    let (a, b) = (vintage(1), vintage(2));
    assert_eq!(
        symbolic(&a.predicate, &vars),
        symbolic(&b.predicate, &vars),
        "the two vintages must be indistinguishable in the rendering"
    );
    assert_ne!(a, b, "cast-target predicates distinguish the two vintages");

    let mut set = RefinementSet::new();
    set.insert(a);
    set.insert(b);
    assert_eq!(set.len(), 2, "vintages do not dedup: {set:?}");
}

#[test]
fn sets_are_equal_in_any_order() {
    let r = |n: &str| Refinement::born(Rc::new(Expr::var(Name::raw(n))));
    let ab = RefinementSet::from_iter(vec![r("a"), r("b"), r("a")]);
    let ba = RefinementSet::from_iter(vec![r("b"), r("a")]);
    assert_eq!(ab.len(), 2);
    assert_eq!(ab, ba);
    assert_ne!(ab, RefinementSet::one(r("a")));
    assert_eq!(ab.into_iter(), vec![r("a"), r("b")]);
}

#[test]
fn handle_accessors_see_through_a_refinement() {
    let refinement = Refinement::born(Rc::new(Expr::lit(Lit::Bool(true))));
    let refine = |t: Type| Type::refined_one(t, refinement.clone());
    let int = base_int();
    let mut_var = || Type::History {
        value: Box::new(base_int()),
        domain: Box::new(Type::Txn),
        history_kind: HistoryKind::Overwrite,
    };
    let channel = || Type::History {
        value: Box::new(base_int()),
        domain: Box::new(Type::UIntRange(3)),
        history_kind: HistoryKind::Append,
    };

    assert_eq!(refine(mut_var()).mut_value_type(), Some(&int));
    assert_eq!(
        refine(channel()).as_feed(),
        Some((&Type::UIntRange(3), &int))
    );
    assert!(refine(mut_var()).is_handle() && refine(channel()).is_handle());
    assert_eq!(channel().mut_value_type(), None);
    assert_eq!(mut_var().as_feed(), None);
    assert_eq!(refine(base_int()).mut_value_type(), None);
}

#[test]
fn peel_refinements_stops_at_the_head() {
    let mut vars = KindVars::new();
    let refine = |t: Type, tag: &str| {
        Type::refined_one(t, Refinement::born(Rc::new(Expr::var(Name::raw(tag)))))
    };
    let inner = Type::sum_over(
        TypeKind::Enumerated(vec![refine(Type::UIntRange(3), "p")]),
        None,
        base_int(),
        &mut vars,
    );
    let wrapped = refine(refine(inner.clone(), "q"), "r");
    assert_eq!(wrapped.peel_refinements(), &inner);
    assert_eq!(wrapped.refinements().len(), 2);
    assert_eq!(wrapped.walk_refinements().len(), 3);
}

#[test]
fn txn_type_display() {
    assert_eq!(text(&Type::Txn), "Txn");
    assert_eq!(text(&Type::fun(Type::Txn, base_int())), "(Txn ⇒ Int)");
}

fn tag(s: &str) -> FieldKey {
    FieldKey::Name(s.to_string())
}

#[test]
fn variant_type_display_is_surface_syntax() {
    let commit_abort = Type::variant(vec![
        (tag("commit"), base_int()),
        (tag("abort"), Type::Base(BaseType::Unit)),
    ]);
    assert_eq!(text(&commit_abort), "{`commit{Int} | `abort}");
    assert_eq!(
        text(&Type::variant(vec![(tag("none"), Type::Base(BaseType::Unit))])),
        "{`none}"
    );
    assert_eq!(text(&Type::variant(vec![(tag("some"), base_int())])), "{`some{Int}}");
    let record = Type::Record(vec![
        ("a".to_string(), base_int()),
        ("b".to_string(), base_int()),
    ]);
    assert_eq!(
        text(&Type::variant(vec![(tag("pair"), record)])),
        "{`pair{a: Int, b: Int}}"
    );
}

#[test]
fn anonymous_positional_sum_still_renders_as_a_flat_join() {
    let anon = Type::variant(vec![
        (FieldKey::Index(0), base_int()),
        (FieldKey::Index(1), Type::Base(BaseType::String)),
    ]);
    assert_eq!(text(&anon), "Int | String");
}

#[test]
fn a_dependent_arrow_renders_its_binder_by_name() {
    let k = Name::raw("k");
    let refined = Type::Refinement(
        Box::new(base_int()),
        RefinementSet::one(Refinement::born(Rc::new(Expr::binop(
            Expr::var(Name::elem()),
            BinOpKind::Compare(CompareKind::Equals),
            Expr::var(k.clone()),
        )))),
    );
    let ty = Type::pi(k.clone(), base_int(), refined);
    assert_eq!(text(&ty), "((k: Int) ⇒ {Int | __elem == k})");
    let Type::Fun { codomain, .. } = &ty else {
        panic!("expected a function");
    };
    assert_eq!(text(codomain), "{Int | __elem == k}");
    let Type::Refinement(_, refinements) = &**codomain else {
        panic!("expected the refinement");
    };
    let refinement = refinements.sole().expect("one refinement");
    let TypedExprNode::BinOp { right, .. } = &refinement.predicate.node else {
        panic!("expected the dependent refinement");
    };
    let TypedExprNode::Var(reference) = &right.node else {
        panic!("expected a variable reference");
    };
    assert_eq!(reference.pi_bound_index(), Some(0));
    assert_eq!(
        *reference,
        Name::pi_bound_bare(0),
        "the hint does not participate in identity"
    );
}

#[test]
fn an_unnamed_crossing_still_counts_when_rendering() {
    let refined = Type::Refinement(
        Box::new(base_int()),
        RefinementSet::one(Refinement::born(Rc::new(Expr::var(Name::pi_bound_bare(1))))),
    );
    let ty = Type::Fun {
        name: Some(Name::raw("k")),
        fun_kind: FunKind::Compute,
        domain: Box::new(base_int()),
        codomain: Box::new(Type::fun(base_int(), refined)),
    };
    assert_eq!(text(&ty), "((k: Int) ⇒ (Int ⇒ {Int | k}))");
}

#[test]
fn empty_products_are_the_unit_type() {
    assert_eq!(Type::tuple(vec![]), Type::Base(BaseType::Unit));
    assert_eq!(Type::record(vec![]), Type::Base(BaseType::Unit));
    assert_eq!(
        Type::tuple(vec![base_int()]),
        Type::Tuple(vec![base_int()])
    );
}

#[test]
fn an_option_holds_its_payload() {
    let opt = Type::option_of(base_int());
    assert_eq!(opt.option_payload(), Some(&base_int()));
    assert_eq!(base_int().option_payload(), None);
    let open = Type::open_variant(vec![
        (tag(V_NONE), Type::Base(BaseType::Unit)),
        (tag(V_SOME), base_int()),
    ]);
    assert_eq!(open.option_payload(), None);
    let swapped = Type::variant(vec![
        (tag(V_SOME), base_int()),
        (tag(V_NONE), Type::Base(BaseType::Unit)),
    ]);
    assert_eq!(swapped.option_payload(), None);
}

#[test]
fn refining_twice_refines_once() {
    let r = |n: &str| Refinement::born(Rc::new(Expr::var(Name::raw(n))));
    let twice = Type::refined_one(Type::refined_one(base_int(), r("p")), r("q"));
    let Type::Refinement(inner, set) = &twice else {
        panic!("expected a refinement");
    };
    assert_eq!(**inner, base_int());
    assert_eq!(set.len(), 2);
    assert_eq!(Type::refined(base_int(), RefinementSet::new()), base_int());
}

#[test]
fn function_kinds_are_read_through_refinements() {
    let mut vars = KindVars::new();
    let consumer = Type::consumer_fun(base_int(), base_int(), &mut vars);
    assert!(matches!(consumer.fun_kind(), Some(FunKind::Var(_))));
    let refined = Type::refined_one(
        Type::data_fun(base_int(), base_int()),
        Refinement::born(Rc::new(Expr::lit(Lit::Bool(true)))),
    );
    assert!(matches!(refined.fun_kind(), Some(FunKind::Data(None))));
    assert!(base_int().fun_kind().is_none());
    let hole = Type::infer(0, &mut vars);
    assert!(matches!(hole.fun_kind_of(), Some(FunKind::Var(_))));
    assert!(base_int().fun_kind_of().is_none());
    let eliminated = Type::fun_eliminated(base_int(), base_int(), &mut vars);
    assert!(matches!(eliminated.fun_kind_of(), Some(FunKind::Var(_))));
    let pi = Type::pi_eliminated(Name::raw("k"), base_int(), base_int(), &mut vars);
    assert!(matches!(pi, Type::Fun { name: Some(_), .. }));
    assert_eq!(
        Type::fun_like_or_hole(&base_int(), &Type::Hole, &base_int()),
        Type::Hole
    );
    assert_eq!(
        Type::fun_like_or_hole(&Type::data_fun(Type::Hole, Type::Hole), &base_int(), &base_int()),
        Type::data_fun(base_int(), base_int())
    );
}

#[test]
fn a_full_map_names_its_key() {
    let mut names = NameSupply::new();
    let m = Type::full_map_of(Type::UIntRange(4), base_int(), &mut names);
    let Type::Fun { name: Some(k), fun_kind: FunKind::Data(None), domain, codomain } = &m else {
        panic!("expected a named data function");
    };
    assert_eq!(k.base(), "__map_k");
    assert_eq!(**domain, Type::UIntRange(4));
    assert_eq!(**codomain, base_int());
}

#[test]
fn components_can_be_walked_and_replaced() {
    let mut pair = Type::Tuple(vec![base_int(), Type::UIntRange(2)]);
    assert_eq!(pair.walk_children(), vec![&base_int(), &Type::UIntRange(2)]);
    assert_eq!(pair.fold_children(0, |n, _| n + 1), 2);
    pair.walk_children_mut(|_| Type::Txn);
    assert_eq!(pair, Type::Tuple(vec![Type::Txn, Type::Txn]));
}

#[test]
fn the_hash_of_a_set_does_not_tell_the_order() {
    let pred = |n: i64| {
        Refinement::born(Rc::new(Expr::binop(
            Expr::var(Name::elem()),
            BinOpKind::Compare(CompareKind::Greater),
            Expr::lit(Lit::Int(n)),
        )))
    };
    let mut a = RefinementSet::one(pred(1));
    a.insert(pred(2));
    let mut b = RefinementSet::one(pred(2));
    b.insert(pred(1));
    assert_eq!(a, b);
    let (pa, pb) = (a.hash_parts(), b.hash_parts());
    assert!(same_tokens(&pa[0], &pb[1]) && same_tokens(&pa[1], &pb[0]));
    assert!(!same_tokens(&pa[0], &pa[1]));
    assert_eq!(combine_hashes(&vec![3, 5]), combine_hashes(&vec![5, 3]));
    assert_eq!(combine_hashes(&vec![]), 0);
    assert_eq!(combine_hashes(&vec![u64::MAX, 2]), 1);
}

#[test]
fn a_reference_to_a_function_is_its_index() {
    let k = Name::raw("k");
    assert_eq!(Name::pi_bound(0, &k).to_text(), "k");
    assert_eq!(Name::pi_bound_bare(3).to_text(), "#3");
    assert_eq!(Name::pi_bound(0, &k), Name::pi_bound_bare(0));
    assert_ne!(Name::pi_bound(0, &k), Name::pi_bound(1, &k));
    assert_ne!(Name::pi_bound_bare(0), k);
}

#[test]
fn the_level_of_a_channel_does_not_tell_it_apart() {
    assert_eq!(ChanLevel(1), ChanLevel(2));
    assert!(!(ChanLevel(1) < ChanLevel(2)));
    assert_eq!(
        Type::ChanDom(Name::raw("c"), ChanLevel(1)),
        Type::ChanDom(Name::raw("c"), ChanLevel(2))
    );
}

#[test]
fn a_restricted_type_reads_the_same_in_any_order() {
    let r = |n: &str| Refinement::born(Rc::new(Expr::var(Name::raw(n))));
    let pq = Type::refined(base_int(), RefinementSet::from_iter(vec![r("p"), r("q")]));
    let qp = Type::refined(base_int(), RefinementSet::from_iter(vec![r("q"), r("p")]));
    assert_eq!(text(&pq), "{Int | p, q}");
    assert_eq!(text(&qp), "{Int | p, q}");
}

#[test]
fn a_union_holds_either_and_an_intersection_both() {
    let r = |n: &str| Refinement::born(Rc::new(Expr::var(Name::raw(n))));
    let ab = RefinementSet::from_iter(vec![r("a"), r("b")]);
    let bc = RefinementSet::from_iter(vec![r("b"), r("c")]);
    let all = ab.clone().union(&bc);
    assert_eq!(all.len(), 3);
    assert_eq!(all, bc.clone().union(&ab));
    assert_eq!(ab.clone().union(&ab), ab);
    assert_eq!(ab.intersect(&bc), RefinementSet::one(r("b")));
    assert_eq!(bc.intersect(&ab), RefinementSet::one(r("b")));
}

#[test]
fn functions_compare_without_the_names_of_their_arguments() {
    let named = |name: Option<Name>, fun_kind: FunKind| Type::Fun {
        name,
        fun_kind,
        domain: Box::new(base_int()),
        codomain: Box::new(Type::Base(BaseType::Bool)),
    };
    let a = named(Some(Name::raw("x")), FunKind::Data(None));
    let b = named(None, FunKind::Compute);
    assert_ne!(a, b);
    assert_eq!(a.without_pi_names(), b.without_pi_names());
    assert_eq!(a.without_pi_names(), b);
}

#[test]
fn a_rewrite_that_fails_leaves_the_rest_and_a_set() {
    let r = |n: &str| Refinement::born(Rc::new(Expr::var(Name::raw(n))));
    let mut set = RefinementSet::from_iter(vec![r("a"), r("b"), r("c")]);
    let outcome = set.try_rewrite_each(|i, _| if i < 1 { Ok(r("c")) } else { Err(i) });
    assert_eq!(outcome, Err(1));
    assert_eq!(set.into_iter(), vec![r("c"), r("b")]);
}

#[test]
fn a_template_makes_a_restriction_of_its_operands() {
    let args = vec![Expr::var(Name::raw("a")), Expr::var(Name::raw("b"))];
    let made = Refinement::born_from_template(
        |xs| {
            Expr::binop(
                xs[0].clone(),
                BinOpKind::Compare(CompareKind::Less),
                xs[1].clone(),
            )
        },
        &args,
    );
    assert_eq!(shown(&made.predicate), "a < b");
}

#[test]
fn statements_in_a_restriction_compare_like_terms() {
    let statements = |n: &str| {
        let b = Name::raw(n);
        vec![
            Expr::begin(Expr::mut_write(Name::raw("cell"), Expr::lit(Lit::Int(1)))),
            Expr::expr_stmt(
                Expr::feed(Name::raw("out"), Expr::lit(Lit::Int(1))),
                Expr::lit(Lit::Unit),
            ),
            Expr::mut_decl(
                b.clone(),
                base_int(),
                Expr::lit(Lit::Int(0)),
                greater_than_one(&b),
            ),
            Expr::letrec(
                vec![(TypedBinding::new_unannotated(b.clone()), greater_than_one(&b))],
                greater_than_one(&b),
            ),
        ]
    };
    let mut set = RefinementSet::new();
    for (p, q) in statements("a").into_iter().zip(statements("b")) {
        assert_same_restriction(&p, &p);
        assert_same_restriction(&p, &q);
        assert!(set.insert(Refinement::born(Rc::new(p.clone()))));
        assert!(
            !set.insert(Refinement::born(Rc::new(q))),
            "what is there is found"
        );
        assert!(set.contains(&Refinement::born(Rc::new(p))));
    }
    assert_eq!(set.len(), 4);
    assert!(!eq_refinement_predicate(
        &Expr::mut_write(Name::raw("cell"), Expr::lit(Lit::Int(1))),
        &Expr::mut_write(Name::raw("other"), Expr::lit(Lit::Int(1))),
    ));
}

#[test]
fn conjunction_is_commutative_idempotent_and_associative() {
    let r = |n: &str| RefinementSet::one(Refinement::born(Rc::new(Expr::var(Name::raw(n)))));
    let join = |s: &RefinementSet, t: &RefinementSet| s.clone().union(t);
    let (a, b, c) = (r("a"), r("b"), r("c"));
    assert!(join(&a, &b).same(&join(&b, &a)));
    assert!(join(&a, &a).same(&a));
    assert!(join(&join(&a, &b), &c).same(&join(&a, &join(&b, &c))));
    let (ab, bc) = (join(&a, &b), join(&b, &c));
    assert!(ab.intersect(&bc).same(&b));
    assert!(bc.intersect(&ab).same(&b));
}

#[test]
fn restrictions_over_casts_join_and_meet_in_any_order() {
    let filter = |n: i64| {
        Refinement::born(Rc::new(Expr::binop(
            Expr::var(Name::elem()),
            BinOpKind::Compare(CompareKind::Greater),
            Expr::lit(Lit::Int(n)),
        )))
    };
    let casting = |filters: Vec<Refinement>| {
        Refinement::born(Rc::new(Expr::cast(
            Expr::var(Name::elem()),
            Type::fun(
                Type::Refinement(Box::new(base_int()), RefinementSet::from_iter(filters)),
                base_int(),
            ),
        )))
    };
    let up = casting(vec![filter(1), filter(2)]);
    let down = casting(vec![filter(2), filter(1)]);
    let fewer = casting(vec![filter(1)]);
    assert_eq!(up, down, "the filters of a cast are a set");
    assert_eq!(down, up);
    assert_ne!(up, fewer);
    assert_ne!(fewer, up);
    let a = RefinementSet::from_iter(vec![up.clone(), fewer.clone()]);
    let b = RefinementSet::from_iter(vec![down.clone(), filter(3)]);
    let both = a.clone().union(&b);
    assert_eq!(both.len(), 3);
    assert_eq!(both, b.clone().union(&a));
    assert_eq!(a.intersect(&b), RefinementSet::one(up));
    assert_eq!(b.intersect(&a), RefinementSet::one(down));
}
