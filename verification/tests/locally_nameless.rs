use std::rc::Rc;

use ccl::ast::{BaseType, Expr, FunKind, Lit, Refinement, Type, TypedExprNode};
use ccl::free_names::{codomain_depends_on, type_free_vars};
use ccl::name::{Name, NameSupply};
use ccl::pi::{
    Mapping, close_pi_binder, may_open, open_codomain, open_pi_binder,
    references_enclosing_function,
};
use ccl::refinement_set::RefinementSet;
use ccl::stored::{RefinementScope, name_spelled_stored_binders};

fn int_ty() -> Type {
    Type::Base(BaseType::Int)
}

fn refined(pred: Expr) -> Type {
    Type::Refinement(
        Box::new(int_ty()),
        RefinementSet::one(Refinement::born(Rc::new(pred))),
    )
}

fn predicate_of(ty: &Type) -> &Expr {
    match ty {
        Type::Refinement(_, set) => &set.sole().expect("one refinement").predicate,
        _ => panic!("expected a refinement"),
    }
}

fn is_pi_bound(e: &Expr, k: u32) -> bool {
    matches!(&e.node, TypedExprNode::Var(n) if n.pi_bound_index() == Some(k))
}

#[test]
fn closing_counts_codomain_crossings_only() {
    let mut names = NameSupply::new();
    let k = names.fresh("k");
    let inner = Type::pi(
        names.fresh("i"),
        refined(Expr::var(k.clone())),
        refined(Expr::var(k.clone())),
    );
    let closed = close_pi_binder(&k, &inner);
    let Type::Fun { domain, codomain, .. } = &closed else {
        panic!("closing preserves the function");
    };
    assert!(is_pi_bound(predicate_of(domain), 0));
    assert!(is_pi_bound(predicate_of(codomain), 1));
}

#[test]
fn closing_is_alpha_canonical() {
    let mut names = NameSupply::new();
    let k = names.fresh("k");
    let y = names.fresh("y");
    let mut shape = |binder: &Name| {
        Type::pi(names.fresh("i"), refined(Expr::var(binder.clone())), int_ty())
    };
    assert_eq!(
        close_pi_binder(&k, &shape(&k)).without_pi_names(),
        close_pi_binder(&y, &shape(&y)).without_pi_names()
    );
}

#[test]
fn closing_leaves_other_free_names_alone() {
    let mut names = NameSupply::new();
    let k = names.fresh("k");
    let other = names.fresh("outer");
    let ty = refined(Expr::var(other.clone()));
    assert_eq!(close_pi_binder(&k, &ty), ty);
    assert!(type_free_vars(&close_pi_binder(&k, &ty)).contains(&other));
}

#[test]
fn opening_inverts_closing() {
    let mut names = NameSupply::new();
    let k = names.fresh("k");
    let inner = Type::pi(
        names.fresh("i"),
        refined(Expr::var(k.clone())),
        refined(Expr::var(k.clone())),
    );
    let closed = close_pi_binder(&k, &inner);
    assert_eq!(open_pi_binder(&Mapping::Rename(k.clone()), &closed), inner);

    let applied = open_pi_binder(
        &Mapping::Discharge(Box::new(Expr::lit(Lit::Int(5)))),
        &closed,
    );
    let Type::Fun { domain, .. } = &applied else {
        panic!("opening preserves the function");
    };
    assert!(
        matches!(&predicate_of(domain).node, TypedExprNode::Lit(Lit::Int(5))),
        "the reference is replaced with the argument term"
    );
}

#[test]
fn nested_constructions_compose() {
    let mut names = NameSupply::new();
    let k = names.fresh("k");
    let i = names.fresh("i");
    let inner_closed = Type::pi(
        i.clone(),
        int_ty(),
        close_pi_binder(&i, &refined(Expr::var(i.clone()))),
    );
    let cod = Type::Tuple(vec![inner_closed, refined(Expr::var(k.clone()))]);
    let closed = close_pi_binder(&k, &cod);
    let Type::Tuple(ts) = &closed else {
        panic!("closing preserves the tuple");
    };
    let Type::Fun { codomain, .. } = &ts[0] else {
        panic!("closing preserves the function");
    };
    assert!(
        is_pi_bound(predicate_of(codomain), 0),
        "the inner function's own index is untouched by the outer close"
    );
    assert!(is_pi_bound(predicate_of(&ts[1]), 0));
}

#[test]
fn closing_preserves_predicate_sharing() {
    let mut names = NameSupply::new();
    let k = names.fresh("k");
    let shared = Rc::new(Expr::var(k.clone()));
    let untouched = Rc::new(Expr::lit(Lit::Int(1)));
    let slot = |r: &Rc<Expr>| {
        Type::Refinement(
            Box::new(int_ty()),
            RefinementSet::one(Refinement::sharing(r)),
        )
    };
    let ty = Type::Tuple(vec![slot(&shared), slot(&shared), slot(&untouched)]);
    let closed = close_pi_binder(&k, &ty);
    let Type::Tuple(ts) = &closed else {
        panic!("closing preserves the tuple");
    };
    let pred_rc = |t: &Type| {
        let Type::Refinement(_, set) = t else {
            panic!("expected refinement");
        };
        Rc::clone(&set.sole().expect("one refinement").predicate)
    };
    assert!(
        Rc::ptr_eq(&pred_rc(&ts[0]), &pred_rc(&ts[1])),
        "rewritten occurrences re-share one term",
    );
    assert!(!Rc::ptr_eq(&pred_rc(&ts[0]), &shared));
    assert!(
        Rc::ptr_eq(&pred_rc(&ts[2]), &untouched),
        "an untouched predicate keeps its term",
    );
}

#[test]
fn closing_stops_at_a_shadowing_term_binder() {
    let mut names = NameSupply::new();
    let k = names.fresh("k");
    let shadowing = refined(Expr::lambda(k.clone(), int_ty(), Expr::var(k.clone())));
    assert_eq!(close_pi_binder(&k, &shadowing), shadowing);
    let both = Type::Tuple(vec![shadowing, refined(Expr::var(k.clone()))]);
    let Type::Tuple(ts) = close_pi_binder(&k, &both) else {
        panic!("closing preserves the tuple");
    };
    assert!(is_pi_bound(predicate_of(&ts[1]), 0));
}

#[test]
fn the_dependence_test_is_per_position_not_per_predicate() {
    let slot = || refined(Expr::var(Name::pi_bound_bare(0)));
    let under = Type::fun(int_ty(), slot());
    assert!(!references_enclosing_function(&under));
    assert!(references_enclosing_function(&Type::Tuple(vec![under, slot()])));
}

#[test]
fn only_field_wise_functions_store_a_name() {
    let k = Name::raw("k");
    let made = Type::pi(k.clone(), int_ty(), refined(Expr::var(k.clone())));
    assert!(name_spelled_stored_binders(&made).is_empty());
    let field_wise = Type::Fun {
        name: Some(k.clone()),
        fun_kind: ccl::ast::FunKind::Compute,
        domain: Box::new(int_ty()),
        codomain: Box::new(refined(Expr::var(k.clone()))),
    };
    assert_eq!(name_spelled_stored_binders(&field_wise), vec![k.clone()]);
    let nested = Type::Tuple(vec![int_ty(), field_wise]);
    assert_eq!(name_spelled_stored_binders(&nested), vec![k]);
}

#[test]
fn a_scope_closes_what_it_entered() {
    let outer = Name::raw("outer");
    let inner = Name::raw("inner");
    let mut scope = RefinementScope::new();
    scope.enter(Some(outer.clone()));
    scope.enter(None);
    scope.enter(Some(inner.clone()));
    let close = |s: &RefinementScope, n: &Name| {
        s.close(&Refinement::born(Rc::new(Expr::var(n.clone())))).predicate
    };
    assert!(is_pi_bound(&close(&scope, &inner), 0));
    assert!(is_pi_bound(&close(&scope, &outer), 2));
    scope.exit();
    assert_eq!(scope.enclosing().len(), 2);
    assert!(is_pi_bound(&close(&scope, &outer), 1));
    assert_eq!(*close(&scope, &inner), Expr::var(inner));
}

#[test]
fn closing_a_closed_type_changes_nothing() {
    let k = Name::raw("k");
    let open = refined(Expr::var(k.clone()));
    let closed = close_pi_binder(&k, &open);
    assert_eq!(close_pi_binder(&k, &closed), closed);
    assert_ne!(closed, open);
}

#[test]
fn a_codomain_opens_at_the_name_of_its_function() {
    let x = Name::raw("x");
    let stored = close_pi_binder(&x, &refined(Expr::var(x.clone())));
    let morphism = |name: Option<Name>| Type::Fun {
        name,
        fun_kind: FunKind::Compute,
        domain: Box::new(int_ty()),
        codomain: Box::new(stored.clone()),
    };
    let y = Name::raw("y");
    let opened = open_codomain(&morphism(Some(y.clone())), &stored);
    assert_eq!(opened, refined(Expr::var(y.clone())));
    assert_eq!(open_codomain(&morphism(None), &stored), stored);
    assert_eq!(open_codomain(&int_ty(), &stored), stored);

    assert!(codomain_depends_on(&x, &stored));
    assert!(codomain_depends_on(&y, &opened));
    assert!(!codomain_depends_on(&x, &opened));
    assert!(!codomain_depends_on(&x, &int_ty()));
}

#[test]
fn opening_leaves_a_set() {
    let x = Name::raw("x");
    let by_index = Refinement::born(Rc::new(Expr::var(Name::pi_bound_bare(0))));
    let by_name = Refinement::born(Rc::new(Expr::var(x.clone())));
    let stored = Type::Refinement(
        Box::new(int_ty()),
        RefinementSet::from_iter(vec![by_index, by_name.clone()]),
    );
    let opened = open_pi_binder(&Mapping::Rename(x), &stored);
    let Type::Refinement(_, set) = &opened else {
        panic!("opening preserves the refinement");
    };
    assert!(set.same(&RefinementSet::one(by_name)), "the two are one restriction now");
    let elsewhere = open_pi_binder(&Mapping::Rename(Name::raw("y")), &stored);
    let Type::Refinement(_, set) = &elsewhere else {
        panic!("opening preserves the refinement");
    };
    assert_eq!(set.len(), 2, "a new name keeps them apart");
}

#[test]
fn a_typed_reference_is_opened_at_typed_terms_only() {
    let x = Name::raw("x");
    let typed = close_pi_binder(&x, &refined(Expr::var(x.clone()).with_ty(int_ty())));
    let untyped = close_pi_binder(&x, &refined(Expr::var(x.clone())));
    let five = || Expr::lit(Lit::Int(5));
    let bare = Mapping::Discharge(Box::new(Expr::var(Name::raw("y"))));
    assert!(!may_open(&bare, &typed), "it would lose its type");
    assert!(may_open(&bare, &untyped));
    assert!(may_open(&Mapping::Discharge(Box::new(five().with_ty(int_ty()))), &typed));
    assert!(may_open(&Mapping::Rename(Name::raw("y")), &typed));
    let under = Type::pi(Name::raw("i"), int_ty(), int_ty());
    assert!(may_open(&bare, &under), "nothing refers outward");
    let Type::Fun { name, fun_kind, domain, .. } = under else {
        panic!("a function");
    };
    let deep = Type::Fun {
        name,
        fun_kind,
        domain,
        codomain: Box::new(refined(Expr::var(Name::pi_bound_bare(1)).with_ty(int_ty()))),
    };
    assert!(!may_open(&bare, &deep), "the reference crosses one function");
}

#[test]
fn opening_gives_a_closed_set_of_restrictions_back() {
    let x = Name::raw("x");
    let set = RefinementSet::from_iter(vec![
        Refinement::born(Rc::new(Expr::var(x.clone()).with_ty(int_ty()))),
        Refinement::born(Rc::new(Expr::var(Name::raw("y")))),
    ]);
    let t = Type::pi(
        Name::raw("i"),
        Type::Refinement(Box::new(int_ty()), set),
        refined(Expr::var(x.clone())),
    );
    let closed = close_pi_binder(&x, &t);
    assert!(type_free_vars(&t).contains(&x));
    assert!(!type_free_vars(&closed).contains(&x));
    assert_eq!(open_pi_binder(&Mapping::Rename(x), &closed), t);
}
