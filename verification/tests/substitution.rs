use std::rc::Rc;

use ccl::ast::{
    BaseType, BinOpKind, CompareKind, Expr, FunKind, Lit, Refinement, Type, TypedBinding,
    TypedExprNode,
};
use ccl::free_names::{free_names_in_value, scope_gaps};
use ccl::kind::KindVars;
use ccl::name::{Name, NameSupply};
use ccl::name_map::NameMap;
use ccl::refinement_set::RefinementSet;
use ccl::scope::is_free;
use ccl::substitution::Subst;

fn raw(s: &str) -> Name {
    Name::raw(s)
}

fn var(s: &str) -> Expr {
    Expr::var(raw(s))
}

fn num(n: i64) -> Expr {
    Expr::lit(Lit::Int(n))
}

fn gt(l: Expr, r: Expr) -> Expr {
    Expr::binop(l, BinOpKind::Compare(CompareKind::Greater), r)
}

fn refined(base: Type, pred: Expr) -> Type {
    Type::Refinement(
        Box::new(base),
        RefinementSet::one(Refinement::born(Rc::new(pred))),
    )
}

fn sole_predicate(ty: &Type) -> &Rc<Expr> {
    match ty {
        Type::Refinement(_, set) => &set.sole().expect("one refinement").predicate,
        _ => panic!("expected a refinement"),
    }
}

#[test]
fn scenario_a_laws() {
    let sigma = Subst::rename(raw("k"), raw("x"));
    assert!(Subst::then(&Subst::id(), &sigma).same(&sigma));
    assert!(Subst::then(&sigma, &Subst::id()).same(&sigma));

    let a = Subst::rename(raw("k"), raw("x"));
    let b = Subst::rename(raw("x"), raw("z"));
    let c = Subst::discharge(raw("z"), num(5));
    let abc = Subst::then(&Subst::then(&a, &b), &c);
    let abc2 = Subst::then(&a, &Subst::then(&b, &c));
    assert!(abc.same(&abc2));
    assert_eq!(abc.apply_expr(&var("k")), num(5));
}

#[test]
fn identity_is_noop() {
    let mut vars = KindVars::new();
    let id = Subst::id();
    let exprs = [var("k"), num(3), gt(var("y"), var("k"))];
    for e in &exprs {
        assert_eq!(&id.apply_expr(e), e);
    }
    let tys = [
        Type::fun(Type::infer(0, &mut vars), Type::infer(1, &mut vars)),
        Type::pi(raw("k"), Type::infer(2, &mut vars), Type::infer(3, &mut vars)),
    ];
    for t in &tys {
        assert_eq!(&id.apply_type(t), t);
    }
}

#[test]
fn scenario_b_invert() {
    let sigma = Subst::rename(raw("k"), raw("x"));
    let sinv = sigma.invert().expect("rename invertible");
    assert!(sinv.same(&Subst::rename(raw("x"), raw("k"))));
    let pred = gt(var("y"), var("k"));
    let there = sigma.apply_expr(&pred);
    assert_eq!(sinv.apply_expr(&there), pred);
}

#[test]
fn scenario_e_discharge_not_invertible() {
    let dis = Subst::discharge(raw("x"), num(5));
    assert!(dis.invert().is_none());
    let sigma = Subst::rename(raw("k"), raw("x"));
    assert!(Subst::then(&sigma, &dis).invert().is_none());
}

#[test]
fn a_renaming_of_two_names_to_one_has_no_inverse() {
    let both = Subst::rename(raw("k"), raw("x")).extended_rename(raw("j"), raw("x"));
    assert!(both.invert().is_none());
}

#[test]
fn type_slot_occurrence_is_discharged() {
    let slot_ref = Refinement::born(Rc::new(gt(var("k"), num(0))));
    let e = var("y").with_ty(Type::Refinement(
        Box::new(Type::Hole),
        RefinementSet::one(slot_ref.clone()),
    ));
    let dis = Subst::discharge(raw("k"), num(5));

    let out = dis.apply_expr(&e);
    assert_eq!(
        **sole_predicate(&out.ty),
        gt(num(5), num(0)),
        "the type-slot occurrence is discharged"
    );
    assert!(
        !Rc::ptr_eq(sole_predicate(&out.ty), &slot_ref.predicate),
        "a changed predicate is a term of its own"
    );
    assert_eq!(*slot_ref.predicate, gt(var("k"), num(0)));

    let outer = Refinement::born(Rc::new(e.clone()));
    let forced = dis.force_refinement(&outer);
    assert!(!Rc::ptr_eq(&forced.predicate, &outer.predicate));
    assert_eq!(**sole_predicate(&forced.predicate.ty), gt(num(5), num(0)));

    let vac = Subst::discharge(raw("unrelated"), num(7));
    let kept = vac.force_refinement(&outer);
    assert!(
        Rc::ptr_eq(&kept.predicate, &outer.predicate),
        "what acts on nothing shares the predicate"
    );
}

#[test]
fn scenario_d_compose_equals_apply() {
    let pred = gt(var("y"), var("k"));
    let rename = Subst::rename(raw("k"), raw("x"));
    let renamed = rename.apply_expr(&pred);
    assert_eq!(renamed, gt(var("y"), var("x")));
    let dis = Subst::discharge(raw("x"), num(5));
    let eager = dis.apply_expr(&renamed);
    let composed = Subst::then(&rename, &dis).apply_expr(&pred);
    assert_eq!(eager, gt(var("y"), num(5)));
    assert_eq!(eager, composed);
}

#[test]
fn scenario_f_context_check() {
    let mut vars = KindVars::new();
    let pred = Expr::lambda(raw("y"), Type::Hole, gt(var("y"), var("k")));
    let bad = refined(Type::infer(0, &mut vars), pred);
    assert!(!scope_gaps(&bad, &vec![raw("x")]).is_empty());
    assert!(scope_gaps(&bad, &vec![raw("k")]).is_empty());
}

#[test]
#[should_panic(expected = "Barendregt violation")]
fn scenario_g_capture_panics() {
    let lam = Expr::lambda(raw("x"), Type::Hole, gt(var("x"), var("k")));
    let s = Subst::rename(raw("k"), raw("x"));
    assert!(s.may_act(false, &lam), "Barendregt violation");
    let _ = s.apply_expr(&lam);
}

#[test]
fn a_substitution_that_captures_nothing_may_act() {
    let lam = Expr::lambda(raw("y"), Type::Hole, gt(var("y"), var("k")));
    let s = Subst::rename(raw("k"), raw("x"));
    assert!(s.may_act(false, &lam));
    assert!(s.may_act(true, &lam));
    assert_eq!(
        s.apply_expr(&lam),
        Expr::lambda(raw("y"), Type::Hole, gt(var("y"), var("x")))
    );
}

#[test]
fn rename_preserves_the_occurrence_type() {
    let mut occurrence = var("k");
    occurrence.ty = Type::Base(BaseType::Int);
    let out = Subst::rename(raw("k"), raw("j")).apply_expr(&occurrence);
    assert!(matches!(&out.node, TypedExprNode::Var(n) if *n == raw("j")));
    assert_eq!(
        out.ty,
        Type::Base(BaseType::Int),
        "a renamed occurrence keeps its type"
    );
}

#[test]
fn apply_type_discharges_refinement_predicate() {
    let mut vars = KindVars::new();
    let ty = Type::fun(
        refined(Type::infer(0, &mut vars), gt(var("i"), var("k"))),
        Type::infer(1, &mut vars),
    );
    let out = Subst::discharge(raw("k"), num(5)).apply_type(&ty);
    let Type::Fun { domain, .. } = &out else {
        panic!("expected fun");
    };
    assert_eq!(**sole_predicate(domain), gt(var("i"), num(5)));
}

#[test]
fn apply_type_shadows_pi_binder() {
    let mut vars = KindVars::new();
    let mut arrow = |pred: Expr| {
        Type::fun(
            refined(Type::infer(0, &mut vars), pred),
            Type::infer(1, &mut vars),
        )
    };
    let ty = Type::pi(raw("k"), Type::Hole, arrow(gt(var("i"), var("k"))));
    let out = Subst::discharge(raw("k"), num(5)).apply_type(&ty);
    let Type::Fun { codomain, .. } = &out else {
        panic!()
    };
    let Type::Fun { domain, .. } = codomain.as_ref() else {
        panic!()
    };
    assert_eq!(
        **sole_predicate(domain),
        gt(var("i"), Expr::var(Name::pi_bound_bare(0)))
    );

    let ty = Type::Fun {
        name: Some(raw("k")),
        fun_kind: FunKind::Compute,
        domain: Box::new(Type::Hole),
        codomain: Box::new(arrow(gt(var("i"), var("k")))),
    };
    let out = Subst::discharge(raw("k"), num(5)).apply_type(&ty);
    let Type::Fun { codomain, .. } = &out else {
        panic!()
    };
    let Type::Fun { domain, .. } = codomain.as_ref() else {
        panic!()
    };
    assert_eq!(**sole_predicate(domain), gt(var("i"), var("k")));
}

#[test]
fn a_read_is_replaced_by_its_value() {
    let int_ty = Type::Base(BaseType::Int);
    let value = Expr::tuple(vec![var("x").with_ty(int_ty.clone()), var("y").with_ty(int_ty.clone())])
        .with_ty(Type::Tuple(vec![int_ty.clone(), int_ty.clone()]));
    let env = NameMap::new().inserted(raw("acc"), value.clone());
    let read = || var("acc").with_ty(int_ty.clone());
    let scaffold = Expr::tuple(vec![read(), read()])
        .with_ty(Type::Tuple(vec![int_ty.clone(), int_ty.clone()]));
    let out = Subst::discharge_env_in_place(scaffold, &env);
    let TypedExprNode::Tuple(replaced) = &out.node else {
        panic!("the tuple survives")
    };
    assert_eq!(replaced.len(), 2);
    assert_eq!(replaced[0], value);
    assert_eq!(replaced[1], value);
}

#[test]
fn a_compose_keeps_its_fun_kind_and_binder_across_a_discharge() {
    let int_ty = Type::Base(BaseType::Int);
    let arrow = Type::data_fun(int_ty.clone(), int_ty.clone());
    let mut compose = Expr::compose(vec![
        var("f").with_ty(arrow.clone()),
        var("g").with_ty(arrow.clone()),
    ]);
    compose.ty = Type::pi(raw("n"), int_ty.clone(), int_ty.clone());
    let env = NameMap::new().inserted(raw("f"), var("h").with_ty(arrow));

    let out = Subst::discharge_env_in_place(compose, &env);

    let Type::Fun { name: Some(name), fun_kind, .. } = &out.ty else {
        panic!("a composition over function elements types as a function")
    };
    assert_eq!(name.base(), "n");
    assert!(matches!(fun_kind, FunKind::Compute));
}

#[test]
fn a_data_compose_is_not_downgraded_to_a_compute_arrow() {
    let int_ty = Type::Base(BaseType::Int);
    let arrow = Type::data_fun(int_ty.clone(), int_ty.clone());
    let mut compose = Expr::compose(vec![
        var("f").with_ty(arrow.clone()),
        var("g").with_ty(arrow.clone()),
    ]);
    compose.ty = arrow.clone();
    let env = NameMap::new().inserted(raw("f"), var("h").with_ty(arrow));

    let out = Subst::discharge_env_in_place(compose, &env);

    assert!(matches!(&out.ty, Type::Fun { fun_kind: FunKind::Data(_), .. }));
}

#[test]
fn rewrite_rebuilds_and_repoints_shared_predicates() {
    let shared = Rc::new(gt(var("k"), num(0)));
    let slot = || {
        Type::Refinement(
            Box::new(Type::Hole),
            RefinementSet::one(Refinement::sharing(&shared)),
        )
    };
    let (dom, cod) = (slot(), slot());
    let mut e = var("y").with_ty(Type::fun(dom, cod));

    Subst::discharge(raw("k"), num(5)).rewrite_expr(&mut e);

    let Type::Fun { domain, codomain, .. } = &e.ty else {
        panic!("function type preserved");
    };
    assert_eq!(
        **sole_predicate(domain),
        gt(num(5), num(0)),
        "the predicate is rebuilt with the discharge applied"
    );
    assert!(
        !Rc::ptr_eq(sole_predicate(domain), &shared),
        "a rewritten predicate is a term of its own"
    );
    assert!(
        Rc::ptr_eq(sole_predicate(domain), sole_predicate(codomain)),
        "both occurrences of one term come out as one term"
    );
}

#[test]
fn rewrite_respects_shadowing_copies() {
    let mut names = NameSupply::new();
    let a = names.fresh("a");
    let inner = Expr::lambda(a.clone(), Type::Hole, gt(var("x"), num(0)));
    let mut e = Expr::apply(
        Expr::var(a.clone()),
        Expr::lambda(raw("w"), Type::Hole, inner),
    );
    Subst::discharge(a.clone(), num(3)).rewrite_expr(&mut e);
    let TypedExprNode::Apply { function, argument } = &e.node else {
        panic!("apply preserved");
    };
    assert!(matches!(&argument.node, TypedExprNode::Lit(Lit::Int(3))));
    let TypedExprNode::Lambda { body, .. } = &function.node else {
        panic!("outer lambda preserved");
    };
    let TypedExprNode::Lambda { param, .. } = &body.node else {
        panic!("inner lambda preserved");
    };
    assert_eq!(param.name, a, "the copied binding site is untouched");
    assert!(!is_free(&a, &e), "no free occurrence survives");
}

#[test]
fn rewrite_respects_letrec_group_shadowing() {
    let mut names = NameSupply::new();
    let x = names.fresh("x");
    let letrec = Expr::letrec(
        vec![
            (
                TypedBinding::new_unannotated(x.clone()),
                gt(Expr::var(x.clone()), num(1)),
            ),
            (
                TypedBinding::new_unannotated(names.fresh("y")),
                Expr::var(x.clone()),
            ),
        ],
        Expr::var(x.clone()),
    );
    let mut shadowed = letrec.clone();
    Subst::discharge(x.clone(), num(3)).rewrite_expr(&mut shadowed);
    assert_eq!(
        shadowed, letrec,
        "a group binder matching the discharged name blocks the substitution throughout"
    );

    let z = names.fresh("z");
    let mut open = Expr::letrec(
        vec![(
            TypedBinding::new_unannotated(z),
            gt(Expr::var(x.clone()), num(0)),
        )],
        Expr::var(x.clone()),
    );
    Subst::discharge(x.clone(), num(3)).rewrite_expr(&mut open);
    assert!(!is_free(&x, &open), "free occurrences are discharged");
}

#[test]
fn rewrite_renames_feed_handles() {
    let mut e = Expr::feed(raw("d"), var("d"));
    Subst::rename(raw("d"), raw("q")).rewrite_expr(&mut e);
    let TypedExprNode::Feed { name, value } = &e.node else {
        panic!("feed preserved");
    };
    assert_eq!(name, &raw("q"));
    assert!(matches!(&value.node, TypedExprNode::Var(n) if *n == raw("q")));

    let mut stale = Expr::feed(raw("d"), num(1));
    Subst::discharge(raw("d"), num(2)).rewrite_expr(&mut stale);
    let TypedExprNode::Feed { name, .. } = &stale.node else {
        panic!("feed preserved");
    };
    assert_eq!(name, &raw("d"), "a non-variable discharge keeps the handle");
}

#[test]
#[should_panic(expected = "Barendregt violation")]
fn a_binder_crossing_is_checked_even_when_the_body_is_inert() {
    let mut e = Expr::new(TypedExprNode::For {
        target: TypedBinding::new_unannotated(raw("y")),
        iter: Box::new(var("x")),
        body: Box::new(num(1)),
    });
    let s = Subst::discharge(raw("x"), var("y"));
    assert!(s.may_act(true, &e), "Barendregt violation");
    s.rewrite_expr(&mut e);
}

#[test]
fn a_rename_retargets_every_varref_the_scoped_walk_surfaces() {
    let handle_nodes = [
        Expr::new(TypedExprNode::Feed { name: raw("h"), value: Box::new(num(1)) }),
        Expr::new(TypedExprNode::Define { name: raw("h"), value: Box::new(num(1)) }),
        Expr::new(TypedExprNode::MutWrite { name: raw("h"), value: Box::new(num(1)) }),
        var("h"),
    ];
    for original in handle_nodes {
        let before = free_names_in_value(&original);
        assert!(before.contains(&raw("h")), "the node surfaces `h`");

        let mut renamed = original.clone();
        Subst::rename(raw("h"), raw("h2")).rewrite_expr(&mut renamed);

        assert!(
            !free_names_in_value(&renamed).contains(&raw("h")),
            "a rename left an occurrence of `h` behind"
        );
    }
}

#[test]
fn composing_drops_what_comes_back_to_itself() {
    let there = Subst::rename(raw("k"), raw("x"));
    let back = Subst::rename(raw("x"), raw("k"));
    let both = Subst::then(&there, &back);
    assert_eq!(both.apply_expr(&var("k")), var("k"));
    assert_eq!(both.apply_expr(&var("x")), var("k"));
}

#[test]
fn a_replaced_name_is_free_no_more() {
    let sigma = Subst::discharge(raw("x"), gt(var("y"), var("z")));
    let out = sigma.apply_expr(&gt(var("x"), var("w")));
    assert_eq!(out, gt(gt(var("y"), var("z")), var("w")));
    assert_eq!(
        free_names_in_value(&out),
        vec![raw("w"), raw("y"), raw("z")]
    );
    assert!(!is_free(&raw("x"), &out));
}

#[test]
fn what_is_put_in_under_a_binder_stays_free() {
    let int_ty = Type::Base(BaseType::Int);
    let mut e = Expr::lambda(raw("p"), int_ty, gt(var("p"), var("x")));
    Subst::discharge(raw("x"), var("y")).rewrite_expr(&mut e);
    assert!(is_free(&raw("y"), &e));
    assert!(!is_free(&raw("x"), &e) && !is_free(&raw("p"), &e));
}

#[test]
fn a_typed_term_stays_typed() {
    let int_ty = || Type::Base(BaseType::Int);
    let e = gt(var("x").with_ty(int_ty()), num(1).with_ty(int_ty()))
        .with_ty(Type::Base(BaseType::Bool));
    let renamed = Subst::rename(raw("x"), raw("y")).apply_expr(&e);
    assert_eq!(
        renamed,
        gt(var("y").with_ty(int_ty()), num(1).with_ty(int_ty()))
            .with_ty(Type::Base(BaseType::Bool))
    );
    let plugged = Subst::discharge(raw("x"), num(4).with_ty(int_ty())).apply_expr(&e);
    assert_eq!(plugged.children()[0].ty, int_ty());
}

#[test]
fn the_parts_of_a_split_act_on_other_names() {
    let sigma = Subst::rename(raw("a"), raw("b")).with(
        raw("c"),
        ccl::pi::Mapping::Discharge(Box::new(num(3))),
    );
    let (renames, terms) = sigma.split_renames();
    assert!(renames.same(&Subst::rename(raw("a"), raw("b"))));
    assert!(terms.same(&Subst::discharge(raw("c"), num(3))));
}

#[test]
fn a_term_is_put_in_in_place() {
    let mut e = gt(var("x"), var("y"));
    Subst::discharge_in_place(&mut e, &raw("x"), &num(3));
    assert_eq!(e, gt(num(3), var("y")));

    let mut ty = refined(Type::Base(BaseType::Int), gt(var("x"), num(0)));
    Subst::rename(raw("x"), raw("z")).rewrite_type(&mut ty);
    assert_eq!(**sole_predicate(&ty), gt(var("z"), num(0)));
}

#[test]
fn substitutions_compare_without_the_types_of_their_terms() {
    let plain = Subst::discharge(raw("x"), num(1));
    let typed = Subst::discharge(raw("x"), num(1).with_ty(Type::Base(BaseType::Bool)));
    assert!(plain.eq_modulo_ty_slots(&typed));
    assert!(!plain.same(&typed));
    assert!(!plain.eq_modulo_ty_slots(&Subst::discharge(raw("x"), num(2))));
    assert!(!plain.eq_modulo_ty_slots(&Subst::discharge(raw("y"), num(1))));
}

#[test]
fn discharged_terms_can_be_rewritten() {
    let mut s = Subst::then(
        &Subst::discharge(raw("x"), num(1)),
        &Subst::rename(raw("y"), raw("z")),
    );
    s.for_each_discharge_term_mut(|t| gt(t.clone(), num(0)));
    assert_eq!(s.apply_expr(&var("x")), gt(num(1), num(0)));
    assert_eq!(s.apply_expr(&var("y")), var("z"));
}

#[test]
fn a_discharged_variable_reads_as_a_renaming() {
    let s = Subst::discharge(raw("x"), var("z"));
    assert!(s.licensed_correspondence_view().same(&Subst::rename(raw("x"), raw("z"))));
    let t = Subst::discharge(raw("x"), num(1));
    assert!(t.licensed_correspondence_view().same(&t));
}

#[test]
fn a_declaration_hides_its_name_when_composed() {
    let declared = Expr::mut_decl(raw("n"), Type::Hole, var("m"), var("n"));
    let first = Subst::rename(raw("m"), raw("y"));
    let second = Subst::rename(raw("n"), raw("x"));
    assert!(first.may_act(false, &declared));
    let one_after_the_other = second.apply_expr(&first.apply_expr(&declared));
    let at_once = Subst::then(&first, &second).apply_expr(&declared);
    assert_eq!(one_after_the_other, at_once);
    assert_eq!(
        at_once,
        Expr::mut_decl(raw("n"), Type::Hole, var("y"), var("n")),
        "the declared name is the declaration's own"
    );
}

#[test]
fn a_recursive_group_captures_like_any_binder() {
    let group = |name: &str| {
        Expr::letrec(
            vec![(TypedBinding::new_unannotated(raw(name)), num(0))],
            var("k"),
        )
    };
    let s = Subst::rename(raw("k"), raw("x"));
    assert!(!s.may_act(false, &group("x")));
    assert!(!s.may_act(true, &group("x")));
    assert!(s.may_act(false, &group("z")));
    let untouched = Expr::letrec(
        vec![(TypedBinding::new_unannotated(raw("x")), num(0))],
        num(1),
    );
    assert!(s.may_act(false, &untouched), "nothing moves under the binder");
}

#[test]
fn a_discharged_name_leaves_the_types_too() {
    let k = raw("k");
    let slot = refined(Type::Hole, gt(var("k"), num(0)));
    let e = Expr::let_bind(
        raw("a"),
        var("y").with_ty(slot.clone()),
        var("k").with_ty(slot),
    );
    assert!(is_free(&k, &e));
    let mut out = e;
    Subst::discharge(k.clone(), num(5)).rewrite_expr(&mut out);
    assert!(!is_free(&k, &out));
}

#[test]
fn one_term_in_two_slots_stays_one_term() {
    let shared = Rc::new(gt(var("k"), num(0)));
    let slot = |p: &Rc<Expr>| {
        Type::Refinement(
            Box::new(Type::Hole),
            RefinementSet::one(Refinement::sharing(p)),
        )
    };
    let e = Expr::tuple(vec![
        var("a").with_ty(slot(&shared)),
        var("b").with_ty(slot(&shared)),
    ]);
    let copy = e.clone();
    let out = Subst::discharge(raw("k"), num(5)).apply_expr(&e);
    let (TypedExprNode::Tuple(was), TypedExprNode::Tuple(now)) = (&copy.node, &out.node) else {
        panic!("tuple preserved");
    };
    assert!(Rc::ptr_eq(sole_predicate(&was[0].ty), &shared), "a copy shares");
    assert!(Rc::ptr_eq(
        sole_predicate(&now[0].ty),
        sole_predicate(&now[1].ty)
    ));
    assert_eq!(**sole_predicate(&now[0].ty), gt(num(5), num(0)));
}

#[test]
fn a_substitution_leaves_a_set() {
    let both = RefinementSet::from_iter(vec![
        Refinement::born(Rc::new(gt(var("x"), num(0)))),
        Refinement::born(Rc::new(gt(var("y"), num(0)))),
    ]);
    assert_eq!(both.len(), 2);
    let ty = Type::Refinement(Box::new(Type::Hole), both);
    let onto_one = Subst::rename(raw("x"), raw("z")).extended_rename(raw("y"), raw("z"));
    assert_eq!(**sole_predicate(&onto_one.apply_type(&ty)), gt(var("z"), num(0)));
}

#[test]
fn a_discharged_handle_takes_the_name_of_a_reference() {
    let d = raw("d");
    let mut fed = Expr::feed(d.clone(), var("d"));
    Subst::discharge_in_place(&mut fed, &d, &var("q"));
    assert!(!is_free(&d, &fed));
    assert_eq!(fed, Expr::feed(raw("q"), var("q")));

    let mut kept = Expr::feed(d.clone(), var("d"));
    Subst::discharge_in_place(&mut kept, &d, &num(2));
    assert!(is_free(&d, &kept), "no number can take the place of a handle");

    let mut untouched = gt(var("x"), var("y"));
    Subst::discharge_in_place(&mut untouched, &d, &num(2));
    assert_eq!(untouched, gt(var("x"), var("y")));
}

#[test]
fn a_codomain_spelled_by_name_comes_out_of_a_composition() {
    let k = raw("k");
    let int_ty = Type::Base(BaseType::Int);
    let arrow = Type::fun(int_ty.clone(), int_ty.clone());
    let spelled = Type::Fun {
        name: Some(k.clone()),
        fun_kind: FunKind::Compute,
        domain: Box::new(int_ty.clone()),
        codomain: Box::new(refined(int_ty.clone(), gt(var("k"), num(0)))),
    };
    assert!(!is_free(&k, &var("g").with_ty(spelled.clone())));
    let mut e = Expr::compose(vec![
        var("k").with_ty(arrow.clone()),
        var("g").with_ty(spelled),
    ])
    .with_ty(arrow.clone());
    let h = var("h").with_ty(arrow);
    assert!(Subst::discharge(k.clone(), h.clone()).may_act(true, &e));
    Subst::discharge_in_place(&mut e, &k, &h);
    assert!(is_free(&k, &e), "the codomain no longer stands under its function");
}

#[test]
fn composing_untyped_substitutions_is_applying_them_in_turn() {
    let a = Subst::then(
        &Subst::rename(raw("k"), raw("x")),
        &Subst::discharge(raw("y"), gt(var("z"), num(1))),
    );
    let b = Subst::then(
        &Subst::discharge(raw("x"), num(7)),
        &Subst::rename(raw("z"), raw("w")),
    );
    let e = Expr::let_bind(raw("v"), gt(var("k"), var("y")), gt(var("v"), var("z")));
    assert!(a.may_act(false, &e));
    let in_turn = b.apply_expr(&a.apply_expr(&e));
    assert_eq!(Subst::then(&a, &b).apply_expr(&e), in_turn);
    assert_eq!(
        in_turn,
        Expr::let_bind(
            raw("v"),
            gt(num(7), gt(var("w"), num(1))),
            gt(var("v"), var("w"))
        )
    );
}

#[test]
fn a_handle_renamed_and_then_discharged_parts_a_composition_from_its_parts() {
    let a = Subst::rename(raw("d"), raw("q"));
    let b = Subst::discharge(raw("q"), num(2));
    let e = Expr::feed(raw("d"), num(1));
    assert_eq!(b.apply_expr(&a.apply_expr(&e)), Expr::feed(raw("q"), num(1)));
    assert_eq!(Subst::then(&a, &b).apply_expr(&e), e);
}

#[test]
fn substitutions_compose_where_nothing_is_captured() {
    let under = |binder: &str| {
        Subst::discharge(
            raw("f"),
            Expr::letrec(
                vec![(TypedBinding::new_unannotated(raw(binder)), num(0))],
                var("k"),
            ),
        )
    };
    let b = Subst::rename(raw("k"), raw("x"));
    assert!(Subst::may_compose(&under("z"), &b));
    assert!(!Subst::may_compose(&under("x"), &b), "the group would capture `x`");
    assert!(Subst::may_compose(&b, &under("x")));
}

#[test]
fn an_annotation_is_lost_on_the_way_and_kept_where_nothing_moves() {
    let mut e = var("k");
    e.user_annotation = Some(Type::Hole);
    let away = Subst::rename(raw("k"), raw("x"));
    let on = Subst::rename(raw("x"), raw("z"));
    assert_eq!(
        Subst::then(&away, &on).apply_expr(&e),
        on.apply_expr(&away.apply_expr(&e))
    );
    let back = Subst::rename(raw("x"), raw("k"));
    assert_eq!(back.apply_expr(&away.apply_expr(&e)), var("k"));
    assert_eq!(Subst::then(&away, &back).apply_expr(&e), e);
}
