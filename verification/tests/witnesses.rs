use std::rc::Rc;

use ccl::ast::{
    BaseType, Expr, FunKind, InferVar, Lit, Refinement, Type, TypeKind, Witness, WitnessBinderId,
    WitnessId,
};
use ccl::kind::{FunKindVar, KindVars};
use ccl::kind_dump::dump_kind_vars;
use ccl::kind_pin::KindPin;
use ccl::kind_vars::reset_fun_kind_var_counter;
use ccl::witness::{WitnessContext, free_witness_refs, mentions_witness};
use ccl::witness_walk::{WitnessRenaming, instantiate_witness};

fn range(n: usize) -> Type {
    Type::UIntRange(n)
}

fn int_ty() -> Type {
    Type::Base(BaseType::Int)
}

fn sum(kind: TypeKind, vars: &mut KindVars, body: impl FnOnce(&Witness) -> Type) -> Type {
    let witness = Witness::mint(kind, vars);
    let body = body(&witness);
    Type::sum_binding(witness, body)
}

#[test]
fn with_kind_keeps_the_witness() {
    let mut vars = KindVars::new();
    let w = Witness::mint(TypeKind::Enumerated(vec![range(2)]), &mut vars);
    let wider = Witness::with_id(*w.id(), TypeKind::Enumerated(vec![range(2), range(3)]));
    assert_eq!(*w.id(), *wider.id());
    assert!(w.same(&wider));
}

#[test]
fn map_types_keeps_the_witness() {
    let mut vars = KindVars::new();
    let w = Witness::mint(TypeKind::Enumerated(vec![range(2)]), &mut vars);
    let mapped = w.map_types(|_| range(9));
    assert_eq!(*w.id(), *mapped.id());
    assert!(mapped.type_kind().same(&TypeKind::Enumerated(vec![range(9)])));
}

#[test]
fn fresh_witnesses_at_one_kind_stay_distinct() {
    let mut vars = KindVars::new();
    let kind = || TypeKind::Enumerated(vec![range(2)]);
    let a = Witness::mint(kind(), &mut vars);
    let b = Witness::mint(kind(), &mut vars);
    assert_ne!(*a.id(), *b.id());
}

#[test]
fn alpha_convert_moves_the_body_with_the_binder() {
    let mut vars = KindVars::new();
    let sum = Type::sum_over(
        TypeKind::Enumerated(vec![range(2), range(3)]),
        None,
        int_ty(),
        &mut vars,
    );
    let converted = sum.alpha_convert_sum(&mut vars);
    let old = &sum.sum().expect("a sum")[0];
    let new = converted.sum().expect("a sum")[0].clone();
    assert_ne!(*old.id(), *new.id(), "a fresh binder");
    assert_eq!(
        converted.domain(),
        Some(Type::WitnessRef(*new.id())),
        "and the domain names it, not the old one"
    );
    assert!(
        old.type_kind().same(&new.type_kind()),
        "ranging over the same domains"
    );
    assert_eq!(
        sum.without_witness_binders(),
        converted.without_witness_binders(),
        "the two differ in their binders alone"
    );
}

#[test]
fn instantiating_a_sum_at_its_own_binder_opens_it() {
    let mut vars = KindVars::new();
    let whole = sum(TypeKind::Enumerated(vec![range(2)]), &mut vars, |w| {
        Type::data_fun(Type::WitnessRef(*w.id()), int_ty())
    });
    let binder = *whole.sum().expect("a sum")[0].id();
    assert_eq!(
        instantiate_witness(&whole, &binder, &range(2)),
        Type::data_fun(range(2), int_ty()),
        "the sum is opened at the candidate, not rebuilt around it"
    );
}

#[test]
fn an_arrow_body_instantiates_only_its_domain() {
    let mut vars = KindVars::new();
    let s = sum(TypeKind::UIntRanges, &mut vars, |w| {
        Type::data_fun(Type::WitnessRef(*w.id()), int_ty())
    });
    assert_eq!(s.instantiate_sum(&range(2)), Type::data_fun(range(2), int_ty()));
}

#[test]
fn both_spellings_are_witness_indexed() {
    let mut vars = KindVars::new();
    let closed = sum(TypeKind::UIntRanges, &mut vars, |w| {
        Type::data_fun(Type::WitnessRef(*w.id()), int_ty())
    });
    let open = Type::data_fun(closed.domain().expect("a sum is a function"), int_ty());
    assert!(closed.is_witness_indexed(), "the closed spelling");
    assert!(open.is_witness_indexed(), "the open spelling");
    assert!(!Type::data_fun(range(2), int_ty()).is_witness_indexed());
}

#[test]
fn a_restriction_does_not_hide_the_witness() {
    let mut vars = KindVars::new();
    let inner = sum(TypeKind::UIntRanges, &mut vars, |w| {
        Type::data_fun(Type::WitnessRef(*w.id()), int_ty())
    });
    let refined = Type::refined_one(
        inner,
        Refinement::born(Rc::new(
            Expr::lit(Lit::Bool(true)).with_ty(Type::Base(BaseType::Bool)),
        )),
    );
    assert!(refined.is_witness_indexed());
    assert!(refined.witness_kind().is_some());
}

#[test]
fn only_the_binding_position_reports_the_witness_kind() {
    let mut vars = KindVars::new();
    let closed = sum(TypeKind::Enumerated(vec![range(2)]), &mut vars, |w| {
        Type::data_fun(Type::WitnessRef(*w.id()), int_ty())
    });
    let open = Type::data_fun(closed.domain().expect("a sum is a function"), int_ty());
    assert!(
        closed
            .witness_kind()
            .expect("the binder is here")
            .same(&TypeKind::Enumerated(vec![range(2)]))
    );
    assert!(open.witness_kind().is_none(), "the body has no binder");
    assert!(open.is_witness_indexed());
}

#[test]
fn a_nested_sums_body_is_not_captured() {
    let mut vars = KindVars::new();
    let inner = sum(TypeKind::UIntRanges, &mut vars, |w| {
        Type::data_fun(Type::WitnessRef(*w.id()), int_ty())
    });
    let outer = sum(TypeKind::Enumerated(vec![range(1)]), &mut vars, |w| {
        Type::data_fun(Type::WitnessRef(*w.id()), inner.clone())
    });
    assert_eq!(
        outer.instantiate_sum(&range(1)),
        Type::data_fun(range(1), inner.clone()),
        "the outer binder is substituted; the inner sum's domain is untouched"
    );
}

#[test]
fn a_nested_sums_candidates_are_in_the_outer_scope() {
    let mut vars = KindVars::new();
    let outer_witness = Witness::mint(TypeKind::Enumerated(vec![range(4)]), &mut vars);
    let inner = sum(
        TypeKind::Enumerated(vec![Type::WitnessRef(*outer_witness.id())]),
        &mut vars,
        |w| Type::data_fun(Type::WitnessRef(*w.id()), int_ty()),
    );
    let inner_binder = *inner.sum().expect("a sum")[0].id();
    let outer = Type::sum_binding(outer_witness, inner);
    let got = outer.instantiate_sum(&range(4));
    let ws = got.sum().expect("instantiating the outer binder keeps the inner sum");
    assert_eq!(ws.len(), 1);
    assert!(
        ws[0].type_kind().same(&TypeKind::Enumerated(vec![range(4)])),
        "the outer witness in the inner kind is substituted"
    );
    assert_eq!(
        got.domain(),
        Some(Type::WitnessRef(inner_binder)),
        "the inner sum's own domain still names its own binder"
    );
}

#[test]
fn opening_a_witness_leaves_no_occurrence() {
    let mut vars = KindVars::new();
    let s = Type::map_of(range(7), int_ty(), &mut vars);
    let binder = *s.sum().expect("a sum")[0].id();
    assert!(mentions_witness(&s, &binder));
    assert!(!mentions_witness(&s.instantiate_sum(&range(3)), &binder));
}

#[test]
fn free_references_come_once_and_in_order() {
    let a = WitnessId(WitnessBinderId(11));
    let b = WitnessId(WitnessBinderId(12));
    let t = Type::Tuple(vec![
        Type::WitnessRef(b),
        Type::WitnessRef(a),
        Type::WitnessRef(b),
    ]);
    assert_eq!(free_witness_refs(&t, &vec![]), vec![b, a]);
    assert_eq!(free_witness_refs(&t, &vec![b]), vec![a]);
    let bound = Type::sum_binding(
        Witness::bound_to(WitnessBinderId(11), TypeKind::Enumerated(vec![Type::WitnessRef(b)])),
        Type::data_fun(Type::WitnessRef(a), int_ty()),
    );
    assert_eq!(free_witness_refs(&bound, &vec![]), vec![b]);
}

#[test]
fn renaming_reaches_references_and_binders() {
    let mut vars = KindVars::new();
    let s = Type::list_of(int_ty(), &mut vars);
    let old = *s.sum().expect("a sum")[0].id();
    let new = WitnessId(WitnessBinderId(99));
    let mut renaming = WitnessRenaming::new();
    assert!(renaming.is_empty());
    assert_eq!(s.rename_witnesses(&renaming), s);
    renaming.insert(old, new);
    let renamed = s.rename_witnesses(&renaming);
    assert_eq!(*renamed.sum().expect("a sum")[0].id(), new);
    assert_eq!(renamed.domain(), Some(Type::WitnessRef(new)));
}

#[test]
fn canonical_binders_keep_nesting_apart() {
    let a = WitnessId(WitnessBinderId(3));
    let b = WitnessId(WitnessBinderId(5));
    let nest = |which: WitnessId| {
        Type::sum_binding(
            Witness::with_id(a, TypeKind::Enumerated(vec![range(1)])),
            Type::sum_binding(
                Witness::with_id(b, TypeKind::UIntRanges),
                Type::data_fun(Type::Tuple(vec![Type::WitnessRef(a), Type::WitnessRef(b), Type::WitnessRef(which)]), int_ty()),
            ),
        )
    };
    assert_ne!(
        nest(a).without_witness_binders(),
        nest(b).without_witness_binders()
    );
}

#[test]
fn the_innermost_witness_answers() {
    let id = WitnessId(WitnessBinderId(1));
    let outside = WitnessContext::new();
    let outer = outside.extended(&vec![Witness::with_id(id, TypeKind::UIntRanges)]);
    let inner = outer.extended(&vec![Witness::with_id(id, TypeKind::Type)]);
    assert!(outside.type_kind_of(&id).is_none());
    assert!(outer.type_kind_of(&id).expect("bound").same(&TypeKind::UIntRanges));
    assert!(inner.type_kind_of(&id).expect("bound").same(&TypeKind::Type));
    assert_eq!(id.bound(), WitnessBinderId(1));
    assert_eq!(id.to_text(), "σ@1");
}

#[test]
fn collections_are_sums_over_their_kind() {
    let mut vars = KindVars::new();
    let kind = |t: &Type| t.witness_kind().expect("a sum");
    assert!(kind(&Type::list_of(int_ty(), &mut vars)).same(&TypeKind::UIntRanges));
    assert!(kind(&Type::collection_of(int_ty(), &mut vars)).same(&TypeKind::Type));
    let m = Type::map_of(range(3), int_ty(), &mut vars);
    assert!(kind(&m).same(&TypeKind::SubtypesOf(Box::new(range(3)))));
    let s = Type::set_of(range(3), &mut vars);
    assert_eq!(s.codomain(), Some(Type::Base(BaseType::Unit)));
    assert_eq!(
        Type::sum_like(&m, Type::fun(range(1), range(2))).codomain(),
        Some(range(2))
    );
    assert!(Type::sum_like(&m, Type::fun(range(1), range(2))).sum().is_some());
    assert!(Type::sum_like(&range(1), Type::fun(range(1), range(2))).sum().is_none());
}

#[test]
fn a_kind_variable_dumps_what_it_records() {
    let mut vars = KindVars::new();
    let a = FunKindVar::fresh(&mut vars);
    let b = FunKindVar::fresh(&mut vars);
    b.stamp_data(&mut vars);
    assert_eq!(
        a.debug_dump(&vars),
        "k0 stamp=Unpinned lower=[] upper=[] over=[] arity=None binds=[]"
    );
    let owner = InferVar { uid: 4, fun_kind: b.uid };
    assert_eq!(
        dump_kind_vars(&vars, &vec![owner]),
        "k0 stamp=Unpinned lower=[] upper=[] over=[] arity=None binds=[] owner=-\n\
         k1 stamp=Data lower=[] upper=[] over=[] arity=None binds=[] owner=?4"
    );
}

#[test]
fn a_canonical_copy_forgets_who_binds() {
    let mut vars = KindVars::new();
    let nested = |vars: &mut KindVars, pick_outer: bool| {
        let kind = || TypeKind::Enumerated(vec![range(2), range(3)]);
        let outer = Witness::mint(kind(), vars);
        let inner = Witness::mint(kind(), vars);
        let named = if pick_outer { *outer.id() } else { *inner.id() };
        let body = Type::sum_binding(
            inner.clone(),
            Type::data_fun(Type::WitnessRef(*inner.id()), Type::WitnessRef(named)),
        );
        Type::sum_binding(
            outer.clone(),
            Type::data_fun(Type::WitnessRef(*outer.id()), body),
        )
    };
    let a = nested(&mut vars, true);
    let b = nested(&mut vars, true);
    let c = nested(&mut vars, false);
    assert_ne!(a, b);
    assert_eq!(a.without_witness_binders(), b.without_witness_binders());
    assert_ne!(a.without_witness_binders(), c.without_witness_binders());
}

#[test]
fn renaming_the_witnesses_leaves_the_canonical_copy() {
    let mut vars = KindVars::new();
    let sum = Type::sum_over(
        TypeKind::Enumerated(vec![range(2), range(3)]),
        None,
        int_ty(),
        &mut vars,
    );
    let old = *sum.sum().expect("a sum")[0].id();
    let mut names = WitnessRenaming::new();
    names.insert(old, WitnessId(WitnessBinderId(77)));
    let renamed = sum.rename_witnesses(&names);
    assert_ne!(renamed, sum);
    assert_eq!(
        renamed.without_witness_binders(),
        sum.without_witness_binders()
    );
}

#[test]
fn witnesses_are_ordered_by_identity() {
    let kind = || TypeKind::Enumerated(vec![range(2)]);
    let a = Witness::bound_to(WitnessBinderId(1), kind());
    let b = Witness::bound_to(WitnessBinderId(2), TypeKind::UIntRanges);
    let again = Witness::bound_to(WitnessBinderId(1), TypeKind::UIntRanges);
    assert!(a < b && b > a);
    assert!(a == again && a <= again);
}

#[test]
fn an_edge_pins_both_its_ends_alike() {
    let mut vars = KindVars::new();
    let a = FunKindVar::fresh(&mut vars);
    let b = FunKindVar::fresh(&mut vars);
    a.record(&mut vars, FunKind::Var(b.uid), true);
    b.record(&mut vars, FunKind::Var(a.uid), false);
    assert_eq!(a.resolved(&vars), KindPin::Unpinned);
    a.record(&mut vars, FunKind::Data(None), true);
    assert_eq!(a.resolved(&vars), KindPin::Plain);
    assert_eq!(b.resolved(&vars), KindPin::Plain);
    b.record(&mut vars, FunKind::Compute, true);
    assert_eq!(a.resolved(&vars), KindPin::Conflict);
    assert_eq!(b.resolved(&vars), KindPin::Conflict);
}

#[test]
fn identities_of_witnesses_do_not_show() {
    let mut vars = KindVars::new();
    let sum = Type::sum_over(
        TypeKind::Enumerated(vec![range(2), range(3)]),
        None,
        int_ty(),
        &mut vars,
    );
    let old = *sum.sum().expect("a sum")[0].id();
    let mut names = WitnessRenaming::new();
    names.insert(old, WitnessId(WitnessBinderId(77)));
    let renamed = sum.rename_witnesses(&names);
    let shown = "Σ (σ : [[0, 1], [0, 2]]). (σ ⤇ Int)";
    assert_eq!(sum.to_text(&vars), shown);
    assert_eq!(renamed.to_text(&vars), shown);
    assert_eq!(sum.without_witness_binders().to_text(&vars), shown);
}

#[test]
fn a_kind_names_the_binders_written_in_it() {
    let mut vars = KindVars::new();
    let w = Witness::mint(TypeKind::UIntRanges, &mut vars);
    let bound = FunKind::Data(Some(vec![w.clone()]));
    assert_eq!(*bound.named_binders()[0].id(), *w.id());
    assert_eq!(bound.sum_binders().expect("a binder").len(), 1);
    assert!(bound.admits_sum(&vars));
    let none = FunKind::Data(None);
    assert!(none.named_binders().is_empty());
    assert!(none.sum_binders().is_none());
    assert!(!none.admits_sum(&vars));
    assert!(FunKind::Data(Some(Vec::new())).sum_binders().is_none());
    assert!(!FunKind::Compute.admits_sum(&vars));
    let k = FunKindVar::fresh(&mut vars);
    assert!(!FunKind::Var(k.uid).admits_sum(&vars));
    k.stamp_data(&mut vars);
    assert!(FunKind::Var(k.uid).admits_sum(&vars));
}

#[test]
fn a_kind_variable_records_where_it_comes_from() {
    let mut vars = KindVars::new();
    let a = FunKindVar::fresh(&mut vars);
    let b = FunKindVar::fresh(&mut vars);
    b.copied_from(&mut vars, &a);
    assert_eq!(b.instantiated_from(&vars).map(|v| v.uid), Some(a.uid));
    assert!(a.instantiated_from(&vars).is_none());
    b.contributes_first(&mut vars, FunKind::Compute);
    b.contributes_first(&mut vars, FunKind::Var(a.uid));
    let over = b.built_over(&vars);
    assert!(matches!(over[0], FunKind::Var(v) if v == a.uid));
    assert!(matches!(over[1], FunKind::Compute));
    reset_fun_kind_var_counter(&mut vars);
    assert_eq!(FunKindVar::fresh(&mut vars).uid, a.uid);
}

#[test]
fn a_range_is_written_through() {
    let mut vars = KindVars::new();
    let mut bounded = Witness::mint(TypeKind::SubtypesOf(Box::new(range(2))), &mut vars);
    let id = *bounded.id();
    assert_eq!(bounded.types_mut().len(), 1);
    bounded.types_mut()[0] = range(5);
    assert!(bounded.type_kind().same(&TypeKind::SubtypesOf(Box::new(range(5)))));
    assert_eq!(*bounded.id(), id, "the binder stays the same binder");

    let mut kind = TypeKind::Enumerated(vec![range(2), range(3)]);
    for t in kind.children_mut() {
        *t = int_ty();
    }
    assert!(kind.same(&TypeKind::Enumerated(vec![int_ty(), int_ty()])));
    assert!(TypeKind::UIntRanges.children_mut().is_empty());
    assert!(TypeKind::Type.children_mut().is_empty());

    let mut sum = FunKind::Data(Some(vec![bounded]));
    for w in sum.witnesses_mut() {
        w.types_mut()[0] = range(7);
    }
    let FunKind::Data(Some(ws)) = &sum else {
        panic!("it stays data over a sum");
    };
    assert!(ws[0].type_kind().same(&TypeKind::SubtypesOf(Box::new(range(7)))));
    assert_eq!(*ws[0].id(), id);
    assert!(FunKind::Compute.witnesses_mut().is_empty());
    assert!(FunKind::Data(None).witnesses_mut().is_empty());
}
