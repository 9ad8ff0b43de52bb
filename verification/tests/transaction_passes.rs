use ccl::acyclic::Cycle;
use ccl::as_of_pass::{drop_dead_as_of_reads, rewrite_as_of_reads, try_rewrite_as_of_reads};
use ccl::ast::{
    ArithmeticKind, BaseType, BinOpKind, Branch, Builtin, Expr, FieldKey, HistoryKind, Lit,
    LogicKind, Openness, Type, TypedBinding, TypedExprNode, UnaryOpKind,
};
use ccl::awaits::{resolve_await_finals, resolve_writer_free_awaits};
use ccl::block::{
    collect_footprint, guarded_non_txn_write, partition_block, prepend_effects, splice_block,
};
use ccl::checks::check_no_guarded_induction_write_in_block;
use ccl::decision::{
    and_path, commit_payload_ty, commit_project, disjoin, record_field_ty,
    synthesize_arm_predicate, truth_lit, writer_decision,
};
use ccl::name::{Name, NameSupply};
use ccl::name_map::NameMap;
use ccl::partition::group_keys;
use ccl::transact::{Outcome, run, run_phase};
use ccl::txn_terms::{
    as_of_read, fun_lambda, history_ty, let_typed, mut_var_value_ty, sampling_read,
    strip_refinements,
};

fn unit_ty() -> Type {
    Type::Base(BaseType::Unit)
}

fn int_ty() -> Type {
    Type::Base(BaseType::Int)
}

fn bool_ty() -> Type {
    Type::Base(BaseType::Bool)
}

fn unit() -> Expr {
    Expr::lit(Lit::Unit).with_ty(unit_ty())
}

fn num(n: i64) -> Expr {
    Expr::lit(Lit::Int(n)).with_ty(int_ty())
}

fn tvar(n: &Name, ty: Type) -> Expr {
    Expr::var(n.clone()).with_ty(ty)
}

fn flag(n: &Name) -> Expr {
    tvar(n, bool_ty())
}

fn plus(a: Expr, b: Expr) -> Expr {
    Expr::binop(a, BinOpKind::Arithmetic(ArithmeticKind::Add), b).with_ty(int_ty())
}

fn stmt(effect: Expr, rest: Expr) -> Expr {
    let ty = rest.ty.clone();
    Expr::expr_stmt(effect, rest).with_ty(ty)
}

fn write(n: &Name, value: Expr) -> Expr {
    Expr::mut_write(n.clone(), value).with_ty(unit_ty())
}

fn txn_decl(n: &Name, init: Expr, body: Expr) -> Expr {
    let ty = body.ty.clone();
    Expr::mut_decl(
        n.clone(),
        Type::History {
            value: Box::new(int_ty()),
            domain: Box::new(Type::Txn),
            history_kind: HistoryKind::Overwrite,
        },
        init,
        body,
    )
    .with_ty(ty)
}

fn awaiting(n: &Name) -> Expr {
    Expr::apply(tvar(n, int_ty()), Expr::builtin(Builtin::AwaitFinal)).with_ty(int_ty())
}

/// `for r in source: with begin(): block`, then nothing.
fn txn_loop(r: &Name, source: Expr, block: Expr) -> Expr {
    let begin = Expr::begin(block).with_ty(unit_ty());
    let looped = Expr::new(TypedExprNode::For {
        target: TypedBinding::typed(r.clone(), int_ty()),
        iter: Box::new(source),
        body: Box::new(stmt(begin, unit())),
    })
    .with_ty(unit_ty());
    stmt(looped, unit())
}

fn one_item(e: Expr) -> Expr {
    Expr::list(vec![e]).with_ty(Type::fun(Type::UIntRange(1), int_ty()))
}

/// `if guard: then_do else: nothing`.
fn when(guard: Expr, then_do: Expr) -> Expr {
    Expr::new(TypedExprNode::Case {
        scrutinee: None,
        branches: vec![
            Branch {
                pattern: None,
                guard,
                body: then_do,
            },
            Branch {
                pattern: None,
                guard: truth_lit(true),
                body: unit(),
            },
        ],
    })
    .with_ty(unit_ty())
}

// ---- blocks ----

#[test]
fn a_reading_block_runs_in_place() {
    let mut names = NameSupply::new();
    let (f, x) = (names.fresh("f"), names.fresh("x"));
    let feed = Expr::feed(f.clone(), num(1)).with_ty(unit_ty());
    let block = let_typed(x.clone(), int_ty(), num(2), stmt(feed.clone(), unit()));
    let out = splice_block(&block, num(7)).expect("no variable is declared in it");
    let want = let_typed(x, int_ty(), num(2), stmt(feed, num(7)));
    assert_eq!(out, want);
    assert_eq!(splice_block(&unit(), num(7)), Some(num(7)));
    let declares = txn_decl(&names.fresh("y"), num(0), unit());
    assert_eq!(splice_block(&declares, num(7)), None);
}

#[test]
fn an_induction_write_leaves_the_block() {
    let mut names = NameSupply::new();
    let (pool, acc) = (names.fresh("pool"), names.fresh("acc"));
    let block = stmt(
        write(&pool, num(1)),
        stmt(write(&acc, num(2)), stmt(write(&pool, num(3)), unit())),
    );
    let (kept, lifted) = partition_block(&block, &vec![pool.clone()]).expect("a plain block");
    assert_eq!(lifted, vec![write(&acc, num(2))]);
    assert_eq!(
        kept,
        stmt(write(&pool, num(1)), stmt(write(&pool, num(3)), unit()))
    );
    assert_eq!(
        prepend_effects(vec![write(&acc, num(2)), write(&acc, num(4))], num(9)),
        stmt(write(&acc, num(2)), stmt(write(&acc, num(4)), num(9)))
    );
    assert_eq!(prepend_effects(vec![], num(9)), num(9));
}

#[test]
fn a_footprint_is_what_is_read_and_what_is_written() {
    let mut names = NameSupply::new();
    let (a, b, c) = (names.fresh("a"), names.fresh("b"), names.fresh("c"));
    let block = stmt(write(&a, plus(tvar(&b, int_ty()), tvar(&c, int_ty()))), unit());
    let (reads, writes) = collect_footprint(&block, &vec![a.clone(), b.clone()]);
    assert_eq!(reads, vec![b]);
    assert_eq!(writes, vec![a]);
}

#[test]
fn a_write_under_a_choice_is_found() {
    let mut names = NameSupply::new();
    let (g, acc) = (names.fresh("g"), names.fresh("acc"));
    let guarded = when(flag(&g), write(&acc, num(1)));
    assert_eq!(
        guarded_non_txn_write(&guarded, &vec![], false),
        Some(acc.clone())
    );
    assert_eq!(
        guarded_non_txn_write(&guarded, &vec![acc.clone()], false),
        None
    );
    assert_eq!(
        guarded_non_txn_write(&write(&acc, num(1)), &vec![], false),
        None
    );
    let program = stmt(
        Expr::begin(stmt(guarded, unit())).with_ty(unit_ty()),
        unit(),
    );
    let said = check_no_guarded_induction_write_in_block(&program, &vec![])
        .expect_err("the write is under a choice");
    assert!(
        said.starts_with("`acc` is written under an `if` inside a `with begin():` block."),
        "{said}"
    );
    assert!(check_no_guarded_induction_write_in_block(&program, &vec![acc]).is_ok());
}

// ---- decisions ----

#[test]
fn an_arm_is_taken_where_no_earlier_one_is() {
    let mut names = NameSupply::new();
    let (p, g) = (names.fresh("p"), names.fresh("g"));
    let not_p = Expr::unary(UnaryOpKind::Not, flag(&p)).with_ty(bool_ty());
    let both = |a: Expr, b: Expr| {
        Expr::binop(a, BinOpKind::BoolLogic(LogicKind::And), b).with_ty(bool_ty())
    };
    assert_eq!(synthesize_arm_predicate(&flag(&g), &vec![]), flag(&g));
    let taken = synthesize_arm_predicate(&flag(&g), &vec![flag(&p)]);
    assert!(
        taken == both(not_p.clone(), flag(&g)) || taken == both(flag(&g), not_p.clone()),
        "{taken:?}"
    );
    assert_eq!(
        synthesize_arm_predicate(&truth_lit(true), &vec![flag(&p)]),
        not_p
    );
}

#[test]
fn conditions_that_always_hold_are_not_spelled_out() {
    let mut names = NameSupply::new();
    let (p, q) = (names.fresh("p"), names.fresh("q"));
    assert_eq!(and_path(&truth_lit(true), &flag(&p)), flag(&p));
    assert_eq!(and_path(&flag(&p), &truth_lit(true)), flag(&p));
    assert_eq!(
        and_path(&flag(&p), &flag(&q)),
        Expr::binop(
            flag(&p),
            BinOpKind::BoolLogic(LogicKind::And),
            flag(&q)
        )
        .with_ty(bool_ty())
    );
    assert_eq!(disjoin(&vec![]), truth_lit(false));
    assert_eq!(disjoin(&vec![flag(&p), truth_lit(true)]), truth_lit(true));
    assert_eq!(disjoin(&vec![flag(&p), flag(&p)]), flag(&p));
    assert_eq!(
        disjoin(&vec![flag(&p), flag(&q)]),
        Expr::binop(flag(&p), BinOpKind::BoolLogic(LogicKind::Or), flag(&q)).with_ty(bool_ty())
    );
}

#[test]
fn a_decision_commits_the_writes_or_aborts() {
    let mut names = NameSupply::new();
    let g = names.fresh("g");
    let writes = Expr::record(vec![("pool".to_string(), num(1))])
        .with_ty(Type::Record(vec![("pool".to_string(), int_ty())]));
    let decision = writer_decision(&flag(&g), writes.clone(), &vec![]);
    let payload = commit_payload_ty(&decision.ty).expect("it can commit");
    assert_eq!(record_field_ty(&payload, "writes"), Some(writes.ty.clone()));
    assert_eq!(record_field_ty(&payload, "time"), None);
    let TypedExprNode::Case { scrutinee, branches } = &decision.node else {
        panic!("a choice between committing and aborting");
    };
    assert!(scrutinee.is_none());
    assert_eq!(branches.len(), 2);
    assert_eq!(branches[0].guard, flag(&g));
    assert_eq!(branches[1].guard, truth_lit(true));
    let project = commit_project(&decision.ty, &payload);
    assert!(
        matches!(&project.node, TypedExprNode::Builtin(Builtin::VariantProject(t)) if t == "commit")
    );
    assert_eq!(project.ty, Type::fun(decision.ty.clone(), payload));
    assert_eq!(commit_payload_ty(&int_ty()), None);
    let other = Type::Variant(
        vec![(FieldKey::Name("abort".to_string()), unit_ty())],
        Openness::Closed,
    );
    assert_eq!(commit_payload_ty(&other), None);
}

// ---- reads of a history at a position ----

fn over(trigger: &Expr, param: &Name, body: Expr) -> Expr {
    let out = Type::fun(Type::UIntRange(3), body.ty.clone());
    Expr::compose(vec![
        trigger.clone(),
        fun_lambda(param.clone(), int_ty(), body.clone(), body.ty.clone()),
    ])
    .with_ty(out)
}

fn trigger(n: &Name) -> Expr {
    tvar(n, Type::fun(Type::UIntRange(3), int_ty()))
}

fn builtin_args<'a>(b: &Builtin, e: &'a Expr) -> &'a Vec<Expr> {
    let TypedExprNode::Apply { function, argument } = &e.node else {
        panic!("expected an application: {e:?}");
    };
    assert!(
        matches!(&function.node, TypedExprNode::Builtin(x) if x.same(b)),
        "{e:?}"
    );
    let TypedExprNode::Tuple(args) = &argument.node else {
        panic!("expected a tuple of arguments");
    };
    args
}

#[test]
fn a_bare_read_becomes_the_join_itself() {
    let mut names = NameSupply::new();
    let (reqs, h, k, r) = (
        names.fresh("reqs"),
        names.fresh("hist"),
        names.fresh("k"),
        names.fresh("r"),
    );
    let chain = let_typed(
        k.clone(),
        int_ty(),
        as_of_read(&h, int_ty()),
        over(&trigger(&reqs), &r, tvar(&k, int_ty())),
    );
    let out = rewrite_as_of_reads(&chain, &mut names).expect("the loop positions the read");
    let args = builtin_args(&Builtin::AsOf, &out);
    assert_eq!(args[0], trigger(&reqs));
    assert_eq!(args[1], tvar(&h, history_ty(&int_ty())));
    assert_eq!(out.ty, Type::fun(Type::UIntRange(3), int_ty()));
}

#[test]
fn a_computed_reply_maps_over_the_join() {
    let mut names = NameSupply::new();
    let (reqs, h, k, r) = (
        names.fresh("reqs"),
        names.fresh("hist"),
        names.fresh("k"),
        names.fresh("r"),
    );
    let reply = plus(tvar(&k, int_ty()), num(1));
    let chain = let_typed(
        k.clone(),
        int_ty(),
        as_of_read(&h, int_ty()),
        over(&trigger(&reqs), &r, reply.clone()),
    );
    let out = rewrite_as_of_reads(&chain, &mut names).expect("the loop positions the read");
    let TypedExprNode::Compose(parts) = &out.node else {
        panic!("expected a composition");
    };
    builtin_args(&Builtin::AsOf, &parts[0]);
    assert_eq!(parts[1], fun_lambda(k, int_ty(), reply, int_ty()));
}

#[test]
fn several_reads_share_one_snapshot() {
    let mut names = NameSupply::new();
    let (reqs, h, j, k, l, r) = (
        names.fresh("reqs"),
        names.fresh("hist"),
        names.fresh("other"),
        names.fresh("k"),
        names.fresh("l"),
        names.fresh("r"),
    );
    let chain = let_typed(
        k.clone(),
        int_ty(),
        as_of_read(&h, int_ty()),
        let_typed(
            l.clone(),
            int_ty(),
            as_of_read(&j, int_ty()),
            over(
                &trigger(&reqs),
                &r,
                plus(tvar(&k, int_ty()), tvar(&l, int_ty())),
            ),
        ),
    );
    let out = rewrite_as_of_reads(&chain, &mut names).expect("the loop positions the reads");
    let TypedExprNode::Compose(parts) = &out.node else {
        panic!("expected a composition");
    };
    let args = builtin_args(&Builtin::AsOf, &parts[0]);
    let TypedExprNode::Record(fields) = &args[1].node else {
        panic!("one record of both histories");
    };
    assert_eq!(fields.len(), 2);
    assert_eq!(fields[0].1, tvar(&h, history_ty(&int_ty())));
    assert_eq!(fields[1].1, tvar(&j, history_ty(&int_ty())));
    let TypedExprNode::Lambda { param, body, .. } = &parts[1].node else {
        panic!("a reply over the snapshot");
    };
    assert_eq!(param.name.base(), "__snap");
    assert!(!ccl::scope::is_free(&k, body) && !ccl::scope::is_free(&l, body));
}

#[test]
fn a_reply_that_reads_its_request_is_zipped() {
    let mut names = NameSupply::new();
    let (reqs, h, k, r) = (
        names.fresh("reqs"),
        names.fresh("hist"),
        names.fresh("k"),
        names.fresh("r"),
    );
    let chain = let_typed(
        k.clone(),
        int_ty(),
        as_of_read(&h, int_ty()),
        over(
            &trigger(&reqs),
            &r,
            plus(tvar(&r, int_ty()), tvar(&k, int_ty())),
        ),
    );
    let out = rewrite_as_of_reads(&chain, &mut names).expect("the loop positions the read");
    let TypedExprNode::Compose(parts) = &out.node else {
        panic!("expected a composition");
    };
    let args = builtin_args(&Builtin::Zip, &parts[0]);
    assert_eq!(args[0], trigger(&reqs));
    builtin_args(&Builtin::AsOf, &args[1]);
    let TypedExprNode::Lambda { param, body, .. } = &parts[1].node else {
        panic!("a reply over the pair");
    };
    assert_eq!(param.name.base(), "__zp");
    assert!(!ccl::scope::is_free(&k, body) && !ccl::scope::is_free(&r, body));
}

#[test]
fn a_read_with_no_loop_is_rejected() {
    let mut names = NameSupply::new();
    let (h, k) = (names.fresh("hist"), names.fresh("k"));
    let alone = let_typed(
        k.clone(),
        int_ty(),
        as_of_read(&h, int_ty()),
        plus(tvar(&k, int_ty()), num(1)),
    );
    assert_eq!(
        rewrite_as_of_reads(&alone, &mut names),
        Err(
            "the fed-out read of mutable variable `hist` was not paired with a reading loop \
             — an as-of read is positioned by the loop that indexes it \
             (transact_phase::rewrite_as_of_reads)"
                .to_string()
        )
    );
}

#[test]
fn a_read_that_nothing_reads_is_dropped() {
    let mut names = NameSupply::new();
    let (h, k) = (names.fresh("hist"), names.fresh("k"));
    let dead = let_typed(k, int_ty(), as_of_read(&h, int_ty()), num(4));
    assert_eq!(drop_dead_as_of_reads(&dead), num(4));
    assert_eq!(rewrite_as_of_reads(&dead, &mut names), Ok(num(4)));
}

#[test]
fn a_final_read_is_no_as_of_read() {
    let mut names = NameSupply::new();
    let (reqs, h, k, r) = (
        names.fresh("reqs"),
        names.fresh("hist"),
        names.fresh("k"),
        names.fresh("r"),
    );
    let chain = let_typed(
        k.clone(),
        int_ty(),
        sampling_read(&h, int_ty(), Builtin::FinalRead),
        over(&trigger(&reqs), &r, tvar(&k, int_ty())),
    );
    let before = names.next;
    assert_eq!(rewrite_as_of_reads(&chain, &mut names), Ok(chain.clone()));
    assert_eq!(names.next, before);
}

// ---- awaits ----

#[test]
fn awaits_of_keys_become_final_reads() {
    let mut names = NameSupply::new();
    let (x, y, h) = (names.fresh("x"), names.fresh("y"), names.fresh("hist"));
    let hist = NameMap::new().inserted(x.clone(), h.clone());
    let inits = NameMap::new().inserted(x.clone(), num(1));
    let e = Expr::tuple(vec![awaiting(&x), awaiting(&y)]);
    let out = resolve_await_finals(&e, &hist, &inits);
    assert_eq!(
        out,
        Expr::tuple(vec![
            sampling_read(&h, int_ty(), Builtin::FinalRead),
            awaiting(&y)
        ])
    );
}

#[test]
fn an_await_of_what_nothing_writes_is_its_seed() {
    let mut names = NameSupply::new();
    let (x, y) = (names.fresh("x"), names.fresh("y"));
    let program = txn_decl(&x, num(5), txn_decl(&y, num(6), plus(awaiting(&x), awaiting(&y))));
    let out = resolve_writer_free_awaits(&program, &vec![y.clone()]);
    assert_eq!(
        out,
        txn_decl(&x, num(5), txn_decl(&y, num(6), plus(num(5), awaiting(&y))))
    );
}

#[test]
fn a_store_may_not_await_itself() {
    let mut names = NameSupply::new();
    let (x, y, r) = (names.fresh("x"), names.fresh("y"), names.fresh("r"));
    let both = stmt(
        write(&x, num(1)),
        stmt(write(&y, tvar(&r, int_ty())), unit()),
    );
    let keys = vec![x.clone(), y.clone()];

    let seeded = txn_decl(
        &x,
        num(0),
        txn_decl(
            &y,
            awaiting(&x),
            txn_loop(&r, one_item(num(1)), both.clone()),
        ),
    );
    match run_phase(&seeded, &keys, &vec![], &mut names) {
        Outcome::Rejected(Cycle::Seed(a, b)) => assert_eq!((a, b), (y.clone(), x.clone())),
        _ => panic!("the seed of y awaits its own store"),
    }

    let sourced = txn_decl(
        &x,
        num(0),
        txn_decl(
            &y,
            num(0),
            txn_loop(&r, one_item(awaiting(&x)), both.clone()),
        ),
    );
    match run_phase(&sourced, &keys, &vec![], &mut names) {
        Outcome::Rejected(Cycle::Source(k)) => assert_eq!(k, x.clone()),
        _ => panic!("the source of the loop awaits the store it commits into"),
    }
    let said = match run(&sourced, &keys, &vec![], &mut names) {
        Err(m) => m,
        Ok(_) => panic!("the phase rejects it"),
    };
    assert!(
        said.starts_with("a `with begin():` block's iteration source depends on `await_final(x)`"),
        "{said}"
    );

    let in_body = txn_decl(
        &x,
        num(0),
        txn_loop(&r, one_item(num(1)), stmt(write(&x, awaiting(&x)), unit())),
    );
    match run_phase(&in_body, &vec![x.clone()], &vec![], &mut names) {
        Outcome::Rejected(Cycle::Body(k)) => assert_eq!(k, x),
        _ => panic!("the body awaits the store it commits into"),
    }
}

// ---- stores ----

#[test]
fn keys_that_share_a_footprint_share_a_store() {
    let mut names = NameSupply::new();
    let (a, b, c) = (names.fresh("a"), names.fresh("b"), names.fresh("c"));
    let keys = vec![a.clone(), b.clone(), c.clone()];
    assert_eq!(
        group_keys(&keys, &vec![vec![c.clone(), a.clone()]]),
        vec![vec![a.clone(), c.clone()], vec![b.clone()]]
    );
    assert_eq!(
        group_keys(&keys, &vec![]),
        vec![vec![a], vec![b], vec![c]]
    );
}

#[test]
fn the_values_of_a_history_are_typed_without_restrictions() {
    let cell = Type::History {
        value: Box::new(int_ty()),
        domain: Box::new(Type::Txn),
        history_kind: HistoryKind::Overwrite,
    };
    assert_eq!(mut_var_value_ty(&cell), int_ty());
    assert_eq!(mut_var_value_ty(&int_ty()), int_ty());
    assert_eq!(history_ty(&int_ty()), Type::fun(Type::Txn, int_ty()));
    assert_eq!(strip_refinements(&int_ty()), int_ty());
}

#[test]
fn a_reply_that_would_capture_the_pair_is_not_positioned() {
    let mut names = NameSupply::new();
    let (reqs, h, k, r) = (
        names.fresh("reqs"),
        names.fresh("hist"),
        names.fresh("k"),
        names.fresh("r"),
    );
    let reading = |seen: Expr| {
        let_typed(
            k.clone(),
            int_ty(),
            as_of_read(&h, int_ty()),
            over(&trigger(&reqs), &r, plus(tvar(&r, int_ty()), seen)),
        )
    };
    let plain = reading(tvar(&k, int_ty()));
    let mut one = NameSupply { next: names.next };
    let mut other = NameSupply { next: names.next };
    let positioned = try_rewrite_as_of_reads(&plain, &mut one).expect("nothing is captured");
    assert_eq!(positioned, rewrite_as_of_reads(&plain, &mut other));
    assert_eq!(one.next, other.next);
    assert_eq!(one.next, names.next + 1, "the pair has a name of its own");

    let taken = NameSupply { next: names.next }.fresh("__zp");
    let capturing = reading(let_typed(taken, int_ty(), num(1), tvar(&k, int_ty())));
    let start = names.next;
    assert!(try_rewrite_as_of_reads(&capturing, &mut names).is_none());
    assert_eq!(names.next, start);
}

#[test]
fn a_read_that_no_loop_positions_is_refused() {
    let mut names = NameSupply::new();
    let h = names.fresh("hist");
    let refused = try_rewrite_as_of_reads(&as_of_read(&h, int_ty()), &mut names);
    assert!(matches!(refused, Some(Err(_))));
}
