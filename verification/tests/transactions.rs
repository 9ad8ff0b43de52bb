use ccl::ast::{
    ArithmeticKind, BaseType, BinOpKind, Builtin, Expr, HistoryKind, Lit, Type, TypedBinding,
    TypedExprNode,
};
use ccl::checks::{
    check_await_final_linearity, check_no_guarded_induction_write_in_block,
    check_no_induction_only_transactions, check_no_nested_transactions,
};
use ccl::kind::KindVars;
use ccl::name::{Name, NameSupply};
use ccl::partition::{RawSite, partition_keys};
use ccl::probe::{Sign, collect_txn_mut_vars, occurs};
use ccl::render::symbolic;
use ccl::transact::{Outcome, Phase, run, run_phase};

fn unit_ty() -> Type {
    Type::Base(BaseType::Unit)
}

fn int_ty() -> Type {
    Type::Base(BaseType::Int)
}

fn unit() -> Expr {
    Expr::lit(Lit::Unit).with_ty(unit_ty())
}

fn num(n: i64) -> Expr {
    Expr::lit(Lit::Int(n)).with_ty(int_ty())
}

fn tvar(n: &Name, ty: Type) -> Expr {
    Expr::var(n.clone()).with_ty(ty)
}

fn footprint_site(names: &mut NameSupply, read_keys: &[&Name], write_keys: &[&Name]) -> RawSite {
    RawSite {
        target: TypedBinding::typed(names.fresh("__r"), unit_ty()),
        source: Expr::lit(Lit::Unit),
        block: Expr::lit(Lit::Unit),
        read_keys: read_keys.iter().map(|n| (*n).clone()).collect(),
        write_keys: write_keys.iter().map(|n| (*n).clone()).collect(),
        enclosing_writes: vec![],
    }
}

fn base_names(groups: &[Vec<Name>]) -> Vec<Vec<String>> {
    groups
        .iter()
        .map(|g| g.iter().map(|n| n.base()).collect())
        .collect()
}

#[test]
fn disjoint_writers_get_separate_stores() {
    let mut names = NameSupply::new();
    let (a, b) = (names.fresh("a"), names.fresh("b"));
    let keys = vec![a.clone(), b.clone()];
    let sites = vec![
        footprint_site(&mut names, &[&a], &[&a]),
        footprint_site(&mut names, &[&b], &[&b]),
    ];
    assert_eq!(
        base_names(&partition_keys(&keys, &sites, &vec![])),
        vec![vec!["a"], vec!["b"]]
    );
}

#[test]
fn keys_written_in_one_block_share_a_store() {
    let mut names = NameSupply::new();
    let (a, b) = (names.fresh("a"), names.fresh("b"));
    let keys = vec![a.clone(), b.clone()];
    let sites = vec![footprint_site(&mut names, &[&a, &b], &[&a, &b])];
    assert_eq!(
        base_names(&partition_keys(&keys, &sites, &vec![])),
        vec![vec!["a", "b"]]
    );
}

#[test]
fn a_read_in_a_writing_block_shares_the_store() {
    let mut names = NameSupply::new();
    let (a, b) = (names.fresh("a"), names.fresh("b"));
    let keys = vec![a.clone(), b.clone()];
    let sites = vec![
        footprint_site(&mut names, &[&a, &b], &[&a]),
        footprint_site(&mut names, &[&b], &[&b]),
    ];
    assert_eq!(
        base_names(&partition_keys(&keys, &sites, &vec![])),
        vec![vec!["a", "b"]]
    );
}

#[test]
fn keys_read_together_share_a_store() {
    let mut names = NameSupply::new();
    let (a, b) = (names.fresh("a"), names.fresh("b"));
    let keys = vec![a.clone(), b.clone()];
    let sites = vec![
        footprint_site(&mut names, &[&a], &[&a]),
        footprint_site(&mut names, &[&b], &[&b]),
    ];
    let snapshots = vec![vec![a.clone(), b.clone()]];
    assert_eq!(
        base_names(&partition_keys(&keys, &sites, &snapshots)),
        vec![vec!["a", "b"]]
    );
}

#[test]
fn sharing_is_transitive_and_order_is_first_occurrence() {
    let mut names = NameSupply::new();
    let (a, b, c, d) = (
        names.fresh("a"),
        names.fresh("b"),
        names.fresh("c"),
        names.fresh("d"),
    );
    let keys = vec![a.clone(), b.clone(), c.clone(), d.clone()];
    let sites = vec![
        footprint_site(&mut names, &[], &[&a, &c]),
        footprint_site(&mut names, &[], &[&c, &b]),
        footprint_site(&mut names, &[], &[&d]),
    ];
    assert_eq!(
        base_names(&partition_keys(&keys, &sites, &vec![])),
        vec![vec!["a", "b", "c"], vec!["d"]]
    );
}

/// `pool = 100; for r in [10]: with begin(): pool = pool - r`.
fn direct_mirror_txn(names: &mut NameSupply) -> (Expr, Name) {
    let pool = names.fresh("pool");
    let r = names.fresh("r");
    let list = Expr::list(vec![num(10)]).with_ty(Type::fun(Type::UIntRange(1), int_ty()));
    let sub = Expr::binop(
        tvar(&pool, int_ty()),
        BinOpKind::Arithmetic(ArithmeticKind::Sub),
        tvar(&r, int_ty()),
    )
    .with_ty(int_ty());
    let write = Expr::mut_write(pool.clone(), sub).with_ty(unit_ty());
    let block = Expr::expr_stmt(write, unit()).with_ty(unit_ty());
    let begin = Expr::begin(block).with_ty(unit_ty());
    let for_body = Expr::expr_stmt(begin, unit()).with_ty(unit_ty());
    let for_node = Expr::new(TypedExprNode::For {
        target: TypedBinding::typed(r, int_ty()),
        iter: Box::new(list),
        body: Box::new(for_body),
    })
    .with_ty(unit_ty());
    let stmt = Expr::expr_stmt(for_node, unit()).with_ty(unit_ty());
    let tree = Expr::mut_decl(
        pool.clone(),
        Type::History {
            value: Box::new(int_ty()),
            domain: Box::new(Type::Txn),
            history_kind: HistoryKind::Overwrite,
        },
        num(100),
        stmt,
    )
    .with_ty(unit_ty());
    (tree, pool)
}

fn find_letrec(e: &Expr) -> Option<&Vec<(TypedBinding, Expr)>> {
    if let TypedExprNode::LetRec { bindings, .. } = &e.node {
        return Some(bindings);
    }
    e.children().into_iter().find_map(find_letrec)
}

fn collect_unguarded(e: &Expr, group: &[Name], out: &mut Vec<Name>) {
    if let TypedExprNode::Var(n) = &e.node {
        if group.contains(n) {
            out.push(n.clone());
        }
    }
    if let TypedExprNode::Apply { function, argument } = &e.node {
        if let (TypedExprNode::Builtin(Builtin::GetPrevTxn), TypedExprNode::Tuple(args)) =
            (&function.node, &argument.node)
        {
            for a in &args[1..] {
                collect_unguarded(a, group, out);
            }
            return;
        }
    }
    for k in e.children() {
        collect_unguarded(k, group, out);
    }
}

/// Whether the group has no cycle of references but through a guarded read.
fn is_causal(bindings: &Vec<(TypedBinding, Expr)>) -> bool {
    let group: Vec<Name> = bindings.iter().map(|(b, _)| b.name.clone()).collect();
    let mut settled: Vec<Name> = vec![];
    loop {
        let before = settled.len();
        for (b, def) in bindings {
            let mut refs = vec![];
            collect_unguarded(def, &group, &mut refs);
            if !settled.contains(&b.name) && refs.iter().all(|r| settled.contains(r)) {
                settled.push(b.name.clone());
            }
        }
        if settled.len() == before {
            return settled.len() == bindings.len();
        }
    }
}

fn done(r: Result<Phase, String>) -> Expr {
    match r {
        Ok(Phase::Done(e)) => e,
        Ok(Phase::NeedsFold(_)) => panic!("no loop to fold"),
        Err(m) => panic!("{m}"),
    }
}

#[test]
fn phase_emits_guarded_get_prev_txn_letrec() {
    let mut names = NameSupply::new();
    let (tree, pool) = direct_mirror_txn(&mut names);
    let out = done(run(&tree, &vec![pool], &vec![], &mut names));
    let s = symbolic(&out, &KindVars::new());
    assert!(s.contains("letrec"), "should emit a letrec: {s}");
    assert!(
        s.contains("get_prev_txn"),
        "the history must read commits via get_prev_txn: {s}"
    );
    assert!(
        s.contains("begin"),
        "each site mints a `begin` commit-time oracle: {s}"
    );
    assert!(
        !s.contains("final_or_default"),
        "an unread mutable variable key gets no history read: {s}"
    );
    let bindings = find_letrec(&out).expect("phase emits a letrec");
    assert!(
        is_causal(bindings),
        "the emitted transaction letrec must be guarded"
    );
}

#[test]
fn nothing_transactional_is_left_of_a_program() {
    let mut names = NameSupply::new();
    let (tree, pool) = direct_mirror_txn(&mut names);
    let txn = vec![pool];
    assert!(occurs(&Sign::Begin, &tree));
    assert!(occurs(&Sign::Writes(&txn), &tree));
    let out = done(run(&tree, &txn, &vec![], &mut names));
    assert!(!occurs(&Sign::Begin, &out));
    assert!(!occurs(&Sign::Writes(&txn), &out));
}

#[test]
fn the_transactional_variables_are_found_by_their_type() {
    let mut names = NameSupply::new();
    let (tree, pool) = direct_mirror_txn(&mut names);
    assert_eq!(collect_txn_mut_vars(&tree), vec![pool]);
    assert!(collect_txn_mut_vars(&num(1)).is_empty());
}

#[test]
fn a_program_without_transactions_is_left_alone() {
    let mut names = NameSupply::new();
    let x = names.fresh("x");
    let tree = Expr::let_bind(x.clone(), num(1), tvar(&x, int_ty())).with_ty(int_ty());
    let before = names.next;
    let out = done(run(&tree, &vec![], &vec![], &mut names));
    assert_eq!(out, tree);
    assert_eq!(names.next, before);
    let out = done(run(&tree, &vec![x], &vec![], &mut names));
    assert_eq!(out, tree);
}

#[test]
fn a_block_in_a_block_is_rejected() {
    let inner = Expr::begin(unit()).with_ty(unit_ty());
    let outer = Expr::begin(Expr::expr_stmt(inner, unit()).with_ty(unit_ty())).with_ty(unit_ty());
    assert!(check_no_nested_transactions(&outer, &vec![]).is_err());
    assert!(check_no_nested_transactions(&Expr::begin(unit()), &vec![]).is_ok());
}

#[test]
fn a_block_that_commits_nothing_transactional_is_rejected() {
    let mut names = NameSupply::new();
    let acc = names.fresh("acc");
    let block = Expr::begin(
        Expr::expr_stmt(
            Expr::mut_write(acc.clone(), num(1)).with_ty(unit_ty()),
            unit(),
        )
        .with_ty(unit_ty()),
    )
    .with_ty(unit_ty());
    let program = Expr::expr_stmt(block, unit()).with_ty(unit_ty());
    let message = check_no_induction_only_transactions(&program, &vec![])
        .expect_err("the block writes no transactional variable");
    assert!(message.contains("acc"), "{message}");
    assert!(check_no_induction_only_transactions(&program, &vec![acc]).is_ok());
    assert!(check_no_guarded_induction_write_in_block(&program, &vec![]).is_ok());
}

#[test]
fn awaiting_twice_is_rejected() {
    let mut names = NameSupply::new();
    let x = names.fresh("x");
    let await_x = || {
        Expr::apply(tvar(&x, int_ty()), Expr::builtin(Builtin::AwaitFinal)).with_ty(int_ty())
    };
    let once = Expr::tuple(vec![await_x(), num(1)]);
    assert!(check_await_final_linearity(&once).is_ok());
    let twice = Expr::tuple(vec![await_x(), await_x()]);
    assert!(check_await_final_linearity(&twice).is_err());
}

#[test]
fn a_block_outside_a_loop_breaks_the_phase() {
    let mut names = NameSupply::new();
    let x = names.fresh("x");
    let block = Expr::begin(
        Expr::expr_stmt(
            Expr::mut_write(x.clone(), num(1)).with_ty(unit_ty()),
            unit(),
        )
        .with_ty(unit_ty()),
    )
    .with_ty(unit_ty());
    let program = Expr::expr_stmt(block, unit()).with_ty(unit_ty());
    assert!(matches!(
        run_phase(&program, &vec![x], &vec![], &mut names),
        Outcome::Broken
    ));
}

#[test]
fn nothing_may_use_a_variable_after_its_await() {
    let mut names = NameSupply::new();
    let (x, y) = (names.fresh("x"), names.fresh("y"));
    let await_x = || {
        Expr::apply(tvar(&x, int_ty()), Expr::builtin(Builtin::AwaitFinal)).with_ty(int_ty())
    };
    let before = Expr::tuple(vec![tvar(&x, int_ty()), await_x(), tvar(&y, int_ty())]);
    assert!(check_await_final_linearity(&before).is_ok());
    let after = Expr::tuple(vec![await_x(), tvar(&x, int_ty())]);
    assert_eq!(
        check_await_final_linearity(&after),
        Err(
            "`x` is unreferenceable after `await_final(x)`: the await consumes the mutable \
             variable, declaring its commit history complete"
                .to_string()
        )
    );
    let written = Expr::tuple(vec![await_x(), Expr::mut_write(x.clone(), num(1))]);
    assert!(check_await_final_linearity(&written).is_err());
    let unnamed = Expr::apply(num(1), Expr::builtin(Builtin::AwaitFinal));
    assert_eq!(
        check_await_final_linearity(&unnamed),
        Err("await_final's operand must be a bare mutable variable reference".to_string())
    );
}
