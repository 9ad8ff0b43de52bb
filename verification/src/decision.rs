//! Commit decisions: when a transaction commits, and what it commits.
use vstd::prelude::*;
use crate::ast::{
    BaseType, BinOpKind, Branch, Builtin, BuiltinS, Expr, ExprS, FieldKey, FieldKeyS, HeadS,
    Lit, LitS, LogicKind, Openness, Type, TypeHeadS, TypeS, TypedExprNode, UnaryOpKind,
    arm_keys_view, arm_types_view, branch_kids_view, exprs_view, field_exprs_view,
    field_names_view, field_types_view, node_ty, patterns_view,
};
use crate::capture::opt_expr_view;
use crate::equality::expr_eq;
use crate::layout::{cat2, put2};
use crate::make::{base_ty, builtin_s, fun_ty, lit_s, record_s, record_ty, term};
use crate::name::{Name, NameS};
use crate::text::{owned, same_text};
use crate::txn_terms::{
    bare, bared, bool_ty, builtin_ty, is_true_lit, record_type, tlit, trecord,
};

verus! {

/// The tag of a decision to commit.
pub const TAG_COMMIT: &'static str = "commit";

/// The tag of a decision not to commit.
pub const TAG_ABORT: &'static str = "abort";

/// The field of a commit payload with the written values.
pub const F_WRITES: &'static str = "writes";

/// The ending of the field that says whether a reply fires.
pub const FIRE: &'static str = "__fire";

pub open spec fn is_true(e: ExprS) -> bool {
    e.head == HeadS::Lit(LitS::Bool(true))
}

pub open spec fn truth(b: bool) -> ExprS {
    lit_s(LitS::Bool(b), bool_ty())
}

pub open spec fn logic_s(k: LogicKind, a: ExprS, b: ExprS) -> ExprS {
    term(HeadS::BinOp(BinOpKind::BoolLogic(k)), seq![a, b], bool_ty())
}

pub open spec fn not_s(e: ExprS) -> ExprS {
    term(HeadS::UnaryOp(UnaryOpKind::Not), seq![e], bool_ty())
}

/// The conjunction of two conditions; one that always holds does not show.
pub open spec fn and_s(path: ExprS, guard: ExprS) -> ExprS {
    if is_true(path) {
        guard
    } else if is_true(guard) {
        path
    } else {
        logic_s(LogicKind::And, path, guard)
    }
}

/// That none of the first `n` guards holds.
pub open spec fn none_hold(priors: Seq<ExprS>, n: nat) -> ExprS
    decreases n,
{
    if n == 0 {
        truth(true)
    } else {
        and_s(none_hold(priors, (n - 1) as nat), not_s(priors[n - 1]))
    }
}

/// When an arm is taken: its guard holds, and no earlier one does.
pub open spec fn arm_predicate(guard: ExprS, priors: Seq<ExprS>) -> ExprS {
    and_s(none_hold(priors, priors.len()), guard)
}

/// Whether an earlier condition is the same as condition `i`.
pub open spec fn said_before(paths: Seq<ExprS>, i: int) -> bool {
    exists|j: int| 0 <= j < i && expr_eq(#[trigger] paths[j], paths[i])
}

/// The disjunction of the first `n` conditions, each once.
pub open spec fn some_hold(paths: Seq<ExprS>, n: nat) -> Option<ExprS>
    decreases n,
{
    if n == 0 {
        None
    } else {
        let before = some_hold(paths, (n - 1) as nat);
        if said_before(paths, n - 1) {
            before
        } else {
            match before {
                Some(d) => Some(logic_s(LogicKind::Or, d, paths[n - 1])),
                None => Some(paths[n - 1]),
            }
        }
    }
}

pub open spec fn some_always(paths: Seq<ExprS>) -> bool {
    exists|i: int| 0 <= i < paths.len() && is_true(#[trigger] paths[i])
}

/// The disjunction of conditions: `true` where one always holds, `false` where
/// there is none.
pub open spec fn disjoined(paths: Seq<ExprS>) -> ExprS {
    if some_always(paths) {
        truth(true)
    } else {
        match some_hold(paths, paths.len()) {
            Some(d) => d,
            None => truth(false),
        }
    }
}

fn bool_type() -> (r: Type)
    ensures
        r.view() == bool_ty(),
{
    Type::Base(BaseType::Bool)
}

pub fn truth_lit(b: bool) -> (r: Expr)
    ensures
        r.view() == truth(b),
{
    tlit(Lit::Bool(b), bool_type())
}

fn logic(k: LogicKind, a: Expr, b: Expr) -> (r: Expr)
    ensures
        r.view() == logic_s(k, a.view(), b.view()),
{
    let out = Expr::binop(a, BinOpKind::BoolLogic(k), b).with_ty(bool_type());
    assert(out.view().tys =~= seq![bool_ty()]);
    out
}

fn negate(e: Expr) -> (r: Expr)
    ensures
        r.view() == not_s(e.view()),
{
    let out = Expr::unary(UnaryOpKind::Not, e).with_ty(bool_type());
    assert(out.view().tys =~= seq![bool_ty()]);
    out
}

/// The conjunction of two conditions.
pub fn and_path(path: &Expr, guard: &Expr) -> (r: Expr)
    ensures
        r.view() == and_s(path.view(), guard.view()),
{
    if is_true_lit(path) {
        return guard.clone();
    }
    if is_true_lit(guard) {
        return path.clone();
    }
    logic(LogicKind::And, path.clone(), guard.clone())
}

/// When an arm is taken: its guard holds, and none of `priors` does.
pub fn synthesize_arm_predicate(guard: &Expr, priors: &Vec<Expr>) -> (r: Expr)
    ensures
        r.view() == arm_predicate(guard.view(), exprs_view(priors@)),
{
    let ghost pv = exprs_view(priors@);
    let mut none = truth_lit(true);
    let mut i: usize = 0;
    while i < priors.len()
        invariant
            i <= priors.len(),
            pv == exprs_view(priors@),
            none.view() == none_hold(pv, i as nat),
        decreases priors.len() - i,
    {
        assert(pv[i as int] == priors@[i as int].view());
        none = and_path(&none, &negate(priors[i].clone()));
        i = i + 1;
    }
    and_path(&none, guard)
}

fn was_said(paths: &Vec<Expr>, i: usize) -> (r: bool)
    requires
        i < paths@.len(),
    ensures
        r == said_before(exprs_view(paths@), i as int),
{
    let ghost pv = exprs_view(paths@);
    let mut j: usize = 0;
    while j < i
        invariant
            j <= i < paths@.len(),
            pv == exprs_view(paths@),
            forall|k: int| 0 <= k < j ==> !expr_eq(#[trigger] pv[k], pv[i as int]),
        decreases i - j,
    {
        assert(pv[j as int] == paths@[j as int].view());
        assert(pv[i as int] == paths@[i as int].view());
        if paths[j].same(&paths[i]) {
            return true;
        }
        j = j + 1;
    }
    false
}

fn has_always(paths: &Vec<Expr>) -> (r: bool)
    ensures
        r == some_always(exprs_view(paths@)),
{
    let ghost pv = exprs_view(paths@);
    let mut i: usize = 0;
    while i < paths.len()
        invariant
            i <= paths.len(),
            pv == exprs_view(paths@),
            forall|j: int| 0 <= j < i ==> !is_true(#[trigger] pv[j]),
        decreases paths.len() - i,
    {
        assert(pv[i as int] == paths@[i as int].view());
        if is_true_lit(&paths[i]) {
            return true;
        }
        i = i + 1;
    }
    false
}

/// The disjunction of conditions.
pub fn disjoin(paths: &Vec<Expr>) -> (r: Expr)
    ensures
        r.view() == disjoined(exprs_view(paths@)),
{
    if has_always(paths) {
        return truth_lit(true);
    }
    let ghost pv = exprs_view(paths@);
    let mut out: Option<Expr> = None;
    let mut i: usize = 0;
    while i < paths.len()
        invariant
            i <= paths.len(),
            pv == exprs_view(paths@),
            opt_expr_view(out) == some_hold(pv, i as nat),
        decreases paths.len() - i,
    {
        assert(pv[i as int] == paths@[i as int].view());
        if !was_said(paths, i) {
            out = match out {
                Some(d) => Some(logic(LogicKind::Or, d, paths[i].clone())),
                None => Some(paths[i].clone()),
            };
        }
        i = i + 1;
    }
    match out {
        Some(d) => d,
        None => truth_lit(false),
    }
}

/// A reply of a block: the handle it goes to, its field in the payload, its value,
/// and the condition under which it is made.
pub struct TapS {
    pub defer: NameS,
    pub field: Seq<char>,
    pub value: ExprS,
    pub path: ExprS,
}

pub struct Tap {
    pub defer: Name,
    pub field: String,
    pub value: Expr,
    pub path: Expr,
}

impl Tap {
    pub open spec fn view(&self) -> TapS {
        TapS {
            defer: self.defer@,
            field: self.field@,
            value: self.value.view(),
            path: self.path.view(),
        }
    }
}

pub open spec fn taps_view(v: Seq<Tap>) -> Seq<TapS> {
    Seq::new(v.len(), |i: int| v[i].view())
}

/// A labelled term.
pub struct FieldS {
    pub name: Seq<char>,
    pub value: ExprS,
}

pub open spec fn labels(fs: Seq<FieldS>) -> Seq<Seq<char>> {
    Seq::new(fs.len(), |i: int| fs[i].name)
}

pub open spec fn values(fs: Seq<FieldS>) -> Seq<ExprS> {
    Seq::new(fs.len(), |i: int| fs[i].value)
}

pub open spec fn value_tys(fs: Seq<FieldS>) -> Seq<TypeS> {
    Seq::new(fs.len(), |i: int| fs[i].value.ty())
}

/// The payload of a commit with the first `n` replies: the written values, and
/// each reply, with its condition where that is not when the transaction commits.
pub open spec fn payload_fields(commit: ExprS, writes: ExprS, taps: Seq<TapS>, n: nat) -> Seq<FieldS>
    decreases n,
{
    if n == 0 {
        seq![FieldS { name: F_WRITES@, value: writes }]
    } else {
        let t = taps[n - 1];
        let fs = payload_fields(commit, writes, taps, (n - 1) as nat).push(
            FieldS { name: t.field, value: t.value },
        );
        if expr_eq(t.path, commit) {
            fs
        } else {
            fs.push(FieldS { name: cat2(t.field, FIRE@), value: t.path })
        }
    }
}

/// The type of a decision whose payload has type `payload`.
pub open spec fn decision_ty_s(payload: TypeS) -> TypeS {
    node_ty(
        TypeHeadS::Variant(
            seq![FieldKeyS::Name(TAG_ABORT@), FieldKeyS::Name(TAG_COMMIT@)],
            Openness::Closed,
        ),
        seq![base_ty(BaseType::Unit), payload],
    )
}

/// A tag with its payload, at type `ty`.
pub open spec fn tagged(tag: Seq<char>, payload: ExprS, ty: TypeS) -> ExprS {
    term(HeadS::VariantCtor(tag), seq![payload], ty)
}

/// A choice of two terms.
pub open spec fn either(guard: ExprS, yes: ExprS, otherwise: ExprS, ty: TypeS) -> ExprS {
    term(
        HeadS::Case(false, seq![None, None]),
        seq![guard, yes, truth(true), otherwise],
        ty,
    )
}

/// The decision of a transaction: to commit its payload where `commit` holds, and
/// to abort otherwise.
pub open spec fn decision_s(commit: ExprS, writes: ExprS, taps: Seq<TapS>) -> ExprS {
    let fs = payload_fields(commit, writes, taps, taps.len());
    let payload_ty = record_ty(labels(fs), value_tys(fs));
    let ty = decision_ty_s(payload_ty);
    either(
        commit,
        tagged(TAG_COMMIT@, record_s(labels(fs), values(fs), payload_ty), ty),
        tagged(TAG_ABORT@, lit_s(LitS::Unit, base_ty(BaseType::Unit)), ty),
        ty,
    )
}

spec fn fields_match(fs: Seq<(String, Expr)>, ts: Seq<(String, Type)>, want: Seq<FieldS>) -> bool {
    &&& fs.len() == want.len()
    &&& ts.len() == want.len()
    &&& forall|i: int|
        0 <= i < want.len() ==> (#[trigger] fs[i]).0@ == want[i].name && fs[i].1.view()
            == want[i].value
    &&& forall|i: int|
        0 <= i < want.len() ==> (#[trigger] ts[i]).0@ == want[i].name && ts[i].1.view()
            == want[i].value.ty()
}

fn tag_with(tag: &str, payload: Expr, ty: Type) -> (r: Expr)
    ensures
        r.view() == tagged(tag@, payload.view(), ty.view()),
{
    let out = Expr::new(
        TypedExprNode::VariantCtor { tag: owned(tag), payload: Box::new(payload) },
    ).with_ty(ty);
    assert(out.view().tys =~= seq![ty.view()]);
    out
}

fn choose_between(guard: Expr, yes: Expr, otherwise: Expr, ty: Type) -> (r: Expr)
    ensures
        r.view() == either(guard.view(), yes.view(), otherwise.view(), ty.view()),
{
    let mut branches: Vec<Branch> = Vec::new();
    let t = truth_lit(true);
    let ghost gv = guard.view();
    branches.push(Branch { pattern: None, guard, body: yes });
    branches.push(Branch { pattern: None, guard: t, body: otherwise });
    assert(branch_kids_view(branches@) =~= seq![
        gv,
        yes.view(),
        truth(true),
        otherwise.view(),
    ]);
    assert(patterns_view(branches@) =~= seq![None, None]);
    let out = Expr::new(TypedExprNode::Case { scrutinee: None, branches }).with_ty(ty);
    assert(out.view().tys =~= seq![ty.view()]);
    out
}

/// The decision of a transaction.
pub fn writer_decision(commit: &Expr, writes: Expr, taps: &Vec<Tap>) -> (r: Expr)
    ensures
        r.view() == decision_s(commit.view(), writes.view(), taps_view(taps@)),
{
    let ghost tv = taps_view(taps@);
    let ghost cv = commit.view();
    let ghost wv = writes.view();
    let mut fs: Vec<(String, Expr)> = Vec::new();
    let mut ts: Vec<(String, Type)> = Vec::new();
    assert(wv.tys[0] == writes.ty.view());
    ts.push((owned(F_WRITES), writes.ty.clone()));
    fs.push((owned(F_WRITES), writes));
    let mut i: usize = 0;
    while i < taps.len()
        invariant
            i <= taps.len(),
            tv == taps_view(taps@),
            cv == commit.view(),
            fields_match(fs@, ts@, payload_fields(cv, wv, tv, i as nat)),
        decreases taps.len() - i,
    {
        let t = &taps[i];
        assert(tv[i as int] == t.view());
        assert(t.value.view().tys[0] == t.value.ty.view());
        assert(t.path.view().tys[0] == t.path.ty.view());
        ts.push((t.field.clone(), t.value.ty.clone()));
        fs.push((t.field.clone(), t.value.clone()));
        if !t.path.same(commit) {
            ts.push((put2(t.field.as_str(), FIRE), t.path.ty.clone()));
            fs.push((put2(t.field.as_str(), FIRE), t.path.clone()));
        }
        i = i + 1;
    }
    let ghost want = payload_fields(cv, wv, tv, tv.len());
    assert(field_names_view(fs@) =~= labels(want));
    assert(field_names_view(ts@) =~= labels(want));
    assert(field_exprs_view(fs@) =~= values(want));
    assert(field_types_view(ts@) =~= value_tys(want));
    let payload_ty = record_type(ts);
    let payload = trecord(fs, payload_ty.clone());
    let ty = decision_type(payload_ty);
    let yes = tag_with(TAG_COMMIT, payload, ty.clone());
    let no = tag_with(TAG_ABORT, tlit(Lit::Unit, Type::Base(BaseType::Unit)), ty.clone());
    choose_between(commit.clone(), yes, no, ty)
}

/// The type of a decision whose payload has type `payload`.
fn decision_type(payload: Type) -> (r: Type)
    ensures
        r.view() == decision_ty_s(payload.view()),
{
    let mut arms: Vec<(FieldKey, Type)> = Vec::new();
    arms.push((FieldKey::Name(owned(TAG_ABORT)), Type::Base(BaseType::Unit)));
    arms.push((FieldKey::Name(owned(TAG_COMMIT)), payload));
    assert(arm_keys_view(arms@) =~= seq![
        FieldKeyS::Name(TAG_ABORT@),
        FieldKeyS::Name(TAG_COMMIT@),
    ]);
    assert(arm_types_view(arms@) =~= seq![base_ty(BaseType::Unit), payload.view()]);
    Type::Variant(arms, Openness::Closed)
}

/// The position of a name among the first `n`.
pub open spec fn position(names: Seq<Seq<char>>, f: Seq<char>, n: nat) -> Option<int>
    decreases n,
{
    if n == 0 {
        None
    } else {
        match position(names, f, (n - 1) as nat) {
            Some(i) => Some(i),
            None => if names[n - 1] == f { Some(n - 1) } else { None },
        }
    }
}

/// The type of a record's field.
pub open spec fn field_ty(t: TypeS, f: Seq<char>) -> Option<TypeS> {
    match bare(t).head {
        TypeHeadS::Record(names) => match position(names, f, names.len()) {
            Some(i) => Some(bare(t).kids[i]),
            None => None,
        },
        _ => None,
    }
}

pub open spec fn opt_ty_view(t: Option<Type>) -> Option<TypeS> {
    match t {
        Some(x) => Some(x.view()),
        None => None,
    }
}

/// The type of a record's field.
pub fn record_field_ty(ty: &Type, field: &str) -> (r: Option<Type>)
    ensures
        opt_ty_view(r) == field_ty(ty.view(), field@),
{
    let t = bared(ty);
    match t {
        Type::Record(fs) => {
            let ghost names = field_names_view(fs@);
            assert(t.view().kids == field_types_view(fs@));
            let mut found: Option<usize> = None;
            let mut i: usize = 0;
            while i < fs.len()
                invariant
                    i <= fs.len(),
                    names == field_names_view(fs@),
                    match found {
                        Some(x) => x < fs.len() && position(names, field@, i as nat) == Some(
                            x as int,
                        ),
                        None => position(names, field@, i as nat) is None,
                    },
                decreases fs.len() - i,
            {
                assert(names[i as int] == fs@[i as int].0@);
                if found.is_none() && same_text(fs[i].0.as_str(), field) {
                    found = Some(i);
                }
                i = i + 1;
            }
            match found {
                Some(x) => {
                    assert(t.view().kids[x as int] == fs@[x as int].1.view());
                    Some(fs[x].1.clone())
                },
                None => None,
            }
        },
        _ => None,
    }
}

/// The position of a tag among the first `n`.
pub open spec fn tag_position(keys: Seq<FieldKeyS>, tag: Seq<char>, n: nat) -> Option<int>
    decreases n,
{
    if n == 0 {
        None
    } else {
        match tag_position(keys, tag, (n - 1) as nat) {
            Some(i) => Some(i),
            None => if keys[n - 1] == FieldKeyS::Name(tag) { Some(n - 1) } else { None },
        }
    }
}

/// The type of what a decision commits.
pub open spec fn payload_ty_of(t: TypeS) -> Option<TypeS> {
    match bare(t).head {
        TypeHeadS::Variant(keys, _) => match tag_position(keys, TAG_COMMIT@, keys.len()) {
            Some(i) => Some(bare(t).kids[i]),
            None => None,
        },
        _ => None,
    }
}

/// The type of what a decision of type `ty` commits.
pub fn commit_payload_ty(ty: &Type) -> (r: Option<Type>)
    ensures
        opt_ty_view(r) == payload_ty_of(ty.view()),
{
    let t = bared(ty);
    match t {
        Type::Variant(arms, _) => {
            let ghost keys = arm_keys_view(arms@);
            assert(t.view().kids == arm_types_view(arms@));
            let mut found: Option<usize> = None;
            let mut i: usize = 0;
            while i < arms.len()
                invariant
                    i <= arms.len(),
                    keys == arm_keys_view(arms@),
                    match found {
                        Some(x) => x < arms.len() && tag_position(keys, TAG_COMMIT@, i as nat)
                            == Some(x as int),
                        None => tag_position(keys, TAG_COMMIT@, i as nat) is None,
                    },
                decreases arms.len() - i,
            {
                assert(keys[i as int] == arms@[i as int].0.view());
                let hit = match &arms[i].0 {
                    FieldKey::Name(n) => same_text(n.as_str(), TAG_COMMIT),
                    FieldKey::Index(_) => false,
                };
                if found.is_none() && hit {
                    found = Some(i);
                }
                i = i + 1;
            }
            match found {
                Some(x) => {
                    assert(t.view().kids[x as int] == arms@[x as int].1.view());
                    Some(arms[x].1.clone())
                },
                None => None,
            }
        },
        _ => None,
    }
}

/// The projection of what a decision commits.
pub open spec fn commit_project_s(decision: TypeS, payload: TypeS) -> ExprS {
    builtin_s(BuiltinS::VariantProject(TAG_COMMIT@), fun_ty(decision, payload))
}

pub fn commit_project(decision_ty: &Type, payload_ty: &Type) -> (r: Expr)
    ensures
        r.view() == commit_project_s(decision_ty.view(), payload_ty.view()),
{
    builtin_ty(
        Builtin::VariantProject(owned(TAG_COMMIT)),
        Type::fun(decision_ty.clone(), payload_ty.clone()),
    )
}

} // verus!
