//! Equality of types and terms.
//!
//! Two types are equal when they have the same form over equal components. A
//! witness is its binder, so its range does not count; a channel's level does
//! not count; restrictions are compared as sets.
use vstd::prelude::*;
use crate::ast::{
    Branch, Expr, ExprS, FieldKey, FunKind, FunKindS, HeadS, Refinement, TransactKey, Type,
    TypeHeadS, TypeS, TypedBinding, TypedExprNode, WriterSite, binder_names_view,
    footprints_view, key_names_view, opt_name_view, patterns_view, witnesses_view,
};
use crate::name::{Name, names_view};
use crate::refine_eq::{same_arm_keys, same_fields, same_pred};
use crate::refinement_set::{RefinementSet, same_set};
use crate::text::same_text;

verus! {

pub open spec fn kind_eq(a: FunKindS, b: FunKindS) -> bool {
    match (a, b) {
        (FunKindS::Data(Some(v)), FunKindS::Data(Some(w))) => v.len() == w.len() && forall|i: int|
            0 <= i < v.len() ==> (#[trigger] v[i]).id == w[i].id,
        _ => a == b,
    }
}

pub open spec fn ty_head_eq(a: TypeHeadS, b: TypeHeadS) -> bool {
    match (a, b) {
        (TypeHeadS::Fun(m, k), TypeHeadS::Fun(n, l)) => m == n && kind_eq(k, l),
        (TypeHeadS::ChanDom(m, _), TypeHeadS::ChanDom(n, _)) => m == n,
        _ => a == b,
    }
}

/// Where the compared components start: a function's ranges are left out.
pub open spec fn compared_from(t: TypeS) -> int {
    if t.head is Fun && t.kids.len() >= 2 { t.kids.len() - 2 } else { 0 }
}

/// Whether two types are equal.
pub open spec fn ty_eq(a: TypeS, b: TypeS) -> bool
    decreases a,
{
    &&& ty_head_eq(a.head, b.head)
    &&& a.kids.len() - compared_from(a) == b.kids.len() - compared_from(b)
    &&& forall|i: int|
        compared_from(a) <= i < a.kids.len() ==> ty_eq(
            #[trigger] a.kids[i],
            b.kids[i - compared_from(a) + compared_from(b)],
        )
    &&& same_set(a.preds, b.preds)
}

/// The form without the spelling of a reference to a function.
pub open spec fn head_ident(h: HeadS) -> HeadS {
    match h {
        HeadS::Var(n) => HeadS::Var(n.ident()),
        _ => h,
    }
}

/// Whether two terms are equal, their types included.
pub open spec fn expr_eq(a: ExprS, b: ExprS) -> bool
    decreases a,
{
    &&& head_ident(a.head) == head_ident(b.head)
    &&& a.annotated == b.annotated
    &&& a.kids.len() == b.kids.len()
    &&& a.tys.len() == b.tys.len()
    &&& forall|i: int| 0 <= i < a.kids.len() ==> expr_eq(#[trigger] a.kids[i], b.kids[i])
    &&& forall|i: int| 0 <= i < a.tys.len() ==> ty_eq(#[trigger] a.tys[i], b.tys[i])
}

/// Whether the two lists hold the same names in the same order.
pub fn same_names(a: &Vec<Name>, b: &Vec<Name>) -> (r: bool)
    ensures
        r == (names_view(a@) == names_view(b@)),
{
    if a.len() != b.len() {
        assert(names_view(a@).len() != names_view(b@).len());
        return false;
    }
    let mut i: usize = 0;
    while i < a.len()
        invariant
            i <= a.len(),
            a.len() == b.len(),
            forall|j: int| 0 <= j < i ==> names_view(a@)[j] == names_view(b@)[j],
        decreases a.len() - i,
    {
        if !a[i].same(&b[i]) {
            assert(names_view(a@)[i as int] != names_view(b@)[i as int]);
            return false;
        }
        i = i + 1;
    }
    assert(names_view(a@) =~= names_view(b@));
    true
}

fn same_opt_name(a: &Option<Name>, b: &Option<Name>) -> (r: bool)
    ensures
        r == (opt_name_view(*a) == opt_name_view(*b)),
{
    match (a, b) {
        (Some(x), Some(y)) => x.same(y),
        (None, None) => true,
        _ => false,
    }
}

impl FunKind {
    /// Whether the two kinds are equal.
    #[verifier::loop_isolation(false)]
    pub fn same(&self, other: &FunKind) -> (r: bool)
        ensures
            r == kind_eq(self.view(), other.view()),
    {
        match (self, other) {
            (FunKind::Compute, FunKind::Compute) => true,
            (FunKind::Data(None), FunKind::Data(None)) => true,
            (FunKind::Data(Some(v)), FunKind::Data(Some(w))) => {
                if v.len() != w.len() {
                    return false;
                }
                let mut i: usize = 0;
                while i < v.len()
                    invariant
                        i <= v.len(),
                        v.len() == w.len(),
                        forall|j: int|
                            0 <= j < i ==> (#[trigger] witnesses_view(v@)[j]).id == witnesses_view(
                                w@,
                            )[j].id,
                    decreases v.len() - i,
                {
                    if v[i].id != w[i].id {
                        assert(witnesses_view(v@)[i as int].id != witnesses_view(w@)[i as int].id);
                        return false;
                    }
                    i = i + 1;
                }
                true
            },
            (FunKind::Var(x), FunKind::Var(y)) => *x == *y,
            _ => false,
        }
    }
}

fn same_type_head(a: &Type, b: &Type) -> (r: bool)
    ensures
        r == ty_head_eq(a.view().head, b.view().head),
{
    match (a, b) {
        (Type::Base(x), Type::Base(y)) => *x == *y,
        (Type::UIntRange(x), Type::UIntRange(y)) => *x == *y,
        (
            Type::Fun { name: m, fun_kind: k, domain: _, codomain: _ },
            Type::Fun { name: n, fun_kind: l, domain: _, codomain: _ },
        ) => same_opt_name(m, n) && k.same(l),
        (Type::Tuple(_), Type::Tuple(_)) => true,
        (Type::Record(x), Type::Record(y)) => same_fields(x, y),
        (Type::Variant(x, o), Type::Variant(y, p)) => *o == *p && same_arm_keys(x, y),
        (Type::Refinement(_, _), Type::Refinement(_, _)) => true,
        (Type::Hole, Type::Hole) => true,
        (Type::SharedHole(x), Type::SharedHole(y)) => *x == *y,
        (Type::BoundedHole(_), Type::BoundedHole(_)) => true,
        (Type::Infer(x), Type::Infer(y)) => *x == *y,
        (Type::DataSource(x), Type::DataSource(y)) => same_text(x.as_str(), y.as_str()),
        (Type::ChanDom(x, _), Type::ChanDom(y, _)) => x.same(y),
        (Type::Txn, Type::Txn) => true,
        (
            Type::History { value: _, domain: _, history_kind: x },
            Type::History { value: _, domain: _, history_kind: y },
        ) => *x == *y,
        (Type::WitnessRef(x), Type::WitnessRef(y)) => *x == *y,
        _ => false,
    }
}

/// The restrictions of a type.
fn restrictions(t: &Type) -> (r: RefinementSet)
    ensures
        r.view() == t.view().preds,
{
    match t {
        Type::Refinement(_, set) => set.clone(),
        _ => {
            let out = RefinementSet::new();
            assert(out.view() =~= t.view().preds);
            out
        },
    }
}

impl Type {
    /// Whether the two types are equal.
    #[verifier::loop_isolation(false)]
    pub fn same(&self, other: &Type) -> (r: bool)
        ensures
            r == ty_eq(self.view(), other.view()),
        decreases self.view(),
    {
        let ghost a = self.view();
        let ghost b = other.view();
        if !same_type_head(self, other) {
            return false;
        }
        let ka = self.walk_children();
        let kb = other.walk_children();
        assert(ka@.len() == a.kids.len());
        assert(kb@.len() == b.kids.len());
        let is_fun = match self {
            Type::Fun { .. } => true,
            _ => false,
        };
        proof {
            if is_fun {
                assert(self.view().kids.len() >= 2);
                assert(other.view().kids.len() >= 2);
            }
        }
        let fa: usize = if is_fun { ka.len() - 2 } else { 0 };
        let fb: usize = if is_fun { kb.len() - 2 } else { 0 };
        if ka.len() - fa != kb.len() - fb {
            return false;
        }
        let mut i: usize = fa;
        while i < ka.len()
            invariant
                fa <= i <= ka.len(),
                forall|j: int|
                    fa <= j < i ==> ty_eq(#[trigger] a.kids[j], b.kids[j - fa + fb]),
            decreases ka.len() - i,
        {
            assert(ka@[i as int].view() == a.kids[i as int]);
            assert(kb@[i - fa + fb].view() == b.kids[i - fa + fb]);
            if !ka[i].same(kb[i - fa + fb]) {
                return false;
            }
            i = i + 1;
        }
        restrictions(self).same(&restrictions(other))
    }
}

fn same_patterns(a: &Vec<Branch>, b: &Vec<Branch>) -> (r: bool)
    ensures
        r == (patterns_view(a@) == patterns_view(b@)),
{
    if a.len() != b.len() {
        assert(patterns_view(a@).len() != patterns_view(b@).len());
        return false;
    }
    let mut i: usize = 0;
    while i < a.len()
        invariant
            i <= a.len(),
            a.len() == b.len(),
            forall|j: int| 0 <= j < i ==> patterns_view(a@)[j] == patterns_view(b@)[j],
        decreases a.len() - i,
    {
        let agree = match (&a[i].pattern, &b[i].pattern) {
            (Some(p), Some(q)) => same_text(p.tag.as_str(), q.tag.as_str()) && p.binding.name.same(
                &q.binding.name,
            ) && p.empty_payload == q.empty_payload,
            (None, None) => true,
            _ => false,
        };
        if !agree {
            assert(patterns_view(a@)[i as int] != patterns_view(b@)[i as int]);
            return false;
        }
        i = i + 1;
    }
    assert(patterns_view(a@) =~= patterns_view(b@));
    true
}

fn same_keys(a: &Vec<TransactKey>, b: &Vec<TransactKey>) -> (r: bool)
    ensures
        r == (key_names_view(a@) == key_names_view(b@)),
{
    if a.len() != b.len() {
        assert(key_names_view(a@).len() != key_names_view(b@).len());
        return false;
    }
    let mut i: usize = 0;
    while i < a.len()
        invariant
            i <= a.len(),
            a.len() == b.len(),
            forall|j: int| 0 <= j < i ==> key_names_view(a@)[j] == key_names_view(b@)[j],
        decreases a.len() - i,
    {
        if !a[i].name.same(&b[i].name) {
            assert(key_names_view(a@)[i as int] != key_names_view(b@)[i as int]);
            return false;
        }
        i = i + 1;
    }
    assert(key_names_view(a@) =~= key_names_view(b@));
    true
}

fn same_footprints(a: &Vec<WriterSite>, b: &Vec<WriterSite>) -> (r: bool)
    ensures
        r == (footprints_view(a@) == footprints_view(b@)),
{
    if a.len() != b.len() {
        assert(footprints_view(a@).len() != footprints_view(b@).len());
        return false;
    }
    let mut i: usize = 0;
    while i < a.len()
        invariant
            i <= a.len(),
            a.len() == b.len(),
            forall|j: int| 0 <= j < i ==> footprints_view(a@)[j] == footprints_view(b@)[j],
        decreases a.len() - i,
    {
        if !same_names(&a[i].read_keys, &b[i].read_keys) || !same_names(
            &a[i].write_keys,
            &b[i].write_keys,
        ) {
            assert(footprints_view(a@)[i as int] != footprints_view(b@)[i as int]);
            return false;
        }
        i = i + 1;
    }
    assert(footprints_view(a@) =~= footprints_view(b@));
    true
}

fn same_binders(a: &Vec<(TypedBinding, Expr)>, b: &Vec<(TypedBinding, Expr)>) -> (r: bool)
    ensures
        r == (binder_names_view(a@) == binder_names_view(b@)),
{
    if a.len() != b.len() {
        assert(binder_names_view(a@).len() != binder_names_view(b@).len());
        return false;
    }
    let mut i: usize = 0;
    while i < a.len()
        invariant
            i <= a.len(),
            a.len() == b.len(),
            forall|j: int| 0 <= j < i ==> binder_names_view(a@)[j] == binder_names_view(b@)[j],
        decreases a.len() - i,
    {
        if !a[i].0.name.same(&b[i].0.name) {
            assert(binder_names_view(a@)[i as int] != binder_names_view(b@)[i as int]);
            return false;
        }
        i = i + 1;
    }
    assert(binder_names_view(a@) =~= binder_names_view(b@));
    true
}

impl TypedExprNode {
    /// Whether the two forms are equal.
    pub fn same_head(&self, other: &TypedExprNode) -> (r: bool)
        ensures
            r == (head_ident(self.head()) == head_ident(other.head())),
    {
        match (self, other) {
            (TypedExprNode::Lit(x), TypedExprNode::Lit(y)) => x.same(y),
            (TypedExprNode::Var(x), TypedExprNode::Var(y)) => x.same_ident(y),
            (TypedExprNode::Builtin(x), TypedExprNode::Builtin(y)) => x.same(y),
            (
                TypedExprNode::BinOp { left: _, op: x, right: _ },
                TypedExprNode::BinOp { left: _, op: y, right: _ },
            ) => *x == *y,
            (TypedExprNode::UnaryOp(x, _), TypedExprNode::UnaryOp(y, _)) => *x == *y,
            (TypedExprNode::Apply { .. }, TypedExprNode::Apply { .. }) => true,
            (TypedExprNode::Cast { .. }, TypedExprNode::Cast { .. }) => true,
            (
                TypedExprNode::Lambda { param: p, body: _ },
                TypedExprNode::Lambda { param: q, body: _ },
            ) => p.name.same(&q.name),
            (
                TypedExprNode::Aggregate { input: _, kind: x },
                TypedExprNode::Aggregate { input: _, kind: y },
            ) => *x == *y,
            (
                TypedExprNode::MutDecl { binding: p, init: _, body: _ },
                TypedExprNode::MutDecl { binding: q, init: _, body: _ },
            ) => p.name.same(&q.name),
            (
                TypedExprNode::Let { binding: p, bound_expr: _, body: _ },
                TypedExprNode::Let { binding: q, bound_expr: _, body: _ },
            ) => p.name.same(&q.name),
            (TypedExprNode::List(_), TypedExprNode::List(_)) => true,
            (TypedExprNode::Tuple(_), TypedExprNode::Tuple(_)) => true,
            (TypedExprNode::Record(x), TypedExprNode::Record(y)) => same_fields(x, y),
            (
                TypedExprNode::Case { scrutinee: s, branches: x },
                TypedExprNode::Case { scrutinee: t, branches: y },
            ) => s.is_some() == t.is_some() && same_patterns(x, y),
            (
                TypedExprNode::VariantCtor { tag: x, payload: _ },
                TypedExprNode::VariantCtor { tag: y, payload: _ },
            ) => same_text(x.as_str(), y.as_str()),
            (
                TypedExprNode::Transact { keys: k, writers: v, domain: _ },
                TypedExprNode::Transact { keys: l, writers: w, domain: _ },
            ) => same_keys(k, l) && same_footprints(v, w),
            (
                TypedExprNode::LetRec { bindings: x, body: _ },
                TypedExprNode::LetRec { bindings: y, body: _ },
            ) => same_binders(x, y),
            (
                TypedExprNode::For { target: p, iter: _, body: _ },
                TypedExprNode::For { target: q, iter: _, body: _ },
            ) => p.name.same(&q.name),
            (
                TypedExprNode::MutWrite { name: x, value: _ },
                TypedExprNode::MutWrite { name: y, value: _ },
            ) => x.same(y),
            (TypedExprNode::Source(x), TypedExprNode::Source(y)) => same_text(
                x.as_str(),
                y.as_str(),
            ),
            (TypedExprNode::Compose(_), TypedExprNode::Compose(_)) => true,
            (TypedExprNode::DisjointJoin(_), TypedExprNode::DisjointJoin(_)) => true,
            (TypedExprNode::Copair(_), TypedExprNode::Copair(_)) => true,
            (TypedExprNode::Proj(x), TypedExprNode::Proj(y)) => x.same(y),
            (TypedExprNode::ExprStmt { .. }, TypedExprNode::ExprStmt { .. }) => true,
            (
                TypedExprNode::Feed { name: x, value: _ },
                TypedExprNode::Feed { name: y, value: _ },
            ) => x.same(y),
            (
                TypedExprNode::Define { name: x, value: _ },
                TypedExprNode::Define { name: y, value: _ },
            ) => x.same(y),
            (TypedExprNode::Defer, TypedExprNode::Defer) => true,
            (TypedExprNode::Begin { .. }, TypedExprNode::Begin { .. }) => true,
            (TypedExprNode::Error, TypedExprNode::Error) => true,
            (TypedExprNode::Realize(_), TypedExprNode::Realize(_)) => true,
            _ => false,
        }
    }
}

impl Expr {
    /// Whether the two terms are equal, their types included.
    #[verifier::loop_isolation(false)]
    pub fn same(&self, other: &Expr) -> (r: bool)
        ensures
            r == expr_eq(self.view(), other.view()),
        decreases self.view(),
    {
        let ghost a = self.view();
        let ghost b = other.view();
        if !self.node.same_head(&other.node) || self.user_annotation.is_some()
            != other.user_annotation.is_some() {
            return false;
        }
        let ka = self.children();
        let kb = other.children();
        let sa = self.type_slots();
        let sb = other.type_slots();
        assert(ka@.len() == a.kids.len());
        assert(kb@.len() == b.kids.len());
        assert(sa@.len() == a.tys.len());
        assert(sb@.len() == b.tys.len());
        if ka.len() != kb.len() || sa.len() != sb.len() {
            return false;
        }
        let mut i: usize = 0;
        while i < ka.len()
            invariant
                i <= ka.len(),
                forall|j: int| 0 <= j < i ==> expr_eq(#[trigger] a.kids[j], b.kids[j]),
            decreases ka.len() - i,
        {
            assert(ka@[i as int].view() == a.kids[i as int]);
            assert(kb@[i as int].view() == b.kids[i as int]);
            if !ka[i].same(kb[i]) {
                return false;
            }
            i = i + 1;
        }
        let mut i: usize = 0;
        while i < sa.len()
            invariant
                i <= sa.len(),
                forall|j: int| 0 <= j < i ==> ty_eq(#[trigger] a.tys[j], b.tys[j]),
            decreases sa.len() - i,
        {
            assert(sa@[i as int].view() == a.tys[i as int]);
            assert(sb@[i as int].view() == b.tys[i as int]);
            if !sa[i].same(sb[i]) {
                return false;
            }
            i = i + 1;
        }
        true
    }
}

impl PartialEq for Name {
    fn eq(&self, other: &Name) -> (r: bool) {
        self.same_ident(other)
    }
}

impl vstd::std_specs::cmp::PartialEqSpecImpl for Name {
    open spec fn obeys_eq_spec() -> bool {
        true
    }

    open spec fn eq_spec(&self, other: &Name) -> bool {
        self@.ident() == other@.ident()
    }
}

impl PartialEq for FieldKey {
    fn eq(&self, other: &FieldKey) -> (r: bool) {
        self.same(other)
    }
}

impl vstd::std_specs::cmp::PartialEqSpecImpl for FieldKey {
    open spec fn obeys_eq_spec() -> bool {
        true
    }

    open spec fn eq_spec(&self, other: &FieldKey) -> bool {
        self.view() == other.view()
    }
}

impl PartialEq for Type {
    fn eq(&self, other: &Type) -> (r: bool) {
        self.same(other)
    }
}

impl vstd::std_specs::cmp::PartialEqSpecImpl for Type {
    open spec fn obeys_eq_spec() -> bool {
        true
    }

    open spec fn eq_spec(&self, other: &Type) -> bool {
        ty_eq(self.view(), other.view())
    }
}

impl PartialEq for Expr {
    fn eq(&self, other: &Expr) -> (r: bool) {
        self.same(other)
    }
}

impl vstd::std_specs::cmp::PartialEqSpecImpl for Expr {
    open spec fn obeys_eq_spec() -> bool {
        true
    }

    open spec fn eq_spec(&self, other: &Expr) -> bool {
        expr_eq(self.view(), other.view())
    }
}

impl PartialEq for Refinement {
    fn eq(&self, other: &Refinement) -> (r: bool) {
        self.same(other)
    }
}

impl vstd::std_specs::cmp::PartialEqSpecImpl for Refinement {
    open spec fn obeys_eq_spec() -> bool {
        true
    }

    open spec fn eq_spec(&self, other: &Refinement) -> bool {
        same_pred(self.predicate.view(), other.predicate.view())
    }
}

impl PartialEq for RefinementSet {
    fn eq(&self, other: &RefinementSet) -> (r: bool) {
        self.same(other)
    }
}

impl vstd::std_specs::cmp::PartialEqSpecImpl for RefinementSet {
    open spec fn obeys_eq_spec() -> bool {
        true
    }

    open spec fn eq_spec(&self, other: &RefinementSet) -> bool {
        same_set(self.view(), other.view())
    }
}

} // verus!
