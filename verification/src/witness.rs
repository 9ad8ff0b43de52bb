//! Witnesses: the binders of sums, what they range over, and their occurrences.

use vstd::prelude::*;
use crate::ast::{
    BaseType, FunKind, FunKindS, KindShapeS, Refinement, Type, TypeHeadS, TypeKind, TypeS,
    Witness, WitnessBinderId, WitnessId, WitnessS, leaf_ty, node_ty, opt_name_view, types_view,
    witness_types_view, witnesses_view,
};
use crate::equality::ty_eq;
use crate::kind::KindVars;
use crate::kind_vars::witness_ids;
use crate::name::{Name, NameS};
use crate::pi::deeper;
use crate::symbolic::shape_width;
use crate::text::{nat_text, owned, push_str, show_u64};
use crate::tree::type_refs_view;
use crate::type_forms::{is_sum, may_turn, sum_of, unsettled};

verus! {

/// What a witness ranges over: the form of the range and the types it names.
pub struct RangeS {
    pub shape: KindShapeS,
    pub types: Seq<TypeS>,
}

/// The sum over one new witness `id`: data indexed by it.
pub open spec fn sum_type(id: WitnessId, range: RangeS, name: Option<NameS>, c: TypeS) -> TypeS {
    node_ty(
        TypeHeadS::Fun(name, FunKindS::Data(Some(seq![WitnessS { id, shape: range.shape }]))),
        range.types.push(leaf_ty(TypeHeadS::WitnessRef(id))).push(c),
    )
}

/// Whether `t` mentions the witness `b`.
pub open spec fn mentions(t: TypeS, b: WitnessId) -> bool
    decreases t,
{
    t.head == TypeHeadS::WitnessRef(b) || exists|i: int|
        0 <= i < t.kids.len() && mentions(#[trigger] t.kids[i], b)
}

/// How many types the ranges of `ws` name.
pub open spec fn ranges_width(ws: Seq<WitnessS>) -> nat
    decreases ws.len(),
{
    if ws.len() == 0 {
        0
    } else {
        ranges_width(ws.drop_last()) + shape_width(ws.last().shape)
    }
}

/// The witnesses in force at component `i` of the function binding `ws`: a
/// range sees the witnesses before it, the domain and codomain see all.
pub open spec fn in_force(ws: Seq<WitnessS>, i: int) -> Seq<WitnessId>
    decreases ws.len(),
{
    if ws.len() == 0 || i >= ranges_width(ws) {
        witness_ids(ws)
    } else {
        in_force(ws.drop_last(), i)
    }
}

/// The witnesses in force at component `i` of `t`.
pub open spec fn binders_at(t: TypeS, i: int) -> Seq<WitnessId> {
    in_force(sum_of(t), i)
}

/// The witnesses free in `t` under `scope`, after those in `found`: each once,
/// in the order met.
pub open spec fn free_refs(t: TypeS, scope: Seq<WitnessId>, found: Seq<WitnessId>) -> Seq<WitnessId>
    decreases t, t.kids.len() + 1,
{
    match t.head {
        TypeHeadS::WitnessRef(w) => if scope.contains(w) || found.contains(w) {
            found
        } else {
            found.push(w)
        },
        _ => free_refs_upto(t, scope, found, t.kids.len()),
    }
}

/// The witnesses free in the first `n` components of `t`.
pub open spec fn free_refs_upto(
    t: TypeS,
    scope: Seq<WitnessId>,
    found: Seq<WitnessId>,
    n: nat,
) -> Seq<WitnessId>
    decreases t, n,
{
    if n == 0 || n > t.kids.len() {
        found
    } else {
        free_refs(
            t.kids[n - 1],
            scope + binders_at(t, n - 1),
            free_refs_upto(t, scope, found, (n - 1) as nat),
        )
    }
}

/// `t` without the restrictions around it.
pub open spec fn bare_head(t: TypeS) -> TypeS
    decreases t,
{
    if t.head is Refinement && t.kids.len() > 0 {
        bare_head(t.kids[0])
    } else {
        t
    }
}

/// Whether the function `t` denotes is indexed by a witness.
pub open spec fn witness_indexed(t: TypeS) -> bool {
    is_sum(bare_head(t)) || free_refs(bare_head(t), Seq::empty(), Seq::empty()).len() > 0
}

/// What the outermost witness `t` binds ranges over.
pub open spec fn first_range(t: TypeS) -> Option<RangeS> {
    let h = bare_head(t);
    let ws = sum_of(h);
    if ws.len() == 0 {
        None
    } else {
        Some(RangeS { shape: ws[0].shape, types: h.kids.take(shape_width(ws[0].shape) as int) })
    }
}

/// What the innermost witness `id` of a scope ranges over.
pub open spec fn innermost(scope: Seq<(WitnessId, RangeS)>, id: WitnessId) -> Option<RangeS>
    decreases scope.len(),
{
    if scope.len() == 0 {
        None
    } else if scope.last().0 == id {
        Some(scope.last().1)
    } else {
        innermost(scope.drop_last(), id)
    }
}

/// Whether a range certainly does not hold `t`.
pub open spec fn range_refuses(range: RangeS, t: TypeS) -> bool {
    match range.shape {
        KindShapeS::Type => false,
        KindShapeS::UIntRanges => !(t.head is UIntRange || t.head is Infer || t.head is Hole
            || t.head is SharedHole),
        KindShapeS::SubtypesOf => false,
        KindShapeS::Enumerated(_) => !unsettled(t) && !any_unsettled(range.types) && !any_equal(
            range.types,
            t,
        ),
    }
}

/// Whether two ranges are of one form over equal types.
pub open spec fn same_range(a: RangeS, b: RangeS) -> bool {
    &&& a.shape == b.shape
    &&& a.types.len() == b.types.len()
    &&& forall|i: int| 0 <= i < a.types.len() ==> ty_eq(#[trigger] a.types[i], b.types[i])
}

pub open spec fn any_unsettled(ts: Seq<TypeS>) -> bool {
    exists|i: int| 0 <= i < ts.len() && unsettled(#[trigger] ts[i])
}

pub open spec fn any_equal(ts: Seq<TypeS>, t: TypeS) -> bool {
    exists|i: int| 0 <= i < ts.len() && ty_eq(#[trigger] ts[i], t)
}

impl WitnessId {
    /// The binder the witness is.
    pub fn bound(&self) -> (r: WitnessBinderId)
        ensures
            r == self.0,
    {
        self.0
    }

    /// The witness as it reads.
    pub fn to_text(&self) -> (r: String)
        ensures
            r@ == "σ@"@ + nat_text(self.0.0 as nat),
    {
        let n = show_u64(self.0.0 as u64);
        let mut out = owned("σ@");
        push_str(&mut out, n.as_str());
        out
    }
}

/// `std::slice::from_mut`: one value seen as a slice of length one, which is
/// written through to it.
pub assume_specification<T>[ std::slice::from_mut::<T> ](s: &mut T) -> (r: &mut [T])
    ensures
        r@ == seq![*old(s)],
        final(r)@.len() == 1,
        *final(s) == final(r)@[0],
;

impl TypeKind {
    pub open spec fn view(&self) -> RangeS {
        RangeS { shape: self.shape(), types: self.types_view() }
    }

    /// The types the range names, to be written through. What is written takes
    /// the place of what was there: the form of the range stays.
    pub fn children_mut(&mut self) -> (r: &mut [Type])
        ensures
            types_view(r@) == old(self).types_view(),
            final(r)@.len() == r@.len() ==> final(self).shape() == old(self).shape()
                && final(self).types_view() == types_view(final(r)@),
    {
        match self {
            TypeKind::Enumerated(domains) => domains.as_mut_slice(),
            TypeKind::SubtypesOf(k) => std::slice::from_mut(&mut **k),
            TypeKind::UIntRanges | TypeKind::Type => &mut [],
        }
    }

    /// The range with each type replaced by what `f` makes of it.
    pub fn map_children<F: Fn(&Type) -> Type>(&self, f: F) -> (r: TypeKind)
        requires
            forall|x: &Type| #[trigger] call_requires(f, (x,)),
        ensures
            r.shape() == self.shape(),
            r.types_view().len() == self.types_view().len(),
            forall|i: int|
                0 <= i < self.types_view().len() ==> may_turn(
                    f,
                    #[trigger] self.types_view()[i],
                    r.types_view()[i],
                ),
    {
        let ts = self.children();
        let ghost all = self.types_view();
        assert(ts@.len() == all.len());
        let mut out: Vec<Type> = Vec::new();
        let mut i: usize = 0;
        while i < ts.len()
            invariant
                i <= ts.len(),
                out.len() == i,
                ts@.len() == all.len(),
                type_refs_view(ts@) == all,
                forall|x: &Type| #[trigger] call_requires(f, (x,)),
                forall|j: int| 0 <= j < i ==> may_turn(f, #[trigger] all[j], out@[j].view()),
            decreases ts.len() - i,
        {
            assert(ts@[i as int].view() == all[i as int]);
            let t = f(ts[i]);
            assert(may_turn(f, all[i as int], t.view()));
            out.push(t);
            i = i + 1;
        }
        assert(forall|j: int| 0 <= j < out@.len() ==> types_view(out@)[j] == out@[j].view());
        self.with_types(out)
    }

    /// Whether two ranges are of one form over equal types.
    pub fn same(&self, other: &TypeKind) -> (r: bool)
        ensures
            r == same_range(self.view(), other.view()),
    {
        let a = self.children();
        let b = other.children();
        let ghost av = self.types_view();
        let ghost bv = other.types_view();
        assert(a@.len() == av.len());
        assert(b@.len() == bv.len());
        let form = match (self, other) {
            (TypeKind::Enumerated(x), TypeKind::Enumerated(y)) => x.len() == y.len(),
            (TypeKind::UIntRanges, TypeKind::UIntRanges) => true,
            (TypeKind::SubtypesOf(_), TypeKind::SubtypesOf(_)) => true,
            (TypeKind::Type, TypeKind::Type) => true,
            _ => false,
        };
        assert(form == (self.shape() == other.shape()));
        if !form {
            return false;
        }
        let mut i: usize = 0;
        while i < a.len()
            invariant
                i <= a.len(),
                a@.len() == av.len(),
                b@.len() == bv.len(),
                av.len() == bv.len(),
                av == self.view().types,
                bv == other.view().types,
                type_refs_view(a@) == av,
                type_refs_view(b@) == bv,
                forall|j: int| 0 <= j < i ==> ty_eq(#[trigger] av[j], bv[j]),
            decreases a.len() - i,
        {
            assert(a@[i as int].view() == av[i as int]);
            assert(b@[i as int].view() == bv[i as int]);
            if !a[i].same(b[i]) {
                return false;
            }
            i = i + 1;
        }
        true
    }

    /// Whether the range certainly does not hold `ty`.
    pub fn refuses(&self, ty: &Type) -> (r: bool)
        ensures
            r == range_refuses(self.view(), ty.view()),
    {
        match self {
            TypeKind::Type => false,
            TypeKind::UIntRanges => match ty {
                Type::UIntRange(_) => false,
                Type::Infer(_) => false,
                Type::Hole => false,
                Type::SharedHole(_) => false,
                _ => true,
            },
            TypeKind::SubtypesOf(_) => false,
            TypeKind::Enumerated(domains) => {
                if ty.holds_an_unresolved_position() {
                    return false;
                }
                let ghost ts = self.types_view();
                assert(ts == types_view(domains@));
                let mut i: usize = 0;
                while i < domains.len()
                    invariant
                        i <= domains.len(),
                        ts == types_view(domains@),
                        ts == self.view().types,
                        self.view().shape is Enumerated,
                        !unsettled(ty.view()),
                        forall|j: int| 0 <= j < i ==> !unsettled(#[trigger] ts[j]),
                    decreases domains.len() - i,
                {
                    assert(ts[i as int] == domains@[i as int].view());
                    if domains[i].holds_an_unresolved_position() {
                        return false;
                    }
                    i = i + 1;
                }
                let mut i: usize = 0;
                while i < domains.len()
                    invariant
                        i <= domains.len(),
                        ts == types_view(domains@),
                        ts == self.view().types,
                        self.view().shape is Enumerated,
                        !unsettled(ty.view()),
                        !any_unsettled(ts),
                        forall|j: int| 0 <= j < i ==> !ty_eq(#[trigger] ts[j], ty.view()),
                    decreases domains.len() - i,
                {
                    assert(ts[i as int] == domains@[i as int].view());
                    if domains[i].same(ty) {
                        return false;
                    }
                    i = i + 1;
                }
                true
            },
        }
    }
}

impl Witness {
    /// A new witness over `type_kind`.
    pub fn mint(type_kind: TypeKind, vars: &mut KindVars) -> (r: Witness)
        ensures
            r.id == WitnessId(WitnessBinderId(old(vars).next_witness)),
            r.range == type_kind,
            final(vars).next_witness == deeper(old(vars).next_witness),
            final(vars).view() == old(vars).view(),
    {
        Witness { id: WitnessId(vars.fresh_witness_binder_id()), range: type_kind }
    }

    /// The witness of the binder `binder`.
    pub fn bound_to(binder: WitnessBinderId, type_kind: TypeKind) -> (r: Witness)
        ensures
            r.id == WitnessId(binder),
            r.range == type_kind,
    {
        Witness { id: WitnessId(binder), range: type_kind }
    }

    /// The witness `id` over `type_kind`.
    pub fn with_id(id: WitnessId, type_kind: TypeKind) -> (r: Witness)
        ensures
            r.id == id,
            r.range == type_kind,
    {
        Witness { id, range: type_kind }
    }

    pub fn id(&self) -> (r: &WitnessId)
        ensures
            *r == self.id,
    {
        &self.id
    }

    /// What the witness ranges over.
    pub fn type_kind(&self) -> (r: TypeKind)
        ensures
            r.view() == self.range.view(),
    {
        self.range.clone()
    }

    /// The types its range names.
    pub fn children(&self) -> (r: Vec<&Type>)
        ensures
            type_refs_view(r@) == self.range.types_view(),
    {
        self.range.children()
    }

    /// The types its range names.
    pub fn types(&self) -> (r: Vec<&Type>)
        ensures
            type_refs_view(r@) == self.range.types_view(),
    {
        self.range.children()
    }

    /// The types its range names, to be written through: the binder stays the
    /// same binder.
    pub fn types_mut(&mut self) -> (r: &mut [Type])
        ensures
            types_view(r@) == old(self).range.types_view(),
            final(self).id == old(self).id,
            final(r)@.len() == r@.len() ==> final(self).range.shape() == old(self).range.shape()
                && final(self).range.types_view() == types_view(final(r)@),
    {
        self.range.children_mut()
    }

    /// The same range under another identity.
    pub fn renamed(&self, id: WitnessId) -> (r: Witness)
        ensures
            r.id == id,
            r.range.view() == self.range.view(),
    {
        Witness { id, range: self.range.clone() }
    }

    /// The witness with each type of its range replaced by what `f` makes of it.
    pub fn map_types<F: Fn(&Type) -> Type>(&self, f: F) -> (r: Witness)
        requires
            forall|x: &Type| #[trigger] call_requires(f, (x,)),
        ensures
            r.id == self.id,
            r.range.shape() == self.range.shape(),
            r.range.types_view().len() == self.range.types_view().len(),
            forall|i: int|
                0 <= i < self.range.types_view().len() ==> may_turn(
                    f,
                    #[trigger] self.range.types_view()[i],
                    r.range.types_view()[i],
                ),
    {
        Witness { id: self.id, range: self.range.map_children(f) }
    }

    /// Whether two witnesses are one: their identities agree.
    pub fn same(&self, other: &Witness) -> (r: bool)
        ensures
            r == (self.id == other.id),
    {
        self.id == other.id
    }
}

/// The witnesses in force at a position, outermost first.
pub struct WitnessContext {
    pub witnesses: Vec<Witness>,
}

/// What each witness of a list ranges over.
pub open spec fn scope_view(ws: Seq<Witness>) -> Seq<(WitnessId, RangeS)> {
    Seq::new(ws.len(), |i: int| (ws[i].id, ws[i].range.view()))
}

impl WitnessContext {
    pub open spec fn view(&self) -> Seq<(WitnessId, RangeS)> {
        scope_view(self.witnesses@)
    }

    /// The context with no witness in force.
    pub fn new() -> (r: WitnessContext)
        ensures
            r.view() == Seq::<(WitnessId, RangeS)>::empty(),
    {
        let out = WitnessContext { witnesses: Vec::new() };
        assert(out.view() =~= Seq::empty());
        out
    }

    /// The context inside the binders `binders`.
    pub fn extended(&self, binders: &Vec<Witness>) -> (r: WitnessContext)
        ensures
            r.view() == self.view() + scope_view(binders@),
    {
        let mut out: Vec<Witness> = Vec::new();
        let mut i: usize = 0;
        while i < self.witnesses.len()
            invariant
                i <= self.witnesses.len(),
                out.len() == i,
                forall|j: int| 0 <= j < i ==> scope_view(out@)[j] == #[trigger] self.view()[j],
            decreases self.witnesses.len() - i,
        {
            out.push(self.witnesses[i].clone());
            i = i + 1;
        }
        let ghost n = self.witnesses@.len();
        assert(scope_view(out@) =~= self.view());
        let mut i: usize = 0;
        while i < binders.len()
            invariant
                i <= binders.len(),
                n == self.view().len(),
                scope_view(out@) == self.view() + scope_view(binders@).take(i as int),
            decreases binders.len() - i,
        {
            let ghost before = out@;
            let w = binders[i].clone();
            out.push(w);
            assert(scope_view(out@) =~= scope_view(before).push((w.id, w.range.view())));
            assert(scope_view(out@) =~= self.view() + scope_view(binders@).take(i + 1));
            i = i + 1;
        }
        assert(scope_view(binders@).take(i as int) =~= scope_view(binders@));
        WitnessContext { witnesses: out }
    }

    /// What the innermost witness `id` ranges over, where one is in force.
    pub fn type_kind_of(&self, id: &WitnessId) -> (r: Option<TypeKind>)
        ensures
            match r {
                Some(k) => innermost(self.view(), *id) == Some(k.view()),
                None => innermost(self.view(), *id) is None,
            },
    {
        let ghost all = self.view();
        let mut n: usize = self.witnesses.len();
        assert(all.take(n as int) =~= all);
        while n > 0
            invariant
                n <= self.witnesses.len(),
                all == self.view(),
                innermost(all, *id) == innermost(all.take(n as int), *id),
            decreases n,
        {
            n = n - 1;
            assert(all.take(n + 1).drop_last() =~= all.take(n as int));
            assert(all.take(n + 1).last() == all[n as int]);
            if self.witnesses[n].id == *id {
                return Some(self.witnesses[n].range.clone());
            }
        }
        None
    }
}

/// Whether `ty` mentions the witness `binder` anywhere.
pub fn mentions_witness(ty: &Type, binder: &WitnessId) -> (r: bool)
    ensures
        r == mentions(ty.view(), *binder),
    decreases ty.view(),
{
    match ty {
        Type::WitnessRef(w) => {
            if *w == *binder {
                return true;
            }
        },
        _ => {},
    }
    let ghost tv = ty.view();
    let kids = ty.walk_children();
    assert(kids@.len() == tv.kids.len());
    let mut i: usize = 0;
    while i < kids.len()
        invariant
            i <= kids.len(),
            tv == ty.view(),
            tv.head != TypeHeadS::WitnessRef(*binder),
            kids@.len() == tv.kids.len(),
            type_refs_view(kids@) == tv.kids,
            forall|j: int| 0 <= j < i ==> !mentions(#[trigger] tv.kids[j], *binder),
        decreases kids.len() - i,
    {
        assert(kids@[i as int].view() == tv.kids[i as int]);
        assert(decreases_to!(tv => tv.kids[i as int]));
        if mentions_witness(kids[i], binder) {
            return true;
        }
        i = i + 1;
    }
    false
}

proof fn lemma_width_grows(ws: Seq<WitnessS>, n: nat)
    requires
        n <= ws.len(),
    ensures
        ranges_width(ws.take(n as int)) <= ranges_width(ws),
    decreases ws.len(),
{
    if n < ws.len() {
        lemma_width_grows(ws.drop_last(), n);
        assert(ws.drop_last().take(n as int) =~= ws.take(n as int));
    } else {
        assert(ws.take(n as int) =~= ws);
    }
}

proof fn lemma_force_stops(ws: Seq<WitnessS>, n: nat, i: int)
    requires
        n < ws.len(),
        ranges_width(ws.take(n as int)) <= i < ranges_width(ws.take((n + 1) as int)),
    ensures
        in_force(ws, i) == witness_ids(ws.take(n as int)),
    decreases ws.len(),
{
    lemma_width_grows(ws, n + 1);
    let init = ws.drop_last();
    if n + 1 < ws.len() {
        assert(init.take(n as int) =~= ws.take(n as int));
        assert(init.take((n + 1) as int) =~= ws.take((n + 1) as int));
        lemma_force_stops(init, n, i);
    } else {
        assert(init =~= ws.take(n as int));
        assert(in_force(init, i) == witness_ids(init));
    }
}

/// How many of `ws` are in force at component `i`.
fn count_in_force(ws: &Vec<Witness>, i: usize) -> (n: usize)
    ensures
        n <= ws.len(),
        in_force(witnesses_view(ws@), i as int) == witness_ids(
            witnesses_view(ws@).take(n as int),
        ),
{
    let ghost all = witnesses_view(ws@);
    let mut n: usize = 0;
    let mut width: usize = 0;
    assert(all.take(0) =~= Seq::empty());
    while n < ws.len()
        invariant
            n <= ws.len(),
            all == witnesses_view(ws@),
            width == ranges_width(all.take(n as int)),
            width <= i,
        decreases ws.len() - n,
    {
        assert(all.take(n + 1).drop_last() =~= all.take(n as int));
        assert(all.take(n + 1).last() == all[n as int]);
        let ts = ws[n].range.children();
        let w: usize = ts.len();
        assert(type_refs_view(ts@).len() == ts@.len());
        assert(w == shape_width(all[n as int].shape));
        if w > i - width {
            proof {
                lemma_force_stops(all, n as nat, i as int);
            }
            return n;
        }
        width = width + w;
        n = n + 1;
    }
    assert(all.take(n as int) =~= all);
    n
}

/// The witnesses in force at component `i` of `ty`, inside `scope`.
pub fn scope_at(scope: &Vec<WitnessId>, ty: &Type, i: usize) -> (r: Vec<WitnessId>)
    ensures
        r@ == scope@ + binders_at(ty.view(), i as int),
{
    let mut out: Vec<WitnessId> = Vec::new();
    let mut k: usize = 0;
    while k < scope.len()
        invariant
            k <= scope.len(),
            out@ == scope@.take(k as int),
        decreases scope.len() - k,
    {
        out.push(scope[k]);
        assert(out@ =~= scope@.take(k + 1));
        k = k + 1;
    }
    assert(out@ =~= scope@);
    match ty {
        Type::Fun { name, fun_kind: FunKind::Data(Some(ws)), domain, codomain } => {
            let ghost all = witnesses_view(ws@);
            let n: usize = count_in_force(ws, i);
            let mut k: usize = 0;
            assert(out@ =~= scope@ + witness_ids(all).take(0));
            while k < n
                invariant
                    k <= n,
                    n <= ws.len(),
                    all == witnesses_view(ws@),
                    out@ == scope@ + witness_ids(all).take(k as int),
                decreases n - k,
            {
                out.push(ws[k].id);
                assert(out@ =~= scope@ + witness_ids(all).take(k + 1));
                k = k + 1;
            }
            assert(witness_ids(all).take(n as int) =~= witness_ids(all.take(n as int)));
        },
        _ => {
            assert(sum_of(ty.view()).len() == 0);
            assert(out@ =~= scope@ + binders_at(ty.view(), i as int));
        },
    }
    out
}

fn has_id(v: &Vec<WitnessId>, w: WitnessId) -> (r: bool)
    ensures
        r == v@.contains(w),
{
    let mut i: usize = 0;
    while i < v.len()
        invariant
            i <= v.len(),
            forall|j: int| 0 <= j < i ==> v@[j] != w,
        decreases v.len() - i,
    {
        if v[i] == w {
            return true;
        }
        i = i + 1;
    }
    false
}

/// Adds the witnesses free in `ty` under `scope` to `found`.
fn collect_free_refs(ty: &Type, scope: &Vec<WitnessId>, found: Vec<WitnessId>) -> (r: Vec<WitnessId>)
    ensures
        r@ == free_refs(ty.view(), scope@, found@),
    decreases ty.view(),
{
    match ty {
        Type::WitnessRef(w) => {
            let mut found = found;
            if !has_id(scope, *w) && !has_id(&found, *w) {
                found.push(*w);
            }
            return found;
        },
        _ => {},
    }
    let ghost tv = ty.view();
    let ghost start = found@;
    let kids = ty.walk_children();
    assert(kids@.len() == tv.kids.len());
    let mut out = found;
    let mut i: usize = 0;
    while i < kids.len()
        invariant
            i <= kids.len(),
            tv == ty.view(),
            kids@.len() == tv.kids.len(),
            type_refs_view(kids@) == tv.kids,
            out@ == free_refs_upto(tv, scope@, start, i as nat),
        decreases kids.len() - i,
    {
        assert(kids@[i as int].view() == tv.kids[i as int]);
        assert(decreases_to!(tv => tv.kids[i as int]));
        let inner = scope_at(scope, ty, i);
        out = collect_free_refs(kids[i], &inner, out);
        i = i + 1;
    }
    out
}

/// The witnesses `ty` mentions that neither it nor `in_scope` binds: each
/// once, in the order met.
pub fn free_witness_refs(ty: &Type, in_scope: &Vec<WitnessId>) -> (r: Vec<WitnessId>)
    ensures
        r@ == free_refs(ty.view(), in_scope@, Seq::empty()),
{
    collect_free_refs(ty, in_scope, Vec::new())
}

/// Whether `ty` mentions a witness that neither it nor `in_scope` binds.
pub fn has_free_witness_ref(ty: &Type, in_scope: &Vec<WitnessId>) -> (r: bool)
    ensures
        r == (free_refs(ty.view(), in_scope@, Seq::empty()).len() > 0),
{
    free_witness_refs(ty, in_scope).len() > 0
}

/// The kind of data over one witness.
fn one_binder(w: Witness) -> (r: FunKind)
    ensures
        r.view() == FunKindS::Data(Some(seq![w.view()])),
        r.types_view() == w.range.types_view(),
{
    let mut ws: Vec<Witness> = Vec::new();
    ws.push(w);
    assert(ws@.take(0) =~= Seq::empty());
    assert(witness_types_view(ws@.take(0)) =~= Seq::empty());
    assert(witness_types_view(ws@) =~= w.range.types_view());
    assert(witnesses_view(ws@) =~= seq![w.view()]);
    FunKind::Data(Some(ws))
}

impl Type {
    /// The type without the restrictions around it.
    fn unrestricted(&self) -> (r: &Type)
        ensures
            r.view() == bare_head(self.view()),
        decreases self.view(),
    {
        match self {
            Type::Refinement(inner, _) => {
                assert(self.view().kids[0] == inner.view());
                assert(decreases_to!(self.view() => self.view().kids[0]));
                inner.unrestricted()
            },
            _ => self,
        }
    }

    /// Whether the function the type denotes is indexed by a witness: one it
    /// binds, or one bound around it.
    pub fn is_witness_indexed(&self) -> (r: bool)
        ensures
            r == witness_indexed(self.view()),
    {
        let head = self.unrestricted();
        let none: Vec<WitnessId> = Vec::new();
        head.sum().is_some() || has_free_witness_ref(head, &none)
    }

    /// What the outermost witness the type binds ranges over.
    pub fn witness_kind(&self) -> (r: Option<TypeKind>)
        ensures
            match r {
                Some(k) => first_range(self.view()) == Some(k.view()),
                None => first_range(self.view()) is None,
            },
    {
        let head = self.unrestricted();
        match head.sum() {
            Some(ws) => {
                let ghost h = head.view();
                let out = ws[0].type_kind();
                proof {
                    lemma_first_range(ws@);
                    let n = shape_width(ws@[0].range.shape()) as int;
                    assert(witnesses_view(ws@)[0].shape == ws@[0].range.shape());
                    assert(h.kids.take(n) =~= h.kids.take(h.kids.len() - 2).take(n));
                }
                Some(out)
            },
            None => None,
        }
    }

    /// Data over one new witness of the range `type_kind`, indexed by it.
    pub fn sum_over(
        type_kind: TypeKind,
        name: Option<Name>,
        codomain: Type,
        vars: &mut KindVars,
    ) -> (r: Type)
        requires
            type_kind.shape() != KindShapeS::Enumerated(0),
        ensures
            r.view() == sum_type(
                WitnessId(WitnessBinderId(old(vars).next_witness)),
                type_kind.view(),
                opt_name_view(name),
                codomain.view(),
            ),
            final(vars).next_witness == deeper(old(vars).next_witness),
            final(vars).view() == old(vars).view(),
    {
        let ghost range = type_kind.view();
        let ghost n = opt_name_view(name);
        let w = Witness::mint(type_kind, vars);
        let id = w.id;
        let fun_kind = one_binder(w);
        let domain = Type::WitnessRef(id);
        assert(domain.view() == leaf_ty(TypeHeadS::WitnessRef(id)));
        let out = Type::Fun {
            name,
            fun_kind,
            domain: Box::new(domain),
            codomain: Box::new(codomain),
        };
        assert(out.view() == node_ty(
            TypeHeadS::Fun(n, fun_kind.view()),
            fun_kind.types_view().push(leaf_ty(TypeHeadS::WitnessRef(id))).push(codomain.view()),
        ));
        out
    }

    /// Data over an initial segment of the natural numbers.
    pub fn list_of(elem: Type, vars: &mut KindVars) -> (r: Type)
        ensures
            r.view() == sum_type(
                WitnessId(WitnessBinderId(old(vars).next_witness)),
                (RangeS { shape: KindShapeS::UIntRanges, types: Seq::empty() }),
                None,
                elem.view(),
            ),
            final(vars).next_witness == deeper(old(vars).next_witness),
            final(vars).view() == old(vars).view(),
    {
        Type::sum_over(TypeKind::UIntRanges, None, elem, vars)
    }

    /// Data over some of the keys of `key`.
    pub fn map_of(key: Type, value: Type, vars: &mut KindVars) -> (r: Type)
        ensures
            r.view() == sum_type(
                WitnessId(WitnessBinderId(old(vars).next_witness)),
                (RangeS { shape: KindShapeS::SubtypesOf, types: seq![key.view()] }),
                None,
                value.view(),
            ),
            final(vars).next_witness == deeper(old(vars).next_witness),
            final(vars).view() == old(vars).view(),
    {
        Type::sum_over(TypeKind::SubtypesOf(Box::new(key)), None, value, vars)
    }

    /// Some of the keys of `key`.
    pub fn set_of(key: Type, vars: &mut KindVars) -> (r: Type)
        ensures
            r.view() == sum_type(
                WitnessId(WitnessBinderId(old(vars).next_witness)),
                (RangeS { shape: KindShapeS::SubtypesOf, types: seq![key.view()] }),
                None,
                leaf_ty(TypeHeadS::Base(BaseType::Unit)),
            ),
            final(vars).next_witness == deeper(old(vars).next_witness),
            final(vars).view() == old(vars).view(),
    {
        Type::map_of(key, Type::Base(BaseType::Unit), vars)
    }

    /// Data over a domain of any type.
    pub fn collection_of(elem: Type, vars: &mut KindVars) -> (r: Type)
        ensures
            r.view() == sum_type(
                WitnessId(WitnessBinderId(old(vars).next_witness)),
                (RangeS { shape: KindShapeS::Type, types: Seq::empty() }),
                None,
                elem.view(),
            ),
            final(vars).next_witness == deeper(old(vars).next_witness),
            final(vars).view() == old(vars).view(),
    {
        Type::sum_over(TypeKind::Type, None, elem, vars)
    }
}

proof fn lemma_first_range(ws: Seq<Witness>)
    requires
        ws.len() > 0,
    ensures
        shape_width(ws[0].range.shape()) <= witness_types_view(ws).len(),
        witness_types_view(ws).take(shape_width(ws[0].range.shape()) as int)
            == ws[0].range.types_view(),
    decreases ws.len(),
{
    let init = ws.take(ws.len() - 1);
    let n = shape_width(ws[0].range.shape()) as int;
    assert(ws[0].range.types_view().len() == n);
    if ws.len() > 1 {
        assert(init[0] == ws[0]);
        lemma_first_range(init);
        assert(witness_types_view(ws).take(n) =~= witness_types_view(init).take(n));
    } else {
        assert(witness_types_view(init) =~= Seq::empty());
        assert(witness_types_view(ws).take(n) =~= ws[0].range.types_view());
    }
}

} // verus!
