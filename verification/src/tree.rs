//! Reading a term or a type as a tree: taking its parts, and putting a form
//! back together over other parts.
use std::rc::Rc;
use vstd::prelude::*;
use crate::ast::{
    Builtin, Expr, ExprS, FieldKey, FunKind, Lit, ProjKey, Type, TypeKind, TypeS, Witness,
    arm_keys_view, arm_types_view, field_names_view, field_types_view, opt_name_view,
    predicates_view, types_view, witness_types_view, witnesses_view,
};
use crate::name::Name;
use crate::refinement_set::{RefinementSet, deduped, distinct};
use crate::sharing::{shared_refs_view, shared_view};

verus! {

pub open spec fn expr_refs_view(v: Seq<&Expr>) -> Seq<ExprS> {
    Seq::new(v.len(), |i: int| v[i].view())
}

pub open spec fn type_refs_view(v: Seq<&Type>) -> Seq<TypeS> {
    Seq::new(v.len(), |i: int| v[i].view())
}

/// The form of `e` over other subterms and type slots.
pub open spec fn with_parts(e: ExprS, kids: Seq<ExprS>, tys: Seq<TypeS>) -> ExprS {
    ExprS { kids, tys, ..e }
}

/// The form of `e` over other subterms.
pub open spec fn with_kids(e: ExprS, kids: Seq<ExprS>) -> ExprS {
    ExprS { kids, ..e }
}

/// `e` with the recorded type `ty`.
pub open spec fn with_ty(e: ExprS, ty: TypeS) -> ExprS {
    ExprS { tys: e.tys.update(0, ty), ..e }
}

// ---- copies of the leaves ----

impl Clone for Lit {
    fn clone(&self) -> (r: Lit)
        ensures
            r.view() == self.view(),
    {
        match self {
            Lit::Int(n) => Lit::Int(*n),
            Lit::String(s) => Lit::String(s.clone()),
            Lit::Bool(b) => Lit::Bool(*b),
            Lit::Unit => Lit::Unit,
        }
    }
}

impl Clone for FieldKey {
    fn clone(&self) -> (r: FieldKey)
        ensures
            r.view() == self.view(),
    {
        match self {
            FieldKey::Index(n) => FieldKey::Index(*n),
            FieldKey::Name(s) => FieldKey::Name(s.clone()),
        }
    }
}

impl Clone for ProjKey {
    fn clone(&self) -> (r: ProjKey)
        ensures
            r.view() == self.view(),
    {
        match self {
            ProjKey::Index(n) => ProjKey::Index(*n),
            ProjKey::Field(s) => ProjKey::Field(s.clone()),
        }
    }
}

impl Clone for Builtin {
    fn clone(&self) -> (r: Builtin)
        ensures
            r.view() == self.view(),
    {
        match self {
            Builtin::AsOf => Builtin::AsOf,
            Builtin::AsOfRead => Builtin::AsOfRead,
            Builtin::AwaitFinal => Builtin::AwaitFinal,
            Builtin::BeginTxn => Builtin::BeginTxn,
            Builtin::Box => Builtin::Box,
            Builtin::Const => Builtin::Const,
            Builtin::FinalRead => Builtin::FinalRead,
            Builtin::GetPrevTxn => Builtin::GetPrevTxn,
            Builtin::Iterate => Builtin::Iterate,
            Builtin::VariantProject(t) => Builtin::VariantProject(t.clone()),
            Builtin::VariantWrap(t) => Builtin::VariantWrap(t.clone()),
            Builtin::Zip => Builtin::Zip,
        }
    }
}

/// A copy of an optional name.
pub fn clone_opt_name(n: &Option<Name>) -> (r: Option<Name>)
    ensures
        opt_name_view(r) == opt_name_view(*n),
{
    match n {
        Some(x) => Some(x.clone()),
        None => None,
    }
}

// ---- parts of a type ----

/// References to the elements of `v`.
pub(crate) fn refs<'a, T>(v: &'a Vec<T>) -> (r: Vec<&'a T>)
    ensures
        r.len() == v.len(),
        forall|i: int| 0 <= i < v.len() ==> *r@[i] == v@[i],
{
    let mut out: Vec<&'a T> = Vec::new();
    let mut i: usize = 0;
    while i < v.len()
        invariant
            i <= v.len(),
            out.len() == i,
            forall|j: int| 0 <= j < i ==> *out@[j] == v@[j],
        decreases v.len() - i,
    {
        out.push(&v[i]);
        i = i + 1;
    }
    out
}

/// References to the second components of `v`.
pub(crate) fn second_refs<'a, K, T>(v: &'a Vec<(K, T)>) -> (r: Vec<&'a T>)
    ensures
        r.len() == v.len(),
        forall|i: int| 0 <= i < v.len() ==> *r@[i] == v@[i].1,
{
    let mut out: Vec<&'a T> = Vec::new();
    let mut i: usize = 0;
    while i < v.len()
        invariant
            i <= v.len(),
            out.len() == i,
            forall|j: int| 0 <= j < i ==> *out@[j] == v@[j].1,
        decreases v.len() - i,
    {
        out.push(&v[i].1);
        i = i + 1;
    }
    out
}

impl TypeKind {
    /// The types of the range, in order.
    pub fn children(&self) -> (r: Vec<&Type>)
        ensures
            type_refs_view(r@) == self.types_view(),
    {
        match self {
            TypeKind::Enumerated(ts) => {
                let out = refs(ts);
                assert(type_refs_view(out@) =~= self.types_view());
                out
            },
            TypeKind::SubtypesOf(k) => {
                let mut out: Vec<&Type> = Vec::new();
                out.push(&**k);
                assert(type_refs_view(out@) =~= self.types_view());
                out
            },
            TypeKind::UIntRanges | TypeKind::Type => {
                let out: Vec<&Type> = Vec::new();
                assert(type_refs_view(out@) =~= self.types_view());
                out
            },
        }
    }
}

/// The types of the ranges of `ws`, in order.
pub fn witness_types(ws: &Vec<Witness>) -> (r: Vec<&Type>)
    ensures
        type_refs_view(r@) == witness_types_view(ws@),
{
    let mut out: Vec<&Type> = Vec::new();
    let mut i: usize = 0;
    assert(type_refs_view(out@) =~= witness_types_view(ws@.take(0)));
    while i < ws.len()
        invariant
            i <= ws.len(),
            type_refs_view(out@) == witness_types_view(ws@.take(i as int)),
        decreases ws.len() - i,
    {
        let mut more = ws[i].range.children();
        let ghost a = out@;
        let ghost b = more@;
        out.append(&mut more);
        proof {
            assert(type_refs_view(out@) =~= type_refs_view(a) + type_refs_view(b));
            assert(ws@.take(i + 1).take(i as int) =~= ws@.take(i as int));
        }
        i = i + 1;
    }
    assert(ws@.take(i as int) =~= ws@);
    out
}

impl Type {
    /// The component types, in the order a walk visits them.
    pub fn walk_children(&self) -> (r: Vec<&Type>)
        ensures
            type_refs_view(r@) == self.view().kids,
    {
        let mut out: Vec<&Type> = Vec::new();
        match self {
            Type::BoundedHole(t) => {
                out.push(&**t);
            },
            Type::Fun { name, fun_kind, domain, codomain } => {
                match fun_kind {
                    FunKind::Data(Some(ws)) => {
                        out = witness_types(ws);
                    },
                    _ => {},
                }
                assert(type_refs_view(out@) =~= fun_kind.types_view());
                out.push(&**domain);
                out.push(&**codomain);
            },
            Type::Tuple(ts) => {
                out = refs(ts);
                assert(type_refs_view(out@) =~= types_view(ts@));
            },
            Type::Record(fs) => {
                out = second_refs(fs);
                assert(type_refs_view(out@) =~= field_types_view(fs@));
            },
            Type::Variant(arms, _) => {
                out = second_refs(arms);
                assert(type_refs_view(out@) =~= arm_types_view(arms@));
            },
            Type::Refinement(base, _) => {
                out.push(&**base);
            },
            Type::History { value, domain, history_kind } => {
                out.push(&**value);
                out.push(&**domain);
            },
            _ => {},
        }
        assert(type_refs_view(out@) =~= self.view().kids);
        out
    }

    /// The predicates the type is restricted by, to be shared.
    pub fn shared_predicates(&self) -> (r: Vec<&Rc<Expr>>)
        ensures
            shared_refs_view(r@) == self.view().preds,
            distinct(self.view().preds),
    {
        match self {
            Type::Refinement(_, set) => set.shared(),
            _ => {
                let none: Vec<&Rc<Expr>> = Vec::new();
                assert(self.view().preds =~= Seq::empty());
                assert(shared_refs_view(none@) =~= self.view().preds);
                none
            },
        }
    }

    /// The predicates the type is restricted by.
    pub fn predicates(&self) -> (r: Vec<&Expr>)
        ensures
            expr_refs_view(r@) == self.view().preds,
    {
        let mut out: Vec<&Expr> = Vec::new();
        match self {
            Type::Refinement(_, set) => {
                let n: usize = set.len();
                let mut i: usize = 0;
                while i < n
                    invariant
                        i <= n,
                        n == set.members().len(),
                        out.len() == i,
                        forall|j: int| 0 <= j < i ==> *out@[j] == *set.members()[j].predicate,
                    decreases n - i,
                {
                    out.push(&*set.member(i).predicate);
                    i = i + 1;
                }
                assert(expr_refs_view(out@) =~= predicates_view(set.members()));
            },
            _ => {},
        }
        assert(expr_refs_view(out@) =~= self.view().preds);
        out
    }
}

/// Takes the first `n` elements off `v`.
pub(crate) fn take_front<T>(v: &mut Vec<T>, n: usize) -> (r: Vec<T>)
    requires
        n <= old(v).len(),
    ensures
        r@ == old(v)@.take(n as int),
        final(v)@ == old(v)@.skip(n as int),
{
    let ghost whole = v@;
    let mut out: Vec<T> = Vec::new();
    let mut i: usize = 0;
    assert(v@ =~= whole.skip(0));
    while i < n
        invariant
            i <= n <= whole.len(),
            out@ == whole.take(i as int),
            v@ == whole.skip(i as int),
        decreases n - i,
    {
        let x = v.remove(0);
        out.push(x);
        assert(out@ =~= whole.take(i + 1));
        assert(v@ =~= whole.skip(i + 1));
        i = i + 1;
    }
    out
}

impl TypeKind {
    /// This form of range over the types `kids`.
    pub fn with_types(&self, kids: Vec<Type>) -> (r: TypeKind)
        requires
            kids@.len() == self.types_view().len(),
        ensures
            r.shape() == self.shape(),
            r.types_view() == types_view(kids@),
    {
        let mut kids = kids;
        let ghost whole = kids@;
        match self {
            TypeKind::Enumerated(ts) => TypeKind::Enumerated(kids),
            TypeKind::SubtypesOf(k) => {
                let t = kids.remove(0);
                let out = TypeKind::SubtypesOf(Box::new(t));
                assert(out.types_view() =~= types_view(whole));
                out
            },
            TypeKind::UIntRanges => {
                assert(types_view(whole) =~= Seq::empty());
                TypeKind::UIntRanges
            },
            TypeKind::Type => {
                assert(types_view(whole) =~= Seq::empty());
                TypeKind::Type
            },
        }
    }

    /// How many types the range names.
    pub fn width(&self) -> (r: usize)
        ensures
            r == self.types_view().len(),
    {
        match self {
            TypeKind::Enumerated(ts) => ts.len(),
            TypeKind::SubtypesOf(_) => 1,
            TypeKind::UIntRanges | TypeKind::Type => 0,
        }
    }
}

proof fn lemma_witness_types_step(ws: Seq<Witness>, i: int)
    requires
        0 <= i < ws.len(),
    ensures
        witness_types_view(ws.take(i + 1)) == witness_types_view(ws.take(i))
            + ws[i].range.types_view(),
{
    assert(ws.take(i + 1).take(i) =~= ws.take(i));
}

pub proof fn lemma_witness_types_prefix(ws: Seq<Witness>, i: int)
    requires
        0 <= i <= ws.len(),
    ensures
        witness_types_view(ws.take(i)).len() <= witness_types_view(ws).len(),
    decreases ws.len(),
{
    if i < ws.len() {
        lemma_witness_types_prefix(ws.take(ws.len() - 1), i);
        assert(ws.take(ws.len() - 1).take(i) =~= ws.take(i));
    } else {
        assert(ws.take(i) =~= ws);
    }
}

/// These binders over the types `kids` of their ranges.
pub fn with_witness_types(ws: &Vec<Witness>, kids: Vec<Type>) -> (r: Vec<Witness>)
    requires
        kids@.len() == witness_types_view(ws@).len(),
    ensures
        witnesses_view(r@) == witnesses_view(ws@),
        witness_types_view(r@) == types_view(kids@),
{
    let mut kids = kids;
    let ghost whole = kids@;
    let mut out: Vec<Witness> = Vec::new();
    let mut i: usize = 0;
    let ghost mut c: int = 0;
    proof {
        assert(ws@.take(0) =~= Seq::empty());
        assert(kids@ =~= whole.skip(0));
        assert(types_view(whole.take(0)) =~= Seq::empty());
        lemma_witness_types_prefix(ws@, 0);
    }
    while i < ws.len()
        invariant
            i <= ws.len(),
            out.len() == i,
            whole.len() == witness_types_view(ws@).len(),
            c == witness_types_view(ws@.take(i as int)).len(),
            0 <= c <= whole.len(),
            kids@ == whole.skip(c),
            witness_types_view(out@) == types_view(whole.take(c)),
            forall|j: int| 0 <= j < i ==> (#[trigger] out@[j]).view() == ws@[j].view(),
        decreases ws.len() - i,
    {
        let n: usize = ws[i].range.width();
        let ghost done = out@;
        proof {
            lemma_witness_types_prefix(ws@, i + 1);
            lemma_witness_types_step(ws@, i as int);
        }
        let mine = take_front(&mut kids, n);
        let ghost got = mine@;
        let range = ws[i].range.with_types(mine);
        out.push(Witness { id: ws[i].id, range });
        proof {
            lemma_witness_types_step(out@, i as int);
            assert(out@.take(i as int) =~= done);
            assert(out@.take(i + 1) =~= out@);
            assert(kids@ =~= whole.skip(c + n));
            assert(got =~= whole.subrange(c, c + n));
            assert(types_view(whole.take(c)) + types_view(got) =~= types_view(whole.take(c + n)));
            c = c + n;
        }
        i = i + 1;
    }
    assert(ws@.take(i as int) =~= ws@);
    assert(whole.take(whole.len() as int) =~= whole);
    assert(witnesses_view(out@) =~= witnesses_view(ws@));
    out
}

impl Type {
    /// This form of type over other components and predicates.
    pub fn rebuild(&self, kids: Vec<Type>, preds: Vec<Rc<Expr>>) -> (r: Type)
        requires
            kids@.len() == self.view().kids.len(),
            preds@.len() == self.view().preds.len(),
        ensures
            r.view() == (TypeS {
                head: self.view().head,
                kids: types_view(kids@),
                preds: deduped(shared_view(preds@)),
            }),
    {
        let mut kids = kids;
        let ghost whole = kids@;
        let ghost pwhole = preds@;
        let out = match self {
            Type::Base(b) => Type::Base(*b),
            Type::UIntRange(n) => Type::UIntRange(*n),
            Type::Fun { name, fun_kind, domain, codomain } => {
                let cod = kids.pop().unwrap();
                let dom = kids.pop().unwrap();
                assert(kids@ =~= whole.take(whole.len() - 2));
                assert(self.view().kids.len() == fun_kind.types_view().len() + 2);
                let kind = match fun_kind {
                    FunKind::Compute => FunKind::Compute,
                    FunKind::Data(None) => FunKind::Data(None),
                    FunKind::Data(Some(ws)) => {
                        assert(fun_kind.types_view() == witness_types_view(ws@));
                        FunKind::Data(Some(with_witness_types(ws, kids)))
                    },
                    FunKind::Var(v) => FunKind::Var(*v),
                };
                assert(kind.types_view() =~= types_view(whole.take(whole.len() - 2)));
                assert(kind.types_view().push(dom.view()).push(cod.view()) =~= types_view(whole));
                Type::Fun {
                    name: clone_opt_name(name),
                    fun_kind: kind,
                    domain: Box::new(dom),
                    codomain: Box::new(cod),
                }
            },
            Type::Tuple(_) => Type::Tuple(kids),
            Type::Record(fs) => {
                assert(field_types_view(fs@).len() == fs@.len());
                let mut out: Vec<(String, Type)> = Vec::new();
                let mut i: usize = 0;
                assert(kids@ =~= whole.skip(0));
                while i < fs.len()
                    invariant
                        i <= fs.len(),
                        out.len() == i,
                        whole.len() == fs.len(),
                        kids@ == whole.skip(i as int),
                        forall|j: int| 0 <= j < i ==> (#[trigger] out@[j]).1 == whole[j],
                        forall|j: int| 0 <= j < i ==> (#[trigger] out@[j]).0@ == fs@[j].0@,
                    decreases fs.len() - i,
                {
                    let t = kids.remove(0);
                    assert(kids@ =~= whole.skip(i + 1));
                    out.push((fs[i].0.clone(), t));
                    i = i + 1;
                }
                assert(field_names_view(out@) =~= field_names_view(fs@));
                assert(field_types_view(out@) =~= types_view(whole));
                Type::Record(out)
            },
            Type::Variant(arms, openness) => {
                assert(arm_types_view(arms@).len() == arms@.len());
                let mut out: Vec<(FieldKey, Type)> = Vec::new();
                let mut i: usize = 0;
                assert(kids@ =~= whole.skip(0));
                while i < arms.len()
                    invariant
                        i <= arms.len(),
                        out.len() == i,
                        whole.len() == arms.len(),
                        kids@ == whole.skip(i as int),
                        forall|j: int| 0 <= j < i ==> (#[trigger] out@[j]).1 == whole[j],
                        forall|j: int| 0 <= j < i ==> (#[trigger] out@[j]).0.view() == arms@[j].0.view(),
                    decreases arms.len() - i,
                {
                    let t = kids.remove(0);
                    assert(kids@ =~= whole.skip(i + 1));
                    out.push((arms[i].0.clone(), t));
                    i = i + 1;
                }
                assert(arm_keys_view(out@) =~= arm_keys_view(arms@));
                assert(arm_types_view(out@) =~= types_view(whole));
                Type::Variant(out, *openness)
            },
            Type::Refinement(_, _) => {
                let base = kids.pop().unwrap();
                let set = RefinementSet::restricting(preds);
                Type::Refinement(Box::new(base), set)
            },
            Type::Hole => Type::Hole,
            Type::SharedHole(id) => Type::SharedHole(*id),
            Type::BoundedHole(_) => {
                let t = kids.pop().unwrap();
                Type::BoundedHole(Box::new(t))
            },
            Type::Infer(v) => Type::Infer(*v),
            Type::DataSource(s) => Type::DataSource(s.clone()),
            Type::ChanDom(n, l) => Type::ChanDom(n.clone(), *l),
            Type::Txn => Type::Txn,
            Type::History { value, domain, history_kind } => {
                let d = kids.pop().unwrap();
                let v = kids.pop().unwrap();
                Type::History { value: Box::new(v), domain: Box::new(d), history_kind: *history_kind }
            },
            Type::WitnessRef(w) => Type::WitnessRef(*w),
        };
        assert(out.view().kids =~= types_view(whole));
        assert(out.view().preds =~= deduped(shared_view(pwhole)));
        out
    }
}

} // verus!
