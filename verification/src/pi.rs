//! Binder references in stored types: closing a binder's free references into
//! indices, and opening them again.
//!
//! An index counts the function codomains between a reference and the function
//! that binds it, named and unnamed alike.
use std::rc::Rc;
use vstd::prelude::*;
use crate::ast::{
    Expr, ExprS, HeadS, Refinement, Type, TypeHeadS, TypeS, TypedExprNode, exprs_view,
    opt_name_view, types_view,
};
use crate::make::var_s;
use crate::name::{Name, NameS, clone_names, has_name, names_view};
use crate::refinement_set::{deduped, law_a_set_has_no_duplicates};
use crate::scope::{free_in_ty, is_free_in_type, scope, scope_of};
use crate::sharing::{PredMemo, one_term, share, shared_refs_view, shared_view};
use crate::tree::{expr_refs_view, type_refs_view};

verus! {

/// What a name stands for: another name, or a term.
pub enum Mapping {
    Rename(Name),
    Discharge(Box<Expr>),
}

pub enum MappingS {
    Rename(NameS),
    Discharge(ExprS),
}

impl Mapping {
    pub open spec fn view(&self) -> MappingS {
        match self {
            Mapping::Rename(n) => MappingS::Rename(n@),
            Mapping::Discharge(t) => MappingS::Discharge(t.view()),
        }
    }
}

impl Clone for Mapping {
    fn clone(&self) -> (r: Mapping)
        ensures
            r.view() == self.view(),
    {
        match self {
            Mapping::Rename(n) => Mapping::Rename(n.clone()),
            Mapping::Discharge(t) => Mapping::Discharge(Box::new((**t).clone())),
        }
    }
}

/// What takes the place of an occurrence of type `ty`: a name at that type, or
/// the term as it stands.
pub open spec fn replacement(m: MappingS, ty: TypeS) -> ExprS {
    match m {
        MappingS::Rename(to) => var_s(to, ty),
        MappingS::Discharge(t) => t,
    }
}

/// Whether replacing an occurrence of type `ty` keeps it typed.
pub open spec fn keeps_typed(m: MappingS, ty: TypeS) -> bool {
    m matches MappingS::Discharge(t) ==> ty.head is Hole || !(t.ty().head is Hole)
}

impl Mapping {
    /// What takes the place of an occurrence of type `occurrence_ty`.
    pub fn as_expr(&self, occurrence_ty: &Type) -> (r: Expr)
        requires
            keeps_typed(self.view(), occurrence_ty.view()),
        ensures
            r.view() == replacement(self.view(), occurrence_ty.view()),
    {
        match self {
            Mapping::Rename(to) => {
                let out = Expr::var(to.clone()).with_ty(occurrence_ty.clone());
                assert(out.view().tys =~= seq![occurrence_ty.view()]);
                out
            },
            Mapping::Discharge(t) => (**t).clone(),
        }
    }
}

/// The depth one codomain further in; depths start over after the last one.
pub open spec fn deeper(d: u32) -> u32 {
    if d == u32::MAX { 0 } else { (d + 1) as u32 }
}

/// `d` codomains further out than depth `depth`.
pub open spec fn index_at(d: nat, depth: u32) -> u32
    decreases d,
{
    if d == 0 {
        depth
    } else {
        deeper(index_at((d - 1) as nat, depth))
    }
}

/// How many functions in from the last one `n` is named, if any names it.
pub open spec fn distance_to(enclosing: Seq<Option<NameS>>, n: NameS) -> Option<nat>
    decreases enclosing.len(),
{
    if enclosing.len() == 0 {
        None
    } else if enclosing.last() == Some(n) {
        Some(0)
    } else {
        match distance_to(enclosing.drop_last(), n) {
            Some(d) => Some(d + 1),
            None => None,
        }
    }
}

/// A walk over stored types: closing the names of the enclosing functions, or
/// opening the references to one function.
pub enum PiModeS {
    Close(Seq<Option<NameS>>),
    Open(MappingS),
}

/// Whether a form is a reference to the function `depth` crossings out.
pub open spec fn points_at(head: HeadS, depth: u32) -> bool {
    head matches HeadS::Var(n) && n.pi_bound_index() == Some(depth)
}

/// The form of a reference at `depth`, where `shadowed` names are bound by the
/// term itself.
pub open spec fn pi_head(mode: PiModeS, head: HeadS, depth: u32, shadowed: Seq<NameS>) -> HeadS {
    match (mode, head) {
        (PiModeS::Close(enclosing), HeadS::Var(n)) => if shadowed.contains(n) {
            head
        } else {
            match distance_to(enclosing, n) {
                Some(d) => HeadS::Var(NameS::PiBound(index_at(d, depth), Some(n.base()))),
                None => head,
            }
        },
        _ => head,
    }
}

/// The depth of component `i`: a codomain is one further in.
pub open spec fn kid_depth(t: TypeS, i: int, depth: u32) -> u32 {
    if t.head is Fun && i == t.kids.len() - 1 {
        deeper(depth)
    } else {
        depth
    }
}

/// The walk over a type. Predicates that it makes one restriction are kept once.
pub open spec fn pi_ty(mode: PiModeS, t: TypeS, depth: u32, shadowed: Seq<NameS>) -> TypeS
    decreases t, 1int,
{
    TypeS {
        head: t.head,
        kids: Seq::new(
            t.kids.len(),
            |i: int|
                if 0 <= i < t.kids.len() {
                    pi_ty(mode, t.kids[i], kid_depth(t, i, depth), shadowed)
                } else {
                    arbitrary()
                },
        ),
        preds: deduped(pi_preds(mode, t, depth, shadowed)),
    }
}

/// What the walk makes of the predicates of a type, one by one.
pub open spec fn pi_preds(mode: PiModeS, t: TypeS, depth: u32, shadowed: Seq<NameS>) -> Seq<ExprS>
    decreases t, 0int,
{
    Seq::new(
        t.preds.len(),
        |i: int|
            if 0 <= i < t.preds.len() {
                pi_expr(mode, t.preds[i], depth, shadowed)
            } else {
                arbitrary()
            },
    )
}

/// The walk over a term inside a type.
pub open spec fn pi_expr(mode: PiModeS, e: ExprS, depth: u32, shadowed: Seq<NameS>) -> ExprS
    decreases e, 1int,
{
    if mode is Open && points_at(e.head, depth) && e.tys.len() > 0 {
        match mode->Open_0 {
            MappingS::Rename(to) => var_s(to, pi_ty(mode, e.tys[0], depth, shadowed)),
            MappingS::Discharge(t) => t,
        }
    } else {
        ExprS {
            head: pi_head(mode, e.head, depth, shadowed),
            kids: Seq::new(
                e.kids.len(),
                |i: int|
                    if 0 <= i < e.kids.len() {
                        pi_expr(mode, e.kids[i], depth, shadowed + scope_of(e.head, i))
                    } else {
                        arbitrary()
                    },
            ),
            tys: Seq::new(
                e.tys.len(),
                |i: int|
                    if 0 <= i < e.tys.len() {
                        pi_ty(mode, e.tys[i], depth, shadowed)
                    } else {
                        arbitrary()
                    },
            ),
            annotated: e.annotated,
        }
    }
}

/// Whether every reference the walk opens in `t` keeps a type it had.
pub open spec fn pi_ty_typed(mode: PiModeS, t: TypeS, depth: u32) -> bool
    decreases t,
{
    (forall|i: int|
        0 <= i < t.kids.len() ==> pi_ty_typed(mode, #[trigger] t.kids[i], kid_depth(t, i, depth)))
        && (forall|i: int|
        0 <= i < t.preds.len() ==> pi_expr_typed(mode, #[trigger] t.preds[i], depth))
}

/// Whether every reference the walk opens in `e` keeps a type it had.
pub open spec fn pi_expr_typed(mode: PiModeS, e: ExprS, depth: u32) -> bool
    decreases e,
{
    (mode is Open && points_at(e.head, depth) && e.tys.len() > 0 ==> keeps_typed(
        mode->Open_0,
        e.tys[0],
    )) && (forall|i: int| 0 <= i < e.kids.len() ==> pi_expr_typed(mode, #[trigger] e.kids[i], depth))
        && (forall|i: int| 0 <= i < e.tys.len() ==> pi_ty_typed(mode, #[trigger] e.tys[i], depth))
}

/// What a walk does: close the names of these functions, outermost first, or
/// open the references to one function at a mapping.
pub enum PiMode<'a> {
    Close(&'a Vec<Option<Name>>),
    Open(&'a Mapping),
}

pub open spec fn opt_names_view(v: Seq<Option<Name>>) -> Seq<Option<NameS>> {
    Seq::new(v.len(), |i: int| opt_name_view(v[i]))
}

impl<'a> PiMode<'a> {
    pub open spec fn view(&self) -> PiModeS {
        match self {
            PiMode::Close(ns) => PiModeS::Close(opt_names_view(ns@)),
            PiMode::Open(m) => PiModeS::Open(m.view()),
        }
    }
}

fn step_in(d: u32) -> (r: u32)
    ensures
        r == deeper(d),
{
    if d == u32::MAX { 0 } else { d + 1 }
}

/// The index a closing gives to `n` at `depth`, if some enclosing function is
/// named `n`: the innermost such function's.
fn closed_index(enclosing: &Vec<Option<Name>>, n: &Name, depth: u32) -> (r: Option<u32>)
    ensures
        r == (match distance_to(opt_names_view(enclosing@), n@) {
            Some(d) => Some(index_at(d, depth)),
            None => None,
        }),
{
    let ghost all = opt_names_view(enclosing@);
    let mut k: usize = enclosing.len();
    let mut index: u32 = depth;
    let ghost mut gone: nat = 0;
    assert(all.take(k as int) =~= all);
    while k > 0
        invariant
            k <= enclosing.len(),
            all == opt_names_view(enclosing@),
            gone + k == enclosing.len(),
            index == index_at(gone, depth),
            distance_to(all, n@) == (match distance_to(all.take(k as int), n@) {
                Some(d) => Some((d + gone) as nat),
                None => None,
            }),
        decreases k,
    {
        let hit = match &enclosing[k - 1] {
            Some(b) => b.same(n),
            None => false,
        };
        assert(all.take(k as int).last() == opt_name_view(enclosing@[k - 1]));
        if hit {
            return Some(index);
        }
        assert(all.take(k as int).drop_last() =~= all.take(k - 1));
        k = k - 1;
        index = step_in(index);
        proof {
            gone = gone + 1;
        }
    }
    None
}

/// `shadowed` with the names bound over subterm `i` of `e`.
pub fn shadowed_under(shadowed: &Vec<Name>, e: &Expr, i: usize) -> (r: Vec<Name>)
    requires
        i < e.view().kids.len(),
    ensures
        names_view(r@) == names_view(shadowed@) + scope_of(e.view().head, i as int),
{
    let mut out = clone_names(shadowed);
    let mut more = scope(e, i);
    let ghost a = out@;
    let ghost b = more@;
    out.append(&mut more);
    assert(names_view(out@) =~= names_view(a) + names_view(b));
    out
}

/// What the walk makes of a predicate no binder of a term stands over.
pub open spec fn pi_step(m: PiModeS) -> spec_fn(ExprS, u32) -> ExprS {
    |p: ExprS, depth: u32| pi_expr(m, p, depth, Seq::empty())
}

/// The walk over a type.
pub fn pi_walk_type(mode: &PiMode, t: &Type, depth: u32, shadowed: &Vec<Name>) -> (r: Type)
    requires
        pi_ty_typed(mode.view(), t.view(), depth),
    ensures
        r.view() == pi_ty(mode.view(), t.view(), depth, names_view(shadowed@)),
{
    let mut memo = PredMemo::new();
    let (r, _) = convert_type(mode, t, depth, shadowed, &mut memo);
    r
}

/// The walk over one predicate.
pub fn pi_walk_pred(mode: &PiMode, p: &Rc<Expr>, depth: u32, shadowed: &Vec<Name>) -> (r: Rc<Expr>)
    requires
        pi_expr_typed(mode.view(), p.view(), depth),
    ensures
        r.view() == pi_expr(mode.view(), p.view(), depth, names_view(shadowed@)),
{
    let mut memo = PredMemo::new();
    let (r, _) = convert_pred(mode, p, depth, shadowed, &mut memo);
    r
}

/// The walk over a predicate. One the walk leaves as it is keeps its term, and
/// handles on one term come out as handles on one result.
fn convert_pred(
    mode: &PiMode,
    p: &Rc<Expr>,
    depth: u32,
    shadowed: &Vec<Name>,
    memo: &mut PredMemo,
) -> (r: (Rc<Expr>, bool))
    requires
        pi_expr_typed(mode.view(), p.view(), depth),
        old(memo).follows(pi_step(mode.view())),
    ensures
        r.0.view() == pi_expr(mode.view(), p.view(), depth, names_view(shadowed@)),
        !r.1 ==> r.0.view() == p.view(),
        final(memo).follows(pi_step(mode.view())),
    decreases p.view(), 1int,
{
    let ghost m = mode.view();
    let plain = shadowed.len() == 0;
    if plain {
        assert(names_view(shadowed@) =~= Seq::empty());
        match memo.find(p, depth) {
            Some(q) => {
                assert(q.view() == pi_step(m)(p.view(), depth));
                let same = one_term(&q, p);
                return (q, !same);
            },
            None => {},
        }
    }
    let (out, changed) = convert_expr(mode, p, depth, shadowed, memo);
    let q = if changed { Rc::new(out) } else { share(p) };
    if plain {
        memo.note(p, depth, &q);
        proof {
            assert(pi_step(m)(p.view(), depth) == q.view());
        }
    }
    (q, changed)
}

fn convert_type(
    mode: &PiMode,
    t: &Type,
    depth: u32,
    shadowed: &Vec<Name>,
    memo: &mut PredMemo,
) -> (r: (Type, bool))
    requires
        pi_ty_typed(mode.view(), t.view(), depth),
        old(memo).follows(pi_step(mode.view())),
    ensures
        r.0.view() == pi_ty(mode.view(), t.view(), depth, names_view(shadowed@)),
        !r.1 ==> r.0.view() == t.view(),
        final(memo).follows(pi_step(mode.view())),
    decreases t.view(), 0int,
{
    let ghost tv = t.view();
    let ghost m = mode.view();
    let ghost sh = names_view(shadowed@);
    let kids = t.walk_children();
    let preds = t.shared_predicates();
    assert(kids@.len() == tv.kids.len());
    assert(preds@.len() == tv.preds.len()) by {
        assert(shared_refs_view(preds@).len() == preds@.len());
    }
    let mut ks: Vec<Type> = Vec::new();
    let mut ps: Vec<Rc<Expr>> = Vec::new();
    let mut changed = false;
    let is_fun = match t {
        Type::Fun { .. } => true,
        _ => false,
    };
    let mut i: usize = 0;
    while i < kids.len()
        invariant
            i <= kids.len(),
            ks.len() == i,
            tv == t.view(),
            m == mode.view(),
            sh == names_view(shadowed@),
            is_fun == (tv.head is Fun),
            kids@.len() == tv.kids.len(),
            pi_ty_typed(m, tv, depth),
            memo.follows(pi_step(m)),
            type_refs_view(kids@) == tv.kids,
            forall|j: int|
                0 <= j < i ==> (#[trigger] ks@[j]).view() == pi_ty(
                    m,
                    tv.kids[j],
                    kid_depth(tv, j, depth),
                    sh,
                ),
            !changed ==> forall|j: int| 0 <= j < i ==> (#[trigger] ks@[j]).view() == tv.kids[j],
        decreases kids.len() - i,
    {
        assert(kids@[i as int].view() == tv.kids[i as int]);
        let d: u32 = if is_fun && i + 1 == kids.len() { step_in(depth) } else { depth };
        let (k, c) = convert_type(mode, kids[i], d, shadowed, memo);
        ks.push(k);
        changed = changed || c;
        i = i + 1;
    }
    let mut i: usize = 0;
    while i < preds.len()
        invariant
            i <= preds.len(),
            ps.len() == i,
            tv == t.view(),
            m == mode.view(),
            sh == names_view(shadowed@),
            preds@.len() == tv.preds.len(),
            ks@.len() == tv.kids.len(),
            pi_ty_typed(m, tv, depth),
            memo.follows(pi_step(m)),
            shared_refs_view(preds@) == tv.preds,
            forall|j: int|
                0 <= j < i ==> (#[trigger] ps@[j]).view() == pi_expr(m, tv.preds[j], depth, sh),
            !changed ==> forall|j: int| 0 <= j < i ==> (#[trigger] ps@[j]).view() == tv.preds[j],
            !changed ==> forall|j: int|
                0 <= j < ks@.len() ==> (#[trigger] ks@[j]).view() == tv.kids[j],
        decreases preds.len() - i,
    {
        assert(preds@[i as int].view() == tv.preds[i as int]);
        let (p, c) = convert_pred(mode, preds[i], depth, shadowed, memo);
        ps.push(p);
        changed = changed || c;
        i = i + 1;
    }
    let ghost raw = pi_preds(m, tv, depth, sh);
    proof {
        assert(types_view(ks@) =~= pi_ty(m, tv, depth, sh).kids);
        assert(shared_view(ps@) =~= raw);
        if !changed {
            assert(types_view(ks@) =~= tv.kids);
            assert(shared_view(ps@) =~= tv.preds);
        }
    }
    let out = t.rebuild(ks, ps);
    proof {
        if !changed {
            law_a_set_has_no_duplicates(raw);
        }
    }
    (out, changed)
}

fn convert_expr(
    mode: &PiMode,
    e: &Expr,
    depth: u32,
    shadowed: &Vec<Name>,
    memo: &mut PredMemo,
) -> (r: (Expr, bool))
    requires
        pi_expr_typed(mode.view(), e.view(), depth),
        old(memo).follows(pi_step(mode.view())),
    ensures
        r.0.view() == pi_expr(mode.view(), e.view(), depth, names_view(shadowed@)),
        !r.1 ==> r.0.view() == e.view(),
        final(memo).follows(pi_step(mode.view())),
    decreases e.view(), 0int,
{
    let ghost ev = e.view();
    let ghost m = mode.view();
    let ghost sh = names_view(shadowed@);
    match (mode, &e.node) {
        (PiMode::Open(target), TypedExprNode::Var(Name::PiBound(k, _))) => {
            if *k == depth {
                assert(ev.tys[0] == e.ty.view());
                match target {
                    Mapping::Rename(to) => {
                        let (ty, _) = convert_type(mode, &e.ty, depth, shadowed, memo);
                        let out = Expr::var(to.clone()).with_ty(ty);
                        assert(out.view().tys =~= seq![ty.view()]);
                        return (out, true);
                    },
                    Mapping::Discharge(t) => {
                        return ((**t).clone(), true);
                    },
                }
            }
        },
        _ => {},
    }
    let kids = e.children();
    let slots = e.type_slots();
    assert(kids@.len() == ev.kids.len());
    assert(slots@.len() == ev.tys.len());
    let mut ks: Vec<Expr> = Vec::new();
    let mut ts: Vec<Type> = Vec::new();
    let mut changed = false;
    let mut i: usize = 0;
    while i < kids.len()
        invariant
            i <= kids.len(),
            ks.len() == i,
            ev == e.view(),
            m == mode.view(),
            sh == names_view(shadowed@),
            kids@.len() == ev.kids.len(),
            pi_expr_typed(m, ev, depth),
            memo.follows(pi_step(m)),
            expr_refs_view(kids@) == ev.kids,
            forall|j: int|
                0 <= j < i ==> (#[trigger] ks@[j]).view() == pi_expr(
                    m,
                    ev.kids[j],
                    depth,
                    sh + scope_of(ev.head, j),
                ),
            !changed ==> forall|j: int| 0 <= j < i ==> (#[trigger] ks@[j]).view() == ev.kids[j],
        decreases kids.len() - i,
    {
        assert(kids@[i as int].view() == ev.kids[i as int]);
        let inner = shadowed_under(shadowed, e, i);
        let (k, c) = convert_expr(mode, kids[i], depth, &inner, memo);
        ks.push(k);
        changed = changed || c;
        i = i + 1;
    }
    let mut i: usize = 0;
    while i < slots.len()
        invariant
            i <= slots.len(),
            ts.len() == i,
            ev == e.view(),
            m == mode.view(),
            sh == names_view(shadowed@),
            slots@.len() == ev.tys.len(),
            ks@.len() == ev.kids.len(),
            pi_expr_typed(m, ev, depth),
            memo.follows(pi_step(m)),
            type_refs_view(slots@) == ev.tys,
            forall|j: int|
                0 <= j < i ==> (#[trigger] ts@[j]).view() == pi_ty(m, ev.tys[j], depth, sh),
            !changed ==> forall|j: int| 0 <= j < i ==> (#[trigger] ts@[j]).view() == ev.tys[j],
            !changed ==> forall|j: int|
                0 <= j < ks@.len() ==> (#[trigger] ks@[j]).view() == ev.kids[j],
        decreases slots.len() - i,
    {
        assert(slots@[i as int].view() == ev.tys[i as int]);
        let (s, c) = convert_type(mode, slots[i], depth, shadowed, memo);
        ts.push(s);
        changed = changed || c;
        i = i + 1;
    }
    proof {
        assert(exprs_view(ks@) =~= pi_expr(m, ev, depth, sh).kids);
        assert(types_view(ts@) =~= pi_expr(m, ev, depth, sh).tys);
        if !changed {
            assert(exprs_view(ks@) =~= ev.kids);
            assert(types_view(ts@) =~= ev.tys);
        }
    }
    let mut out = e.rebuild(ks, ts);
    match (mode, &e.node) {
        (PiMode::Close(enclosing), TypedExprNode::Var(n)) => {
            if !has_name(shadowed, n) {
                match closed_index(enclosing, n, depth) {
                    Some(k) => {
                        let ghost before = out.view();
                        out = Expr {
                            node: TypedExprNode::Var(Name::pi_bound(k, n)),
                            ty: out.ty,
                            user_annotation: out.user_annotation,
                        };
                        changed = true;
                        assert(out.view().tys =~= before.tys);
                        assert(out.view().kids =~= before.kids);
                    },
                    None => {},
                }
            }
        },
        _ => {},
    }
    assert(out.view().head == pi_head(m, ev.head, depth, sh));
    (out, changed)
}

/// `t` with the free references to `binder` closed: what a function named
/// `binder` stores as its codomain.
pub open spec fn closed_ty(binder: NameS, t: TypeS) -> TypeS {
    if free_in_ty(binder, t) {
        pi_ty(PiModeS::Close(seq![Some(binder)]), t, 0, Seq::empty())
    } else {
        t
    }
}

/// Closes `binder`'s free references in `ty` into indices.
pub fn close_pi_binder(binder: &Name, ty: &Type) -> (r: Type)
    ensures
        r.view() == closed_ty(binder@, ty.view()),
{
    if !is_free_in_type(binder, ty) {
        return ty.clone();
    }
    let mut enclosing: Vec<Option<Name>> = Vec::new();
    enclosing.push(Some(binder.clone()));
    let none: Vec<Name> = Vec::new();
    let mode = PiMode::Close(&enclosing);
    proof {
        assert(opt_names_view(enclosing@) =~= seq![Some(binder@)]);
        assert(names_view(none@) =~= Seq::empty());
        lemma_close_typed(mode.view(), ty.view(), 0);
    }
    pi_walk_type(&mode, ty, 0, &none)
}

/// Closing replaces no term, so it loses no type.
pub proof fn lemma_close_typed(mode: PiModeS, t: TypeS, depth: u32)
    requires
        mode is Close,
    ensures
        pi_ty_typed(mode, t, depth),
    decreases t,
{
    assert forall|i: int| 0 <= i < t.kids.len() implies pi_ty_typed(
        mode,
        #[trigger] t.kids[i],
        kid_depth(t, i, depth),
    ) by {
        lemma_close_typed(mode, t.kids[i], kid_depth(t, i, depth));
    }
    assert forall|i: int| 0 <= i < t.preds.len() implies pi_expr_typed(
        mode,
        #[trigger] t.preds[i],
        depth,
    ) by {
        lemma_close_expr_typed(mode, t.preds[i], depth);
    }
}

pub proof fn lemma_close_expr_typed(mode: PiModeS, e: ExprS, depth: u32)
    requires
        mode is Close,
    ensures
        pi_expr_typed(mode, e, depth),
    decreases e,
{
    assert forall|i: int| 0 <= i < e.kids.len() implies pi_expr_typed(
        mode,
        #[trigger] e.kids[i],
        depth,
    ) by {
        lemma_close_expr_typed(mode, e.kids[i], depth);
    }
    assert forall|i: int| 0 <= i < e.tys.len() implies pi_ty_typed(
        mode,
        #[trigger] e.tys[i],
        depth,
    ) by {
        lemma_close_typed(mode, e.tys[i], depth);
    }
}

/// Renaming replaces an occurrence at its own type, so it loses none.
pub proof fn lemma_rename_typed(mode: PiModeS, t: TypeS, depth: u32)
    requires
        mode is Open,
        mode->Open_0 is Rename,
    ensures
        pi_ty_typed(mode, t, depth),
    decreases t,
{
    assert forall|i: int| 0 <= i < t.kids.len() implies pi_ty_typed(
        mode,
        #[trigger] t.kids[i],
        kid_depth(t, i, depth),
    ) by {
        lemma_rename_typed(mode, t.kids[i], kid_depth(t, i, depth));
    }
    assert forall|i: int| 0 <= i < t.preds.len() implies pi_expr_typed(
        mode,
        #[trigger] t.preds[i],
        depth,
    ) by {
        lemma_rename_expr_typed(mode, t.preds[i], depth);
    }
}

proof fn lemma_rename_expr_typed(mode: PiModeS, e: ExprS, depth: u32)
    requires
        mode is Open,
        mode->Open_0 is Rename,
    ensures
        pi_expr_typed(mode, e, depth),
    decreases e,
{
    assert forall|i: int| 0 <= i < e.kids.len() implies pi_expr_typed(
        mode,
        #[trigger] e.kids[i],
        depth,
    ) by {
        lemma_rename_expr_typed(mode, e.kids[i], depth);
    }
    assert forall|i: int| 0 <= i < e.tys.len() implies pi_ty_typed(
        mode,
        #[trigger] e.tys[i],
        depth,
    ) by {
        lemma_rename_typed(mode, e.tys[i], depth);
    }
}

/// `t` with the references to the function it is the codomain of opened at `m`.
pub open spec fn opened_ty(m: MappingS, t: TypeS) -> TypeS {
    pi_ty(PiModeS::Open(m), t, 0, Seq::empty())
}

/// Opens the references in `ty` to the function it is the codomain of: each
/// becomes what `target` stands for.
pub fn open_pi_binder(target: &Mapping, ty: &Type) -> (r: Type)
    requires
        pi_ty_typed(PiModeS::Open(target.view()), ty.view(), 0),
    ensures
        r.view() == opened_ty(target.view(), ty.view()),
{
    let none: Vec<Name> = Vec::new();
    assert(names_view(none@) =~= Seq::empty());
    pi_walk_type(&PiMode::Open(target), ty, 0, &none)
}

/// Whether some reference in `t` names the function `depth` crossings out.
pub open spec fn refers_out(t: TypeS, depth: u32) -> bool
    decreases t,
{
    (exists|i: int|
        0 <= i < t.kids.len() && refers_out(#[trigger] t.kids[i], kid_depth(t, i, depth))) || (exists|
        i: int,
    | 0 <= i < t.preds.len() && expr_refers_out(#[trigger] t.preds[i], depth))
}

pub open spec fn expr_refers_out(e: ExprS, depth: u32) -> bool
    decreases e,
{
    points_at(e.head, depth) || (exists|i: int|
        0 <= i < e.tys.len() && refers_out(#[trigger] e.tys[i], depth)) || (exists|i: int|
        0 <= i < e.kids.len() && expr_refers_out(#[trigger] e.kids[i], depth))
}

fn type_scan(t: &Type, depth: u32) -> (r: bool)
    ensures
        r == refers_out(t.view(), depth),
    decreases t.view(),
{
    let ghost tv = t.view();
    let kids = t.walk_children();
    let preds = t.predicates();
    assert(kids@.len() == tv.kids.len());
    assert(preds@.len() == tv.preds.len());
    let is_fun = match t {
        Type::Fun { .. } => true,
        _ => false,
    };
    let mut i: usize = 0;
    while i < kids.len()
        invariant
            i <= kids.len(),
            tv == t.view(),
            is_fun == (tv.head is Fun),
            kids@.len() == tv.kids.len(),
            type_refs_view(kids@) == tv.kids,
            forall|j: int|
                0 <= j < i ==> !refers_out(#[trigger] tv.kids[j], kid_depth(tv, j, depth)),
        decreases kids.len() - i,
    {
        assert(kids@[i as int].view() == tv.kids[i as int]);
        let d: u32 = if is_fun && i + 1 == kids.len() { step_in(depth) } else { depth };
        if type_scan(kids[i], d) {
            return true;
        }
        i = i + 1;
    }
    let mut i: usize = 0;
    while i < preds.len()
        invariant
            i <= preds.len(),
            tv == t.view(),
            preds@.len() == tv.preds.len(),
            expr_refs_view(preds@) == tv.preds,
            forall|j: int| 0 <= j < i ==> !expr_refers_out(#[trigger] tv.preds[j], depth),
        decreases preds.len() - i,
    {
        assert(preds@[i as int].view() == tv.preds[i as int]);
        if expr_scan(preds[i], depth) {
            return true;
        }
        i = i + 1;
    }
    false
}

fn expr_scan(e: &Expr, depth: u32) -> (r: bool)
    ensures
        r == expr_refers_out(e.view(), depth),
    decreases e.view(),
{
    let ghost ev = e.view();
    match &e.node {
        TypedExprNode::Var(Name::PiBound(k, _)) => {
            if *k == depth {
                return true;
            }
        },
        _ => {},
    }
    let kids = e.children();
    let slots = e.type_slots();
    assert(kids@.len() == ev.kids.len());
    assert(slots@.len() == ev.tys.len());
    let mut i: usize = 0;
    while i < slots.len()
        invariant
            i <= slots.len(),
            ev == e.view(),
            slots@.len() == ev.tys.len(),
            type_refs_view(slots@) == ev.tys,
            forall|j: int| 0 <= j < i ==> !refers_out(#[trigger] ev.tys[j], depth),
        decreases slots.len() - i,
    {
        assert(slots@[i as int].view() == ev.tys[i as int]);
        if type_scan(slots[i], depth) {
            return true;
        }
        i = i + 1;
    }
    let mut i: usize = 0;
    while i < kids.len()
        invariant
            i <= kids.len(),
            ev == e.view(),
            kids@.len() == ev.kids.len(),
            expr_refs_view(kids@) == ev.kids,
            forall|j: int| 0 <= j < i ==> !expr_refers_out(#[trigger] ev.kids[j], depth),
        decreases kids.len() - i,
    {
        assert(kids@[i as int].view() == ev.kids[i as int]);
        if expr_scan(kids[i], depth) {
            return true;
        }
        i = i + 1;
    }
    false
}

/// Whether `ty`, as a codomain, refers to the function it belongs to.
pub fn references_enclosing_function(ty: &Type) -> (r: bool)
    ensures
        r == refers_out(ty.view(), 0),
{
    type_scan(ty, 0)
}

fn type_opens(target: &Mapping, t: &Type, depth: u32) -> (r: bool)
    ensures
        r == pi_ty_typed(PiModeS::Open(target.view()), t.view(), depth),
    decreases t.view(),
{
    let ghost tv = t.view();
    let ghost mode = PiModeS::Open(target.view());
    let kids = t.walk_children();
    let preds = t.predicates();
    assert(kids@.len() == tv.kids.len());
    assert(preds@.len() == tv.preds.len());
    let is_fun = match t {
        Type::Fun { .. } => true,
        _ => false,
    };
    let mut i: usize = 0;
    while i < kids.len()
        invariant
            i <= kids.len(),
            tv == t.view(),
            mode == PiModeS::Open(target.view()),
            is_fun == (tv.head is Fun),
            kids@.len() == tv.kids.len(),
            type_refs_view(kids@) == tv.kids,
            forall|j: int|
                0 <= j < i ==> pi_ty_typed(mode, #[trigger] tv.kids[j], kid_depth(tv, j, depth)),
        decreases kids.len() - i,
    {
        assert(kids@[i as int].view() == tv.kids[i as int]);
        let d: u32 = if is_fun && i + 1 == kids.len() { step_in(depth) } else { depth };
        if !type_opens(target, kids[i], d) {
            return false;
        }
        i = i + 1;
    }
    let mut i: usize = 0;
    while i < preds.len()
        invariant
            i <= preds.len(),
            tv == t.view(),
            mode == PiModeS::Open(target.view()),
            preds@.len() == tv.preds.len(),
            expr_refs_view(preds@) == tv.preds,
            forall|j: int| 0 <= j < i ==> pi_expr_typed(mode, #[trigger] tv.preds[j], depth),
        decreases preds.len() - i,
    {
        assert(preds@[i as int].view() == tv.preds[i as int]);
        if !expr_opens(target, preds[i], depth) {
            return false;
        }
        i = i + 1;
    }
    true
}

fn expr_opens(target: &Mapping, e: &Expr, depth: u32) -> (r: bool)
    ensures
        r == pi_expr_typed(PiModeS::Open(target.view()), e.view(), depth),
    decreases e.view(),
{
    let ghost ev = e.view();
    let ghost mode = PiModeS::Open(target.view());
    assert(ev.tys[0] == e.ty.view());
    match (&e.node, target) {
        (TypedExprNode::Var(Name::PiBound(k, _)), Mapping::Discharge(t)) => {
            assert(t.view().tys[0] == t.ty.view());
            if *k == depth && !e.ty.is_hole() && t.ty.is_hole() {
                return false;
            }
        },
        _ => {},
    }
    let kids = e.children();
    let slots = e.type_slots();
    assert(kids@.len() == ev.kids.len());
    assert(slots@.len() == ev.tys.len());
    let mut i: usize = 0;
    while i < slots.len()
        invariant
            i <= slots.len(),
            ev == e.view(),
            mode == PiModeS::Open(target.view()),
            slots@.len() == ev.tys.len(),
            type_refs_view(slots@) == ev.tys,
            forall|j: int| 0 <= j < i ==> pi_ty_typed(mode, #[trigger] ev.tys[j], depth),
        decreases slots.len() - i,
    {
        assert(slots@[i as int].view() == ev.tys[i as int]);
        if !type_opens(target, slots[i], depth) {
            return false;
        }
        i = i + 1;
    }
    let mut i: usize = 0;
    while i < kids.len()
        invariant
            i <= kids.len(),
            ev == e.view(),
            mode == PiModeS::Open(target.view()),
            kids@.len() == ev.kids.len(),
            expr_refs_view(kids@) == ev.kids,
            forall|j: int| 0 <= j < i ==> pi_expr_typed(mode, #[trigger] ev.kids[j], depth),
        decreases kids.len() - i,
    {
        assert(kids@[i as int].view() == ev.kids[i as int]);
        if !expr_opens(target, kids[i], depth) {
            return false;
        }
        i = i + 1;
    }
    true
}

/// Whether `ty` may be opened at `target`: no typed reference is replaced by an
/// untyped term.
pub fn may_open(target: &Mapping, ty: &Type) -> (r: bool)
    ensures
        r == pi_ty_typed(PiModeS::Open(target.view()), ty.view(), 0),
{
    type_opens(target, ty, 0)
}

/// A type without its outer restriction.
pub open spec fn peeled(t: TypeS) -> TypeS {
    if t.head is Refinement {
        t.kids[0]
    } else {
        t
    }
}

/// The codomain as it reads outside the function: its references opened at the
/// function's own binder name.
pub open spec fn opened_codomain(morphism: TypeS, codomain: TypeS) -> TypeS {
    match peeled(morphism).head {
        TypeHeadS::Fun(Some(b), _) => if refers_out(codomain, 0) {
            opened_ty(MappingS::Rename(b), codomain)
        } else {
            codomain
        },
        _ => codomain,
    }
}

/// Opens `codomain` at the binder of `morphism`, where it names one.
pub fn open_codomain(morphism: &Type, codomain: &Type) -> (r: Type)
    ensures
        r.view() == opened_codomain(morphism.view(), codomain.view()),
{
    match morphism.peel_refinements() {
        Type::Fun { name: Some(b), fun_kind, domain, codomain: _ } => {
            if references_enclosing_function(codomain) {
                let target = Mapping::Rename(b.clone());
                proof {
                    lemma_rename_typed(PiModeS::Open(target.view()), codomain.view(), 0);
                }
                open_pi_binder(&target, codomain)
            } else {
                codomain.clone()
            }
        },
        _ => codomain.clone(),
    }
}

impl Type {
    /// The type without its outer restriction.
    pub fn peel_refinements(&self) -> (r: &Type)
        ensures
            r.view() == peeled(self.view()),
    {
        match self {
            Type::Refinement(inner, _) => {
                assert(self.view().kids[0] == inner.view());
                &**inner
            },
            other => other,
        }
    }
}

} // verus!
