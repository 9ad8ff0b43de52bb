//! Rewriting witnesses: opening a sum at a candidate, renaming, and putting
//! binders in a canonical form.

use std::rc::Rc;
use vstd::prelude::*;
use crate::ast::{
    Expr, ExprS, FunKind, FunKindS, Type, TypeHeadS, TypeKind, TypeS, Witness, WitnessBinderId,
    WitnessId, WitnessS, arm_types_view, exprs_view, field_types_view, leaf_ty, opt_name_view,
    types_view, witness_types_view, witnesses_view,
};
use crate::kind::KindVars;
use crate::kind_vars::binders_of;
use crate::name::NameS;
use crate::pi::index_at;
use crate::refinement_set::{deduped, law_a_set_has_no_duplicates};
use crate::sharing::{share, shared_refs_view, shared_view};
use crate::symbolic::shape_width;
use crate::tree::{clone_opt_name, expr_refs_view, type_refs_view};
use crate::type_forms::{is_sum, sum_of};
use crate::witness::{RangeS, mentions, ranges_width};

verus! {

/// What a walk does to witnesses: open the binder of one at a candidate,
/// rename the references to some, or rename references and binders alike.
pub enum ActS {
    Open(WitnessId, TypeS),
    Refer(Map<WitnessId, WitnessId>),
    Rename(Map<WitnessId, WitnessId>),
}

/// The witness `m` names in place of `w`.
pub open spec fn renamed_id(m: Map<WitnessId, WitnessId>, w: WitnessId) -> WitnessId {
    if m.dom().contains(w) {
        m[w]
    } else {
        w
    }
}

/// What stands in place of a reference to `w`.
pub open spec fn acted_ref(a: ActS, w: WitnessId) -> TypeS {
    match a {
        ActS::Open(b, c) => if w == b {
            c
        } else {
            leaf_ty(TypeHeadS::WitnessRef(w))
        },
        ActS::Refer(m) => leaf_ty(TypeHeadS::WitnessRef(renamed_id(m, w))),
        ActS::Rename(m) => leaf_ty(TypeHeadS::WitnessRef(renamed_id(m, w))),
    }
}

/// Whether one of `ws` is the witness `b`.
pub open spec fn binds(ws: Seq<WitnessS>, b: WitnessId) -> bool {
    exists|i: int| 0 <= i < ws.len() && (#[trigger] ws[i]).id == b
}

/// The witnesses other than `b`.
pub open spec fn kept(ws: Seq<WitnessS>, b: WitnessId) -> Seq<WitnessS>
    decreases ws.len(),
{
    if ws.len() == 0 {
        ws
    } else if ws.last().id == b {
        kept(ws.drop_last(), b)
    } else {
        kept(ws.drop_last(), b).push(ws.last())
    }
}

/// The types `tys` of the ranges of `ws`, without those of `b`.
pub open spec fn kept_types(ws: Seq<WitnessS>, tys: Seq<TypeS>, b: WitnessId) -> Seq<TypeS>
    decreases ws.len(),
{
    if ws.len() == 0 {
        Seq::empty()
    } else {
        let cut = tys.len() - shape_width(ws.last().shape);
        if ws.last().id == b {
            kept_types(ws.drop_last(), tys.take(cut), b)
        } else {
            kept_types(ws.drop_last(), tys.take(cut), b) + tys.skip(cut)
        }
    }
}

/// The kind of data over the witnesses `ws`.
pub open spec fn slot_of(ws: Seq<WitnessS>) -> FunKindS {
    if ws.len() == 0 {
        FunKindS::Data(None)
    } else {
        FunKindS::Data(Some(ws))
    }
}

/// The witnesses under other identities.
pub open spec fn renamed_witnesses(m: Map<WitnessId, WitnessId>, ws: Seq<WitnessS>) -> Seq<WitnessS> {
    Seq::new(ws.len(), |i: int| WitnessS { id: renamed_id(m, ws[i].id), shape: ws[i].shape })
}

/// A function binding `ws`, once its components are walked.
pub open spec fn acted_binders(a: ActS, name: Option<NameS>, ws: Seq<WitnessS>, t: TypeS) -> TypeS {
    match a {
        ActS::Open(b, _) => if binds(ws, b) {
            TypeS {
                head: TypeHeadS::Fun(name, slot_of(kept(ws, b))),
                kids: kept_types(ws, t.kids.take(t.kids.len() - 2), b) + t.kids.skip(
                    t.kids.len() - 2,
                ),
                preds: t.preds,
            }
        } else {
            t
        },
        ActS::Refer(_) => t,
        ActS::Rename(m) => TypeS {
            head: TypeHeadS::Fun(name, FunKindS::Data(Some(renamed_witnesses(m, ws)))),
            kids: t.kids,
            preds: t.preds,
        },
    }
}

/// The components of `t`, walked.
pub open spec fn acted_parts(a: ActS, t: TypeS) -> TypeS
    decreases t, 1nat,
{
    TypeS {
        head: t.head,
        kids: Seq::new(
            t.kids.len(),
            |i: int|
                if 0 <= i < t.kids.len() {
                    acted_ty(a, t.kids[i])
                } else {
                    arbitrary()
                },
        ),
        preds: if a is Rename {
            t.preds
        } else {
            deduped(acted_preds(a, t))
        },
    }
}

/// The predicates of `t`, walked one by one.
pub open spec fn acted_preds(a: ActS, t: TypeS) -> Seq<ExprS>
    decreases t, 0nat,
{
    Seq::new(
        t.preds.len(),
        |i: int|
            if 0 <= i < t.preds.len() {
                acted_expr(a, t.preds[i])
            } else {
                arbitrary()
            },
    )
}

/// The walk over a type.
pub open spec fn acted_ty(a: ActS, t: TypeS) -> TypeS
    decreases t, 2nat,
{
    match t.head {
        TypeHeadS::WitnessRef(w) => acted_ref(a, w),
        TypeHeadS::Fun(name, FunKindS::Data(Some(ws))) => acted_binders(
            a,
            name,
            ws,
            acted_parts(a, t),
        ),
        _ => acted_parts(a, t),
    }
}

/// The walk over a term inside a type.
pub open spec fn acted_expr(a: ActS, e: ExprS) -> ExprS
    decreases e, 0nat,
{
    ExprS {
        head: e.head,
        kids: Seq::new(
            e.kids.len(),
            |i: int|
                if 0 <= i < e.kids.len() {
                    acted_expr(a, e.kids[i])
                } else {
                    arbitrary()
                },
        ),
        tys: Seq::new(
            e.tys.len(),
            |i: int|
                if 0 <= i < e.tys.len() {
                    acted_ty(a, e.tys[i])
                } else {
                    arbitrary()
                },
        ),
        annotated: e.annotated,
    }
}

/// `body` bound over one more witness, outermost.
pub open spec fn bound_over(id: WitnessId, range: RangeS, body: TypeS) -> TypeS {
    match body.head {
        TypeHeadS::Fun(name, k) => if binds(binders_of(k), id) {
            body
        } else {
            TypeS {
                head: TypeHeadS::Fun(
                    name,
                    FunKindS::Data(
                        Some(seq![WitnessS { id, shape: range.shape }] + binders_of(k)),
                    ),
                ),
                kids: range.types + body.kids,
                preds: body.preds,
            }
        },
        _ => body,
    }
}

/// The identity minted `k` steps after `start`.
pub open spec fn minted_id(start: u32, k: nat) -> WitnessId {
    WitnessId(WitnessBinderId(index_at(k, start)))
}

/// The new names of `ws`, minted from `start` on.
pub open spec fn minted_names(ws: Seq<WitnessS>, start: u32) -> Map<WitnessId, WitnessId>
    decreases ws.len(),
{
    if ws.len() == 0 {
        Map::empty()
    } else {
        minted_names(ws.drop_last(), start).insert(
            ws.last().id,
            minted_id(start, (ws.len() - 1) as nat),
        )
    }
}

/// `t` under binders minted from `start` on, its occurrences renamed with them.
pub open spec fn converted(t: TypeS, start: u32) -> TypeS {
    match t.head {
        TypeHeadS::Fun(name, k) => if is_sum(t) {
            let ws = binders_of(k);
            let m = ActS::Refer(minted_names(ws, start));
            let n = t.kids.len();
            TypeS {
                head: TypeHeadS::Fun(
                    name,
                    FunKindS::Data(
                        Some(
                            Seq::new(
                                ws.len(),
                                |i: int|
                                    WitnessS { id: minted_id(start, i as nat), shape: ws[i].shape },
                            ),
                        ),
                    ),
                ),
                kids: t.kids.take(n - 2).push(acted_ty(m, t.kids[n - 2])).push(
                    acted_ty(m, t.kids[n - 1]),
                ),
                preds: Seq::empty(),
            }
        } else {
            t
        },
        _ => t,
    }
}

/// The renaming the pairs say, a later pair taking the place of an earlier one.
pub open spec fn pairs_map(s: Seq<(WitnessId, WitnessId)>) -> Map<WitnessId, WitnessId>
    decreases s.len(),
{
    if s.len() == 0 {
        Map::empty()
    } else {
        pairs_map(s.drop_last()).insert(s.last().0, s.last().1)
    }
}

/// A renaming of witnesses.
pub struct WitnessRenaming {
    pub pairs: Vec<(WitnessId, WitnessId)>,
}

impl WitnessRenaming {
    pub open spec fn view(&self) -> Map<WitnessId, WitnessId> {
        pairs_map(self.pairs@)
    }

    pub fn new() -> (r: WitnessRenaming)
        ensures
            r.view() == Map::<WitnessId, WitnessId>::empty(),
    {
        WitnessRenaming { pairs: Vec::new() }
    }

    /// Renames `from` to `to`.
    pub fn insert(&mut self, from: WitnessId, to: WitnessId)
        ensures
            final(self).view() == old(self).view().insert(from, to),
    {
        let ghost before = self.pairs@;
        self.pairs.push((from, to));
        assert(self.pairs@.drop_last() =~= before);
    }

    pub fn is_empty(&self) -> (r: bool)
        ensures
            r == (self.view() == Map::<WitnessId, WitnessId>::empty()),
    {
        proof {
            if self.pairs@.len() > 0 {
                assert(self.view().dom().contains(self.pairs@.last().0));
            }
        }
        self.pairs.len() == 0
    }

    /// The witness named in place of `w`.
    pub fn apply(&self, w: WitnessId) -> (r: WitnessId)
        ensures
            r == renamed_id(self.view(), w),
    {
        let ghost all = self.pairs@;
        let mut n: usize = self.pairs.len();
        assert(all.take(n as int) =~= all);
        while n > 0
            invariant
                n <= self.pairs.len(),
                all == self.pairs@,
                renamed_id(pairs_map(all), w) == renamed_id(pairs_map(all.take(n as int)), w),
            decreases n,
        {
            n = n - 1;
            assert(all.take(n + 1).drop_last() =~= all.take(n as int));
            assert(all.take(n + 1).last() == all[n as int]);
            if self.pairs[n].0 == w {
                return self.pairs[n].1;
            }
        }
        w
    }
}

/// What a walk does to witnesses.
pub enum Act<'a> {
    Open(WitnessId, &'a Type),
    Refer(&'a WitnessRenaming),
    Rename(&'a WitnessRenaming),
}

impl<'a> Act<'a> {
    pub open spec fn view(&self) -> ActS {
        match self {
            Act::Open(b, c) => ActS::Open(*b, c.view()),
            Act::Refer(m) => ActS::Refer(m.view()),
            Act::Rename(m) => ActS::Rename(m.view()),
        }
    }
}

/// Whether one of `ws` is the witness `b`.
fn has_witness(ws: &Vec<Witness>, b: WitnessId) -> (r: bool)
    ensures
        r == binds(witnesses_view(ws@), b),
{
    let ghost all = witnesses_view(ws@);
    let mut i: usize = 0;
    while i < ws.len()
        invariant
            i <= ws.len(),
            all == witnesses_view(ws@),
            forall|j: int| 0 <= j < i ==> (#[trigger] all[j]).id != b,
        decreases ws.len() - i,
    {
        assert(all[i as int].id == ws@[i as int].id);
        if ws[i].id == b {
            return true;
        }
        i = i + 1;
    }
    false
}

pub proof fn lemma_witness_types_push(ws: Seq<Witness>, w: Witness)
    ensures
        witness_types_view(ws.push(w)) == witness_types_view(ws) + w.range.types_view(),
        witnesses_view(ws.push(w)) == witnesses_view(ws).push(w.view()),
{
    let all = ws.push(w);
    assert(all.take(all.len() - 1) =~= ws);
    assert(witnesses_view(all) =~= witnesses_view(ws).push(w.view()));
}

/// The witnesses other than `b`.
fn without_witness(ws: &Vec<Witness>, b: WitnessId) -> (r: Vec<Witness>)
    ensures
        witnesses_view(r@) == kept(witnesses_view(ws@), b),
        witness_types_view(r@) == kept_types(witnesses_view(ws@), witness_types_view(ws@), b),
{
    let mut out: Vec<Witness> = Vec::new();
    let mut i: usize = 0;
    proof {
        assert(witnesses_view(ws@.take(0)) =~= Seq::empty());
        assert(witnesses_view(out@) =~= kept(witnesses_view(ws@.take(0)), b));
        assert(witness_types_view(out@) =~= Seq::empty());
        assert(witness_types_view(ws@.take(0)) =~= Seq::empty());
    }
    while i < ws.len()
        invariant
            i <= ws.len(),
            witnesses_view(out@) == kept(witnesses_view(ws@.take(i as int)), b),
            witness_types_view(out@) == kept_types(
                witnesses_view(ws@.take(i as int)),
                witness_types_view(ws@.take(i as int)),
                b,
            ),
        decreases ws.len() - i,
    {
        let ghost seen = ws@.take(i as int);
        let ghost w = ws@[i as int];
        let ghost before = out@;
        proof {
            assert(ws@.take(i + 1) =~= seen.push(w));
            lemma_witness_types_push(seen, w);
            let vs = witnesses_view(seen.push(w));
            assert(vs.drop_last() =~= witnesses_view(seen));
            let tys = witness_types_view(seen.push(w));
            let n = shape_width(w.range.shape());
            assert(w.range.types_view().len() == n);
            let cut = tys.len() - n;
            assert(tys.take(cut) =~= witness_types_view(seen));
            assert(tys.skip(cut) =~= w.range.types_view());
        }
        if ws[i].id != b {
            let c = ws[i].clone();
            out.push(c);
            proof {
                lemma_witness_types_push(before, c);
            }
        }
        i = i + 1;
    }
    assert(ws@.take(i as int) =~= ws@);
    out
}

/// The witnesses under other identities.
fn with_other_ids(ws: &Vec<Witness>, m: &WitnessRenaming) -> (r: Vec<Witness>)
    ensures
        witnesses_view(r@) == renamed_witnesses(m.view(), witnesses_view(ws@)),
        witness_types_view(r@) == witness_types_view(ws@),
{
    let ghost all = renamed_witnesses(m.view(), witnesses_view(ws@));
    let mut out: Vec<Witness> = Vec::new();
    let mut i: usize = 0;
    proof {
        assert(ws@.take(0) =~= Seq::empty());
        assert(witnesses_view(out@) =~= all.take(0));
    }
    while i < ws.len()
        invariant
            i <= ws.len(),
            all == renamed_witnesses(m.view(), witnesses_view(ws@)),
            witnesses_view(out@) == all.take(i as int),
            witness_types_view(out@) == witness_types_view(ws@.take(i as int)),
        decreases ws.len() - i,
    {
        let ghost before = out@;
        let id = m.apply(ws[i].id);
        let c = ws[i].renamed(id);
        out.push(c);
        proof {
            lemma_witness_types_push(before, c);
            lemma_witness_types_push(ws@.take(i as int), ws@[i as int]);
            assert(ws@.take(i + 1) =~= ws@.take(i as int).push(ws@[i as int]));
            assert(all[i as int] == c.view());
            assert(all.take(i + 1) =~= all.take(i as int).push(c.view()));
        }
        i = i + 1;
    }
    assert(ws@.take(i as int) =~= ws@);
    assert(all.take(i as int) =~= all);
    out
}

/// A type whose components are walked, its binders walked too.
fn act_on_binders(a: &Act, t: Type) -> (r: Type)
    ensures
        r.view() == (match t.view().head {
            TypeHeadS::Fun(name, FunKindS::Data(Some(ws))) => acted_binders(
                a.view(),
                name,
                ws,
                t.view(),
            ),
            _ => t.view(),
        }),
{
    let ghost tv = t.view();
    match t {
        Type::Fun { name, fun_kind: FunKind::Data(Some(ws)), domain, codomain } => {
            let ghost n = tv.kids.len();
            let ghost dom = domain.view();
            let ghost cod = codomain.view();
            let ghost range = witness_types_view(ws@);
            let ghost vs = witnesses_view(ws@);
            let ghost nm = opt_name_view(name);
            let ghost k = FunKind::Data(Some(ws));
            assert(k.types_view() == range);
            assert(tv.kids =~= range.push(dom).push(cod));
            assert(tv.kids.take(n - 2) =~= range);
            assert(tv.kids.skip(n - 2) =~= seq![dom, cod]);
            match a {
                Act::Open(b, _) => {
                    if has_witness(&ws, *b) {
                        let rest = without_witness(&ws, *b);
                        let ghost rv = witnesses_view(rest@);
                        let fun_kind = if rest.len() == 0 {
                            assert(witness_types_view(rest@) =~= Seq::empty());
                            FunKind::Data(None)
                        } else {
                            FunKind::Data(Some(rest))
                        };
                        assert(fun_kind.view() == slot_of(rv));
                        assert(fun_kind.types_view() == kept_types(vs, range, *b));
                        let out = Type::Fun { name, fun_kind, domain, codomain };
                        assert(out.view().kids =~= kept_types(vs, range, *b) + seq![dom, cod]);
                        out
                    } else {
                        Type::Fun { name, fun_kind: FunKind::Data(Some(ws)), domain, codomain }
                    }
                },
                Act::Refer(_) => Type::Fun {
                    name,
                    fun_kind: FunKind::Data(Some(ws)),
                    domain,
                    codomain,
                },
                Act::Rename(m) => {
                    let fun_kind = FunKind::Data(Some(with_other_ids(&ws, m)));
                    assert(fun_kind.types_view() == range);
                    let out = Type::Fun { name, fun_kind, domain, codomain };
                    assert(out.view().kids =~= tv.kids);
                    out
                },
            }
        },
        t => t,
    }
}

/// The walk over a type.
pub fn act_on_type(a: &Act, t: &Type) -> (r: Type)
    ensures
        r.view() == acted_ty(a.view(), t.view()),
    decreases t.view(),
{
    let ghost tv = t.view();
    let ghost m = a.view();
    match t {
        Type::WitnessRef(w) => {
            return match a {
                Act::Open(b, c) => if *w == *b {
                    (*c).clone()
                } else {
                    Type::WitnessRef(*w)
                },
                Act::Refer(m) => Type::WitnessRef(m.apply(*w)),
                Act::Rename(m) => Type::WitnessRef(m.apply(*w)),
            };
        },
        _ => {},
    }
    let kids = t.walk_children();
    let preds = t.shared_predicates();
    assert(kids@.len() == tv.kids.len());
    assert(preds@.len() == tv.preds.len()) by {
        assert(shared_refs_view(preds@).len() == preds@.len());
    }
    let mut ks: Vec<Type> = Vec::new();
    let mut ps: Vec<Rc<Expr>> = Vec::new();
    let mut i: usize = 0;
    while i < kids.len()
        invariant
            i <= kids.len(),
            ks.len() == i,
            tv == t.view(),
            m == a.view(),
            kids@.len() == tv.kids.len(),
            type_refs_view(kids@) == tv.kids,
            forall|j: int| 0 <= j < i ==> (#[trigger] ks@[j]).view() == acted_ty(m, tv.kids[j]),
        decreases kids.len() - i,
    {
        assert(kids@[i as int].view() == tv.kids[i as int]);
        assert(decreases_to!(tv => tv.kids[i as int]));
        ks.push(act_on_type(a, kids[i]));
        i = i + 1;
    }
    let deep = match a {
        Act::Rename(_) => false,
        _ => true,
    };
    let mut i: usize = 0;
    while i < preds.len()
        invariant
            i <= preds.len(),
            ps.len() == i,
            tv == t.view(),
            m == a.view(),
            deep == !(m is Rename),
            preds@.len() == tv.preds.len(),
            shared_refs_view(preds@) == tv.preds,
            forall|j: int|
                0 <= j < i ==> (#[trigger] ps@[j]).view() == (if deep {
                    acted_expr(m, tv.preds[j])
                } else {
                    tv.preds[j]
                }),
        decreases preds.len() - i,
    {
        assert(preds@[i as int].view() == tv.preds[i as int]);
        assert(decreases_to!(tv => tv.preds[i as int]));
        if deep {
            ps.push(Rc::new(act_on_expr(a, preds[i])));
        } else {
            ps.push(share(preds[i]));
        }
        i = i + 1;
    }
    proof {
        assert(types_view(ks@) =~= acted_parts(m, tv).kids);
        assert(shared_view(ps@) =~= (if deep {
            acted_preds(m, tv)
        } else {
            tv.preds
        }));
    }
    let out = t.rebuild(ks, ps);
    proof {
        if !deep {
            law_a_set_has_no_duplicates(tv.preds);
        }
    }
    assert(out.view() == acted_parts(m, tv));
    act_on_binders(a, out)
}

/// The walk over a term inside a type.
pub fn act_on_expr(a: &Act, e: &Expr) -> (r: Expr)
    ensures
        r.view() == acted_expr(a.view(), e.view()),
    decreases e.view(),
{
    let ghost ev = e.view();
    let ghost m = a.view();
    let kids = e.children();
    let slots = e.type_slots();
    assert(kids@.len() == ev.kids.len());
    assert(slots@.len() == ev.tys.len());
    let mut ks: Vec<Expr> = Vec::new();
    let mut ts: Vec<Type> = Vec::new();
    let mut i: usize = 0;
    while i < kids.len()
        invariant
            i <= kids.len(),
            ks.len() == i,
            ev == e.view(),
            m == a.view(),
            kids@.len() == ev.kids.len(),
            expr_refs_view(kids@) == ev.kids,
            forall|j: int| 0 <= j < i ==> (#[trigger] ks@[j]).view() == acted_expr(m, ev.kids[j]),
        decreases kids.len() - i,
    {
        assert(kids@[i as int].view() == ev.kids[i as int]);
        assert(decreases_to!(ev => ev.kids[i as int]));
        ks.push(act_on_expr(a, kids[i]));
        i = i + 1;
    }
    let mut i: usize = 0;
    while i < slots.len()
        invariant
            i <= slots.len(),
            ts.len() == i,
            ev == e.view(),
            m == a.view(),
            slots@.len() == ev.tys.len(),
            type_refs_view(slots@) == ev.tys,
            forall|j: int| 0 <= j < i ==> (#[trigger] ts@[j]).view() == acted_ty(m, ev.tys[j]),
        decreases slots.len() - i,
    {
        assert(slots@[i as int].view() == ev.tys[i as int]);
        assert(decreases_to!(ev => ev.tys[i as int]));
        ts.push(act_on_type(a, slots[i]));
        i = i + 1;
    }
    proof {
        assert(exprs_view(ks@) =~= acted_expr(m, ev).kids);
        assert(types_view(ts@) =~= acted_expr(m, ev).tys);
    }
    e.rebuild(ks, ts)
}

proof fn lemma_witness_types_join(ws: Seq<Witness>, more: Seq<Witness>)
    ensures
        witness_types_view(ws + more) == witness_types_view(ws) + witness_types_view(more),
        witnesses_view(ws + more) == witnesses_view(ws) + witnesses_view(more),
    decreases more.len(),
{
    let all = ws + more;
    assert(witnesses_view(all) =~= witnesses_view(ws) + witnesses_view(more));
    if more.len() == 0 {
        assert(all =~= ws);
        assert(witness_types_view(all) =~= witness_types_view(ws) + witness_types_view(more));
    } else {
        let init = more.take(more.len() - 1);
        lemma_witness_types_join(ws, init);
        assert(all.take(all.len() - 1) =~= ws + init);
        assert(witness_types_view(all) =~= witness_types_view(ws) + witness_types_view(more));
    }
}

/// `ty` with the witness `binder` opened at `candidate`: every reference to it
/// replaced, and no function left binding it.
pub fn instantiate_witness(ty: &Type, binder: &WitnessId, candidate: &Type) -> (r: Type)
    ensures
        r.view() == acted_ty(ActS::Open(*binder, candidate.view()), ty.view()),
{
    let a = Act::Open(*binder, candidate);
    act_on_type(&a, ty)
}

pub proof fn lemma_kept_types_from(ws: Seq<WitnessS>, tys: Seq<TypeS>, b: WitnessId, i: int)
    requires
        ranges_width(ws) == tys.len(),
        0 <= i < kept_types(ws, tys, b).len(),
    ensures
        tys.contains(kept_types(ws, tys, b)[i]),
    decreases ws.len(),
{
    let cut = tys.len() - shape_width(ws.last().shape);
    let rest = kept_types(ws.drop_last(), tys.take(cut), b);
    assert(ws.len() > 0);
    if i < rest.len() {
        lemma_kept_types_from(ws.drop_last(), tys.take(cut), b, i);
        let j = choose|j: int| 0 <= j < tys.take(cut).len() && tys.take(cut)[j] == rest[i];
        assert(tys[j] == rest[i]);
    } else {
        assert(tys[cut + i - rest.len()] == kept_types(ws, tys, b)[i]);
    }
}

/// Whether the ranges `t` binds fit its components, and references to witnesses
/// have none, everywhere in `t`.
pub open spec fn fitting(t: TypeS) -> bool
    decreases t,
{
    (t.head matches TypeHeadS::Fun(_, k) ==> ranges_width(binders_of(k)) + 2 == t.kids.len())
        && (t.head is WitnessRef ==> t.kids.len() == 0 && t.preds.len() == 0) && forall|i: int|
        0 <= i < t.kids.len() ==> fitting(#[trigger] t.kids[i])
}

/// Opening a witness at a candidate that does not mention it leaves no
/// occurrence of it.
pub proof fn law_opening_leaves_none(t: TypeS, b: WitnessId, c: TypeS)
    requires
        !mentions(c, b),
        fitting(t),
    ensures
        !mentions(acted_ty(ActS::Open(b, c), t), b),
    decreases t,
{
    let a = ActS::Open(b, c);
    let parts = acted_parts(a, t);
    assert forall|i: int| 0 <= i < parts.kids.len() implies !mentions(
        #[trigger] parts.kids[i],
        b,
    ) by {
        law_opening_leaves_none(t.kids[i], b, c);
    }
    match t.head {
        TypeHeadS::Fun(name, FunKindS::Data(Some(ws))) => {
            if binds(ws, b) {
                let n = parts.kids.len();
                let out = acted_ty(a, t);
                let range = parts.kids.take(n - 2);
                let front = kept_types(ws, range, b);
                assert forall|i: int| 0 <= i < out.kids.len() implies !mentions(
                    #[trigger] out.kids[i],
                    b,
                ) by {
                    if i < front.len() {
                        lemma_kept_types_from(ws, range, b, i);
                        let j = choose|j: int| 0 <= j < range.len() && range[j] == front[i];
                        assert(parts.kids[j] == out.kids[i]);
                    } else {
                        assert(out.kids[i] == parts.kids[n - 2 + i - front.len()]);
                    }
                }
            }
        },
        _ => {},
    }
}

/// Every stored type has components fitting the ranges it binds.
pub proof fn lemma_types_fit(t: Type)
    ensures
        fitting(t.view()),
    decreases t,
{
    let tv = t.view();
    match t {
        Type::Fun { name, fun_kind, domain, codomain } => {
            lemma_types_fit(*domain);
            lemma_types_fit(*codomain);
            match fun_kind {
                FunKind::Data(Some(ws)) => {
                    lemma_ranges_fit(ws@);
                    assert(fun_kind.types_view() == witness_types_view(ws@));
                },
                _ => {
                    assert(fun_kind.types_view() =~= Seq::empty());
                    assert(binders_of(fun_kind.view()) =~= Seq::empty());
                },
            }
            let front = fun_kind.types_view();
            assert forall|i: int| 0 <= i < tv.kids.len() implies fitting(#[trigger] tv.kids[i]) by {
                if i < front.len() {
                    assert(tv.kids[i] == front[i]);
                }
            }
        },
        Type::Tuple(ts) => {
            assert(tv.kids == types_view(ts@));
            assert forall|i: int| 0 <= i < tv.kids.len() implies fitting(#[trigger] tv.kids[i]) by {
                lemma_types_fit(ts@[i]);
            }
        },
        Type::Record(fs) => {
            assert(tv.kids == field_types_view(fs@));
            assert forall|i: int| 0 <= i < tv.kids.len() implies fitting(#[trigger] tv.kids[i]) by {
                assert(decreases_to!(fs@[i] => fs@[i].1));
                lemma_types_fit(fs@[i].1);
            }
        },
        Type::Variant(arms, _) => {
            assert(tv.kids == arm_types_view(arms@));
            assert forall|i: int| 0 <= i < tv.kids.len() implies fitting(#[trigger] tv.kids[i]) by {
                assert(decreases_to!(arms@[i] => arms@[i].1));
                lemma_types_fit(arms@[i].1);
            }
        },
        Type::Refinement(base, _) => {
            lemma_types_fit(*base);
        },
        Type::BoundedHole(u) => {
            lemma_types_fit(*u);
        },
        Type::History { value, domain, history_kind } => {
            lemma_types_fit(*value);
            lemma_types_fit(*domain);
        },
        _ => {},
    }
}

proof fn lemma_ranges_fit(ws: Seq<Witness>)
    ensures
        ranges_width(witnesses_view(ws)) == witness_types_view(ws).len(),
        forall|i: int|
            0 <= i < witness_types_view(ws).len() ==> fitting(#[trigger] witness_types_view(ws)[i]),
    decreases ws,
{
    if ws.len() > 0 {
        let init = ws.take(ws.len() - 1);
        let w = ws[ws.len() - 1];
        lemma_ranges_fit(init);
        assert(witnesses_view(ws).drop_last() =~= witnesses_view(init));
        let more = w.range.types_view();
        assert(more.len() == shape_width(w.range.shape()));
        assert forall|i: int| 0 <= i < more.len() implies fitting(#[trigger] more[i]) by {
            match w.range {
                TypeKind::Enumerated(ts) => {
                    lemma_types_fit(ts@[i]);
                },
                TypeKind::SubtypesOf(k) => {
                    lemma_types_fit(*k);
                },
                _ => {},
            }
        }
        let n = witness_types_view(init).len();
        assert forall|i: int| 0 <= i < witness_types_view(ws).len() implies fitting(
            #[trigger] witness_types_view(ws)[i],
        ) by {
            if i >= n {
                assert(witness_types_view(ws)[i] == more[i - n]);
            } else {
                assert(witness_types_view(ws)[i] == witness_types_view(init)[i]);
            }
        }
    }
}

/// Renaming nothing changes nothing.
pub proof fn law_renaming_nothing(t: TypeS)
    requires
        fitting(t),
    ensures
        acted_ty(ActS::Rename(Map::empty()), t) == t,
    decreases t,
{
    let a = ActS::Rename(Map::empty());
    let parts = acted_parts(a, t);
    assert forall|i: int| 0 <= i < t.kids.len() implies #[trigger] parts.kids[i] == t.kids[i] by {
        law_renaming_nothing(t.kids[i]);
    }
    assert(parts.kids =~= t.kids);
    match t.head {
        TypeHeadS::Fun(name, FunKindS::Data(Some(ws))) => {
            assert(renamed_witnesses(Map::empty(), ws) =~= ws);
        },
        TypeHeadS::WitnessRef(w) => {
            assert(t.kids =~= Seq::empty());
            assert(t.preds =~= Seq::empty());
        },
        _ => {},
    }
}

impl Type {
    /// The type with the witnesses it refers to and binds renamed.
    pub fn rename_witnesses(&self, renaming: &WitnessRenaming) -> (r: Type)
        ensures
            r.view() == acted_ty(ActS::Rename(renaming.view()), self.view()),
    {
        if renaming.is_empty() {
            proof {
                lemma_types_fit(*self);
                law_renaming_nothing(self.view());
            }
            return self.clone();
        }
        let a = Act::Rename(renaming);
        act_on_type(&a, self)
    }

    /// The sum's body at `candidate`: its outermost binder dropped, and its
    /// occurrences replaced.
    pub fn instantiate_sum(&self, candidate: &Type) -> (r: Type)
        requires
            is_sum(self.view()),
            !mentions(candidate.view(), sum_of(self.view())[0].id),
        ensures
            r.view() == acted_ty(
                ActS::Open(sum_of(self.view())[0].id, candidate.view()),
                self.view(),
            ),
            !mentions(r.view(), sum_of(self.view())[0].id),
    {
        let ws = self.sum().unwrap();
        let binder = ws[0].id;
        assert(witnesses_view(ws@)[0].id == binder);
        proof {
            lemma_types_fit(*self);
            law_opening_leaves_none(self.view(), binder, candidate.view());
        }
        instantiate_witness(self, &binder, candidate)
    }

    /// `body` bound over `witness`, outermost; a body that binds it already
    /// stays as it is.
    pub fn sum_binding(witness: Witness, body: Type) -> (r: Type)
        requires
            mentions(body.view(), witness.id),
            body.view().head matches TypeHeadS::Fun(_, FunKindS::Data(_)),
        ensures
            r.view() == bound_over(witness.id, witness.range.view(), body.view()),
    {
        let ghost bv = body.view();
        match body {
            Type::Fun { name, fun_kind: FunKind::Data(slot), domain, codomain } => {
                let ghost dom = domain.view();
                let ghost cod = codomain.view();
                let ghost nm = opt_name_view(name);
                let rest = match slot {
                    Some(ws) => {
                        let ghost k = FunKind::Data(Some(ws));
                        assert(k.types_view() == witness_types_view(ws@));
                        if has_witness(&ws, witness.id) {
                            return Type::Fun {
                                name,
                                fun_kind: FunKind::Data(Some(ws)),
                                domain,
                                codomain,
                            };
                        }
                        ws
                    },
                    None => {
                        let ghost k = FunKind::Data(None);
                        assert(k.types_view() =~= Seq::empty());
                        Vec::new()
                    },
                };
                let ghost range = witness_types_view(rest@);
                let ghost vs = witnesses_view(rest@);
                assert(bv.kids =~= range.push(dom).push(cod));
                let mut rest = rest;
                let mut ws: Vec<Witness> = Vec::new();
                ws.push(witness);
                let ghost one = ws@;
                let ghost more = rest@;
                ws.append(&mut rest);
                proof {
                    assert(ws@ =~= one + more);
                    lemma_witness_types_join(one, more);
                    assert(one.take(0) =~= Seq::empty());
                    assert(witness_types_view(one.take(0)) =~= Seq::empty());
                    assert(witness_types_view(one) =~= witness.range.types_view());
                    assert(witnesses_view(one) =~= seq![witness.view()]);
                    assert(vs =~= binders_of(match bv.head {
                        TypeHeadS::Fun(_, k) => k,
                        _ => FunKindS::Compute,
                    }));
                }
                let fun_kind = FunKind::Data(Some(ws));
                assert(fun_kind.types_view() == witness_types_view(one) + range);
                let out = Type::Fun { name, fun_kind, domain, codomain };
                assert(out.view().kids =~= witness.range.types_view() + bv.kids);
                out
            },
            other => other,
        }
    }

    /// The sum under newly minted binders, its occurrences renamed with them;
    /// what is no sum stays as it is.
    pub fn alpha_convert_sum(&self, vars: &mut KindVars) -> (r: Type)
        ensures
            r.view() == converted(self.view(), old(vars).next_witness),
            final(vars).next_witness == index_at(
                (if is_sum(self.view()) { sum_of(self.view()).len() } else { 0 }),
                old(vars).next_witness,
            ),
            final(vars).view() == old(vars).view(),
    {
        let ghost start = vars.next_witness;
        let ghost kv = vars.view();
        let ghost tv = self.view();
        let ws = match self.sum() {
            Some(ws) => ws,
            None => {
                return self.clone();
            },
        };
        let ghost vs = witnesses_view(ws@);
        let ghost n = tv.kids.len();
        let mut fresh: Vec<Witness> = Vec::new();
        let mut names = WitnessRenaming::new();
        let mut i: usize = 0;
        assert(vs.take(0) =~= Seq::empty());
        assert(ws@.take(0) =~= Seq::empty());
        while i < ws.len()
            invariant
                i <= ws.len(),
                vs == witnesses_view(ws@),
                vars.view() == kv,
                vars.next_witness == index_at(i as nat, start),
                names.view() == minted_names(vs.take(i as int), start),
                fresh.len() == i,
                witness_types_view(fresh@) == witness_types_view(ws@.take(i as int)),
                forall|j: int|
                    0 <= j < i ==> (#[trigger] fresh@[j]).view() == (WitnessS {
                        id: minted_id(start, j as nat),
                        shape: vs[j].shape,
                    }),
            decreases ws.len() - i,
        {
            let ghost before = fresh@;
            let k = ws[i].type_kind();
            let w = Witness::mint(k, vars);
            names.insert(ws[i].id, w.id);
            fresh.push(w);
            proof {
                lemma_witness_types_push(before, w);
                lemma_witness_types_push(ws@.take(i as int), ws@[i as int]);
                assert(ws@.take(i + 1) =~= ws@.take(i as int).push(ws@[i as int]));
                assert(vs.take(i + 1).drop_last() =~= vs.take(i as int));
                assert(vs.take(i + 1).last() == vs[i as int]);
            }
            i = i + 1;
        }
        proof {
            assert(vs.take(i as int) =~= vs);
            assert(ws@.take(i as int) =~= ws@);
        }
        let a = Act::Refer(&names);
        match self {
            Type::Fun { name, fun_kind, domain, codomain } => {
                assert(tv.kids[n - 2] == domain.view());
                assert(tv.kids[n - 1] == codomain.view());
                let d = act_on_type(&a, domain);
                let c = act_on_type(&a, codomain);
                let kind = FunKind::Data(Some(fresh));
                assert(kind.types_view() == tv.kids.take(n - 2));
                let ghost want = converted(tv, start);
                assert(kind.view() == FunKindS::Data(Some(witnesses_view(fresh@))));
                assert(witnesses_view(fresh@) =~= binders_of(match want.head {
                    TypeHeadS::Fun(_, k) => k,
                    _ => FunKindS::Compute,
                }));
                let out = Type::Fun {
                    name: clone_opt_name(name),
                    fun_kind: kind,
                    domain: Box::new(d),
                    codomain: Box::new(c),
                };
                assert(out.view().kids =~= want.kids);
                out
            },
            _ => self.clone(),
        }
    }
}

} // verus!
