//! Canonical copies of types: binders counted by nesting, names of arguments
//! forgotten.

use vstd::prelude::*;
use crate::ast::{
    FunKind, FunKindS, Refinement, Type, TypeHeadS, TypeS, Witness, WitnessBinderId, WitnessId,
    WitnessS, leaf_ty, types_view, witness_types_view, witnesses_view,
};
use crate::kind_vars::{binders_of, witness_ids};
use crate::refinement_set::law_a_set_has_no_duplicates;
use crate::sharing::{share_all, shared_view};
use crate::tree::type_refs_view;
use crate::type_forms::{refined_ty, sum_of};
use crate::witness::{binders_at, scope_at};
use crate::witness_walk::{lemma_types_fit, lemma_witness_types_push};

verus! {

/// How far in from the last `w` stands, where `scope` holds it.
pub open spec fn depth_in(scope: Seq<WitnessId>, w: WitnessId) -> Option<nat>
    decreases scope.len(),
{
    if scope.len() == 0 {
        None
    } else if scope.last() == w {
        Some(0)
    } else {
        match depth_in(scope.drop_last(), w) {
            Some(d) => Some(d + 1),
            None => None,
        }
    }
}

/// The witness counted as number `n`.
pub open spec fn counted(n: nat) -> WitnessId {
    WitnessId(WitnessBinderId((n as usize) as u32))
}

/// The witnesses counted from number `base` on.
pub open spec fn counted_from(base: nat, ws: Seq<WitnessS>) -> Seq<WitnessS> {
    Seq::new(ws.len(), |i: int| WitnessS { id: counted((base + i) as nat), shape: ws[i].shape })
}

/// The form of a type under `depth` binders, its own binders counted.
pub open spec fn counted_head(h: TypeHeadS, depth: nat) -> TypeHeadS {
    match h {
        TypeHeadS::Fun(name, FunKindS::Data(Some(ws))) => TypeHeadS::Fun(
            name,
            FunKindS::Data(Some(counted_from(depth, ws))),
        ),
        _ => h,
    }
}

/// `t` with every reference to a witness counted inwards from its binder.
pub open spec fn binders_counted(t: TypeS, scope: Seq<WitnessId>) -> TypeS
    decreases t,
{
    match t.head {
        TypeHeadS::WitnessRef(w) => match depth_in(scope, w) {
            Some(d) => leaf_ty(TypeHeadS::WitnessRef(counted(d))),
            None => leaf_ty(t.head),
        },
        _ => TypeS {
            head: counted_head(t.head, scope.len()),
            kids: Seq::new(
                t.kids.len(),
                |i: int|
                    if 0 <= i < t.kids.len() {
                        binders_counted(t.kids[i], scope + binders_at(t, i))
                    } else {
                        arbitrary()
                    },
            ),
            preds: t.preds,
        },
    }
}

/// The form of a function type without the name of its argument: a computation
/// unless it binds witnesses.
pub open spec fn unnamed_head(h: TypeHeadS) -> TypeHeadS {
    match h {
        TypeHeadS::Fun(_, k) => TypeHeadS::Fun(
            None,
            if binders_of(k).len() == 0 {
                FunKindS::Compute
            } else {
                k
            },
        ),
        _ => h,
    }
}

/// `t` without the names of arguments.
pub open spec fn pi_unnamed(t: TypeS) -> TypeS
    decreases t,
{
    if t.head is Refinement && t.kids.len() > 0 {
        refined_ty(pi_unnamed(t.kids[0]), t.preds)
    } else {
        TypeS {
            head: unnamed_head(t.head),
            kids: Seq::new(
                t.kids.len(),
                |i: int|
                    if 0 <= i < t.kids.len() {
                        pi_unnamed(t.kids[i])
                    } else {
                        arbitrary()
                    },
            ),
            preds: t.preds,
        }
    }
}

/// How far in from the last `w` stands, where `scope` holds it.
fn find_depth(scope: &Vec<WitnessId>, w: WitnessId) -> (r: Option<usize>)
    ensures
        match r {
            Some(d) => depth_in(scope@, w) == Some(d as nat),
            None => depth_in(scope@, w) is None,
        },
{
    let ghost all = scope@;
    let mut d: usize = 0;
    assert(all.take(all.len() as int) =~= all);
    while d < scope.len()
        invariant
            d <= scope.len(),
            all == scope@,
            depth_in(all, w) == (match depth_in(all.take(all.len() - d), w) {
                Some(k) => Some((k + d) as nat),
                None => None,
            }),
        decreases scope.len() - d,
    {
        let n: usize = scope.len() - d;
        assert(all.take(n as int).drop_last() =~= all.take(n - 1));
        assert(all.take(n as int).last() == all[n - 1]);
        if scope[n - 1] == w {
            return Some(d);
        }
        d = d + 1;
    }
    None
}

/// The witnesses counted from number `base` on.
fn count_from(base: usize, ws: Vec<Witness>) -> (r: Vec<Witness>)
    requires
        base + ws@.len() <= usize::MAX,
    ensures
        witnesses_view(r@) == counted_from(base as nat, witnesses_view(ws@)),
        witness_types_view(r@) == witness_types_view(ws@),
{
    let ghost all = counted_from(base as nat, witnesses_view(ws@));
    let mut out: Vec<Witness> = Vec::new();
    let mut i: usize = 0;
    proof {
        assert(ws@.take(0) =~= Seq::empty());
        assert(witnesses_view(out@) =~= all.take(0));
    }
    while i < ws.len()
        invariant
            i <= ws.len(),
            base + ws@.len() <= usize::MAX,
            all == counted_from(base as nat, witnesses_view(ws@)),
            witnesses_view(out@) == all.take(i as int),
            witness_types_view(out@) == witness_types_view(ws@.take(i as int)),
        decreases ws.len() - i,
    {
        let ghost before = out@;
        let n: usize = base + i;
        let id = WitnessId(WitnessBinderId(#[verifier::truncate] (n as u32)));
        let c = ws[i].renamed(id);
        out.push(c);
        proof {
            lemma_witness_types_push(before, c);
            lemma_witness_types_push(ws@.take(i as int), ws@[i as int]);
            assert(ws@.take(i + 1) =~= ws@.take(i as int).push(ws@[i as int]));
            assert(all[i as int] == c.view());
            assert(all.take(i + 1) =~= all.take(i as int).push(c.view()));
        }
        i = i + 1;
    }
    assert(ws@.take(i as int) =~= ws@);
    assert(all.take(i as int) =~= all);
    out
}

/// The type with every reference to a witness counted inwards from its binder.
fn count_binders(ty: &Type, scope: &Vec<WitnessId>) -> (r: Type)
    ensures
        r.view() == binders_counted(ty.view(), scope@),
    decreases ty.view(),
{
    let ghost tv = ty.view();
    match ty {
        Type::WitnessRef(w) => {
            return match find_depth(scope, *w) {
                Some(d) => Type::WitnessRef(
                    WitnessId(WitnessBinderId(#[verifier::truncate] (d as u32))),
                ),
                None => Type::WitnessRef(*w),
            };
        },
        _ => {},
    }
    let kids = ty.walk_children();
    let preds = ty.shared_predicates();
    assert(kids@.len() == tv.kids.len());
    let mut ks: Vec<Type> = Vec::new();
    let mut i: usize = 0;
    while i < kids.len()
        invariant
            i <= kids.len(),
            ks.len() == i,
            tv == ty.view(),
            kids@.len() == tv.kids.len(),
            type_refs_view(kids@) == tv.kids,
            forall|j: int|
                0 <= j < i ==> (#[trigger] ks@[j]).view() == binders_counted(
                    tv.kids[j],
                    scope@ + binders_at(tv, j),
                ),
        decreases kids.len() - i,
    {
        assert(kids@[i as int].view() == tv.kids[i as int]);
        assert(decreases_to!(tv => tv.kids[i as int]));
        let inner = scope_at(scope, ty, i);
        ks.push(count_binders(kids[i], &inner));
        i = i + 1;
    }
    let ps = share_all(&preds);
    assert(ps@.len() == shared_view(ps@).len());
    let ghost want = binders_counted(tv, scope@);
    assert(types_view(ks@) =~= want.kids);
    proof {
        law_a_set_has_no_duplicates(tv.preds);
    }
    let out = ty.rebuild(ks, ps);
    let ghost ov = out.view();
    let last: usize = kids.len();
    match out {
        Type::Fun { name, fun_kind: FunKind::Data(Some(ws)), domain, codomain } => {
            let ghost dom = domain.view();
            let ghost cod = codomain.view();
            let ghost range = witness_types_view(ws@);
            let ghost k = FunKind::Data(Some(ws));
            assert(k.types_view() == range);
            assert(ov.kids =~= range.push(dom).push(cod));
            // What is in force at the codomain is the scope and all of `ws`.
            let whole = scope_at(scope, ty, last);
            proof {
                lemma_types_fit(*ty);
                assert(sum_of(tv) == witnesses_view(ws@));
                assert(whole@ == scope@ + witness_ids(witnesses_view(ws@)));
            }
            assert(whole.len() == scope@.len() + ws@.len());
            let fun_kind = FunKind::Data(Some(count_from(scope.len(), ws)));
            assert(fun_kind.types_view() == range);
            let res = Type::Fun { name, fun_kind, domain, codomain };
            assert(res.view().kids =~= ov.kids);
            res
        },
        other => other,
    }
}

impl Type {
    /// A copy in which every reference to a witness is counted inwards from its
    /// binder, so that types differing only in their binders agree.
    pub fn without_witness_binders(&self) -> (r: Type)
        ensures
            r.view() == binders_counted(self.view(), Seq::empty()),
    {
        let none: Vec<WitnessId> = Vec::new();
        count_binders(self, &none)
    }

    /// A copy without the names of arguments.
    pub fn without_pi_names(&self) -> (r: Type)
        ensures
            r.view() == pi_unnamed(self.view()),
        decreases self.view(),
    {
        let ghost tv = self.view();
        match self {
            Type::Refinement(base, set) => {
                assert(tv.kids[0] == base.view());
                assert(decreases_to!(tv => tv.kids[0]));
                let inner = base.without_pi_names();
                return Type::refined(inner, set.clone());
            },
            _ => {},
        }
        let kids = self.walk_children();
        let preds = self.shared_predicates();
        assert(kids@.len() == tv.kids.len());
        let mut ks: Vec<Type> = Vec::new();
        let mut i: usize = 0;
        while i < kids.len()
            invariant
                i <= kids.len(),
                ks.len() == i,
                tv == self.view(),
                kids@.len() == tv.kids.len(),
                type_refs_view(kids@) == tv.kids,
                forall|j: int| 0 <= j < i ==> (#[trigger] ks@[j]).view() == pi_unnamed(tv.kids[j]),
            decreases kids.len() - i,
        {
            assert(kids@[i as int].view() == tv.kids[i as int]);
            assert(decreases_to!(tv => tv.kids[i as int]));
            ks.push(kids[i].without_pi_names());
            i = i + 1;
        }
        let ps = share_all(&preds);
        assert(ps@.len() == shared_view(ps@).len());
        let ghost want = pi_unnamed(tv);
        assert(types_view(ks@) =~= want.kids);
        proof {
            law_a_set_has_no_duplicates(tv.preds);
        }
        let out = self.rebuild(ks, ps);
        let ghost ov = out.view();
        match out {
            Type::Fun { name, fun_kind, domain, codomain } => {
                let ghost old_kind = fun_kind;
                let fun_kind = match fun_kind {
                    FunKind::Data(Some(ws)) => if ws.len() == 0 {
                        assert(witness_types_view(ws@) =~= Seq::empty());
                        FunKind::Compute
                    } else {
                        FunKind::Data(Some(ws))
                    },
                    _ => FunKind::Compute,
                };
                assert(fun_kind.types_view() =~= old_kind.types_view());
                let res = Type::Fun { name: None, fun_kind, domain, codomain };
                assert(res.view().kids =~= ov.kids);
                res
            },
            other => other,
        }
    }
}

} // verus!
