//! Recording what is known of kind variables, and reading it back.
use vstd::prelude::*;
use crate::ast::{
    FunKind, FunKindS, FunKindVarId, Type, TypeKind, Witness, WitnessBinderId, WitnessId,
    WitnessS, types_view, witness_types_view, witnesses_view,
};
use crate::kind::{
    BoundsS, FunKindBounds, FunKindVar, KindVars, empty_bounds, kind_pin, kinds_view, own_pin,
};
use crate::kind_pin::{KindPin, arity_s};
use crate::pi::deeper;
use crate::tree::{type_refs_view, with_witness_types, witness_types};

verus! {

impl Clone for TypeKind {
    fn clone(&self) -> (r: TypeKind)
        ensures
            r.shape() == self.shape(),
            r.types_view() == self.types_view(),
    {
        let ts = self.children();
        let ghost all = self.types_view();
        assert(ts@.len() == all.len());
        let mut copies: Vec<Type> = Vec::new();
        let mut i: usize = 0;
        while i < ts.len()
            invariant
                i <= ts.len(),
                copies.len() == i,
                ts@.len() == all.len(),
                type_refs_view(ts@) == all,
                forall|j: int| 0 <= j < i ==> (#[trigger] copies@[j]).view() == all[j],
            decreases ts.len() - i,
        {
            assert(ts@[i as int].view() == all[i as int]);
            copies.push(ts[i].clone());
            i = i + 1;
        }
        assert(types_view(copies@) =~= all);
        self.with_types(copies)
    }
}

impl Clone for Witness {
    fn clone(&self) -> (r: Witness)
        ensures
            r.id == self.id,
            r.range.shape() == self.range.shape(),
            r.range.types_view() == self.range.types_view(),
    {
        Witness { id: self.id, range: self.range.clone() }
    }
}

/// Copies a list of witnesses.
pub fn clone_witnesses(ws: &Vec<Witness>) -> (r: Vec<Witness>)
    ensures
        witnesses_view(r@) == witnesses_view(ws@),
        witness_types_view(r@) == witness_types_view(ws@),
{
    let ts = witness_types(ws);
    let ghost all = witness_types_view(ws@);
    assert(ts@.len() == all.len());
    let mut copies: Vec<Type> = Vec::new();
    let mut i: usize = 0;
    while i < ts.len()
        invariant
            i <= ts.len(),
            copies.len() == i,
            ts@.len() == all.len(),
            type_refs_view(ts@) == all,
            forall|j: int| 0 <= j < i ==> (#[trigger] copies@[j]).view() == all[j],
        decreases ts.len() - i,
    {
        assert(ts@[i as int].view() == all[i as int]);
        copies.push(ts[i].clone());
        i = i + 1;
    }
    assert(types_view(copies@) =~= all);
    with_witness_types(ws, copies)
}

/// The binders a kind names.
pub open spec fn binders_of(k: FunKindS) -> Seq<WitnessS> {
    match k {
        FunKindS::Data(Some(ws)) => ws,
        _ => Seq::empty(),
    }
}

/// The identities of witnesses, in order.
pub open spec fn witness_ids(ws: Seq<WitnessS>) -> Seq<WitnessId> {
    Seq::new(ws.len(), |i: int| ws[i].id)
}

/// Whether two kinds are one bound.
pub open spec fn same_bound(a: FunKindS, b: FunKindS) -> bool {
    match (a, b) {
        (FunKindS::Var(x), FunKindS::Var(y)) => x == y,
        (FunKindS::Var(_), _) => false,
        (_, FunKindS::Var(_)) => false,
        (FunKindS::Data(Some(v)), FunKindS::Data(Some(w))) => witness_ids(v) == witness_ids(w),
        _ => own_pin(a) == own_pin(b),
    }
}

/// Whether `k` is one of the bounds `side`.
pub open spec fn bound_listed(side: Seq<FunKindS>, k: FunKindS) -> bool {
    exists|i: int| 0 <= i < side.len() && same_bound(#[trigger] side[i], k)
}

/// `side` with `k` added where it is not listed.
pub open spec fn bound_added(side: Seq<FunKindS>, k: FunKindS) -> Seq<FunKindS> {
    if bound_listed(side, k) {
        side
    } else {
        side.push(k)
    }
}

impl FunKind {
    /// The binders the kind names.
    pub fn witnesses(&self) -> (r: &[Witness])
        ensures
            witnesses_view(r@) == binders_of(self.view()),
            witness_types_view(r@) == self.types_view(),
    {
        match self {
            FunKind::Data(Some(ws)) => ws.as_slice(),
            _ => {
                let none: &[Witness] = &[];
                assert(witnesses_view(none@) =~= binders_of(self.view()));
                assert(self.types_view() =~= Seq::empty());
                none
            },
        }
    }

    /// The binders the kind names, to be written through.
    pub fn witnesses_mut(&mut self) -> (r: &mut [Witness])
        ensures
            witnesses_view(r@) == binders_of(old(self).view()),
            witness_types_view(r@) == old(self).types_view(),
            final(self).view() == (match old(self).view() {
                FunKindS::Data(Some(_)) => FunKindS::Data(Some(witnesses_view(final(r)@))),
                k => k,
            }),
            old(self).view() matches FunKindS::Data(Some(_)) ==> final(self).types_view()
                == witness_types_view(final(r)@),
    {
        match self {
            FunKind::Data(Some(ws)) => ws.as_mut_slice(),
            _ => &mut [],
        }
    }

    /// The binders the kind names, where there are any.
    pub fn sum_binders(&self) -> (r: Option<Vec<Witness>>)
        ensures
            match r {
                Some(ws) => ws@.len() > 0 && witnesses_view(ws@) == binders_of(self.view())
                    && witness_types_view(ws@) == self.types_view(),
                None => binders_of(self.view()).len() == 0,
            },
    {
        match self {
            FunKind::Data(Some(ws)) => if ws.len() > 0 {
                let out = clone_witnesses(ws);
                assert(witnesses_view(out@).len() == witnesses_view(ws@).len());
                Some(out)
            } else {
                None
            },
            _ => None,
        }
    }

    /// The binders the kind names.
    pub fn named_binders(&self) -> (r: Vec<Witness>)
        ensures
            witnesses_view(r@) == binders_of(self.view()),
            witness_types_view(r@) == self.types_view(),
    {
        match self {
            FunKind::Data(Some(ws)) => clone_witnesses(ws),
            _ => {
                let out: Vec<Witness> = Vec::new();
                assert(witnesses_view(out@) =~= binders_of(self.view()));
                assert(self.types_view() =~= Seq::empty());
                out
            },
        }
    }

    /// What is known of the kind.
    pub fn resolved(&self, vars: &KindVars) -> (r: KindPin)
        ensures
            r == kind_pin(vars.view(), self.view(), vars.view().len()),
    {
        let n: usize = vars.bounds.len();
        vars.kind_pin_at(self, n)
    }

    /// How many witnesses a function of this kind binds, where that is known.
    pub fn arity(&self, vars: &KindVars) -> (r: Option<usize>)
        ensures
            r == arity_s(kind_pin(vars.view(), self.view(), vars.view().len())),
    {
        self.resolved(vars).arity()
    }

    /// Whether a function of this kind may bind a witness.
    pub fn admits_sum(&self, vars: &KindVars) -> (r: bool)
        ensures
            r == (match self.view() {
                FunKindS::Compute => false,
                FunKindS::Data(slot) => slot is Some,
                FunKindS::Var(v) => {
                    let p = kind_pin(vars.view(), self.view(), vars.view().len());
                    p is Data || p is Sum
                },
            }),
    {
        match self {
            FunKind::Compute => false,
            FunKind::Data(slot) => slot.is_some(),
            FunKind::Var(_) => match self.resolved(vars) {
                KindPin::Data => true,
                KindPin::Sum(_) => true,
                _ => false,
            },
        }
    }

    /// The arrow a function of this kind prints with.
    pub fn arrow(&self, vars: &KindVars) -> (r: &'static str)
        ensures
            r@ == arrow_text(vars.view(), self.view()),
    {
        match self {
            FunKind::Compute => "⇒",
            FunKind::Data(_) => "⤇",
            FunKind::Var(_) => if self.resolved(vars).is_data() {
                "⤇"
            } else {
                "⇒"
            },
        }
    }

    /// A kind not known yet.
    pub fn fresh_var(vars: &mut KindVars) -> (r: FunKind)
        requires
            old(vars).view().len() < u32::MAX,
        ensures
            r.view() == FunKindS::Var(FunKindVarId(old(vars).view().len() as u32)),
            final(vars).view() == old(vars).view().push(empty_bounds()),
            final(vars).next_witness == old(vars).next_witness,
    {
        FunKind::Var(FunKindVar::fresh(vars).uid)
    }

    /// A kind known only to be data.
    pub fn fresh_data(vars: &mut KindVars) -> (r: FunKind)
        requires
            old(vars).view().len() < u32::MAX,
        ensures
            r.view() == FunKindS::Var(FunKindVarId(old(vars).view().len() as u32)),
            final(vars).view() == old(vars).view().push(
                BoundsS { stamped: KindPin::Data, ..empty_bounds() },
            ),
            final(vars).next_witness == old(vars).next_witness,
    {
        let ghost before = vars.view();
        let v = FunKindVar::fresh(vars);
        let ghost mid = vars.view();
        v.stamp_data(vars);
        assert(vars.view() =~= before.push(BoundsS { stamped: KindPin::Data, ..empty_bounds() }));
        FunKind::Var(v.uid)
    }

    /// The identities of the binders the kind names, settling those of a
    /// variable.
    pub fn binder_ids(&self, vars: &mut KindVars) -> (r: Vec<WitnessId>)
        requires
            self.view() matches FunKindS::Var(v) ==> v.0 < old(vars).view().len(),
        ensures
            match self.view() {
                FunKindS::Var(v) => settles(
                    old(vars).view(),
                    old(vars).next_witness,
                    v,
                    final(vars).view(),
                    final(vars).next_witness,
                    r@,
                ),
                k => r@ == witness_ids(binders_of(k)) && final(vars).view() == old(vars).view()
                    && final(vars).next_witness == old(vars).next_witness,
            },
    {
        match self {
            FunKind::Var(v) => (FunKindVar { uid: *v }).binder_ids(vars),
            FunKind::Data(Some(ws)) => {
                let mut out: Vec<WitnessId> = Vec::new();
                let mut i: usize = 0;
                while i < ws.len()
                    invariant
                        i <= ws.len(),
                        out.len() == i,
                        forall|j: int| 0 <= j < i ==> #[trigger] out@[j] == ws@[j].id,
                    decreases ws.len() - i,
                {
                    out.push(ws[i].id);
                    i = i + 1;
                }
                assert(out@ =~= witness_ids(binders_of(self.view())));
                out
            },
            _ => {
                let out: Vec<WitnessId> = Vec::new();
                assert(out@ =~= witness_ids(binders_of(self.view())));
                out
            },
        }
    }
}

/// The arrow a function of kind `k` prints with.
pub open spec fn arrow_text(vars: Seq<BoundsS>, k: FunKindS) -> Seq<char> {
    match k {
        FunKindS::Compute => "⇒"@,
        FunKindS::Data(_) => "⤇"@,
        FunKindS::Var(_) => {
            let p = kind_pin(vars, k, vars.len());
            if p is Data || p is Plain || p is Sum {
                "⤇"@
            } else {
                "⇒"@
            }
        },
    }
}

/// Whether two kinds are one bound.
pub fn same_fun_kind(a: &FunKind, b: &FunKind) -> (r: bool)
    ensures
        r == same_bound(a.view(), b.view()),
{
    match (a, b) {
        (FunKind::Var(x), FunKind::Var(y)) => *x == *y,
        (FunKind::Var(_), _) => false,
        (_, FunKind::Var(_)) => false,
        (FunKind::Data(Some(v)), FunKind::Data(Some(w))) => {
            let ghost iv = witness_ids(witnesses_view(v@));
            let ghost iw = witness_ids(witnesses_view(w@));
            if v.len() != w.len() {
                assert(iv.len() != iw.len());
                return false;
            }
            let mut i: usize = 0;
            while i < v.len()
                invariant
                    i <= v.len(),
                    v.len() == w.len(),
                    a.view() == FunKindS::Data(Some(witnesses_view(v@))),
                    b.view() == FunKindS::Data(Some(witnesses_view(w@))),
                    iv == witness_ids(witnesses_view(v@)),
                    iw == witness_ids(witnesses_view(w@)),
                    forall|j: int| 0 <= j < i ==> iv[j] == iw[j],
                decreases v.len() - i,
            {
                if v[i].id != w[i].id {
                    assert(iv[i as int] != iw[i as int]);
                    return false;
                }
                i = i + 1;
            }
            assert(iv =~= iw);
            true
        },
        _ => a.pin_of_itself() == b.pin_of_itself(),
    }
}

/// Whether reading the binders of `v` settles them: as many as its arity are
/// settled, what was settled stays, and the new ones are minted in order.
pub open spec fn settles(
    before: Seq<BoundsS>,
    next: u32,
    v: FunKindVarId,
    after: Seq<BoundsS>,
    next_after: u32,
    ids: Seq<WitnessId>,
) -> bool {
    match arity_s(kind_pin(before, FunKindS::Var(v), before.len())) {
        None => ids.len() == 0 && after == before && next_after == next,
        Some(n) => {
            let old_settled = before[v.0 as int].settled;
            let settled = settled_to(old_settled, n as nat, next);
            &&& after == before.update(v.0 as int, BoundsS { settled, ..before[v.0 as int] })
            &&& next_after == minted_after(next, (settled.len() - old_settled.len()) as nat)
            &&& ids == Seq::new(n as nat, |i: int| WitnessId(settled[i]))
        },
    }
}

/// The counter after minting `k` binders; identities start over after the last.
pub open spec fn minted_after(next: u32, k: nat) -> u32
    decreases k,
{
    if k == 0 {
        next
    } else {
        deeper(minted_after(next, (k - 1) as nat))
    }
}

/// `settled` with minted binders added up to length `n`.
pub open spec fn settled_to(settled: Seq<WitnessBinderId>, n: nat, next: u32) -> Seq<WitnessBinderId>
    decreases n,
{
    if settled.len() >= n || n == 0 {
        settled
    } else {
        let rest = settled_to(settled, (n - 1) as nat, next);
        rest.push(WitnessBinderId(minted_after(next, (rest.len() - settled.len()) as nat)))
    }
}

fn clone_kinds(v: &Vec<FunKind>) -> (r: Vec<FunKind>)
    ensures
        kinds_view(r@) == kinds_view(v@),
{
    let mut out: Vec<FunKind> = Vec::new();
    let mut i: usize = 0;
    while i < v.len()
        invariant
            i <= v.len(),
            out.len() == i,
            forall|j: int| 0 <= j < i ==> (#[trigger] out@[j]).view() == v@[j].view(),
        decreases v.len() - i,
    {
        out.push(v[i].clone());
        i = i + 1;
    }
    assert(kinds_view(out@) =~= kinds_view(v@));
    out
}

fn listed(side: &Vec<FunKind>, k: &FunKind) -> (r: bool)
    ensures
        r == bound_listed(kinds_view(side@), k.view()),
{
    let mut i: usize = 0;
    while i < side.len()
        invariant
            i <= side.len(),
            forall|j: int|
                0 <= j < i ==> !same_bound(#[trigger] kinds_view(side@)[j], k.view()),
        decreases side.len() - i,
    {
        assert(kinds_view(side@)[i as int] == side@[i as int].view());
        if same_fun_kind(&side[i], k) {
            return true;
        }
        i = i + 1;
    }
    false
}

impl KindVars {
    /// Mints a witness binder.
    pub fn fresh_witness_binder_id(&mut self) -> (r: WitnessBinderId)
        ensures
            r == WitnessBinderId(old(self).next_witness),
            final(self).next_witness == deeper(old(self).next_witness),
            final(self).view() == old(self).view(),
    {
        let id: u32 = self.next_witness;
        self.next_witness = if id == u32::MAX { 0 } else { id + 1 };
        WitnessBinderId(id)
    }
}

impl FunKindVar {
    /// A new variable with nothing recorded of it.
    pub fn fresh(vars: &mut KindVars) -> (r: FunKindVar)
        requires
            old(vars).view().len() < u32::MAX,
        ensures
            r.uid == FunKindVarId(old(vars).view().len() as u32),
            final(vars).view() == old(vars).view().push(empty_bounds()),
            final(vars).next_witness == old(vars).next_witness,
    {
        let ghost before = vars.view();
        let uid = FunKindVarId(vars.bounds.len() as u32);
        let b = FunKindBounds {
            stamped: KindPin::Unpinned,
            lower: Vec::new(),
            built_over: Vec::new(),
            upper: Vec::new(),
            instantiated_from: None,
            settled: Vec::new(),
        };
        proof {
            assert(b.view().lower =~= Seq::empty());
            assert(b.view().upper =~= Seq::empty());
            assert(b.view().built_over =~= Seq::empty());
            assert(b.view().settled =~= Seq::empty());
        }
        vars.bounds.push(b);
        assert(vars.view() =~= before.push(empty_bounds()));
        FunKindVar { uid }
    }

    /// Records `k` as a lower or an upper bound. A variable is no bound of
    /// itself, and a bound is recorded once.
    pub fn record(&self, vars: &mut KindVars, k: FunKind, lower: bool)
        requires
            self.uid.0 < old(vars).view().len(),
        ensures
            final(vars).next_witness == old(vars).next_witness,
            final(vars).view() == ({
                let b = old(vars).view()[self.uid.0 as int];
                if k.view() == FunKindS::Var(self.uid) {
                    old(vars).view()
                } else if lower {
                    old(vars).view().update(
                        self.uid.0 as int,
                        BoundsS { lower: bound_added(b.lower, k.view()), ..b },
                    )
                } else {
                    old(vars).view().update(
                        self.uid.0 as int,
                        BoundsS { upper: bound_added(b.upper, k.view()), ..b },
                    )
                }
            }),
    {
        let ghost before = vars.view();
        let ix: usize = self.uid.0 as usize;
        match &k {
            FunKind::Var(v) => {
                if *v == self.uid {
                    return;
                }
            },
            _ => {},
        }
        let mut b = vars.bounds.remove(ix);
        let ghost bv = b.view();
        let ghost kv = k.view();
        assert(bv == before[ix as int]);
        if lower {
            if !listed(&b.lower, &k) {
                b.lower.push(k);
                assert(b.view().lower =~= bv.lower.push(kv));
            }
            assert(b.view() == BoundsS { lower: bound_added(bv.lower, kv), ..bv });
        } else {
            if !listed(&b.upper, &k) {
                b.upper.push(k);
                assert(b.view().upper =~= bv.upper.push(kv));
            }
            assert(b.view() == BoundsS { upper: bound_added(bv.upper, kv), ..bv });
        }
        let ghost nv = b.view();
        vars.bounds.insert(ix, b);
        assert(vars.view() =~= before.update(ix as int, nv));
    }

    /// What is known of the variable.
    pub fn resolved(&self, vars: &KindVars) -> (r: KindPin)
        ensures
            r == kind_pin(vars.view(), FunKindS::Var(self.uid), vars.view().len()),
    {
        FunKind::Var(self.uid).resolved(vars)
    }

    /// How many witnesses the variable's function binds, where that is known.
    pub fn arity(&self, vars: &KindVars) -> (r: Option<usize>)
        ensures
            r == arity_s(kind_pin(vars.view(), FunKindS::Var(self.uid), vars.view().len())),
    {
        self.resolved(vars).arity()
    }

    /// Records `src` as the first of what the variable was built over.
    pub fn contributes_first(&self, vars: &mut KindVars, src: FunKind)
        requires
            self.uid.0 < old(vars).view().len(),
        ensures
            final(vars).next_witness == old(vars).next_witness,
            final(vars).view() == ({
                let b = old(vars).view()[self.uid.0 as int];
                old(vars).view().update(
                    self.uid.0 as int,
                    BoundsS { built_over: seq![src.view()] + b.built_over, ..b },
                )
            }),
    {
        let ghost before = vars.view();
        let ix: usize = self.uid.0 as usize;
        let mut b = vars.bounds.remove(ix);
        let ghost bv = b.view();
        b.built_over.insert(0, src);
        assert(b.view().built_over =~= seq![src.view()] + bv.built_over);
        let ghost nv = b.view();
        vars.bounds.insert(ix, b);
        assert(vars.view() =~= before.update(ix as int, nv));
    }

    /// Stamps the variable as data.
    pub fn stamp_data(&self, vars: &mut KindVars)
        requires
            self.uid.0 < old(vars).view().len(),
        ensures
            final(vars).next_witness == old(vars).next_witness,
            final(vars).view() == old(vars).view().update(
                self.uid.0 as int,
                BoundsS { stamped: KindPin::Data, ..old(vars).view()[self.uid.0 as int] },
            ),
    {
        let ghost before = vars.view();
        let ix: usize = self.uid.0 as usize;
        let mut b = vars.bounds.remove(ix);
        b.stamped = KindPin::Data;
        let ghost nv = b.view();
        vars.bounds.insert(ix, b);
        assert(vars.view() =~= before.update(ix as int, nv));
    }

    /// Records that the variable was instantiated from `original`.
    pub fn copied_from(&self, vars: &mut KindVars, original: &FunKindVar)
        requires
            self.uid.0 < old(vars).view().len(),
        ensures
            final(vars).next_witness == old(vars).next_witness,
            final(vars).view() == old(vars).view().update(
                self.uid.0 as int,
                BoundsS {
                    instantiated_from: Some(original.uid),
                    ..old(vars).view()[self.uid.0 as int]
                },
            ),
    {
        let ghost before = vars.view();
        let ix: usize = self.uid.0 as usize;
        let mut b = vars.bounds.remove(ix);
        b.instantiated_from = Some(original.uid);
        let ghost nv = b.view();
        vars.bounds.insert(ix, b);
        assert(vars.view() =~= before.update(ix as int, nv));
    }

    /// What the variable was built over.
    pub fn built_over(&self, vars: &KindVars) -> (r: Vec<FunKind>)
        requires
            self.uid.0 < vars.view().len(),
        ensures
            kinds_view(r@) == vars.view()[self.uid.0 as int].built_over,
    {
        clone_kinds(&vars.bounds[self.uid.0 as usize].built_over)
    }

    /// The lower bounds.
    pub fn lower(&self, vars: &KindVars) -> (r: Vec<FunKind>)
        requires
            self.uid.0 < vars.view().len(),
        ensures
            kinds_view(r@) == vars.view()[self.uid.0 as int].lower,
    {
        clone_kinds(&vars.bounds[self.uid.0 as usize].lower)
    }

    /// The upper bounds.
    pub fn upper(&self, vars: &KindVars) -> (r: Vec<FunKind>)
        requires
            self.uid.0 < vars.view().len(),
        ensures
            kinds_view(r@) == vars.view()[self.uid.0 as int].upper,
    {
        clone_kinds(&vars.bounds[self.uid.0 as usize].upper)
    }

    /// The variable this one was instantiated from.
    pub fn instantiated_from(&self, vars: &KindVars) -> (r: Option<FunKindVar>)
        requires
            self.uid.0 < vars.view().len(),
        ensures
            r == (match vars.view()[self.uid.0 as int].instantiated_from {
                Some(uid) => Some(FunKindVar { uid }),
                None => None,
            }),
    {
        match vars.bounds[self.uid.0 as usize].instantiated_from {
            Some(uid) => Some(FunKindVar { uid }),
            None => None,
        }
    }

    /// What is stamped on the variable.
    pub fn stamped(&self, vars: &KindVars) -> (r: KindPin)
        requires
            self.uid.0 < vars.view().len(),
        ensures
            r == vars.view()[self.uid.0 as int].stamped,
    {
        vars.bounds[self.uid.0 as usize].stamped
    }

    /// The identities of the witnesses the variable's function binds: as many
    /// as its arity, minted once and kept.
    pub fn binder_ids(&self, vars: &mut KindVars) -> (r: Vec<WitnessId>)
        requires
            self.uid.0 < old(vars).view().len(),
        ensures
            settles(
                old(vars).view(),
                old(vars).next_witness,
                self.uid,
                final(vars).view(),
                final(vars).next_witness,
                r@,
            ),
    {
        let ghost before = vars.view();
        let ghost next = vars.next_witness;
        let n: usize = match self.arity(vars) {
            Some(n) => n,
            None => {
                return Vec::new();
            },
        };
        let ix: usize = self.uid.0 as usize;
        let mut b = vars.bounds.remove(ix);
        let ghost bv = b.view();
        let ghost start = b.settled@;
        let ghost start_len = start.len();
        let mut counter: u32 = vars.next_witness;
        assert(bv == before[ix as int]);
        proof {
            lemma_settled_base(start, next);
        }
        while b.settled.len() < n
            invariant
                b.settled@.len() >= start_len,
                start_len == start.len(),
                b.settled@ == settled_to(start, b.settled@.len(), next),
                b.settled@.len() <= n || b.settled@.len() == start_len,
                counter == minted_after(next, (b.settled@.len() - start_len) as nat),
                b.view() == (BoundsS { settled: b.settled@, ..bv }),
            decreases n - b.settled.len(),
        {
            b.settled.push(WitnessBinderId(counter));
            counter = if counter == u32::MAX { 0 } else { counter + 1 };
        }
        proof {
            if start_len >= n {
                assert(b.settled@ == start);
                assert(settled_to(start, n as nat, next) == start);
            }
            assert(b.settled@ == settled_to(start, n as nat, next));
        }
        let mut ids: Vec<WitnessId> = Vec::new();
        let mut i: usize = 0;
        while i < n
            invariant
                i <= n,
                n <= b.settled@.len(),
                ids.len() == i,
                forall|j: int| 0 <= j < i ==> #[trigger] ids@[j] == WitnessId(b.settled@[j]),
            decreases n - i,
        {
            ids.push(WitnessId(b.settled[i]));
            i = i + 1;
        }
        let ghost nv = b.view();
        vars.bounds.insert(ix, b);
        vars.next_witness = counter;
        proof {
            let settled = settled_to(start, n as nat, next);
            assert(vars.view() =~= before.update(ix as int, nv));
            assert(ids@ =~= Seq::new(n as nat, |i: int| WitnessId(settled[i])));
        }
        ids
    }
}

proof fn lemma_settled_base(start: Seq<WitnessBinderId>, next: u32)
    ensures
        settled_to(start, start.len(), next) == start,
{
}

/// Forgets every kind variable, so that identities start over.
pub fn reset_fun_kind_var_counter(vars: &mut KindVars)
    ensures
        final(vars).view() == Seq::<BoundsS>::empty(),
        final(vars).next_witness == old(vars).next_witness,
{
    vars.bounds = Vec::new();
    assert(vars.view() =~= Seq::<BoundsS>::empty());
}

} // verus!
