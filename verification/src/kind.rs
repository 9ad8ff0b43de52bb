//! Kind variables: what is known of the functions whose kind is still open.
//!
//! A variable is pinned by what is stamped on it, by the width of what it was
//! built over, and by every variable it is bounded by, however far.
use vstd::prelude::*;
use crate::ast::{FunKind, FunKindS, FunKindVarId, WitnessBinderId};
use crate::kind_pin::{
    KindPin, arity_s, join_s, law_join_is_the_least_upper_bound, law_pins_are_ordered, pin_le,
};

verus! {

/// What is recorded of a kind variable.
#[derive(Debug)]
pub struct FunKindBounds {
    pub stamped: KindPin,
    pub lower: Vec<FunKind>,
    pub built_over: Vec<FunKind>,
    pub upper: Vec<FunKind>,
    pub instantiated_from: Option<FunKindVarId>,
    pub settled: Vec<WitnessBinderId>,
}

pub struct BoundsS {
    pub stamped: KindPin,
    pub lower: Seq<FunKindS>,
    pub built_over: Seq<FunKindS>,
    pub upper: Seq<FunKindS>,
    pub instantiated_from: Option<FunKindVarId>,
    pub settled: Seq<WitnessBinderId>,
}

/// Every kind variable, by its identity, and the next witness binder to mint.
#[derive(Debug)]
pub struct KindVars {
    pub bounds: Vec<FunKindBounds>,
    pub next_witness: u32,
}

/// A kind variable.
#[derive(Clone, Copy, PartialEq, Eq, Hash, Debug, Structural)]
pub struct FunKindVar {
    pub uid: FunKindVarId,
}

pub open spec fn kinds_view(v: Seq<FunKind>) -> Seq<FunKindS> {
    Seq::new(v.len(), |i: int| v[i].view())
}

impl FunKindBounds {
    pub open spec fn view(&self) -> BoundsS {
        BoundsS {
            stamped: self.stamped,
            lower: kinds_view(self.lower@),
            built_over: kinds_view(self.built_over@),
            upper: kinds_view(self.upper@),
            instantiated_from: self.instantiated_from,
            settled: self.settled@,
        }
    }
}

pub open spec fn empty_bounds() -> BoundsS {
    BoundsS {
        stamped: KindPin::Unpinned,
        lower: Seq::empty(),
        built_over: Seq::empty(),
        upper: Seq::empty(),
        instantiated_from: None,
        settled: Seq::empty(),
    }
}

impl KindVars {
    pub open spec fn view(&self) -> Seq<BoundsS> {
        Seq::new(self.bounds@.len(), |i: int| self.bounds@[i].view())
    }
}

/// What is recorded of `v`.
pub open spec fn bounds_of(vars: Seq<BoundsS>, v: FunKindVarId) -> BoundsS {
    if v.0 < vars.len() {
        vars[v.0 as int]
    } else {
        empty_bounds()
    }
}

/// What a kind says of itself, where it is not a variable.
pub open spec fn own_pin(k: FunKindS) -> KindPin {
    match k {
        FunKindS::Compute => KindPin::Compute,
        FunKindS::Data(None) => KindPin::Plain,
        FunKindS::Data(Some(ws)) => KindPin::Sum(ws.len() as usize),
        FunKindS::Var(_) => KindPin::Unpinned,
    }
}

/// Whether `w` is one of the bounds of `v`.
pub open spec fn bounded_by(vars: Seq<BoundsS>, v: FunKindVarId, w: FunKindVarId) -> bool {
    bounds_of(vars, v).lower.contains(FunKindS::Var(w)) || bounds_of(vars, v).upper.contains(
        FunKindS::Var(w),
    )
}

/// Whether each of `path` bounds the one before it.
pub open spec fn is_path(vars: Seq<BoundsS>, path: Seq<FunKindVarId>) -> bool {
    path.len() > 0 && forall|i: int|
        0 <= i < path.len() - 1 ==> bounded_by(vars, #[trigger] path[i], path[i + 1])
}

/// Whether bounds lead from `v` to `w`.
pub open spec fn reaches(vars: Seq<BoundsS>, v: FunKindVarId, w: FunKindVarId) -> bool {
    exists|path: Seq<FunKindVarId>| #[trigger]
        is_path(vars, path) && path[0] == v && path[path.len() - 1] == w
}

/// The pin of a kind, its variables looked up to `depth` constructions deep.
pub open spec fn kind_pin(vars: Seq<BoundsS>, k: FunKindS, depth: nat) -> KindPin
    decreases depth, 2int, 0nat,
{
    match k {
        FunKindS::Var(v) => var_pin(vars, v, depth),
        _ => own_pin(k),
    }
}

/// The total width of what was built over, where every part's width is known
/// and the total is a length.
pub open spec fn total_width(vars: Seq<BoundsS>, sources: Seq<FunKindS>, depth: nat) -> Option<nat>
    decreases depth, 3int, sources.len(),
{
    if sources.len() == 0 {
        Some(0)
    } else {
        match (
            total_width(vars, sources.drop_last(), depth),
            arity_s(kind_pin(vars, sources.last(), depth)),
        ) {
            (Some(w), Some(n)) => if w + n <= usize::MAX {
                Some((w + n) as nat)
            } else {
                None
            },
            _ => None,
        }
    }
}

/// What `v` was built over says of it.
pub open spec fn built_pin(vars: Seq<BoundsS>, v: FunKindVarId, depth: nat) -> KindPin
    decreases depth, 0int, 0nat,
{
    let sources = bounds_of(vars, v).built_over;
    if depth == 0 || sources.len() == 0 {
        KindPin::Unpinned
    } else {
        match total_width(vars, sources, (depth - 1) as nat) {
            Some(w) => if w == 0 { KindPin::Plain } else { KindPin::Sum(w as usize) },
            None => KindPin::Unpinned,
        }
    }
}

/// Whether `s` says all that is recorded of `v` itself.
pub open spec fn covers(s: KindPin, vars: Seq<BoundsS>, v: FunKindVarId, depth: nat) -> bool
    decreases depth, 1int, 0nat,
{
    let b = bounds_of(vars, v);
    &&& pin_le(b.stamped, s)
    &&& pin_le(built_pin(vars, v, depth), s)
    &&& forall|i: int| 0 <= i < b.lower.len() ==> pin_le(own_pin(#[trigger] b.lower[i]), s)
    &&& forall|i: int| 0 <= i < b.upper.len() ==> pin_le(own_pin(#[trigger] b.upper[i]), s)
}

/// Whether `s` says all that is recorded of the variables `v` reaches.
pub open spec fn covers_all(s: KindPin, vars: Seq<BoundsS>, v: FunKindVarId, depth: nat) -> bool
    decreases depth, 1int, 1nat,
{
    forall|w: FunKindVarId| #[trigger] reaches(vars, v, w) ==> covers(s, vars, w, depth)
}

/// Whether `r` is the least pin that says all that is recorded of the variables
/// `v` reaches.
pub open spec fn is_least_pin(r: KindPin, vars: Seq<BoundsS>, v: FunKindVarId, depth: nat) -> bool
    decreases depth, 1int, 2nat,
{
    &&& covers_all(r, vars, v, depth)
    &&& forall|s: KindPin| covers_all(s, vars, v, depth) ==> #[trigger] pin_le(r, s)
}

/// The pin of a variable: the least one that says all that is recorded of the
/// variables it reaches.
pub open spec fn var_pin(vars: Seq<BoundsS>, v: FunKindVarId, depth: nat) -> KindPin
    decreases depth, 1int, 3nat,
{
    choose|r: KindPin| #[trigger] pin_le(r, r) && is_least_pin(r, vars, v, depth)
}

/// There is at most one least pin.
pub proof fn lemma_least_pin_unique(
    p: KindPin,
    q: KindPin,
    vars: Seq<BoundsS>,
    v: FunKindVarId,
    depth: nat,
)
    requires
        is_least_pin(p, vars, v, depth),
        is_least_pin(q, vars, v, depth),
    ensures
        p == q,
{
    assert(pin_le(p, q));
    assert(pin_le(q, p));
}

proof fn lemma_reaches_self(vars: Seq<BoundsS>, v: FunKindVarId)
    ensures
        reaches(vars, v, v),
{
    let path = seq![v];
    assert(is_path(vars, path));
}

proof fn lemma_reaches_step(vars: Seq<BoundsS>, v: FunKindVarId, u: FunKindVarId, w: FunKindVarId)
    requires
        reaches(vars, v, u),
        bounded_by(vars, u, w),
    ensures
        reaches(vars, v, w),
{
    let path = choose|path: Seq<FunKindVarId>| #[trigger]
        is_path(vars, path) && path[0] == v && path[path.len() - 1] == u;
    let longer = path.push(w);
    assert forall|i: int| 0 <= i < longer.len() - 1 implies bounded_by(
        vars,
        #[trigger] longer[i],
        longer[i + 1],
    ) by {
        if i < path.len() - 1 {
            assert(bounded_by(vars, path[i], path[i + 1]));
        }
    }
    assert(is_path(vars, longer));
}

/// A set that holds `v` and every bound of what it holds, holds all that `v`
/// reaches.
proof fn lemma_closed_holds(
    vars: Seq<BoundsS>,
    v: FunKindVarId,
    w: FunKindVarId,
    held: Seq<FunKindVarId>,
)
    requires
        held.contains(v),
        forall|x: FunKindVarId, y: FunKindVarId|
            held.contains(x) && #[trigger] bounded_by(vars, x, y) ==> held.contains(y),
        reaches(vars, v, w),
    ensures
        held.contains(w),
{
    let path = choose|path: Seq<FunKindVarId>| #[trigger]
        is_path(vars, path) && path[0] == v && path[path.len() - 1] == w;
    lemma_path_held(vars, path, held, path.len() - 1);
}

proof fn lemma_path_held(
    vars: Seq<BoundsS>,
    path: Seq<FunKindVarId>,
    held: Seq<FunKindVarId>,
    i: int,
)
    requires
        is_path(vars, path),
        0 <= i < path.len(),
        held.contains(path[0]),
        forall|x: FunKindVarId, y: FunKindVarId|
            held.contains(x) && #[trigger] bounded_by(vars, x, y) ==> held.contains(y),
    ensures
        held.contains(path[i]),
    decreases i,
{
    if i > 0 {
        lemma_path_held(vars, path, held, i - 1);
        assert(bounded_by(vars, path[i - 1], path[i - 1 + 1]));
    }
}

/// There are no more different variables than identities.
proof fn lemma_variables_bounded(held: Seq<FunKindVarId>)
    requires
        held.no_duplicates(),
    ensures
        held.len() <= 0x1_0000_0000,
{
    let ids = Seq::new(held.len(), |i: int| held[i].0 as int);
    assert(ids.no_duplicates()) by {
        assert forall|i: int, j: int| 0 <= i < j < ids.len() implies ids[i] != ids[j] by {
            assert(held[i] != held[j]);
        }
    }
    ids.unique_seq_to_set();
    let all = vstd::set_lib::set_int_range(0, 0x1_0000_0000);
    vstd::set_lib::lemma_int_range(0, 0x1_0000_0000);
    assert(ids.to_set().subset_of(all)) by {
        assert forall|x: int| ids.to_set().contains(x) implies all.contains(x) by {
            let i = choose|i: int| 0 <= i < ids.len() && ids[i] == x;
            assert(0 <= held[i].0 < 0x1_0000_0000);
        }
    }
    vstd::set_lib::lemma_len_subset(ids.to_set(), all);
}

impl FunKind {
    /// What the kind says of itself, where it is not a variable.
    pub(crate) fn pin_of_itself(&self) -> (r: KindPin)
        ensures
            r == own_pin(self.view()),
    {
        match self {
            FunKind::Compute => KindPin::Compute,
            FunKind::Data(None) => KindPin::Plain,
            FunKind::Data(Some(ws)) => KindPin::Sum(ws.len()),
            FunKind::Var(_) => KindPin::Unpinned,
        }
    }
}

/// Whether `v` is among `held`.
fn holds(held: &Vec<FunKindVarId>, v: FunKindVarId) -> (r: bool)
    ensures
        r == held@.contains(v),
{
    let mut i: usize = 0;
    while i < held.len()
        invariant
            i <= held.len(),
            forall|j: int| 0 <= j < i ==> held@[j] != v,
        decreases held.len() - i,
    {
        if held[i] == v {
            assert(held@[i as int] == v);
            return true;
        }
        i = i + 1;
    }
    false
}

/// Whether `after` is `before` with some variables of `ks` added, all of them
/// being there now.
spec fn absorbed(before: Seq<FunKindVarId>, after: Seq<FunKindVarId>, ks: Seq<FunKindS>) -> bool {
    &&& before.len() <= after.len()
    &&& forall|i: int| 0 <= i < before.len() ==> #[trigger] after[i] == before[i]
    &&& after.no_duplicates()
    &&& forall|i: int|
        before.len() <= i < after.len() ==> ks.contains(FunKindS::Var(#[trigger] after[i]))
    &&& forall|i: int|
        0 <= i < ks.len() ==> (#[trigger] ks[i] matches FunKindS::Var(w) ==> after.contains(w))
}

/// Joins what each of `ks` says of itself, and adds its variables to `held`.
fn absorb(ks: &Vec<FunKind>, acc: KindPin, held: Vec<FunKindVarId>) -> (r: (
    KindPin,
    Vec<FunKindVarId>,
))
    requires
        held@.no_duplicates(),
    ensures
        absorbed(held@, r.1@, kinds_view(ks@)),
        pin_le(acc, r.0),
        forall|i: int|
            0 <= i < ks@.len() ==> pin_le(own_pin(#[trigger] kinds_view(ks@)[i]), r.0),
        forall|s: KindPin|
            pin_le(acc, s) && (forall|i: int|
                0 <= i < ks@.len() ==> pin_le(own_pin(#[trigger] kinds_view(ks@)[i]), s))
                ==> #[trigger] pin_le(r.0, s),
{
    let ghost kv = kinds_view(ks@);
    let ghost start = held@;
    let mut held = held;
    let mut pin = acc;
    let mut i: usize = 0;
    while i < ks.len()
        invariant
            i <= ks.len(),
            kv == kinds_view(ks@),
            start.len() <= held@.len(),
            forall|j: int| 0 <= j < start.len() ==> #[trigger] held@[j] == start[j],
            held@.no_duplicates(),
            forall|j: int|
                start.len() <= j < held@.len() ==> kv.contains(FunKindS::Var(#[trigger] held@[j])),
            forall|j: int|
                0 <= j < i ==> (#[trigger] kv[j] matches FunKindS::Var(w) ==> held@.contains(w)),
            pin_le(acc, pin),
            forall|j: int| 0 <= j < i ==> pin_le(own_pin(#[trigger] kv[j]), pin),
            forall|s: KindPin|
                pin_le(acc, s) && (forall|j: int|
                    0 <= j < kv.len() ==> pin_le(own_pin(#[trigger] kv[j]), s))
                    ==> #[trigger] pin_le(pin, s),
        decreases ks.len() - i,
    {
        let ghost before = held@;
        let ghost old_pin = pin;
        let mine = ks[i].pin_of_itself();
        pin = pin.join(mine);
        match &ks[i] {
            FunKind::Var(w) => {
                assert(kv[i as int] == FunKindS::Var(*w));
                if !holds(&held, *w) {
                    held.push(*w);
                    assert(held@[before.len() as int] == *w);
                }
            },
            _ => {},
        }
        proof {
            assert(kv[i as int] == ks@[i as int].view());
            assert forall|j: int| 0 <= j < i + 1 implies (
            #[trigger] kv[j] matches FunKindS::Var(w) ==> held@.contains(w)) by {
                if j < i {
                    if let FunKindS::Var(w) = kv[j] {
                        let p = choose|p: int| 0 <= p < before.len() && before[p] == w;
                        assert(held@[p] == w);
                    }
                }
            }
            assert forall|s: KindPin|
                pin_le(acc, s) && (forall|j: int|
                    0 <= j < kv.len() ==> pin_le(
                        own_pin(#[trigger] kv[j]),
                        s,
                    )) implies #[trigger] pin_le(pin, s) by {
                assert(pin_le(old_pin, s));
                assert(pin_le(own_pin(kv[i as int]), s));
                law_join_is_the_least_upper_bound(old_pin, mine, s);
            }
            assert forall|j: int| 0 <= j < i + 1 implies pin_le(own_pin(#[trigger] kv[j]), pin) by {
                law_join_is_the_least_upper_bound(old_pin, mine, pin);
                law_pins_are_ordered(own_pin(kv[j]), old_pin, pin);
            }
            law_join_is_the_least_upper_bound(old_pin, mine, pin);
            law_pins_are_ordered(acc, old_pin, pin);
        }
        i = i + 1;
    }
    (pin, held)
}

impl KindVars {
    pub fn new() -> (r: KindVars)
        ensures
            r.view() == Seq::<BoundsS>::empty(),
            r.next_witness == 0,
    {
        let out = KindVars { bounds: Vec::new(), next_witness: 0 };
        assert(out.view() =~= Seq::<BoundsS>::empty());
        out
    }

    /// What `v` was built over says of it.
    #[verifier::loop_isolation(false)]
    fn built_pin_at(&self, v: FunKindVarId, depth: usize) -> (r: KindPin)
        ensures
            r == built_pin(self.view(), v, depth as nat),
        decreases depth, 0int,
    {
        let ix: usize = v.0 as usize;
        if depth == 0 || ix >= self.bounds.len() || self.bounds[ix].built_over.len() == 0 {
            return KindPin::Unpinned;
        }
        let sources = &self.bounds[ix].built_over;
        let ghost sv = kinds_view(sources@);
        assert(sv == bounds_of(self.view(), v).built_over);
        let mut width: Option<usize> = Some(0);
        let mut i: usize = 0;
        assert(sv.take(0) =~= Seq::empty());
        while i < sources.len()
            invariant
                i <= sources.len(),
                (match width {
                    Some(w) => Some(w as nat),
                    None => None,
                }) == total_width(self.view(), sv.take(i as int), (depth - 1) as nat),
            decreases sources.len() - i,
        {
            assert(sv.take(i + 1).drop_last() =~= sv.take(i as int));
            assert(sv.take(i + 1).last() == sources@[i as int].view());
            let n = self.kind_pin_at(&sources[i], depth - 1).arity();
            width = match (width, n) {
                (Some(w), Some(n)) => w.checked_add(n),
                _ => None,
            };
            i = i + 1;
        }
        assert(sv.take(i as int) =~= sv);
        match width {
            Some(w) => if w == 0 { KindPin::Plain } else { KindPin::Sum(w) },
            None => KindPin::Unpinned,
        }
    }

    /// The pin of a kind.
    pub(crate) fn kind_pin_at(&self, k: &FunKind, depth: usize) -> (r: KindPin)
        ensures
            r == kind_pin(self.view(), k.view(), depth as nat),
        decreases depth, 2int,
    {
        match k {
            FunKind::Var(v) => self.var_pin_at(*v, depth),
            _ => k.pin_of_itself(),
        }
    }

    /// The pin of a variable.
    #[verifier::loop_isolation(false)]
    #[verifier::rlimit(40)]
    fn var_pin_at(&self, v: FunKindVarId, depth: usize) -> (r: KindPin)
        ensures
            r == var_pin(self.view(), v, depth as nat),
        decreases depth, 1int,
    {
        let ghost vars = self.view();
        let ghost d = depth as nat;
        let mut held: Vec<FunKindVarId> = Vec::new();
        held.push(v);
        let mut acc = KindPin::Unpinned;
        let mut i: usize = 0;
        proof {
            lemma_reaches_self(vars, v);
            assert(held@[0] == v);
        }
        while i < held.len()
            invariant
                i <= held.len(),
                held@.no_duplicates(),
                held@.len() > 0,
                held@[0] == v,
                forall|j: int| 0 <= j < held@.len() ==> reaches(vars, v, #[trigger] held@[j]),
                forall|j: int, y: FunKindVarId|
                    0 <= j < i && #[trigger] bounded_by(vars, #[trigger] held@[j], y)
                        ==> held@.contains(y),
                forall|j: int| 0 <= j < i ==> covers(acc, vars, #[trigger] held@[j], d),
                forall|s: KindPin| covers_all(s, vars, v, d) ==> #[trigger] pin_le(acc, s),
            decreases 0x1_0000_0000 - i,
        {
            proof {
                lemma_variables_bounded(held@);
            }
            let u = held[i];
            let ghost before = held@;
            let ghost b = bounds_of(vars, u);
            let ghost old_acc = acc;
            let built = self.built_pin_at(u, depth);
            let ix: usize = u.0 as usize;
            if ix < self.bounds.len() {
                let stamped = self.bounds[ix].stamped;
                let mid = acc.join(stamped).join(built);
                proof {
                    assert(b == self.bounds@[ix as int].view());
                }
                let (p1, h1) = absorb(&self.bounds[ix].lower, mid, held);
                let ghost hv1 = h1@;
                let (p2, h2) = absorb(&self.bounds[ix].upper, p1, h1);
                proof {
                    let hv2 = h2@;
                    law_join_is_the_least_upper_bound(old_acc, stamped, join_s(old_acc, stamped));
                    law_join_is_the_least_upper_bound(join_s(old_acc, stamped), built, mid);
                    law_pins_are_ordered(stamped, join_s(old_acc, stamped), mid);
                    law_pins_are_ordered(old_acc, join_s(old_acc, stamped), mid);
                    law_pins_are_ordered(mid, p1, p2);
                    law_pins_are_ordered(old_acc, mid, p2);
                    law_pins_are_ordered(stamped, mid, p2);
                    law_pins_are_ordered(built, mid, p2);
                    assert forall|k: int| 0 <= k < b.lower.len() implies pin_le(
                        own_pin(#[trigger] b.lower[k]),
                        p2,
                    ) by {
                        law_pins_are_ordered(own_pin(b.lower[k]), p1, p2);
                    }
                    assert(covers(p2, vars, u, d));
                    assert forall|j: int| 0 <= j < i + 1 implies covers(
                        p2,
                        vars,
                        #[trigger] hv2[j],
                        d,
                    ) by {
                        assert(hv2[j] == before[j]);
                        if j < i {
                            let c = bounds_of(vars, before[j]);
                            assert(covers(old_acc, vars, before[j], d));
                            law_pins_are_ordered(c.stamped, old_acc, p2);
                            law_pins_are_ordered(built_pin(vars, before[j], d), old_acc, p2);
                            assert forall|k: int| 0 <= k < c.lower.len() implies pin_le(
                                own_pin(#[trigger] c.lower[k]),
                                p2,
                            ) by {
                                law_pins_are_ordered(own_pin(c.lower[k]), old_acc, p2);
                            }
                            assert forall|k: int| 0 <= k < c.upper.len() implies pin_le(
                                own_pin(#[trigger] c.upper[k]),
                                p2,
                            ) by {
                                law_pins_are_ordered(own_pin(c.upper[k]), old_acc, p2);
                            }
                        }
                    }
                    assert forall|s: KindPin| covers_all(
                        s,
                        vars,
                        v,
                        d,
                    ) implies #[trigger] pin_le(p2, s) by {
                        assert(reaches(vars, v, before[i as int]));
                        assert(covers(s, vars, u, d));
                        assert(pin_le(old_acc, s));
                        law_join_is_the_least_upper_bound(old_acc, stamped, s);
                        law_join_is_the_least_upper_bound(join_s(old_acc, stamped), built, s);
                        assert(pin_le(mid, s));
                        assert(pin_le(p1, s));
                    }
                    assert forall|j: int| 0 <= j < hv2.len() implies reaches(
                        vars,
                        v,
                        #[trigger] hv2[j],
                    ) by {
                        if j < before.len() {
                            assert(hv2[j] == hv1[j] && hv1[j] == before[j]);
                        } else {
                            if j < hv1.len() {
                                assert(hv2[j] == hv1[j]);
                                assert(b.lower.contains(FunKindS::Var(hv1[j])));
                            } else {
                                assert(b.upper.contains(FunKindS::Var(hv2[j])));
                            }
                            assert(bounded_by(vars, u, hv2[j]));
                            assert(reaches(vars, v, before[i as int]));
                            lemma_reaches_step(vars, v, u, hv2[j]);
                        }
                    }
                    assert forall|j: int, y: FunKindVarId|
                        0 <= j < i + 1 && #[trigger] bounded_by(
                            vars,
                            #[trigger] hv2[j],
                            y,
                        ) implies hv2.contains(y) by {
                        assert(hv2[j] == before[j]);
                        if j < i {
                            assert(before.contains(y));
                            let p = choose|p: int| 0 <= p < before.len() && before[p] == y;
                            assert(hv2[p] == y);
                        } else {
                            if b.lower.contains(FunKindS::Var(y)) {
                                let k = choose|k: int|
                                    0 <= k < b.lower.len() && b.lower[k] == FunKindS::Var(y);
                                assert(b.lower[k] == FunKindS::Var(y));
                                assert(hv1.contains(y));
                                let p = choose|p: int| 0 <= p < hv1.len() && hv1[p] == y;
                                assert(hv2[p] == y);
                            } else {
                                let k = choose|k: int|
                                    0 <= k < b.upper.len() && b.upper[k] == FunKindS::Var(y);
                                assert(b.upper[k] == FunKindS::Var(y));
                            }
                        }
                    }
                    assert(hv2[0] == hv1[0] && hv1[0] == before[0]);
                }
                acc = p2;
                held = h2;
            } else {
                proof {
                    assert(b == empty_bounds());
                    assert(built == KindPin::Unpinned);
                    assert(covers(acc, vars, u, d));
                }
            }
            i = i + 1;
        }
        proof {
            assert(held@.contains(v));
            assert forall|x: FunKindVarId, y: FunKindVarId|
                held@.contains(x) && #[trigger] bounded_by(vars, x, y) implies held@.contains(y) by {
                let j = choose|j: int| 0 <= j < held@.len() && held@[j] == x;
                assert(bounded_by(vars, held@[j], y));
            }
            assert forall|w: FunKindVarId| #[trigger] reaches(vars, v, w) implies covers(
                acc,
                vars,
                w,
                d,
            ) by {
                lemma_closed_holds(vars, v, w, held@);
                let j = choose|j: int| 0 <= j < held@.len() && held@[j] == w;
                assert(covers(acc, vars, held@[j], d));
            }
            assert(covers_all(acc, vars, v, d));
            assert(is_least_pin(acc, vars, v, d));
            assert(pin_le(acc, acc));
            let r = var_pin(vars, v, d);
            assert(is_least_pin(r, vars, v, d));
            lemma_least_pin_unique(acc, r, vars, v, d);
        }
        acc
    }
}

} // verus!
