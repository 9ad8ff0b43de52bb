//! What is recorded of kind variables, as text.

use vstd::prelude::*;
use crate::ast::{
    FunKind, FunKindS, FunKindVarId, InferVar, WitnessBinderId, WitnessS, witnesses_view,
};
use crate::kind::{BoundsS, FunKindVar, KindVars, kind_pin, kinds_view};
use crate::kind_pin::{KindPin, arity_s};
use crate::layout::{cat2, cat3, cat4, cat5, cat7, put2, put3, put4, put5, put7};
use crate::text::{join, joined, nat_text, owned, show_u64, texts};

verus! {

pub open spec fn pin_text(p: KindPin) -> Seq<char> {
    match p {
        KindPin::Unpinned => "Unpinned"@,
        KindPin::Compute => "Compute"@,
        KindPin::Data => "Data"@,
        KindPin::Plain => "Plain"@,
        KindPin::Sum(n) => cat3("Sum("@, nat_text(n as nat), ")"@),
        KindPin::Conflict => "Conflict"@,
    }
}

pub open spec fn arity_text(a: Option<usize>) -> Seq<char> {
    match a {
        Some(n) => cat3("Some("@, nat_text(n as nat), ")"@),
        None => "None"@,
    }
}

/// Witnesses by their identities.
pub open spec fn id_texts(ws: Seq<WitnessS>) -> Seq<Seq<char>> {
    Seq::new(ws.len(), |i: int| cat2("σ@"@, nat_text(ws[i].id.0.0 as nat)))
}

/// Minted binders by their identities.
pub open spec fn settled_texts(bs: Seq<WitnessBinderId>) -> Seq<Seq<char>> {
    Seq::new(bs.len(), |i: int| cat2("σ@"@, nat_text(bs[i].0 as nat)))
}

/// A recorded kind: a variable by its number, a sum by its witnesses.
pub open spec fn bound_text(kinds: Seq<BoundsS>, k: FunKindS) -> Seq<char> {
    match k {
        FunKindS::Var(v) => cat2("k"@, nat_text(v.0 as nat)),
        FunKindS::Data(Some(ws)) => cat3("Sum["@, joined(id_texts(ws), ","@), "]"@),
        _ => pin_text(kind_pin(kinds, k, kinds.len())),
    }
}

pub open spec fn bound_texts(kinds: Seq<BoundsS>, ks: Seq<FunKindS>) -> Seq<Seq<char>> {
    Seq::new(ks.len(), |i: int| bound_text(kinds, ks[i]))
}

pub open spec fn origin_text(from: Option<FunKindVarId>) -> Seq<char> {
    match from {
        Some(o) => cat2(" from=k"@, nat_text(o.0 as nat)),
        None => ""@,
    }
}

/// Everything recorded of the variable `v`, on one line.
pub open spec fn recorded_text(kinds: Seq<BoundsS>, v: FunKindVarId) -> Seq<char> {
    let b = kinds[v.0 as int];
    let front = cat7(
        "k"@,
        nat_text(v.0 as nat),
        " stamp="@,
        pin_text(b.stamped),
        " lower=["@,
        joined(bound_texts(kinds, b.lower), ","@),
        "] upper=["@,
    );
    let middle = cat5(
        joined(bound_texts(kinds, b.upper), ","@),
        "] over=["@,
        joined(bound_texts(kinds, b.built_over), ","@),
        "] arity="@,
        arity_text(arity_s(kind_pin(kinds, FunKindS::Var(v), kinds.len()))),
    );
    let back = cat4(
        " binds=["@,
        joined(settled_texts(b.settled), ","@),
        "]"@,
        origin_text(b.instantiated_from),
    );
    cat3(front, middle, back)
}

/// The inference variables among the first `n` of `arena` whose functions have
/// the kind `v`.
pub open spec fn owner_texts(arena: Seq<InferVar>, v: FunKindVarId, n: nat) -> Seq<Seq<char>>
    decreases n,
{
    if n == 0 {
        Seq::empty()
    } else {
        let rest = owner_texts(arena, v, (n - 1) as nat);
        if arena[n - 1].fun_kind == v {
            rest.push(cat2("?"@, nat_text(arena[n - 1].uid as nat)))
        } else {
            rest
        }
    }
}

/// A variable with the inference variables it belongs to.
pub open spec fn owned_text(kinds: Seq<BoundsS>, arena: Seq<InferVar>, v: FunKindVarId) -> Seq<char> {
    let owners = owner_texts(arena, v, arena.len());
    cat3(
        recorded_text(kinds, v),
        " owner="@,
        if owners.len() == 0 {
            "-"@
        } else {
            joined(owners, ","@)
        },
    )
}

/// Every variable, one to a line.
pub open spec fn all_texts(kinds: Seq<BoundsS>, arena: Seq<InferVar>) -> Seq<Seq<char>> {
    Seq::new(kinds.len(), |i: int| owned_text(kinds, arena, FunKindVarId(i as u32)))
}

impl KindPin {
    pub fn to_text(&self) -> (r: String)
        ensures
            r@ == pin_text(*self),
    {
        match self {
            KindPin::Unpinned => owned("Unpinned"),
            KindPin::Compute => owned("Compute"),
            KindPin::Data => owned("Data"),
            KindPin::Plain => owned("Plain"),
            KindPin::Sum(n) => put3("Sum(", show_u64(*n as u64).as_str(), ")"),
            KindPin::Conflict => owned("Conflict"),
        }
    }
}

fn show_arity(a: Option<usize>) -> (r: String)
    ensures
        r@ == arity_text(a),
{
    match a {
        Some(n) => put3("Some(", show_u64(n as u64).as_str(), ")"),
        None => owned("None"),
    }
}

fn show_bound(vars: &KindVars, k: &FunKind) -> (r: String)
    ensures
        r@ == bound_text(vars.view(), k.view()),
{
    match k {
        FunKind::Var(v) => put2("k", show_u64(v.0 as u64).as_str()),
        FunKind::Data(Some(ws)) => {
            let ghost want = id_texts(witnesses_view(ws@));
            let mut parts: Vec<String> = Vec::new();
            let mut i: usize = 0;
            while i < ws.len()
                invariant
                    i <= ws.len(),
                    want == id_texts(witnesses_view(ws@)),
                    parts.len() == i,
                    forall|j: int| 0 <= j < i ==> (#[trigger] parts@[j])@ == want[j],
                decreases ws.len() - i,
            {
                parts.push(put2("σ@", show_u64(ws[i].id.0.0 as u64).as_str()));
                i = i + 1;
            }
            assert(texts(parts@) =~= want);
            put3("Sum[", join(&parts, ",").as_str(), "]")
        },
        _ => k.resolved(vars).to_text(),
    }
}

fn show_bounds(vars: &KindVars, ks: &Vec<FunKind>) -> (r: String)
    ensures
        r@ == joined(bound_texts(vars.view(), kinds_view(ks@)), ","@),
{
    let ghost want = bound_texts(vars.view(), kinds_view(ks@));
    let mut parts: Vec<String> = Vec::new();
    let mut i: usize = 0;
    while i < ks.len()
        invariant
            i <= ks.len(),
            want == bound_texts(vars.view(), kinds_view(ks@)),
            parts.len() == i,
            forall|j: int| 0 <= j < i ==> (#[trigger] parts@[j])@ == want[j],
        decreases ks.len() - i,
    {
        parts.push(show_bound(vars, &ks[i]));
        i = i + 1;
    }
    assert(texts(parts@) =~= want);
    join(&parts, ",")
}

fn show_settled(bs: &Vec<WitnessBinderId>) -> (r: String)
    ensures
        r@ == joined(settled_texts(bs@), ","@),
{
    let ghost want = settled_texts(bs@);
    let mut parts: Vec<String> = Vec::new();
    let mut i: usize = 0;
    while i < bs.len()
        invariant
            i <= bs.len(),
            want == settled_texts(bs@),
            parts.len() == i,
            forall|j: int| 0 <= j < i ==> (#[trigger] parts@[j])@ == want[j],
        decreases bs.len() - i,
    {
        parts.push(put2("σ@", show_u64(bs[i].0 as u64).as_str()));
        i = i + 1;
    }
    assert(texts(parts@) =~= want);
    join(&parts, ",")
}

impl FunKindVar {
    /// Everything recorded of the variable, on one line.
    pub fn debug_dump(&self, vars: &KindVars) -> (r: String)
        requires
            self.uid.0 < vars.view().len(),
        ensures
            r@ == recorded_text(vars.view(), self.uid),
    {
        let b = &vars.bounds[self.uid.0 as usize];
        assert(b.view() == vars.view()[self.uid.0 as int]);
        let lower = show_bounds(vars, &b.lower);
        let upper = show_bounds(vars, &b.upper);
        let over = show_bounds(vars, &b.built_over);
        let names = show_settled(&b.settled);
        let from = match b.instantiated_from {
            Some(o) => put2(" from=k", show_u64(o.0 as u64).as_str()),
            None => owned(""),
        };
        let front = put7(
            "k",
            show_u64(self.uid.0 as u64).as_str(),
            " stamp=",
            b.stamped.to_text().as_str(),
            " lower=[",
            lower.as_str(),
            "] upper=[",
        );
        let middle = put5(
            upper.as_str(),
            "] over=[",
            over.as_str(),
            "] arity=",
            show_arity(self.arity(vars)).as_str(),
        );
        let back = put4(" binds=[", names.as_str(), "]", from.as_str());
        put3(front.as_str(), middle.as_str(), back.as_str())
    }
}

/// Every kind variable, oldest first.
pub fn fun_kind_vars(vars: &KindVars) -> (r: Vec<FunKindVar>)
    requires
        vars.view().len() <= u32::MAX,
    ensures
        r@.len() == vars.view().len(),
        forall|i: int| 0 <= i < r@.len() ==> (#[trigger] r@[i]).uid == FunKindVarId(i as u32),
{
    let mut out: Vec<FunKindVar> = Vec::new();
    let mut i: usize = 0;
    while i < vars.bounds.len()
        invariant
            i <= vars.bounds@.len(),
            vars.bounds@.len() <= u32::MAX,
            out.len() == i,
            forall|j: int| 0 <= j < i ==> (#[trigger] out@[j]).uid == FunKindVarId(j as u32),
        decreases vars.bounds.len() - i,
    {
        out.push(FunKindVar { uid: FunKindVarId(i as u32) });
        i = i + 1;
    }
    out
}

/// The inference variables of `arena` whose functions have the kind `v`.
fn kind_var_owners(arena: &Vec<InferVar>, v: FunKindVarId) -> (r: Vec<String>)
    ensures
        texts(r@) == owner_texts(arena@, v, arena@.len()),
{
    let mut out: Vec<String> = Vec::new();
    let mut i: usize = 0;
    assert(texts(out@) =~= owner_texts(arena@, v, 0));
    while i < arena.len()
        invariant
            i <= arena.len(),
            texts(out@) == owner_texts(arena@, v, i as nat),
        decreases arena.len() - i,
    {
        if arena[i].fun_kind == v {
            let ghost before = out@;
            let t = put2("?", show_u64(arena[i].uid as u64).as_str());
            out.push(t);
            assert(texts(out@) =~= texts(before).push(t@));
        }
        i = i + 1;
    }
    out
}

/// Every kind variable and everything recorded of it, one to a line, with the
/// inference variables of `arena` it belongs to.
pub fn dump_kind_vars(vars: &KindVars, arena: &Vec<InferVar>) -> (r: String)
    requires
        vars.view().len() <= u32::MAX,
    ensures
        r@ == joined(all_texts(vars.view(), arena@), "\n"@),
{
    let all = fun_kind_vars(vars);
    let ghost want = all_texts(vars.view(), arena@);
    let mut lines: Vec<String> = Vec::new();
    let mut i: usize = 0;
    while i < all.len()
        invariant
            i <= all.len(),
            all@.len() == vars.view().len(),
            vars.view().len() <= u32::MAX,
            want == all_texts(vars.view(), arena@),
            forall|j: int| 0 <= j < all@.len() ==> (#[trigger] all@[j]).uid == FunKindVarId(j as u32),
            lines.len() == i,
            forall|j: int| 0 <= j < i ==> (#[trigger] lines@[j])@ == want[j],
        decreases all.len() - i,
    {
        let v = &all[i];
        assert(all@[i as int].uid == FunKindVarId(i as u32));
        let owners = kind_var_owners(arena, v.uid);
        let line = v.debug_dump(vars);
        assert(texts(owners@).len() == owners@.len());
        let who = if owners.len() == 0 {
            owned("-")
        } else {
            join(&owners, ",")
        };
        lines.push(put3(line.as_str(), " owner=", who.as_str()));
        i = i + 1;
    }
    assert(texts(lines@) =~= want);
    join(&lines, "\n")
}

} // verus!
