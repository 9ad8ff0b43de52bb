//! Awaits of a mutable variable's final value, and the seeds of keys.
use vstd::prelude::*;
use crate::ast::{Builtin, BuiltinS, Expr, ExprS, HeadS, Lit, TypedExprNode};
use crate::name::{Name, NameS, has_name, names_view};
use crate::name_map::NameMap;
use crate::plan::hist_view;
use crate::probe::{Pick, PickS, Sign, SignS, gather, gathered, occurs, shows};
use crate::subst::{env_view, lemma_seen_all, lemma_seen_step, seen};
use crate::swap::{Swap, SwapS, swap_in, swapped};
use crate::tree::expr_refs_view;
use crate::txn_terms::{mut_var_value_ty, sampling_read, sampling_read_s, value_ty_of};
use crate::writer::all_keyed;

verus! {

/// The seeds of `keys` that `e` declares, the first declaration of each, added to
/// `acc`.
pub open spec fn seeds(e: ExprS, keys: Seq<NameS>, acc: Map<NameS, ExprS>) -> Map<NameS, ExprS>
    decreases e, e.kids.len() + 1,
{
    let own = match e.head {
        HeadS::MutDecl(n) => if keys.contains(n) && !acc.dom().contains(n) && e.kids.len() == 2 {
            acc.insert(n, e.kids[0])
        } else {
            acc
        },
        _ => acc,
    };
    seeds_upto(e, keys, own, e.kids.len())
}

pub open spec fn seeds_upto(
    e: ExprS,
    keys: Seq<NameS>,
    acc: Map<NameS, ExprS>,
    n: nat,
) -> Map<NameS, ExprS>
    decreases e, n,
{
    if n == 0 || n > e.kids.len() {
        acc
    } else {
        seeds(e.kids[n - 1], keys, seeds_upto(e, keys, acc, (n - 1) as nat))
    }
}

/// Adds the seeds of `keys` that `e` declares.
pub fn collect_key_inits(e: &Expr, keys: &Vec<Name>, acc: NameMap<Expr>) -> (r: NameMap<Expr>)
    ensures
        env_view(r.view()) == seeds(e.view(), names_view(keys@), env_view(acc.view())),
    decreases e.view(),
{
    let ghost ev = e.view();
    let ghost kv = names_view(keys@);
    let ghost start = env_view(acc.view());
    let mut out = acc;
    match &e.node {
        TypedExprNode::MutDecl { binding, init, body } => {
            assert(ev.kids[0] == init.view());
            assert(start.dom() =~= out.view().dom());
            if has_name(keys, &binding.name) && !out.contains_key(&binding.name) {
                let ghost before = out.view();
                let t = (**init).clone();
                out = out.inserted(binding.name.clone(), t);
                assert(env_view(out.view()) =~= env_view(before).insert(
                    binding.name@,
                    t.view(),
                ));
            }
        },
        _ => {},
    }
    let ghost own = env_view(out.view());
    let kids = e.children();
    assert(kids@.len() == ev.kids.len());
    let mut i: usize = 0;
    while i < kids.len()
        invariant
            i <= kids.len(),
            ev == e.view(),
            kv == names_view(keys@),
            kids@.len() == ev.kids.len(),
            expr_refs_view(kids@) == ev.kids,
            env_view(out.view()) == seeds_upto(ev, kv, own, i as nat),
        decreases kids.len() - i,
    {
        assert(kids@[i as int].view() == ev.kids[i as int]);
        out = collect_key_inits(kids[i], keys, out);
        i = i + 1;
    }
    out
}

/// The seeds of `keys` that `e` declares.
pub open spec fn seeds_of(e: ExprS, keys: Seq<NameS>) -> Map<NameS, ExprS> {
    seeds(e, keys, Map::empty())
}

/// The first `n` of `ns` without those in `others`.
pub open spec fn beyond(ns: Seq<NameS>, others: Seq<NameS>, n: nat) -> Seq<NameS>
    decreases n,
{
    if n == 0 {
        Seq::empty()
    } else if others.contains(ns[n - 1]) {
        beyond(ns, others, (n - 1) as nat)
    } else {
        beyond(ns, others, (n - 1) as nat).push(ns[n - 1])
    }
}

fn names_beyond(ns: &Vec<Name>, others: &Vec<Name>) -> (r: Vec<Name>)
    ensures
        names_view(r@) == beyond(names_view(ns@), names_view(others@), ns@.len()),
{
    let ghost nv = names_view(ns@);
    let ghost ov = names_view(others@);
    let mut out: Vec<Name> = Vec::new();
    let mut i: usize = 0;
    assert(names_view(out@) =~= Seq::empty());
    while i < ns.len()
        invariant
            i <= ns.len(),
            nv == names_view(ns@),
            ov == names_view(others@),
            names_view(out@) == beyond(nv, ov, i as nat),
        decreases ns.len() - i,
    {
        assert(nv[i as int] == ns@[i as int]@);
        let ghost before = out@;
        if !has_name(others, &ns[i]) {
            out.push(ns[i].clone());
            assert(names_view(out@) =~= names_view(before).push(nv[i as int]));
        }
        i = i + 1;
    }
    out
}

/// `e` with each await of a variable that nothing writes replaced by its seed.
pub open spec fn settled_awaits(e: ExprS, written: Seq<NameS>) -> ExprS {
    let awaited = gathered(PickS::Awaited, e);
    swapped(SwapS::Await, seeds_of(e, beyond(awaited, written, awaited.len())), e)
}

/// Replaces each await of a variable that nothing writes by its seed.
pub fn resolve_writer_free_awaits(e: &Expr, written_keys: &Vec<Name>) -> (r: Expr)
    ensures
        r.view() == settled_awaits(e.view(), names_view(written_keys@)),
{
    let awaited = gather(&Pick::Awaited, e);
    assert(names_view(awaited@).len() == awaited@.len());
    let free = names_beyond(&awaited, written_keys);
    let none: NameMap<Expr> = NameMap::new();
    assert(env_view(none.view()) =~= Map::<NameS, ExprS>::empty());
    let found = collect_key_inits(e, &free, none);
    swap_in(&Swap::Await, &found, e)
}

/// The reads of the final values of keys, over their histories.
pub open spec fn final_reads(
    hist: Map<NameS, NameS>,
    inits: Map<NameS, ExprS>,
) -> Map<NameS, ExprS> {
    Map::new(
        |k: NameS| hist.dom().contains(k),
        |k: NameS| sampling_read_s(hist[k], value_ty_of(inits[k].ty()), BuiltinS::FinalRead),
    )
}

/// The read of the final value of a key.
fn final_key(hist: &Name, init: &Expr) -> (r: Expr)
    ensures
        r.view() == sampling_read_s(
            hist@,
            value_ty_of(init.view().ty()),
            BuiltinS::FinalRead,
        ),
{
    assert(init.view().tys[0] == init.ty.view());
    sampling_read(hist, mut_var_value_ty(&init.ty), Builtin::FinalRead)
}

/// The reads of the final values of keys.
fn final_terms(hist: &NameMap<Name>, inits: &NameMap<Expr>) -> (r: NameMap<Expr>)
    requires
        forall|k: NameS| #[trigger]
            hist.view().dom().contains(k) ==> inits.view().dom().contains(k),
    ensures
        env_view(r.view()) == final_reads(hist_view(hist.view()), env_view(inits.view())),
{
    let n: usize = hist.len();
    let ghost keys = hist.keys_view();
    let ghost want = final_reads(hist_view(hist.view()), env_view(inits.view()));
    let mut out: NameMap<Expr> = NameMap::new();
    let mut i: usize = 0;
    while i < n
        invariant
            i <= n,
            n == keys.len(),
            keys == hist.keys_view(),
            want == final_reads(hist_view(hist.view()), env_view(inits.view())),
            forall|k: NameS| #[trigger]
                hist.view().dom().contains(k) ==> inits.view().dom().contains(k),
            forall|k: NameS| #[trigger] out.view().dom().contains(k) <==> seen(keys, i as int, k),
            forall|k: NameS| #[trigger] out.view().dom().contains(k) ==> out.view()[k].view()
                == want[k],
        decreases n - i,
    {
        proof {
            lemma_seen_step(keys, i as int);
        }
        let key = hist.key(i);
        let h = hist.value(i);
        match inits.get(key) {
            Some(init) => {
                let t = final_key(h, init);
                assert(env_view(inits.view())[key@] == init.view());
                assert(hist_view(hist.view())[key@] == h@);
                assert(hist_view(hist.view()).dom().contains(key@));
                assert(want[key@] == t.view());
                out = out.inserted(key.clone(), t);
            },
            None => {},
        }
        i = i + 1;
    }
    proof {
        lemma_seen_all(keys);
        assert forall|k: NameS| #[trigger] want.dom().contains(k) <==> out.view().dom().contains(
            k,
        ) by {
            assert(hist.view().dom().contains(k) <==> keys.contains(k));
        }
        assert(env_view(out.view()) =~= want);
    }
    out
}

/// Replaces each await of a key by the read of its final value.
pub fn resolve_await_finals(e: &Expr, hist: &NameMap<Name>, inits: &NameMap<Expr>) -> (r: Expr)
    requires
        forall|k: NameS| #[trigger]
            hist.view().dom().contains(k) ==> inits.view().dom().contains(k),
    ensures
        r.view() == swapped(
            SwapS::Await,
            final_reads(hist_view(hist.view()), env_view(inits.view())),
            e.view(),
        ),
{
    let terms = final_terms(hist, inits);
    swap_in(&Swap::Await, &terms, e)
}

/// The seeds with the awaits of the first `n` of them resolved, one after the
/// other.
pub open spec fn seeds_resolved(
    keys: Seq<NameS>,
    hist: Map<NameS, NameS>,
    inits: Map<NameS, ExprS>,
    n: nat,
) -> Map<NameS, ExprS>
    decreases n,
{
    if n == 0 {
        inits
    } else {
        let m = seeds_resolved(keys, hist, inits, (n - 1) as nat);
        let k = keys[n - 1];
        m.insert(k, swapped(SwapS::Await, final_reads(hist, m), m[k]))
    }
}

/// Resolves the awaits of the seeds, one after the other.
pub fn resolve_seeds(keys: &Vec<Name>, hist: &NameMap<Name>, inits: NameMap<Expr>) -> (r: NameMap<
    Expr,
>)
    requires
        all_keyed(names_view(keys@), env_view(inits.view())),
        forall|k: NameS| #[trigger]
            hist.view().dom().contains(k) ==> inits.view().dom().contains(k),
    ensures
        env_view(r.view()) == seeds_resolved(
            names_view(keys@),
            hist_view(hist.view()),
            env_view(inits.view()),
            keys@.len(),
        ),
        r.view().dom() == inits.view().dom(),
{
    let ghost kv = names_view(keys@);
    let ghost hv = hist_view(hist.view());
    let ghost start = env_view(inits.view());
    let ghost dom = inits.view().dom();
    let mut out = inits;
    let mut i: usize = 0;
    while i < keys.len()
        invariant
            i <= keys.len(),
            kv == names_view(keys@),
            hv == hist_view(hist.view()),
            out.view().dom() == dom,
            forall|j: int| 0 <= j < kv.len() ==> dom.contains(#[trigger] kv[j]),
            forall|k: NameS| #[trigger] hist.view().dom().contains(k) ==> dom.contains(k),
            env_view(out.view()) == seeds_resolved(kv, hv, start, i as nat),
        decreases keys.len() - i,
    {
        assert(kv[i as int] == keys@[i as int]@);
        assert(dom.contains(kv[i as int]));
        let ghost before = out.view();
        let t = match out.get(&keys[i]) {
            Some(init) => {
                assert(env_view(before)[kv[i as int]] == init.view());
                resolve_await_finals(init, hist, &out)
            },
            None => Expr::lit(Lit::Unit),
        };
        out = out.inserted(keys[i].clone(), t);
        assert(env_view(out.view()) =~= env_view(before).insert(kv[i as int], t.view()));
        assert(out.view().dom() =~= dom);
        i = i + 1;
    }
    out
}

/// Whether some seed of the keys still awaits.
pub open spec fn some_awaits(keys: Seq<NameS>, inits: Map<NameS, ExprS>) -> bool {
    exists|i: int|
        0 <= i < keys.len() && shows(SignS::AwaitFinal, inits[#[trigger] keys[i]])
}

pub fn any_seed_awaits(keys: &Vec<Name>, inits: &NameMap<Expr>) -> (r: bool)
    requires
        all_keyed(names_view(keys@), env_view(inits.view())),
    ensures
        r == some_awaits(names_view(keys@), env_view(inits.view())),
{
    let ghost kv = names_view(keys@);
    let ghost iv = env_view(inits.view());
    let mut i: usize = 0;
    while i < keys.len()
        invariant
            i <= keys.len(),
            kv == names_view(keys@),
            iv == env_view(inits.view()),
            all_keyed(kv, iv),
            forall|j: int| 0 <= j < i ==> !shows(SignS::AwaitFinal, iv[#[trigger] kv[j]]),
        decreases keys.len() - i,
    {
        assert(kv[i as int] == keys@[i as int]@);
        match inits.get(&keys[i]) {
            Some(init) => {
                assert(iv[kv[i as int]] == init.view());
                if occurs(&Sign::AwaitFinal, init) {
                    return true;
                }
            },
            None => {
                assert(iv.dom().contains(kv[i as int]));
            },
        }
        i = i + 1;
    }
    false
}

} // verus!
