//! The law that a writer decides as the block it is made of runs.

use vstd::prelude::*;
use crate::ast::{ExprS, FieldKeyS, HeadS, LitS, PatternS, TypeS};
use crate::block_laws::{
    Ran, Reply, fired, law_a_block_is_walked_as_it_runs, lemma_choice_meant, lemma_env_set,
    lemma_runs_by_free_names, run_block, sets_names,
};
use crate::cross_domain::AccS;
use crate::decision::{
    FIRE, FieldS, TapS, decision_s, disjoined, labels, payload_fields, truth, value_tys,
};
use crate::equality::expr_eq;
use crate::layout::cat2;
use crate::make::{
    apply_s, codomain_of, domain_of, fun_ty, proj_index_s, record_s, record_ty, tuple_s,
    tuple_ty, var_s,
};
use crate::meaning::{
    Meant, Model, Val, Valuation, first_arm, guards_only, is_held, kids_meant, label_place,
    meant, setting, taken, vals,
};
use crate::meaning_laws::{
    lemma_equal_terms_mean_the_same, lemma_meant_by_free_names, stands_for_names, under_env,
};
use crate::name::{NameS, NameSupply, lemma_name_lt_irreflexive};
use crate::name_map::{lemma_sorted_names, names_ascending};
use crate::partition::{SiteS, no_repeats};
use crate::probe::{SignS, shows};
use crate::scope::free_in_value;
use crate::subst_laws::leafy;
use crate::txn_terms::item_at;
use crate::walk::{WalkS, walked};
use crate::writer::{
    WriterS, acc_tys, accs_read, as_components, as_finals, key_tys, site_accs, standing,
    start_env, writer_s, zipped_source, zipped_ty,
};

verus! {

/// Component `i` of a tuple that a name means.
pub proof fn lemma_item_meant(m: Model, rho: Valuation, t: ExprS, vs: Seq<Val>, i: usize, ty: TypeS)
    requires
        meant(m, rho, t) == m.of(Val::Tuple(vs)),
        i < vs.len(),
    ensures
        meant(m, rho, item_at(t, i, ty)) == m.of(vs[i as int]),
{
    let e = item_at(t, i, ty);
    let f = proj_index_s(i, fun_ty(t.ty(), ty));
    assert(e.kids[0] == f && e.kids[1] == t);
    let d = meant(m, rho, f);
    let k = FieldKeyS::Index(i);
    assert(taken(k, Val::Tuple(vs)) == Some(vs[i as int]));
}

/// Names that stand for the components of a tuple mean its components.
proof fn lemma_components_meant(
    m: Model,
    rho: Valuation,
    env: Map<NameS, ExprS>,
    names: Seq<NameS>,
    tys: Seq<TypeS>,
    t: ExprS,
    vs: Seq<Val>,
    from: int,
    n: nat,
)
    requires
        meant(m, rho, t) == m.of(Val::Tuple(vs)),
        no_repeats(names),
        n <= names.len(),
        0 <= from,
        from + names.len() <= vs.len(),
        vs.len() <= usize::MAX,
    ensures
        ({
            let out = as_components(env, names, tys, t, from, n);
            &&& forall|k: NameS| #[trigger]
                out.dom().contains(k) <==> env.dom().contains(k) || names.take(n as int).contains(k)
            &&& forall|j: int|
                0 <= j < n ==> meant(m, rho, out[#[trigger] names[j]]) == m.of(vs[from + j])
            &&& forall|k: NameS|
                !names.take(n as int).contains(k) ==> #[trigger] under_env(m, rho, out)(k)
                    == under_env(m, rho, env)(k)
        }),
    decreases n,
{
    if n == 0 {
        assert(names.take(0) =~= Seq::empty());
    } else {
        lemma_components_meant(m, rho, env, names, tys, t, vs, from, (n - 1) as nat);
        let i = (from + n - 1) as usize;
        lemma_item_meant(m, rho, t, vs, i, tys[n - 1]);
        let before = as_components(env, names, tys, t, from, (n - 1) as nat);
        let out = as_components(env, names, tys, t, from, n);
        assert(names.take(n as int) =~= names.take(n - 1).push(names[n - 1]));
        assert forall|k: NameS| names.take(n as int).contains(k) == (names.take(n - 1).contains(k)
            || k == names[n - 1]) by {
            let a = names.take(n - 1);
            let b = names.take(n as int);
            if a.contains(k) {
                let j = choose|j: int| 0 <= j < a.len() && a[j] == k;
                assert(b[j] == k);
            }
            if k == names[n - 1] {
                assert(b[n - 1] == k);
            }
            if b.contains(k) {
                let j = choose|j: int| 0 <= j < b.len() && b[j] == k;
                if j < n - 1 {
                    assert(a[j] == k);
                }
            }
        }
        assert forall|j: int| 0 <= j < n implies meant(m, rho, out[#[trigger] names[j]]) == m.of(
            vs[from + j],
        ) by {
            if j < n - 1 {
                assert(names[j] != names[n - 1]);
                assert(out[names[j]] == before[names[j]]);
            }
        }
        assert forall|k: NameS| !names.take(n as int).contains(k) implies #[trigger] under_env(
            m,
            rho,
            out,
        )(k) == under_env(m, rho, env)(k) by {
            assert(under_env(m, rho, before)(k) == under_env(m, rho, env)(k));
        }
    }
}

/// Whether `ks` lists the names of `accs` in their order.
pub open spec fn lists(ks: Seq<NameS>, accs: Map<NameS, AccS>) -> bool {
    names_ascending(ks) && forall|n: NameS| ks.contains(n) <==> accs.dom().contains(n)
}

/// Whether the block of a site reads the accumulator `n`, one of its own loop or of
/// another.
pub open spec fn reads_acc(site: SiteS, accs: Map<NameS, AccS>, own: bool, n: NameS) -> bool {
    accs.dom().contains(n) && shows(SignS::Reads(n), site.block) && site.enclosing_writes.contains(n)
        == own
}

proof fn lemma_accs_read(
    ks: Seq<NameS>,
    block: ExprS,
    enclosing: Seq<NameS>,
    inside: bool,
    n: nat,
)
    requires
        names_ascending(ks),
        n <= ks.len(),
    ensures
        ({
            let out = accs_read(ks, block, enclosing, inside, n);
            &&& no_repeats(out)
            &&& out.len() <= n
            &&& forall|k: NameS|
                out.contains(k) <==> ks.take(n as int).contains(k) && shows(SignS::Reads(k), block)
                    && enclosing.contains(k) == inside
        }),
    decreases n,
{
    let out = accs_read(ks, block, enclosing, inside, n);
    if n == 0 {
        assert(ks.take(0) =~= Seq::empty());
    } else {
        lemma_accs_read(ks, block, enclosing, inside, (n - 1) as nat);
        let before = accs_read(ks, block, enclosing, inside, (n - 1) as nat);
        let x = ks[n - 1];
        assert(ks.take(n as int) =~= ks.take(n - 1).push(x));
        assert(!ks.take(n - 1).contains(x)) by {
            if ks.take(n - 1).contains(x) {
                let j = choose|j: int| 0 <= j < n - 1 && #[trigger] ks.take(n - 1)[j] == x;
                assert(ks[j].lt(ks[n - 1]));
                lemma_name_lt_irreflexive(x);
            }
        }
        assert forall|k: NameS| ks.take(n as int).contains(k) == (ks.take(n - 1).contains(k) || k
            == x) by {
            let a = ks.take(n - 1);
            let b = ks.take(n as int);
            if a.contains(k) {
                let j = choose|j: int| 0 <= j < a.len() && a[j] == k;
                assert(b[j] == k);
            }
            if k == x {
                assert(b[n - 1] == k);
            }
            if b.contains(k) {
                let j = choose|j: int| 0 <= j < b.len() && b[j] == k;
                if j < n - 1 {
                    assert(a[j] == k);
                }
            }
        }
        if shows(SignS::Reads(x), block) && enclosing.contains(x) == inside {
            assert(out == before.push(x));
            assert(!before.contains(x));
            assert forall|i: int, j: int| 0 <= i < j < out.len() implies out[i] != out[j] by {
                if j == before.len() {
                    assert(before.contains(before[i]));
                } else {
                    assert(before[i] != before[j]);
                }
            }
            assert forall|k: NameS| out.contains(k) <==> before.contains(k) || k == x by {
                if before.contains(k) {
                    let j = choose|j: int| 0 <= j < before.len() && before[j] == k;
                    assert(out[j] == k);
                }
                if k == x {
                    assert(out[before.len() as int] == k);
                }
            }
        }
    }
}

/// The accumulators that a site reads are listed, each once.
proof fn lemma_site_accs(site: SiteS, accs: Map<NameS, AccS>, own: bool, ks: Seq<NameS>)
    requires
        lists(ks, accs),
    ensures
        no_repeats(site_accs(site, accs, own)),
        site_accs(site, accs, own).len() <= ks.len(),
        forall|n: NameS| #[trigger]
            site_accs(site, accs, own).contains(n) <==> reads_acc(site, accs, own, n),
{
    lemma_sorted_names(ks, accs.dom());
    lemma_accs_read(ks, site.block, site.enclosing_writes, own, ks.len());
    assert(ks.take(ks.len() as int) =~= ks);
}

/// The place of a label is the first that has it.
pub proof fn lemma_label_place(labels: Seq<Seq<char>>, f: Seq<char>, from: nat)
    requires
        from <= labels.len(),
    ensures
        from <= label_place(labels, f, from) <= labels.len(),
        label_place(labels, f, from) < labels.len() ==> labels[label_place(labels, f, from) as int] == f,
        forall|q: int|
            from <= q < label_place(labels, f, from) ==> #[trigger] labels[q] != f,
    decreases labels.len() - from,
{
    if from < labels.len() && labels[from as int] != f {
        lemma_label_place(labels, f, from + 1);
    }
}

/// The text of the label that says whether the reply `f` is made.
pub open spec fn fire_label(f: Seq<char>) -> Seq<char> {
    f + "__fire"@
}

/// Whether the replies of a block have fields of their own.
pub open spec fn own_fields(taps: Seq<TapS>) -> bool {
    &&& forall|i: int, j: int|
        #![trigger taps[i], taps[j]]
        0 <= i < taps.len() && 0 <= j < taps.len() ==> (taps[i].field == taps[j].field ==> i == j)
            && taps[i].field != fire_label(taps[j].field)
    &&& forall|i: int|
        0 <= i < taps.len() ==> (#[trigger] taps[i]).field != "writes"@ && fire_label(taps[i].field)
            != "writes"@
}

/// Whether a field of a payload is the writes, a reply among the first `n`, or when it
/// is made.
spec fn is_field(f: FieldS, commit: ExprS, writes: ExprS, taps: Seq<TapS>, n: nat) -> bool {
    ||| f == FieldS { name: "writes"@, value: writes }
    ||| exists|j: int|
        0 <= j < n && f == FieldS { name: (#[trigger] taps[j]).field, value: taps[j].value }
    ||| exists|j: int|
        0 <= j < n && f == FieldS {
            name: fire_label((#[trigger] taps[j]).field),
            value: taps[j].path,
        } && !expr_eq(taps[j].path, commit)
}

proof fn lemma_payload(commit: ExprS, writes: ExprS, taps: Seq<TapS>, n: nat)
    requires
        n <= taps.len(),
    ensures
        ({
            let fs = payload_fields(commit, writes, taps, n);
            &&& fs.len() > 0
            &&& fs[0] == FieldS { name: "writes"@, value: writes }
            &&& forall|q: int|
                0 <= q < fs.len() ==> is_field(#[trigger] fs[q], commit, writes, taps, n)
            &&& forall|j: int|
                0 <= j < n ==> fs.contains(
                    (FieldS { name: (#[trigger] taps[j]).field, value: taps[j].value }),
                )
            &&& forall|j: int|
                0 <= j < n && !expr_eq((#[trigger] taps[j]).path, commit) ==> fs.contains(
                    (FieldS { name: fire_label(taps[j].field), value: taps[j].path }),
                )
        }),
    decreases n,
{
    let fs = payload_fields(commit, writes, taps, n);
    if n > 0 {
        lemma_payload(commit, writes, taps, (n - 1) as nat);
        let before = payload_fields(commit, writes, taps, (n - 1) as nat);
        let t = taps[n - 1];
        let a = FieldS { name: t.field, value: t.value };
        let b = FieldS { name: cat2(t.field, FIRE@), value: t.path };
        reveal(cat2);
        assert(cat2(t.field, FIRE@) =~= fire_label(t.field));
        let k = before.len() as int;
        assert(fs[k] == a);
        if !expr_eq(t.path, commit) {
            assert(fs[k + 1] == b);
        }
        assert forall|q: int| 0 <= q < fs.len() implies is_field(
            #[trigger] fs[q],
            commit,
            writes,
            taps,
            n,
        ) by {
            if q < k {
                assert(fs[q] == before[q]);
                assert(is_field(before[q], commit, writes, taps, (n - 1) as nat));
            }
        }
        assert forall|f: FieldS| before.contains(f) implies fs.contains(f) by {
            let q = choose|q: int| 0 <= q < before.len() && before[q] == f;
            assert(fs[q] == f);
        }
    }
}

/// What the labelled component of a payload is.
proof fn lemma_payload_component(
    m: Model,
    rho: Valuation,
    commit: ExprS,
    writes: ExprS,
    taps: Seq<TapS>,
    f: FieldS,
)
    requires
        own_fields(taps),
        payload_fields(commit, writes, taps, taps.len()).contains(f),
    ensures
        ({
            let fs = payload_fields(commit, writes, taps, taps.len());
            let v = meant(m, rho, record_s(labels(fs), crate::decision::values(fs), record_ty(labels(fs), value_tys(fs)))).val;
            taken(FieldKeyS::Name(f.name), v) == Some(meant(m, rho, f.value).val)
        }),
{
    let n = taps.len();
    let fs = payload_fields(commit, writes, taps, n);
    let e = record_s(labels(fs), crate::decision::values(fs), record_ty(labels(fs), value_tys(fs)));
    lemma_payload(commit, writes, taps, n);
    lemma_label_place(labels(fs), f.name, 0);
    let q = choose|q: int| 0 <= q < fs.len() && fs[q] == f;
    let p = label_place(labels(fs), f.name, 0) as int;
    assert(labels(fs)[q] == f.name);
    assert(p <= q);
    assert(fs[p].name == f.name) by {
        assert(labels(fs)[p] == f.name);
    }
    assert(is_field(fs[p], commit, writes, taps, n));
    assert(is_field(fs[q], commit, writes, taps, n));
    lemma_fire_labels(taps);
    assert(fs[p].value == f.value);
    assert(e.kids[p] == f.value);
    let ds = kids_meant(m, rho, e);
    assert(ds[p] == meant(m, rho, f.value));
}

proof fn lemma_fire_labels(taps: Seq<TapS>)
    ensures
        forall|i: int, j: int|
            #![trigger taps[i], taps[j]]
            fire_label(taps[i].field) == fire_label(taps[j].field) ==> taps[i].field
                == taps[j].field,
{
    assert forall|i: int, j: int|
        #![trigger taps[i], taps[j]]
        fire_label(taps[i].field) == fire_label(taps[j].field) implies taps[i].field
        == taps[j].field by {
        let a = taps[i].field;
        let b = taps[j].field;
        assert(fire_label(a).len() == a.len() + "__fire"@.len());
        assert(fire_label(b).len() == b.len() + "__fire"@.len());
        assert(fire_label(a).take(a.len() as int) =~= a);
        assert(fire_label(b).take(b.len() as int) =~= b);
    }
}

/// Whether a committed payload makes the reply `f`: it says so, or says nothing of it.
pub open spec fn makes_reply(payload: Val, f: Seq<char>) -> bool {
    match taken(FieldKeyS::Name(fire_label(f)), payload) {
        Some(v) => v == Val::Bool(true),
        None => true,
    }
}

/// A decision commits where its condition holds, and aborts elsewhere. What it commits
/// are the writes, and each reply, made exactly where its own condition holds.
pub proof fn law_a_decision_commits_where_it_is_to(
    m: Model,
    rho: Valuation,
    commit: ExprS,
    writes: ExprS,
    taps: Seq<TapS>,
)
    requires
        own_fields(taps),
    ensures
        ({
            let decided = meant(m, rho, decision_s(commit, writes, taps)).val;
            if is_held(meant(m, rho, commit)) {
                &&& decided matches Val::Tagged(tag, payload) && tag == "commit"@ && taken(
                    FieldKeyS::Name("writes"@),
                    *payload,
                ) == Some(meant(m, rho, writes).val) && forall|j: int|
                    0 <= j < taps.len() ==> taken(
                        FieldKeyS::Name((#[trigger] taps[j]).field),
                        *payload,
                    ) == Some(meant(m, rho, taps[j].value).val) && makes_reply(
                        *payload,
                        taps[j].field,
                    ) == is_held(meant(m, rho, taps[j].path))
            } else {
                decided == Val::Tagged("abort"@, Box::new(Val::Unit))
            }
        }),
{
    let e = decision_s(commit, writes, taps);
    let n = taps.len();
    let fs = payload_fields(commit, writes, taps, n);
    let record = record_s(labels(fs), crate::decision::values(fs), record_ty(labels(fs), value_tys(fs)));
    assert(guards_only(seq![None::<PatternS>, None::<PatternS>]));
    assert(e.kids[0] == commit);
    assert(e.kids[2] == truth(true));
    assert(meant(m, rho, e) == first_arm(m, rho, e, 0));
    if is_held(meant(m, rho, commit)) {
        lemma_choice_meant(m, rho, e, 0, 0);
        assert(e.kids[1].kids[0] == record);
        lemma_payload(commit, writes, taps, n);
        let w = FieldS { name: "writes"@, value: writes };
        assert(fs.contains(w));
        lemma_payload_component(m, rho, commit, writes, taps, w);
        let payload = meant(m, rho, record).val;
        assert(meant(m, rho, e) == meant(m, rho, e.kids[1]));
        assert(meant(m, rho, e).val == Val::Tagged("commit"@, Box::new(payload)));
        assert forall|j: int| 0 <= j < taps.len() implies taken(
            FieldKeyS::Name((#[trigger] taps[j]).field),
            payload,
        ) == Some(meant(m, rho, taps[j].value).val) && makes_reply(payload, taps[j].field)
            == is_held(meant(m, rho, taps[j].path)) by {
            let t = taps[j];
            lemma_payload_component(
                m,
                rho,
                commit,
                writes,
                taps,
                FieldS { name: t.field, value: t.value },
            );
            if expr_eq(t.path, commit) {
                lemma_equal_terms_mean_the_same(m, rho, t.path, commit);
                lemma_label_place(labels(fs), fire_label(t.field), 0);
                let p = label_place(labels(fs), fire_label(t.field), 0) as int;
                if p < fs.len() {
                    assert(labels(fs)[p] == fs[p].name);
                    assert(is_field(fs[p], commit, writes, taps, n));
                    lemma_fire_labels(taps);
                    assert(false);
                }
            } else {
                lemma_payload_component(
                    m,
                    rho,
                    commit,
                    writes,
                    taps,
                    FieldS { name: fire_label(t.field), value: t.path },
                );
            }
        }
    } else {
        assert forall|k: int| 0 <= k < 1 implies !is_held(#[trigger] meant(m, rho, e.kids[2 * k])) by {
            assert(e.kids[2 * k] == commit);
        }
        lemma_choice_meant(m, rho, e, 1, 0);
        assert(meant(m, rho, e) == meant(m, rho, e.kids[3]));
        let unit = e.kids[3].kids[0];
        assert(unit.head == HeadS::Lit(LitS::Unit));
        assert(meant(m, rho, unit).val == Val::Unit);
        assert(meant(m, rho, e).val == Val::Tagged("abort"@, Box::new(Val::Unit)));
    }
}

/// A reference to a name means what the name means.
pub proof fn lemma_var_meant(m: Model, rho: Valuation, n: NameS, ty: TypeS)
    requires
        !(n is PiBound),
    ensures
        meant(m, rho, var_s(n, ty)) == rho(n),
{
}

proof fn lemma_finals_meant(
    m: Model,
    rho: Valuation,
    env: Map<NameS, ExprS>,
    names: Seq<NameS>,
    accs: Map<NameS, AccS>,
    n: nat,
)
    requires
        n <= names.len(),
        forall|i: int| 0 <= i < names.len() ==> !(accs[#[trigger] names[i]].final_var is PiBound),
    ensures
        ({
            let out = as_finals(env, names, accs, n);
            &&& forall|k: NameS| #[trigger]
                out.dom().contains(k) <==> env.dom().contains(k) || names.take(n as int).contains(k)
            &&& forall|k: NameS| #[trigger]
                under_env(m, rho, out)(k) == (if names.take(n as int).contains(k) {
                    rho(accs[k].final_var)
                } else {
                    under_env(m, rho, env)(k)
                })
        }),
    decreases n,
{
    if n == 0 {
        assert(names.take(0) =~= Seq::empty());
    } else {
        lemma_finals_meant(m, rho, env, names, accs, (n - 1) as nat);
        let before = as_finals(env, names, accs, (n - 1) as nat);
        let out = as_finals(env, names, accs, n);
        let x = names[n - 1];
        assert forall|k: NameS| names.take(n as int).contains(k) == (names.take(n - 1).contains(k)
            || k == x) by {
            let a = names.take(n - 1);
            let b = names.take(n as int);
            if a.contains(k) {
                let j = choose|j: int| 0 <= j < a.len() && a[j] == k;
                assert(b[j] == k);
            }
            if k == x {
                assert(b[n - 1] == k);
            }
            if b.contains(k) {
                let j = choose|j: int| 0 <= j < b.len() && b[j] == k;
                if j < n - 1 {
                    assert(a[j] == k);
                }
            }
        }
        assert(!(accs[names[n - 1]].final_var is PiBound));
        assert forall|k: NameS| #[trigger] under_env(m, rho, out)(k) == (if names.take(
            n as int,
        ).contains(k) {
            rho(accs[k].final_var)
        } else {
            under_env(m, rho, env)(k)
        }) by {
            if k == x {
                lemma_var_meant(m, rho, accs[x].final_var, accs[x].value_ty);
            } else {
                assert(under_env(m, rho, out)(k) == under_env(m, rho, before)(k));
            }
        }
    }
}

/// What the names of a site's block mean as the block starts: a variable that it reads
/// means what its history holds, the loop's target the item, an accumulator of its own
/// loop what it has come to there, and one of another loop what it came to in the end.
pub open spec fn block_start(
    m: Model,
    rho: Valuation,
    site: SiteS,
    accs: Map<NameS, AccS>,
    reads: Seq<Val>,
    item: Val,
    now: spec_fn(NameS) -> Val,
) -> Valuation {
    |n: NameS|
        if reads_acc(site, accs, false, n) {
            rho(accs[n].final_var)
        } else if reads_acc(site, accs, true, n) {
            m.of(now(n))
        } else if n == site.target {
            m.of(item)
        } else if site.read_keys.contains(n) {
            m.of(reads[site.read_keys.index_of(n)])
        } else {
            rho(n)
        }
}

/// Whether the names of a site and of the accumulators are names.
pub open spec fn named_site(site: SiteS, accs: Map<NameS, AccS>) -> bool {
    &&& leafy(site.block)
    &&& sets_names(site.block)
    &&& !(site.target is PiBound)
    &&& no_repeats(site.read_keys)
    &&& forall|i: int| 0 <= i < site.read_keys.len() ==> !((#[trigger] site.read_keys[i]) is PiBound)
    &&& forall|i: int|
        0 <= i < site.write_keys.len() ==> !((#[trigger] site.write_keys[i]) is PiBound)
    &&& forall|n: NameS| #[trigger]
        accs.dom().contains(n) ==> !(n is PiBound) && !(accs[n].final_var is PiBound)
}

/// Whether `n` is a name that neither the site nor the accumulators have.
pub open spec fn new_to_site(n: NameS, site: SiteS, accs: Map<NameS, AccS>) -> bool {
    &&& !free_in_value(n, site.block)
    &&& !free_in_value(n, site.source)
    &&& !site.write_keys.contains(n)
    &&& forall|k: NameS| #[trigger]
        accs.dom().contains(k) ==> accs[k].final_var != n && !free_in_value(n, accs[k].view)
}

/// The item of a site's loop with what its own accumulators have come to.
spec fn zipped_item(own: Seq<NameS>, item: Val, now: spec_fn(NameS) -> Val) -> Val {
    if own.len() == 0 {
        item
    } else {
        Val::Tuple(seq![item] + Seq::new(own.len(), |j: int| now(own[j])))
    }
}

#[verifier::rlimit(60)]
proof fn lemma_start_meant(
    m: Model,
    rho: Valuation,
    site: SiteS,
    accs: Map<NameS, AccS>,
    ks: Seq<NameS>,
    read_tys: Seq<TypeS>,
    item_ty: TypeS,
    zipped_ty: TypeS,
    p: ExprS,
    reads: Seq<Val>,
    item: Val,
    now: spec_fn(NameS) -> Val,
)
    requires
        named_site(site, accs),
        lists(ks, accs),
        reads.len() == site.read_keys.len(),
        reads.len() < usize::MAX,
        ks.len() < usize::MAX,
        meant(m, rho, p) == m.of(
            Val::Tuple(reads.push(zipped_item(site_accs(site, accs, true), item, now))),
        ),
    ensures
        ({
            let env = start_env(site, accs, read_tys, item_ty, zipped_ty, p);
            &&& stands_for_names(env)
            &&& under_env(m, rho, env) == block_start(m, rho, site, accs, reads, item, now)
        }),
{
    let own = site_accs(site, accs, true);
    let others = site_accs(site, accs, false);
    lemma_site_accs(site, accs, true, ks);
    lemma_site_accs(site, accs, false, ks);
    let n = site.read_keys.len();
    let none: Map<NameS, ExprS> = Map::empty();
    let zv = zipped_item(own, item, now);
    let vs = reads.push(zv);
    let got = as_components(none, site.read_keys, read_tys, p, 0, n);
    lemma_components_meant(m, rho, none, site.read_keys, read_tys, p, vs, 0, n);
    let it = item_at(p, n as usize, zipped_ty);
    lemma_item_meant(m, rho, p, vs, n as usize, zipped_ty);
    let first = if own.len() == 0 { it } else { item_at(it, 0, item_ty) };
    let zs = seq![item] + Seq::new(own.len(), |j: int| now(own[j]));
    if own.len() > 0 {
        lemma_item_meant(m, rho, it, zs, 0, item_ty);
    }
    assert(meant(m, rho, first) == m.of(item));
    let with_target = got.insert(site.target, first);
    lemma_env_set(m, rho, got, site.target, first);
    let env = if own.len() == 0 {
        with_target
    } else {
        as_components(with_target, own, acc_tys(own, accs), it, 1, own.len())
    };
    if own.len() > 0 {
        lemma_components_meant(
            m,
            rho,
            with_target,
            own,
            acc_tys(own, accs),
            it,
            zs,
            1,
            own.len(),
        );
    }
    assert forall|i: int| 0 <= i < others.len() implies !(accs[#[trigger] others[i]].final_var is PiBound) by {
        assert(others.contains(others[i]));
        assert(reads_acc(site, accs, false, others[i]));
    }
    lemma_finals_meant(m, rho, env, others, accs, others.len());
    let out = start_env(site, accs, read_tys, item_ty, zipped_ty, p);
    assert(out == as_finals(env, others, accs, others.len()));
    assert(others.take(others.len() as int) =~= others);
    assert(own.take(own.len() as int) =~= own);
    assert(site.read_keys.take(n as int) =~= site.read_keys);
    let want = block_start(m, rho, site, accs, reads, item, now);
    assert forall|k: NameS| #[trigger] under_env(m, rho, out)(k) == want(k) by {
        if others.contains(k) {
        } else if own.contains(k) {
            let j = choose|j: int| 0 <= j < own.len() && own[j] == k;
            assert(meant(m, rho, env[own[j]]) == m.of(zs[1 + j]));
            assert(under_env(m, rho, env)(k) == meant(m, rho, env[k]));
        } else {
            assert(under_env(m, rho, env)(k) == under_env(m, rho, with_target)(k));
            if k != site.target {
                assert(under_env(m, rho, with_target)(k) == under_env(m, rho, got)(k));
                if site.read_keys.contains(k) {
                    let j = site.read_keys.index_of(k);
                    assert(0 <= j < n && site.read_keys[j] == k);
                    assert(meant(m, rho, got[site.read_keys[j]]) == m.of(vs[0 + j]));
                } else {
                    assert(under_env(m, rho, got)(k) == under_env(m, rho, none)(k));
                }
            }
        }
    }
    assert(under_env(m, rho, out) =~= want);
    assert forall|k: NameS| #[trigger] out.dom().contains(k) implies !(k is PiBound) by {
        if others.contains(k) || own.contains(k) {
            assert(accs.dom().contains(k));
        } else if k != site.target {
            assert(site.read_keys.contains(k));
            let j = choose|j: int| 0 <= j < n && site.read_keys[j] == k;
            assert(!(site.read_keys[j] is PiBound));
        }
    }
}

/// What is applied to a value on the value's account.
pub proof fn lemma_apply_meant(m: Model, rho: Valuation, a: ExprS, f: ExprS, ty: TypeS)
    requires
        meant(m, rho, f).act is Pointwise,
    ensures
        meant(m, rho, apply_s(a, f, ty)) == m.of((meant(m, rho, f).at)(meant(m, rho, a).val)),
{
    let e = apply_s(a, f, ty);
    assert(e.kids[0] == f && e.kids[1] == a);
}

/// A name that is not free in a term does not matter to it.
pub proof fn lemma_unread(m: Model, rho: Valuation, n: NameS, d: Meant, e: ExprS)
    requires
        !free_in_value(n, e),
    ensures
        meant(m, setting(rho, n, d), e) == meant(m, rho, e),
{
    let a = setting(rho, n, d);
    assert forall|k: NameS| #[trigger] free_in_value(k, e) && !(k is PiBound) implies a(k) == rho(k) by {
        assert(k != n);
    }
    lemma_meant_by_free_names(m, a, rho, e);
}

/// A loop's source zipped with accumulators gives the item and what they have come to.
proof fn lemma_zipped_source(
    m: Model,
    rho: Valuation,
    site: SiteS,
    accs: Map<NameS, AccS>,
    own: Seq<NameS>,
    item_ty: TypeS,
    uid: u64,
    pos: Val,
)
    requires
        new_to_site(NameS::Fresh("__zx"@, uid), site, accs),
        meant(m, rho, site.source).act is Pointwise,
        forall|j: int|
            0 <= j < own.len() ==> accs.dom().contains(#[trigger] own[j]) && meant(
                m,
                rho,
                accs[own[j]].view,
            ).act is Pointwise,
    ensures
        (meant(m, rho, zipped_source(site.source, item_ty, own, accs, uid)).at)(pos) == Val::Tuple(
            seq![(meant(m, rho, site.source).at)(pos)] + Seq::new(
                own.len(),
                |j: int| (meant(m, rho, accs[own[j]].view).at)(pos),
            ),
        ),
{
    let x = NameS::Fresh("__zx"@, uid);
    let e = zipped_source(site.source, item_ty, own, accs, uid);
    let tup = e.kids[0];
    let r = setting(rho, x, m.of(pos));
    let dom = domain_of(site.source.ty())->0;
    lemma_var_meant(m, r, x, dom);
    lemma_unread(m, rho, x, m.of(pos), site.source);
    let ds = kids_meant(m, r, tup);
    let want = seq![(meant(m, rho, site.source).at)(pos)] + Seq::new(
        own.len(),
        |j: int| (meant(m, rho, accs[own[j]].view).at)(pos),
    );
    assert forall|i: int| 0 <= i < ds.len() implies (#[trigger] ds[i]).val == want[i] by {
        if i == 0 {
            lemma_apply_meant(m, r, var_s(x, dom), site.source, item_ty);
        } else {
            let k = own[i - 1];
            assert(accs.dom().contains(own[i - 1]));
            lemma_unread(m, rho, x, m.of(pos), accs[k].view);
            lemma_apply_meant(m, r, var_s(x, dom), accs[k].view, accs[k].value_ty);
        }
    }
    assert(vals(ds) =~= want);
    assert(meant(m, r, tup).val == Val::Tuple(vals(ds)));
    assert((meant(m, rho, e).at)(pos) == meant(m, r, tup).val);
}

/// The replies among the first `n` that a committed payload makes.
pub open spec fn replies_in(payload: Val, taps: Seq<TapS>, n: nat) -> Seq<Reply>
    decreases n,
{
    if n == 0 || n > taps.len() {
        Seq::empty()
    } else {
        let before = replies_in(payload, taps, (n - 1) as nat);
        let t = taps[n - 1];
        match taken(FieldKeyS::Name(t.field), payload) {
            Some(v) => if makes_reply(payload, t.field) {
                before.push(Reply { to: t.defer, sent: v })
            } else {
                before
            },
            None => before,
        }
    }
}

/// Whether a decision is what the run of a block comes to: to commit the values that it
/// leaves the variables `writes` with and the replies that it makes, where it wrote or
/// replied, and to abort where it did neither.
pub open spec fn decides(decided: Val, r: Ran, writes: Seq<NameS>, taps: Seq<TapS>) -> bool {
    if r.acted {
        decided matches Val::Tagged(tag, payload) && tag == "commit"@ && taken(
            FieldKeyS::Name("writes"@),
            *payload,
        ) == Some(Val::Tuple(Seq::new(writes.len(), |i: int| (r.rho)(writes[i]).val)))
            && replies_in(*payload, taps, taps.len()) == r.replies
    } else {
        decided == Val::Tagged("abort"@, Box::new(Val::Unit))
    }
}

proof fn lemma_replies_in(m: Model, rho: Valuation, payload: Val, taps: Seq<TapS>, n: nat)
    requires
        n <= taps.len(),
        forall|j: int|
            0 <= j < taps.len() ==> taken(FieldKeyS::Name((#[trigger] taps[j]).field), payload)
                == Some(meant(m, rho, taps[j].value).val) && makes_reply(payload, taps[j].field)
                == is_held(meant(m, rho, taps[j].path)),
    ensures
        replies_in(payload, taps, n) == fired(m, rho, taps, n),
    decreases n,
{
    if n > 0 {
        lemma_replies_in(m, rho, payload, taps, (n - 1) as nat);
        assert(taken(FieldKeyS::Name(taps[n - 1].field), payload) == Some(
            meant(m, rho, taps[n - 1].value).val,
        ));
    }
}

/// A writer decides as the block it is made of runs. Its decision on what the variables
/// it reads hold, at a position of its loop, is to commit exactly where running the block
/// from there reaches a write or a reply: then it commits the values that the run leaves
/// its variables with, and the replies that the run makes.
pub proof fn law_a_writer_decides_as_its_block_runs(
    m: Model,
    rho: Valuation,
    site: SiteS,
    inits: Map<NameS, ExprS>,
    accs: Map<NameS, AccS>,
    ks: Seq<NameS>,
    counter: u64,
    uid: u64,
    w: WriterS,
    reads: Seq<Val>,
    pos: Val,
)
    requires
        writer_s(site, inits, accs, counter, uid) matches Some((x, _, _)) && x == w,
        named_site(site, accs),
        lists(ks, accs),
        reads.len() == site.read_keys.len(),
        reads.len() < usize::MAX,
        ks.len() < usize::MAX,
        own_fields(w.taps),
        new_to_site(NameS::Fresh("__zx"@, uid), site, accs),
        new_to_site(NameS::Fresh("__txp"@, uid), site, accs),
        new_to_site(NameS::Fresh("__txp"@, NameSupply::after(uid)), site, accs),
        meant(m, rho, site.source).act is Pointwise,
        forall|n: NameS| #[trigger]
            accs.dom().contains(n) ==> meant(m, rho, accs[n].view).act is Pointwise,
    ensures
        w.read_keys == site.read_keys,
        w.write_keys == site.write_keys,
        ({
            let item = (meant(m, rho, w.source).at)(pos);
            let start = block_start(
                m,
                rho,
                site,
                accs,
                reads,
                (meant(m, rho, site.source).at)(pos),
                |n: NameS| (meant(m, rho, accs[n].view).at)(pos),
            );
            decides(
                (meant(m, rho, w.body).at)(Val::Tuple(reads.push(item))),
                run_block(m, start, site.write_keys, site.block),
                site.write_keys,
                w.taps,
            )
        }),
{
    let own = site_accs(site, accs, true);
    lemma_site_accs(site, accs, true, ks);
    let read_tys = key_tys(site.read_keys, inits);
    let item_ty = codomain_of(site.source.ty())->0;
    let zty = if own.len() == 0 { item_ty } else { zipped_ty(item_ty, own, accs) };
    let at = if own.len() == 0 { uid } else { NameSupply::after(uid) };
    let p = NameS::Fresh("__txp"@, at);
    let ty = tuple_ty(read_tys.push(zty));
    let x = (meant(m, rho, site.source).at)(pos);
    let now = |n: NameS| (meant(m, rho, accs[n].view).at)(pos);
    let item = (meant(m, rho, w.source).at)(pos);
    if own.len() > 0 {
        assert forall|j: int| 0 <= j < own.len() implies accs.dom().contains(#[trigger] own[j])
            && meant(m, rho, accs[own[j]].view).act is Pointwise by {
            assert(own.contains(own[j]));
            assert(reads_acc(site, accs, true, own[j]));
        }
        lemma_zipped_source(m, rho, site, accs, own, item_ty, uid, pos);
        assert(Seq::new(own.len(), |j: int| now(own[j])) =~= Seq::new(
            own.len(),
            |j: int| (meant(m, rho, accs[own[j]].view).at)(pos),
        ));
    }
    assert(item == zipped_item(own, x, now));
    let arg = Val::Tuple(reads.push(item));
    let rp = setting(rho, p, m.of(arg));
    let pe = var_s(p, ty);
    lemma_var_meant(m, rp, p, ty);
    lemma_start_meant(m, rp, site, accs, ks, read_tys, item_ty, zty, pe, reads, x, now);
    let env = start_env(site, accs, read_tys, item_ty, zty, pe);
    let st = WalkS { env, commits: Seq::empty(), taps: Seq::empty(), counter };
    let end = walked(site.block, truth(true), site.write_keys, st)->0;
    law_a_block_is_walked_as_it_runs(m, rp, site.block, site.write_keys, env, counter, end);
    let s1 = block_start(m, rp, site, accs, reads, x, now);
    let s2 = block_start(m, rho, site, accs, reads, x, now);
    assert forall|n: NameS| n != p implies #[trigger] s1(n) == s2(n) by {
        if reads_acc(site, accs, false, n) {
            assert(accs.dom().contains(n));
        }
    }
    lemma_runs_by_free_names(m, s1, s2, site.write_keys, site.block);
    let r1 = run_block(m, s1, site.write_keys, site.block);
    let r2 = run_block(m, s2, site.write_keys, site.block);
    let commit = disjoined(end.commits);
    let wty = tuple_ty(key_tys(site.write_keys, inits));
    let writes = tuple_s(standing(end.env, site.write_keys), wty);
    law_a_decision_commits_where_it_is_to(m, rp, commit, writes, end.taps);
    let decision = decision_s(commit, writes, end.taps);
    assert(w.body.kids[0] == decision);
    let decided = (meant(m, rho, w.body).at)(arg);
    assert(decided == meant(m, rp, decision).val);
    let ds = kids_meant(m, rp, writes);
    let want = Seq::new(site.write_keys.len(), |i: int| (r2.rho)(site.write_keys[i]).val);
    assert forall|i: int| 0 <= i < ds.len() implies (#[trigger] ds[i]).val == want[i] by {
        let k = site.write_keys[i];
        assert(end.env.dom().contains(site.write_keys[i]));
        assert(ds[i] == meant(m, rp, end.env[k]));
        assert(under_env(m, rp, end.env)(k) == (r1.rho)(k));
        assert(site.write_keys.contains(k));
        assert(k != p);
        assert(s1(k) == s2(k));
    }
    assert(vals(ds) =~= want);
    if r2.acted {
        match decided {
            Val::Tagged(tag, payload) => {
                lemma_replies_in(m, rp, *payload, end.taps, end.taps.len());
            },
            _ => {},
        }
    }
}

} // verus!
