//! Which mutable variables share a commit store.
use vstd::prelude::*;
use crate::ast::{Expr, ExprS, TypeS, TypedBinding};
use crate::name::{Name, NameS, clone_names, names_view};

verus! {

/// A transaction block that writes, taken out of its loop.
pub struct SiteS {
    pub target: NameS,
    pub target_ty: TypeS,
    pub source: ExprS,
    pub block: ExprS,
    pub read_keys: Seq<NameS>,
    pub write_keys: Seq<NameS>,
    /// What the enclosing loop writes beside the transactional variables.
    pub enclosing_writes: Seq<NameS>,
}

pub struct RawSite {
    pub target: TypedBinding,
    pub source: Expr,
    pub block: Expr,
    pub read_keys: Vec<Name>,
    pub write_keys: Vec<Name>,
    pub enclosing_writes: Vec<Name>,
}

impl RawSite {
    pub open spec fn view(&self) -> SiteS {
        SiteS {
            target: self.target.name@,
            target_ty: self.target.ty.view(),
            source: self.source.view(),
            block: self.block.view(),
            read_keys: names_view(self.read_keys@),
            write_keys: names_view(self.write_keys@),
            enclosing_writes: names_view(self.enclosing_writes@),
        }
    }
}

pub open spec fn sites_view(v: Seq<RawSite>) -> Seq<SiteS> {
    Seq::new(v.len(), |i: int| v[i].view())
}

pub open spec fn name_lists_view(v: Seq<Vec<Name>>) -> Seq<Seq<NameS>> {
    Seq::new(v.len(), |i: int| names_view(v[i]@))
}

/// The keys that each block mentions together: the writing blocks, then the
/// blocks that only read.
pub open spec fn footprints(sites: Seq<SiteS>, read_only: Seq<Seq<NameS>>) -> Seq<Seq<NameS>> {
    Seq::new(sites.len(), |i: int| sites[i].read_keys + sites[i].write_keys) + read_only
}

pub open spec fn no_repeats(ks: Seq<NameS>) -> bool {
    forall|i: int, j: int| 0 <= i < j < ks.len() ==> ks[i] != ks[j]
}

/// Whether a labelling of the keys gives the keys of each footprint one label.
pub open spec fn agrees(label: spec_fn(NameS) -> int, ks: Seq<NameS>, fps: Seq<Seq<NameS>>) -> bool {
    forall|f: int, a: NameS, b: NameS|
        0 <= f < fps.len() && #[trigger] fps[f].contains(a) && #[trigger] fps[f].contains(b)
            && ks.contains(a) && ks.contains(b) ==> label(a) == label(b)
}

/// Whether blocks relate two keys, directly or through other keys: no labelling
/// that gives the keys of each footprint one label tells them apart.
pub open spec fn related(ks: Seq<NameS>, fps: Seq<Seq<NameS>>, a: NameS, b: NameS) -> bool {
    forall|label: spec_fn(NameS) -> int| #[trigger] agrees(label, ks, fps) ==> label(a) == label(b)
}

/// The first of the first `n` groups whose keys `k` is related to.
pub open spec fn home(
    ks: Seq<NameS>,
    fps: Seq<Seq<NameS>>,
    gs: Seq<Seq<NameS>>,
    n: nat,
    k: NameS,
) -> Option<int>
    decreases n,
{
    if n == 0 {
        None
    } else {
        match home(ks, fps, gs, (n - 1) as nat, k) {
            Some(g) => Some(g),
            None => if related(ks, fps, gs[n - 1][0], k) { Some(n - 1) } else { None },
        }
    }
}

/// The stores of the first `n` keys: each key joins the store of the keys it is
/// related to, or opens one.
pub open spec fn partitioned_upto(ks: Seq<NameS>, fps: Seq<Seq<NameS>>, n: nat) -> Seq<Seq<NameS>>
    decreases n,
{
    if n == 0 {
        Seq::empty()
    } else {
        let gs = partitioned_upto(ks, fps, (n - 1) as nat);
        match home(ks, fps, gs, gs.len(), ks[n - 1]) {
            Some(g) => gs.update(g, gs[g].push(ks[n - 1])),
            None => gs.push(seq![ks[n - 1]]),
        }
    }
}

/// The stores of a program's keys.
pub open spec fn partitioned(ks: Seq<NameS>, fps: Seq<Seq<NameS>>) -> Seq<Seq<NameS>> {
    partitioned_upto(ks, fps, ks.len())
}

/// Where a key stands.
fn index_of(keys: &Vec<Name>, k: &Name) -> (r: Option<usize>)
    ensures
        match r {
            Some(i) => i < keys@.len() && keys@[i as int]@ == k@,
            None => !names_view(keys@).contains(k@),
        },
{
    let mut i: usize = 0;
    while i < keys.len()
        invariant
            i <= keys.len(),
            forall|j: int| 0 <= j < i ==> (#[trigger] keys@[j])@ != k@,
        decreases keys.len() - i,
    {
        if keys[i].same(k) {
            return Some(i);
        }
        i = i + 1;
    }
    assert forall|j: int| 0 <= j < keys@.len() implies names_view(keys@)[j] != k@ by {
        assert(names_view(keys@)[j] == keys@[j]@);
    }
    None
}

/// No labelling that agrees with the footprints tells apart what has one label.
spec fn sound(labels: Seq<usize>, ks: Seq<NameS>, fps: Seq<Seq<NameS>>) -> bool {
    labels.len() == ks.len() && forall|label: spec_fn(NameS) -> int, i: int, j: int|
        #[trigger] agrees(label, ks, fps) && 0 <= i < ks.len() && 0 <= j < ks.len()
            && #[trigger] labels[i] == #[trigger] labels[j] ==> label(ks[i]) == label(ks[j])
}

/// `b` tells apart no more than `a` does.
spec fn coarser(a: Seq<usize>, b: Seq<usize>) -> bool {
    a.len() == b.len() && forall|i: int, j: int|
        0 <= i < a.len() && 0 <= j < a.len() && #[trigger] a[i] == #[trigger] a[j] ==> b[i] == b[j]
}

/// The keys of the first `n` names of `f` have one label.
spec fn uniform(labels: Seq<usize>, ks: Seq<NameS>, f: Seq<NameS>, n: int) -> bool {
    forall|i: int, j: int, a: int, b: int|
        0 <= i < ks.len() && 0 <= j < ks.len() && 0 <= a < n && 0 <= b < n && #[trigger] ks[i]
            == #[trigger] f[a] && #[trigger] ks[j] == #[trigger] f[b] ==> labels[i] == labels[j]
}

proof fn lemma_uniform_coarser(
    a: Seq<usize>,
    b: Seq<usize>,
    ks: Seq<NameS>,
    f: Seq<NameS>,
    n: int,
)
    requires
        a.len() == ks.len(),
        coarser(a, b),
        uniform(a, ks, f, n),
    ensures
        uniform(b, ks, f, n),
{
}

/// Gives everything labelled like `b` the label of `a`.
fn union(labels: Vec<usize>, a: usize, b: usize) -> (r: Vec<usize>)
    requires
        a < labels@.len(),
        b < labels@.len(),
    ensures
        r@.len() == labels@.len(),
        forall|i: int|
            0 <= i < r@.len() ==> #[trigger] r@[i] == (if labels@[i] == labels@[b as int] {
                labels@[a as int]
            } else {
                labels@[i]
            }),
{
    let to: usize = labels[a];
    let from: usize = labels[b];
    let mut out: Vec<usize> = Vec::new();
    let mut i: usize = 0;
    while i < labels.len()
        invariant
            i <= labels.len(),
            out.len() == i,
            forall|j: int|
                0 <= j < i ==> #[trigger] out@[j] == (if labels@[j] == from {
                    to
                } else {
                    labels@[j]
                }),
        decreases labels.len() - i,
    {
        out.push(
            if labels[i] == from {
                to
            } else {
                labels[i]
            },
        );
        i = i + 1;
    }
    out
}

/// Gives the keys of one footprint one label.
fn union_all(keys: &Vec<Name>, labels: Vec<usize>, f: &Vec<Name>, fps: Ghost<Seq<Seq<NameS>>>, at: Ghost<
    int,
>) -> (r: Vec<usize>)
    requires
        0 <= at@ < fps@.len(),
        fps@[at@] == names_view(f@),
        no_repeats(names_view(keys@)),
        sound(labels@, names_view(keys@), fps@),
    ensures
        sound(r@, names_view(keys@), fps@),
        coarser(labels@, r@),
        uniform(r@, names_view(keys@), fps@[at@], fps@[at@].len() as int),
{
    let ghost ks = names_view(keys@);
    let ghost fv = fps@[at@];
    let ghost start = labels@;
    let mut labels = labels;
    let mut first: Option<usize> = None;
    let mut i: usize = 0;
    while i < f.len()
        invariant
            i <= f.len(),
            0 <= at@ < fps@.len(),
            fv == fps@[at@],
            fv == names_view(f@),
            ks == names_view(keys@),
            no_repeats(ks),
            sound(labels@, ks, fps@),
            coarser(start, labels@),
            uniform(labels@, ks, fv, i as int),
            match first {
                Some(x) => x < ks.len() && exists|a: int| 0 <= a < i && #[trigger] fv[a] == ks[x as int],
                None => forall|a: int| 0 <= a < i ==> !ks.contains(#[trigger] fv[a]),
            },
        decreases f.len() - i,
    {
        let ghost before = labels@;
        assert(fv[i as int] == f@[i as int]@);
        match index_of(keys, &f[i]) {
            Some(x) => {
                assert(ks[x as int] == fv[i as int]);
                match first {
                    None => {
                        first = Some(x);
                        assert(uniform(labels@, ks, fv, i + 1)) by {
                            assert forall|p: int, q: int, a: int, b: int|
                                0 <= p < ks.len() && 0 <= q < ks.len() && 0 <= a < i + 1 && 0 <= b
                                    < i + 1 && #[trigger] ks[p] == #[trigger] fv[a]
                                    && #[trigger] ks[q] == #[trigger] fv[b] implies labels@[p]
                                == labels@[q] by {
                                if a < i {
                                    assert(ks.contains(fv[a]));
                                }
                                if b < i {
                                    assert(ks.contains(fv[b]));
                                }
                            }
                        }
                    },
                    Some(y) => {
                        labels = union(labels, y, x);
                        proof {
                            let w = choose|a: int| 0 <= a < i && #[trigger] fv[a] == ks[y as int];
                            assert(fv.contains(fv[w]) && fv.contains(fv[i as int]));
                            assert(ks.contains(ks[x as int]) && ks.contains(ks[y as int]));
                            assert(coarser(before, labels@));
                            lemma_uniform_coarser(before, labels@, ks, fv, i as int);
                            assert forall|label: spec_fn(NameS) -> int, p: int, q: int|
                                #[trigger] agrees(label, ks, fps@) && 0 <= p < ks.len() && 0 <= q
                                    < ks.len() && #[trigger] labels@[p]
                                    == #[trigger] labels@[q] implies label(ks[p]) == label(
                                ks[q],
                            ) by {
                                assert(fps@[at@].contains(ks[x as int]));
                                assert(fps@[at@].contains(ks[y as int]));
                                assert(label(ks[x as int]) == label(ks[y as int]));
                                let bx = before[x as int];
                                let by = before[y as int];
                                if before[p] == bx {
                                    assert(label(ks[p]) == label(ks[x as int]));
                                }
                                if before[q] == bx {
                                    assert(label(ks[q]) == label(ks[x as int]));
                                }
                                if before[p] == by {
                                    assert(label(ks[p]) == label(ks[y as int]));
                                }
                                if before[q] == by {
                                    assert(label(ks[q]) == label(ks[y as int]));
                                }
                            }
                            assert forall|p: int, q: int, a: int, b: int|
                                0 <= p < ks.len() && 0 <= q < ks.len() && 0 <= a < i + 1 && 0 <= b
                                    < i + 1 && #[trigger] ks[p] == #[trigger] fv[a]
                                    && #[trigger] ks[q] == #[trigger] fv[b] implies labels@[p]
                                == labels@[q] by {
                                assert(labels@[y as int] == before[y as int]);
                                assert(labels@[x as int] == labels@[y as int]);
                                if a == i {
                                    assert(p == x);
                                } else {
                                    assert(ks[y as int] == fv[w]);
                                    assert(labels@[p] == labels@[y as int]);
                                }
                                if b == i {
                                    assert(q == x);
                                } else {
                                    assert(ks[y as int] == fv[w]);
                                    assert(labels@[q] == labels@[y as int]);
                                }
                            }
                        }
                    },
                }
            },
            None => {
                assert(uniform(labels@, ks, fv, i + 1)) by {
                    assert forall|p: int, q: int, a: int, b: int|
                        0 <= p < ks.len() && 0 <= q < ks.len() && 0 <= a < i + 1 && 0 <= b < i + 1
                            && #[trigger] ks[p] == #[trigger] fv[a] && #[trigger] ks[q]
                            == #[trigger] fv[b] implies labels@[p] == labels@[q] by {
                        assert(ks.contains(ks[p]) && ks.contains(ks[q]));
                    }
                }
            },
        }
        i = i + 1;
    }
    labels
}

/// A label for each key, one for keys that blocks relate.
fn label_keys(keys: &Vec<Name>, fps: &Vec<Vec<Name>>) -> (r: Vec<usize>)
    requires
        no_repeats(names_view(keys@)),
    ensures
        r@.len() == keys@.len(),
        forall|i: int, j: int|
            0 <= i < r@.len() && 0 <= j < r@.len() ==> (#[trigger] r@[i] == #[trigger] r@[j]
                <==> related(
                names_view(keys@),
                name_lists_view(fps@),
                names_view(keys@)[i],
                names_view(keys@)[j],
            )),
{
    let ghost ks = names_view(keys@);
    let ghost fv = name_lists_view(fps@);
    let mut labels: Vec<usize> = Vec::new();
    let mut i: usize = 0;
    while i < keys.len()
        invariant
            i <= keys.len(),
            labels.len() == i,
            forall|j: int| 0 <= j < i ==> #[trigger] labels@[j] == j,
        decreases keys.len() - i,
    {
        labels.push(i);
        i = i + 1;
    }
    assert(sound(labels@, ks, fv));
    let mut i: usize = 0;
    while i < fps.len()
        invariant
            i <= fps.len(),
            ks == names_view(keys@),
            fv == name_lists_view(fps@),
            no_repeats(ks),
            sound(labels@, ks, fv),
            forall|f: int|
                0 <= f < i ==> uniform(labels@, ks, #[trigger] fv[f], fv[f].len() as int),
        decreases fps.len() - i,
    {
        let ghost before = labels@;
        assert(fv[i as int] == names_view(fps@[i as int]@));
        labels = union_all(keys, labels, &fps[i], Ghost(fv), Ghost(i as int));
        proof {
            assert forall|f: int| 0 <= f < i + 1 implies uniform(
                labels@,
                ks,
                #[trigger] fv[f],
                fv[f].len() as int,
            ) by {
                if f < i {
                    lemma_uniform_coarser(before, labels@, ks, fv[f], fv[f].len() as int);
                }
            }
        }
        i = i + 1;
    }
    proof {
        let l = labels@;
        assert forall|i: int, j: int| 0 <= i < l.len() && 0 <= j < l.len() implies (#[trigger] l[i]
            == #[trigger] l[j] <==> related(ks, fv, ks[i], ks[j])) by {
            if related(ks, fv, ks[i], ks[j]) {
                let label = |n: NameS|
                    l[choose|x: int| 0 <= x < ks.len() && #[trigger] ks[x] == n] as int;
                assert forall|x: int| 0 <= x < ks.len() implies label(#[trigger] ks[x]) == l[x] by {
                    let y = choose|y: int| 0 <= y < ks.len() && #[trigger] ks[y] == ks[x];
                    assert(ks[x] == ks[x]);
                    assert(y == x);
                }
                assert(agrees(label, ks, fv)) by {
                    assert forall|f: int, a: NameS, b: NameS|
                        0 <= f < fv.len() && #[trigger] fv[f].contains(a)
                            && #[trigger] fv[f].contains(b) && ks.contains(a) && ks.contains(
                            b,
                        ) implies label(a) == label(b) by {
                        let x = choose|x: int| 0 <= x < ks.len() && ks[x] == a;
                        let y = choose|y: int| 0 <= y < ks.len() && ks[y] == b;
                        let p = choose|p: int| 0 <= p < fv[f].len() && fv[f][p] == a;
                        let q = choose|q: int| 0 <= q < fv[f].len() && fv[f][q] == b;
                        assert(uniform(l, ks, fv[f], fv[f].len() as int));
                        assert(ks[x] == fv[f][p] && ks[y] == fv[f][q]);
                        assert(l[x] == l[y]);
                        assert(label(ks[x]) == l[x]);
                        assert(label(ks[y]) == l[y]);
                    }
                }
                assert(label(ks[i]) == label(ks[j]));
                assert(label(ks[i]) == l[i]);
                assert(label(ks[j]) == l[j]);
            }
            if l[i] == l[j] {
                assert forall|label: spec_fn(NameS) -> int| #[trigger]
                    agrees(label, ks, fv) implies label(ks[i]) == label(ks[j]) by {}
            }
        }
    }
    labels
}

/// The names that the first names of groups have.
spec fn opened_by(groups: Seq<Vec<Name>>, roots: Seq<usize>, ks: Seq<NameS>, n: int) -> bool {
    groups.len() == roots.len() && forall|g: int|
        0 <= g < groups.len() ==> (#[trigger] groups[g])@.len() > 0 && 0 <= roots[g] < n
            && groups[g]@[0]@ == ks[roots[g] as int]
}

/// The stores of the keys of a list of footprints.
pub fn group_keys(key_names: &Vec<Name>, fps: &Vec<Vec<Name>>) -> (r: Vec<Vec<Name>>)
    requires
        no_repeats(names_view(key_names@)),
    ensures
        name_lists_view(r@) == partitioned(names_view(key_names@), name_lists_view(fps@)),
{
    let ghost ks = names_view(key_names@);
    let ghost fv = name_lists_view(fps@);
    let labels = label_keys(key_names, fps);
    let mut groups: Vec<Vec<Name>> = Vec::new();
    let mut roots: Vec<usize> = Vec::new();
    let mut i: usize = 0;
    assert(name_lists_view(groups@) =~= Seq::empty());
    while i < key_names.len()
        invariant
            i <= key_names.len(),
            ks == names_view(key_names@),
            fv == name_lists_view(fps@),
            labels@.len() == ks.len(),
            forall|p: int, q: int|
                0 <= p < labels@.len() && 0 <= q < labels@.len() ==> (#[trigger] labels@[p]
                    == #[trigger] labels@[q] <==> related(ks, fv, ks[p], ks[q])),
            opened_by(groups@, roots@, ks, i as int),
            name_lists_view(groups@) == partitioned_upto(ks, fv, i as nat),
        decreases key_names.len() - i,
    {
        let ghost gs = name_lists_view(groups@);
        let mut found: Option<usize> = None;
        let mut g: usize = 0;
        while g < roots.len() && found.is_none()
            invariant
                g <= roots.len(),
                i < ks.len(),
                labels@.len() == ks.len(),
                gs == name_lists_view(groups@),
                opened_by(groups@, roots@, ks, i as int),
                forall|p: int, q: int|
                    0 <= p < labels@.len() && 0 <= q < labels@.len() ==> (#[trigger] labels@[p]
                        == #[trigger] labels@[q] <==> related(ks, fv, ks[p], ks[q])),
                match found {
                    Some(x) => x < roots.len() && home(ks, fv, gs, gs.len(), ks[i as int]) == Some(
                        x as int,
                    ),
                    None => home(ks, fv, gs, g as nat, ks[i as int]) is None,
                },
            decreases roots.len() - g + (if found.is_none() { 1int } else { 0int }),
        {
            assert(gs[g as int] == names_view(groups@[g as int]@));
            assert(gs[g as int][0] == ks[roots@[g as int] as int]);
            if labels[roots[g]] == labels[i] {
                found = Some(g);
                proof {
                    lemma_home_stays(ks, fv, gs, (g + 1) as nat, gs.len(), ks[i as int], g as int);
                }
            } else {
                g = g + 1;
            }
        }
        let k = key_names[i].clone();
        match found {
            Some(x) => {
                let ghost old_group = groups@[x as int]@;
                let mut grown = clone_names(&groups[x]);
                grown.push(k);
                let ghost before = groups@;
                groups.set(x, grown);
                assert(names_view(grown@) =~= gs[x as int].push(ks[i as int]));
                assert(name_lists_view(groups@) =~= gs.update(
                    x as int,
                    gs[x as int].push(ks[i as int]),
                ));
                assert forall|h: int| 0 <= h < groups@.len() implies (#[trigger] groups@[h])@.len()
                    > 0 && groups@[h]@[0]@ == ks[roots@[h] as int] by {
                    if h == x {
                        assert(before[h]@.len() > 0);
                        assert(names_view(grown@)[0] == grown@[0]@);
                        assert(gs[x as int][0] == old_group[0]@);
                        assert(before[h]@[0]@ == ks[roots@[h] as int]);
                    } else {
                        assert(groups@[h] == before[h]);
                    }
                }
            },
            None => {
                let mut single: Vec<Name> = Vec::new();
                single.push(k);
                assert(names_view(single@) =~= seq![ks[i as int]]);
                assert(names_view(single@)[0] == single@[0]@);
                let ghost before = groups@;
                let ghost rb = roots@;
                groups.push(single);
                roots.push(i);
                assert forall|h: int| 0 <= h < groups@.len() implies (#[trigger] groups@[h])@.len()
                    > 0 && groups@[h]@[0]@ == ks[roots@[h] as int] by {
                    if h < before.len() {
                        assert(groups@[h] == before[h]);
                        assert(roots@[h] == rb[h]);
                    }
                }
                assert(name_lists_view(groups@) =~= gs.push(seq![ks[i as int]]));
            },
        }
        i = i + 1;
    }
    groups
}

proof fn lemma_home_stays(
    ks: Seq<NameS>,
    fps: Seq<Seq<NameS>>,
    gs: Seq<Seq<NameS>>,
    m: nat,
    n: nat,
    k: NameS,
    g: int,
)
    requires
        m <= n,
        home(ks, fps, gs, m, k) == Some(g),
    ensures
        home(ks, fps, gs, n, k) == Some(g),
    decreases n,
{
    if m < n {
        lemma_home_stays(ks, fps, gs, m, (n - 1) as nat, k, g);
    }
}

/// Every key that a writing site mentions is a key.
pub open spec fn mentions_keys(ks: Seq<NameS>, sites: Seq<SiteS>) -> bool {
    forall|i: int, n: NameS|
        0 <= i < sites.len() && #[trigger] (sites[i].read_keys + sites[i].write_keys).contains(n)
            ==> ks.contains(n)
}

/// Partitions a program's keys into commit stores: keys that some block relates,
/// directly or through other keys, share one. Stores come in the order of their
/// first keys, and keys of a store in their own order.
pub fn partition_keys(
    key_names: &Vec<Name>,
    sites: &Vec<RawSite>,
    read_only_footprints: &Vec<Vec<Name>>,
) -> (r: Vec<Vec<Name>>)
    requires
        no_repeats(names_view(key_names@)),
        mentions_keys(names_view(key_names@), sites_view(sites@)),
    ensures
        name_lists_view(r@) == partitioned(
            names_view(key_names@),
            footprints(sites_view(sites@), name_lists_view(read_only_footprints@)),
        ),
{
    let ghost sv = sites_view(sites@);
    let ghost ro = name_lists_view(read_only_footprints@);
    let ghost want = footprints(sv, ro);
    let mut fps: Vec<Vec<Name>> = Vec::new();
    let mut i: usize = 0;
    while i < sites.len()
        invariant
            i <= sites.len(),
            sv == sites_view(sites@),
            want == footprints(sv, ro),
            fps.len() == i,
            forall|j: int| 0 <= j < i ==> names_view((#[trigger] fps@[j])@) == want[j],
        decreases sites.len() - i,
    {
        let mut f = clone_names(&sites[i].read_keys);
        let mut w = clone_names(&sites[i].write_keys);
        let ghost fv = f@;
        let ghost wv = w@;
        f.append(&mut w);
        assert(names_view(f@) =~= names_view(fv) + names_view(wv));
        assert(sv[i as int] == sites@[i as int].view());
        assert(want[i as int] == sv[i as int].read_keys + sv[i as int].write_keys);
        fps.push(f);
        i = i + 1;
    }
    let mut i: usize = 0;
    while i < read_only_footprints.len()
        invariant
            i <= read_only_footprints.len(),
            sv == sites_view(sites@),
            ro == name_lists_view(read_only_footprints@),
            want == footprints(sv, ro),
            fps.len() == sites.len() + i,
            forall|j: int|
                0 <= j < sites.len() + i ==> names_view((#[trigger] fps@[j])@) == want[j],
        decreases read_only_footprints.len() - i,
    {
        assert(want[sites.len() + i] == ro[i as int]);
        assert(ro[i as int] == names_view(read_only_footprints@[i as int]@));
        fps.push(clone_names(&read_only_footprints[i]));
        i = i + 1;
    }
    assert(name_lists_view(fps@) =~= want);
    group_keys(key_names, &fps)
}

} // verus!
