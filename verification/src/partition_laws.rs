//! The laws of sharing a store: which keys do, and in what order the stores and
//! their keys come.

use vstd::prelude::*;
use crate::name::NameS;
use crate::partition::{agrees, home, no_repeats, partitioned, partitioned_upto, related};

verus! {

/// Sharing is an equivalence: a key shares with itself, sharing holds either
/// way, and it passes on.
pub proof fn law_sharing_is_an_equivalence(
    ks: Seq<NameS>,
    fps: Seq<Seq<NameS>>,
    a: NameS,
    b: NameS,
    c: NameS,
)
    ensures
        related(ks, fps, a, a),
        related(ks, fps, a, b) ==> related(ks, fps, b, a),
        related(ks, fps, a, b) && related(ks, fps, b, c) ==> related(ks, fps, a, c),
{
}

/// Keys that one block touches share a store.
pub proof fn law_keys_of_a_block_share(
    ks: Seq<NameS>,
    fps: Seq<Seq<NameS>>,
    f: int,
    a: NameS,
    b: NameS,
)
    requires
        0 <= f < fps.len(),
        fps[f].contains(a),
        fps[f].contains(b),
        ks.contains(a),
        ks.contains(b),
    ensures
        related(ks, fps, a, b),
{
}

/// Keys that can be told apart without splitting what any block touches do not
/// share a store.
pub proof fn law_separable_keys_do_not_share(
    ks: Seq<NameS>,
    fps: Seq<Seq<NameS>>,
    label: spec_fn(NameS) -> int,
    a: NameS,
    b: NameS,
)
    requires
        agrees(label, ks, fps),
        label(a) != label(b),
    ensures
        !related(ks, fps, a, b),
{
}

/// The place of the key `k`.
pub open spec fn place_of(ks: Seq<NameS>, k: NameS) -> int {
    choose|i: int| 0 <= i < ks.len() && ks[i] == k
}

proof fn lemma_place(ks: Seq<NameS>, i: int)
    requires
        no_repeats(ks),
        0 <= i < ks.len(),
    ensures
        place_of(ks, ks[i]) == i,
{
    let j = place_of(ks, ks[i]);
    assert(0 <= j < ks.len() && ks[j] == ks[i]);
}

/// Whether `gs` are the classes of the first `n` keys under sharing, in the
/// order the keys come.
pub open spec fn classes_of(ks: Seq<NameS>, fps: Seq<Seq<NameS>>, gs: Seq<Seq<NameS>>, n: int) -> bool {
    &&& forall|g: int| 0 <= g < gs.len() ==> (#[trigger] gs[g]).len() > 0
    &&& forall|g: int, j: int|
        0 <= g < gs.len() && 0 <= j < gs[g].len() ==> {
            let k = #[trigger] gs[g][j];
            0 <= place_of(ks, k) < n && ks[place_of(ks, k)] == k && related(ks, fps, gs[g][0], k)
        }
    &&& forall|i: int| 0 <= i < n ==> in_some(gs, #[trigger] ks[i])
    &&& forall|g: int, h: int|
        0 <= g < h < gs.len() ==> !related(ks, fps, #[trigger] gs[g][0], #[trigger] gs[h][0])
            && place_of(ks, gs[g][0]) < place_of(ks, gs[h][0])
    &&& forall|g: int, i: int, j: int|
        0 <= g < gs.len() && 0 <= i < j < gs[g].len() ==> place_of(ks, #[trigger] gs[g][i])
            < place_of(ks, #[trigger] gs[g][j])
}

/// Whether some group holds `k`.
pub open spec fn in_some(gs: Seq<Seq<NameS>>, k: NameS) -> bool {
    exists|g: int| 0 <= g < gs.len() && (#[trigger] gs[g]).contains(k)
}

proof fn lemma_home(ks: Seq<NameS>, fps: Seq<Seq<NameS>>, gs: Seq<Seq<NameS>>, n: nat, k: NameS)
    requires
        n <= gs.len(),
    ensures
        match home(ks, fps, gs, n, k) {
            Some(g) => 0 <= g < n && related(ks, fps, gs[g][0], k),
            None => forall|g: int| 0 <= g < n ==> !related(ks, fps, (#[trigger] gs[g])[0], k),
        },
    decreases n,
{
    if n > 0 {
        lemma_home(ks, fps, gs, (n - 1) as nat, k);
    }
}

proof fn lemma_classes(ks: Seq<NameS>, fps: Seq<Seq<NameS>>, n: nat)
    requires
        no_repeats(ks),
        n <= ks.len(),
    ensures
        classes_of(ks, fps, partitioned_upto(ks, fps, n), n as int),
    decreases n,
{
    if n > 0 {
        lemma_classes(ks, fps, (n - 1) as nat);
        let gs = partitioned_upto(ks, fps, (n - 1) as nat);
        let k = ks[n - 1];
        lemma_home(ks, fps, gs, gs.len(), k);
        lemma_place(ks, n - 1);
        match home(ks, fps, gs, gs.len(), k) {
            Some(g) => lemma_class_grows(ks, fps, gs, n as int, g),
            None => lemma_class_opens(ks, fps, gs, n as int),
        }
    }
}

proof fn lemma_class_grows(
    ks: Seq<NameS>,
    fps: Seq<Seq<NameS>>,
    gs: Seq<Seq<NameS>>,
    n: int,
    at: int,
)
    requires
        0 < n <= ks.len(),
        classes_of(ks, fps, gs, n - 1),
        place_of(ks, ks[n - 1]) == n - 1,
        0 <= at < gs.len(),
        related(ks, fps, gs[at][0], ks[n - 1]),
    ensures
        classes_of(ks, fps, gs.update(at, gs[at].push(ks[n - 1])), n),
{
    let k = ks[n - 1];
    let out = gs.update(at, gs[at].push(k));
    assert forall|g: int| 0 <= g < out.len() implies (#[trigger] out[g]).len() > 0 && out[g][0]
        == gs[g][0] by {
        assert(gs[g].len() > 0);
    }
    assert forall|g: int, j: int| 0 <= g < out.len() && 0 <= j < out[g].len() implies {
        let m = #[trigger] out[g][j];
        0 <= place_of(ks, m) < n && ks[place_of(ks, m)] == m && related(ks, fps, out[g][0], m)
    } by {
        assert(out[g][0] == gs[g][0]);
        if g == at && j == gs[at].len() {
            assert(out[g][j] == k);
        } else {
            assert(out[g][j] == gs[g][j]);
        }
    }
    assert forall|i: int| 0 <= i < n implies in_some(out, #[trigger] ks[i]) by {
        if i < n - 1 {
            assert(in_some(gs, ks[i]));
            let g = choose|g: int| 0 <= g < gs.len() && (#[trigger] gs[g]).contains(ks[i]);
            let j = choose|j: int| 0 <= j < gs[g].len() && gs[g][j] == ks[i];
            assert(out[g][j] == ks[i]);
            assert(out[g].contains(ks[i]));
        } else {
            assert(out[at][gs[at].len() as int] == k);
            assert(out[at].contains(k));
        }
    }
    assert forall|g: int, h: int| 0 <= g < h < out.len() implies !related(
        ks,
        fps,
        #[trigger] out[g][0],
        #[trigger] out[h][0],
    ) && place_of(ks, out[g][0]) < place_of(ks, out[h][0]) by {
        assert(out[g].len() > 0 && out[h].len() > 0);
        assert(out[g][0] == gs[g][0] && out[h][0] == gs[h][0]);
    }
    assert forall|g: int, i: int, j: int| 0 <= g < out.len() && 0 <= i < j < out[g].len() implies place_of(
        ks,
        #[trigger] out[g][i],
    ) < place_of(ks, #[trigger] out[g][j]) by {
        assert(out[g][i] == gs[g][i]);
        if g == at && j == gs[at].len() {
            assert(place_of(ks, gs[g][i]) < n - 1);
        } else {
            assert(out[g][j] == gs[g][j]);
        }
    }
}

proof fn lemma_class_opens(ks: Seq<NameS>, fps: Seq<Seq<NameS>>, gs: Seq<Seq<NameS>>, n: int)
    requires
        0 < n <= ks.len(),
        classes_of(ks, fps, gs, n - 1),
        place_of(ks, ks[n - 1]) == n - 1,
        forall|g: int| 0 <= g < gs.len() ==> !related(ks, fps, (#[trigger] gs[g])[0], ks[n - 1]),
    ensures
        classes_of(ks, fps, gs.push(seq![ks[n - 1]]), n),
{
    let k = ks[n - 1];
    let out = gs.push(seq![k]);
    assert forall|i: int| 0 <= i < n implies in_some(out, #[trigger] ks[i]) by {
        if i < n - 1 {
            assert(in_some(gs, ks[i]));
            let g = choose|g: int| 0 <= g < gs.len() && (#[trigger] gs[g]).contains(ks[i]);
            assert(out[g] == gs[g]);
        } else {
            assert(out[gs.len() as int][0] == k);
            assert(out[gs.len() as int].contains(k));
        }
    }
    assert forall|g: int, j: int| 0 <= g < out.len() && 0 <= j < out[g].len() implies {
        let m = #[trigger] out[g][j];
        0 <= place_of(ks, m) < n && ks[place_of(ks, m)] == m && related(ks, fps, out[g][0], m)
    } by {
        if g < gs.len() {
            assert(out[g][j] == gs[g][j]);
        }
    }
    assert forall|g: int, h: int| 0 <= g < h < out.len() implies !related(
        ks,
        fps,
        #[trigger] out[g][0],
        #[trigger] out[h][0],
    ) && place_of(ks, out[g][0]) < place_of(ks, out[h][0]) by {
        assert(out[g] == gs[g]);
        assert(gs[g].len() > 0);
        if h < gs.len() {
            assert(out[h] == gs[h]);
            assert(!related(ks, fps, gs[g][0], gs[h][0]));
        } else {
            assert(0 <= place_of(ks, gs[g][0]) < n - 1);
        }
    }
    assert forall|g: int, i: int, j: int| 0 <= g < out.len() && 0 <= i < j < out[g].len() implies place_of(
        ks,
        #[trigger] out[g][i],
    ) < place_of(ks, #[trigger] out[g][j]) by {
        assert(g < gs.len());
        assert(out[g] == gs[g]);
        assert(place_of(ks, gs[g][i]) < place_of(ks, gs[g][j]));
    }
}

/// The stores are the classes of keys under sharing: each holds keys and no
/// two hold keys that share, every key is in one, and stores and keys come in
/// the order the keys were declared.
pub proof fn law_stores_are_the_classes(ks: Seq<NameS>, fps: Seq<Seq<NameS>>)
    requires
        no_repeats(ks),
    ensures
        classes_of(ks, fps, partitioned(ks, fps), ks.len() as int),
{
    lemma_classes(ks, fps, ks.len());
}

/// Two keys are in one store exactly where they share.
pub proof fn law_one_store_means_sharing(
    ks: Seq<NameS>,
    fps: Seq<Seq<NameS>>,
    g: int,
    h: int,
    a: NameS,
    b: NameS,
)
    requires
        no_repeats(ks),
        0 <= g < partitioned(ks, fps).len(),
        0 <= h < partitioned(ks, fps).len(),
        partitioned(ks, fps)[g].contains(a),
        partitioned(ks, fps)[h].contains(b),
    ensures
        (g == h) == related(ks, fps, a, b),
{
    let gs = partitioned(ks, fps);
    lemma_classes(ks, fps, ks.len());
    let i = choose|i: int| 0 <= i < gs[g].len() && gs[g][i] == a;
    let j = choose|j: int| 0 <= j < gs[h].len() && gs[h][j] == b;
    assert(related(ks, fps, gs[g][0], gs[g][i]));
    assert(related(ks, fps, gs[h][0], gs[h][j]));
    assert(gs[g].len() > 0 && gs[h].len() > 0);
    if g < h {
        assert(!related(ks, fps, gs[g][0], gs[h][0]));
    }
    if h < g {
        assert(!related(ks, fps, gs[h][0], gs[g][0]));
    }
}

} // verus!
