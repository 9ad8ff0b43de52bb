//! A map keyed by names, held in the order of its keys.
use vstd::prelude::*;
use crate::name::{
    Name, NameS, lemma_name_lt_irreflexive, lemma_name_lt_total, lemma_name_lt_transitive,
    names_view,
};

verus! {

/// Whether some entry has the key `n`.
pub open spec fn has_key<V>(s: Seq<(Name, V)>, n: NameS) -> bool {
    exists|i: int| 0 <= i < s.len() && (#[trigger] s[i]).0@ == n
}

/// The position of the entry with key `n`.
pub open spec fn key_at<V>(s: Seq<(Name, V)>, n: NameS) -> int {
    choose|i: int| 0 <= i < s.len() && (#[trigger] s[i]).0@ == n
}

/// The keys come in strictly ascending order.
pub open spec fn ascending<V>(s: Seq<(Name, V)>) -> bool {
    forall|i: int, j: int| 0 <= i < j < s.len() ==> (#[trigger] s[i]).0@.lt((#[trigger] s[j]).0@)
}

/// The names come in strictly ascending order, so each comes once.
pub open spec fn names_ascending(s: Seq<NameS>) -> bool {
    forall|i: int, j: int| 0 <= i < j < s.len() ==> (#[trigger] s[i]).lt(#[trigger] s[j])
}

/// A map from names to values.
pub struct NameMap<V> {
    entries: Vec<(Name, V)>,
}

impl<V> NameMap<V> {
    #[verifier::type_invariant]
    spec fn ordered(self) -> bool {
        ascending(self.entries@)
    }

    pub closed spec fn view(&self) -> Map<NameS, V> {
        Map::new(|n: NameS| has_key(self.entries@, n), |n: NameS| self.entries@[key_at(self.entries@, n)].1)
    }

    /// The keys, in ascending order.
    pub closed spec fn keys_view(&self) -> Seq<NameS> {
        Seq::new(self.entries@.len(), |i: int| self.entries@[i].0@)
    }

    /// The empty map.
    pub fn new() -> (r: NameMap<V>)
        ensures
            r.view() == Map::<NameS, V>::empty(),
    {
        let out = NameMap { entries: Vec::new() };
        assert(out.view() =~= Map::<NameS, V>::empty());
        out
    }

    proof fn lemma_entry(s: Seq<(Name, V)>, i: int)
        requires
            ascending(s),
            0 <= i < s.len(),
        ensures
            has_key(s, s[i].0@),
            key_at(s, s[i].0@) == i,
    {
        let k = key_at(s, s[i].0@);
        assert(s[i].0@ == s[i].0@);
        assert(0 <= k < s.len() && s[k].0@ == s[i].0@);
        lemma_name_lt_irreflexive(s[i].0@);
        if k < i {
            assert(s[k].0@.lt(s[i].0@));
        }
        if i < k {
            assert(s[i].0@.lt(s[k].0@));
        }
    }

    /// The number of keys: each key is listed once, in ascending order.
    pub fn len(&self) -> (r: usize)
        ensures
            r == self.keys_view().len(),
            forall|n: NameS| self.view().dom().contains(n) <==> self.keys_view().contains(n),
            forall|i: int, j: int|
                0 <= i < j < self.keys_view().len() ==> (#[trigger] self.keys_view()[i]).lt(
                    #[trigger] self.keys_view()[j],
                ),
    {
        proof {
            use_type_invariant(self);
            assert forall|n: NameS| self.view().dom().contains(n) <==> self.keys_view().contains(n) by {
                if has_key(self.entries@, n) {
                    assert(self.keys_view()[key_at(self.entries@, n)] == n);
                }
                if self.keys_view().contains(n) {
                    let i = choose|i: int|
                        0 <= i < self.keys_view().len() && self.keys_view()[i] == n;
                    assert(self.entries@[i].0@ == n);
                }
            }
        }
        self.entries.len()
    }

    /// Whether there is no key.
    pub fn is_empty(&self) -> (r: bool)
        ensures
            r == (self.view() == Map::<NameS, V>::empty()),
    {
        proof {
            if self.entries@.len() == 0 {
                assert(self.view() =~= Map::<NameS, V>::empty());
            } else {
                assert(has_key(self.entries@, self.entries@[0].0@));
                assert(self.view().dom().contains(self.entries@[0].0@));
            }
        }
        self.entries.len() == 0
    }

    /// The key at position `i`.
    pub fn key(&self, i: usize) -> (r: &Name)
        requires
            i < self.keys_view().len(),
        ensures
            r@ == self.keys_view()[i as int],
            self.view().dom().contains(r@),
    {
        proof {
            assert(has_key(self.entries@, self.entries@[i as int].0@));
        }
        &self.entries[i].0
    }

    /// The value at position `i`.
    pub fn value(&self, i: usize) -> (r: &V)
        requires
            i < self.keys_view().len(),
        ensures
            self.view().dom().contains(self.keys_view()[i as int]),
            *r == self.view()[self.keys_view()[i as int]],
    {
        proof {
            use_type_invariant(self);
            Self::lemma_entry(self.entries@, i as int);
        }
        &self.entries[i].1
    }

    /// The keys, in ascending order.
    pub fn keys(&self) -> (r: Vec<Name>)
        ensures
            names_view(r@) == self.keys_view(),
            forall|n: NameS| self.view().dom().contains(n) <==> self.keys_view().contains(n),
            names_ascending(self.keys_view()),
    {
        let n: usize = self.len();
        let mut out: Vec<Name> = Vec::new();
        let mut i: usize = 0;
        while i < n
            invariant
                i <= n,
                n == self.keys_view().len(),
                out.len() == i,
                forall|j: int| 0 <= j < i ==> (#[trigger] out@[j])@ == self.keys_view()[j],
            decreases n - i,
        {
            out.push(self.key(i).clone());
            i = i + 1;
        }
        assert(names_view(out@) =~= self.keys_view());
        out
    }

    /// The value at `n`.
    pub fn get(&self, n: &Name) -> (r: Option<&V>)
        ensures
            match r {
                Some(v) => self.view().dom().contains(n@) && *v == self.view()[n@],
                None => !self.view().dom().contains(n@),
            },
    {
        let mut i: usize = 0;
        while i < self.entries.len()
            invariant
                i <= self.entries.len(),
                forall|j: int| 0 <= j < i ==> (#[trigger] self.entries@[j]).0@ != n@,
            decreases self.entries.len() - i,
        {
            if self.entries[i].0.same(n) {
                proof {
                    use_type_invariant(self);
                    Self::lemma_entry(self.entries@, i as int);
                }
                return Some(&self.entries[i].1);
            }
            i = i + 1;
        }
        None
    }

    /// Whether `n` is a key.
    pub fn contains_key(&self, n: &Name) -> (r: bool)
        ensures
            r == self.view().dom().contains(n@),
    {
        match self.get(n) {
            Some(_) => true,
            None => false,
        }
    }

    /// This map with `n` at `v`.
    pub fn inserted(self, n: Name, v: V) -> (r: NameMap<V>)
        ensures
            r.view() == self.view().insert(n@, v),
    {
        proof {
            use_type_invariant(&self);
        }
        let ghost before = self.entries@;
        let ghost old_view = self.view();
        let mut entries = self.entries;
        let mut i: usize = 0;
        while i < entries.len() && entries[i].0.before(&n)
            invariant
                i <= entries.len(),
                entries@ == before,
                forall|j: int| 0 <= j < i ==> (#[trigger] before[j]).0@.lt(n@),
            decreases entries.len() - i,
        {
            i = i + 1;
        }
        let ghost nn = n@;
        proof {
            assert forall|j: int| i <= j < before.len() && (i < before.len() ==> !before[i as int].0@.lt(nn)) implies before[i as int].0@ == (#[trigger] before[j]).0@ || before[i as int].0@.lt(before[j].0@) by {}
        }
        if i < entries.len() && entries[i].0.same(&n) {
            let _ = entries.remove(i);
            entries.insert(i, (n, v));
        } else {
            proof {
                assert forall|j: int| i <= j < before.len() implies nn.lt((#[trigger] before[j]).0@) by {
                    lemma_name_lt_total(nn, before[i as int].0@);
                    if j > i {
                        lemma_name_lt_transitive(nn, before[i as int].0@, before[j].0@);
                    }
                }
            }
            entries.insert(i, (n, v));
        }
        let ghost after = entries@;
        proof {
            assert(after[i as int] == (n, v));
            assert(ascending(after));
        }
        let out = NameMap { entries };
        proof {
            let shift: int = if after.len() == before.len() { 0 } else { 1 };
            assert forall|k: NameS| has_key(after, k) == (has_key(before, k) || k == nn) by {
                if has_key(before, k) {
                    let p = key_at(before, k);
                    if p < i {
                        assert(after[p].0@ == k);
                    } else {
                        assert(after[p + shift].0@ == k);
                    }
                }
                if k == nn {
                    assert(after[i as int].0@ == k);
                }
                if has_key(after, k) {
                    let p = key_at(after, k);
                    if p < i {
                        assert(before[p].0@ == k);
                    } else if p > i {
                        assert(before[p - shift].0@ == k);
                    }
                }
            }
            assert forall|k: NameS| has_key(after, k) implies after[key_at(after, k)].1 == (if k == nn {
                v
            } else {
                before[key_at(before, k)].1
            }) by {
                let p = key_at(after, k);
                Self::lemma_entry(after, i as int);
                if p < i {
                    Self::lemma_entry(before, p);
                } else if p > i {
                    Self::lemma_entry(before, p - shift);
                }
            }
            assert(out.view() =~= old_view.insert(nn, v));
        }
        out
    }

}

/// The names of a set in ascending order.
pub open spec fn sorted_names(s: Set<NameS>) -> Seq<NameS> {
    choose|k: Seq<NameS>| #[trigger]
        names_ascending(k) && forall|n: NameS| k.contains(n) <==> s.contains(n)
}

/// A set has one ascending list.
pub proof fn lemma_ascending_unique(a: Seq<NameS>, b: Seq<NameS>)
    requires
        names_ascending(a),
        names_ascending(b),
        forall|n: NameS| a.contains(n) <==> b.contains(n),
    ensures
        a == b,
    decreases a.len(),
{
    if a.len() == 0 {
        if b.len() > 0 {
            assert(b.contains(b[0]));
        }
        assert(a =~= b);
    } else {
        assert(a.contains(a.last()));
        assert(b.contains(a.last()));
        let j = choose|j: int| 0 <= j < b.len() && b[j] == a.last();
        assert(b.contains(b.last()));
        assert(a.contains(b.last()));
        let i = choose|i: int| 0 <= i < a.len() && a[i] == b.last();
        if a.last() != b.last() {
            assert(b[j].lt(b[b.len() - 1]));
            assert(a[i].lt(a[a.len() - 1]));
            lemma_name_lt_transitive(a.last(), b.last(), a.last());
            lemma_name_lt_irreflexive(a.last());
        }
        let c = a.drop_last();
        let d = b.drop_last();
        assert forall|n: NameS| c.contains(n) <==> d.contains(n) by {
            if c.contains(n) {
                let x = choose|x: int| 0 <= x < c.len() && c[x] == n;
                assert(a[x] == n);
                assert(a[x].lt(a[a.len() - 1]));
                lemma_name_lt_irreflexive(n);
                assert(b.contains(n));
                let y = choose|y: int| 0 <= y < b.len() && b[y] == n;
                assert(y < b.len() - 1);
                assert(d[y] == n);
            }
            if d.contains(n) {
                let x = choose|x: int| 0 <= x < d.len() && d[x] == n;
                assert(b[x] == n);
                assert(b[x].lt(b[b.len() - 1]));
                lemma_name_lt_irreflexive(n);
                assert(a.contains(n));
                let y = choose|y: int| 0 <= y < a.len() && a[y] == n;
                assert(y < a.len() - 1);
                assert(c[y] == n);
            }
        }
        lemma_ascending_unique(c, d);
        assert(a =~= c.push(a.last()));
        assert(b =~= d.push(b.last()));
    }
}

pub proof fn lemma_sorted_names(k: Seq<NameS>, s: Set<NameS>)
    requires
        names_ascending(k),
        forall|n: NameS| k.contains(n) <==> s.contains(n),
    ensures
        sorted_names(s) == k,
{
    let c = sorted_names(s);
    assert(names_ascending(c) && forall|n: NameS| c.contains(n) <==> s.contains(n));
    lemma_ascending_unique(c, k);
}

} // verus!
