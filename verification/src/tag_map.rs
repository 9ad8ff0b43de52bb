//! The arms of a tagged sum, keyed by tag and held in the order of the tags.

use vstd::prelude::*;
use crate::ast::{FieldKey, FieldKeyS};
use crate::text::{
    lemma_text_lt_irreflexive, lemma_text_lt_total, lemma_text_lt_transitive, text_before,
    text_lt,
};

verus! {

/// The order of tags: positions by number, before names by spelling.
pub open spec fn key_lt(a: FieldKeyS, b: FieldKeyS) -> bool {
    match (a, b) {
        (FieldKeyS::Index(m), FieldKeyS::Index(n)) => m < n,
        (FieldKeyS::Index(_), FieldKeyS::Name(_)) => true,
        (FieldKeyS::Name(_), FieldKeyS::Index(_)) => false,
        (FieldKeyS::Name(s), FieldKeyS::Name(t)) => text_lt(s, t),
    }
}

/// No tag comes before itself.
pub proof fn lemma_key_lt_irreflexive(a: FieldKeyS)
    ensures
        !key_lt(a, a),
{
    match a {
        FieldKeyS::Name(s) => lemma_text_lt_irreflexive(s),
        _ => {},
    }
}

/// Of two tags one comes first, or they are one.
pub proof fn lemma_key_lt_total(a: FieldKeyS, b: FieldKeyS)
    ensures
        key_lt(a, b) || key_lt(b, a) || a == b,
{
    match (a, b) {
        (FieldKeyS::Name(s), FieldKeyS::Name(t)) => lemma_text_lt_total(s, t),
        _ => {},
    }
}

/// A tag before a second, itself before a third, comes before the third.
pub proof fn lemma_key_lt_transitive(a: FieldKeyS, b: FieldKeyS, c: FieldKeyS)
    requires
        key_lt(a, b),
        key_lt(b, c),
    ensures
        key_lt(a, c),
{
    match (a, b, c) {
        (FieldKeyS::Name(r), FieldKeyS::Name(s), FieldKeyS::Name(t)) => lemma_text_lt_transitive(
            r,
            s,
            t,
        ),
        _ => {},
    }
}

impl FieldKey {
    /// Whether this tag comes before `other`.
    pub fn before(&self, other: &FieldKey) -> (r: bool)
        ensures
            r == key_lt(self.view(), other.view()),
    {
        match (self, other) {
            (FieldKey::Index(m), FieldKey::Index(n)) => *m < *n,
            (FieldKey::Index(_), FieldKey::Name(_)) => true,
            (FieldKey::Name(_), FieldKey::Index(_)) => false,
            (FieldKey::Name(s), FieldKey::Name(t)) => text_before(s.as_str(), t.as_str()),
        }
    }
}

/// The arms of a tagged sum, in the order of their tags.
pub struct TagMap<T> {
    pub arms: Vec<(FieldKey, T)>,
}

/// The arms with their tags as they read.
pub open spec fn tagged_view<T>(arms: Seq<(FieldKey, T)>) -> Seq<(FieldKeyS, T)> {
    Seq::new(arms.len(), |i: int| (arms[i].0.view(), arms[i].1))
}

/// The tags come in strictly ascending order, so each comes once.
pub open spec fn tags_ascending<T>(s: Seq<(FieldKeyS, T)>) -> bool {
    forall|i: int, j: int| 0 <= i < j < s.len() ==> key_lt((#[trigger] s[i]).0, (#[trigger] s[j]).0)
}

/// No tag comes twice.
pub open spec fn tags_distinct<T>(s: Seq<(FieldKeyS, T)>) -> bool {
    forall|i: int, j: int| 0 <= i < j < s.len() ==> (#[trigger] s[i]).0 != (#[trigger] s[j]).0
}

/// The tags, in order.
pub open spec fn tags_of<T>(s: Seq<(FieldKeyS, T)>) -> Seq<FieldKeyS> {
    Seq::new(s.len(), |i: int| s[i].0)
}

/// Whether some arm has the tag `k`.
pub open spec fn has_tag<T>(s: Seq<(FieldKeyS, T)>, k: FieldKeyS) -> bool {
    exists|i: int| 0 <= i < s.len() && (#[trigger] s[i]).0 == k
}

/// The place of the arm tagged `k`.
pub open spec fn tag_at<T>(s: Seq<(FieldKeyS, T)>, k: FieldKeyS) -> int {
    choose|i: int| 0 <= i < s.len() && (#[trigger] s[i]).0 == k
}

/// Where `k` belongs: before it the smaller tags, from it on the greater.
pub open spec fn splits_at<T>(s: Seq<(FieldKeyS, T)>, k: FieldKeyS, n: int) -> bool {
    &&& 0 <= n <= s.len()
    &&& forall|i: int| 0 <= i < n ==> key_lt((#[trigger] s[i]).0, k)
    &&& forall|i: int| n <= i < s.len() ==> key_lt(k, (#[trigger] s[i]).0)
}

/// The arms of `a` whose tags `b` has, each with the arm of `b`.
pub open spec fn matched<T, U>(a: Seq<(FieldKeyS, T)>, b: Seq<(FieldKeyS, U)>) -> Seq<
    (FieldKeyS, T, U),
>
    decreases a.len(),
{
    if a.len() == 0 {
        Seq::empty()
    } else {
        let rest = matched(a.drop_last(), b);
        if has_tag(b, a.last().0) {
            rest.push((a.last().0, a.last().1, b[tag_at(b, a.last().0)].1))
        } else {
            rest
        }
    }
}

/// The triples as they read.
pub open spec fn matches_view<T, U>(v: Seq<(&FieldKey, &T, &U)>) -> Seq<(FieldKeyS, T, U)> {
    Seq::new(v.len(), |i: int| (v[i].0.view(), *v[i].1, *v[i].2))
}

proof fn lemma_tag_once<T>(s: Seq<(FieldKeyS, T)>, i: int, j: int)
    requires
        tags_ascending(s),
        0 <= i < s.len(),
        0 <= j < s.len(),
        s[i].0 == s[j].0,
    ensures
        i == j,
{
    lemma_key_lt_irreflexive(s[i].0);
    if i < j {
        assert(key_lt(s[i].0, s[j].0));
    }
    if j < i {
        assert(key_lt(s[j].0, s[i].0));
    }
}

/// Two maps of the same arms are one: the order of the tags fixes the rest.
pub proof fn law_arms_fix_the_map<T>(s: Seq<(FieldKeyS, T)>, t: Seq<(FieldKeyS, T)>)
    requires
        tags_ascending(s),
        tags_ascending(t),
        s.to_multiset() == t.to_multiset(),
    ensures
        s == t,
    decreases s.len(),
{
    broadcast use vstd::seq_lib::group_to_multiset_ensures;

    assert(s.len() == s.to_multiset().len());
    assert(t.len() == t.to_multiset().len());
    if s.len() > 0 {
        let n = s.len() - 1;
        // The last arms carry the greatest tags, so they are one arm.
        assert(s.to_multiset().count(s[n]) > 0);
        assert(t.contains(s[n]));
        let i = choose|i: int| 0 <= i < t.len() && t[i] == s[n];
        assert(t.to_multiset().count(t[n]) > 0);
        assert(s.contains(t[n]));
        let j = choose|j: int| 0 <= j < s.len() && s[j] == t[n];
        if i < n && j < n {
            assert(key_lt(t[i].0, t[n].0));
            assert(key_lt(s[j].0, s[n].0));
            lemma_key_lt_transitive(t[i].0, t[n].0, s[n].0);
            lemma_key_lt_irreflexive(s[n].0);
        }
        assert(s[n] == t[n]);
        let s0 = s.drop_last();
        let t0 = t.drop_last();
        assert(s0.push(s[n]) =~= s);
        assert(t0.push(t[n]) =~= t);
        assert(s.to_multiset() =~= s0.to_multiset().insert(s[n]));
        assert(t.to_multiset() =~= t0.to_multiset().insert(t[n]));
        assert(s0.to_multiset() =~= s.to_multiset().remove(s[n]));
        assert(t0.to_multiset() =~= t.to_multiset().remove(t[n]));
        law_arms_fix_the_map(s0, t0);
    } else {
        assert(s =~= t);
    }
}

impl<T> TagMap<T> {
    pub open spec fn view(&self) -> Seq<(FieldKeyS, T)> {
        tagged_view(self.arms@)
    }

    /// The tags are in order.
    pub open spec fn wf(&self) -> bool {
        tags_ascending(self.view())
    }

    /// No arms.
    pub fn new() -> (r: TagMap<T>)
        ensures
            r.wf(),
            r.view() == Seq::<(FieldKeyS, T)>::empty(),
    {
        let out = TagMap { arms: Vec::new() };
        assert(out.view() =~= Seq::empty());
        out
    }

    /// The arms of a sum without names: each tagged by its position.
    pub fn from_positional(arms: Vec<T>) -> (r: TagMap<T>)
        ensures
            r.wf(),
            r.view() == Seq::new(
                arms@.len(),
                |i: int| (FieldKeyS::Index(i as usize), arms@[i]),
            ),
    {
        let mut arms = arms;
        let ghost whole = arms@;
        let n: usize = arms.len();
        let mut out: Vec<(FieldKey, T)> = Vec::new();
        let mut i: usize = 0;
        assert(arms@ =~= whole.skip(0));
        while i < n
            invariant
                i <= n,
                n == whole.len(),
                arms@ == whole.skip(i as int),
                out.len() == i,
                forall|j: int|
                    0 <= j < i ==> (#[trigger] out@[j]).0 == FieldKey::Index(j as usize)
                        && out@[j].1 == whole[j],
            decreases n - i,
        {
            let t = arms.remove(0);
            assert(arms@ =~= whole.skip(i + 1));
            out.push((FieldKey::Index(i), t));
            i = i + 1;
        }
        let res = TagMap { arms: out };
        assert(res.view() =~= Seq::new(
            whole.len(),
            |i: int| (FieldKeyS::Index(i as usize), whole[i]),
        ));
        res
    }

    /// The arms in order, without their tags.
    pub fn into_values(self) -> (r: Vec<T>)
        ensures
            r@ == Seq::new(self.view().len(), |i: int| self.view()[i].1),
    {
        let ghost whole = self.arms@;
        let mut arms = self.arms;
        let n: usize = arms.len();
        let mut out: Vec<T> = Vec::new();
        let mut i: usize = 0;
        assert(arms@ =~= whole.skip(0));
        while i < n
            invariant
                i <= n,
                n == whole.len(),
                arms@ == whole.skip(i as int),
                out.len() == i,
                forall|j: int| 0 <= j < i ==> #[trigger] out@[j] == whole[j].1,
            decreases n - i,
        {
            let (k, t) = arms.remove(0);
            assert(arms@ =~= whole.skip(i + 1));
            out.push(t);
            i = i + 1;
        }
        assert(out@ =~= Seq::new(self.view().len(), |i: int| self.view()[i].1));
        out
    }

    /// Where `key` is, or where it belongs.
    fn search(&self, key: &FieldKey) -> (r: Result<usize, usize>)
        requires
            self.wf(),
        ensures
            match r {
                Ok(i) => i < self.view().len() && self.view()[i as int].0 == key.view(),
                Err(i) => splits_at(self.view(), key.view(), i as int),
            },
    {
        let ghost s = self.view();
        let ghost k = key.view();
        let mut lo: usize = 0;
        let mut hi: usize = self.arms.len();
        while lo < hi
            invariant
                lo <= hi <= self.arms@.len(),
                s == self.view(),
                k == key.view(),
                tags_ascending(s),
                forall|i: int| 0 <= i < lo ==> key_lt((#[trigger] s[i]).0, k),
                forall|i: int| hi <= i < s.len() ==> key_lt(k, (#[trigger] s[i]).0),
            decreases hi - lo,
        {
            let mid: usize = lo + (hi - lo) / 2;
            assert(s[mid as int].0 == self.arms@[mid as int].0.view());
            if self.arms[mid].0.before(key) {
                proof {
                    assert forall|i: int| 0 <= i < mid + 1 implies key_lt((#[trigger] s[i]).0, k) by {
                        if i < mid {
                            lemma_key_lt_transitive(s[i].0, s[mid as int].0, k);
                        }
                    }
                }
                lo = mid + 1;
            } else if key.before(&self.arms[mid].0) {
                proof {
                    assert forall|i: int| mid <= i < s.len() implies key_lt(k, (#[trigger] s[i]).0) by {
                        if mid < i {
                            lemma_key_lt_transitive(k, s[mid as int].0, s[i].0);
                        }
                    }
                }
                hi = mid;
            } else {
                proof {
                    lemma_key_lt_total(s[mid as int].0, k);
                }
                return Ok(mid);
            }
        }
        Err(lo)
    }

    /// Adds an arm whose tag is not there yet.
    fn insert_new(&mut self, key: FieldKey, value: T) -> (r: usize)
        requires
            old(self).wf(),
            !has_tag(old(self).view(), key.view()),
        ensures
            final(self).wf(),
            splits_at(old(self).view(), key.view(), r as int),
            final(self).view() == old(self).view().insert(r as int, (key.view(), value)),
    {
        let ghost s = self.view();
        let ghost k = key.view();
        let i: usize = match self.search(&key) {
            Ok(i) => i,
            Err(i) => i,
        };
        let ghost before = self.arms@;
        self.arms.insert(i, (key, value));
        let ghost t = self.view();
        proof {
            assert(t =~= s.insert(i as int, (k, value)));
            assert forall|a: int, b: int| 0 <= a < b < t.len() implies key_lt(
                (#[trigger] t[a]).0,
                (#[trigger] t[b]).0,
            ) by {
                let a0 = if a < i { a } else { a - 1 };
                let b0 = if b < i { b } else { b - 1 };
                if a != i {
                    assert(t[a] == s[a0]);
                }
                if b != i {
                    assert(t[b] == s[b0]);
                }
            }
        }
        i
    }

    /// The arms of `arms`, put in order.
    pub fn from_arms(arms: Vec<(FieldKey, T)>) -> (r: TagMap<T>)
        requires
            tags_distinct(tagged_view(arms@)),
        ensures
            r.wf(),
            r.view().to_multiset() == tagged_view(arms@).to_multiset(),
    {
        let mut arms = arms;
        let ghost whole = tagged_view(arms@);
        let n: usize = arms.len();
        let mut out = TagMap { arms: Vec::new() };
        let mut i: usize = 0;
        proof {
            assert(out.view() =~= Seq::empty());
            assert(whole.take(0) =~= Seq::empty());
            assert(whole.skip(0) =~= whole);
        }
        while i < n
            invariant
                i <= n,
                n == whole.len(),
                tags_distinct(whole),
                tagged_view(arms@) == whole.skip(i as int),
                out.wf(),
                out.view().to_multiset() == whole.take(i as int).to_multiset(),
            decreases n - i,
        {
            let ghost rest = tagged_view(arms@);
            let ghost before = out.view();
            assert(rest[0] == whole[i as int]);
            assert(arms@.len() == rest.len());
            let ghost old_arms = arms@;
            let (k, t) = arms.remove(0);
            assert(rest[0] == (k.view(), t));
            assert(arms@ =~= old_arms.skip(1));
            assert(tagged_view(arms@) =~= rest.skip(1));
            assert(tagged_view(arms@) =~= whole.skip(i + 1));
            proof {
                lemma_not_among(whole, i as int, before);
            }
            let at: usize = out.insert_new(k, t);
            proof {
                broadcast use vstd::seq_lib::group_to_multiset_ensures;

                assert(out.view().to_multiset() =~= before.to_multiset().insert(whole[i as int]));
                assert(whole.take(i + 1) =~= whole.take(i as int).push(whole[i as int]));
            }
            i = i + 1;
        }
        assert(whole.take(i as int) =~= whole);
        out
    }

    /// The place of the arm tagged `key`.
    pub fn position(&self, key: &FieldKey) -> (r: Option<usize>)
        requires
            self.wf(),
        ensures
            match r {
                Some(i) => i < self.view().len() && self.view()[i as int].0 == key.view(),
                None => !has_tag(self.view(), key.view()),
            },
    {
        match self.search(key) {
            Ok(i) => Some(i),
            Err(i) => {
                proof {
                    lemma_split_absent(self.view(), key.view(), i as int);
                }
                None
            },
        }
    }

    /// The arm tagged `key`.
    pub fn get(&self, key: &FieldKey) -> (r: Option<&T>)
        requires
            self.wf(),
        ensures
            match r {
                Some(t) => self.view().contains((key.view(), *t)),
                None => !has_tag(self.view(), key.view()),
            },
    {
        match self.position(key) {
            Some(i) => {
                assert(self.view()[i as int] == (key.view(), self.arms@[i as int].1));
                Some(&self.arms[i].1)
            },
            None => None,
        }
    }

    pub fn len(&self) -> (r: usize)
        ensures
            r == self.view().len(),
    {
        self.arms.len()
    }

    pub fn is_empty(&self) -> (r: bool)
        ensures
            r == (self.view().len() == 0),
    {
        self.arms.len() == 0
    }

    /// The arms with their tags, in order.
    pub fn iter(&self) -> (r: Vec<(&FieldKey, &T)>)
        ensures
            r@.len() == self.view().len(),
            forall|i: int|
                0 <= i < r@.len() ==> ((#[trigger] r@[i]).0.view(), *r@[i].1) == self.view()[i],
    {
        let mut out: Vec<(&FieldKey, &T)> = Vec::new();
        let mut i: usize = 0;
        while i < self.arms.len()
            invariant
                i <= self.arms.len(),
                out.len() == i,
                forall|j: int|
                    0 <= j < i ==> ((#[trigger] out@[j]).0.view(), *out@[j].1) == self.view()[j],
            decreases self.arms.len() - i,
        {
            out.push((&self.arms[i].0, &self.arms[i].1));
            i = i + 1;
        }
        out
    }

    /// The tags, in order.
    pub fn keys(&self) -> (r: Vec<&FieldKey>)
        ensures
            r@.len() == self.view().len(),
            forall|i: int| 0 <= i < r@.len() ==> (#[trigger] r@[i]).view() == self.view()[i].0,
    {
        let mut out: Vec<&FieldKey> = Vec::new();
        let mut i: usize = 0;
        while i < self.arms.len()
            invariant
                i <= self.arms.len(),
                out.len() == i,
                forall|j: int| 0 <= j < i ==> (#[trigger] out@[j]).view() == self.view()[j].0,
            decreases self.arms.len() - i,
        {
            out.push(&self.arms[i].0);
            i = i + 1;
        }
        out
    }

    /// The arms without their tags, in order.
    pub fn values(&self) -> (r: Vec<&T>)
        ensures
            r@.len() == self.view().len(),
            forall|i: int| 0 <= i < r@.len() ==> *(#[trigger] r@[i]) == self.view()[i].1,
    {
        let mut out: Vec<&T> = Vec::new();
        let mut i: usize = 0;
        while i < self.arms.len()
            invariant
                i <= self.arms.len(),
                out.len() == i,
                forall|j: int| 0 <= j < i ==> *(#[trigger] out@[j]) == self.view()[j].1,
            decreases self.arms.len() - i,
        {
            out.push(&self.arms[i].1);
            i = i + 1;
        }
        out
    }

    /// Whether the tags are those of `other`.
    pub fn same_tags<U>(&self, other: &TagMap<U>) -> (r: bool)
        ensures
            r == (tags_of(self.view()) == tags_of(other.view())),
    {
        let ghost a = tags_of(self.view());
        let ghost b = tags_of(other.view());
        if self.arms.len() != other.arms.len() {
            assert(a.len() != b.len());
            return false;
        }
        let mut i: usize = 0;
        while i < self.arms.len()
            invariant
                i <= self.arms.len(),
                a == tags_of(self.view()),
                b == tags_of(other.view()),
                self.arms@.len() == other.arms@.len(),
                forall|j: int| 0 <= j < i ==> #[trigger] a[j] == b[j],
            decreases self.arms.len() - i,
        {
            assert(a[i as int] == self.arms@[i as int].0.view());
            assert(b[i as int] == other.arms@[i as int].0.view());
            if !self.arms[i].0.same(&other.arms[i].0) {
                return false;
            }
            i = i + 1;
        }
        assert(a =~= b);
        true
    }

    /// The same tags over what `f` makes of each arm.
    pub fn map<U, F: Fn(&FieldKey, &T) -> U>(&self, f: F) -> (r: TagMap<U>)
        requires
            forall|k: &FieldKey, t: &T| #[trigger] call_requires(f, (k, t)),
        ensures
            tags_of(r.view()) == tags_of(self.view()),
            self.wf() ==> r.wf(),
            forall|i: int|
                0 <= i < r.view().len() ==> call_ensures(
                    f,
                    (&self.arms@[i].0, &self.arms@[i].1),
                    #[trigger] r.view()[i].1,
                ),
    {
        let mut out: Vec<(FieldKey, U)> = Vec::new();
        let mut i: usize = 0;
        while i < self.arms.len()
            invariant
                i <= self.arms.len(),
                out.len() == i,
                forall|k: &FieldKey, t: &T| #[trigger] call_requires(f, (k, t)),
                forall|j: int|
                    0 <= j < i ==> (#[trigger] out@[j]).0.view() == self.arms@[j].0.view()
                        && call_ensures(f, (&self.arms@[j].0, &self.arms@[j].1), out@[j].1),
            decreases self.arms.len() - i,
        {
            let u = f(&self.arms[i].0, &self.arms[i].1);
            out.push((self.arms[i].0.clone(), u));
            i = i + 1;
        }
        let res = TagMap { arms: out };
        proof {
            assert(tags_of(res.view()) =~= tags_of(self.view()));
            lemma_same_tags_order(self.view(), res.view());
        }
        res
    }

    /// The arms whose tags `other` has, each with the arm of `other`.
    pub fn zip_matching<'a, U>(&'a self, other: &'a TagMap<U>) -> (r: Vec<(&'a FieldKey, &'a T, &'a U)>)
        requires
            other.wf(),
        ensures
            matches_view(r@) == matched(self.view(), other.view()),
    {
        let ghost a = self.view();
        let ghost b = other.view();
        let mut out: Vec<(&'a FieldKey, &'a T, &'a U)> = Vec::new();
        let mut i: usize = 0;
        assert(matches_view(out@) =~= matched(a.take(0), b));
        while i < self.arms.len()
            invariant
                i <= self.arms.len(),
                a == self.view(),
                b == other.view(),
                other.wf(),
                matches_view(out@) == matched(a.take(i as int), b),
            decreases self.arms.len() - i,
        {
            let ghost before = out@;
            assert(a.take(i + 1).drop_last() =~= a.take(i as int));
            assert(a.take(i + 1).last() == a[i as int]);
            let key = &self.arms[i].0;
            assert(a[i as int] == (key.view(), self.arms@[i as int].1));
            match other.position(key) {
                Some(p) => {
                    let item = (key, &self.arms[i].1, &other.arms[p].1);
                    out.push(item);
                    proof {
                        assert(b[p as int].0 == key.view());
                        lemma_tag_once(b, p as int, tag_at(b, key.view()));
                        assert(matches_view(out@) =~= matches_view(before).push(
                            (key.view(), a[i as int].1, b[p as int].1),
                        ));
                    }
                },
                None => {},
            }
            i = i + 1;
        }
        assert(a.take(i as int) =~= a);
        out
    }

    /// The same tags over what `f` makes of the arms of both, which must carry
    /// the same tags.
    pub fn zip_same_tags<U, V, F: Fn(&T, &U) -> V>(&self, other: &TagMap<U>, _op: &str, f: F) -> (r:
        TagMap<V>)
        requires
            tags_of(self.view()) == tags_of(other.view()),
            forall|t: &T, u: &U| #[trigger] call_requires(f, (t, u)),
        ensures
            tags_of(r.view()) == tags_of(self.view()),
            self.wf() ==> r.wf(),
            forall|i: int|
                0 <= i < r.view().len() ==> call_ensures(
                    f,
                    (&self.view()[i].1, &other.view()[i].1),
                    #[trigger] r.view()[i].1,
                ),
    {
        let mut out: Vec<(FieldKey, V)> = Vec::new();
        let mut i: usize = 0;
        assert(tags_of(self.view()).len() == self.arms@.len());
        assert(tags_of(other.view()).len() == other.arms@.len());
        while i < self.arms.len()
            invariant
                i <= self.arms.len(),
                self.arms@.len() == other.arms@.len(),
                out.len() == i,
                forall|t: &T, u: &U| #[trigger] call_requires(f, (t, u)),
                forall|j: int|
                    0 <= j < i ==> (#[trigger] out@[j]).0.view() == self.arms@[j].0.view()
                        && call_ensures(f, (&self.arms@[j].1, &other.arms@[j].1), out@[j].1),
            decreases self.arms.len() - i,
        {
            let v = f(&self.arms[i].1, &other.arms[i].1);
            out.push((self.arms[i].0.clone(), v));
            i = i + 1;
        }
        let res = TagMap { arms: out };
        proof {
            assert(tags_of(res.view()) =~= tags_of(self.view()));
            lemma_same_tags_order(self.view(), res.view());
        }
        res
    }
}

proof fn lemma_same_tags_order<T, U>(a: Seq<(FieldKeyS, T)>, b: Seq<(FieldKeyS, U)>)
    requires
        tags_of(a) == tags_of(b),
    ensures
        tags_ascending(a) ==> tags_ascending(b),
{
    assert(a.len() == tags_of(a).len());
    assert(b.len() == tags_of(b).len());
    assert forall|i: int| 0 <= i < b.len() implies (#[trigger] b[i]).0 == a[i].0 by {
        assert(tags_of(a)[i] == a[i].0);
        assert(tags_of(b)[i] == b[i].0);
    }
}

proof fn lemma_split_absent<T>(s: Seq<(FieldKeyS, T)>, k: FieldKeyS, n: int)
    requires
        splits_at(s, k, n),
    ensures
        !has_tag(s, k),
{
    lemma_key_lt_irreflexive(k);
    assert forall|i: int| 0 <= i < s.len() implies (#[trigger] s[i]).0 != k by {
        if i < n {
            assert(key_lt(s[i].0, k));
        } else {
            assert(key_lt(k, s[i].0));
        }
    }
}

proof fn lemma_not_among<T>(whole: Seq<(FieldKeyS, T)>, i: int, some: Seq<(FieldKeyS, T)>)
    requires
        0 <= i < whole.len(),
        tags_distinct(whole),
        some.to_multiset() == whole.take(i).to_multiset(),
    ensures
        !has_tag(some, whole[i].0),
{
    broadcast use vstd::seq_lib::group_to_multiset_ensures;

    assert forall|j: int| 0 <= j < some.len() implies (#[trigger] some[j]).0 != whole[i].0 by {
        assert(some.contains(some[j]));
        assert(some.to_multiset().count(some[j]) > 0);
        assert(whole.take(i).contains(some[j]));
        let k = choose|k: int| 0 <= k < whole.take(i).len() && whole.take(i)[k] == some[j];
        assert(whole[k] == some[j]);
    }
}

impl<T> TagMap<T> {
    /// The arm tagged `key`, to be changed.
    pub fn get_mut(&mut self, key: &FieldKey) -> (r: Option<&mut T>)
        requires
            old(self).wf(),
        ensures
            final(self).wf(),
            match r {
                Some(t) => exists|i: int|
                    #![trigger old(self).view()[i]]
                    0 <= i < old(self).view().len() && old(self).view()[i] == (key.view(), *t)
                        && final(self).view() == old(self).view().update(
                        i,
                        (key.view(), *final(t)),
                    ),
                None => !has_tag(old(self).view(), key.view()) && final(self).view() == old(
                    self,
                ).view(),
            },
    {
        proof {
            lemma_values_change(self.arms@);
        }
        match self.position(key) {
            Some(i) => Some(&mut self.arms[i].1),
            None => None,
        }
    }

    /// The arm tagged `key`, to be changed; `default` makes it where there is
    /// none yet.
    pub fn get_or_insert_with<F: FnOnce() -> T>(&mut self, key: FieldKey, default: F) -> (r: &mut T)
        requires
            old(self).wf(),
            call_requires(default, ()),
        ensures
            final(self).wf(),
            if has_tag(old(self).view(), key.view()) {
                exists|i: int|
                    #![trigger old(self).view()[i]]
                    0 <= i < old(self).view().len() && old(self).view()[i] == (key.view(), *r)
                        && final(self).view() == old(self).view().update(
                        i,
                        (key.view(), *final(r)),
                    )
            } else {
                call_ensures(default, (), *r) && exists|i: int|
                    #[trigger] splits_at(old(self).view(), key.view(), i) && final(self).view()
                        == old(self).view().insert(i, (key.view(), *final(r)))
            },
    {
        let ghost s = self.view();
        let ghost k = key.view();
        match self.position(&key) {
            Some(i) => {
                proof {
                    lemma_values_change(self.arms@);
                    assert(s[i as int].0 == k);
                }
                &mut self.arms[i].1
            },
            None => {
                let t = default();
                let i: usize = self.insert_new(key, t);
                proof {
                    lemma_values_change(self.arms@);
                    assert(splits_at(s, k, i as int));
                    assert(self.view() == s.insert(i as int, (k, t)));
                    assert(self.arms@.len() == self.view().len());
                    lemma_value_changes_at(self.arms@, i as int);
                    let mid = self.view();
                    assert(mid[i as int] == (k, t));
                    assert forall|v: T|
                        #[trigger] mid.update(i as int, (k, v)) == s.insert(i as int, (k, v)) by {
                        assert(mid.update(i as int, (k, v)) =~= s.insert(i as int, (k, v)));
                    }
                }
                &mut self.arms[i].1
            },
        }
    }

    /// Changes each arm to what `f` makes of it, in order.
    pub fn iter_mut<F: Fn(&FieldKey, &T) -> T>(&mut self, f: F)
        requires
            forall|k: &FieldKey, t: &T| #[trigger] call_requires(f, (k, t)),
        ensures
            tags_of(final(self).view()) == tags_of(old(self).view()),
            old(self).wf() ==> final(self).wf(),
            forall|i: int|
                0 <= i < final(self).view().len() ==> call_ensures(
                    f,
                    (&old(self).arms@[i].0, &old(self).arms@[i].1),
                    #[trigger] final(self).view()[i].1,
                ),
    {
        let out = self.map(f);
        self.arms = out.arms;
    }

    /// The arms with their tags, in order.
    pub fn into_iter(self) -> (r: Vec<(FieldKey, T)>)
        ensures
            tagged_view(r@) == self.view(),
    {
        self.arms
    }
}

proof fn lemma_value_changes_at<T>(arms: Seq<(FieldKey, T)>, i: int)
    requires
        0 <= i < arms.len(),
    ensures
        forall|m: Seq<(FieldKey, T)>|
            #![trigger tagged_view(m)]
            m.len() == arms.len() && m[i].0 == arms[i].0 && (forall|j: int|
                0 <= j < m.len() && j != i ==> #[trigger] m[j] == arms[j]) ==> tagged_view(m)
                == tagged_view(arms).update(i, (arms[i].0.view(), m[i].1)),
{
    assert forall|m: Seq<(FieldKey, T)>|
        #![trigger tagged_view(m)]
        m.len() == arms.len() && m[i].0 == arms[i].0 && (forall|j: int|
            0 <= j < m.len() && j != i ==> #[trigger] m[j] == arms[j]) implies tagged_view(m)
        == tagged_view(arms).update(i, (arms[i].0.view(), m[i].1)) by {
        assert(tagged_view(m) =~= tagged_view(arms).update(i, (arms[i].0.view(), m[i].1)));
    }
}

/// Other arms under the same tags are in order too.
proof fn lemma_values_change<T>(arms: Seq<(FieldKey, T)>)
    requires
        tags_ascending(tagged_view(arms)),
    ensures
        forall|m: Seq<(FieldKey, T)>|
            m.len() == arms.len() && (forall|j: int|
                0 <= j < m.len() ==> (#[trigger] m[j]).0 == arms[j].0) ==> tags_ascending(
                #[trigger] tagged_view(m),
            ),
{
    assert forall|m: Seq<(FieldKey, T)>|
        m.len() == arms.len() && (forall|j: int|
            0 <= j < m.len() ==> (#[trigger] m[j]).0 == arms[j].0) implies tags_ascending(
        #[trigger] tagged_view(m),
    ) by {
        let a = tagged_view(arms);
        let b = tagged_view(m);
        assert forall|i: int, j: int| 0 <= i < j < b.len() implies key_lt(
            (#[trigger] b[i]).0,
            (#[trigger] b[j]).0,
        ) by {
            assert(m[i].0 == arms[i].0);
            assert(m[j].0 == arms[j].0);
            assert(key_lt(a[i].0, a[j].0));
        }
    }
}

impl<T> Default for TagMap<T> {
    fn default() -> (r: TagMap<T>)
        ensures
            r.wf(),
            r.view() == Seq::<(FieldKeyS, T)>::empty(),
    {
        TagMap::new()
    }
}

} // verus!
