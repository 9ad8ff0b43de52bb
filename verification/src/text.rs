//! Text: decimal numerals, joining, lexicographic order and literal escapes,
//! each stated over the sequence of characters it produces.
use vstd::prelude::*;
use vstd::string::StringExecFns;
use vstd::string::StrSliceExecFns;

verus! {

/// The decimal digit `d` as a character.
pub open spec fn digit_char(d: nat) -> char {
    if d == 0 { '0' } else if d == 1 { '1' } else if d == 2 { '2' } else if d == 3 { '3' }
    else if d == 4 { '4' } else if d == 5 { '5' } else if d == 6 { '6' } else if d == 7 { '7' }
    else if d == 8 { '8' } else { '9' }
}

/// The decimal numeral of `n`, without leading zeros.
pub open spec fn nat_text(n: nat) -> Seq<char>
    decreases n,
{
    if n < 10 {
        seq![digit_char(n)]
    } else {
        nat_text(n / 10).push(digit_char(n % 10))
    }
}

/// The decimal numeral of `n`, with a leading minus sign below zero.
pub open spec fn int_text(n: int) -> Seq<char> {
    if n < 0 {
        seq!['-'] + nat_text((-n) as nat)
    } else {
        nat_text(n as nat)
    }
}

/// The texts of `parts` with `sep` between neighbours.
pub open spec fn joined(parts: Seq<Seq<char>>, sep: Seq<char>) -> Seq<char>
    decreases parts.len(),
{
    if parts.len() == 0 {
        Seq::<char>::empty()
    } else if parts.len() == 1 {
        parts[0]
    } else {
        joined(parts.drop_last(), sep) + sep + parts.last()
    }
}

/// The characters of each string.
pub open spec fn texts(v: Seq<String>) -> Seq<Seq<char>> {
    Seq::new(v.len(), |i: int| v[i]@)
}

/// Lexicographic order on character sequences: a proper prefix comes first.
pub open spec fn text_lt(a: Seq<char>, b: Seq<char>) -> bool
    decreases a.len(),
{
    if b.len() == 0 {
        false
    } else if a.len() == 0 {
        true
    } else if a[0] != b[0] {
        a[0] < b[0]
    } else {
        text_lt(a.drop_first(), b.drop_first())
    }
}

pub proof fn lemma_text_lt_irreflexive(a: Seq<char>)
    ensures
        !text_lt(a, a),
    decreases a.len(),
{
    if a.len() > 0 {
        lemma_text_lt_irreflexive(a.drop_first());
    }
}

pub proof fn lemma_text_lt_total(a: Seq<char>, b: Seq<char>)
    ensures
        text_lt(a, b) || text_lt(b, a) || a == b,
    decreases a.len(),
{
    if a.len() == 0 && b.len() == 0 {
        assert(a =~= b);
    } else if a.len() > 0 && b.len() > 0 && a[0] == b[0] {
        lemma_text_lt_total(a.drop_first(), b.drop_first());
        if a.drop_first() == b.drop_first() {
            assert(a =~= seq![a[0]] + a.drop_first());
            assert(b =~= seq![b[0]] + b.drop_first());
        }
    }
}

pub proof fn lemma_text_lt_transitive(a: Seq<char>, b: Seq<char>, c: Seq<char>)
    requires
        text_lt(a, b),
        text_lt(b, c),
    ensures
        text_lt(a, c),
    decreases a.len(),
{
    if a.len() > 0 && b.len() > 0 && c.len() > 0 && a[0] == b[0] && b[0] == c[0] {
        lemma_text_lt_transitive(a.drop_first(), b.drop_first(), c.drop_first());
    }
}

/// Appends `other` to `out`.
pub fn push_str(out: &mut String, other: &str)
    ensures
        final(out)@ == old(out)@ + other@,
{
    out.append(other);
}

/// An owned copy of `s`.
pub fn owned(s: &str) -> (r: String)
    ensures
        r@ == s@,
{
    let mut out = String::new();
    out.append(s);
    assert(out@ =~= s@);
    out
}

/// Whether the two texts are the same.
pub fn same_text(a: &str, b: &str) -> (r: bool)
    ensures
        r == (a@ == b@),
{
    let n: usize = a.unicode_len();
    if n != b.unicode_len() {
        return false;
    }
    let mut i: usize = 0;
    while i < n
        invariant
            n == a@.len(),
            n == b@.len(),
            i <= n,
            forall|j: int| 0 <= j < i ==> a@[j] == b@[j],
        decreases n - i,
    {
        if a.get_char(i) != b.get_char(i) {
            return false;
        }
        i = i + 1;
    }
    assert(a@ =~= b@);
    true
}

/// Whether `a` comes strictly before `b` in lexicographic order.
pub fn text_before(a: &str, b: &str) -> (r: bool)
    ensures
        r == text_lt(a@, b@),
{
    let n: usize = a.unicode_len();
    let m: usize = b.unicode_len();
    let mut i: usize = 0;
    assert(a@.skip(0) =~= a@);
    assert(b@.skip(0) =~= b@);
    while i < n && i < m
        invariant
            n == a@.len(),
            m == b@.len(),
            i <= n,
            i <= m,
            text_lt(a@, b@) == text_lt(a@.skip(i as int), b@.skip(i as int)),
        decreases n - i,
    {
        let x: char = a.get_char(i);
        let y: char = b.get_char(i);
        if x != y {
            return x < y;
        }
        assert(a@.skip(i as int).drop_first() =~= a@.skip(i + 1));
        assert(b@.skip(i as int).drop_first() =~= b@.skip(i + 1));
        i = i + 1;
    }
    i < m
}

fn digit_str(d: u64) -> (r: &'static str)
    requires
        d < 10,
    ensures
        r@ == seq![digit_char(d as nat)],
{
    proof {
        reveal_strlit("0");
        reveal_strlit("1");
        reveal_strlit("2");
        reveal_strlit("3");
        reveal_strlit("4");
        reveal_strlit("5");
        reveal_strlit("6");
        reveal_strlit("7");
        reveal_strlit("8");
        reveal_strlit("9");
    }
    let r = if d == 0 { "0" } else if d == 1 { "1" } else if d == 2 { "2" } else if d == 3 { "3" }
        else if d == 4 { "4" } else if d == 5 { "5" } else if d == 6 { "6" } else if d == 7 { "7" }
        else if d == 8 { "8" } else { "9" };
    assert(r@ =~= seq![digit_char(d as nat)]);
    r
}

/// The decimal numeral of `n`.
pub fn show_u64(n: u64) -> (r: String)
    ensures
        r@ == nat_text(n as nat),
    decreases n,
{
    let mut out = if n < 10 { String::new() } else { show_u64(n / 10) };
    let ghost before = out@;
    out.append(digit_str(n % 10));
    proof {
        if n >= 10 {
            assert(out@ =~= before.push(digit_char((n % 10) as nat)));
        } else {
            assert(out@ =~= seq![digit_char(n as nat)]);
        }
    }
    out
}

/// The decimal numeral of `n`, signed.
pub fn show_i64(n: i64) -> (r: String)
    ensures
        r@ == int_text(n as int),
{
    if n < 0 {
        proof { reveal_strlit("-"); }
        let mut out = owned("-");
        let magnitude: u64 = if n == i64::MIN { 9223372036854775808u64 } else { (-n) as u64 };
        let digits = show_u64(magnitude);
        out.append(digits.as_str());
        assert(out@ =~= int_text(n as int));
        out
    } else {
        show_u64(n as u64)
    }
}

/// The strings of `parts` with `sep` between neighbours.
pub fn join(parts: &Vec<String>, sep: &str) -> (r: String)
    ensures
        r@ == joined(texts(parts@), sep@),
{
    let mut out = String::new();
    let mut i: usize = 0;
    assert(out@ =~= joined(texts(parts@).take(0), sep@));
    while i < parts.len()
        invariant
            i <= parts.len(),
            out@ == joined(texts(parts@).take(i as int), sep@),
        decreases parts.len() - i,
    {
        if i > 0 {
            out.append(sep);
        }
        out.append(parts[i].as_str());
        proof {
            let all = texts(parts@);
            assert(all.take(i + 1).drop_last() =~= all.take(i as int));
            assert(all.take(i + 1).last() == parts@[i as int]@);
            assert(out@ =~= joined(all.take(i + 1), sep@));
        }
        i = i + 1;
    }
    assert(texts(parts@).take(i as int) =~= texts(parts@));
    out
}

/// The hexadecimal digit `d` as a character.
pub open spec fn hex_char(d: nat) -> char {
    if d < 10 { digit_char(d) } else if d == 10 { 'a' } else if d == 11 { 'b' }
    else if d == 12 { 'c' } else if d == 13 { 'd' } else if d == 14 { 'e' } else { 'f' }
}

/// The hexadecimal numeral of `n`, without leading zeros.
pub open spec fn hex_text(n: nat) -> Seq<char>
    decreases n,
{
    if n < 16 {
        seq![hex_char(n)]
    } else {
        hex_text(n / 16).push(hex_char(n % 16))
    }
}

/// A character as it stands in a quoted literal: printable ASCII as it is,
/// quotes, backslash and the usual controls behind a backslash, the rest by
/// number.
pub open spec fn escaped_char(c: char) -> Seq<char> {
    if c == '\t' {
        "\\t"@
    } else if c == '\r' {
        "\\r"@
    } else if c == '\n' {
        "\\n"@
    } else if c == '\'' {
        "\\'"@
    } else if c == '"' {
        "\\\""@
    } else if c == '\\' {
        "\\\\"@
    } else if ' ' <= c <= '~' {
        seq![c]
    } else {
        "\\u{"@ + hex_text(c as nat) + "}"@
    }
}

/// A text as it stands in a quoted literal.
pub open spec fn escaped(s: Seq<char>) -> Seq<char>
    decreases s.len(),
{
    if s.len() == 0 {
        Seq::empty()
    } else {
        escaped(s.drop_last()) + escaped_char(s.last())
    }
}

fn hex_digit_str(d: u32) -> (r: &'static str)
    requires
        d < 16,
    ensures
        r@ == seq![hex_char(d as nat)],
{
    proof {
        reveal_strlit("a");
        reveal_strlit("b");
        reveal_strlit("c");
        reveal_strlit("d");
        reveal_strlit("e");
        reveal_strlit("f");
    }
    let r = if d < 10 { digit_str(d as u64) } else if d == 10 { "a" } else if d == 11 { "b" }
        else if d == 12 { "c" } else if d == 13 { "d" } else if d == 14 { "e" } else { "f" };
    assert(r@ =~= seq![hex_char(d as nat)]);
    r
}

fn show_hex(n: u32) -> (r: String)
    ensures
        r@ == hex_text(n as nat),
    decreases n,
{
    let mut out = if n < 16 { String::new() } else { show_hex(n / 16) };
    let ghost before = out@;
    out.append(hex_digit_str(n % 16));
    proof {
        if n >= 16 {
            assert(out@ =~= before.push(hex_char((n % 16) as nat)));
        } else {
            assert(out@ =~= seq![hex_char(n as nat)]);
        }
    }
    out
}

/// The text of `s` as it stands in a quoted literal.
pub fn escape(s: &str) -> (r: String)
    ensures
        r@ == escaped(s@),
{
    let n: usize = s.unicode_len();
    let mut out = String::new();
    let mut i: usize = 0;
    assert(out@ =~= escaped(s@.take(0)));
    while i < n
        invariant
            i <= n,
            n == s@.len(),
            out@ == escaped(s@.take(i as int)),
        decreases n - i,
    {
        let c: char = s.get_char(i);
        proof {
            assert(s@.take(i + 1).drop_last() =~= s@.take(i as int));
            assert(s@.take(i + 1).last() == c);
        }
        if c == '\t' {
            out.append("\\t");
        } else if c == '\r' {
            out.append("\\r");
        } else if c == '\n' {
            out.append("\\n");
        } else if c == '\'' {
            out.append("\\'");
        } else if c == '"' {
            out.append("\\\"");
        } else if c == '\\' {
            out.append("\\\\");
        } else if ' ' <= c && c <= '~' {
            let piece = s.substring_char(i, i + 1);
            assert(piece@ =~= seq![c]);
            out.append(piece);
        } else {
            let mut piece = owned("\\u{");
            piece.append(show_hex(c as u32).as_str());
            piece.append("}");
            out.append(piece.as_str());
        }
        i = i + 1;
    }
    assert(s@.take(n as int) =~= s@);
    out
}

/// `parts` with `x` put before the first that comes after it.
pub open spec fn sorted_insert(parts: Seq<Seq<char>>, x: Seq<char>) -> Seq<Seq<char>>
    decreases parts.len(),
{
    if parts.len() == 0 {
        seq![x]
    } else if text_lt(x, parts.last()) {
        sorted_insert(parts.drop_last(), x).push(parts.last())
    } else {
        parts.push(x)
    }
}

/// The texts in lexicographic order.
pub open spec fn sorted(parts: Seq<Seq<char>>) -> Seq<Seq<char>>
    decreases parts.len(),
{
    if parts.len() == 0 {
        Seq::empty()
    } else {
        sorted_insert(sorted(parts.drop_last()), parts.last())
    }
}

/// Whether no text comes before the one in front of it.
pub open spec fn in_order(parts: Seq<Seq<char>>) -> bool {
    forall|i: int, j: int|
        0 <= i < j < parts.len() ==> !text_lt(#[trigger] parts[j], #[trigger] parts[i])
}

proof fn lemma_sorted_insert(parts: Seq<Seq<char>>, x: Seq<char>)
    requires
        in_order(parts),
    ensures
        in_order(sorted_insert(parts, x)),
        sorted_insert(parts, x).to_multiset() == parts.to_multiset().insert(x),
    decreases parts.len(),
{
    let r = sorted_insert(parts, x);
    if parts.len() == 0 {
        assert(parts =~= Seq::empty());
        assert(r =~= parts.push(x));
        parts.to_multiset_ensures();
    } else if text_lt(x, parts.last()) {
        let d = parts.drop_last();
        assert forall|i: int, j: int| 0 <= i < j < d.len() implies !text_lt(
            #[trigger] d[j],
            #[trigger] d[i],
        ) by {
            assert(d[i] == parts[i] && d[j] == parts[j]);
        }
        lemma_sorted_insert(d, x);
        let q = sorted_insert(d, x);
        assert(r == q.push(parts.last()));
        q.to_multiset_ensures();
        d.to_multiset_ensures();
        assert(parts =~= d.push(parts.last()));
        assert forall|i: int| 0 <= i < q.len() implies !text_lt(parts.last(), #[trigger] q[i]) by {
            assert(q.to_multiset().contains(q[i]));
            assert(d.to_multiset().insert(x).contains(q[i]));
            if q[i] != x {
                assert(d.to_multiset().contains(q[i]));
                assert(d.contains(q[i]));
                let k = choose|k: int| 0 <= k < d.len() && d[k] == q[i];
                assert(!text_lt(parts[parts.len() - 1], parts[k]));
            } else if text_lt(parts.last(), x) {
                lemma_text_lt_transitive(x, parts.last(), x);
                lemma_text_lt_irreflexive(x);
            }
        }
        assert forall|i: int, j: int| 0 <= i < j < r.len() implies !text_lt(
            #[trigger] r[j],
            #[trigger] r[i],
        ) by {
            assert(r[i] == q[i]);
            if j < q.len() {
                assert(r[j] == q[j]);
            }
        }
        assert(parts.to_multiset().insert(x) =~= q.to_multiset().insert(parts.last()));
    } else {
        parts.to_multiset_ensures();
        assert forall|i: int, j: int| 0 <= i < j < r.len() implies !text_lt(
            #[trigger] r[j],
            #[trigger] r[i],
        ) by {
            assert(r[i] == parts[i]);
            if j < parts.len() {
                assert(r[j] == parts[j]);
            } else if text_lt(x, parts[i]) {
                if i < parts.len() - 1 {
                    lemma_text_lt_total(parts[i], parts.last());
                    assert(!text_lt(parts[parts.len() - 1], parts[i]));
                    if text_lt(parts[i], parts.last()) {
                        lemma_text_lt_transitive(x, parts[i], parts.last());
                    }
                }
            }
        }
    }
}

/// Sorting texts puts them in order and loses none.
pub proof fn law_sorted(parts: Seq<Seq<char>>)
    ensures
        in_order(sorted(parts)),
        sorted(parts).to_multiset() == parts.to_multiset(),
    decreases parts.len(),
{
    if parts.len() == 0 {
        assert(sorted(parts) =~= parts);
    } else {
        let d = parts.drop_last();
        law_sorted(d);
        lemma_sorted_insert(sorted(d), parts.last());
        d.to_multiset_ensures();
        assert(parts =~= d.push(parts.last()));
    }
}

/// Puts the strings in lexicographic order.
pub fn sort_texts(parts: Vec<String>) -> (r: Vec<String>)
    ensures
        texts(r@) == sorted(texts(parts@)),
{
    let ghost all = texts(parts@);
    let mut out: Vec<String> = Vec::new();
    let mut i: usize = 0;
    assert(texts(out@) =~= sorted(all.take(0)));
    while i < parts.len()
        invariant
            i <= parts.len(),
            all == texts(parts@),
            texts(out@) == sorted(all.take(i as int)),
        decreases parts.len() - i,
    {
        proof {
            assert(all.take(i + 1).drop_last() =~= all.take(i as int));
            assert(all.take(i + 1).last() == parts@[i as int]@);
        }
        let x = parts[i].clone();
        let ghost xv = x@;
        let ghost before = texts(out@);
        let mut k: usize = out.len();
        assert(before.take(k as int) =~= before);
        assert(before.skip(k as int) =~= Seq::empty());
        assert(sorted_insert(before, xv) =~= sorted_insert(before.take(k as int), xv)
            + before.skip(k as int));
        while k > 0 && text_before(x.as_str(), out[k - 1].as_str())
            invariant
                k <= out.len(),
                before == texts(out@),
                xv == x@,
                sorted_insert(before, xv) == sorted_insert(before.take(k as int), xv)
                    + before.skip(k as int),
            decreases k,
        {
            proof {
                assert(before.take(k as int).last() == before[k - 1]);
                assert(before.take(k as int).drop_last() =~= before.take(k - 1));
                assert(sorted_insert(before.take(k as int), xv) + before.skip(k as int)
                    =~= sorted_insert(before.take(k - 1), xv) + before.skip(k - 1));
            }
            k = k - 1;
        }
        proof {
            if k > 0 {
                assert(before.take(k as int).last() == before[k - 1]);
            }
            assert(sorted_insert(before.take(k as int), xv) =~= before.take(k as int).push(xv));
            assert(sorted_insert(before, xv) =~= before.take(k as int).push(xv) + before.skip(
                k as int,
            ));
        }
        out.insert(k, x);
        assert(texts(out@) =~= before.take(k as int).push(xv) + before.skip(k as int));
        i = i + 1;
    }
    assert(all.take(i as int) =~= all);
    out
}

} // verus!
