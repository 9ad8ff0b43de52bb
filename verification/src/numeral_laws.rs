//! The laws that numerals and quoted texts read back as what they were written for.

use vstd::prelude::*;
use crate::text::{digit_char, escaped, escaped_char, hex_char, hex_text, int_text, nat_text};

verus! {

/// The value of a digit.
pub open spec fn digit_value(c: char) -> int {
    if '0' <= c <= '9' {
        c as int - '0' as int
    } else {
        c as int - 'a' as int + 10
    }
}

/// The value of a numeral to a base.
pub open spec fn numeral_value(t: Seq<char>, base: int) -> int
    decreases t.len(),
{
    if t.len() == 0 {
        0
    } else {
        numeral_value(t.drop_last(), base) * base + digit_value(t.last())
    }
}

/// Whether all of a text are digits to a base.
pub open spec fn all_digits(t: Seq<char>, base: int) -> bool {
    forall|i: int|
        0 <= i < t.len() ==> ('0' <= #[trigger] t[i] <= '9' || 'a' <= t[i] <= 'f') && 0
            <= digit_value(t[i]) < base
}

/// A decimal numeral is of digits, has no leading zero, and reads back as its number.
pub proof fn law_a_numeral_reads_back(n: nat)
    ensures
        nat_text(n).len() > 0,
        all_digits(nat_text(n), 10),
        numeral_value(nat_text(n), 10) == n,
        nat_text(n)[0] == '0' ==> n == 0 && nat_text(n).len() == 1,
    decreases n,
{
    let t = nat_text(n);
    if n < 10 {
        assert(t.drop_last() =~= Seq::empty());
        assert(numeral_value(t.drop_last(), 10) == 0);
        assert(t.last() == digit_char(n));
    } else {
        law_a_numeral_reads_back(n / 10);
        let front = nat_text(n / 10);
        assert(t.drop_last() =~= front);
        assert(t.last() == digit_char(n % 10));
        assert(t[0] == front[0]);
        assert forall|i: int| 0 <= i < t.len() implies ('0' <= #[trigger] t[i] <= '9' || 'a' <= t[i]
            <= 'f') && 0 <= digit_value(t[i]) < 10 by {
            if i < front.len() {
                assert(t[i] == front[i]);
            }
        }
    }
}

/// The numeral of an integer has a minus sign exactly below zero, and reads back as it.
pub proof fn law_a_signed_numeral_reads_back(n: int)
    ensures
        int_text(n).len() > 0,
        (int_text(n)[0] == '-') == (n < 0),
        n < 0 ==> numeral_value(int_text(n).drop_first(), 10) == -n,
        n >= 0 ==> numeral_value(int_text(n), 10) == n,
{
    if n < 0 {
        law_a_numeral_reads_back((-n) as nat);
        assert(int_text(n).drop_first() =~= nat_text((-n) as nat));
    } else {
        law_a_numeral_reads_back(n as nat);
        assert('0' <= nat_text(n as nat)[0] <= '9' || 'a' <= nat_text(n as nat)[0] <= 'f');
    }
}

/// A hexadecimal numeral is of digits and reads back as its number.
pub proof fn law_a_hexadecimal_numeral_reads_back(n: nat)
    ensures
        hex_text(n).len() > 0,
        all_digits(hex_text(n), 16),
        numeral_value(hex_text(n), 16) == n,
    decreases n,
{
    let t = hex_text(n);
    if n < 16 {
        assert(t.drop_last() =~= Seq::empty());
        assert(numeral_value(t.drop_last(), 16) == 0);
        assert(t.last() == hex_char(n));
    } else {
        law_a_hexadecimal_numeral_reads_back(n / 16);
        let front = hex_text(n / 16);
        assert(t.drop_last() =~= front);
        assert(t.last() == hex_char(n % 16));
        assert forall|i: int| 0 <= i < t.len() implies ('0' <= #[trigger] t[i] <= '9' || 'a' <= t[i]
            <= 'f') && 0 <= digit_value(t[i]) < 16 by {
            if i < front.len() {
                assert(t[i] == front[i]);
            }
        }
    }
}

// ---- quoted texts ----

/// The first place from `from` on where a brace closes.
pub open spec fn closes_at(t: Seq<char>, from: int) -> int
    decreases t.len() - from,
{
    if from < 0 || from >= t.len() || t[from] == '}' {
        from
    } else {
        closes_at(t, from + 1)
    }
}

/// What a character stands for behind a backslash.
pub open spec fn behind_backslash(c: char) -> char {
    if c == 't' {
        '\t'
    } else if c == 'r' {
        '\r'
    } else if c == 'n' {
        '\n'
    } else {
        c
    }
}

/// A quoted text, read.
pub open spec fn read_quoted(t: Seq<char>) -> Seq<char>
    decreases t.len(),
{
    if t.len() == 0 {
        Seq::empty()
    } else if t[0] != '\\' || t.len() == 1 {
        seq![t[0]] + read_quoted(t.skip(1))
    } else if t[1] != 'u' {
        seq![behind_backslash(t[1])] + read_quoted(t.skip(2))
    } else {
        let end = closes_at(t, 3);
        if 3 <= end < t.len() {
            seq![numeral_value(t.subrange(3, end), 16) as char] + read_quoted(t.skip(end + 1))
        } else {
            Seq::empty()
        }
    }
}

proof fn lemma_closes_at(t: Seq<char>, from: int, end: int)
    requires
        0 <= from <= end < t.len(),
        t[end] == '}',
        forall|i: int| from <= i < end ==> #[trigger] t[i] != '}',
    ensures
        closes_at(t, from) == end,
    decreases end - from,
{
    if from < end {
        assert(t[from] != '}');
        lemma_closes_at(t, from + 1, end);
    }
}

proof fn lemma_read_escaped_char(c: char, rest: Seq<char>)
    ensures
        read_quoted(escaped_char(c) + rest) == seq![c] + read_quoted(rest),
{
    reveal_strlit("\\t");
    reveal_strlit("\\r");
    reveal_strlit("\\n");
    reveal_strlit("\\'");
    reveal_strlit("\\\"");
    reveal_strlit("\\\\");
    reveal_strlit("\\u{");
    reveal_strlit("}");
    let shown = escaped_char(c);
    let t = shown + rest;
    if shown.len() == 1 {
        assert(t.skip(1) =~= rest);
    }
    if c == '\t' || c == '\r' || c == '\n' || c == '\'' || c == '"' || c == '\\' {
        assert(t.skip(2) =~= rest);
        assert(t[0] == '\\' && t[1] == shown[1]);
    } else if ' ' <= c <= '~' {
        assert(t[0] == c);
    } else {
        let digits = hex_text(c as nat);
        law_a_hexadecimal_numeral_reads_back(c as nat);
        let end = 3 + digits.len() as int;
        assert(t[0] == '\\' && t[1] == 'u' && t[2] == '{');
        assert(t[end] == '}');
        assert forall|i: int| 3 <= i < end implies #[trigger] t[i] != '}' by {
            assert(t[i] == digits[i - 3]);
        }
        lemma_closes_at(t, 3, end);
        assert(t.subrange(3, end) =~= digits);
        assert(t.skip(end + 1) =~= rest);
    }
}

proof fn lemma_escaped_front(s: Seq<char>)
    requires
        s.len() > 0,
    ensures
        escaped(s) == escaped_char(s[0]) + escaped(s.drop_first()),
    decreases s.len(),
{
    if s.len() == 1 {
        assert(s.drop_last() =~= Seq::empty());
        assert(s.drop_first() =~= Seq::empty());
        assert(escaped(s) =~= escaped_char(s[0]) + escaped(s.drop_first()));
    } else {
        lemma_escaped_front(s.drop_last());
        assert(s.drop_last().drop_first() =~= s.drop_first().drop_last());
        assert(s.drop_first().last() == s.last());
        assert(escaped(s) =~= escaped_char(s[0]) + escaped(s.drop_first()));
    }
}

/// A quoted text reads back as the text.
pub proof fn law_a_quoted_text_reads_back(s: Seq<char>)
    ensures
        read_quoted(escaped(s)) == s,
    decreases s.len(),
{
    if s.len() > 0 {
        lemma_escaped_front(s);
        lemma_read_escaped_char(s[0], escaped(s.drop_first()));
        law_a_quoted_text_reads_back(s.drop_first());
        assert(seq![s[0]] + s.drop_first() =~= s);
    } else {
        assert(escaped(s) =~= Seq::empty());
        assert(read_quoted(escaped(s)) =~= s);
    }
}

} // verus!
