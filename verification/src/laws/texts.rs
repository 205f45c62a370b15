//! Texts: pieces, white space, case and numbers.

use crate::numeral;
use crate::text;
use vstd::prelude::*;

verus! {

/// The first occurrence of a character: none stands before it, and it is the end of the text
/// where there is no occurrence.
pub proof fn law_find_is_first(s: Seq<char>, c: char)
    ensures
        0 <= text::find(s, c) <= s.len(),
        forall|i: int| 0 <= i < text::find(s, c) ==> s[i] != c,
        text::find(s, c) < s.len() <==> s.contains(c),
        text::find(s, c) < s.len() ==> s[text::find(s, c)] == c,
{
    text::lemma_find(s, c);
    if s.contains(c) {
        let k = choose|k: int| 0 <= k < s.len() && s[k] == c;
        assert(s[k] == c);
    }
}

/// The last occurrence of a character: none stands behind it, and it is -1 where there is no
/// occurrence.
pub proof fn law_find_last_is_last(s: Seq<char>, c: char)
    ensures
        -1 <= text::find_last(s, c) < s.len(),
        forall|i: int| text::find_last(s, c) < i < s.len() ==> s[i] != c,
        text::find_last(s, c) >= 0 ==> s[text::find_last(s, c)] == c,
    decreases s.len(),
{
    if s.len() > 0 && s.last() != c {
        law_find_last_is_last(s.drop_last(), c);
        assert forall|i: int| text::find_last(s, c) < i < s.len() implies s[i] != c by {
            if i < s.len() - 1 {
                assert(s.drop_last()[i] == s[i]);
            }
        }
    }
}

/// A text without the separator is its own only piece, and what stands on either side of a
/// separator is split on its own.
pub proof fn law_split_is_at_every_separator(s: Seq<char>, t: Seq<char>, sep: char)
    ensures
        !s.contains(sep) ==> text::split(s, sep) == seq![s],
        text::split(s + seq![sep] + t, sep) == text::split(s, sep) + text::split(t, sep),
{
    law_find_is_first(s, sep);
    text::lemma_split_concat(s, t, sep);
}

/// A text is split once at its first separator.
pub proof fn law_split_once_is_at_the_first(s: Seq<char>, t: Seq<char>, sep: char)
    requires
        !s.contains(sep),
    ensures
        text::split_once(s, sep) is None,
        text::split_once(s + seq![sep] + t, sep) == Some((s, t)),
{
    law_find_is_first(s, sep);
    let whole = s + seq![sep] + t;
    assert forall|i: int| 0 <= i < s.len() implies whole[i] != sep by {
        assert(whole[i] == s[i]);
        assert(s.contains(s[i]));
    }
    text::lemma_find_is(whole, sep, s.len() as int);
    assert(whole.take(s.len() as int) =~= s);
    assert(whole.skip(s.len() as int + 1) =~= t);
}

/// Pieces are joined with one separator between each two neighbours.
pub proof fn law_join_puts_separators_between(a: Seq<Seq<char>>, b: Seq<Seq<char>>, sep: char)
    ensures
        text::join(Seq::<Seq<char>>::empty(), sep) == Seq::<char>::empty(),
        a.len() == 1 ==> text::join(a, sep) == a[0],
        a.len() > 0 && b.len() > 0 ==> text::join(a + b, sep) == text::join(a, sep) + seq![sep]
            + text::join(b, sep),
    decreases a.len(),
{
    let both = a + b;
    if a.len() > 0 && b.len() > 0 {
        assert(both[0] == a[0]);
        assert(both.skip(1) =~= a.skip(1) + b);
        if a.len() == 1 {
            assert(both.skip(1) =~= b);
            assert(text::join(both, sep) =~= a[0] + seq![sep] + text::join(b, sep));
        } else {
            law_join_puts_separators_between(a.skip(1), b, sep);
            assert(text::join(both, sep) =~= text::join(a, sep) + seq![sep] + text::join(b, sep));
        }
    }
}

/// Joining the pieces of a text gives the text back.
pub proof fn law_join_undoes_split(s: Seq<char>, sep: char)
    ensures
        text::join(text::split(s, sep), sep) == s,
    decreases s.len(),
{
    law_find_is_first(s, sep);
    let at = text::find(s, sep);
    if at < s.len() {
        let rest = s.skip(at + 1);
        law_join_undoes_split(rest, sep);
        text::lemma_split(rest, sep);
        let pieces = text::split(s, sep);
        assert(pieces.skip(1) =~= text::split(rest, sep));
        assert(s =~= s.take(at) + seq![sep] + rest);
    }
}

/// A text starts with a prefix when something follows the prefix in it, and that is what is left
/// without the prefix.
pub proof fn law_prefix_is_taken_off(prefix: Seq<char>, rest: Seq<char>, s: Seq<char>)
    ensures
        text::starts_with(prefix + rest, prefix),
        text::strip_prefix(prefix + rest, prefix) == Some(rest),
        text::starts_with(s, prefix) ==> s == prefix + s.skip(prefix.len() as int),
        !text::starts_with(s, prefix) <==> text::strip_prefix(s, prefix) is None,
{
    assert((prefix + rest).take(prefix.len() as int) =~= prefix);
    assert((prefix + rest).skip(prefix.len() as int) =~= rest);
    if text::starts_with(s, prefix) {
        assert(s =~= s.take(prefix.len() as int) + s.skip(prefix.len() as int));
    }
}

/// White space is what Unicode lists as such, by code point.
pub proof fn law_white_space(c: char)
    ensures
        text::is_white_space(c) <==> {
            let n = c as u32;
            ||| 9 <= n <= 13
            ||| n == 32
            ||| n == 133
            ||| n == 160
            ||| n == 5760
            ||| 8192 <= n <= 8202
            ||| n == 8232
            ||| n == 8233
            ||| n == 8239
            ||| n == 8287
            ||| n == 12288
        },
{
}

/// Trimming takes off the white space on either side, all of it and nothing else.
pub proof fn law_trim_takes_off_white_space(
    before: Seq<char>,
    core: Seq<char>,
    after: Seq<char>,
)
    requires
        forall|i: int| 0 <= i < before.len() ==> text::is_white_space(#[trigger] before[i]),
        forall|i: int| 0 <= i < after.len() ==> text::is_white_space(#[trigger] after[i]),
        core.len() > 0 ==> !text::is_white_space(core[0]) && !text::is_white_space(core.last()),
    ensures
        text::trim(before + core + after) == core,
{
    let s = before + core + after;
    if core.len() == 0 {
        assert forall|i: int| 0 <= i < s.len() implies text::is_white_space(#[trigger] s[i]) by {
            if i < before.len() {
                assert(s[i] == before[i]);
            } else {
                assert(s[i] == after[i - before.len()]);
            }
        }
        lemma_trim_start_drops(s, Seq::empty());
        assert(s + Seq::<char>::empty() =~= s);
        assert(text::trim_end(Seq::<char>::empty()) =~= core);
    } else {
        assert(s =~= before + (core + after));
        lemma_trim_start_drops(before, core + after);
        assert((core + after)[0] == core[0]);
        lemma_trim_end_drops(core, after);
    }
}

/// Leading white space is dropped.
pub proof fn lemma_trim_start_drops(before: Seq<char>, rest: Seq<char>)
    requires
        forall|i: int| 0 <= i < before.len() ==> text::is_white_space(#[trigger] before[i]),
        rest.len() > 0 ==> !text::is_white_space(rest[0]),
    ensures
        text::trim_start(before + rest) == rest,
    decreases before.len(),
{
    let s = before + rest;
    if before.len() == 0 {
        assert(s =~= rest);
    } else {
        assert(s[0] == before[0]);
        assert(s.skip(1) =~= before.skip(1) + rest);
        lemma_trim_start_drops(before.skip(1), rest);
    }
}

/// Trailing white space is dropped.
pub proof fn lemma_trim_end_drops(rest: Seq<char>, after: Seq<char>)
    requires
        forall|i: int| 0 <= i < after.len() ==> text::is_white_space(#[trigger] after[i]),
        rest.len() > 0 ==> !text::is_white_space(rest.last()),
    ensures
        text::trim_end(rest + after) == rest,
    decreases after.len(),
{
    let s = rest + after;
    if after.len() == 0 {
        assert(s =~= rest);
    } else {
        assert(s.last() == after.last());
        assert(s.drop_last() =~= rest + after.drop_last());
        lemma_trim_end_drops(rest, after.drop_last());
    }
}

/// Where the text that is left by trimming stands.
pub proof fn lemma_trim_bounds(s: Seq<char>) -> (r: (int, int))
    ensures
        0 <= r.0 <= r.1 <= s.len(),
        text::trim(s) == s.subrange(r.0, r.1),
        forall|i: int| 0 <= i < r.0 ==> text::is_white_space(#[trigger] s[i]),
        forall|i: int| r.1 <= i < s.len() ==> text::is_white_space(#[trigger] s[i]),
        r.0 < r.1 ==> !text::is_white_space(s[r.0]) && !text::is_white_space(s[r.1 - 1]),
{
    let a = lemma_trim_start_bound(s, 0);
    assert(s.skip(0) =~= s);
    let b = lemma_trim_end_bound(s, a, s.len() as int);
    assert(s.subrange(a, s.len() as int) =~= s.skip(a));
    assert(text::trim(s) == s.subrange(a, b));
    (a, b)
}

proof fn lemma_trim_start_bound(s: Seq<char>, n: int) -> (a: int)
    requires
        0 <= n <= s.len(),
    ensures
        n <= a <= s.len(),
        text::trim_start(s.skip(n)) == s.skip(a),
        forall|i: int| n <= i < a ==> text::is_white_space(#[trigger] s[i]),
        a < s.len() ==> !text::is_white_space(s[a]),
    decreases s.len() - n,
{
    if n < s.len() {
        assert(s.skip(n)[0] == s[n]);
        if text::is_white_space(s[n]) {
            assert(s.skip(n).skip(1) =~= s.skip(n + 1));
            lemma_trim_start_bound(s, n + 1)
        } else {
            n
        }
    } else {
        n
    }
}

proof fn lemma_trim_end_bound(s: Seq<char>, from: int, n: int) -> (b: int)
    requires
        0 <= from <= n <= s.len(),
    ensures
        from <= b <= n,
        text::trim_end(s.subrange(from, n)) == s.subrange(from, b),
        forall|i: int| b <= i < n ==> text::is_white_space(#[trigger] s[i]),
        from < b ==> !text::is_white_space(s[b - 1]),
    decreases n - from,
{
    if from < n {
        assert(s.subrange(from, n).last() == s[n - 1]);
        if text::is_white_space(s[n - 1]) {
            assert(s.subrange(from, n).drop_last() =~= s.subrange(from, n - 1));
            lemma_trim_end_bound(s, from, n - 1)
        } else {
            n
        }
    } else {
        n
    }
}

/// Two texts are the same up to case when they have the same length and differ, where they do,
/// by the case of an ASCII letter.
pub proof fn law_case_is_that_of_ascii_letters(a: Seq<char>, b: Seq<char>)
    ensures
        text::same_ignoring_case(a, b) <==> a.len() == b.len() && forall|i: int|
            0 <= i < a.len() ==> {
                ||| #[trigger] a[i] == b[i]
                ||| 'A' <= a[i] <= 'Z' && b[i] as u32 == a[i] as u32 + 32
                ||| 'A' <= b[i] <= 'Z' && a[i] as u32 == b[i] as u32 + 32
            },
{
    let x = text::ascii_lower_all(a);
    let y = text::ascii_lower_all(b);
    if a.len() == b.len() {
        assert forall|i: int| 0 <= i < a.len() implies (x[i] == y[i] <==> {
            ||| #[trigger] a[i] == b[i]
            ||| 'A' <= a[i] <= 'Z' && b[i] as u32 == a[i] as u32 + 32
            ||| 'A' <= b[i] <= 'Z' && a[i] as u32 == b[i] as u32 + 32
        }) by {
            lemma_case_of_char(a[i], b[i]);
        }
        if text::same_ignoring_case(a, b) {
            assert forall|i: int| 0 <= i < a.len() implies {
                ||| #[trigger] a[i] == b[i]
                ||| 'A' <= a[i] <= 'Z' && b[i] as u32 == a[i] as u32 + 32
                ||| 'A' <= b[i] <= 'Z' && a[i] as u32 == b[i] as u32 + 32
            } by {
                assert(x[i] == y[i]);
            }
        } else if forall|i: int| 0 <= i < a.len() ==> {
            ||| #[trigger] a[i] == b[i]
            ||| 'A' <= a[i] <= 'Z' && b[i] as u32 == a[i] as u32 + 32
            ||| 'A' <= b[i] <= 'Z' && a[i] as u32 == b[i] as u32 + 32
        } {
            assert forall|i: int| 0 <= i < x.len() implies x[i] == y[i] by {
                assert(a[i] == a[i]);
            }
            assert(x =~= y);
        }
    } else {
        assert(x.len() == a.len() && y.len() == b.len());
    }
}

proof fn lemma_case_of_char(a: char, b: char)
    ensures
        text::ascii_lower(a) == text::ascii_lower(b) <==> {
            ||| a == b
            ||| 'A' <= a <= 'Z' && b as u32 == a as u32 + 32
            ||| 'A' <= b <= 'Z' && a as u32 == b as u32 + 32
        },
{
}

/// A number is one digit or more, and each digit that is added counts the ones before it ten
/// times.
pub proof fn law_numbers_are_decimal(s: Seq<char>, c: char)
    ensures
        text::is_number(s) <==> s.len() > 0 && forall|i: int|
            0 <= i < s.len() ==> '0' <= #[trigger] s[i] <= '9',
        text::number_value(Seq::<char>::empty()) == 0,
        48 <= c as u32 <= 57 ==> text::number_value(s.push(c)) == 10 * text::number_value(s)
            + (c as u32 - 48),
{
    assert(s.push(c).drop_last() =~= s);
    if text::is_number(s) {
        assert forall|i: int| 0 <= i < s.len() implies '0' <= #[trigger] s[i] <= '9' by {
            assert(text::is_digit(s[i]));
        }
    }
}

/// A number in decimal reads back as that number, and has no leading zero.
pub proof fn law_decimal_reads_back(n: nat)
    ensures
        text::is_number(numeral::decimal(n)),
        text::number_value(numeral::decimal(n)) == n,
        n > 0 ==> numeral::decimal(n)[0] != '0',
        n == 0 ==> numeral::decimal(n) == seq!['0'],
    decreases n,
{
    numeral::lemma_decimal_chars(n);
    let s = numeral::decimal(n);
    assert forall|i: int| 0 <= i < s.len() implies text::is_digit(#[trigger] s[i]) by {
        assert('0' <= s[i] <= '9');
    }
    if n >= 10 {
        law_decimal_reads_back(n / 10);
        numeral::lemma_decimal_chars(n / 10);
        law_numbers_are_decimal(numeral::decimal(n / 10), numeral::digit_char(n % 10));
        assert(s[0] == numeral::decimal(n / 10)[0]);
    } else {
        assert(s =~= Seq::<char>::empty().push(numeral::digit_char(n)));
        law_numbers_are_decimal(Seq::empty(), numeral::digit_char(n));
    }
}

/// A number in hex: one digit below sixteen, and for any other the digits of a sixteenth of it
/// with the last digit behind them. The digits above nine are the letters from `a` on.
pub proof fn law_hex_has_base_sixteen(n: nat, d: nat)
    requires
        d < 16,
    ensures
        numeral::hex(d).len() == 1,
        d < 10 ==> numeral::hex(d)[0] as u32 == 48 + d,
        d >= 10 ==> numeral::hex(d)[0] as u32 == 97 + (d - 10),
        n > 0 ==> numeral::hex(16 * n + d) == numeral::hex(n) + numeral::hex(d),
{
    if n > 0 {
        assert((16 * n + d) / 16 == n);
        assert((16 * n + d) % 16 == d);
        assert(numeral::hex(16 * n + d) =~= numeral::hex(n) + numeral::hex(d));
    }
}

/// White space around a text does not change what is left by trimming.
pub proof fn law_trim_ignores_white_space(before: Seq<char>, s: Seq<char>, after: Seq<char>)
    requires
        forall|i: int| 0 <= i < before.len() ==> text::is_white_space(#[trigger] before[i]),
        forall|i: int| 0 <= i < after.len() ==> text::is_white_space(#[trigger] after[i]),
    ensures
        text::trim(before + s + after) == text::trim(s),
{
    let (a, b) = lemma_trim_bounds(s);
    let left = before + s.take(a);
    let core = s.subrange(a, b);
    let right = s.skip(b) + after;
    assert(before + s + after =~= left + core + right);
    assert forall|i: int| 0 <= i < left.len() implies text::is_white_space(#[trigger] left[i]) by {
        if i < before.len() {
            assert(left[i] == before[i]);
        } else {
            assert(left[i] == s[i - before.len()]);
        }
    }
    assert forall|i: int| 0 <= i < right.len() implies text::is_white_space(
        #[trigger] right[i],
    ) by {
        if i < s.len() - b {
            assert(right[i] == s[b + i]);
        } else {
            assert(right[i] == after[i - (s.len() - b)]);
        }
    }
    law_trim_takes_off_white_space(left, core, right);
}

/// Around a character that is no white space, trimming works on the outer sides only.
pub proof fn lemma_trim_around(a: Seq<char>, c: char, b: Seq<char>)
    requires
        !text::is_white_space(c),
    ensures
        text::trim(a + seq![c] + b) == text::trim_start(a) + seq![c] + text::trim_end(b),
        text::trim(text::trim_start(a)) == text::trim(a),
        text::trim(text::trim_end(b)) == text::trim(b),
{
    let s = a + seq![c] + b;
    assert(a.skip(0) =~= a);
    let i = lemma_trim_start_bound(a, 0);
    let tail = a.skip(i) + seq![c] + b;
    assert(s =~= a.take(i) + tail);
    assert(tail[0] == if i < a.len() { a[i] } else { c });
    lemma_trim_start_drops(a.take(i), tail);
    assert(b.subrange(0, b.len() as int) =~= b);
    let j = lemma_trim_end_bound(b, 0, b.len() as int);
    assert(b.subrange(0, j) =~= b.take(j));
    let kept = a.skip(i) + seq![c] + b.take(j);
    assert(tail =~= kept + b.skip(j));
    assert(kept.last() == if j > 0 { b[j - 1] } else { c });
    lemma_trim_end_drops(kept, b.skip(j));
    let none = Seq::<char>::empty();
    law_trim_ignores_white_space(a.take(i), a.skip(i), none);
    assert(a.take(i) + a.skip(i) + none =~= a);
    law_trim_ignores_white_space(none, b.take(j), b.skip(j));
    assert(none + b.take(j) + b.skip(j) =~= b);
}

} // verus!
