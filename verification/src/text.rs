//! Character-sequence primitives shared by every parser in the crate.
//!
//! A string is modelled by its characters, `Seq<char>`. The spec functions here are the few
//! sequence operations that header and path grammars are written in; each has an executable
//! counterpart on character slices.

use vstd::prelude::*;
use vstd::slice::slice_subrange;
use vstd::string::*;
use vstd::utf8::*;

verus! {

/// `String::push` appends one character to the end of the string.
pub assume_specification[ String::push ](s: &mut String, ch: char)
    ensures
        final(s)@ == old(s)@.push(ch),
;

/// Wraps `String::from_utf8`: bytes that are valid UTF-8 become the text that they encode, and
/// any other bytes are refused.
#[verifier::external_body]
pub(crate) fn text_from_utf8(bytes: Vec<u8>) -> (r: Option<String>)
    ensures
        r is Some <==> valid_utf8(bytes@),
        r matches Some(s) ==> s@ == decode_utf8(bytes@),
{
    String::from_utf8(bytes).ok()
}

/// The quoted, escaped form of a text, as `str`'s `Debug` writes it.
pub uninterp spec fn debug_text(s: Seq<char>) -> Seq<char>;

/// Wraps the `Debug` form of `str` in `format!`. The result is a function of the text.
#[verifier::external_body]
pub(crate) fn quoted(s: &str) -> (r: String)
    ensures
        r@ == debug_text(s@),
{
    format!("{:?}", s)
}

/// The quoted, escaped form of a path, as `std::path::Path`'s `Debug` writes it.
pub uninterp spec fn debug_path(s: Seq<char>) -> Seq<char>;

/// Wraps the `Debug` form of `std::path::Path` in `format!`, for a path that is text. The result
/// is a function of the text. It is not said to be the form that `quoted` gives.
#[verifier::external_body]
pub(crate) fn quoted_path(s: &str) -> (r: String)
    ensures
        r@ == debug_path(s@),
{
    format!("{:?}", std::path::Path::new(s))
}

// ---- specifications ----

/// Where `c` first occurs in `s`; the length of `s` when it does not occur.
pub open spec fn find(s: Seq<char>, c: char) -> int
    decreases s.len(),
{
    if s.len() == 0 || s[0] == c {
        0
    } else {
        1 + find(s.skip(1), c)
    }
}

/// Where `c` last occurs in `s`; `-1` when it does not occur.
pub open spec fn find_last(s: Seq<char>, c: char) -> int
    decreases s.len(),
{
    if s.len() == 0 {
        -1
    } else if s.last() == c {
        s.len() - 1
    } else {
        find_last(s.drop_last(), c)
    }
}

/// The pieces of `s` between occurrences of `sep`; one more piece than separators.
pub open spec fn split(s: Seq<char>, sep: char) -> Seq<Seq<char>>
    decreases s.len(),
{
    let at = find(s, sep);
    if at < 0 || at >= s.len() {
        seq![s]
    } else {
        seq![s.take(at)] + split(s.skip(at + 1), sep)
    }
}

/// What stands before and after the first `sep`, when there is one.
pub open spec fn split_once(s: Seq<char>, sep: char) -> Option<(Seq<char>, Seq<char>)> {
    let at = find(s, sep);
    if at < s.len() {
        Some((s.take(at), s.skip(at + 1)))
    } else {
        None
    }
}

/// The pieces with `sep` between each two neighbours.
pub open spec fn join(parts: Seq<Seq<char>>, sep: char) -> Seq<char>
    decreases parts.len(),
{
    if parts.len() == 0 {
        Seq::empty()
    } else if parts.len() == 1 {
        parts[0]
    } else {
        parts[0] + seq![sep] + join(parts.skip(1), sep)
    }
}

pub open spec fn starts_with(s: Seq<char>, prefix: Seq<char>) -> bool {
    prefix.len() <= s.len() && s.take(prefix.len() as int) == prefix
}

/// What follows `prefix`, when `s` starts with it.
pub open spec fn strip_prefix(s: Seq<char>, prefix: Seq<char>) -> Option<Seq<char>> {
    if starts_with(s, prefix) {
        Some(s.skip(prefix.len() as int))
    } else {
        None
    }
}

/// Unicode's `White_Space` property.
pub open spec fn is_white_space(c: char) -> bool {
    ||| '\t' <= c <= '\r'
    ||| c == ' '
    ||| c == '\u{85}'
    ||| c == '\u{a0}'
    ||| c == '\u{1680}'
    ||| '\u{2000}' <= c <= '\u{200a}'
    ||| c == '\u{2028}'
    ||| c == '\u{2029}'
    ||| c == '\u{202f}'
    ||| c == '\u{205f}'
    ||| c == '\u{3000}'
}

pub open spec fn trim_start(s: Seq<char>) -> Seq<char>
    decreases s.len(),
{
    if s.len() > 0 && is_white_space(s[0]) {
        trim_start(s.skip(1))
    } else {
        s
    }
}

pub open spec fn trim_end(s: Seq<char>) -> Seq<char>
    decreases s.len(),
{
    if s.len() > 0 && is_white_space(s.last()) {
        trim_end(s.drop_last())
    } else {
        s
    }
}

/// `s` without the white space around it.
pub open spec fn trim(s: Seq<char>) -> Seq<char> {
    trim_end(trim_start(s))
}

/// The lower-case form of an ASCII letter; any other character is its own.
pub open spec fn ascii_lower(c: char) -> char {
    if 'A' <= c <= 'Z' {
        (c as u32 + 32) as char
    } else {
        c
    }
}

pub open spec fn ascii_lower_all(s: Seq<char>) -> Seq<char> {
    s.map_values(|c: char| ascii_lower(c))
}

/// Equality of two texts up to the case of ASCII letters.
pub open spec fn same_ignoring_case(a: Seq<char>, b: Seq<char>) -> bool {
    ascii_lower_all(a) == ascii_lower_all(b)
}

pub open spec fn is_digit(c: char) -> bool {
    '0' <= c <= '9'
}

/// A non-empty run of ASCII digits.
pub open spec fn is_number(s: Seq<char>) -> bool {
    s.len() > 0 && forall|i: int| 0 <= i < s.len() ==> is_digit(#[trigger] s[i])
}

/// The number that a run of decimal digits denotes.
pub open spec fn number_value(s: Seq<char>) -> nat
    decreases s.len(),
{
    if s.len() == 0 {
        0
    } else {
        number_value(s.drop_last()) * 10 + (s.last() as u32 - '0' as u32) as nat
    }
}

/// Text of printable ASCII characters.
pub open spec fn is_printable(s: Seq<char>) -> bool {
    forall|i: int| 0 <= i < s.len() ==> ' ' <= #[trigger] s[i] <= '~'
}

/// The characters of each slice.
pub open spec fn views(parts: Seq<&[char]>) -> Seq<Seq<char>> {
    parts.map_values(|p: &[char]| p@)
}

// ---- lemmas ----

/// `find` is the one position with no `c` before it that holds `c` or is the end.
pub proof fn lemma_find(s: Seq<char>, c: char)
    ensures
        0 <= find(s, c) <= s.len(),
        forall|i: int| 0 <= i < find(s, c) ==> s[i] != c,
        find(s, c) < s.len() ==> s[find(s, c)] == c,
    decreases s.len(),
{
    if s.len() > 0 && s[0] != c {
        lemma_find(s.skip(1), c);
        assert forall|i: int| 0 <= i < find(s, c) implies s[i] != c by {
            if i > 0 {
                assert(s[i] == s.skip(1)[i - 1]);
            }
        }
    }
}

pub proof fn lemma_find_is(s: Seq<char>, c: char, at: int)
    requires
        0 <= at <= s.len(),
        forall|i: int| 0 <= i < at ==> s[i] != c,
        at < s.len() ==> s[at] == c,
    ensures
        find(s, c) == at,
{
    lemma_find(s, c);
    let k = find(s, c);
    if k < at {
        assert(s[k] != c);
    } else if at < k {
        assert(s[at] != c);
    }
}

/// `find_last` is the one position with no `c` after it that holds `c` or is `-1`.
pub proof fn lemma_find_last(s: Seq<char>, c: char)
    ensures
        -1 <= find_last(s, c) < s.len(),
        forall|i: int| find_last(s, c) < i < s.len() ==> s[i] != c,
        find_last(s, c) >= 0 ==> s[find_last(s, c)] == c,
    decreases s.len(),
{
    if s.len() > 0 && s.last() != c {
        lemma_find_last(s.drop_last(), c);
        assert forall|i: int| find_last(s, c) < i < s.len() implies s[i] != c by {
            if i < s.len() - 1 {
                assert(s[i] == s.drop_last()[i]);
            }
        }
    }
}

/// Splitting gives at least one piece, and no piece holds the separator.
pub proof fn lemma_split(s: Seq<char>, sep: char)
    ensures
        split(s, sep).len() >= 1,
        forall|i: int, j: int|
            0 <= i < split(s, sep).len() && 0 <= j < split(s, sep)[i].len()
                ==> split(s, sep)[i][j] != sep,
    decreases s.len(),
{
    lemma_find(s, sep);
    let at = find(s, sep);
    if at < s.len() {
        lemma_split(s.skip(at + 1), sep);
        let rest = split(s.skip(at + 1), sep);
        assert forall|i: int, j: int|
            0 <= i < split(s, sep).len() && 0 <= j < split(s, sep)[i].len() implies split(
            s,
            sep,
        )[i][j] != sep by {
            if i > 0 {
                assert(split(s, sep)[i] == rest[i - 1]);
            }
        }
    }
}

/// Every character of `s` but the separators stands in some piece.
pub proof fn lemma_split_covers(s: Seq<char>, sep: char, k: int)
    requires
        0 <= k < s.len(),
        s[k] != sep,
    ensures
        exists|i: int, j: int|
            0 <= i < split(s, sep).len() && 0 <= j < split(s, sep)[i].len() && #[trigger] split(
                s,
                sep,
            )[i][j] == s[k],
    decreases s.len(),
{
    lemma_find(s, sep);
    let at = find(s, sep);
    if at >= s.len() {
        assert(split(s, sep)[0][k] == s[k]);
    } else if k < at {
        assert(split(s, sep)[0][k] == s[k]);
    } else {
        let rest = s.skip(at + 1);
        assert(rest[k - at - 1] == s[k]);
        lemma_split_covers(rest, sep, k - at - 1);
        let (i, j) = choose|i: int, j: int|
            0 <= i < split(rest, sep).len() && 0 <= j < split(rest, sep)[i].len()
                && #[trigger] split(rest, sep)[i][j] == s[k];
        assert(split(s, sep)[i + 1] == split(rest, sep)[i]);
        assert(split(s, sep)[i + 1][j] == s[k]);
    }
}

/// Every character of a piece is one of `s`.
pub proof fn lemma_split_within(s: Seq<char>, sep: char, i: int, j: int)
    requires
        0 <= i < split(s, sep).len(),
        0 <= j < split(s, sep)[i].len(),
    ensures
        s.contains(split(s, sep)[i][j]),
    decreases s.len(),
{
    lemma_find(s, sep);
    let at = find(s, sep);
    if at >= s.len() {
        assert(s[j] == split(s, sep)[i][j]);
    } else if i == 0 {
        assert(s[j] == split(s, sep)[i][j]);
    } else {
        let rest = s.skip(at + 1);
        assert(split(s, sep)[i] == split(rest, sep)[i - 1]);
        lemma_split_within(rest, sep, i - 1, j);
        let k = choose|k: int| 0 <= k < rest.len() && rest[k] == split(rest, sep)[i - 1][j];
        assert(s[at + 1 + k] == rest[k]);
    }
}

/// The value of a digit run with one more digit at the end.
pub proof fn lemma_number_value_push(s: Seq<char>, c: char)
    ensures
        number_value(s.push(c)) == number_value(s) * 10 + (c as u32 - '0' as u32) as nat,
{
    assert(s.push(c).drop_last() =~= s);
}

/// A longer digit run denotes no smaller a number.
pub proof fn lemma_number_value_grows(s: Seq<char>, n: int)
    requires
        0 <= n <= s.len(),
    ensures
        number_value(s.take(n)) <= number_value(s),
    decreases s.len() - n,
{
    if n < s.len() {
        lemma_number_value_grows(s, n + 1);
        assert(s.take(n + 1).drop_last() =~= s.take(n));
    } else {
        assert(s.take(n) =~= s);
    }
}

/// Texts with the same UTF-8 bytes are the same.
pub proof fn lemma_utf8_injective(a: Seq<char>, b: Seq<char>)
    requires
        encode_utf8(a) == encode_utf8(b),
    ensures
        a == b,
{
    encode_utf8_decode_utf8(a);
    encode_utf8_decode_utf8(b);
}

/// The bytes of two texts in a row are those of the first and then those of the second.
pub proof fn lemma_utf8_concat(a: Seq<char>, b: Seq<char>)
    ensures
        encode_utf8(a + b) == encode_utf8(a) + encode_utf8(b),
    decreases a.len(),
{
    if a.len() == 0 {
        assert(a + b =~= b);
        assert(encode_utf8(a) + encode_utf8(b) =~= encode_utf8(b));
    } else {
        assert((a + b).drop_first() =~= a.drop_first() + b);
        lemma_utf8_concat(a.drop_first(), b);
        assert(encode_utf8(a + b) =~= encode_utf8(a) + encode_utf8(b));
    }
}

/// A text of at least one character has at least one byte.
pub proof fn lemma_utf8_nonempty(s: Seq<char>)
    requires
        s.len() > 0,
    ensures
        encode_utf8(s).len() > 0,
{
}

/// The bytes of one character: the character itself below 128, and bytes from 128 on otherwise.
proof fn lemma_utf8_char(c: char)
    ensures
        c <= '\u{7f}' ==> encode_scalar(c as u32) == seq![c as u8] && c as u8 as int == c as int,
        c > '\u{7f}' ==> forall|i: int|
            0 <= i < encode_scalar(c as u32).len() ==> #[trigger] encode_scalar(c as u32)[i]
                >= 0x80,
{
    char_is_scalar(c);
    let s = c as u32;
    if has_width_1_encoding(s) {
        assert(s as u8 == leading_byte_width_1(s)) by (bit_vector)
            requires
                has_width_1_encoding(s),
        ;
        assert(encode_scalar(s) =~= seq![c as u8]);
    } else {
        assert(last_continuation_byte(s) >= 0x80) by (bit_vector);
        assert(second_last_continuation_byte(s) >= 0x80) by (bit_vector);
        assert(third_last_continuation_byte(s) >= 0x80) by (bit_vector);
        assert(has_width_2_encoding(s) ==> leading_byte_width_2(s) >= 0x80) by (bit_vector);
        assert(has_width_3_encoding(s) ==> leading_byte_width_3(s) >= 0x80) by (bit_vector);
        assert(has_width_4_encoding(s) ==> leading_byte_width_4(s) >= 0x80) by (bit_vector);
    }
}

/// An ASCII character stands in a text exactly when its byte stands among the text's bytes.
pub proof fn lemma_utf8_ascii(s: Seq<char>, c: char)
    requires
        c <= '\u{7f}',
    ensures
        encode_utf8(s).contains(c as u8) <==> s.contains(c),
        c as u8 as int == c as int,
    decreases s.len(),
{
    lemma_utf8_char(c);
    if s.len() > 0 {
        let rest = s.drop_first();
        lemma_utf8_ascii(rest, c);
        lemma_utf8_char(s[0]);
        let head = encode_scalar(s[0] as u32);
        let bytes = encode_utf8(s);
        assert(bytes == head + encode_utf8(rest));
        if s.contains(c) {
            if s[0] == c {
                assert(bytes[0] == c as u8);
            } else {
                let k = choose|k: int| 0 <= k < s.len() && s[k] == c;
                assert(rest[k - 1] == c);
                let j = choose|j: int|
                    0 <= j < encode_utf8(rest).len() && encode_utf8(rest)[j] == c as u8;
                assert(bytes[head.len() + j] == c as u8);
            }
        }
        if bytes.contains(c as u8) {
            let j = choose|j: int| 0 <= j < bytes.len() && bytes[j] == c as u8;
            if j < head.len() {
                assert(head[j] == c as u8);
                assert(s[0] == c);
            } else {
                assert(encode_utf8(rest)[j - head.len()] == c as u8);
                let k = choose|k: int| 0 <= k < rest.len() && rest[k] == c;
                assert(s[k + 1] == c);
            }
        }
    }
}

/// Splitting at the separator undoes joining with it.
pub proof fn lemma_split_join(parts: Seq<Seq<char>>, sep: char)
    requires
        parts.len() > 0,
        forall|i: int| 0 <= i < parts.len() ==> !(#[trigger] parts[i]).contains(sep),
    ensures
        split(join(parts, sep), sep) == parts,
    decreases parts.len(),
{
    let s = join(parts, sep);
    if parts.len() == 1 {
        assert(s == parts[0]);
        lemma_find(s, sep);
        assert(split(s, sep) =~= parts);
    } else {
        let rest = parts.skip(1);
        let at = parts[0].len() as int;
        assert(s == parts[0] + seq![sep] + join(rest, sep));
        assert forall|i: int| 0 <= i < at implies s[i] != sep by {
            assert(s[i] == parts[0][i]);
        }
        lemma_find_is(s, sep, at);
        assert(s.take(at) =~= parts[0]);
        assert(s.skip(at + 1) =~= join(rest, sep));
        lemma_split_join(rest, sep);
        assert(split(s, sep) =~= parts);
    }
}

/// A leading separator puts an empty piece in front.
pub proof fn lemma_split_lead(s: Seq<char>, sep: char)
    ensures
        split(seq![sep] + s, sep) == seq![Seq::<char>::empty()] + split(s, sep),
{
    let whole = seq![sep] + s;
    lemma_find_is(whole, sep, 0);
    assert(whole.take(0) =~= Seq::empty());
    assert(whole.skip(1) =~= s);
}

/// A trailing separator puts an empty piece at the end.
pub proof fn lemma_split_trail(s: Seq<char>, sep: char)
    ensures
        split(s.push(sep), sep) == split(s, sep).push(Seq::empty()),
{
    let empty = Seq::<char>::empty();
    lemma_split_concat(s, empty, sep);
    assert(s + seq![sep] + empty =~= s.push(sep));
    assert(split(empty, sep) =~= seq![empty]);
    assert(split(s, sep) + seq![empty] =~= split(s, sep).push(empty));
}

/// Splitting what stands on either side of a separator.
pub proof fn lemma_split_concat(s: Seq<char>, t: Seq<char>, sep: char)
    ensures
        split(s + seq![sep] + t, sep) == split(s, sep) + split(t, sep),
    decreases s.len(),
{
    let whole = s + seq![sep] + t;
    lemma_find(s, sep);
    let at = find(s, sep);
    assert forall|i: int| 0 <= i < at implies whole[i] != sep by {
        assert(whole[i] == s[i]);
    }
    lemma_find_is(whole, sep, at);
    assert(whole.take(at) =~= s.take(at));
    if at < s.len() {
        assert(whole.skip(at + 1) =~= s.skip(at + 1) + seq![sep] + t);
        lemma_split_concat(s.skip(at + 1), t, sep);
        assert(split(whole, sep) =~= split(s, sep) + split(t, sep));
    } else {
        assert(s.take(at) =~= s);
        assert(whole.skip(at + 1) =~= t);
        assert(split(whole, sep) =~= split(s, sep) + split(t, sep));
    }
}

/// Text without the separator lengthens the last piece.
pub proof fn lemma_split_append(s: Seq<char>, t: Seq<char>, sep: char)
    requires
        !t.contains(sep),
    ensures
        split(s + t, sep) == split(s, sep).drop_last().push(split(s, sep).last() + t),
    decreases s.len(),
{
    let whole = s + t;
    lemma_find(s, sep);
    lemma_split(s, sep);
    let at = find(s, sep);
    if at < s.len() {
        assert forall|i: int| 0 <= i < at implies whole[i] != sep by {
            assert(whole[i] == s[i]);
        }
        lemma_find_is(whole, sep, at);
        assert(whole.take(at) =~= s.take(at));
        assert(whole.skip(at + 1) =~= s.skip(at + 1) + t);
        lemma_split_append(s.skip(at + 1), t, sep);
        lemma_split(s.skip(at + 1), sep);
        assert(split(whole, sep) =~= split(s, sep).drop_last().push(split(s, sep).last() + t));
    } else {
        assert forall|i: int| 0 <= i < whole.len() implies whole[i] != sep by {
            if i < s.len() {
                assert(whole[i] == s[i]);
            } else {
                assert(t.contains(t[i - s.len()]));
            }
        }
        lemma_find_is(whole, sep, whole.len() as int);
        assert(split(whole, sep) =~= split(s, sep).drop_last().push(split(s, sep).last() + t));
    }
}

/// Joining one more piece.
pub proof fn lemma_join_push(parts: Seq<Seq<char>>, last: Seq<char>, sep: char)
    requires
        parts.len() > 0,
    ensures
        join(parts.push(last), sep) == join(parts, sep) + seq![sep] + last,
    decreases parts.len(),
{
    let all = parts.push(last);
    assert(all.skip(1) =~= parts.skip(1).push(last));
    if parts.len() == 1 {
        assert(all.skip(1) =~= seq![last]);
        assert(join(all.skip(1), sep) == last);
    } else {
        lemma_join_push(parts.skip(1), last, sep);
        assert(join(parts, sep) == parts[0] + seq![sep] + join(parts.skip(1), sep));
    }
    assert(join(all, sep) =~= join(parts, sep) + seq![sep] + last);
}

/// Every character of joined pieces is the separator or stands in a piece.
pub proof fn lemma_join_chars(parts: Seq<Seq<char>>, sep: char, k: int)
    requires
        0 <= k < join(parts, sep).len(),
        join(parts, sep)[k] != sep,
    ensures
        exists|i: int|
            0 <= i < parts.len() && (#[trigger] parts[i]).contains(join(parts, sep)[k]),
    decreases parts.len(),
{
    let s = join(parts, sep);
    if k < parts[0].len() {
        assert(s[k] == parts[0][k]);
        assert(parts[0].contains(s[k]));
    } else {
        let rest = parts.skip(1);
        let n = k - parts[0].len() - 1;
        assert(s == parts[0] + seq![sep] + join(rest, sep));
        assert(s[k] == join(rest, sep)[n]);
        lemma_join_chars(rest, sep, n);
        let i = choose|i: int| 0 <= i < rest.len() && (#[trigger] rest[i]).contains(s[k]);
        assert(parts[i + 1] == rest[i]);
    }
}

/// Filtering one piece.
pub proof fn lemma_filter_one(part: Seq<char>, keep: spec_fn(Seq<char>) -> bool)
    ensures
        seq![part].filter(keep) == if keep(part) {
            seq![part]
        } else {
            Seq::empty()
        },
{
    reveal(Seq::filter);
    let one = seq![part];
    assert(one.drop_last() =~= Seq::empty());
    assert(one.drop_last().filter(keep) =~= Seq::empty());
    assert(one.last() == part);
    assert(one.filter(keep) =~= if keep(part) {
        seq![part]
    } else {
        Seq::empty()
    });
}

/// A filter that every piece passes changes nothing.
pub proof fn lemma_filter_all(parts: Seq<Seq<char>>, keep: spec_fn(Seq<char>) -> bool)
    requires
        forall|i: int| 0 <= i < parts.len() ==> keep(#[trigger] parts[i]),
    ensures
        parts.filter(keep) == parts,
    decreases parts.len(),
{
    reveal(Seq::filter);
    if parts.len() > 0 {
        let shorter = parts.drop_last();
        assert forall|i: int| 0 <= i < shorter.len() implies keep(#[trigger] shorter[i]) by {
            assert(shorter[i] == parts[i]);
        }
        lemma_filter_all(shorter, keep);
        assert(keep(parts[parts.len() - 1]));
        assert(parts.filter(keep) =~= parts);
    }
}

/// The pieces of joined pieces with a separator on either side.
pub proof fn lemma_split_wrapped(parts: Seq<Seq<char>>, sep: char)
    requires
        parts.len() > 0,
        forall|i: int| 0 <= i < parts.len() ==> !(#[trigger] parts[i]).contains(sep),
    ensures
        split((seq![sep] + join(parts, sep)).push(sep), sep) == seq![Seq::<char>::empty()] + parts
            + seq![Seq::<char>::empty()],
{
    lemma_split_join(parts, sep);
    lemma_split_lead(join(parts, sep), sep);
    lemma_split_trail(seq![sep] + join(parts, sep), sep);
}

/// The pieces of a separator alone.
pub proof fn lemma_split_separator(sep: char)
    ensures
        split(seq![sep], sep) == seq![Seq::<char>::empty(), Seq::<char>::empty()],
{
    let empty = Seq::<char>::empty();
    lemma_split_trail(empty, sep);
    assert(empty.push(sep) =~= seq![sep]);
    assert(split(empty, sep) =~= seq![empty]);
    assert(seq![empty].push(empty) =~= seq![empty, empty]);
}

/// A filter that drops the empty piece and keeps the pieces between.
pub proof fn lemma_filter_wrapped(parts: Seq<Seq<char>>, keep: spec_fn(Seq<char>) -> bool)
    requires
        !keep(Seq::empty()),
        forall|i: int| 0 <= i < parts.len() ==> keep(#[trigger] parts[i]),
    ensures
        (seq![Seq::<char>::empty()] + parts + seq![Seq::<char>::empty()]).filter(keep) == parts,
{
    let empty = seq![Seq::<char>::empty()];
    lemma_filter_one(Seq::empty(), keep);
    lemma_filter_all(parts, keep);
    Seq::filter_distributes_over_add(empty, parts, keep);
    Seq::filter_distributes_over_add(empty + parts, empty, keep);
    assert(empty.filter(keep) =~= Seq::empty());
    assert(Seq::<Seq<char>>::empty() + parts + Seq::<Seq<char>>::empty() =~= parts);
}

// ---- executable counterparts ----

/// The characters of a string, in order.
pub fn chars_of(s: &str) -> (r: Vec<char>)
    ensures
        r@ == s@,
{
    let mut out: Vec<char> = Vec::new();
    for c in it: s.chars()
        invariant
            out@ =~= it.seq().take(it.index() as int),
            it.seq() == s@,
    {
        out.push(c);
    }
    out
}

/// The string made of the given characters.
pub fn string_of(chars: &[char]) -> (r: String)
    ensures
        r@ == chars@,
{
    let mut out = String::new();
    push_chars(&mut out, chars);
    out
}

/// Appends the given characters.
pub fn push_chars(out: &mut String, chars: &[char])
    ensures
        final(out)@ == old(out)@ + chars@,
{
    let mut i: usize = 0;
    let ghost before = out@;
    while i < chars.len()
        invariant
            i <= chars@.len(),
            out@ =~= before + chars@.take(i as int),
        decreases chars.len() - i,
    {
        out.push(chars[i]);
        i += 1;
    }
}

/// Two texts in a row.
pub fn concat(a: &str, b: &str) -> (r: String)
    ensures
        r@ == a@ + b@,
{
    let mut out = a.to_owned();
    out.append(b);
    out
}

/// Whether two strings are the same text.
pub fn same_text(a: &str, b: &str) -> (r: bool)
    ensures
        r == (a@ == b@),
{
    let x: &[u8] = a.as_bytes();
    let y: &[u8] = b.as_bytes();
    if x.len() != y.len() {
        return false;
    }
    let mut i: usize = 0;
    while i < x.len()
        invariant
            i <= x@.len(),
            x@.len() == y@.len(),
            x@ == encode_utf8(a@),
            y@ == encode_utf8(b@),
            forall|j: int| 0 <= j < i ==> x@[j] == y@[j],
        decreases x.len() - i,
    {
        if x[i] != y[i] {
            return false;
        }
        i += 1;
    }
    proof {
        assert(x@ =~= y@);
        lemma_utf8_injective(a@, b@);
    }
    true
}

/// Whether two slices hold the same characters.
pub fn same_chars(a: &[char], b: &[char]) -> (r: bool)
    ensures
        r == (a@ == b@),
{
    if a.len() != b.len() {
        return false;
    }
    let mut i: usize = 0;
    while i < a.len()
        invariant
            i <= a@.len(),
            a@.len() == b@.len(),
            forall|j: int| 0 <= j < i ==> a@[j] == b@[j],
        decreases a.len() - i,
    {
        if a[i] != b[i] {
            return false;
        }
        i += 1;
    }
    assert(a@ =~= b@);
    true
}

/// Whether a slice holds exactly the given text.
pub fn is_text(a: &[char], b: &str) -> (r: bool)
    ensures
        r == (a@ == b@),
{
    let mut i: usize = 0;
    for c in it: b.chars()
        invariant
            it.seq() == b@,
            i == it.index(),
            i <= a@.len(),
            forall|j: int| 0 <= j < i ==> a@[j] == b@[j],
    {
        if i >= a.len() || a[i] != c {
            assert(it.seq()[it.index() as int] == c);
            return false;
        }
        i += 1;
    }
    assert(i == a@.len() ==> a@ =~= b@);
    i == a.len()
}

pub fn find_char(s: &[char], c: char) -> (r: usize)
    ensures
        r == find(s@, c),
        r <= s@.len(),
{
    let mut i: usize = 0;
    while i < s.len() && s[i] != c
        invariant
            i <= s@.len(),
            forall|j: int| 0 <= j < i ==> s@[j] != c,
        decreases s.len() - i,
    {
        i += 1;
    }
    proof {
        lemma_find_is(s@, c, i as int);
    }
    i
}

/// The position after the last `c`; zero when there is none.
pub fn find_last_end(s: &[char], c: char) -> (r: usize)
    ensures
        r == find_last(s@, c) + 1,
        r <= s@.len(),
{
    let mut i: usize = s.len();
    assert(s@.take(i as int) =~= s@);
    while i > 0 && s[i - 1] != c
        invariant
            i <= s@.len(),
            find_last(s@.take(i as int), c) == find_last(s@, c),
        decreases i,
    {
        assert(s@.take(i as int).drop_last() =~= s@.take(i - 1));
        i -= 1;
    }
    proof {
        lemma_find_last(s@, c);
    }
    i
}

pub fn has_char(s: &[char], c: char) -> (r: bool)
    ensures
        r == s@.contains(c),
{
    let at = find_char(s, c);
    proof {
        lemma_find(s@, c);
        if s@.contains(c) {
            let k = choose|k: int| 0 <= k < s@.len() && s@[k] == c;
            assert(find(s@, c) <= k);
        }
    }
    at < s.len()
}

pub fn split_chars<'a>(s: &'a [char], sep: char) -> (r: Vec<&'a [char]>)
    ensures
        views(r@) == split(s@, sep),
{
    let mut out: Vec<&'a [char]> = Vec::new();
    let mut rest: &'a [char] = s;
    assert(views(out@) =~= Seq::empty());
    loop
        invariant_except_break
            split(s@, sep) == views(out@) + split(rest@, sep),
        ensures
            views(out@) == split(s@, sep),
        decreases rest@.len(),
    {
        let at = find_char(rest, sep);
        let ghost before = out@;
        if at >= rest.len() {
            out.push(rest);
            proof {
                assert(views(out@) =~= views(before) + seq![rest@]);
            }
            break;
        }
        let piece = slice_subrange(rest, 0, at);
        out.push(piece);
        proof {
            assert(piece@ =~= rest@.take(at as int));
            assert(rest@.subrange(at + 1, rest@.len() as int) =~= rest@.skip(at + 1));
            assert(views(out@) =~= views(before) + seq![piece@]);
            assert(views(before) + split(rest@, sep) =~= views(out@) + split(
                rest@.skip(at + 1),
                sep,
            ));
        }
        rest = slice_subrange(rest, at + 1, rest.len());
    }
    out
}

pub fn split_chars_once<'a>(s: &'a [char], sep: char) -> (r: Option<(&'a [char], &'a [char])>)
    ensures
        r is Some == split_once(s@, sep) is Some,
        r matches Some(p) ==> split_once(s@, sep) == Some((p.0@, p.1@)),
{
    let at = find_char(s, sep);
    if at < s.len() {
        let head = slice_subrange(s, 0, at);
        let tail = slice_subrange(s, at + 1, s.len());
        assert(head@ =~= s@.take(at as int));
        assert(tail@ =~= s@.skip(at + 1));
        Some((head, tail))
    } else {
        None
    }
}

/// Joins slices with `sep` between each two neighbours.
pub fn join_chars(parts: &[&[char]], sep: char) -> (r: String)
    ensures
        r@ == join(views(parts@), sep),
{
    let mut out = String::new();
    let mut i: usize = 0;
    proof {
        assert(views(parts@).skip(0) =~= views(parts@));
    }
    while i < parts.len()
        invariant
            i <= parts@.len(),
            join(views(parts@), sep) == if 0 < i < parts@.len() {
                out@ + seq![sep] + join(views(parts@).skip(i as int), sep)
            } else {
                out@ + join(views(parts@).skip(i as int), sep)
            },
        decreases parts.len() - i,
    {
        let ghost rest = views(parts@).skip(i as int);
        let ghost before = out@;
        if i > 0 {
            out.push(sep);
        }
        push_chars(&mut out, parts[i]);
        proof {
            assert(rest[0] == parts@[i as int]@);
            assert(rest.skip(1) =~= views(parts@).skip(i + 1));
            if i + 1 < parts@.len() {
                assert(rest.len() > 1);
                assert(join(rest, sep) =~= rest[0] + seq![sep] + join(rest.skip(1), sep));
                if i > 0 {
                    assert(before + seq![sep] + join(rest, sep) =~= out@ + seq![sep] + join(
                        rest.skip(1),
                        sep,
                    ));
                } else {
                    assert(before + join(rest, sep) =~= out@ + seq![sep] + join(
                        rest.skip(1),
                        sep,
                    ));
                }
            } else {
                assert(join(rest, sep) == rest[0]);
                assert(join(rest.skip(1), sep) =~= Seq::empty());
                if i > 0 {
                    assert(before + seq![sep] + join(rest, sep) =~= out@ + join(rest.skip(1), sep));
                } else {
                    assert(before + join(rest, sep) =~= out@ + join(rest.skip(1), sep));
                }
            }
        }
        i += 1;
    }
    proof {
        assert(views(parts@).skip(i as int) =~= Seq::empty());
        assert(out@ + join(views(parts@).skip(i as int), sep) =~= out@);
    }
    out
}

pub fn starts_with_text(s: &[char], prefix: &str) -> (r: bool)
    ensures
        r == starts_with(s@, prefix@),
{
    let p = chars_of(prefix);
    if p.len() > s.len() {
        return false;
    }
    let head = slice_subrange(s, 0, p.len());
    assert(head@ =~= s@.take(p@.len() as int));
    same_chars(head, p.as_slice())
}

pub fn strip_text_prefix<'a>(s: &'a [char], prefix: &str) -> (r: Option<&'a [char]>)
    ensures
        r is Some == strip_prefix(s@, prefix@) is Some,
        r matches Some(rest) ==> strip_prefix(s@, prefix@) == Some(rest@),
{
    let p = chars_of(prefix);
    if p.len() > s.len() {
        return None;
    }
    let head = slice_subrange(s, 0, p.len());
    assert(head@ =~= s@.take(p@.len() as int));
    if same_chars(head, p.as_slice()) {
        let rest = slice_subrange(s, p.len(), s.len());
        assert(rest@ =~= s@.skip(p@.len() as int));
        Some(rest)
    } else {
        None
    }
}

pub fn white_space(c: char) -> (r: bool)
    ensures
        r == is_white_space(c),
{
    ('\t' <= c && c <= '\r') || c == ' ' || c == '\u{85}' || c == '\u{a0}' || c == '\u{1680}' || (
    '\u{2000}' <= c && c <= '\u{200a}') || c == '\u{2028}' || c == '\u{2029}' || c == '\u{202f}'
        || c == '\u{205f}' || c == '\u{3000}'
}

pub fn trim_chars<'a>(s: &'a [char]) -> (r: &'a [char])
    ensures
        r@ == trim(s@),
{
    let mut i: usize = 0;
    assert(s@.skip(0) =~= s@);
    while i < s.len() && white_space(s[i])
        invariant
            i <= s@.len(),
            trim_start(s@.skip(i as int)) == trim_start(s@),
        decreases s.len() - i,
    {
        assert(s@.skip(i as int).skip(1) =~= s@.skip(i + 1));
        i += 1;
    }
    let tail = slice_subrange(s, i, s.len());
    assert(tail@ =~= s@.skip(i as int));
    let mut j: usize = tail.len();
    assert(tail@.take(j as int) =~= tail@);
    while j > 0 && white_space(tail[j - 1])
        invariant
            j <= tail@.len(),
            trim_end(tail@.take(j as int)) == trim_end(tail@),
        decreases j,
    {
        assert(tail@.take(j as int).drop_last() =~= tail@.take(j - 1));
        j -= 1;
    }
    let out = slice_subrange(tail, 0, j);
    assert(out@ =~= tail@.take(j as int));
    out
}

pub fn lower_char(c: char) -> (r: char)
    ensures
        r == ascii_lower(c),
{
    if 'A' <= c && c <= 'Z' {
        (c as u8 + 32) as char
    } else {
        c
    }
}

/// Equality up to the case of ASCII letters.
pub fn same_chars_ignoring_case(a: &[char], b: &str) -> (r: bool)
    ensures
        r == same_ignoring_case(a@, b@),
{
    let other = chars_of(b);
    if a.len() != other.len() {
        assert(ascii_lower_all(a@).len() != ascii_lower_all(other@).len());
        return false;
    }
    let mut i: usize = 0;
    while i < a.len()
        invariant
            i <= a@.len(),
            a@.len() == other@.len(),
            other@ == b@,
            forall|j: int| 0 <= j < i ==> ascii_lower(a@[j]) == ascii_lower(other@[j]),
        decreases a.len() - i,
    {
        if lower_char(a[i]) != lower_char(other[i]) {
            assert(ascii_lower_all(a@)[i as int] != ascii_lower_all(other@)[i as int]);
            return false;
        }
        i += 1;
    }
    assert(ascii_lower_all(a@) =~= ascii_lower_all(other@));
    true
}

pub fn digit(c: char) -> (r: bool)
    ensures
        r == is_digit(c),
{
    '0' <= c && c <= '9'
}

pub fn is_number_text(s: &[char]) -> (r: bool)
    ensures
        r == is_number(s@),
{
    if s.len() == 0 {
        return false;
    }
    let mut i: usize = 0;
    while i < s.len()
        invariant
            i <= s@.len(),
            forall|j: int| 0 <= j < i ==> is_digit(#[trigger] s@[j]),
        decreases s.len() - i,
    {
        if !digit(s[i]) {
            return false;
        }
        i += 1;
    }
    true
}

} // verus!
