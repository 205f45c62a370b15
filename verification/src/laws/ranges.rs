//! `Range` headers: which bytes they select.

use crate::laws::texts;
use crate::numeral;
use crate::semantics;
use crate::semantics::RangeOutcome;
use crate::text;
use vstd::prelude::*;
use vstd::string::*;

verus! {

/// A header that asks for one range: the unit of bytes, and two ends around a dash that read as
/// given once the white space around them is taken off.
pub open spec fn is_one_range(
    header: Seq<char>,
    unit: Seq<char>,
    a: Seq<char>,
    b: Seq<char>,
    first: Seq<char>,
    last: Seq<char>,
) -> bool {
    &&& unit == "bytes="@ || unit == "Bytes="@
    &&& text::trim(header) == unit + a + seq!['-'] + b
    &&& !a.contains('-') && !a.contains(',') && !b.contains(',')
    &&& text::trim(a) == first
    &&& text::trim(b) == last
}

/// What a header that asks for one range comes to.
proof fn lemma_one_range(
    header: Seq<char>,
    unit: Seq<char>,
    a: Seq<char>,
    b: Seq<char>,
    first: Seq<char>,
    last: Seq<char>,
    len: u64,
)
    requires
        is_one_range(header, unit, a, b, first, last),
        len > 0,
    ensures
        semantics::range_outcome(header, len) == semantics::selected(first, last, len),
{
    reveal_strlit("bytes=");
    reveal_strlit("Bytes=");
    let specs = a + seq!['-'] + b;
    assert(unit + a + seq!['-'] + b =~= unit + specs);
    assert(!specs.contains(',')) by {
        if specs.contains(',') {
            let k = choose|k: int| 0 <= k < specs.len() && specs[k] == ',';
            if k < a.len() {
                assert(a[k] == ',');
            } else if k > a.len() {
                assert(b[k - a.len() - 1] == ',');
            }
        }
    }
    let trimmed = unit + specs;
    texts::law_prefix_is_taken_off(unit, specs, trimmed);
    if unit == "Bytes="@ {
        assert(trimmed[0] == 'B');
        if text::starts_with(trimmed, "bytes="@) {
            assert(trimmed.take(6)[0] == 'b');
        }
    }
    assert(semantics::byte_specs(trimmed) == Some(specs));
    texts::lemma_trim_around(a, '-', b);
    let (i, j) = texts::lemma_trim_bounds(a);
    let head = text::trim_start(a);
    assert(!head.contains('-')) by {
        lemma_trim_start_within(a, '-');
    }
    texts::law_split_once_is_at_the_first(head, text::trim_end(b), '-');
}

/// Trimming brings no character in.
proof fn lemma_trim_start_within(s: Seq<char>, c: char)
    requires
        !s.contains(c),
    ensures
        !text::trim_start(s).contains(c),
    decreases s.len(),
{
    if s.len() > 0 && text::is_white_space(s[0]) {
        assert(!s.skip(1).contains(c)) by {
            if s.skip(1).contains(c) {
                let k = choose|k: int| 0 <= k < s.skip(1).len() && s.skip(1)[k] == c;
                assert(s[k + 1] == c);
            }
        }
        lemma_trim_start_within(s.skip(1), c);
    }
}

/// A range with two ends selects the bytes from the first to the last, cut off at the end of the
/// representation. It selects nothing when it begins behind the end, or ends before it begins.
pub proof fn law_range_with_two_ends(
    header: Seq<char>,
    unit: Seq<char>,
    a: Seq<char>,
    b: Seq<char>,
    first: Seq<char>,
    last: Seq<char>,
    len: u64,
)
    requires
        is_one_range(header, unit, a, b, first, last),
        text::is_number(first),
        text::is_number(last),
        len > 0,
    ensures
        ({
            let from = text::number_value(first);
            let to = text::number_value(last);
            let end: int = if to < len { to as int } else { len - 1 };
            &&& from <= to && from < len ==> semantics::range_outcome(header, len)
                == (RangeOutcome::Satisfiable {
                offset: from as u64,
                len: (end - from + 1) as u64,
            })
            &&& from > to || from >= len ==> semantics::range_outcome(header, len)
                == RangeOutcome::Unsatisfiable
        }),
{
    lemma_one_range(header, unit, a, b, first, last, len);
}

/// A range without a last end reaches to the end of the representation.
pub proof fn law_range_without_last_end(
    header: Seq<char>,
    unit: Seq<char>,
    a: Seq<char>,
    b: Seq<char>,
    first: Seq<char>,
    last: Seq<char>,
    len: u64,
)
    requires
        is_one_range(header, unit, a, b, first, last),
        text::is_number(first),
        last.len() == 0,
        len > 0,
    ensures
        ({
            let from = text::number_value(first);
            &&& from < len ==> semantics::range_outcome(header, len) == (
            RangeOutcome::Satisfiable { offset: from as u64, len: (len - from) as u64 })
            &&& from >= len ==> semantics::range_outcome(header, len)
                == RangeOutcome::Unsatisfiable
        }),
{
    lemma_one_range(header, unit, a, b, first, last, len);
}

/// A range without a first end selects that many of the last bytes, and all of them when there
/// are no more. None at all is nothing.
pub proof fn law_range_without_first_end(
    header: Seq<char>,
    unit: Seq<char>,
    a: Seq<char>,
    b: Seq<char>,
    first: Seq<char>,
    last: Seq<char>,
    len: u64,
)
    requires
        is_one_range(header, unit, a, b, first, last),
        first.len() == 0,
        text::is_number(last),
        len > 0,
    ensures
        ({
            let n = text::number_value(last);
            let count: int = if n < len { n as int } else { len as int };
            &&& n > 0 ==> semantics::range_outcome(header, len) == (RangeOutcome::Satisfiable {
                offset: (len - count) as u64,
                len: count as u64,
            })
            &&& n == 0 ==> semantics::range_outcome(header, len) == RangeOutcome::Unsatisfiable
        }),
{
    lemma_one_range(header, unit, a, b, first, last, len);
}

/// Any other header is ignored: one that is not a single range of bytes, one whose ends are not
/// written in digits, one without ends, and every one for an empty representation.
pub proof fn law_other_headers_select_everything(header: Seq<char>, len: u64)
    requires
        len == 0 || forall|
            unit: Seq<char>,
            a: Seq<char>,
            b: Seq<char>,
            first: Seq<char>,
            last: Seq<char>,
        | #[trigger]
            is_one_range(header, unit, a, b, first, last) ==> {
                ||| first.len() == 0 && last.len() == 0
                ||| first.len() > 0 && !text::is_number(first)
                ||| last.len() > 0 && !text::is_number(last)
            },
    ensures
        semantics::range_outcome(header, len) == RangeOutcome::Ignored,
{
    if semantics::range_outcome(header, len) != RangeOutcome::Ignored {
        let trimmed = text::trim(header);
        let specs = semantics::byte_specs(trimmed).unwrap();
        let lower = text::strip_prefix(trimmed, "bytes="@) is Some;
        let unit = if lower { "bytes="@ } else { "Bytes="@ };
        texts::law_prefix_is_taken_off(unit, specs, trimmed);
        assert(trimmed == unit + specs);
        let (i, j) = texts::lemma_trim_bounds(specs);
        let inner = text::trim(specs);
        let at = text::find(inner, '-');
        texts::law_find_is_first(inner, '-');
        let f = inner.take(at);
        let l = inner.skip(at + 1);
        let a = specs.take(i) + f;
        let b = l + specs.skip(j);
        assert(inner =~= f + seq!['-'] + l);
        assert(specs =~= a + seq!['-'] + b);
        assert(unit + specs =~= unit + a + seq!['-'] + b);
        assert forall|k: int| 0 <= k < a.len() implies a[k] != '-' by {
            if k < i {
                assert(a[k] == specs[k]);
            } else {
                assert(a[k] == inner[k - i]);
            }
        }
        assert forall|k: int| 0 <= k < a.len() implies a[k] != ',' by {
            assert(a[k] == specs[k]);
            assert(specs.contains(specs[k]));
        }
        assert forall|k: int| 0 <= k < b.len() implies b[k] != ',' by {
            assert(b[k] == specs[a.len() + 1 + k]);
            assert(specs.contains(specs[a.len() + 1 + k]));
        }
        let none = Seq::<char>::empty();
        texts::law_trim_ignores_white_space(specs.take(i), f, none);
        assert(specs.take(i) + f + none =~= a);
        texts::law_trim_ignores_white_space(none, l, specs.skip(j));
        assert(none + l + specs.skip(j) =~= b);
        assert(is_one_range(header, unit, a, b, text::trim(f), text::trim(l)));
    }
}

/// Ranges written in decimal: `bytes=a-b` selects the bytes `a` to `b` as far as there are such,
/// `bytes=a-` those from `a` on, and `bytes=-n` the last `n`. Nothing is selected only by a
/// range that begins behind the end, one that ends before it begins, and the last 0.
pub proof fn law_decimal_ranges(a: nat, b: nat, len: u64)
    requires
        len > 0,
    ensures
        ({
            let from_to = "bytes="@ + numeral::decimal(a) + seq!['-'] + numeral::decimal(b);
            let from_on = "bytes="@ + numeral::decimal(a) + seq!['-'];
            let last_ones = "bytes=-"@ + numeral::decimal(b);
            &&& a <= b < len ==> semantics::range_outcome(from_to, len) == (
            RangeOutcome::Satisfiable { offset: a as u64, len: (b - a + 1) as u64 })
            &&& a < len <= b ==> semantics::range_outcome(from_to, len) == (
            RangeOutcome::Satisfiable { offset: a as u64, len: (len - a) as u64 })
            &&& a < len ==> semantics::range_outcome(from_on, len) == (RangeOutcome::Satisfiable {
                offset: a as u64,
                len: (len - a) as u64,
            })
            &&& 0 < b < len ==> semantics::range_outcome(last_ones, len) == (
            RangeOutcome::Satisfiable { offset: (len - b) as u64, len: b as u64 })
            &&& b >= len ==> semantics::range_outcome(last_ones, len) == (
            RangeOutcome::Satisfiable { offset: 0, len })
            &&& a >= len || a > b ==> semantics::range_outcome(from_to, len)
                == RangeOutcome::Unsatisfiable
            &&& a >= len ==> semantics::range_outcome(from_on, len) == RangeOutcome::Unsatisfiable
            &&& b == 0 ==> semantics::range_outcome(last_ones, len) == RangeOutcome::Unsatisfiable
        }),
{
    reveal_strlit("bytes=");
    reveal_strlit("bytes=-");
    let unit = "bytes="@;
    let none = Seq::<char>::empty();
    let x = numeral::decimal(a);
    let y = numeral::decimal(b);
    texts::law_decimal_reads_back(a);
    texts::law_decimal_reads_back(b);
    lemma_plain_range(unit, x, y);
    lemma_plain_range(unit, x, none);
    lemma_plain_range(unit, none, y);
    assert(unit + x + seq!['-'] + none =~= unit + x + seq!['-']);
    assert(unit + none + seq!['-'] + y =~= "bytes=-"@ + y);
    law_range_with_two_ends(unit + x + seq!['-'] + y, unit, x, y, x, y, len);
    law_range_without_last_end(unit + x + seq!['-'] + none, unit, x, none, x, none, len);
    law_range_without_first_end(unit + none + seq!['-'] + y, unit, none, y, none, y, len);
}

/// Two ends in digits around a dash, behind the unit, ask for one range.
proof fn lemma_plain_range(unit: Seq<char>, x: Seq<char>, y: Seq<char>)
    requires
        unit == "bytes="@,
        x.len() == 0 || text::is_number(x),
        y.len() == 0 || text::is_number(y),
    ensures
        is_one_range(unit + x + seq!['-'] + y, unit, x, y, x, y),
{
    reveal_strlit("bytes=");
    let header = unit + x + seq!['-'] + y;
    let none = Seq::<char>::empty();
    assert forall|k: int| 0 <= k < x.len() implies text::is_digit(#[trigger] x[k]) by {}
    assert forall|k: int| 0 <= k < y.len() implies text::is_digit(#[trigger] y[k]) by {}
    assert(header[0] == 'b');
    assert(header.last() == if y.len() > 0 { y[y.len() - 1] } else { '-' });
    assert(y.len() > 0 ==> text::is_digit(y[y.len() - 1]));
    texts::law_trim_takes_off_white_space(none, header, none);
    assert(none + header + none =~= header);
    texts::law_trim_takes_off_white_space(none, x, none);
    assert(none + x + none =~= x);
    assert(x.len() > 0 ==> text::is_digit(x[x.len() - 1]));
    texts::law_trim_takes_off_white_space(none, y, none);
    assert(none + y + none =~= y);
}

} // verus!
