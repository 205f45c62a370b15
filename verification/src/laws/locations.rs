//! Locations and dates: where a redirect leads, and when a file was modified.

use crate::headers;
use crate::laws::texts;
use crate::text;
use vstd::prelude::*;
use vstd::seq_lib::*;
use vstd::utf8::*;

verus! {

/// The upper-case hexadecimal digits in order.
pub open spec fn upper_digits() -> Seq<char> {
    seq!['0', '1', '2', '3', '4', '5', '6', '7', '8', '9', 'A', 'B', 'C', 'D', 'E', 'F']
}

/// A byte of a path stands for itself where it is a letter, a digit or one of `-._~`. Any other
/// is written as a percent sign and its two upper-case hexadecimal digits.
pub proof fn law_bytes_of_a_location(b: u8)
    ensures
        ({
            let c = b as char;
            if 'A' <= c <= 'Z' || 'a' <= c <= 'z' || '0' <= c <= '9' || c == '-' || c == '.' || c
                == '_' || c == '~' {
                headers::encoded_bytes(seq![b]) == seq![c]
            } else {
                headers::encoded_bytes(seq![b]) == seq![
                    '%',
                    upper_digits()[b as int / 16],
                    upper_digits()[b as int % 16],
                ]
            }
        }),
{
    reveal_with_fuel(headers::encoded_bytes, 2);
    assert(seq![b].drop_last() =~= Seq::<u8>::empty());
    assert(headers::encoded_bytes(seq![b]) =~= headers::encoded_byte(b));
}

/// A path is encoded byte by byte, in order.
pub proof fn law_segments_are_encoded_byte_by_byte(a: Seq<char>, b: Seq<char>)
    ensures
        headers::encoded_segment(Seq::<char>::empty()) == Seq::<char>::empty(),
        headers::encoded_segment(a) == headers::encoded_bytes(encode_utf8(a)),
        headers::encoded_segment(a + b) == headers::encoded_segment(a) + headers::encoded_segment(
            b,
        ),
{
    text::lemma_utf8_concat(a, b);
    assert(encode_utf8(Seq::<char>::empty()) =~= Seq::<u8>::empty());
    lemma_encoded_concat(encode_utf8(a), encode_utf8(b));
}

/// Two runs of bytes are encoded one behind the other.
pub proof fn lemma_encoded_concat(a: Seq<u8>, b: Seq<u8>)
    ensures
        headers::encoded_bytes(a + b) == headers::encoded_bytes(a) + headers::encoded_bytes(b),
    decreases b.len(),
{
    if b.len() == 0 {
        assert(a + b =~= a);
        assert(headers::encoded_bytes(a) + headers::encoded_bytes(b) =~= headers::encoded_bytes(a));
    } else {
        assert((a + b).drop_last() =~= a + b.drop_last());
        assert((a + b).last() == b.last());
        lemma_encoded_concat(a, b.drop_last());
        assert(headers::encoded_bytes(a + b) =~= headers::encoded_bytes(a)
            + headers::encoded_bytes(b));
    }
}

/// A redirect for the mount itself leads to its prefix, with one slash at its end.
pub proof fn law_location_of_the_mount(prefix: Seq<char>, rest: Seq<char>)
    ensures
        headers::location(rest + seq!['/'], Seq::empty(), None) == rest + seq!['/'],
        prefix.len() == 0 || prefix.last() != '/' ==> headers::location(prefix, Seq::empty(), None)
            == prefix + seq!['/'],
{
    let empty = Seq::<char>::empty();
    texts::law_split_is_at_every_separator(empty, empty, '/');
    text::lemma_filter_one(empty, |s: Seq<char>| s.len() > 0);
    assert(headers::rel_segments(empty) =~= Seq::<Seq<char>>::empty());
    assert(headers::location(rest + seq!['/'], empty, None) =~= rest + seq!['/']);
    if prefix.len() == 0 || prefix.last() != '/' {
        assert(headers::location(prefix, empty, None) =~= prefix + seq!['/']);
    }
}

/// A redirect for a path leads below the one for its parent: the segment encoded, and one slash.
pub proof fn law_location_grows_by_segments(
    prefix: Seq<char>,
    rel: Seq<char>,
    segment: Seq<char>,
)
    requires
        segment.len() > 0,
        !segment.contains('/'),
    ensures
        headers::location(prefix, segment, None) == headers::location(prefix, Seq::empty(), None)
            + headers::encoded_segment(segment) + seq!['/'],
        headers::location(prefix, rel + seq!['/'] + segment, None) == headers::location(
            prefix,
            rel,
            None,
        ) + headers::encoded_segment(segment) + seq!['/'],
{
    let empty = Seq::<char>::empty();
    let keep = |s: Seq<char>| s.len() > 0;
    texts::law_split_is_at_every_separator(empty, empty, '/');
    texts::law_split_is_at_every_separator(segment, empty, '/');
    texts::law_split_is_at_every_separator(rel, segment, '/');
    text::lemma_filter_one(empty, keep);
    text::lemma_filter_one(segment, keep);
    Seq::filter_distributes_over_add(text::split(rel, '/'), text::split(segment, '/'), keep);
    assert(headers::rel_segments(segment) =~= headers::rel_segments(empty) + seq![segment]);
    assert(headers::rel_segments(rel + seq!['/'] + segment) =~= headers::rel_segments(rel) + seq![
        segment,
    ]);
    lemma_path_grows(prefix, headers::rel_segments(empty), segment);
    lemma_path_grows(prefix, headers::rel_segments(rel), segment);
}

proof fn lemma_path_grows(prefix: Seq<char>, segments: Seq<Seq<char>>, segment: Seq<char>)
    requires
        segment.len() > 0,
    ensures
        headers::with_slash(headers::path_under(prefix, segments + seq![segment]))
            + headers::query_text(None) == headers::with_slash(
            headers::path_under(prefix, segments),
        ) + headers::query_text(None) + headers::encoded_segment(segment) + seq!['/'],
{
    let more = segments + seq![segment];
    assert(more.drop_last() =~= segments);
    assert(more.last() == segment);
    let path = headers::path_under(prefix, more);
    headers::lemma_encoded_chars(encode_utf8(segment));
    text::lemma_utf8_nonempty(segment);
    let encoded = headers::encoded_segment(segment);
    assert(headers::is_encoded_char(encoded[encoded.len() - 1]));
    assert(path.last() == encoded.last());
    assert(path.last() != '/');
    assert(headers::with_slash(path) + headers::query_text(None) =~= headers::with_slash(
        headers::path_under(prefix, segments),
    ) + headers::query_text(None) + encoded + seq!['/']);
}

/// A slash too many in a path changes nothing, and the query of a request is kept as it was
/// written, behind a question mark.
pub proof fn law_location_keeps_the_query(
    prefix: Seq<char>,
    rel: Seq<char>,
    rest: Seq<char>,
    query: Seq<char>,
)
    ensures
        headers::location(prefix, rel, Some(query)) == headers::location(prefix, rel, None) + seq![
            '?',
        ] + query,
        headers::location(prefix, rel + seq!['/'], None) == headers::location(prefix, rel, None),
        headers::location(prefix, seq!['/'] + rel, None) == headers::location(prefix, rel, None),
        headers::location(prefix, rel + seq!['/', '/'] + rest, None) == headers::location(
            prefix,
            rel + seq!['/'] + rest,
            None,
        ),
{
    let empty = Seq::<char>::empty();
    let keep = |s: Seq<char>| s.len() > 0;
    assert(headers::location(prefix, rel, Some(query)) =~= headers::location(prefix, rel, None)
        + seq!['?'] + query);
    texts::law_split_is_at_every_separator(empty, empty, '/');
    texts::law_split_is_at_every_separator(rel, empty, '/');
    texts::law_split_is_at_every_separator(empty, rel, '/');
    texts::law_split_is_at_every_separator(rel, rest, '/');
    texts::law_split_is_at_every_separator(empty, rest, '/');
    texts::law_split_is_at_every_separator(rel, empty + seq!['/'] + rest, '/');
    text::lemma_filter_one(empty, keep);
    let a = text::split(rel, '/');
    let b = text::split(rest, '/');
    let none = text::split(empty, '/');
    Seq::filter_distributes_over_add(a, none, keep);
    Seq::filter_distributes_over_add(none, a, keep);
    Seq::filter_distributes_over_add(none, b, keep);
    Seq::filter_distributes_over_add(a, b, keep);
    Seq::filter_distributes_over_add(a, none + b, keep);
    assert(rel + seq!['/'] + empty =~= rel + seq!['/']);
    assert(empty + seq!['/'] + rel =~= seq!['/'] + rel);
    assert(rel + seq!['/'] + (empty + seq!['/'] + rest) =~= rel + seq!['/', '/'] + rest);
    assert(headers::rel_segments(rel + seq!['/']) =~= headers::rel_segments(rel));
    assert(headers::rel_segments(seq!['/'] + rel) =~= headers::rel_segments(rel));
    assert(headers::rel_segments(rel + seq!['/', '/'] + rest) =~= headers::rel_segments(
        rel + seq!['/'] + rest,
    ));
}

/// A modification time is told to the second, and no earlier than the epoch and no later than the
/// end of the year 9999.
pub proof fn law_modification_times_are_held_in_range(mtime_sec: i64)
    ensures
        mtime_sec <= 0 ==> headers::last_modified_text(mtime_sec) == headers::http_date_text(0),
        0 <= mtime_sec <= 253402300799 ==> headers::last_modified_text(mtime_sec)
            == headers::http_date_text(mtime_sec as u64),
        mtime_sec >= 253402300799 ==> headers::last_modified_text(mtime_sec)
            == headers::http_date_text(253402300799),
{
}

} // verus!
