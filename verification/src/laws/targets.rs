//! Request targets: which are refused, and which file of which mount the others name.

use crate::pipeline;
use crate::pipeline::{
    CandidateView, ClassificationView, MountView, NotStaticReason, PolicyMiss, StructuralReject,
};
use crate::text;
use vstd::prelude::*;
use vstd::string::*;
use vstd::utf8::*;

verus! {

/// A hex digit counts from 0 to 15: ten digits, and six letters in either case. No other byte
/// is one.
pub proof fn law_hex_digits(b: u8)
    ensures
        48 <= b <= 57 ==> pipeline::hex_digit_value(b) == Some((b - 48) as u8),
        65 <= b <= 70 ==> pipeline::hex_digit_value(b) == Some((b - 55) as u8),
        97 <= b <= 102 ==> pipeline::hex_digit_value(b) == Some((b - 87) as u8),
        !(48 <= b <= 57) && !(65 <= b <= 70) && !(97 <= b <= 102) ==> pipeline::hex_digit_value(
            b,
        ) is None,
{
}

/// Decoding goes through a text once from the left: a byte other than `%` stands for itself, a
/// `%` with two hex digits for the byte that they write, and a `%` without them spoils the whole.
pub proof fn law_decoding_is_once_from_the_left(b: u8, x: u8, y: u8, rest: Seq<u8>)
    ensures
        pipeline::percent_decoded(Seq::<u8>::empty()) == Some(Seq::<u8>::empty()),
        b != 37 ==> pipeline::percent_decoded(seq![b] + rest) == match pipeline::percent_decoded(
            rest,
        ) {
            Some(bytes) => Some(seq![b] + bytes),
            None => None,
        },
        pipeline::percent_decoded(seq![37u8, x, y] + rest) == match (
            pipeline::hex_digit_value(x),
            pipeline::hex_digit_value(y),
            pipeline::percent_decoded(rest),
        ) {
            (Some(hi), Some(lo), Some(bytes)) => Some(seq![(16 * hi + lo) as u8] + bytes),
            _ => None,
        },
        pipeline::percent_decoded(seq![37u8]) is None,
        pipeline::percent_decoded(seq![37u8, x]) is None,
{
    let a = seq![b] + rest;
    assert(a[0] == b && a.skip(1) =~= rest);
    let c = seq![37u8, x, y] + rest;
    assert(c[0] == 37 && c[1] == x && c[2] == y && c.skip(3) =~= rest);
}

/// A target is its path, or its path and a query behind the first `?`.
pub open spec fn target_of(path: Seq<char>, query: Option<Seq<char>>) -> Seq<char> {
    match query {
        None => path,
        Some(q) => path + seq!['?'] + q,
    }
}

/// The raw path of a target ends before its first `?`.
proof fn lemma_raw_path(path: Seq<char>, query: Option<Seq<char>>)
    requires
        !path.contains('?'),
    ensures
        pipeline::raw_path(target_of(path, query)) == path,
{
    let target = target_of(path, query);
    assert forall|i: int| 0 <= i < path.len() implies target[i] != '?' by {
        assert(target[i] == path[i]);
        assert(path.contains(path[i]));
    }
    text::lemma_find_is(target, '?', path.len() as int);
    assert(target.take(path.len() as int) =~= path);
}

/// Only GET and HEAD, in capitals, are answered, and only for targets that begin with a slash.
pub proof fn law_only_reads_of_paths_are_static(
    method: Seq<char>,
    target: Seq<char>,
    table: Seq<MountView>,
)
    ensures
        method != seq!['G', 'E', 'T'] && method != seq!['H', 'E', 'A', 'D']
            ==> pipeline::classification(method, target, table) == ClassificationView::NotStatic(
            NotStaticReason::MethodNotGetOrHead,
        ),
        (method == seq!['G', 'E', 'T'] || method == seq!['H', 'E', 'A', 'D']) && (target.len() == 0
            || target[0] != '/') ==> pipeline::classification(method, target, table)
            == ClassificationView::NotStatic(NotStaticReason::NonOriginForm),
{
    reveal_strlit("GET");
    reveal_strlit("HEAD");
    assert("GET"@ =~= seq!['G', 'E', 'T']);
    assert("HEAD"@ =~= seq!['H', 'E', 'A', 'D']);
}

/// The query has no say: a target is classified by its method and its raw path.
pub proof fn law_query_has_no_say(
    method: Seq<char>,
    path: Seq<char>,
    query: Option<Seq<char>>,
    table: Seq<MountView>,
)
    requires
        !path.contains('?'),
        path.len() > 0,
    ensures
        pipeline::classification(method, target_of(path, query), table)
            == pipeline::classification(method, path, table),
{
    lemma_raw_path(path, query);
    lemma_raw_path(path, None);
    assert(target_of(path, query)[0] == path[0]);
}

/// Whether a decoded path passes: no NUL, no control byte, and UTF-8.
pub open spec fn is_clean(bytes: Seq<u8>) -> bool {
    &&& forall|i: int| 0 <= i < bytes.len() ==> #[trigger] bytes[i] >= 32 && bytes[i] != 127
    &&& valid_utf8(bytes)
}

/// Which paths are refused, and why: a broken escape, a NUL, another control byte, bytes that
/// are no UTF-8, and a component `..`, in this order.
pub proof fn law_hostile_paths_are_named(
    method: Seq<char>,
    path: Seq<char>,
    query: Option<Seq<char>>,
    table: Seq<MountView>,
)
    requires
        method == seq!['G', 'E', 'T'] || method == seq!['H', 'E', 'A', 'D'],
        !path.contains('?'),
        path.len() > 0,
        path[0] == '/',
    ensures
        ({
            let class = pipeline::classification(method, target_of(path, query), table);
            match pipeline::percent_decoded(encode_utf8(path)) {
                None => class == ClassificationView::Reject(StructuralReject::InvalidEscape),
                Some(bytes) => {
                    if exists|i: int| 0 <= i < bytes.len() && #[trigger] bytes[i] == 0 {
                        class == ClassificationView::Reject(StructuralReject::NulByte)
                    } else if exists|i: int|
                        0 <= i < bytes.len() && (#[trigger] bytes[i] < 32 || bytes[i] == 127) {
                        class == ClassificationView::Reject(StructuralReject::ControlByte)
                    } else if !valid_utf8(bytes) {
                        class == ClassificationView::Reject(StructuralReject::NotUtf8)
                    } else if text::split(decode_utf8(bytes), '/').contains(seq!['.', '.']) {
                        class == ClassificationView::Reject(StructuralReject::DotDotComponent)
                    } else {
                        !(class is Reject)
                    }
                },
            }
        }),
{
    reveal_strlit("GET");
    reveal_strlit("HEAD");
    assert("GET"@ =~= seq!['G', 'E', 'T']);
    assert("HEAD"@ =~= seq!['H', 'E', 'A', 'D']);
    lemma_raw_path(path, query);
    assert(target_of(path, query)[0] == path[0]);
    if let Some(bytes) = pipeline::percent_decoded(encode_utf8(path)) {
        if exists|i: int| 0 <= i < bytes.len() && #[trigger] bytes[i] == 0 {
            let i = choose|i: int| 0 <= i < bytes.len() && #[trigger] bytes[i] == 0;
            assert(bytes.contains(bytes[i]));
        } else {
            assert(!bytes.contains(0));
            if exists|i: int| 0 <= i < bytes.len() && (#[trigger] bytes[i] < 32 || bytes[i] == 127) {
                let i = choose|i: int|
                    0 <= i < bytes.len() && (#[trigger] bytes[i] < 32 || bytes[i] == 127);
                assert(pipeline::is_control_byte(bytes[i]));
            } else {
                assert forall|i: int| 0 <= i < bytes.len() implies !pipeline::is_control_byte(
                    #[trigger] bytes[i],
                ) by {}
            }
        }
    }
}

/// The segments of a path: what stands between its slashes, but for what is empty or a dot.
pub open spec fn segments_of(path: Seq<char>) -> Seq<Seq<char>> {
    text::split(path, '/').filter(|s: Seq<char>| s.len() > 0 && s != seq!['.'])
}

pub proof fn lemma_segments(path: Seq<char>)
    ensures
        pipeline::path_segments(path) == segments_of(path),
{
    let f = |s: Seq<char>| pipeline::is_kept(s);
    let g = |s: Seq<char>| s.len() > 0 && s != seq!['.'];
    assert(f =~= g);
}

/// Whether segments begin with others.
pub open spec fn begins(prefix: Seq<Seq<char>>, segments: Seq<Seq<char>>) -> bool {
    prefix.len() <= segments.len() && forall|i: int|
        0 <= i < prefix.len() ==> #[trigger] prefix[i] == segments[i]
}

proof fn lemma_begins(m: MountView, segments: Seq<Seq<char>>)
    ensures
        pipeline::mount_matches(m, segments) <==> begins(m.segments, segments),
{
    let n = m.segments.len() as int;
    if pipeline::mount_matches(m, segments) {
        assert forall|i: int| 0 <= i < n implies #[trigger] m.segments[i] == segments[i] by {
            assert(segments.take(n)[i] == segments[i]);
        }
    }
    if begins(m.segments, segments) {
        assert(segments.take(n) =~= m.segments);
    }
}

/// A path without hostility is a candidate of the mount with the longest prefix that its
/// segments begin with, the first of such. What is left of the segments, joined by slashes, is
/// its relative path. It is a miss there exactly when the mount denies dotfiles and one of the
/// segments that are left has a dot as its first character.
pub proof fn law_paths_go_to_the_longest_mount(
    method: Seq<char>,
    path: Seq<char>,
    query: Option<Seq<char>>,
    table: Seq<MountView>,
    decoded: Seq<char>,
    i: int,
)
    requires
        method == seq!['G', 'E', 'T'] || method == seq!['H', 'E', 'A', 'D'],
        !path.contains('?'),
        path.len() > 0,
        path[0] == '/',
        pipeline::percent_decoded(encode_utf8(path)) == Some(encode_utf8(decoded)),
        is_clean(encode_utf8(decoded)),
        !text::split(decoded, '/').contains(seq!['.', '.']),
        0 <= i < table.len(),
        begins(table[i].segments, segments_of(decoded)),
        forall|j: int|
            0 <= j < table.len() && begins(#[trigger] table[j].segments, segments_of(decoded))
                ==> table[j].segments.len() <= table[i].segments.len() && (j < i
                ==> table[j].segments.len() < table[i].segments.len()),
    ensures
        ({
            let class = pipeline::classification(method, target_of(path, query), table);
            let rest = segments_of(decoded).skip(table[i].segments.len() as int);
            let dotted = exists|k: int|
                0 <= k < rest.len() && #[trigger] rest[k].len() > 0 && rest[k][0] == '.';
            if dotted && !table[i].allow_dotfiles {
                class == (ClassificationView::Miss { mount: i, reason: PolicyMiss::DotfileDenied })
            } else {
                class == ClassificationView::Candidate(
                    CandidateView {
                        mount: i,
                        rel_path: text::join(rest, '/'),
                        trailing_slash: decoded.len() > 0 && decoded.last() == '/',
                    },
                )
            }
        }),
{
    reveal_strlit("GET");
    reveal_strlit("HEAD");
    assert("GET"@ =~= seq!['G', 'E', 'T']);
    assert("HEAD"@ =~= seq!['H', 'E', 'A', 'D']);
    let segments = segments_of(decoded);
    lemma_clean_path(path, query, decoded);
    lemma_segments(decoded);
    lemma_best(table, segments, i);
    let rest = segments.skip(table[i].segments.len() as int);
    if pipeline::has_dotfile(rest) {
        let k = choose|k: int| 0 <= k < rest.len() && pipeline::is_dotfile(#[trigger] rest[k]);
        assert(rest[k].len() > 0 && rest[k][0] == '.');
    }
    if exists|k: int| 0 <= k < rest.len() && #[trigger] rest[k].len() > 0 && rest[k][0] == '.' {
        let k = choose|k: int|
            0 <= k < rest.len() && #[trigger] rest[k].len() > 0 && rest[k][0] == '.';
        assert(pipeline::is_dotfile(rest[k]));
    }
    assert(target_of(path, query)[0] == path[0]);
}

/// A path without hostility that begins with no mount is not served.
pub proof fn law_paths_outside_the_mounts_are_not_static(
    method: Seq<char>,
    path: Seq<char>,
    query: Option<Seq<char>>,
    table: Seq<MountView>,
    decoded: Seq<char>,
)
    requires
        method == seq!['G', 'E', 'T'] || method == seq!['H', 'E', 'A', 'D'],
        !path.contains('?'),
        path.len() > 0,
        path[0] == '/',
        pipeline::percent_decoded(encode_utf8(path)) == Some(encode_utf8(decoded)),
        is_clean(encode_utf8(decoded)),
        !text::split(decoded, '/').contains(seq!['.', '.']),
        forall|j: int|
            0 <= j < table.len() ==> !begins(#[trigger] table[j].segments, segments_of(decoded)),
    ensures
        pipeline::classification(method, target_of(path, query), table)
            == ClassificationView::NotStatic(NotStaticReason::NoMountMatched),
{
    reveal_strlit("GET");
    reveal_strlit("HEAD");
    assert("GET"@ =~= seq!['G', 'E', 'T']);
    assert("HEAD"@ =~= seq!['H', 'E', 'A', 'D']);
    let segments = segments_of(decoded);
    lemma_clean_path(path, query, decoded);
    lemma_segments(decoded);
    pipeline::law_best_mount_is_longest(table, segments);
    if let Some(k) = pipeline::best_mount(table, segments) {
        lemma_begins(table[k], segments);
        assert(begins(table[k].segments, segments));
    }
    assert(target_of(path, query)[0] == path[0]);
}

/// What is clean is not screened out, and reads as the text that it encodes.
proof fn lemma_clean_path(path: Seq<char>, query: Option<Seq<char>>, decoded: Seq<char>)
    requires
        !path.contains('?'),
        pipeline::percent_decoded(encode_utf8(path)) == Some(encode_utf8(decoded)),
        is_clean(encode_utf8(decoded)),
    ensures
        pipeline::raw_path(target_of(path, query)) == path,
        pipeline::screened(encode_utf8(decoded)) is None,
        decode_utf8(encode_utf8(decoded)) == decoded,
{
    lemma_raw_path(path, query);
    let bytes = encode_utf8(decoded);
    encode_utf8_decode_utf8(decoded);
    if bytes.contains(0) {
        let k = choose|k: int| 0 <= k < bytes.len() && bytes[k] == 0;
        assert(bytes[k] >= 32);
    }
    assert forall|k: int| 0 <= k < bytes.len() implies !pipeline::is_control_byte(
        #[trigger] bytes[k],
    ) by {
        assert(bytes[k] >= 32 && bytes[k] != 127);
    }
}

/// The mount that no other exceeds is the one that is found.
proof fn lemma_best(table: Seq<MountView>, segments: Seq<Seq<char>>, i: int)
    requires
        0 <= i < table.len(),
        begins(table[i].segments, segments),
        forall|j: int|
            0 <= j < table.len() && begins(#[trigger] table[j].segments, segments)
                ==> table[j].segments.len() <= table[i].segments.len() && (j < i
                ==> table[j].segments.len() < table[i].segments.len()),
    ensures
        pipeline::best_mount(table, segments) == Some(i),
    decreases table.len(),
{
    let before = table.drop_last();
    let last = table.len() - 1;
    lemma_begins(table[last], segments);
    if i == last {
        pipeline::law_best_mount_is_longest(before, segments);
        if let Some(k) = pipeline::best_mount(before, segments) {
            assert(before[k] == table[k]);
            lemma_begins(table[k], segments);
            assert(begins(table[k].segments, segments));
        }
    } else {
        assert forall|j: int|
            0 <= j < before.len() && begins(
                #[trigger] before[j].segments,
                segments,
            ) implies before[j].segments.len() <= before[i].segments.len() && (j < i
            ==> before[j].segments.len() < before[i].segments.len()) by {
            assert(before[j] == table[j]);
            assert(begins(table[j].segments, segments));
        }
        lemma_best(before, segments, i);
        if pipeline::mount_matches(table[last], segments) {
            assert(begins(table[last].segments, segments));
        }
    }
}

// ---- mount prefixes ----

/// A mount prefix is accepted when it begins with a slash and none of what stands between its
/// slashes is `.` or `..` or holds `%`, `?`, `#` or a control character. Its segments are what
/// stands between its slashes, but for what is empty.
pub proof fn law_mount_prefixes(prefix: Seq<char>)
    ensures
        pipeline::is_origin_form(prefix) <==> prefix.len() > 0 && prefix[0] == '/',
        pipeline::has_hostile_segment(prefix) <==> {
            ||| text::split(prefix, '/').contains(seq!['.'])
            ||| text::split(prefix, '/').contains(seq!['.', '.'])
            ||| exists|i: int|
                0 <= i < prefix.len() && {
                    ||| #[trigger] prefix[i] == '%'
                    ||| prefix[i] == '?'
                    ||| prefix[i] == '#'
                    ||| prefix[i] == '\u{7f}'
                    ||| prefix[i] < '\u{20}'
                }
        },
        pipeline::prefix_segments_of(prefix) == text::split(prefix, '/').filter(
            |s: Seq<char>| s.len() > 0,
        ),
{
    let pieces = text::split(prefix, '/');
    if pipeline::has_hostile_segment(prefix) {
        let i = choose|i: int|
            0 <= i < pieces.len() && pipeline::is_hostile_in_prefix(#[trigger] pieces[i]);
        if pieces[i] == seq!['.'] || pieces[i] == seq!['.', '.'] {
            assert(pieces.contains(pieces[i]));
        } else {
            let j = choose|j: int|
                0 <= j < pieces[i].len() && pipeline::is_forbidden_in_prefix(
                    #[trigger] pieces[i][j],
                );
            text::lemma_split_within(prefix, '/', i, j);
            let k = choose|k: int| 0 <= k < prefix.len() && prefix[k] == pieces[i][j];
            assert(prefix[k] == pieces[i][j]);
        }
    }
    if pieces.contains(seq!['.']) {
        let i = choose|i: int| 0 <= i < pieces.len() && pieces[i] == seq!['.'];
        assert(pipeline::is_hostile_in_prefix(text::split(prefix, '/')[i]));
    }
    if pieces.contains(seq!['.', '.']) {
        let i = choose|i: int| 0 <= i < pieces.len() && pieces[i] == seq!['.', '.'];
        assert(pipeline::is_hostile_in_prefix(text::split(prefix, '/')[i]));
    }
    if exists|i: int|
        0 <= i < prefix.len() && {
            ||| #[trigger] prefix[i] == '%'
            ||| prefix[i] == '?'
            ||| prefix[i] == '#'
            ||| prefix[i] == '\u{7f}'
            ||| prefix[i] < '\u{20}'
        } {
        let k = choose|i: int|
            0 <= i < prefix.len() && {
                ||| #[trigger] prefix[i] == '%'
                ||| prefix[i] == '?'
                ||| prefix[i] == '#'
                ||| prefix[i] == '\u{7f}'
                ||| prefix[i] < '\u{20}'
            };
        text::lemma_split_covers(prefix, '/', k);
        let (i, j) = choose|i: int, j: int|
            0 <= i < pieces.len() && 0 <= j < pieces[i].len() && #[trigger] pieces[i][j]
                == prefix[k];
        assert(pipeline::is_forbidden_in_prefix(pieces[i][j]));
        assert(pipeline::is_hostile_in_prefix(text::split(prefix, '/')[i]));
    }
}

/// Mounts with the same segments have the same prefix, and with other segments another: a slash
/// before each segment, and a slash alone for none.
pub proof fn law_prefixes_tell_mounts_apart(a: MountView, b: MountView)
    requires
        pipeline::is_mount(a),
        pipeline::is_mount(b),
    ensures
        pipeline::prefix_text(a.segments) == pipeline::prefix_text(b.segments) <==> a.segments
            == b.segments,
        pipeline::prefix_text(a.segments) == seq!['/'] + text::join(a.segments, '/'),
{
    pipeline::law_mount_prefix_is_normal(a);
    pipeline::law_mount_prefix_is_normal(b);
}

/// A mount table is one in which no two mounts have the same segments. The mount that is
/// reported otherwise is the first that has the segments of an earlier one.
pub proof fn law_tables_hold_each_prefix_once(table: Seq<MountView>, j: int)
    requires
        forall|i: int| 0 <= i < table.len() ==> pipeline::is_mount(#[trigger] table[i]),
    ensures
        pipeline::is_mount_table(table) <==> forall|i: int, k: int|
            0 <= i < k < table.len() ==> #[trigger] table[i].segments != #[trigger]
                table[k].segments,
        pipeline::first_repeat(table, j) ==> {
            &&& 0 <= j < table.len()
            &&& exists|i: int| 0 <= i < j && #[trigger] table[i].segments == table[j].segments
            &&& forall|i: int, k: int|
                0 <= i < k < j ==> #[trigger] table[i].segments != #[trigger] table[k].segments
        },
{
    assert forall|i: int, k: int| 0 <= i < table.len() && 0 <= k < table.len() implies (
    pipeline::prefix_text(#[trigger] table[i].segments) == pipeline::prefix_text(
        #[trigger] table[k].segments,
    ) <==> table[i].segments == table[k].segments) by {
        law_prefixes_tell_mounts_apart(table[i], table[k]);
    }
    if pipeline::first_repeat(table, j) {
        let i = choose|i: int|
            0 <= i < j && pipeline::prefix_text(#[trigger] table[i].segments)
                == pipeline::prefix_text(table[j].segments);
        assert(table[i].segments == table[j].segments);
        assert forall|i: int, k: int| 0 <= i < k < j implies #[trigger] table[i].segments
            != #[trigger] table[k].segments by {
            assert(!pipeline::repeats_earlier(table, k));
        }
    }
}

/// What stands for a classification and a candidate holds what they hold.
pub proof fn law_classifications_are_what_they_hold(
    class: pipeline::Classification,
    mount: usize,
    reason: PolicyMiss,
)
    ensures
        class matches pipeline::Classification::NotStatic(why) ==> class@
            == ClassificationView::NotStatic(why),
        class matches pipeline::Classification::Reject(why) ==> class@
            == ClassificationView::Reject(why),
        class == (pipeline::Classification::Miss { mount, reason }) ==> class@ == (
        ClassificationView::Miss { mount: mount as int, reason }),
        class matches pipeline::Classification::Candidate(c) ==> class@
            == ClassificationView::Candidate(
            CandidateView {
                mount: c.mount as int,
                rel_path: c.rel_path@,
                trailing_slash: c.trailing_slash,
            },
        ),
{
}

} // verus!
