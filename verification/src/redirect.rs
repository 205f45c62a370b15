//! What the redirect that adds a trailing slash leads to.

use crate::headers;
use crate::pipeline;
use crate::pipeline::{CandidateView, ClassificationView, MountView};
use crate::text;
use vstd::prelude::*;
use vstd::utf8::*;

verus! {

/// A prefix followed by segments as they are, each after a single slash.
spec fn plain_under(prefix: Seq<char>, segments: Seq<Seq<char>>) -> Seq<char>
    decreases segments.len(),
{
    if segments.len() == 0 {
        prefix
    } else {
        headers::with_slash(plain_under(prefix, segments.drop_last())) + segments.last()
    }
}

proof fn lemma_slash_decodes(p: Seq<char>, q: Seq<char>)
    requires
        pipeline::percent_decoded(encode_utf8(p)) == Some(encode_utf8(q)),
        pipeline::ends_with_slash(p) == pipeline::ends_with_slash(q),
    ensures
        pipeline::percent_decoded(encode_utf8(headers::with_slash(p))) == Some(
            encode_utf8(headers::with_slash(q)),
        ),
{
    if !pipeline::ends_with_slash(p) {
        let slash = seq!['/'];
        assert(p.push('/') =~= p + slash);
        assert(q.push('/') =~= q + slash);
        text::lemma_utf8_concat(p, slash);
        text::lemma_utf8_concat(q, slash);
        text::lemma_utf8_ascii(slash, '%');
        assert(!slash.contains('%'));
        headers::lemma_decode_plain(encode_utf8(slash));
        headers::lemma_decode_concat(encode_utf8(p), encode_utf8(slash));
    }
}

/// The text of a path with plain segments ends in the last of them.
proof fn lemma_prefix_end(segments: Seq<Seq<char>>)
    requires
        segments.len() > 0,
        segments.last().len() > 0,
        !segments.last().contains('/'),
    ensures
        !pipeline::ends_with_slash(pipeline::prefix_text(segments)),
{
    let last = segments.last();
    let shorter = segments.drop_last();
    assert(segments =~= shorter.push(last));
    if shorter.len() > 0 {
        text::lemma_join_push(shorter, last, '/');
    } else {
        assert(segments =~= seq![last]);
    }
    assert(text::join(segments, '/').last() == last[last.len() - 1]);
    assert(pipeline::prefix_text(segments).last() == last[last.len() - 1]);
    assert(last.contains(last[last.len() - 1]));
}

/// Segments below a prefix, written out.
proof fn lemma_plain_under(prefix: Seq<Seq<char>>, segments: Seq<Seq<char>>)
    requires
        forall|i: int| 0 <= i < prefix.len() ==> pipeline::is_plain_segment(#[trigger] prefix[i]),
        forall|i: int|
            0 <= i < segments.len() ==> pipeline::is_plain_segment(#[trigger] segments[i]),
    ensures
        plain_under(pipeline::prefix_text(prefix), segments) == pipeline::prefix_text(
            prefix + segments,
        ),
    decreases segments.len(),
{
    let root = pipeline::prefix_text(prefix);
    if segments.len() == 0 {
        assert(prefix + segments =~= prefix);
    } else {
        let shorter = segments.drop_last();
        let last = segments.last();
        assert forall|i: int| 0 <= i < shorter.len() implies pipeline::is_plain_segment(
            #[trigger] shorter[i],
        ) by {
            assert(shorter[i] == segments[i]);
        }
        lemma_plain_under(prefix, shorter);
        let before = prefix + shorter;
        assert(prefix + segments =~= before.push(last));
        if before.len() > 0 {
            assert(pipeline::is_plain_segment(before.last())) by {
                if shorter.len() > 0 {
                    assert(before.last() == shorter[shorter.len() - 1]);
                } else {
                    assert(before.last() == prefix[prefix.len() - 1]);
                }
            }
            lemma_prefix_end(before);
            text::lemma_join_push(before, last, '/');
        } else {
            assert(before.push(last) =~= seq![last]);
            assert(text::join(before, '/') =~= Seq::empty());
            assert(pipeline::prefix_text(before) =~= seq!['/']);
        }
        assert(plain_under(root, segments) =~= pipeline::prefix_text(prefix + segments));
    }
}

proof fn lemma_slashed_path_screens(segments: Seq<Seq<char>>)
    requires
        forall|i: int|
            0 <= i < segments.len() ==> pipeline::is_plain_segment(#[trigger] segments[i]),
    ensures
        pipeline::screened(
            encode_utf8(headers::with_slash(pipeline::prefix_text(segments))),
        ) is None,
{
    let joined = text::join(segments, '/');
    let path = headers::with_slash(pipeline::prefix_text(segments));
    let bytes = encode_utf8(path);
    assert forall|k: int| 0 <= k < path.len() implies !pipeline::is_control_char(
        #[trigger] path[k],
    ) by {
        if path[k] != '/' {
            assert(path[k] == joined[k - 1]);
            text::lemma_join_chars(segments, '/', k - 1);
            let i = choose|i: int|
                0 <= i < segments.len() && (#[trigger] segments[i]).contains(joined[k - 1]);
            let n = choose|n: int| 0 <= n < segments[i].len() && segments[i][n] == joined[k - 1];
            assert(pipeline::is_plain_segment(segments[i]));
            assert(!pipeline::is_control_char(segments[i][n]));
        }
    }
    encode_utf8_valid_utf8(path);
    assert forall|j: int| 0 <= j < bytes.len() implies !pipeline::is_control_byte(
        #[trigger] bytes[j],
    ) by {
        if pipeline::is_control_byte(bytes[j]) {
            let c = bytes[j] as char;
            text::lemma_utf8_ascii(path, c);
            assert(bytes.contains(c as u8));
            let k = choose|k: int| 0 <= k < path.len() && path[k] == c;
            assert(pipeline::is_control_char(path[k]));
        }
    }
    if bytes.contains(0) {
        let j = choose|j: int| 0 <= j < bytes.len() && bytes[j] == 0;
        assert(pipeline::is_control_byte(bytes[j]));
    }
}

/// The pieces of the slash-terminated path of plain segments: the segments, between empty ones.
proof fn lemma_slashed_pieces(segments: Seq<Seq<char>>)
    requires
        forall|i: int|
            0 <= i < segments.len() ==> pipeline::is_plain_segment(#[trigger] segments[i]),
    ensures
        text::split(headers::with_slash(pipeline::prefix_text(segments)), '/') == seq![
            Seq::<char>::empty(),
        ] + segments + seq![Seq::<char>::empty()],
        pipeline::ends_with_slash(headers::with_slash(pipeline::prefix_text(segments))),
{
    let empty = Seq::<char>::empty();
    let root = pipeline::prefix_text(segments);
    if segments.len() == 0 {
        assert(root =~= seq!['/']);
        text::lemma_split_separator('/');
        assert(seq![empty] + segments + seq![empty] =~= seq![empty, empty]);
    } else {
        assert(pipeline::is_plain_segment(segments[segments.len() - 1]));
        lemma_prefix_end(segments);
        assert forall|i: int| 0 <= i < segments.len() implies !(#[trigger] segments[i]).contains(
            '/',
        ) by {
            assert(pipeline::is_plain_segment(segments[i]));
        }
        text::lemma_split_wrapped(segments, '/');
    }
}

/// The slash-terminated path of plain segments has just those segments.
proof fn lemma_slashed_segments(segments: Seq<Seq<char>>)
    requires
        forall|i: int|
            0 <= i < segments.len() ==> pipeline::is_plain_segment(#[trigger] segments[i]),
    ensures
        pipeline::path_segments(headers::with_slash(pipeline::prefix_text(segments))) == segments,
{
    let keep = |s: Seq<char>| pipeline::is_kept(s);
    lemma_slashed_pieces(segments);
    assert forall|i: int| 0 <= i < segments.len() implies keep(#[trigger] segments[i]) by {
        assert(pipeline::is_plain_segment(segments[i]));
    }
    text::lemma_filter_wrapped(segments, keep);
}

/// The slash-terminated path of plain segments holds no `..`.
proof fn lemma_slashed_has_no_dot_dot(segments: Seq<Seq<char>>)
    requires
        forall|i: int|
            0 <= i < segments.len() ==> pipeline::is_plain_segment(#[trigger] segments[i]),
    ensures
        !pipeline::has_dot_dot(headers::with_slash(pipeline::prefix_text(segments))),
{
    lemma_slashed_pieces(segments);
    let pieces = seq![Seq::<char>::empty()] + segments + seq![Seq::<char>::empty()];
    assert forall|k: int| 0 <= k < pieces.len() implies #[trigger] pieces[k]
        != pipeline::dot_dot() by {
        if 0 < k <= segments.len() {
            assert(pieces[k] == segments[k - 1]);
            assert(pipeline::is_plain_segment(segments[k - 1]));
        } else {
            assert(pieces[k].len() == 0);
            assert(pipeline::dot_dot().len() == 2);
        }
    }
}

/// A path of encoded segments decodes to the path of the segments themselves.
proof fn lemma_path_under(prefix: Seq<char>, segments: Seq<Seq<char>>)
    requires
        prefix.len() > 0,
        !prefix.contains('%'),
        forall|i: int|
            0 <= i < segments.len() ==> (#[trigger] segments[i]).len() > 0
                && !segments[i].contains('/'),
    ensures
        headers::path_under(prefix, segments).len() > 0,
        headers::path_under(prefix, segments)[0] == prefix[0],
        pipeline::percent_decoded(encode_utf8(headers::path_under(prefix, segments))) == Some(
            encode_utf8(plain_under(prefix, segments)),
        ),
        segments.len() > 0 ==> !pipeline::ends_with_slash(headers::path_under(prefix, segments))
            && !pipeline::ends_with_slash(plain_under(prefix, segments)),
    decreases segments.len(),
{
    if segments.len() == 0 {
        text::lemma_utf8_ascii(prefix, '%');
        headers::lemma_decode_plain(encode_utf8(prefix));
    } else {
        let shorter = segments.drop_last();
        let last = segments.last();
        assert(last == segments[segments.len() - 1]);
        assert forall|i: int| 0 <= i < shorter.len() implies (#[trigger] shorter[i]).len() > 0
            && !shorter[i].contains('/') by {
            assert(shorter[i] == segments[i]);
        }
        lemma_path_under(prefix, shorter);
        let p = headers::path_under(prefix, shorter);
        let q = plain_under(prefix, shorter);
        lemma_slash_decodes(p, q);
        headers::law_encoding_decodes(last);
        text::lemma_utf8_concat(headers::with_slash(p), headers::encoded_segment(last));
        text::lemma_utf8_concat(headers::with_slash(q), last);
        headers::lemma_decode_concat(
            encode_utf8(headers::with_slash(p)),
            encode_utf8(headers::encoded_segment(last)),
        );
        headers::lemma_encoded_chars(encode_utf8(last));
        let encoded = headers::encoded_segment(last);
        text::lemma_utf8_nonempty(last);
        assert(headers::is_encoded_char(encoded[encoded.len() - 1]));
        assert(headers::path_under(prefix, segments).last() == encoded[encoded.len() - 1]);
        assert(plain_under(prefix, segments).last() == last[last.len() - 1]);
        assert(last.contains(last[last.len() - 1]));
    }
}

/// The segments of joined segments.
proof fn lemma_rel_segments(rel: Seq<Seq<char>>)
    requires
        forall|i: int| 0 <= i < rel.len() ==> pipeline::is_plain_segment(#[trigger] rel[i]),
    ensures
        headers::rel_segments(text::join(rel, '/')) == rel,
{
    let keep = |s: Seq<char>| s.len() > 0;
    let joined = text::join(rel, '/');
    if rel.len() == 0 {
        assert(text::split(joined, '/') =~= seq![joined]);
        text::lemma_filter_one(joined, keep);
        assert(headers::rel_segments(joined) =~= rel);
    } else {
        assert forall|i: int| 0 <= i < rel.len() implies !(#[trigger] rel[i]).contains('/') by {
            assert(pipeline::is_plain_segment(rel[i]));
        }
        assert forall|i: int| 0 <= i < rel.len() implies keep(#[trigger] rel[i]) by {
            assert(pipeline::is_plain_segment(rel[i]));
        }
        text::lemma_split_join(rel, '/');
        text::lemma_filter_all(rel, keep);
    }
}

/// No mount prefix holds a character that is forbidden in one.
proof fn lemma_prefix_chars(m: MountView, k: int)
    requires
        pipeline::is_mount(m),
        0 <= k < pipeline::prefix_text(m.segments).len(),
    ensures
        !pipeline::is_forbidden_in_prefix(pipeline::prefix_text(m.segments)[k]),
{
    let joined = text::join(m.segments, '/');
    let c = pipeline::prefix_text(m.segments)[k];
    if c != '/' {
        assert(c == joined[k - 1]);
        text::lemma_join_chars(m.segments, '/', k - 1);
        let i = choose|i: int| 0 <= i < m.segments.len() && (#[trigger] m.segments[i]).contains(c);
        assert(pipeline::is_prefix_segment(m.segments[i]));
        let n = choose|n: int| 0 <= n < m.segments[i].len() && m.segments[i][n] == c;
        assert(!pipeline::is_forbidden_in_prefix(m.segments[i][n]));
    }
}

proof fn lemma_encoded_char(c: char)
    requires
        headers::is_encoded_char(c),
    ensures
        !pipeline::is_control_char(c),
        c != '/',
        c != '?',
{
}

/// Every character of a path is one of its prefix, a slash, or an encoded one.
proof fn lemma_path_chars(prefix: Seq<char>, segments: Seq<Seq<char>>, k: int)
    requires
        0 <= k < headers::path_under(prefix, segments).len(),
    ensures
        ({
            let c = headers::path_under(prefix, segments)[k];
            prefix.contains(c) || c == '/' || headers::is_encoded_char(c)
        }),
    decreases segments.len(),
{
    if segments.len() == 0 {
        assert(prefix.contains(prefix[k]));
    } else {
        let before = headers::path_under(prefix, segments.drop_last());
        let encoded = headers::encoded_segment(segments.last());
        let slashed = headers::with_slash(before);
        assert(headers::path_under(prefix, segments) == slashed + encoded);
        if k < before.len() {
            lemma_path_chars(prefix, segments.drop_last(), k);
        } else if k >= slashed.len() {
            headers::lemma_encoded_chars(encode_utf8(segments.last()));
            assert(headers::is_encoded_char(encoded[k - slashed.len()]));
        }
    }
}

/// What stands before the query of a redirect location.
proof fn lemma_location_path(m: MountView, rel_path: Seq<char>, query: Option<Seq<char>>)
    requires
        pipeline::is_mount(m),
    ensures
        pipeline::raw_path(headers::location(pipeline::prefix_text(m.segments), rel_path, query))
            == headers::with_slash(
            headers::path_under(
                pipeline::prefix_text(m.segments),
                headers::rel_segments(rel_path),
            ),
        ),
{
    let prefix = pipeline::prefix_text(m.segments);
    let segments = headers::rel_segments(rel_path);
    let path = headers::with_slash(headers::path_under(prefix, segments));
    let loc = headers::location(prefix, rel_path, query);
    assert forall|k: int| 0 <= k < path.len() implies loc[k] != '?' by {
        assert(loc[k] == path[k]);
        if k < headers::path_under(prefix, segments).len() {
            lemma_path_chars(prefix, segments, k);
            let c = path[k];
            if prefix.contains(c) {
                let j = choose|j: int| 0 <= j < prefix.len() && prefix[j] == c;
                lemma_prefix_chars(m, j);
            }
        }
    }
    text::lemma_find_is(loc, '?', path.len() as int);
    assert(loc.take(path.len() as int) =~= path);
}

/// A screened path without `..` is a candidate of the mount that serves its segments.
proof fn lemma_path_classified(
    method: Seq<char>,
    target: Seq<char>,
    table: Seq<MountView>,
    bytes: Seq<u8>,
    path: Seq<char>,
    segments: Seq<Seq<char>>,
    mount: int,
)
    requires
        pipeline::is_eligible_method(method),
        pipeline::is_origin_form(target),
        pipeline::percent_decoded(encode_utf8(pipeline::raw_path(target))) == Some(bytes),
        pipeline::screened(bytes) is None,
        decode_utf8(bytes) == path,
        !pipeline::has_dot_dot(path),
        pipeline::ends_with_slash(path),
        pipeline::path_segments(path) == segments,
        pipeline::best_mount(table, segments) == Some(mount),
        table[mount].allow_dotfiles || !pipeline::has_dotfile(
            segments.skip(table[mount].segments.len() as int),
        ),
    ensures
        pipeline::classification(method, target, table) == ClassificationView::Candidate(
            CandidateView {
                mount,
                rel_path: text::join(segments.skip(table[mount].segments.len() as int), '/'),
                trailing_slash: true,
            },
        ),
{
}

/// A target whose path is the slash-terminated one of the given segments is a candidate of the
/// mount that serves them.
proof fn lemma_classified(
    method: Seq<char>,
    target: Seq<char>,
    table: Seq<MountView>,
    segments: Seq<Seq<char>>,
    mount: int,
)
    requires
        pipeline::is_eligible_method(method),
        pipeline::is_origin_form(target),
        pipeline::percent_decoded(encode_utf8(pipeline::raw_path(target))) == Some(
            encode_utf8(headers::with_slash(pipeline::prefix_text(segments))),
        ),
        forall|i: int|
            0 <= i < segments.len() ==> pipeline::is_plain_segment(#[trigger] segments[i]),
        pipeline::best_mount(table, segments) == Some(mount),
        table[mount].allow_dotfiles || !pipeline::has_dotfile(
            segments.skip(table[mount].segments.len() as int),
        ),
    ensures
        pipeline::classification(method, target, table) == ClassificationView::Candidate(
            CandidateView {
                mount,
                rel_path: text::join(segments.skip(table[mount].segments.len() as int), '/'),
                trailing_slash: true,
            },
        ),
{
    let path = headers::with_slash(pipeline::prefix_text(segments));
    encode_utf8_decode_utf8(path);
    lemma_slashed_segments(segments);
    lemma_slashed_has_no_dot_dot(segments);
    lemma_slashed_path_screens(segments);
    lemma_slashed_pieces(segments);
    lemma_path_classified(method, target, table, encode_utf8(path), path, segments, mount);
}

/// The redirect that adds a trailing slash leads to the same relative path below the same
/// mount, now with the slash. So no redirect leads to another.
pub proof fn law_redirect_lands(
    method: Seq<char>,
    target: Seq<char>,
    table: Seq<MountView>,
    c: CandidateView,
    query: Option<Seq<char>>,
)
    requires
        pipeline::is_mount_table(table),
        pipeline::classification(method, target, table) == ClassificationView::Candidate(c),
    ensures
        pipeline::classification(
            method,
            headers::location(
                pipeline::prefix_text(table[c.mount].segments),
                c.rel_path,
                query,
            ),
            table,
        ) == ClassificationView::Candidate(
            CandidateView { mount: c.mount, rel_path: c.rel_path, trailing_slash: true },
        ),
{
    pipeline::lemma_candidate(method, target, table);
    let segments = pipeline::target_segments(target);
    let m = table[c.mount];
    let n = m.segments.len() as int;
    let rel = segments.skip(n);
    let prefix = pipeline::prefix_text(m.segments);
    let loc = headers::location(prefix, c.rel_path, query);
    assert(m.segments + rel =~= segments);
    assert forall|i: int| 0 <= i < rel.len() implies pipeline::is_plain_segment(
        #[trigger] rel[i],
    ) by {
        assert(rel[i] == segments[n + i]);
    }
    assert forall|i: int| 0 <= i < m.segments.len() implies pipeline::is_plain_segment(
        #[trigger] m.segments[i],
    ) by {
        assert(m.segments[i] == segments[i]);
    }
    lemma_rel_segments(rel);
    lemma_location_path(m, c.rel_path, query);
    lemma_mount_path_decodes(m, rel);
    assert(pipeline::is_origin_form(loc)) by {
        assert(loc[0] == headers::path_under(prefix, rel)[0]);
    }
    lemma_classified(method, loc, table, segments, c.mount);
}

/// A path below a mount, encoded and slash-terminated, decodes to the path itself.
proof fn lemma_mount_path_decodes(m: MountView, rel: Seq<Seq<char>>)
    requires
        pipeline::is_mount(m),
        forall|i: int|
            0 <= i < m.segments.len() ==> pipeline::is_plain_segment(#[trigger] m.segments[i]),
        forall|i: int| 0 <= i < rel.len() ==> pipeline::is_plain_segment(#[trigger] rel[i]),
    ensures
        ({
            let under = headers::path_under(pipeline::prefix_text(m.segments), rel);
            &&& under.len() > 0
            &&& under[0] == '/'
            &&& pipeline::percent_decoded(encode_utf8(headers::with_slash(under))) == Some(
                encode_utf8(headers::with_slash(pipeline::prefix_text(m.segments + rel))),
            )
        }),
{
    let prefix = pipeline::prefix_text(m.segments);
    assert forall|i: int| 0 <= i < rel.len() implies (#[trigger] rel[i]).len() > 0
        && !rel[i].contains('/') by {
        assert(pipeline::is_plain_segment(rel[i]));
    }
    if prefix.contains('%') {
        let j = choose|j: int| 0 <= j < prefix.len() && prefix[j] == '%';
        lemma_prefix_chars(m, j);
    }
    lemma_path_under(prefix, rel);
    lemma_plain_under(m.segments, rel);
    lemma_slash_decodes(headers::path_under(prefix, rel), plain_under(prefix, rel));
}

/// A redirect location starts with exactly one slash.
pub proof fn law_location_is_single_rooted(
    m: MountView,
    rel_path: Seq<char>,
    query: Option<Seq<char>>,
)
    requires
        pipeline::is_mount(m),
    ensures
        ({
            let loc = headers::location(pipeline::prefix_text(m.segments), rel_path, query);
            &&& loc.len() > 0
            &&& loc[0] == '/'
            &&& loc.len() > 1 ==> loc[1] != '/'
        }),
{
    let prefix = pipeline::prefix_text(m.segments);
    let segments = headers::rel_segments(rel_path);
    lemma_rel_segments_not_empty(rel_path);
    lemma_path_root(m, segments);
    let under = headers::path_under(prefix, segments);
    let loc = headers::location(prefix, rel_path, query);
    assert(loc[0] == under[0]);
    if under.len() > 1 {
        assert(loc[1] == under[1]);
    } else {
        assert(headers::with_slash(under) =~= under);
        if loc.len() > 1 {
            assert(loc[1] == headers::query_text(query)[0]);
        }
    }
}

proof fn lemma_rel_segments_not_empty(rel_path: Seq<char>)
    ensures
        forall|i: int|
            0 <= i < headers::rel_segments(rel_path).len() ==> (#[trigger] headers::rel_segments(
                rel_path,
            )[i]).len() > 0,
{
    let keep = |s: Seq<char>| s.len() > 0;
    let all = text::split(rel_path, '/');
    pipeline::lemma_filter_keeps(all, keep);
    assert forall|i: int| 0 <= i < headers::rel_segments(rel_path).len() implies (
    #[trigger] headers::rel_segments(rel_path)[i]).len() > 0 by {
        assert(keep(all.filter(keep)[i]));
    }
}

/// A path below a mount starts with one slash; where there is more, another character follows.
proof fn lemma_path_root(m: MountView, segments: Seq<Seq<char>>)
    requires
        pipeline::is_mount(m),
        forall|i: int| 0 <= i < segments.len() ==> (#[trigger] segments[i]).len() > 0,
    ensures
        ({
            let under = headers::path_under(pipeline::prefix_text(m.segments), segments);
            &&& under.len() > 0
            &&& under[0] == '/'
            &&& under.len() > 1 ==> under[1] != '/'
            &&& under.len() == 1 ==> m.segments.len() == 0 && segments.len() == 0
        }),
    decreases segments.len(),
{
    let prefix = pipeline::prefix_text(m.segments);
    if segments.len() == 0 {
        if m.segments.len() > 0 {
            let first = m.segments[0];
            assert(pipeline::is_prefix_segment(first));
            assert(text::join(m.segments, '/')[0] == first[0]);
            assert(prefix[1] == first[0]);
            assert(first.contains(first[0]));
        } else {
            assert(prefix =~= seq!['/']);
        }
    } else {
        let shorter = segments.drop_last();
        assert forall|i: int| 0 <= i < shorter.len() implies (#[trigger] shorter[i]).len() > 0 by {
            assert(shorter[i] == segments[i]);
        }
        lemma_path_root(m, shorter);
        let before = headers::path_under(prefix, shorter);
        let last = segments[segments.len() - 1];
        text::lemma_utf8_nonempty(last);
        headers::lemma_encoded_chars(encode_utf8(last));
        let encoded = headers::encoded_segment(last);
        assert(headers::is_encoded_char(encoded[0]));
        if before.len() == 1 {
            assert(headers::with_slash(before) =~= before);
            assert(headers::path_under(prefix, segments)[1] == encoded[0]);
        } else {
            assert(headers::path_under(prefix, segments)[1] == before[1]);
        }
    }
}

/// No control character stands before the query of a redirect location, so none of its
/// segments can end the header line.
pub proof fn law_location_has_no_control(
    m: MountView,
    rel_path: Seq<char>,
    query: Option<Seq<char>>,
    k: int,
)
    requires
        pipeline::is_mount(m),
        0 <= k < pipeline::raw_path(
            headers::location(pipeline::prefix_text(m.segments), rel_path, query),
        ).len(),
    ensures
        !pipeline::is_control_char(
            headers::location(pipeline::prefix_text(m.segments), rel_path, query)[k],
        ),
{
    let prefix = pipeline::prefix_text(m.segments);
    let segments = headers::rel_segments(rel_path);
    let under = headers::path_under(prefix, segments);
    let loc = headers::location(prefix, rel_path, query);
    lemma_location_path(m, rel_path, query);
    assert(loc[k] == headers::with_slash(under)[k]);
    if k < under.len() {
        lemma_path_chars(prefix, segments, k);
        let c = under[k];
        if prefix.contains(c) {
            let j = choose|j: int| 0 <= j < prefix.len() && prefix[j] == c;
            lemma_prefix_chars(m, j);
        } else if c != '/' {
            lemma_encoded_char(c);
        }
    }
}

/// A redirect location holds no control character at all, unless the query that it carries on
/// verbatim holds one.
pub proof fn law_location_ends_no_line(
    m: MountView,
    rel_path: Seq<char>,
    query: Option<Seq<char>>,
    k: int,
)
    requires
        pipeline::is_mount(m),
        query matches Some(q) ==> forall|i: int|
            0 <= i < q.len() ==> !pipeline::is_control_char(#[trigger] q[i]),
        0 <= k < headers::location(pipeline::prefix_text(m.segments), rel_path, query).len(),
    ensures
        !pipeline::is_control_char(
            headers::location(pipeline::prefix_text(m.segments), rel_path, query)[k],
        ),
{
    let prefix = pipeline::prefix_text(m.segments);
    let path = headers::with_slash(headers::path_under(prefix, headers::rel_segments(rel_path)));
    let loc = headers::location(prefix, rel_path, query);
    lemma_location_path(m, rel_path, query);
    if k < path.len() {
        law_location_has_no_control(m, rel_path, query, k);
    } else {
        assert(loc[k] == headers::query_text(query)[k - path.len()]);
        if let Some(q) = query {
            if k > path.len() {
                assert(loc[k] == q[k - path.len() - 1]);
            }
        }
    }
}

} // verus!
