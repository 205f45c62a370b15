//! Paths of the host: which lie within a docroot, and how they are shown.

use crate::laws::targets;
use crate::laws::texts;
use crate::paths;
use crate::pipeline;
use crate::root;
use crate::text;
use vstd::prelude::*;
use vstd::seq_lib::*;

verus! {

/// What a path begins with ahead of its names: a slash, a dot of its own, or nothing.
pub open spec fn beginning(path: Seq<char>) -> Seq<char> {
    if path.len() > 0 && path[0] == '/' {
        seq!['/']
    } else if path == seq!['.'] || (path.len() > 1 && path[0] == '.' && path[1] == '/') {
        seq!['.']
    } else {
        Seq::empty()
    }
}

proof fn lemma_components(path: Seq<char>)
    ensures
        paths::components_of(path) == if beginning(path).len() > 0 {
            seq![beginning(path)] + targets::segments_of(path)
        } else {
            targets::segments_of(path)
        },
        paths::path_start(path) == beginning(path),
{
    targets::lemma_segments(path);
    if path.len() > 0 {
        assert(path.take(1) =~= seq![path[0]]);
        if path.len() == 1 {
            assert(path =~= seq![path[0]]);
        }
    }
    if path == seq!['.'] {
        assert(path[0] == '.');
    }
}

/// A path lies within a directory when both begin alike and its names begin with those of the
/// directory. Every path lies within the one without names that begins with nothing.
pub proof fn law_within_is_by_whole_names(base: Seq<char>, path: Seq<char>)
    ensures
        paths::is_within(base, path) <==> {
            ||| beginning(base).len() == 0 && targets::segments_of(base).len() == 0
            ||| beginning(base) == beginning(path) && targets::begins(
                targets::segments_of(base),
                targets::segments_of(path),
            )
        },
{
    lemma_components(base);
    lemma_components(path);
    let names = targets::segments_of(base);
    let others = targets::segments_of(path);
    let all = paths::components_of(base);
    let seen = paths::components_of(path);
    let n = all.len() as int;
    if beginning(base).len() == 0 && names.len() == 0 {
        assert(seen.take(0) =~= all);
    } else if beginning(base) == beginning(path) {
        let k: int = if beginning(base).len() > 0 {
            1
        } else {
            0
        };
        if paths::is_within(base, path) {
            assert forall|i: int| 0 <= i < names.len() implies #[trigger] names[i] == others[i] by {
                assert(all[i + k] == names[i]);
                assert(seen.take(n)[i + k] == seen[i + k]);
                assert(seen[i + k] == others[i]);
            }
        }
        if targets::begins(names, others) {
            assert forall|i: int| 0 <= i < all.len() implies #[trigger] all[i] == seen.take(
                n,
            )[i] by {
                if i >= k {
                    assert(names[i - k] == others[i - k]);
                }
            }
            assert(seen.take(n) =~= all);
        }
    } else if paths::is_within(base, path) {
        assert(seen.take(n)[0] == seen[0]);
        assert(seen[0] == all[0]);
        assert(seq!['/'][0] == '/');
        assert(seq!['.'][0] == '.');
        if beginning(base).len() == 0 {
            lemma_names(base, 0);
        }
        if beginning(path).len() == 0 {
            lemma_names(path, 0);
        }
        assert(false);
    }
}

/// A name holds no slash.
proof fn lemma_names(path: Seq<char>, i: int)
    requires
        0 <= i < targets::segments_of(path).len(),
    ensures
        !targets::segments_of(path)[i].contains('/'),
        targets::segments_of(path)[i] != seq!['/'],
        targets::segments_of(path)[i] != seq!['.'],
{
    let keep = |s: Seq<char>| s.len() > 0 && s != seq!['.'];
    let pieces = text::split(path, '/');
    let names = pieces.filter(keep);
    assert(names == targets::segments_of(path));
    assert(names.contains(names[i]));
    pieces.lemma_filter_contains_rev(keep, names[i]);
    let k = choose|k: int| 0 <= k < pieces.len() && pieces[k] == names[i];
    text::lemma_split(path, '/');
    assert(!pieces[k].contains('/'));
    assert(seq!['/'][0] == '/');
    assert(seq!['/'].contains('/'));
}

/// A symlink escapes when it is absolute, or when what it leads to lies outside the docroot. One
/// that cannot be read, and a relative one that leads nowhere, do not.
pub proof fn law_symlinks_that_escape(
    base: Seq<char>,
    target: Seq<char>,
    resolved: Option<Seq<char>>,
    path: Seq<char>,
)
    ensures
        !root::link_escapes(base, None, resolved),
        target.len() > 0 && target[0] == '/' ==> root::link_escapes(base, Some(target), resolved),
        target.len() == 0 || target[0] != '/' ==> {
            &&& !root::link_escapes(base, Some(target), None)
            &&& root::link_escapes(base, Some(target), Some(path)) <==> !paths::is_within(
                base,
                path,
            )
        },
{
}

/// Whether a piece of a path is a name.
pub open spec fn is_name(piece: Seq<char>) -> bool {
    piece.len() > 0 && piece != seq!['.']
}

/// Behind all names of a docroot comes what is below it.
proof fn lemma_behind(a: Seq<Seq<char>>, b: Seq<Seq<char>>)
    requires
        b.len() > 0,
        is_name(b[0]),
    ensures
        paths::from_first_name(
            paths::behind_names(a + b, a.filter(|s: Seq<char>| pipeline::is_kept(s)).len()),
        ) == b,
    decreases a.len(),
{
    let keep = |s: Seq<char>| pipeline::is_kept(s);
    let n = a.filter(keep).len();
    let all = a + b;
    if a.len() == 0 {
        reveal(Seq::filter);
        assert(all =~= b);
    } else {
        let rest = a.skip(1);
        assert(a =~= seq![a[0]] + rest);
        Seq::filter_distributes_over_add(seq![a[0]], rest, keep);
        text::lemma_filter_one(a[0], keep);
        lemma_behind(rest, b);
        assert(all[0] == a[0]);
        assert(all.skip(1) =~= rest + b);
        if n == 0 {
            assert(!pipeline::is_kept(a[0]));
            assert(rest.filter(keep).len() == 0);
            assert(paths::behind_names(rest + b, 0) == rest + b);
        } else if pipeline::is_kept(a[0]) {
            assert(rest.filter(keep).len() == n - 1);
        } else {
            assert(rest.filter(keep).len() == n);
        }
    }
}

/// A path below a docroot is shown without it: what follows the docroot and a slash, where that
/// begins and ends with a name. A path that lies outside is shown whole.
pub proof fn law_paths_are_shown_below_their_docroot(base: Seq<char>, rel: Seq<char>)
    requires
        base.len() > 0,
        base[0] == '/',
    ensures
        ({
            let pieces = text::split(rel, '/');
            is_name(pieces[0]) && is_name(pieces.last()) ==> paths::shown_path(
                base,
                base + seq!['/'] + rel,
            ) == rel
        }),
        !paths::is_within(base, rel) ==> paths::shown_path(base, rel) == rel,
{
    let path = base + seq!['/'] + rel;
    let pieces = text::split(rel, '/');
    let keep = |s: Seq<char>| pipeline::is_kept(s);
    text::lemma_split(rel, '/');
    if is_name(pieces[0]) && is_name(pieces.last()) {
        texts::law_split_is_at_every_separator(base, rel, '/');
        texts::law_join_undoes_split(rel, '/');
        Seq::filter_distributes_over_add(text::split(base, '/'), pieces, keep);
        targets::lemma_segments(base);
        targets::lemma_segments(path);
        assert(path[0] == '/');
        law_within_is_by_whole_names(base, path);
        let names = pipeline::path_segments(base);
        assert(pipeline::path_segments(path) == names + pieces.filter(keep));
        assert(targets::begins(names, pipeline::path_segments(path)));
        lemma_behind(text::split(base, '/'), pieces);
    }
}

/// Slashes too many between a docroot and what is below it, or at the end of that, are not shown.
/// Without a docroot, a path that ends with a name is shown whole.
pub proof fn law_spare_slashes_are_not_shown(base: Seq<char>, rel: Seq<char>)
    requires
        is_name(text::split(rel, '/')[0]),
        is_name(text::split(rel, '/').last()),
    ensures
        base.len() > 0 && base[0] == '/' ==> {
            &&& paths::shown_path(base, base + seq!['/', '/'] + rel) == rel
            &&& paths::shown_path(base, base + seq!['/'] + rel + seq!['/']) == rel
        },
        paths::shown_path(Seq::empty(), rel) == rel,
        paths::shown_path(Seq::empty(), seq!['/'] + rel) == seq!['/'] + rel,
        paths::shown_path(Seq::empty(), rel + seq!['/']) == rel,
{
    let empty = Seq::<char>::empty();
    let keep = |s: Seq<char>| pipeline::is_kept(s);
    let pieces = text::split(rel, '/');
    let blank = seq![empty];
    text::lemma_split(rel, '/');
    texts::law_join_undoes_split(rel, '/');
    texts::law_split_is_at_every_separator(empty, empty, '/');
    texts::law_split_is_at_every_separator(rel, empty, '/');
    texts::law_split_is_at_every_separator(empty, rel, '/');
    assert(rel + seq!['/'] + empty =~= rel + seq!['/']);
    assert(empty + seq!['/'] + rel =~= seq!['/'] + rel);
    assert((pieces + blank).drop_last() =~= pieces);
    assert((pieces + blank).last() == empty);
    assert(paths::to_last_name(pieces + blank) == pieces) by {
        reveal_with_fuel(paths::to_last_name, 2);
    }
    if base.len() > 0 && base[0] == '/' {
        let above = text::split(base, '/');
        let spaced = base + seq!['/', '/'] + rel;
        let ended = base + seq!['/'] + rel + seq!['/'];
        assert(spaced =~= (base + seq!['/'] + empty) + seq!['/'] + rel);
        assert(ended =~= base + seq!['/'] + (rel + seq!['/']));
        texts::law_split_is_at_every_separator(base, empty, '/');
        texts::law_split_is_at_every_separator(base + seq!['/'] + empty, rel, '/');
        texts::law_split_is_at_every_separator(base, rel + seq!['/'], '/');
        text::lemma_filter_one(empty, keep);
        Seq::filter_distributes_over_add(above, blank, keep);
        Seq::filter_distributes_over_add(above + blank, pieces, keep);
        Seq::filter_distributes_over_add(above, pieces + blank, keep);
        targets::lemma_segments(base);
        targets::lemma_segments(spaced);
        targets::lemma_segments(ended);
        law_within_is_by_whole_names(base, spaced);
        law_within_is_by_whole_names(base, ended);
        assert(spaced[0] == '/');
        assert(ended[0] == '/');
        assert(above.filter(keep) == pipeline::path_segments(base));
        assert((above + blank).filter(keep) =~= above.filter(keep));
        lemma_behind(above + blank, pieces);
        assert((pieces + blank)[0] == pieces[0]);
        lemma_behind(above, pieces + blank);
    }
    targets::lemma_segments(empty);
    text::lemma_filter_one(empty, keep);
    assert(targets::segments_of(empty) =~= Seq::<Seq<char>>::empty());
    law_within_is_by_whole_names(empty, rel);
    law_within_is_by_whole_names(empty, seq!['/'] + rel);
    law_within_is_by_whole_names(empty, rel + seq!['/']);
    lemma_components(rel);
    lemma_components(seq!['/'] + rel);
    lemma_components(rel + seq!['/']);
    lemma_no_beginning(rel);
    assert(rel.skip(0) =~= rel);
    assert((rel + seq!['/']).skip(0) =~= rel + seq!['/']);
    assert((seq!['/'] + rel).skip(1) =~= rel);
    assert(empty + rel =~= rel);
}

/// A path whose first piece is a name begins with nothing ahead of it.
proof fn lemma_no_beginning(rel: Seq<char>)
    requires
        is_name(text::split(rel, '/')[0]),
    ensures
        rel.len() > 0,
        beginning(rel).len() == 0,
        beginning(rel + seq!['/']).len() == 0,
{
    let empty = Seq::<char>::empty();
    texts::law_split_is_at_every_separator(rel, empty, '/');
    if rel.len() == 0 {
        assert(rel =~= empty);
        assert(text::split(rel, '/')[0] == rel);
    } else if rel[0] == '/' {
        let rest = rel.skip(1);
        texts::law_split_is_at_every_separator(empty, rest, '/');
        assert(empty + seq!['/'] + rest =~= rel);
        texts::law_split_is_at_every_separator(empty, empty, '/');
    } else if rel[0] == '.' {
        let dot = seq!['.'];
        assert(!dot.contains('/'));
        texts::law_split_is_at_every_separator(dot, empty, '/');
        if rel.len() == 1 {
            assert(rel =~= dot);
        } else if rel[1] == '/' {
            let rest = rel.skip(2);
            texts::law_split_is_at_every_separator(dot, rest, '/');
            assert(dot + seq!['/'] + rest =~= rel);
        }
    }
}

/// Pieces up to the last name among them.
proof fn lemma_to_last(pieces: Seq<Seq<char>>, last: int)
    requires
        0 <= last < pieces.len(),
        is_name(pieces[last]),
        forall|k: int| last < k < pieces.len() ==> !is_name(#[trigger] pieces[k]),
    ensures
        paths::to_last_name(pieces) == pieces.take(last + 1),
    decreases pieces.len(),
{
    if last == pieces.len() - 1 {
        assert(pieces.take(last + 1) =~= pieces);
    } else {
        let shorter = pieces.drop_last();
        assert(!is_name(pieces[pieces.len() - 1]));
        assert forall|k: int| last < k < shorter.len() implies !is_name(#[trigger] shorter[k]) by {
            assert(shorter[k] == pieces[k]);
        }
        lemma_to_last(shorter, last);
        assert(shorter.take(last + 1) =~= pieces.take(last + 1));
    }
}

/// Pieces of which none is a name have no names.
proof fn lemma_nameless(pieces: Seq<Seq<char>>)
    requires
        forall|k: int| 0 <= k < pieces.len() ==> !is_name(#[trigger] pieces[k]),
    ensures
        pieces.filter(|s: Seq<char>| pipeline::is_kept(s)) == Seq::<Seq<char>>::empty(),
    decreases pieces.len(),
{
    reveal(Seq::filter);
    if pieces.len() > 0 {
        let shorter = pieces.drop_last();
        assert forall|k: int| 0 <= k < shorter.len() implies !is_name(#[trigger] shorter[k]) by {
            assert(shorter[k] == pieces[k]);
        }
        lemma_nameless(shorter);
        assert(!is_name(pieces[pieces.len() - 1]));
    }
}

/// What lies below a docroot is shown from the first name in it to the last, with all that stands
/// between: empty pieces and dots before and behind are left out.
pub proof fn law_paths_are_shown_from_name_to_name(
    base: Seq<char>,
    below: Seq<char>,
    first: int,
    last: int,
)
    requires
        base.len() > 0,
        base[0] == '/',
        0 <= first <= last < text::split(below, '/').len(),
        is_name(text::split(below, '/')[first]),
        is_name(text::split(below, '/')[last]),
        forall|k: int|
            0 <= k < text::split(below, '/').len() && (k < first || last < k) ==> !is_name(
                #[trigger] text::split(below, '/')[k],
            ),
    ensures
        paths::shown_path(base, base + seq!['/'] + below) == text::join(
            text::split(below, '/').subrange(first, last + 1),
            '/',
        ),
{
    let path = base + seq!['/'] + below;
    let pieces = text::split(below, '/');
    let above = text::split(base, '/');
    let gap = pieces.take(first);
    let rest = pieces.skip(first);
    let keep = |s: Seq<char>| pipeline::is_kept(s);
    texts::law_split_is_at_every_separator(base, below, '/');
    assert(pieces =~= gap + rest);
    assert(above + pieces =~= (above + gap) + rest);
    assert forall|k: int| 0 <= k < gap.len() implies !is_name(#[trigger] gap[k]) by {
        assert(gap[k] == pieces[k]);
    }
    lemma_nameless(gap);
    Seq::filter_distributes_over_add(above, gap, keep);
    Seq::filter_distributes_over_add(above, pieces, keep);
    targets::lemma_segments(base);
    targets::lemma_segments(path);
    assert(path[0] == '/');
    law_within_is_by_whole_names(base, path);
    assert((above + gap).filter(keep) =~= above.filter(keep));
    assert(rest[0] == pieces[first]);
    lemma_behind(above + gap, rest);
    assert(rest[last - first] == pieces[last]);
    assert forall|k: int| last - first < k < rest.len() implies !is_name(#[trigger] rest[k]) by {
        assert(rest[k] == pieces[k + first]);
    }
    lemma_to_last(rest, last - first);
    assert(rest.take(last - first + 1) =~= pieces.subrange(first, last + 1));
}

} // verus!
