//! Paths as text: their components, what lies within what, and how a path is shown to operators.

use crate::pipeline;
use crate::text;
use vstd::prelude::*;
use vstd::string::*;

verus! {

pub open spec fn is_absolute(path: Seq<char>) -> bool {
    path.len() > 0 && path[0] == '/'
}

/// Whether a path begins with the component `.`.
pub open spec fn starts_at_dot(path: Seq<char>) -> bool {
    path.len() > 0 && path[0] == '.' && (path.len() == 1 || path[1] == '/')
}

/// What a path begins with ahead of its names: `/`, a leading `.`, or nothing.
pub open spec fn path_start(path: Seq<char>) -> Seq<char> {
    if is_absolute(path) || starts_at_dot(path) {
        path.take(1)
    } else {
        Seq::empty()
    }
}

/// The components of a path: what it begins with, and then its names. Repeated slashes and any
/// `.` but a leading one are none.
pub open spec fn components_of(path: Seq<char>) -> Seq<Seq<char>> {
    if path_start(path).len() > 0 {
        seq![path_start(path)] + pipeline::path_segments(path)
    } else {
        pipeline::path_segments(path)
    }
}

/// Whether a path is a directory or lies below it, by whole components.
pub open spec fn is_within(root: Seq<char>, path: Seq<char>) -> bool {
    let base = components_of(root);
    let components = components_of(path);
    &&& base.len() <= components.len()
    &&& components.take(base.len() as int) == base
}

/// The pieces of a path behind the first `n` names among them.
pub open spec fn behind_names(pieces: Seq<Seq<char>>, n: nat) -> Seq<Seq<char>>
    decreases pieces.len(),
{
    if n == 0 || pieces.len() == 0 {
        pieces
    } else if pipeline::is_kept(pieces[0]) {
        behind_names(pieces.skip(1), (n - 1) as nat)
    } else {
        behind_names(pieces.skip(1), n)
    }
}

/// The pieces from the first name on.
pub open spec fn from_first_name(pieces: Seq<Seq<char>>) -> Seq<Seq<char>>
    decreases pieces.len(),
{
    if pieces.len() > 0 && !pipeline::is_kept(pieces[0]) {
        from_first_name(pieces.skip(1))
    } else {
        pieces
    }
}

/// The pieces up to the last name.
pub open spec fn to_last_name(pieces: Seq<Seq<char>>) -> Seq<Seq<char>>
    decreases pieces.len(),
{
    if pieces.len() > 0 && !pipeline::is_kept(pieces.last()) {
        to_last_name(pieces.drop_last())
    } else {
        pieces
    }
}

/// A path as it is shown to operators: where it lies within the root, the text behind the
/// components of the root, from the first name in it to the last. An empty root leaves what the
/// path begins with.
pub open spec fn shown_path(root: Seq<char>, path: Seq<char>) -> Seq<char> {
    if !is_within(root, path) {
        path
    } else if root.len() == 0 {
        let start = path_start(path);
        start + text::join(
            to_last_name(text::split(path.skip(start.len() as int), '/')),
            '/',
        )
    } else {
        let names = pipeline::path_segments(root).len();
        text::join(
            to_last_name(from_first_name(behind_names(text::split(path, '/'), names))),
            '/',
        )
    }
}

pub fn absolute(path: &[char]) -> (r: bool)
    ensures
        r == is_absolute(path@),
{
    path.len() > 0 && path[0] == '/'
}

/// The length of what a path begins with.
fn start_len(path: &[char]) -> (r: usize)
    ensures
        r == path_start(path@).len(),
        r <= path@.len(),
        r <= 1,
{
    if path.len() == 0 {
        0
    } else if path[0] == '/' {
        1
    } else if path[0] == '.' && (path.len() == 1 || path[1] == '/') {
        1
    } else {
        0
    }
}

/// Whether a piece of a path is a name.
fn is_name(piece: &[char]) -> (r: bool)
    ensures
        r == pipeline::is_kept(piece@),
{
    piece.len() > 0 && !pipeline::is_dot(piece)
}

/// The names in a path.
fn names<'a>(path: &'a [char]) -> (r: Vec<&'a [char]>)
    ensures
        text::views(r@) == pipeline::path_segments(path@),
{
    let pieces = text::split_chars(path, '/');
    let ghost all = text::split(path@, '/');
    let ghost keep = |s: Seq<char>| pipeline::is_kept(s);
    let mut kept: Vec<&'a [char]> = Vec::new();
    let mut i: usize = 0;
    proof {
        reveal(Seq::filter);
        assert(text::views(kept@) =~= all.take(0).filter(keep));
    }
    while i < pieces.len()
        invariant
            i <= pieces@.len(),
            text::views(pieces@) == all,
            keep == (|s: Seq<char>| pipeline::is_kept(s)),
            text::views(kept@) == all.take(i as int).filter(keep),
        decreases pieces.len() - i,
    {
        let piece = pieces[i];
        proof {
            assert(all[i as int] == piece@);
            pipeline::lemma_filter_next(all, keep, i as int);
        }
        if is_name(piece) {
            let ghost before = text::views(kept@);
            kept.push(piece);
            assert(text::views(kept@) =~= before.push(piece@));
        }
        i += 1;
    }
    assert(all.take(i as int) =~= all);
    kept
}

/// The components of a path.
fn components<'a>(path: &'a [char]) -> (r: Vec<&'a [char]>)
    ensures
        text::views(r@) == components_of(path@),
{
    let mut kept = names(path);
    let n = start_len(path);
    if n > 0 {
        let start = vstd::slice::slice_subrange(path, 0, n);
        assert(start@ =~= path_start(path@));
        let ghost before = text::views(kept@);
        kept.insert(0, start);
        assert(text::views(kept@) =~= seq![start@] + before);
    }
    kept
}

/// Whether a path lies within a root.
pub fn lies_within(root: &str, path: &str) -> (r: bool)
    ensures
        r == is_within(root@, path@),
{
    let root_chars = text::chars_of(root);
    let path_chars = text::chars_of(path);
    let base = components(root_chars.as_slice());
    let inner = components(path_chars.as_slice());
    let ghost want = components_of(root@);
    let ghost have = components_of(path@);
    assert(want.len() == base@.len() && have.len() == inner@.len());
    if base.len() > inner.len() {
        return false;
    }
    let mut i: usize = 0;
    while i < base.len()
        invariant
            i <= base@.len() <= inner@.len(),
            text::views(base@) == want,
            text::views(inner@) == have,
            want == components_of(root@),
            have == components_of(path@),
            want.len() == base@.len(),
            have.len() == inner@.len(),
            forall|j: int| 0 <= j < i ==> want[j] == have[j],
        decreases base.len() - i,
    {
        assert(want[i as int] == base@[i as int]@);
        assert(have[i as int] == inner@[i as int]@);
        if !text::same_chars(base[i], inner[i]) {
            assert(have.take(want.len() as int)[i as int] != want[i as int]);
            return false;
        }
        i += 1;
    }
    assert(have.take(want.len() as int) =~= want);
    true
}

/// Where the pieces end behind the last name, of those from a position on.
fn last_name_end(pieces: &Vec<&[char]>, from: usize) -> (r: usize)
    requires
        from <= pieces@.len(),
    ensures
        from <= r <= pieces@.len(),
        to_last_name(text::views(pieces@).skip(from as int)) == text::views(pieces@).subrange(
            from as int,
            r as int,
        ),
{
    let ghost all = text::views(pieces@);
    let mut end: usize = pieces.len();
    assert(all.skip(from as int) =~= all.subrange(from as int, end as int));
    while end > from && !is_name(pieces[end - 1])
        invariant
            from <= end <= pieces@.len(),
            all == text::views(pieces@),
            to_last_name(all.skip(from as int)) == to_last_name(
                all.subrange(from as int, end as int),
            ),
        decreases end,
    {
        proof {
            let part = all.subrange(from as int, end as int);
            assert(part.last() == pieces@[end - 1]@);
            assert(part.drop_last() =~= all.subrange(from as int, end - 1));
        }
        end -= 1;
    }
    proof {
        let part = all.subrange(from as int, end as int);
        if end > from {
            assert(part.last() == pieces@[end - 1]@);
        }
        assert(to_last_name(part) == part);
    }
    end
}

/// Where the first name stands behind the first `n` names.
fn name_behind(pieces: &Vec<&[char]>, n: usize) -> (r: usize)
    ensures
        r <= pieces@.len(),
        from_first_name(behind_names(text::views(pieces@), n as nat)) == text::views(pieces@).skip(
            r as int,
        ),
{
    let ghost all = text::views(pieces@);
    let mut left: usize = n;
    let mut at: usize = 0;
    assert(all.skip(0) =~= all);
    while left > 0 && at < pieces.len()
        invariant
            at <= pieces@.len(),
            all == text::views(pieces@),
            behind_names(all, n as nat) == behind_names(all.skip(at as int), left as nat),
        decreases pieces.len() - at,
    {
        proof {
            assert(all.skip(at as int)[0] == pieces@[at as int]@);
            assert(all.skip(at as int).skip(1) =~= all.skip(at + 1));
        }
        if is_name(pieces[at]) {
            left -= 1;
        }
        at += 1;
    }
    assert(behind_names(all, n as nat) == all.skip(at as int));
    let ghost rest = all.skip(at as int);
    while at < pieces.len() && !is_name(pieces[at])
        invariant
            at <= pieces@.len(),
            all == text::views(pieces@),
            from_first_name(rest) == from_first_name(all.skip(at as int)),
        decreases pieces.len() - at,
    {
        proof {
            assert(all.skip(at as int)[0] == pieces@[at as int]@);
            assert(all.skip(at as int).skip(1) =~= all.skip(at + 1));
        }
        at += 1;
    }
    proof {
        if at < pieces.len() {
            assert(all.skip(at as int)[0] == pieces@[at as int]@);
        }
        assert(from_first_name(all.skip(at as int)) == all.skip(at as int));
    }
    at
}

/// The pieces between two positions, joined again.
fn join_between(pieces: &Vec<&[char]>, from: usize, end: usize) -> (r: String)
    requires
        from <= end <= pieces@.len(),
    ensures
        r@ == text::join(text::views(pieces@).subrange(from as int, end as int), '/'),
{
    let part = vstd::slice::slice_subrange(pieces.as_slice(), from, end);
    assert(text::views(part@) =~= text::views(pieces@).subrange(from as int, end as int));
    text::join_chars(part, '/')
}

/// A path as it is shown to operators.
pub fn shown(root: &str, path: &str) -> (r: String)
    ensures
        r@ == shown_path(root@, path@),
{
    if !lies_within(root, path) {
        return path.to_owned();
    }
    let root_chars = text::chars_of(root);
    let chars = text::chars_of(path);
    if root_chars.len() == 0 {
        let n = start_len(chars.as_slice());
        let start = vstd::slice::slice_subrange(chars.as_slice(), 0, n);
        let body = vstd::slice::slice_subrange(chars.as_slice(), n, chars.len());
        assert(start@ =~= path_start(path@));
        assert(body@ =~= path@.skip(n as int));
        let pieces = text::split_chars(body, '/');
        let end = last_name_end(&pieces, 0);
        assert(text::views(pieces@).skip(0) =~= text::views(pieces@));
        let mut out = text::string_of(start);
        out.append(join_between(&pieces, 0, end).as_str());
        out
    } else {
        let base = names(root_chars.as_slice());
        assert(text::views(base@).len() == base@.len());
        let pieces = text::split_chars(chars.as_slice(), '/');
        let from = name_behind(&pieces, base.len());
        let end = last_name_end(&pieces, from);
        join_between(&pieces, from, end)
    }
}

} // verus!
