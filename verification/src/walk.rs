//! The audit of a docroot as a whole: what comes of it over a tree of directories.

use crate::resolve::{RootErrorView, SymlinkPolicy};
use crate::root;
use crate::root::{
    AuditView, PinReport, PinningView, RootView, SeenLink, AUDIT_ENTRY_LIMIT,
};
use vstd::prelude::*;

verus! {

/// An entry of a directory.
pub enum TreeEntry<P> {
    Directory(P),
    Link(SeenLink),
    /// Anything else.
    Other,
}

/// The audit once one entry is looked at.
pub open spec fn after_entry<P>(audit: AuditView<P>, entry: TreeEntry<P>) -> Result<
    AuditView<P>,
    RootErrorView,
> {
    match root::after_found(audit) {
        Err(e) => Err(e),
        Ok(audit) => Ok(
            match entry {
                TreeEntry::Directory(path) => root::with_directory(audit, path),
                TreeEntry::Link(link) => root::with_link(audit, link),
                TreeEntry::Other => audit,
            },
        ),
    }
}

/// The audit once the entries of a directory are looked at, one after the other.
pub open spec fn after_entries<P>(audit: AuditView<P>, entries: Seq<TreeEntry<P>>) -> Result<
    AuditView<P>,
    RootErrorView,
>
    decreases entries.len(),
{
    if entries.len() == 0 {
        Ok(audit)
    } else {
        match after_entries(audit, entries.drop_last()) {
            Err(e) => Err(e),
            Ok(audit) => after_entry(audit, entries.last()),
        }
    }
}

/// How an audit ends that reads the given number of directories at most, where each directory
/// holds the given entries; one that cannot be read holds none. `None` when it has not ended by
/// then.
pub open spec fn walked<P>(
    audit: AuditView<P>,
    tree: spec_fn(P) -> Seq<TreeEntry<P>>,
    fuel: nat,
) -> Option<Result<RootView, RootErrorView>>
    decreases fuel,
{
    if audit.stack.len() == 0 {
        Some(root::after_audit(audit.pin, audit.links))
    } else if fuel == 0 {
        None
    } else {
        match after_entries(root::after_taken(audit), tree(audit.stack.last())) {
            Err(e) => Some(Err(e)),
            Ok(audit) => walked(audit, tree, (fuel - 1) as nat),
        }
    }
}

/// The directories among the entries.
pub open spec fn subdirectories<P>(entries: Seq<TreeEntry<P>>) -> Seq<P>
    decreases entries.len(),
{
    if entries.len() == 0 {
        Seq::empty()
    } else {
        let before = subdirectories(entries.drop_last());
        match entries.last() {
            TreeEntry::Directory(path) => before.push(path),
            _ => before,
        }
    }
}

/// The symlinks among the entries.
pub open spec fn links_in<P>(entries: Seq<TreeEntry<P>>) -> Seq<SeenLink>
    decreases entries.len(),
{
    if entries.len() == 0 {
        Seq::empty()
    } else {
        let before = links_in(entries.drop_last());
        match entries.last() {
            TreeEntry::Link(link) => before.push(link),
            _ => before,
        }
    }
}

/// A tree of finite depth: every directory in another has less height than that.
pub open spec fn is_tree<P>(
    tree: spec_fn(P) -> Seq<TreeEntry<P>>,
    height: spec_fn(P) -> nat,
) -> bool {
    forall|dir: P, sub: P| #[trigger]
        subdirectories(tree(dir)).contains(sub) ==> height(sub) < height(dir)
}

/// A directory and all directories below it.
pub open spec fn directories_from<P>(
    tree: spec_fn(P) -> Seq<TreeEntry<P>>,
    height: spec_fn(P) -> nat,
    dir: P,
) -> Seq<P>
    decreases height(dir) + 1, 0nat,
{
    seq![dir] + directories_from_all(tree, height, subdirectories(tree(dir)), height(dir))
}

/// Directories of less than the given height, the last first, each with all directories below
/// it.
pub open spec fn directories_from_all<P>(
    tree: spec_fn(P) -> Seq<TreeEntry<P>>,
    height: spec_fn(P) -> nat,
    dirs: Seq<P>,
    bound: nat,
) -> Seq<P>
    decreases bound, dirs.len() + 1,
{
    if dirs.len() == 0 {
        Seq::empty()
    } else {
        let rest = directories_from_all(tree, height, dirs.drop_last(), bound);
        if height(dirs.last()) < bound {
            directories_from(tree, height, dirs.last()) + rest
        } else {
            rest
        }
    }
}

/// The number of entries in all of the directories.
pub open spec fn entry_count<P>(tree: spec_fn(P) -> Seq<TreeEntry<P>>, dirs: Seq<P>) -> nat
    decreases dirs.len(),
{
    if dirs.len() == 0 {
        0
    } else {
        tree(dirs[0]).len() + entry_count(tree, dirs.skip(1))
    }
}

/// The symlinks in all of the directories.
pub open spec fn links_of<P>(tree: spec_fn(P) -> Seq<TreeEntry<P>>, dirs: Seq<P>) -> Seq<SeenLink>
    decreases dirs.len(),
{
    if dirs.len() == 0 {
        Seq::empty()
    } else {
        links_in(tree(dirs[0])) + links_of(tree, dirs.skip(1))
    }
}

/// What the walk over a tree reports: its symlinks, unless it has too many entries.
pub open spec fn tree_report<P>(
    tree: spec_fn(P) -> Seq<TreeEntry<P>>,
    height: spec_fn(P) -> nat,
    top: P,
) -> Result<Seq<SeenLink>, RootErrorView> {
    let dirs = directories_from(tree, height, top);
    if entry_count(tree, dirs) <= AUDIT_ENTRY_LIMIT {
        Ok(links_of(tree, dirs))
    } else {
        Err(RootErrorView::AuditTooLarge(AUDIT_ENTRY_LIMIT + 1))
    }
}

/// A way down a tree, each directory in the one before.
pub open spec fn is_trail<P>(tree: spec_fn(P) -> Seq<TreeEntry<P>>, trail: Seq<P>) -> bool {
    &&& trail.len() > 0
    &&& forall|i: int|
        0 <= i < trail.len() - 1 ==> subdirectories(tree(#[trigger] trail[i])).contains(
            trail[i + 1],
        )
}

/// Whether a directory can be reached from another.
pub open spec fn is_reachable<P>(
    tree: spec_fn(P) -> Seq<TreeEntry<P>>,
    top: P,
    dir: P,
) -> bool {
    exists|trail: Seq<P>| #[trigger]
        is_trail(tree, trail) && trail[0] == top && trail.last() == dir
}

/// Whether no symlink in any directory that can be reached is refused.
pub open spec fn holds_no_refused_link<P>(
    policy: SymlinkPolicy,
    tree: spec_fn(P) -> Seq<TreeEntry<P>>,
    top: P,
) -> bool {
    forall|dir: P, link: SeenLink|
        is_reachable(tree, top, dir) && #[trigger] links_in(tree(dir)).contains(link)
            ==> !root::is_refused(policy, link)
}

/// The entries of a directory are counted as far as the limit allows, and sorted into
/// directories and symlinks.
proof fn lemma_after_entries<P>(audit: AuditView<P>, entries: Seq<TreeEntry<P>>)
    requires
        0 <= audit.scanned <= AUDIT_ENTRY_LIMIT,
    ensures
        after_entries(audit, entries) == if audit.scanned + entries.len() <= AUDIT_ENTRY_LIMIT {
            Ok::<_, RootErrorView>(
                AuditView {
                    pin: audit.pin,
                    stack: audit.stack + subdirectories(entries),
                    scanned: audit.scanned + entries.len(),
                    links: audit.links + links_in(entries),
                },
            )
        } else {
            Err(RootErrorView::AuditTooLarge(AUDIT_ENTRY_LIMIT + 1))
        },
    decreases entries.len(),
{
    if entries.len() == 0 {
        assert(audit.stack + subdirectories(entries) =~= audit.stack);
        assert(audit.links + links_in(entries) =~= audit.links);
    } else {
        let before = entries.drop_last();
        lemma_after_entries(audit, before);
        match entries.last() {
            TreeEntry::Directory(path) => {
                assert(audit.stack + subdirectories(entries) =~= (audit.stack + subdirectories(
                    before,
                )).push(path));
            },
            TreeEntry::Link(link) => {
                assert(audit.links + links_in(entries) =~= (audit.links + links_in(before)).push(
                    link,
                ));
            },
            TreeEntry::Other => {},
        }
    }
}

/// Any sufficient height bound gives the same directories.
proof fn lemma_bound_is_free<P>(
    tree: spec_fn(P) -> Seq<TreeEntry<P>>,
    height: spec_fn(P) -> nat,
    dirs: Seq<P>,
    a: nat,
    b: nat,
)
    requires
        forall|i: int|
            0 <= i < dirs.len() ==> height(#[trigger] dirs[i]) < a && height(dirs[i]) < b,
    ensures
        directories_from_all(tree, height, dirs, a) == directories_from_all(tree, height, dirs, b),
    decreases dirs.len(),
{
    if dirs.len() > 0 {
        let before = dirs.drop_last();
        assert forall|i: int| 0 <= i < before.len() implies height(#[trigger] before[i]) < a
            && height(before[i]) < b by {
            assert(before[i] == dirs[i]);
        }
        lemma_bound_is_free(tree, height, before, a, b);
        assert(dirs.last() == dirs[dirs.len() - 1]);
    }
}

/// What was put on the stack last is walked first.
proof fn lemma_directories_concat<P>(
    tree: spec_fn(P) -> Seq<TreeEntry<P>>,
    height: spec_fn(P) -> nat,
    first: Seq<P>,
    last: Seq<P>,
    bound: nat,
)
    ensures
        directories_from_all(tree, height, first + last, bound) == directories_from_all(
            tree,
            height,
            last,
            bound,
        ) + directories_from_all(tree, height, first, bound),
    decreases last.len(),
{
    let both = first + last;
    if last.len() == 0 {
        assert(both =~= first);
        assert(directories_from_all(tree, height, last, bound) + directories_from_all(
            tree,
            height,
            first,
            bound,
        ) =~= directories_from_all(tree, height, first, bound));
    } else {
        assert(both.last() == last.last());
        assert(both.drop_last() =~= first + last.drop_last());
        lemma_directories_concat(tree, height, first, last.drop_last(), bound);
        let below = directories_from(tree, height, last.last());
        let inner = directories_from_all(tree, height, last.drop_last(), bound);
        let outer = directories_from_all(tree, height, first, bound);
        assert(below + (inner + outer) =~= (below + inner) + outer);
    }
}

/// How an audit with any stack ends.
proof fn lemma_walked<P>(
    audit: AuditView<P>,
    tree: spec_fn(P) -> Seq<TreeEntry<P>>,
    height: spec_fn(P) -> nat,
    bound: nat,
    fuel: nat,
)
    requires
        is_tree(tree, height),
        0 <= audit.scanned <= AUDIT_ENTRY_LIMIT,
        forall|i: int| 0 <= i < audit.stack.len() ==> height(#[trigger] audit.stack[i]) < bound,
        directories_from_all(tree, height, audit.stack, bound).len() <= fuel,
    ensures
        ({
            let dirs = directories_from_all(tree, height, audit.stack, bound);
            walked(audit, tree, fuel) == Some(
                if audit.scanned + entry_count(tree, dirs) <= AUDIT_ENTRY_LIMIT {
                    root::after_audit(audit.pin, audit.links + links_of(tree, dirs))
                } else {
                    Err::<RootView, _>(RootErrorView::AuditTooLarge(AUDIT_ENTRY_LIMIT + 1))
                },
            )
        }),
    decreases fuel,
{
    let stack = audit.stack;
    let dirs = directories_from_all(tree, height, stack, bound);
    if stack.len() == 0 {
        assert(audit.links + links_of(tree, dirs) =~= audit.links);
    } else {
        let dir = stack.last();
        let rest = stack.drop_last();
        let entries = tree(dir);
        let subs = subdirectories(entries);
        assert(height(stack[stack.len() - 1]) < bound);
        let later = directories_from_all(tree, height, subs, height(dir))
            + directories_from_all(tree, height, rest, bound);
        assert(directories_from(tree, height, dir) == seq![dir] + directories_from_all(
            tree,
            height,
            subs,
            height(dir),
        ));
        assert(dirs == directories_from(tree, height, dir) + directories_from_all(
            tree,
            height,
            rest,
            bound,
        ));
        assert(dirs =~= seq![dir] + later);
        assert(dirs[0] == dir);
        assert(dirs.skip(1) =~= later);
        lemma_after_entries(root::after_taken(audit), entries);
        if audit.scanned + entries.len() <= AUDIT_ENTRY_LIMIT {
            let next = AuditView {
                pin: audit.pin,
                stack: rest + subs,
                scanned: audit.scanned + entries.len(),
                links: audit.links + links_in(entries),
            };
            assert forall|i: int| 0 <= i < subs.len() implies height(#[trigger] subs[i]) < bound
                && height(subs[i]) < height(dir) by {
                assert(subs.contains(subs[i]));
            }
            assert forall|i: int| 0 <= i < next.stack.len() implies height(
                #[trigger] next.stack[i],
            ) < bound by {
                if i < rest.len() {
                    assert(next.stack[i] == stack[i]);
                } else {
                    assert(next.stack[i] == subs[i - rest.len()]);
                }
            }
            lemma_bound_is_free(tree, height, subs, height(dir), bound);
            lemma_directories_concat(tree, height, rest, subs, bound);
            assert(directories_from_all(tree, height, next.stack, bound) == later);
            lemma_walked(next, tree, height, bound, (fuel - 1) as nat);
            assert(next.links + links_of(tree, later) =~= audit.links + links_of(tree, dirs));
        }
    }
}

/// An audit of a tree of finite depth ends once every directory in it is read. It ends with the
/// verdict on the symlinks of the whole tree when the tree keeps to the limit, and as too large
/// when it does not.
pub proof fn law_audit_covers_the_tree<P>(
    pin: RootView,
    tree: spec_fn(P) -> Seq<TreeEntry<P>>,
    height: spec_fn(P) -> nat,
    top: P,
    fuel: nat,
)
    requires
        is_tree(tree, height),
        directories_from(tree, height, top).len() <= fuel,
    ensures
        walked(root::audit_begun(pin, top), tree, fuel) == Some(
            match tree_report(tree, height, top) {
                Ok(links) => root::after_audit(pin, links),
                Err(e) => Err(e),
            },
        ),
{
    let audit = root::audit_begun(pin, top);
    let bound: nat = height(top) + 1;
    let dirs = directories_from(tree, height, top);
    let none = Seq::<P>::empty();
    assert(audit.stack.last() == top);
    assert(audit.stack.drop_last() =~= none);
    assert(directories_from_all(tree, height, none, bound) =~= none);
    assert(directories_from_all(tree, height, audit.stack, bound) =~= dirs);
    lemma_walked(audit, tree, height, bound, fuel);
    assert(audit.links + links_of(tree, dirs) =~= links_of(tree, dirs));
}

/// A directory whose tree holds another is among directories that are walked.
proof fn lemma_directories_contain<P>(
    tree: spec_fn(P) -> Seq<TreeEntry<P>>,
    height: spec_fn(P) -> nat,
    dirs: Seq<P>,
    bound: nat,
    i: int,
    dir: P,
)
    requires
        0 <= i < dirs.len(),
        height(dirs[i]) < bound,
        directories_from(tree, height, dirs[i]).contains(dir),
    ensures
        directories_from_all(tree, height, dirs, bound).contains(dir),
    decreases dirs.len(),
{
    let all = directories_from_all(tree, height, dirs, bound);
    let rest = directories_from_all(tree, height, dirs.drop_last(), bound);
    let below = directories_from(tree, height, dirs.last());
    if i == dirs.len() - 1 {
        let k = choose|k: int| 0 <= k < below.len() && below[k] == dir;
        assert(all[k] == dir);
    } else {
        lemma_directories_contain(tree, height, dirs.drop_last(), bound, i, dir);
        let k = choose|k: int| 0 <= k < rest.len() && rest[k] == dir;
        if height(dirs.last()) < bound {
            assert(all[below.len() + k] == dir);
        } else {
            assert(all[k] == dir);
        }
    }
}

/// A directory that is walked lies in the tree of one of those on the stack.
proof fn lemma_directory_origin<P>(
    tree: spec_fn(P) -> Seq<TreeEntry<P>>,
    height: spec_fn(P) -> nat,
    dirs: Seq<P>,
    bound: nat,
    dir: P,
) -> (i: int)
    requires
        directories_from_all(tree, height, dirs, bound).contains(dir),
    ensures
        0 <= i < dirs.len(),
        height(dirs[i]) < bound,
        directories_from(tree, height, dirs[i]).contains(dir),
    decreases dirs.len(),
{
    let all = directories_from_all(tree, height, dirs, bound);
    let rest = directories_from_all(tree, height, dirs.drop_last(), bound);
    let below = directories_from(tree, height, dirs.last());
    let k = choose|k: int| 0 <= k < all.len() && all[k] == dir;
    if height(dirs.last()) < bound && k < below.len() {
        assert(below[k] == dir);
        dirs.len() - 1
    } else {
        if height(dirs.last()) < bound {
            assert(rest[k - below.len()] == dir);
        } else {
            assert(rest[k] == dir);
        }
        lemma_directory_origin(tree, height, dirs.drop_last(), bound, dir)
    }
}

/// The end of a way down is walked.
proof fn lemma_trail_is_walked<P>(
    tree: spec_fn(P) -> Seq<TreeEntry<P>>,
    height: spec_fn(P) -> nat,
    trail: Seq<P>,
)
    requires
        is_tree(tree, height),
        is_trail(tree, trail),
    ensures
        directories_from(tree, height, trail[0]).contains(trail.last()),
    decreases trail.len(),
{
    let top = trail[0];
    let subs = subdirectories(tree(top));
    let below = directories_from_all(tree, height, subs, height(top));
    let all = directories_from(tree, height, top);
    if trail.len() == 1 {
        assert(all[0] == top);
    } else {
        let rest = trail.skip(1);
        assert(subdirectories(tree(trail[0])).contains(trail[1]));
        assert forall|i: int| 0 <= i < rest.len() - 1 implies subdirectories(
            tree(#[trigger] rest[i]),
        ).contains(rest[i + 1]) by {
            assert(rest[i] == trail[i + 1]);
            assert(rest[i + 1] == trail[i + 1 + 1]);
        }
        lemma_trail_is_walked(tree, height, rest);
        let i = choose|i: int| 0 <= i < subs.len() && subs[i] == trail[1];
        lemma_directories_contain(tree, height, subs, height(top), i, trail.last());
        let k = choose|k: int| 0 <= k < below.len() && below[k] == trail.last();
        assert(all[k + 1] == trail.last());
    }
}

/// A directory that is walked lies at the end of a way down.
proof fn lemma_walked_has_trail<P>(
    tree: spec_fn(P) -> Seq<TreeEntry<P>>,
    height: spec_fn(P) -> nat,
    top: P,
    dir: P,
) -> (trail: Seq<P>)
    requires
        directories_from(tree, height, top).contains(dir),
    ensures
        is_trail(tree, trail),
        trail[0] == top,
        trail.last() == dir,
    decreases height(top),
{
    if dir == top {
        seq![top]
    } else {
        let subs = subdirectories(tree(top));
        let below = directories_from_all(tree, height, subs, height(top));
        let all = directories_from(tree, height, top);
        let k = choose|k: int| 0 <= k < all.len() && all[k] == dir;
        assert(below[k - 1] == dir);
        let i = lemma_directory_origin(tree, height, subs, height(top), dir);
        let rest = lemma_walked_has_trail(tree, height, subs[i], dir);
        let trail = seq![top] + rest;
        assert(subs.contains(subs[i]));
        assert forall|j: int| 0 <= j < trail.len() - 1 implies subdirectories(
            tree(#[trigger] trail[j]),
        ).contains(trail[j + 1]) by {
            if j > 0 {
                assert(trail[j] == rest[j - 1]);
                assert(trail[j + 1] == rest[j - 1 + 1]);
            }
        }
        trail
    }
}

/// The walk reads the directories that can be reached, no fewer and no others.
pub proof fn law_walk_reads_what_is_reachable<P>(
    tree: spec_fn(P) -> Seq<TreeEntry<P>>,
    height: spec_fn(P) -> nat,
    top: P,
    dir: P,
)
    requires
        is_tree(tree, height),
    ensures
        directories_from(tree, height, top).contains(dir) <==> is_reachable(tree, top, dir),
{
    if directories_from(tree, height, top).contains(dir) {
        let trail = lemma_walked_has_trail(tree, height, top, dir);
        assert(is_trail(tree, trail));
    }
    if is_reachable(tree, top, dir) {
        let trail = choose|trail: Seq<P>| #[trigger]
            is_trail(tree, trail) && trail[0] == top && trail.last() == dir;
        lemma_trail_is_walked(tree, height, trail);
    }
}

/// The symlinks of directories are those in each of them.
proof fn lemma_links_of<P>(
    tree: spec_fn(P) -> Seq<TreeEntry<P>>,
    dirs: Seq<P>,
    link: SeenLink,
)
    ensures
        links_of(tree, dirs).contains(link) <==> exists|i: int|
            0 <= i < dirs.len() && links_in(tree(#[trigger] dirs[i])).contains(link),
    decreases dirs.len(),
{
    if dirs.len() > 0 {
        let own = links_in(tree(dirs[0]));
        let rest = links_of(tree, dirs.skip(1));
        let all = links_of(tree, dirs);
        lemma_links_of(tree, dirs.skip(1), link);
        if all.contains(link) {
            let k = choose|k: int| 0 <= k < all.len() && all[k] == link;
            if k < own.len() {
                assert(own[k] == link);
                assert(links_in(tree(dirs[0])).contains(link));
            } else {
                assert(rest[k - own.len()] == link);
                let i = choose|i: int|
                    0 <= i < dirs.skip(1).len() && links_in(
                        tree(#[trigger] dirs.skip(1)[i]),
                    ).contains(link);
                assert(dirs.skip(1)[i] == dirs[i + 1]);
            }
        }
        if exists|i: int| 0 <= i < dirs.len() && links_in(tree(#[trigger] dirs[i])).contains(link) {
            let i = choose|i: int|
                0 <= i < dirs.len() && links_in(tree(#[trigger] dirs[i])).contains(link);
            if i == 0 {
                let k = choose|k: int| 0 <= k < own.len() && own[k] == link;
                assert(all[k] == link);
            } else {
                assert(dirs.skip(1)[i - 1] == dirs[i]);
                let k = choose|k: int| 0 <= k < rest.len() && rest[k] == link;
                assert(all[own.len() + k] == link);
            }
        }
    }
}

/// A tree passes the audit exactly when it keeps to the limit of entries and no symlink in any
/// directory that can be reached is refused. One that keeps to the limit and does not pass is
/// refused with the report of its refused symlinks, and any other as too large.
pub proof fn law_audit_passes_clean_trees<P>(
    pin: RootView,
    tree: spec_fn(P) -> Seq<TreeEntry<P>>,
    height: spec_fn(P) -> nat,
    top: P,
    fuel: nat,
)
    requires
        is_tree(tree, height),
        directories_from(tree, height, top).len() <= fuel,
    ensures
        ({
            let dirs = directories_from(tree, height, top);
            walked(root::audit_begun(pin, top), tree, fuel) == Some(
                if entry_count(tree, dirs) > AUDIT_ENTRY_LIMIT {
                    Err::<RootView, _>(RootErrorView::AuditTooLarge(AUDIT_ENTRY_LIMIT + 1))
                } else if holds_no_refused_link(pin.policy, tree, top) {
                    Ok(pin)
                } else {
                    Err(
                        RootErrorView::HostileSymlinks(
                            root::report_of(
                                root::refused_links(pin.policy, pin.canonical, links_of(tree, dirs)),
                            ),
                        ),
                    )
                },
            )
        }),
{
    let dirs = directories_from(tree, height, top);
    let links = links_of(tree, dirs);
    law_audit_covers_the_tree(pin, tree, height, top, fuel);
    root::law_audit_passes(pin.policy, pin.canonical, links);
    if holds_no_refused_link(pin.policy, tree, top) {
        assert forall|i: int| 0 <= i < links.len() implies !root::is_refused(
            pin.policy,
            #[trigger] links[i],
        ) by {
            let link = links[i];
            assert(links.contains(link));
            lemma_links_of(tree, dirs, link);
            let k = choose|k: int|
                0 <= k < dirs.len() && links_in(tree(#[trigger] dirs[k])).contains(link);
            assert(dirs.contains(dirs[k]));
            law_walk_reads_what_is_reachable(tree, height, top, dirs[k]);
        }
        if pin.policy == SymlinkPolicy::Deny && links.len() > 0 {
            assert(!root::is_refused(pin.policy, links[0]));
        }
        assert(root::is_free_of_refused_links(pin.policy, links));
    } else {
        let (dir, link) = choose|dir: P, link: SeenLink|
            is_reachable(tree, top, dir) && #[trigger] links_in(tree(dir)).contains(link)
                && root::is_refused(pin.policy, link);
        law_walk_reads_what_is_reachable(tree, height, top, dir);
        let k = choose|k: int| 0 <= k < dirs.len() && dirs[k] == dir;
        assert(links_in(tree(dirs[k])).contains(link));
        lemma_links_of(tree, dirs, link);
        let i = choose|i: int| 0 <= i < links.len() && links[i] == link;
        assert(root::is_refused(pin.policy, links[i]));
        assert(!root::is_free_of_refused_links(pin.policy, links));
    }
}

/// What pinning a docroot comes to where its tree is the given one: once the directory is
/// identified, the walk over the tree decides, and then the case of names.
pub proof fn law_pin_follows_the_walk<P>(
    pinning: PinningView,
    report: PinReport,
    tree: spec_fn(P) -> Seq<TreeEntry<P>>,
    height: spec_fn(P) -> nat,
    top: P,
    fuel: nat,
)
    requires
        is_tree(tree, height),
        directories_from(tree, height, top).len() <= fuel,
        report.links == tree_report(tree, height, top),
    ensures
        root::pinned(pinning, report) == match root::identified(pinning, report) {
            Err(e) => Err::<RootView, RootErrorView>(e),
            Ok(pin) => match walked(root::audit_begun(pin, top), tree, fuel).unwrap() {
                Err(e) => Err(e),
                Ok(pin) => root::after_case_checked(pin, report.case),
            },
        },
        root::identified(pinning, report) matches Ok(pin) ==> walked(
            root::audit_begun(pin, top),
            tree,
            fuel,
        ) is Some,
{
    if let Ok(pin) = root::identified(pinning, report) {
        law_audit_covers_the_tree(pin, tree, height, top, fuel);
    }
}

} // verus!
