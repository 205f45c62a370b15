//! Docroots: which are pinned, and for what the others are refused.

use crate::numeral;
use crate::paths;
use crate::resolve;
use crate::resolve::{Errno, RootErrorView, SymlinkPolicy};
use crate::root;
use crate::root::{AuditView, PinReport, PinningView, RootView, SeenLink};
use crate::text;
use crate::walk;
use crate::walk::TreeEntry;
use vstd::multiset::*;
use vstd::prelude::*;
use vstd::seq_lib::*;
use vstd::string::*;

verus! {

/// Whether some symlink is one that a policy refuses: any at all, or one that leads outside.
pub open spec fn some_refused(policy: SymlinkPolicy, links: Seq<SeenLink>) -> bool {
    match policy {
        SymlinkPolicy::Deny => links.len() > 0,
        SymlinkPolicy::AllowWithinRoot => exists|i: int|
            0 <= i < links.len() && (#[trigger] links[i]).escapes,
    }
}

/// A docroot is pinned by what is found at its path, in this order: it must have a physical path,
/// be a directory, open, and open under confinement; it must have an identity, a tree without a
/// symlink that the policy refuses, and names that differ by case. The first of these that does
/// not hold is what it is refused for.
pub proof fn law_docroots_are_pinned_in_order(pinning: PinningView, report: PinReport)
    ensures
        ({
            let pin = root::pinned(pinning, report);
            match (report.canonical, report.is_dir, report.opened, report.confined, report.identity) {
                (Err(e), _, _, _, _) => pin == Err::<RootView, _>(RootErrorView::Io(e)),
                (Ok(path), Err(e), _, _, _) => pin == Err::<RootView, _>(RootErrorView::Io(e)),
                (Ok(path), Ok(false), _, _, _) => pin == Err::<RootView, _>(
                    RootErrorView::NotADirectory(path),
                ),
                (Ok(path), Ok(true), Err(e), _, _) => pin == Err::<RootView, _>(
                    RootErrorView::Io(e),
                ),
                (Ok(path), Ok(true), Ok(_), Err((Errno::NoSys, e)), _) => pin == Err::<
                    RootView,
                    _,
                >(RootErrorView::Openat2Unsupported),
                (Ok(path), Ok(true), Ok(_), Err((_, e)), _) => pin == Err::<RootView, _>(
                    RootErrorView::Io(e),
                ),
                (Ok(path), Ok(true), Ok(_), Ok(_), Err(e)) => pin == Err::<RootView, _>(
                    RootErrorView::Io(e),
                ),
                (Ok(path), Ok(true), Ok(_), Ok(_), Ok((dev, ino))) => match report.links {
                    Err(e) => pin == Err::<RootView, _>(e),
                    Ok(links) => if some_refused(pinning.policy, links) {
                        pin matches Err(RootErrorView::HostileSymlinks(_))
                    } else {
                        match report.case {
                            Some((Some(a), Some(b))) if a == b => pin == Err::<RootView, _>(
                                RootErrorView::CaseInsensitiveRoot(path),
                            ),
                            _ => pin == Ok::<_, RootErrorView>(
                                RootView {
                                    policy: pinning.policy,
                                    generation: pinning.generation,
                                    canonical: path,
                                    dev,
                                    ino,
                                },
                            ),
                        }
                    },
                },
            }
        }),
{
    if let (Ok(path), Ok(links)) = (report.canonical, report.links) {
        root::law_audit_passes(pinning.policy, path, links);
        if pinning.policy == SymlinkPolicy::AllowWithinRoot {
            if root::is_free_of_refused_links(pinning.policy, links) {
                assert(!some_refused(pinning.policy, links));
            } else {
                assert(some_refused(pinning.policy, links));
            }
        }
    }
}

/// The symlinks that are refused: one more that the policy refuses comes behind those before it,
/// as it is shown to operators, and one that it allows changes nothing.
pub proof fn law_refused_symlinks_are_kept_in_order(
    policy: SymlinkPolicy,
    canonical: Seq<char>,
    links: Seq<SeenLink>,
    link: SeenLink,
)
    ensures
        root::refused_links(policy, canonical, Seq::empty()) == Seq::<Seq<char>>::empty(),
        policy == SymlinkPolicy::Deny || link.escapes ==> root::refused_links(
            policy,
            canonical,
            links.push(link),
        ) == root::refused_links(policy, canonical, links).push(
            paths::shown_path(canonical, link.path),
        ),
        policy == SymlinkPolicy::AllowWithinRoot && !link.escapes ==> root::refused_links(
            policy,
            canonical,
            links.push(link),
        ) == root::refused_links(policy, canonical, links),
{
    assert(links.push(link).drop_last() =~= links);
}

// ---- what is reported ----

/// Texts are ordered as in a dictionary: one that begins another comes first, and otherwise the
/// first letter in which they differ decides.
pub proof fn law_texts_are_ordered_as_in_a_dictionary(
    common: Seq<char>,
    a: Seq<char>,
    b: Seq<char>,
)
    ensures
        root::not_after(common, common + b),
        a.len() > 0 ==> !root::not_after(common + a, common),
        a.len() > 0 && b.len() > 0 && a[0] != b[0] ==> (root::not_after(common + a, common + b)
            <==> a[0] < b[0]),
    decreases common.len(),
{
    if common.len() == 0 {
        assert(common + a =~= a);
        assert(common + b =~= b);
    } else {
        let rest = common.skip(1);
        law_texts_are_ordered_as_in_a_dictionary(rest, a, b);
        assert((common + a).skip(1) =~= rest + a);
        assert((common + b).skip(1) =~= rest + b);
        assert((common + a)[0] == common[0]);
        assert((common + b)[0] == common[0]);
    }
}

/// A report holds the first twenty of the refused symlinks in order, or all of them where there
/// are no more: what it leaves out comes behind all that it holds.
pub proof fn law_reports_hold_the_first_twenty(hostile: Seq<Seq<char>>)
    ensures
        ({
            let entries = root::report_of(hostile);
            &&& entries.len() == if hostile.len() < 20 {
                hostile.len()
            } else {
                20
            }
            &&& forall|i: int, j: int|
                0 <= i < j < entries.len() ==> root::not_after(
                    #[trigger] entries[i],
                    #[trigger] entries[j],
                )
            &&& exists|rest: Seq<Seq<char>>|
                {
                    &&& #[trigger] (entries + rest).to_multiset() == hostile.to_multiset()
                    &&& forall|i: int, j: int|
                        0 <= i < entries.len() && 0 <= j < rest.len() ==> root::not_after(
                            #[trigger] entries[i],
                            #[trigger] rest[j],
                        )
                }
        }),
{
    root::law_report_exists(hostile);
    let entries = root::report_of(hostile);
    let sorted = choose|sorted: Seq<Seq<char>>|
        {
            &&& root::is_sorted(sorted)
            &&& #[trigger] sorted.to_multiset() == hostile.to_multiset()
            &&& entries == if sorted.len() > root::SHOWN_SYMLINKS {
                sorted.take(root::SHOWN_SYMLINKS as int)
            } else {
                sorted
            }
        };
    sorted.to_multiset_ensures();
    hostile.to_multiset_ensures();
    assert(sorted.len() == hostile.len());
    let rest = sorted.skip(entries.len() as int);
    assert(entries + rest =~= sorted);
    assert forall|i: int, j: int| 0 <= i < j < entries.len() implies root::not_after(
        #[trigger] entries[i],
        #[trigger] entries[j],
    ) by {
        assert(entries[i] == sorted[i] && entries[j] == sorted[j]);
    }
    assert forall|i: int, j: int| 0 <= i < entries.len() && 0 <= j < rest.len() implies
        root::not_after(#[trigger] entries[i], #[trigger] rest[j]) by {
        assert(entries[i] == sorted[i]);
        assert(rest[j] == sorted[entries.len() + j]);
    }
    assert((entries + rest).to_multiset() == hostile.to_multiset());
}

/// The symlinks of a report are told with a comma and a space between each two.
pub proof fn law_lists_have_commas_between(
    entries: Seq<Seq<char>>,
    first: Seq<char>,
    last: Seq<char>,
)
    ensures
        resolve::listed(Seq::empty()) == Seq::<char>::empty(),
        resolve::listed(seq![first]) == first,
        entries.len() > 0 ==> resolve::listed(entries.push(last)) == resolve::listed(entries)
            + seq![',', ' '] + last,
{
    reveal_strlit(", ");
    assert(", "@ =~= seq![',', ' ']);
    assert(entries.push(last).drop_last() =~= entries);
}

/// What a refused docroot tells an operator.
pub proof fn law_refused_docroots_are_told(
    words: Seq<char>,
    entries: Seq<Seq<char>>,
    scanned: nat,
)
    ensures
        resolve::root_error_text(RootErrorView::Io(words)) == "root pin io error: "@ + words,
        resolve::root_error_text(RootErrorView::NotADirectory(words))
            == "static root is not a directory: "@ + text::debug_path(words),
        resolve::root_error_text(RootErrorView::Openat2Unsupported)
            == "openat2 unavailable (kernel < 5.6); crenel fails closed without it"@,
        resolve::root_error_text(RootErrorView::HostileSymlinks(entries))
            == "static root contains symlinks the symlink policy would reject at request time ("@
            + numeral::decimal(entries.len()) + " shown): "@ + resolve::listed(entries)
            + ". Fix: mount the PHYSICAL target directory directly (e.g. Capistrano linked_dirs -> point the mount at shared/), remove the links, or relax the mount's symlink policy to allow-within-root."@,
        resolve::root_error_text(RootErrorView::AuditTooLarge(scanned as int))
            == "boot symlink audit exceeded "@ + numeral::decimal(scanned)
            + " entries; split the mount into smaller roots or reduce the tree"@,
        resolve::root_error_text(RootErrorView::CaseInsensitiveRoot(words)) == "static root "@
            + text::debug_path(words)
            + " appears case-insensitive; byte-exact path guarantees do not hold (move the docroot to a case-sensitive filesystem)"@,
{
}

// ---- the audit ----

/// An audit begins with the top of the tree and nothing seen. Its next directory is the one that
/// was found last. It counts half a million entries and refuses the tree at the next.
pub proof fn law_audits_count_their_entries<P>(
    pin: RootView,
    top: P,
    audit: AuditView<P>,
    path: P,
    link: SeenLink,
)
    requires
        0 <= audit.scanned <= 500_000,
    ensures
        root::audit_begun(pin, top) == (AuditView {
            pin,
            stack: seq![top],
            scanned: 0,
            links: Seq::empty(),
        }),
        audit.scanned < 500_000 ==> {
            let counted = AuditView { scanned: audit.scanned + 1, ..audit };
            &&& walk::after_entry(audit, TreeEntry::<P>::Other) == Ok::<_, RootErrorView>(counted)
            &&& walk::after_entry(audit, TreeEntry::Directory(path)) == Ok::<_, RootErrorView>(
                AuditView { stack: audit.stack.push(path), ..counted },
            )
            &&& walk::after_entry(audit, TreeEntry::<P>::Link(link)) == Ok::<_, RootErrorView>(
                AuditView { links: audit.links.push(link), ..counted },
            )
        },
        audit.scanned == 500_000 ==> walk::after_entry(audit, TreeEntry::Directory(path)) == Err::<
            AuditView<P>,
            _,
        >(RootErrorView::AuditTooLarge(500_001)),
        root::after_taken(AuditView { stack: audit.stack.push(path), ..audit }) == audit,
{
    assert(audit.stack.push(path).drop_last() =~= audit.stack);
}

// ---- the case of names ----

/// The other case of a letter is the letter 32 places away; what is no ASCII letter has none.
pub proof fn law_names_in_the_other_case(name: Seq<char>, i: int)
    requires
        0 <= i < name.len(),
    ensures
        root::swapped_name(name).len() == name.len(),
        'a' <= name[i] <= 'z' ==> root::swapped_name(name)[i] as u32 == name[i] as u32 - 32,
        'A' <= name[i] <= 'Z' ==> root::swapped_name(name)[i] as u32 == name[i] as u32 + 32,
        !('a' <= name[i] <= 'z') && !('A' <= name[i] <= 'Z') ==> root::swapped_name(name)[i]
            == name[i],
        root::is_case_probe(Some(name)) <==> exists|k: int|
            0 <= k < name.len() && ('a' <= #[trigger] name[k] <= 'z' || 'A' <= name[k] <= 'Z'),
        !root::is_case_probe(None),
{
    lemma_other_case(name[i]);
    if root::is_case_probe(Some(name)) {
        let k = choose|k: int| 0 <= k < name.len() && root::is_letter(#[trigger] name[k]);
        assert('a' <= name[k] <= 'z' || 'A' <= name[k] <= 'Z');
    }
    if exists|k: int|
        0 <= k < name.len() && ('a' <= #[trigger] name[k] <= 'z' || 'A' <= name[k] <= 'Z') {
        let k = choose|k: int|
            0 <= k < name.len() && ('a' <= #[trigger] name[k] <= 'z' || 'A' <= name[k] <= 'Z');
        assert(root::is_letter(name[k]));
    }
}

proof fn lemma_other_case(c: char)
    ensures
        'a' <= c <= 'z' ==> root::swapped_char(c) as u32 == c as u32 - 32,
        'A' <= c <= 'Z' ==> root::swapped_char(c) as u32 == c as u32 + 32,
        !('a' <= c <= 'z') && !('A' <= c <= 'Z') ==> root::swapped_char(c) == c,
{
}

/// The case of names is tried on the first of the first 64 names that has an ASCII letter; where
/// none has one, there is nothing to try.
pub proof fn law_case_is_tried_on_the_first_name_with_letters(
    names: Seq<Option<Seq<char>>>,
    probe: Option<(int, Seq<char>)>,
)
    requires
        root::is_decided(names, probe),
    ensures
        match probe {
            Some((at, swapped)) => {
                &&& 0 <= at < names.len()
                &&& at < 64
                &&& root::is_case_probe(names[at])
                &&& names[at] matches Some(name) && swapped == root::swapped_name(name)
                &&& forall|j: int| 0 <= j < at ==> !root::is_case_probe(#[trigger] names[j])
            },
            None => forall|j: int|
                0 <= j < names.len() && j < 64 ==> !root::is_case_probe(#[trigger] names[j]),
        },
{
}

/// A docroot ignores case when the entry is the same file, by device and inode, under its own
/// name and under the one in the other case.
pub proof fn law_same_file_under_both_names_ignores_case(
    original: Option<(u64, u64)>,
    variant: Option<(u64, u64)>,
)
    ensures
        !root::ignores_case(None),
        root::ignores_case(Some((original, variant))) <==> {
            &&& original is Some
            &&& variant is Some
            &&& original->Some_0.0 == variant->Some_0.0
            &&& original->Some_0.1 == variant->Some_0.1
        },
{
}

/// A pinned docroot is pinned anew when its path has another device or inode: under the same
/// policy, as the next generation. A path that cannot be looked at is an error.
pub proof fn law_replaced_docroots_are_pinned_anew(
    pin: RootView,
    dev: u64,
    ino: u64,
    words: Seq<char>,
)
    requires
        pin.generation < 0xffff_ffff_ffff_ffff,
    ensures
        root::repinned(pin, Ok((pin.dev, pin.ino))) == Ok::<_, RootErrorView>(None::<PinningView>),
        dev != pin.dev || ino != pin.ino ==> {
            &&& root::repinned(pin, Ok((dev, ino))) matches Ok(Some(pinning))
            &&& pinning.policy == pin.policy
            &&& pinning.generation == pin.generation + 1
        },
        root::repinned(pin, Err(words)) == Err::<Option<PinningView>, _>(RootErrorView::Io(words)),
{
}

} // verus!
