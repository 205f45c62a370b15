//! The boot of a server: which mounts it is built of, and what it is refused for.

use crate::config::{Limits, MountSpecView};
use crate::laws::targets;
use crate::pipeline;
use crate::pipeline::{MountErrorView, MountView};
use crate::resolve;
use crate::resolve::RootErrorView;
use crate::serve;
use crate::serve::{BootStepView, BootView, BuildErrorView, ServerView};
use crate::text;
use vstd::prelude::*;
use vstd::string::*;

verus! {

/// Whether a text can be the prefix of a mount: it begins with a slash, no piece of it is a dot
/// or two dots, and it holds no `%`, `?`, `#` or control character.
pub open spec fn is_prefix(prefix: Seq<char>) -> bool {
    &&& prefix.len() > 0
    &&& prefix[0] == '/'
    &&& !text::split(prefix, '/').contains(seq!['.'])
    &&& !text::split(prefix, '/').contains(seq!['.', '.'])
    &&& forall|i: int|
        0 <= i < prefix.len() ==> {
            &&& #[trigger] prefix[i] != '%'
            &&& prefix[i] != '?'
            &&& prefix[i] != '#'
            &&& prefix[i] != '\u{7f}'
            &&& prefix[i] >= '\u{20}'
        }
}

/// The segments of a prefix: what stands between its slashes.
pub open spec fn names_of(prefix: Seq<char>) -> Seq<Seq<char>> {
    text::split(prefix, '/').filter(|s: Seq<char>| s.len() > 0)
}

/// A boot goes from mount to mount. The prefix of each is checked before its docroot is pinned,
/// and a wrong one is refused as it was written.
pub proof fn law_boots_check_each_prefix(
    specs: Seq<MountSpecView>,
    at: int,
    limits: Limits,
    step: BootStepView,
)
    requires
        0 <= at < specs.len(),
        serve::is_booted(specs, at, limits, step),
    ensures
        ({
            let prefix = specs[at].prefix;
            if is_prefix(prefix) {
                step == BootStepView::Pin(BootView { specs, at, limits })
            } else if prefix.len() == 0 || prefix[0] != '/' {
                step == BootStepView::Failed(
                    BuildErrorView::Mount(MountErrorView::NotAbsolute(prefix)),
                )
            } else {
                step == BootStepView::Failed(
                    BuildErrorView::Mount(MountErrorView::HostileSegment(prefix)),
                )
            }
        }),
{
    targets::law_mount_prefixes(specs[at].prefix);
}

/// The mount that a spec describes has the segments of its prefix, and its policy on dotfiles.
proof fn lemma_mounts(specs: Seq<MountSpecView>)
    ensures
        serve::mounts_of(specs).len() == specs.len(),
        forall|i: int|
            0 <= i < specs.len() ==> #[trigger] serve::mounts_of(specs)[i] == (MountView {
                segments: names_of(specs[i].prefix),
                allow_dotfiles: specs[i].allow_dotfiles,
            }),
{
    assert forall|i: int| 0 <= i < specs.len() implies #[trigger] serve::mounts_of(specs)[i] == (
    MountView {
        segments: names_of(specs[i].prefix),
        allow_dotfiles: specs[i].allow_dotfiles,
    }) by {
        targets::law_mount_prefixes(specs[i].prefix);
    }
}

/// A boot that has pinned every docroot ends. Where no two mounts have the same segments it ends
/// with a server of these mounts, in order, under these limits. Otherwise it is refused, for the
/// first mount that has the segments of an earlier one, in its normal form.
pub proof fn law_boots_end_with_all_mounts(
    specs: Seq<MountSpecView>,
    limits: Limits,
    step: BootStepView,
)
    requires
        serve::is_booted(specs, specs.len() as int, limits, step),
        forall|i: int| 0 <= i < specs.len() ==> pipeline::is_mount(
            #[trigger] serve::mounts_of(specs)[i],
        ),
    ensures
        match step {
            BootStepView::Ready(server) => {
                &&& server.specs == specs
                &&& server.limits == limits
                &&& server.table.len() == specs.len()
                &&& forall|i: int|
                    0 <= i < specs.len() ==> {
                        &&& (#[trigger] server.table[i]).segments == names_of(specs[i].prefix)
                        &&& server.table[i].allow_dotfiles == specs[i].allow_dotfiles
                    }
                &&& forall|i: int, k: int|
                    0 <= i < k < specs.len() ==> names_of(#[trigger] specs[i].prefix) != names_of(
                        #[trigger] specs[k].prefix,
                    )
            },
            BootStepView::Failed(BuildErrorView::Mount(MountErrorView::Duplicate(prefix))) =>
            exists|i: int, j: int|
                {
                    &&& 0 <= i < j < specs.len()
                    &&& names_of(#[trigger] specs[i].prefix) == names_of(
                        #[trigger] specs[j].prefix,
                    )
                    &&& prefix == seq!['/'] + text::join(names_of(specs[j].prefix), '/')
                    &&& forall|k: int, l: int|
                        0 <= k < l < j ==> names_of(#[trigger] specs[k].prefix) != names_of(
                            #[trigger] specs[l].prefix,
                        )
                },
            _ => false,
        },
{
    let table = serve::mounts_of(specs);
    lemma_mounts(specs);
    match step {
        BootStepView::Ready(server) => {
            targets::law_tables_hold_each_prefix_once(table, 0);
            assert forall|i: int, k: int| 0 <= i < k < specs.len() implies names_of(
                #[trigger] specs[i].prefix,
            ) != names_of(#[trigger] specs[k].prefix) by {
                assert(table[i].segments != table[k].segments);
            }
        },
        BootStepView::Failed(BuildErrorView::Mount(MountErrorView::Duplicate(prefix))) => {
            let j = choose|j: int|
                pipeline::first_repeat(table, j) && prefix == pipeline::prefix_text(
                    #[trigger] table[j].segments,
                );
            targets::law_tables_hold_each_prefix_once(table, j);
            let i = choose|i: int| 0 <= i < j && #[trigger] table[i].segments == table[j].segments;
            assert(names_of(specs[i].prefix) == names_of(specs[j].prefix));
            targets::law_prefixes_tell_mounts_apart(table[j], table[j]);
            assert forall|k: int, l: int| 0 <= k < l < j implies names_of(
                #[trigger] specs[k].prefix,
            ) != names_of(#[trigger] specs[l].prefix) by {
                assert(table[k].segments != table[l].segments);
            }
        },
        _ => {},
    }
}

/// A mount whose prefix can be one is sound.
pub proof fn law_checked_prefixes_make_mounts(spec: MountSpecView)
    requires
        is_prefix(spec.prefix),
    ensures
        pipeline::is_mount(serve::mount_of(spec)),
{
    let keep = |s: Seq<char>| s.len() > 0;
    let pieces = text::split(spec.prefix, '/');
    let segments = names_of(spec.prefix);
    targets::law_mount_prefixes(spec.prefix);
    text::lemma_split(spec.prefix, '/');
    assert forall|i: int| 0 <= i < segments.len() implies pipeline::is_prefix_segment(
        #[trigger] segments[i],
    ) by {
        assert(segments.contains(segments[i]));
        pieces.lemma_filter_contains_rev(keep, segments[i]);
        pieces.lemma_filter_pred(keep, i);
        let k = choose|k: int| 0 <= k < pieces.len() && pieces[k] == segments[i];
        assert(!pipeline::is_hostile_in_prefix(text::split(spec.prefix, '/')[k]));
    }
}

/// What holds of every server: one mount for each spec, with the segments of its prefix and its
/// policy on dotfiles, and no segments twice.
pub proof fn law_servers_have_their_mounts(server: ServerView, i: int, k: int)
    requires
        serve::is_server(server),
        0 <= i < server.specs.len(),
        0 <= k < server.specs.len(),
    ensures
        server.table.len() == server.specs.len(),
        server.table[i].segments == names_of(server.specs[i].prefix),
        server.table[i].allow_dotfiles == server.specs[i].allow_dotfiles,
        i != k ==> server.table[i].segments != server.table[k].segments,
{
    lemma_mounts(server.specs);
    targets::law_tables_hold_each_prefix_once(server.table, 0);
    assert(server.table[i] == serve::mounts_of(server.specs)[i]);
    assert(server.table[k] == serve::mounts_of(server.specs)[k]);
}

/// What a refused boot tells an operator: the mount, quoted, and what is wrong with it.
pub proof fn law_refused_boots_are_told(
    prefix: Seq<char>,
    e: MountErrorView,
    error: RootErrorView,
)
    ensures
        serve::build_error_text(BuildErrorView::Mount(e)) == "mount table: "@
            + pipeline::mount_error_text(e),
        serve::build_error_text(BuildErrorView::Root { prefix, error })
            == "pinning docroot for mount "@ + text::debug_text(prefix) + ": "@
            + resolve::root_error_text(error),
        pipeline::mount_error_text(MountErrorView::NotAbsolute(prefix))
            == "mount prefix must start with '/': "@ + text::debug_text(prefix),
        pipeline::mount_error_text(MountErrorView::HostileSegment(prefix))
            == "mount prefix contains a forbidden segment or byte (., .., %, ?, #, control): "@
            + text::debug_text(prefix),
        pipeline::mount_error_text(MountErrorView::Duplicate(prefix))
            == "duplicate mount prefix after normalization: "@ + text::debug_text(prefix),
{
}

} // verus!
