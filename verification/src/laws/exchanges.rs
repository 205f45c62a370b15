//! Exchanges: what a request is answered with, from its first byte to its last.

use crate::config::{MountSpecView, OnMiss};
use crate::counters;
use crate::counters::Counters;
use crate::headers;
use crate::laws::opens;
use crate::pipeline;
use crate::pipeline::{CandidateView, ClassificationView};
use crate::resolve;
use crate::resolve::{Outcome, ServedFile, SymlinkPolicy};
use crate::semantics;
use crate::semantics::{BodyPlan, FileView, PlanView, RequestView};
use crate::serve;
use crate::serve::{
    ExchangeView, FileOpenView, HeadView, OpenKindView, PreparedView, ServerView, StepView, World,
};
use crate::sidecar;
use crate::sidecar::Encoding;
use crate::text;
use vstd::prelude::*;
use vstd::string::*;
use vstd::utf8::*;

verus! {

// ---- counting ----

/// A counter after one more event, around at 64 bits.
pub open spec fn one_more(n: u64) -> u64 {
    if n == u64::MAX {
        0
    } else {
        (n + 1) as u64
    }
}

/// The counters after one more response of a status.
pub open spec fn counted(c: Counters, status: u16) -> Counters {
    if status / 100 == 2 {
        Counters { status_2xx: one_more(c.status_2xx), ..c }
    } else if status / 100 == 3 {
        Counters { status_3xx: one_more(c.status_3xx), ..c }
    } else if status / 100 == 4 {
        Counters { status_4xx: one_more(c.status_4xx), ..c }
    } else {
        Counters { status_5xx: one_more(c.status_5xx), ..c }
    }
}

/// A response is counted by the hundred of its status, and in no other counter.
pub proof fn law_responses_are_counted_by_class(c: Counters, status: u16, n: u64)
    ensures
        counters::with_status(c, status) == counted(c, status),
        counters::bumped(n) == one_more(n),
{
}

/// Every counter is exported once, in a fixed order, under a name between `crenel_` and `_total`.
pub proof fn law_counters_are_exported(c: Counters)
    ensures
        ({
            let named = |name: Seq<char>| "crenel_"@ + name + "_total"@;
            counters::exported(c) == seq![
                (named("status_2xx"@), c.status_2xx),
                (named("status_3xx"@), c.status_3xx),
                (named("status_4xx"@), c.status_4xx),
                (named("status_5xx"@), c.status_5xx),
                (named("bytes_sent"@), c.bytes_sent),
                (named("io_sheds"@), c.sheds),
                (named("deadline_aborts"@), c.deadline_aborts),
                (named("client_aborts"@), c.client_aborts),
                (named("io_faults"@), c.io_faults),
                (named("root_repins"@), c.repins),
            ]
        }),
{
    reveal_strlit("crenel_");
    reveal_strlit("_total");
    reveal_strlit("status_2xx");
    reveal_strlit("crenel_status_2xx_total");
    assert("crenel_status_2xx_total"@ =~= "crenel_"@ + "status_2xx"@ + "_total"@);
    reveal_strlit("status_3xx");
    reveal_strlit("crenel_status_3xx_total");
    assert("crenel_status_3xx_total"@ =~= "crenel_"@ + "status_3xx"@ + "_total"@);
    reveal_strlit("status_4xx");
    reveal_strlit("crenel_status_4xx_total");
    assert("crenel_status_4xx_total"@ =~= "crenel_"@ + "status_4xx"@ + "_total"@);
    reveal_strlit("status_5xx");
    reveal_strlit("crenel_status_5xx_total");
    assert("crenel_status_5xx_total"@ =~= "crenel_"@ + "status_5xx"@ + "_total"@);
    reveal_strlit("bytes_sent");
    reveal_strlit("crenel_bytes_sent_total");
    assert("crenel_bytes_sent_total"@ =~= "crenel_"@ + "bytes_sent"@ + "_total"@);
    reveal_strlit("io_sheds");
    reveal_strlit("crenel_io_sheds_total");
    assert("crenel_io_sheds_total"@ =~= "crenel_"@ + "io_sheds"@ + "_total"@);
    reveal_strlit("deadline_aborts");
    reveal_strlit("crenel_deadline_aborts_total");
    assert("crenel_deadline_aborts_total"@ =~= "crenel_"@ + "deadline_aborts"@ + "_total"@);
    reveal_strlit("client_aborts");
    reveal_strlit("crenel_client_aborts_total");
    assert("crenel_client_aborts_total"@ =~= "crenel_"@ + "client_aborts"@ + "_total"@);
    reveal_strlit("io_faults");
    reveal_strlit("crenel_io_faults_total");
    assert("crenel_io_faults_total"@ =~= "crenel_"@ + "io_faults"@ + "_total"@);
    reveal_strlit("root_repins");
    reveal_strlit("crenel_root_repins_total");
    assert("crenel_root_repins_total"@ =~= "crenel_"@ + "root_repins"@ + "_total"@);
}

// ---- what a candidate is answered with ----

/// What a relative path comes to in a world; the empty one is the docroot itself.
pub open spec fn looked_up<F>(world: World<F>, rel: Seq<char>) -> Outcome<F> {
    (world.resolved)(
        if rel.len() == 0 {
            seq!['.']
        } else {
            rel
        },
    )
}

/// The path of the index of a directory: one more segment, `index.html`.
pub open spec fn index_of(rel: Seq<char>) -> Seq<char> {
    let name = seq!['i', 'n', 'd', 'e', 'x', '.', 'h', 't', 'm', 'l'];
    if rel.len() == 0 {
        name
    } else {
        rel + seq!['/'] + name
    }
}

/// A miss: handed back, or answered 404, as the mount has it.
pub open spec fn missed<F>(spec: MountSpecView, c: Counters) -> (StepView<F>, Counters) {
    match spec.on_miss {
        OnMiss::Fallthrough => (StepView::Decline, c),
        OnMiss::NotFound => (StepView::Fail(404), counted(c, 404)),
    }
}

/// The conditions of a request, each from the header of its name.
pub open spec fn conditions_of(head: HeadView) -> RequestView {
    RequestView {
        head: head.method == seq!['H', 'E', 'A', 'D'],
        if_match: head.if_match,
        if_none_match: head.if_none_match,
        if_modified_since: head.if_modified_since,
        if_unmodified_since: head.if_unmodified_since,
        if_range: head.if_range,
        range: head.range,
    }
}

/// The plan for a path of which the given file is sent: its own snapshot, and the media type of
/// the path.
pub open spec fn plan_for<F>(
    spec: MountSpecView,
    head: HeadView,
    rel: Seq<char>,
    e: Encoding,
    sent: ServedFile<F>,
) -> PlanView {
    semantics::planned(
        conditions_of(head),
        semantics::dates_of(conditions_of(head), sent.mtime_sec),
        FileView {
            len: sent.len,
            mtime_sec: sent.mtime_sec,
            mtime_nsec: sent.mtime_nsec,
            encoding: e,
            vary_applies: spec.sidecars,
            content_type: headers::content_type(rel),
        },
        spec.cache_control,
    )
}

/// Whether a step sends the given file by the given plan: the bytes that the plan's body names,
/// and after a permit where they are more than are read inline. Without the permit it is shed.
pub open spec fn sends<F>(
    at: (StepView<F>, Counters),
    plan: PlanView,
    sent: ServedFile<F>,
    threshold: u64,
    granted: bool,
    c: Counters,
) -> bool {
    let (offset, len) = match plan.body {
        BodyPlan::NoBody => (0u64, 0u64),
        BodyPlan::Whole => (0u64, sent.len),
        BodyPlan::Range { offset, len } => (offset, len),
    };
    if plan.body != BodyPlan::NoBody && len > threshold && !granted {
        at == (
            StepView::<F>::Fail(503),
            counted(Counters { sheds: one_more(c.sheds), ..c }, 503),
        )
    } else {
        at == (
            StepView::Send(PreparedView { plan, file: sent, offset, len }),
            counted(c, plan.status),
        )
    }
}

/// The encodings that are tried for a request, best first: none where the mount has no sidecars.
pub open spec fn tried(spec: MountSpecView, head: HeadView) -> Seq<Encoding> {
    if spec.sidecars {
        sidecar::try_order(head.accept_encoding)
    } else {
        Seq::empty()
    }
}

/// Whether a step answers a request for a path of a mount: a regular file is sent, as the first
/// sidecar that the client accepts where the mount has sidecars; absence and a directory are
/// misses; a shed open is 503, and a fault is 500 and counted as one.
pub open spec fn answers<F>(
    at: (StepView<F>, Counters),
    server: ServerView,
    spec: MountSpecView,
    head: HeadView,
    world: World<F>,
    rel: Seq<char>,
    c: Counters,
) -> bool {
    match looked_up(world, rel) {
        Outcome::File(file) => exists|e: Encoding, sent: ServedFile<F>| #[trigger]
            opens::is_sent(rel, tried(spec, head), world.resolved, file, e, sent) && sends(
                at,
                plan_for(spec, head, rel, e, sent),
                sent,
                server.limits.inline_threshold,
                world.granted,
                c,
            ),
        Outcome::Directory => at == missed::<F>(spec, c),
        Outcome::Miss(_) => at == missed::<F>(spec, c),
        Outcome::Shed => at == (StepView::<F>::Fail(503), counted(c, 503)),
        Outcome::Fault(_) => at == (
            StepView::<F>::Fail(500),
            counted(Counters { io_faults: one_more(c.io_faults), ..c }, 500),
        ),
    }
}

proof fn lemma_path_answer<F>(
    x: ExchangeView,
    rel: Seq<char>,
    world: World<F>,
    c: Counters,
)
    requires
        resolve::is_openable(rel),
    ensures
        answers(
            serve::path_answer(x, rel, world, c),
            x.server,
            serve::spec_of(x),
            x.head,
            world,
            rel,
            c,
        ),
{
    reveal_strlit("HEAD");
    assert("HEAD"@ =~= seq!['H', 'E', 'A', 'D']);
    let spec = serve::spec_of(x);
    let at = serve::path_answer(x, rel, world, c);
    let preference = tried(spec, x.head);
    opens::law_paths_are_opened_as_written(rel, spec.symlink_policy);
    assert((world.resolved)(resolve::opening_of(rel, spec.symlink_policy).target) == looked_up(
        world,
        rel,
    ));
    law_responses_are_counted_by_class(c, 404, c.io_faults);
    law_responses_are_counted_by_class(c, 503, c.sheds);
    law_responses_are_counted_by_class(
        Counters { io_faults: one_more(c.io_faults), ..c },
        500,
        0,
    );
    law_responses_are_counted_by_class(Counters { sheds: one_more(c.sheds), ..c }, 503, 0);
    if let Outcome::File(file) = looked_up(world, rel) {
        if rel.len() > 0 {
            opens::lemma_first_sidecar(rel, preference, world.resolved, 0);
        }
        let (e, sent) = if rel.len() == 0 {
            (Encoding::Identity, file)
        } else {
            match resolve::first_sidecar(rel, preference, world.resolved, 0) {
                Some((e, sent)) => (e, sent),
                None => (Encoding::Identity, file),
            }
        };
        assert(opens::is_sent(rel, preference, world.resolved, file, e, sent));
        let plan = plan_for(spec, x.head, rel, e, sent);
        assert(serve::plan_of(x, rel, e, sent) == plan);
        law_responses_are_counted_by_class(c, plan.status, 0);
        assert(sends(
            at,
            plan_for(spec, x.head, rel, e, sent),
            sent,
            x.server.limits.inline_threshold,
            world.granted,
            c,
        ));
    }
}

/// The index of a directory, in both spellings.
proof fn lemma_index(rel: Seq<char>)
    ensures
        serve::index_path(rel) == index_of(rel),
{
    reveal_strlit("index.html");
    reveal_strlit("/index.html");
    assert(serve::index_path(rel) =~= index_of(rel));
}

/// What follows the first question mark of a target.
pub open spec fn query_in(target: Seq<char>) -> Option<Seq<char>> {
    match text::split_once(target, '?') {
        Some((path, query)) => Some(query),
        None => None,
    }
}

/// The headers of a redirect to the same directory with a slash at its end.
pub open spec fn redirect_headers(
    prefix: Seq<char>,
    rel: Seq<char>,
    target: Seq<char>,
) -> Seq<(Seq<char>, Seq<char>)> {
    seq![
        ("location"@, headers::location(prefix, rel, query_in(target))),
        ("content-length"@, seq!['0']),
        ("x-content-type-options"@, "nosniff"@),
    ]
}

/// Whether a step answers a request for a candidate once its docroot is known to be current. What
/// is no directory is answered as it is. A directory is a miss where the mount has no index; with
/// an index, a path that ends in a slash is answered as its `index.html`, and any other is
/// redirected to end in one, with its query kept.
pub open spec fn answers_candidate<F>(
    at: (StepView<F>, Counters),
    x: ExchangeView,
    world: World<F>,
    c: Counters,
) -> bool {
    let spec = x.server.specs[x.candidate.mount];
    let rel = x.candidate.rel_path;
    if !(looked_up(world, rel) is Directory) {
        answers(at, x.server, spec, x.head, world, rel, c)
    } else if !spec.index {
        at == missed::<F>(spec, c)
    } else if x.candidate.trailing_slash {
        answers(at, x.server, spec, x.head, world, index_of(rel), c)
    } else {
        at == (
            StepView::<F>::Redirect(
                redirect_headers(
                    pipeline::prefix_text(x.server.table[x.candidate.mount].segments),
                    rel,
                    x.target,
                ),
            ),
            counted(c, 301),
        )
    }
}

proof fn lemma_candidate_answer<F>(x: ExchangeView, world: World<F>, c: Counters)
    requires
        resolve::is_openable(x.candidate.rel_path),
        resolve::is_openable(index_of(x.candidate.rel_path)),
    ensures
        answers_candidate(serve::candidate_answer(x, world, c), x, world, c),
{
    reveal_strlit("0");
    assert("0"@ =~= seq!['0']);
    let spec = serve::spec_of(x);
    let rel = x.candidate.rel_path;
    opens::law_paths_are_opened_as_written(rel, spec.symlink_policy);
    assert((world.resolved)(resolve::opening_of(rel, spec.symlink_policy).target) == looked_up(
        world,
        rel,
    ));
    lemma_index(rel);
    law_responses_are_counted_by_class(c, 301, 0);
    law_responses_are_counted_by_class(c, 404, 0);
    if !(looked_up(world, rel) is Directory) {
        lemma_path_answer(x, rel, world, c);
    } else if spec.index && x.candidate.trailing_slash {
        lemma_path_answer(x, index_of(rel), world, c);
    } else if spec.index {
        let prefix = pipeline::prefix_text(x.server.table[x.candidate.mount].segments);
        let location = headers::location(prefix, rel, query_in(x.target));
        assert(serve::redirect_header_list(location) =~= redirect_headers(prefix, rel, x.target));
    }
}

/// The whole of an exchange for a candidate: where its docroot cannot be checked it is answered
/// 500; otherwise a replaced docroot is counted, and the candidate is answered.
pub proof fn law_candidates_are_answered<F>(
    server: ServerView,
    head: HeadView,
    world: World<F>,
    c: Counters,
    candidate: CandidateView,
)
    requires
        serve::is_server(server),
        valid_utf8(head.raw_target),
        pipeline::classification(head.method, decode_utf8(head.raw_target), server.table)
            == ClassificationView::Candidate(candidate),
    ensures
        ({
            let x = ExchangeView {
                server,
                head,
                target: decode_utf8(head.raw_target),
                candidate,
            };
            let fuel = sidecar::try_order(head.accept_encoding).len() + 4;
            let end = serve::run(serve::begun::<F>(server, head, c), world, fuel);
            match world.changed {
                Err(_) => end == Some((StepView::<F>::Fail(500), counted(c, 500))),
                Ok(false) => end is Some && answers_candidate(end.unwrap(), x, world, c),
                Ok(true) => end is Some && answers_candidate(
                    end.unwrap(),
                    x,
                    world,
                    Counters { repins: one_more(c.repins), ..c },
                ),
            }
        }),
{
    let rel = candidate.rel_path;
    let target = decode_utf8(head.raw_target);
    let x = ExchangeView { server, head, target, candidate };
    serve::law_exchange_gives_the_answer(server, head, world, c);
    pipeline::law_candidate_is_resolvable(head.method, target, server.table);
    resolve::law_resolvable_is_openable(rel);
    serve::law_index_is_openable(rel);
    lemma_index(rel);
    law_responses_are_counted_by_class(c, 500, c.repins);
    if let Ok(changed) = world.changed {
        let after = if changed {
            Counters { repins: one_more(c.repins), ..c }
        } else {
            c
        };
        lemma_candidate_answer(x, world, after);
    }
}

/// A plain GET for a directory below a mount with an index, written with a slash at its end, is
/// answered 200 with the whole of the `index.html` in it, where there is one: with the file
/// itself when the mount has no sidecars.
pub proof fn law_slash_serves_the_index<F>(
    server: ServerView,
    head: HeadView,
    world: World<F>,
    c: Counters,
    candidate: CandidateView,
    file: ServedFile<F>,
)
    requires
        serve::is_server(server),
        valid_utf8(head.raw_target),
        pipeline::classification(head.method, decode_utf8(head.raw_target), server.table)
            == ClassificationView::Candidate(candidate),
        candidate.trailing_slash,
        server.specs[candidate.mount].index,
        !server.specs[candidate.mount].sidecars,
        head.method == seq!['G', 'E', 'T'],
        head.if_match is None,
        head.if_none_match is None,
        head.if_modified_since is None,
        head.if_unmodified_since is None,
        head.range is None,
        world.changed is Ok,
        world.granted,
        looked_up(world, candidate.rel_path) is Directory,
        looked_up(world, index_of(candidate.rel_path)) == Outcome::File(file),
    ensures
        ({
            let fuel = sidecar::try_order(head.accept_encoding).len() + 4;
            let end = serve::run(serve::begun::<F>(server, head, c), world, fuel);
            end matches Some((step, after)) && step matches StepView::Send(response)
                && response.plan.status == 200 && response.plan.body == BodyPlan::Whole
                && response.file == file && response.offset == 0 && response.len == file.len
        }),
{
    law_candidates_are_answered(server, head, world, c, candidate);
}

// ---- the steps one by one ----

/// How an exchange begins: a target that is no UTF-8 or that is refused is answered 400, one
/// that is not static is handed back, a denied dotfile is a miss of its mount, and a candidate
/// goes on with all that the request said.
pub proof fn law_exchanges_begin_with_the_target<F>(
    server: ServerView,
    head: HeadView,
    c: Counters,
)
    ensures
        ({
            let at = serve::begun::<F>(server, head, c);
            let target = decode_utf8(head.raw_target);
            if !valid_utf8(head.raw_target) {
                at == (StepView::<F>::Fail(400), counted(c, 400))
            } else {
                match pipeline::classification(head.method, target, server.table) {
                    ClassificationView::NotStatic(_) => at == (StepView::<F>::Decline, c),
                    ClassificationView::Reject(_) => at == (
                        StepView::<F>::Fail(400),
                        counted(c, 400),
                    ),
                    ClassificationView::Miss { mount, reason } => at == missed::<F>(
                        server.specs[mount],
                        c,
                    ),
                    ClassificationView::Candidate(candidate) => at == (
                        StepView::<F>::CheckRoot(ExchangeView { server, head, target, candidate }),
                        c,
                    ),
                }
            }
        }),
{
    law_responses_are_counted_by_class(c, 400, 0);
    law_responses_are_counted_by_class(c, 404, 0);
}

/// The open of an exchange is the one that it waits for. Asked to repeat it, it opens the same
/// again, and counts the attempt; any other result is taken for what it means.
pub proof fn law_results_are_taken_once<F>(
    open: FileOpenView<F>,
    result: Result<resolve::Opened<F>, resolve::Errno>,
    c: Counters,
)
    ensures
        ({
            let opening = match open.kind {
                OpenKindView::Candidate(opening) => opening,
                OpenKindView::Index(opening) => opening,
                OpenKindView::Sidecar(search) => search.opening,
            };
            &&& serve::opening_in(open.kind) == opening
            &&& opening.attempts < 3 && result == Err::<resolve::Opened<F>, _>(
                resolve::Errno::Again,
            ) ==> (serve::file_opened(open, result, c).1 == c && (serve::file_opened(
                open,
                result,
                c,
            ).0 matches StepView::Open(again) && again.request == open.request && again.rel
                == open.rel && serve::opening_in(again.kind) == (resolve::OpeningView {
                attempts: (opening.attempts + 1) as u32,
                ..opening
            }) && (open.kind matches OpenKindView::Sidecar(search) ==> (again.kind
                matches OpenKindView::Sidecar(same) && same.rel == search.rel && same.preference
                == search.preference && same.at == search.at && same.identity
                == search.identity)) && (open.kind is Candidate ==> again.kind is Candidate) && (
            open.kind is Index ==> again.kind is Index)))
            &&& !(opening.attempts < 3 && result == Err::<resolve::Opened<F>, _>(
                resolve::Errno::Again,
            )) ==> serve::file_opened(open, result, c) == serve::file_resolved(
                open,
                resolve::open_outcome(result),
                c,
            )
        }),
{
    opens::law_opens_are_repeated_on_request(serve::opening_in(open.kind).attempts, result);
}

/// What a search opens is opened under the policy that it was begun with.
proof fn lemma_searches_keep_the_policy<F>(
    identity: ServedFile<F>,
    rel: Seq<char>,
    preference: Seq<Encoding>,
    policy: SymlinkPolicy,
    from: int,
)
    ensures
        resolve::searched_from(identity, rel, preference, policy, from)
            matches resolve::SidecarStepView::Probe(search) ==> search.opening.no_symlinks == (
        policy == SymlinkPolicy::Deny),
    decreases preference.len() - from,
{
    if 0 <= from < preference.len() && !resolve::can_probe(rel, preference[from]) {
        lemma_searches_keep_the_policy(identity, rel, preference, policy, from + 1);
    }
}

/// Every open of an exchange is made for its own request, below the docroot of its mount and
/// under the symlink policy of that mount. The first is of the candidate itself.
pub proof fn law_opens_are_for_the_request<F>(
    x: ExchangeView,
    changed: bool,
    open: FileOpenView<F>,
    result: Result<resolve::Opened<F>, resolve::Errno>,
    c: Counters,
)
    requires
        resolve::is_openable(x.candidate.rel_path),
    ensures
        serve::root_checked::<F>(x, Err(()), c) == (StepView::<F>::Fail(500), counted(c, 500)),
        serve::root_checked::<F>(x, Ok(changed), c).1 == if changed {
            Counters { repins: one_more(c.repins), ..c }
        } else {
            c
        },
        serve::root_checked::<F>(x, Ok(changed), c).0 == StepView::<F>::Open(
            FileOpenView {
                request: x,
                rel: x.candidate.rel_path,
                kind: OpenKindView::Candidate(
                    resolve::OpeningView {
                        target: if x.candidate.rel_path.len() == 0 {
                            seq!['.']
                        } else {
                            x.candidate.rel_path
                        },
                        no_symlinks: x.server.specs[x.candidate.mount].symlink_policy
                            == SymlinkPolicy::Deny,
                        attempts: 0,
                    },
                ),
            },
        ),
        serve::file_opened(open, result, c).0 matches StepView::Open(next) ==> next.request
            == open.request && (serve::opening_in(open.kind).no_symlinks == (
        open.request.server.specs[open.request.candidate.mount].symlink_policy
            == SymlinkPolicy::Deny) ==> serve::opening_in(next.kind).no_symlinks
            == serve::opening_in(open.kind).no_symlinks),
{
    law_responses_are_counted_by_class(c, 500, c.repins);
    opens::law_paths_are_opened_as_written(
        x.candidate.rel_path,
        x.server.specs[x.candidate.mount].symlink_policy,
    );
    let spec = serve::spec_of(open.request);
    if let Outcome::File(file) = resolve::open_outcome(result) {
        lemma_searches_keep_the_policy(
            file,
            open.rel,
            serve::preference_of(open.request),
            spec.symlink_policy,
            0,
        );
        lemma_searches_keep_the_policy(
            file,
            open.request.candidate.rel_path,
            serve::preference_of(open.request),
            spec.symlink_policy,
            0,
        );
    }
    if let OpenKindView::Sidecar(search) = open.kind {
        lemma_searches_keep_the_policy(
            search.identity,
            search.rel,
            search.preference,
            resolve::policy_of(search.opening.no_symlinks),
            search.at + 1,
        );
    }
}

/// The index of a directory is the next that is opened, as one more segment.
pub proof fn law_index_is_opened_next<F>(
    open: FileOpenView<F>,
    result: Result<resolve::Opened<F>, resolve::Errno>,
    c: Counters,
)
    requires
        open.kind is Candidate,
        resolve::open_outcome(result) is Directory,
        open.request.server.specs[open.request.candidate.mount].index,
        open.request.candidate.trailing_slash,
        resolve::is_openable(open.request.candidate.rel_path),
    ensures
        ({
            let index = index_of(open.request.candidate.rel_path);
            serve::file_opened(open, result, c) == (
                StepView::Open(
                    FileOpenView {
                        request: open.request,
                        rel: index,
                        kind: OpenKindView::<F>::Index(
                            resolve::OpeningView {
                                target: index,
                                no_symlinks: open.request.server.specs[
                                    open.request.candidate.mount
                                ].symlink_policy == SymlinkPolicy::Deny,
                                attempts: 0,
                            },
                        ),
                    },
                ),
                c,
            )
        }),
{
    let rel = open.request.candidate.rel_path;
    serve::law_index_is_openable(rel);
    lemma_index(rel);
    assert(index_of(rel).len() > 0);
}

/// A permit lets the response be sent and counted; without one it is shed with 503.
pub proof fn law_permits_decide<F>(response: PreparedView<F>, c: Counters)
    ensures
        serve::admitted(response, true, c) == (
            StepView::Send(response),
            counted(c, response.plan.status),
        ),
        serve::admitted(response, false, c) == (
            StepView::<F>::Fail(503),
            counted(Counters { sheds: one_more(c.sheds), ..c }, 503),
        ),
{
    law_responses_are_counted_by_class(c, response.plan.status, c.sheds);
    law_responses_are_counted_by_class(Counters { sheds: one_more(c.sheds), ..c }, 503, 0);
}

/// The 404 of a server without an application carries its mark and no body.
pub proof fn law_fallthrough_is_marked()
    ensures
        serve::fallthrough_header_list() == seq![
            ("content-length"@, seq!['0']),
            ("x-crenel-fallthrough"@, seq!['1']),
        ],
{
    reveal_strlit("0");
    reveal_strlit("1");
    assert("0"@ =~= seq!['0']);
    assert("1"@ =~= seq!['1']);
}

/// What stands for the head of a request holds each header under its own name.
pub proof fn law_heads_are_what_they_hold(head: serve::RequestHead)
    ensures
        head@.method == head.method@,
        head@.raw_target == head.raw_target@,
        head.accept_encoding matches Some(v) ==> head@.accept_encoding == Some(v@),
        head.if_match matches Some(v) ==> head@.if_match == Some(v@),
        head.if_none_match matches Some(v) ==> head@.if_none_match == Some(v@),
        head.if_modified_since matches Some(v) ==> head@.if_modified_since == Some(v@),
        head.if_unmodified_since matches Some(v) ==> head@.if_unmodified_since == Some(v@),
        head.if_range matches Some(v) ==> head@.if_range == Some(v@),
        head.range matches Some(v) ==> head@.range == Some(v@),
        head@.accept_encoding is Some == head.accept_encoding is Some,
        head@.if_match is Some == head.if_match is Some,
        head@.if_none_match is Some == head.if_none_match is Some,
        head@.if_modified_since is Some == head.if_modified_since is Some,
        head@.if_unmodified_since is Some == head.if_unmodified_since is Some,
        head@.if_range is Some == head.if_range is Some,
        head@.range is Some == head.range is Some,
{
}

} // verus!
