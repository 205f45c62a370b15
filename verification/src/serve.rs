//! The serve orchestration: boot of a server from its configuration, and the exchange that
//! answers one request.
//!
//! An exchange goes through classification, the check whether the docroot was replaced,
//! resolution, directory dispatch, sidecar negotiation and response planning. The decisions are
//! made here, one step at a time; each step names the outside work to be done next, and takes
//! its result.

use crate::config::{Limits, MountSpec, MountSpecView, OnMiss, StaticServerConfig};
use crate::counters;
use crate::counters::Counters;
use crate::headers;
use crate::pipeline;
use crate::pipeline::{
    Candidate, CandidateView, Classification, ClassificationView, Mount, MountError,
    MountErrorView, MountView, Mounts,
};
use crate::resolve;
use crate::resolve::{
    EncodedOutcome, Errno, Opened, OpenStep, Opening, OpeningView, Outcome, RootError,
    RootErrorView, ServedFile, SidecarSearch, SidecarSearchView, SidecarStep, SidecarStepView,
    SymlinkPolicy,
};
use crate::semantics;
use crate::semantics::{
    BodyPlan, DirectoryAction, FileFacts, FileView, PlanView, RequestFacts, RequestView,
    ResponsePlan, ResponsePolicy,
};
use crate::sidecar;
use crate::sidecar::Encoding;
use crate::text;
use vstd::prelude::*;
use vstd::string::*;
use vstd::utf8::*;

verus! {

/// What became of a request.
#[derive(Debug, Clone, Copy, PartialEq, Eq, Structural)]
pub enum Served {
    /// A response was written, or the connection deliberately cut off. `reusable` tells whether
    /// the connection may be kept.
    Done { reusable: bool },
    /// Not a request for this server; nothing was written.
    NotStatic,
}

/// Why a server could not be built.
#[derive(Debug)]
pub enum BuildError {
    Mount(MountError),
    Root { prefix: String, error: RootError },
}

/// A configured static server: its mounts and their policies.
#[derive(Debug)]
pub struct StaticServer {
    mounts: Mounts,
    specs: Vec<MountSpec>,
    limits: Limits,
}

/// The boot of a server, which waits for a docroot to be pinned.
#[derive(Debug)]
pub struct Boot {
    specs: Vec<MountSpec>,
    table: Vec<Mount>,
    limits: Limits,
}

/// What to do next in the boot of a server.
#[derive(Debug)]
pub enum BootStep {
    /// Pin the next docroot.
    Pin(Boot),
    Ready(StaticServer),
    Failed(BuildError),
}

// ---- boot ----

pub struct ServerView {
    pub table: Seq<MountView>,
    pub specs: Seq<MountSpecView>,
    pub limits: Limits,
}

pub enum BuildErrorView {
    Mount(MountErrorView),
    Root { prefix: Seq<char>, error: RootErrorView },
}

pub struct BootView {
    pub specs: Seq<MountSpecView>,
    /// The mount whose docroot is to be pinned.
    pub at: int,
    pub limits: Limits,
}

pub enum BootStepView {
    Pin(BootView),
    Ready(ServerView),
    Failed(BuildErrorView),
}

pub open spec fn spec_views(specs: Seq<MountSpec>) -> Seq<MountSpecView> {
    specs.map_values(|s: MountSpec| s@)
}

/// The mount that a spec describes.
pub open spec fn mount_of(spec: MountSpecView) -> MountView {
    MountView {
        segments: pipeline::prefix_segments_of(spec.prefix),
        allow_dotfiles: spec.allow_dotfiles,
    }
}

pub open spec fn mounts_of(specs: Seq<MountSpecView>) -> Seq<MountView> {
    specs.map_values(|s: MountSpecView| mount_of(s))
}

impl View for StaticServer {
    type V = ServerView;

    closed spec fn view(&self) -> ServerView {
        ServerView { table: self.mounts@, specs: spec_views(self.specs@), limits: self.limits }
    }
}

impl View for BuildError {
    type V = BuildErrorView;

    open spec fn view(&self) -> BuildErrorView {
        match *self {
            BuildError::Mount(e) => BuildErrorView::Mount(e@),
            BuildError::Root { prefix, error } => BuildErrorView::Root {
                prefix: prefix@,
                error: error@,
            },
        }
    }
}

impl View for Boot {
    type V = BootView;

    closed spec fn view(&self) -> BootView {
        BootView {
            specs: spec_views(self.specs@),
            at: self.table@.len() - 1,
            limits: self.limits,
        }
    }
}

impl View for BootStep {
    type V = BootStepView;

    open spec fn view(&self) -> BootStepView {
        match *self {
            BootStep::Pin(boot) => BootStepView::Pin(boot@),
            BootStep::Ready(server) => BootStepView::Ready(server@),
            BootStep::Failed(e) => BootStepView::Failed(e@),
        }
    }
}

/// What holds of every server: the mount table is that of the specs.
pub open spec fn is_server(server: ServerView) -> bool {
    &&& server.table == mounts_of(server.specs)
    &&& pipeline::is_mount_table(server.table)
}

/// The boot once the docroots of the first `at` mounts are pinned. Each prefix is validated
/// before its docroot is pinned, and duplicates are looked for at the end.
pub open spec fn is_booted(
    specs: Seq<MountSpecView>,
    at: int,
    limits: Limits,
    step: BootStepView,
) -> bool {
    if at < specs.len() {
        let prefix = specs[at].prefix;
        step == if !pipeline::is_origin_form(prefix) {
            BootStepView::Failed(BuildErrorView::Mount(MountErrorView::NotAbsolute(prefix)))
        } else if pipeline::has_hostile_segment(prefix) {
            BootStepView::Failed(BuildErrorView::Mount(MountErrorView::HostileSegment(prefix)))
        } else {
            BootStepView::Pin(BootView { specs, at, limits })
        }
    } else {
        let table = mounts_of(specs);
        match step {
            BootStepView::Ready(server) => server == (ServerView { table, specs, limits })
                && pipeline::is_mount_table(table),
            BootStepView::Failed(BuildErrorView::Mount(MountErrorView::Duplicate(prefix))) =>
            exists|j: int|
                pipeline::first_repeat(table, j) && prefix == pipeline::prefix_text(
                    #[trigger] table[j].segments,
                ),
            _ => false,
        }
    }
}

/// What a build error tells an operator.
pub open spec fn build_error_text(e: BuildErrorView) -> Seq<char> {
    match e {
        BuildErrorView::Mount(e) => "mount table: "@ + pipeline::mount_error_text(e),
        BuildErrorView::Root { prefix, error } => "pinning docroot for mount "@ + text::debug_text(
            prefix,
        ) + ": "@ + resolve::root_error_text(error),
    }
}

impl BuildError {
    /// The message for operators.
    pub fn message(&self) -> (r: String)
        ensures
            r@ == build_error_text(self@),
    {
        match self {
            BuildError::Mount(e) => text::concat("mount table: ", e.message().as_str()),
            BuildError::Root { prefix, error } => {
                let mut out = "pinning docroot for mount ".to_owned();
                out.append(text::quoted(prefix.as_str()).as_str());
                out.append(": ");
                out.append(error.message().as_str());
                out
            },
        }
    }
}

impl Boot {
    #[verifier::type_invariant]
    pub closed spec fn wf(self) -> bool {
        &&& 0 < self.table@.len() <= self.specs@.len()
        &&& forall|i: int|
            0 <= i < self.table@.len() ==> (#[trigger] self.table@[i])@ == mount_of(
                self.specs@[i]@,
            )
    }

    /// Goes on with the mount after those that are in the table.
    fn advance(specs: Vec<MountSpec>, table: Vec<Mount>, limits: Limits) -> (r: BootStep)
        requires
            table@.len() <= specs@.len(),
            forall|i: int|
                0 <= i < table@.len() ==> (#[trigger] table@[i])@ == mount_of(specs@[i]@),
        ensures
            is_booted(spec_views(specs@), table@.len() as int, limits, r@),
    {
        let ghost all = spec_views(specs@);
        let at = table.len();
        if at < specs.len() {
            assert(all[at as int] == specs@[at as int]@);
            match Mount::new(specs[at].prefix.as_str(), specs[at].allow_dotfiles) {
                Err(e) => BootStep::Failed(BuildError::Mount(e)),
                Ok(mount) => {
                    let mut table = table;
                    let ghost before = table@;
                    table.push(mount);
                    assert forall|i: int| 0 <= i < table@.len() implies (#[trigger] table@[i])@
                        == mount_of(specs@[i]@) by {
                        if i < at {
                            assert(table@[i] == before[i]);
                        }
                    }
                    BootStep::Pin(Boot { specs, table, limits })
                },
            }
        } else {
            let ghost made = pipeline::mount_views(table@);
            proof {
                assert forall|i: int| 0 <= i < made.len() implies #[trigger] made[i] == mounts_of(
                    all,
                )[i] by {
                    assert(table@[i]@ == mount_of(specs@[i]@));
                    assert(all[i] == specs@[i]@);
                }
                assert(made =~= mounts_of(all));
            }
            match Mounts::new(table) {
                Err(e) => BootStep::Failed(BuildError::Mount(e)),
                Ok(mounts) => BootStep::Ready(StaticServer { mounts, specs, limits }),
            }
        }
    }

    fn spec(&self) -> (r: &MountSpec)
        ensures
            0 <= self@.at < self@.specs.len(),
            r@ == self@.specs[self@.at],
    {
        proof {
            use_type_invariant(self);
            assert(self@.specs[self@.at] == self.specs@[self@.at]@);
        }
        &self.specs[self.table.len() - 1]
    }

    /// The docroot to be pinned.
    pub fn docroot(&self) -> (r: &str)
        ensures
            0 <= self@.at < self@.specs.len(),
            r@ == self@.specs[self@.at].docroot,
    {
        self.spec().docroot.as_str()
    }

    /// The policy to pin it with.
    pub fn symlink_policy(&self) -> (r: SymlinkPolicy)
        ensures
            0 <= self@.at < self@.specs.len(),
            r == self@.specs[self@.at].symlink_policy,
    {
        self.spec().symlink_policy
    }

    /// Takes whether the docroot could be pinned: go on with the next mount, or fail.
    pub fn pinned(self, result: Result<(), RootError>) -> (r: BootStep)
        ensures
            0 <= self@.at < self@.specs.len(),
            match result {
                Ok(()) => is_booted(self@.specs, self@.at + 1, self@.limits, r@),
                Err(error) => r@ == BootStepView::Failed(
                    BuildErrorView::Root {
                        prefix: self@.specs[self@.at].prefix,
                        error: error@,
                    },
                ),
            },
    {
        let prefix = self.spec().prefix.clone();
        proof {
            use_type_invariant(&self);
        }
        match result {
            Ok(()) => Boot::advance(self.specs, self.table, self.limits),
            Err(error) => BootStep::Failed(BuildError::Root { prefix, error }),
        }
    }
}

impl StaticServer {
    #[verifier::type_invariant]
    pub closed spec fn wf(self) -> bool {
        is_server(self@)
    }

    /// Begins to build a server.
    pub fn new(config: StaticServerConfig) -> (r: BootStep)
        ensures
            is_booted(spec_views(config.mounts@), 0, config.limits, r@),
    {
        Boot::advance(config.mounts, Vec::new(), config.limits)
    }

    /// The limits that the server runs under.
    pub fn limits(&self) -> (r: &Limits)
        ensures
            *r == self@.limits,
    {
        &self.limits
    }
}

// ---- exchanges ----

/// A request as the HTTP layer hands it over: the raw target, and the header values that are
/// text.
#[derive(Debug)]
pub struct RequestHead {
    pub method: String,
    /// The request target exactly as received.
    pub raw_target: Vec<u8>,
    pub accept_encoding: Option<String>,
    pub if_match: Option<String>,
    pub if_none_match: Option<String>,
    pub if_modified_since: Option<String>,
    pub if_unmodified_since: Option<String>,
    pub if_range: Option<String>,
    pub range: Option<String>,
}

/// A request for a static candidate of a server.
#[derive(Debug)]
pub struct Request<'a> {
    server: &'a StaticServer,
    head: RequestHead,
    target: String,
    candidate: Candidate,
}

/// Which file an exchange is opening.
#[derive(Debug)]
enum OpenKind<F> {
    /// The candidate itself.
    Candidate(Opening),
    /// The index of the candidate, which is a directory.
    Index(Opening),
    /// A sidecar of the file.
    Sidecar(SidecarSearch<F>),
}

/// An exchange that waits for a file to be opened.
#[derive(Debug)]
pub struct FileOpen<'a, F> {
    request: Request<'a>,
    rel: String,
    kind: OpenKind<F>,
}

/// A response that is ready to be sent: its plan, the file, and the part of it that is the
/// body.
#[derive(Debug)]
pub struct Prepared<F> {
    pub plan: ResponsePlan,
    pub file: ServedFile<F>,
    pub offset: u64,
    pub len: u64,
}

/// What to do next in an exchange.
#[derive(Debug)]
pub enum Step<'a, F> {
    /// Hand the request back; nothing is written.
    Decline,
    /// Answer with the fixed error response of this status.
    Fail(u16),
    /// Answer 301 with these headers and no body.
    Redirect(Vec<(&'static str, String)>),
    /// Check whether the docroot of the request's mount was replaced.
    CheckRoot(Request<'a>),
    /// Open a file below the docroot.
    Open(FileOpen<'a, F>),
    /// Acquire a permit for a reader task.
    Admit(Prepared<F>),
    /// Write the header and the body.
    Send(Prepared<F>),
}

pub struct HeadView {
    pub method: Seq<char>,
    pub raw_target: Seq<u8>,
    pub accept_encoding: Option<Seq<char>>,
    pub if_match: Option<Seq<char>>,
    pub if_none_match: Option<Seq<char>>,
    pub if_modified_since: Option<Seq<char>>,
    pub if_unmodified_since: Option<Seq<char>>,
    pub if_range: Option<Seq<char>>,
    pub range: Option<Seq<char>>,
}

pub struct ExchangeView {
    pub server: ServerView,
    pub head: HeadView,
    pub target: Seq<char>,
    pub candidate: CandidateView,
}

pub enum OpenKindView<F> {
    Candidate(OpeningView),
    Index(OpeningView),
    Sidecar(SidecarSearchView<F>),
}

pub struct FileOpenView<F> {
    pub request: ExchangeView,
    /// The relative path of the file that is served uncompressed.
    pub rel: Seq<char>,
    pub kind: OpenKindView<F>,
}

pub struct PreparedView<F> {
    pub plan: PlanView,
    pub file: ServedFile<F>,
    pub offset: u64,
    pub len: u64,
}

pub enum StepView<F> {
    Decline,
    Fail(u16),
    Redirect(Seq<(Seq<char>, Seq<char>)>),
    CheckRoot(ExchangeView),
    Open(FileOpenView<F>),
    Admit(PreparedView<F>),
    Send(PreparedView<F>),
}

pub open spec fn opt_view(value: Option<String>) -> Option<Seq<char>> {
    match value {
        Some(v) => Some(v@),
        None => None,
    }
}

impl View for RequestHead {
    type V = HeadView;

    open spec fn view(&self) -> HeadView {
        HeadView {
            method: self.method@,
            raw_target: self.raw_target@,
            accept_encoding: opt_view(self.accept_encoding),
            if_match: opt_view(self.if_match),
            if_none_match: opt_view(self.if_none_match),
            if_modified_since: opt_view(self.if_modified_since),
            if_unmodified_since: opt_view(self.if_unmodified_since),
            if_range: opt_view(self.if_range),
            range: opt_view(self.range),
        }
    }
}

impl<'a> View for Request<'a> {
    type V = ExchangeView;

    closed spec fn view(&self) -> ExchangeView {
        ExchangeView {
            server: self.server@,
            head: self.head@,
            target: self.target@,
            candidate: self.candidate@,
        }
    }
}

impl<F> View for OpenKind<F> {
    type V = OpenKindView<F>;

    closed spec fn view(&self) -> OpenKindView<F> {
        match *self {
            OpenKind::Candidate(opening) => OpenKindView::Candidate(opening@),
            OpenKind::Index(opening) => OpenKindView::Index(opening@),
            OpenKind::Sidecar(search) => OpenKindView::Sidecar(search@),
        }
    }
}

impl<'a, F> View for FileOpen<'a, F> {
    type V = FileOpenView<F>;

    closed spec fn view(&self) -> FileOpenView<F> {
        FileOpenView { request: self.request@, rel: self.rel@, kind: self.kind@ }
    }
}

impl<F> View for Prepared<F> {
    type V = PreparedView<F>;

    open spec fn view(&self) -> PreparedView<F> {
        PreparedView { plan: self.plan@, file: self.file, offset: self.offset, len: self.len }
    }
}

impl<'a, F> View for Step<'a, F> {
    type V = StepView<F>;

    open spec fn view(&self) -> StepView<F> {
        match *self {
            Step::Decline => StepView::Decline,
            Step::Fail(status) => StepView::Fail(status),
            Step::Redirect(list) => StepView::Redirect(semantics::header_views(list@)),
            Step::CheckRoot(request) => StepView::CheckRoot(request@),
            Step::Open(open) => StepView::Open(open@),
            Step::Admit(prepared) => StepView::Admit(prepared@),
            Step::Send(prepared) => StepView::Send(prepared@),
        }
    }
}

// ---- what each step of an exchange decides ----

/// A fixed error response, counted.
pub open spec fn failed<F>(c: Counters, status: u16) -> (StepView<F>, Counters) {
    (StepView::Fail(status), counters::with_status(c, status))
}

/// A miss, answered as the mount's policy has it.
pub open spec fn missed<F>(spec: MountSpecView, c: Counters) -> (StepView<F>, Counters) {
    match spec.on_miss {
        OnMiss::Fallthrough => (StepView::Decline, c),
        OnMiss::NotFound => failed(c, 404),
    }
}

/// The spec of the mount that a request is for.
pub open spec fn spec_of(x: ExchangeView) -> MountSpecView {
    x.server.specs[x.candidate.mount]
}

/// The first step for a request.
pub open spec fn begun<F>(server: ServerView, head: HeadView, c: Counters) -> (
    StepView<F>,
    Counters,
) {
    if !valid_utf8(head.raw_target) {
        failed(c, 400)
    } else {
        let target = decode_utf8(head.raw_target);
        match pipeline::classification(head.method, target, server.table) {
            ClassificationView::NotStatic(_) => (StepView::Decline, c),
            ClassificationView::Reject(_) => failed(c, 400),
            ClassificationView::Miss { mount, reason } => missed(server.specs[mount], c),
            ClassificationView::Candidate(candidate) => (
                StepView::CheckRoot(ExchangeView { server, head, target, candidate }),
                c,
            ),
        }
    }
}

/// The raw query of a target: what follows its first `?`.
pub open spec fn query_of(target: Seq<char>) -> Option<Seq<char>> {
    match text::split_once(target, '?') {
        Some((_, query)) => Some(query),
        None => None,
    }
}

/// The headers of the redirect that adds a trailing slash.
pub open spec fn redirect_header_list(location: Seq<char>) -> Seq<(Seq<char>, Seq<char>)> {
    seq![
        ("location"@, location),
        ("content-length"@, "0"@),
        ("x-content-type-options"@, "nosniff"@),
    ]
}

/// The headers of the 404 with which a server that has no application behind it answers a
/// declined request.
pub open spec fn fallthrough_header_list() -> Seq<(Seq<char>, Seq<char>)> {
    seq![("content-length"@, "0"@), ("x-crenel-fallthrough"@, "1"@)]
}

/// The path of the index of a directory.
pub open spec fn index_path(rel: Seq<char>) -> Seq<char> {
    if rel.len() == 0 {
        "index.html"@
    } else {
        rel + "/index.html"@
    }
}

/// The representation's facts that the plan is made from.
pub open spec fn facts_of<F>(
    spec: MountSpecView,
    rel: Seq<char>,
    encoding: Encoding,
    file: ServedFile<F>,
) -> FileView {
    FileView {
        len: file.len,
        mtime_sec: file.mtime_sec,
        mtime_nsec: file.mtime_nsec,
        encoding,
        vary_applies: spec.sidecars,
        content_type: headers::content_type(rel),
    }
}

/// The conditional and range headers of a request.
pub open spec fn request_of(head: HeadView) -> RequestView {
    RequestView {
        head: head.method == "HEAD"@,
        if_match: head.if_match,
        if_none_match: head.if_none_match,
        if_modified_since: head.if_modified_since,
        if_unmodified_since: head.if_unmodified_since,
        if_range: head.if_range,
        range: head.range,
    }
}

/// The response for the chosen representation.
pub open spec fn plan_of<F>(
    x: ExchangeView,
    rel: Seq<char>,
    encoding: Encoding,
    file: ServedFile<F>,
) -> PlanView {
    let req = request_of(x.head);
    semantics::planned(
        req,
        semantics::dates_of(req, file.mtime_sec),
        facts_of(spec_of(x), rel, encoding, file),
        spec_of(x).cache_control,
    )
}

/// The response made ready: which part of the file is its body.
pub open spec fn prepared<F>(plan: PlanView, file: ServedFile<F>) -> PreparedView<F> {
    match plan.body {
        BodyPlan::NoBody => PreparedView { plan, file, offset: 0, len: 0 },
        BodyPlan::Whole => PreparedView { plan, file, offset: 0, len: file.len },
        BodyPlan::Range { offset, len } => PreparedView { plan, file, offset, len },
    }
}

/// A ready response: sent at once, or after a permit when its body is long.
pub open spec fn ready<F>(limits: Limits, response: PreparedView<F>, c: Counters) -> (
    StepView<F>,
    Counters,
) {
    if response.plan.body != BodyPlan::NoBody && response.len > limits.inline_threshold {
        (StepView::Admit(response), c)
    } else {
        (StepView::Send(response), counters::with_status(c, response.plan.status))
    }
}

/// The step once the file and its sidecars are resolved. The identity file alone decides
/// existence; a sidecar, when there is one, supplies the bytes and the validators.
pub open spec fn encoded_resolved<F>(
    x: ExchangeView,
    rel: Seq<char>,
    encoded: EncodedOutcome<F>,
    c: Counters,
) -> (StepView<F>, Counters) {
    match encoded.identity {
        Outcome::File(identity) => {
            let (encoding, file) = match encoded.sidecar {
                Some((encoding, file)) => (encoding, file),
                None => (Encoding::Identity, identity),
            };
            ready(x.server.limits, prepared(plan_of(x, rel, encoding, file), file), c)
        },
        Outcome::Miss(_) => missed(spec_of(x), c),
        Outcome::Directory => missed(spec_of(x), c),
        Outcome::Shed => failed(c, 503),
        Outcome::Fault(_) => failed(
            Counters { io_faults: counters::bumped(c.io_faults), ..c },
            500,
        ),
    }
}

/// The step after a step of the search for a sidecar.
pub open spec fn searched<F>(
    x: ExchangeView,
    rel: Seq<char>,
    step: SidecarStepView<F>,
    c: Counters,
) -> (StepView<F>, Counters) {
    match step {
        SidecarStepView::Probe(search) => (
            StepView::Open(FileOpenView { request: x, rel, kind: OpenKindView::Sidecar(search) }),
            c,
        ),
        SidecarStepView::Done(encoded) => encoded_resolved(x, rel, encoded, c),
    }
}

/// The encodings that are tried for a request.
pub open spec fn preference_of(x: ExchangeView) -> Seq<Encoding> {
    if spec_of(x).sidecars {
        sidecar::try_order(x.head.accept_encoding)
    } else {
        Seq::empty()
    }
}

/// The step once the file itself is resolved: the search for a sidecar begins.
pub open spec fn identity_resolved<F>(
    x: ExchangeView,
    rel: Seq<char>,
    identity: Outcome<F>,
    c: Counters,
) -> (StepView<F>, Counters) {
    searched(
        x,
        rel,
        match identity {
            Outcome::File(file) => if rel.len() == 0 {
                SidecarStepView::Done(EncodedOutcome { identity, sidecar: None })
            } else {
                resolve::searched_from(
                    file,
                    rel,
                    preference_of(x),
                    spec_of(x).symlink_policy,
                    0,
                )
            },
            _ => SidecarStepView::Done(EncodedOutcome { identity, sidecar: None }),
        },
        c,
    )
}

/// The step that opens the index of a directory.
pub open spec fn index_opened<F>(x: ExchangeView, c: Counters) -> (StepView<F>, Counters) {
    let rel = index_path(x.candidate.rel_path);
    if resolve::is_openable(rel) {
        (
            StepView::Open(
                FileOpenView {
                    request: x,
                    rel,
                    kind: OpenKindView::Index(
                        resolve::opening_of(rel, spec_of(x).symlink_policy),
                    ),
                },
            ),
            c,
        )
    } else {
        identity_resolved(x, rel, Outcome::Fault(Errno::Inval), c)
    }
}

/// The step once the candidate is resolved: a directory is dispatched.
pub open spec fn candidate_resolved<F>(x: ExchangeView, outcome: Outcome<F>, c: Counters) -> (
    StepView<F>,
    Counters,
) {
    match outcome {
        Outcome::Directory => if !spec_of(x).index {
            missed(spec_of(x), c)
        } else if x.candidate.trailing_slash {
            index_opened(x, c)
        } else {
            (
                StepView::Redirect(
                    redirect_header_list(
                        headers::location(
                            pipeline::prefix_text(x.server.table[x.candidate.mount].segments),
                            x.candidate.rel_path,
                            query_of(x.target),
                        ),
                    ),
                ),
                counters::with_status(c, 301),
            )
        },
        _ => identity_resolved(x, x.candidate.rel_path, outcome, c),
    }
}

/// The step once the docroot is known to be current: the candidate is opened.
pub open spec fn root_checked<F>(x: ExchangeView, changed: Result<bool, ()>, c: Counters) -> (
    StepView<F>,
    Counters,
) {
    match changed {
        Err(_) => failed(c, 500),
        Ok(changed) => {
            let c = if changed {
                Counters { repins: counters::bumped(c.repins), ..c }
            } else {
                c
            };
            let rel = x.candidate.rel_path;
            if resolve::is_openable(rel) {
                (
                    StepView::Open(
                        FileOpenView {
                            request: x,
                            rel,
                            kind: OpenKindView::Candidate(
                                resolve::opening_of(rel, spec_of(x).symlink_policy),
                            ),
                        },
                    ),
                    c,
                )
            } else {
                candidate_resolved(x, Outcome::Fault(Errno::Inval), c)
            }
        },
    }
}

/// The open that an exchange waits for.
pub open spec fn opening_in<F>(kind: OpenKindView<F>) -> OpeningView {
    match kind {
        OpenKindView::Candidate(opening) => opening,
        OpenKindView::Index(opening) => opening,
        OpenKindView::Sidecar(search) => search.opening,
    }
}

/// The same open, repeated.
pub open spec fn retried<F>(kind: OpenKindView<F>) -> OpenKindView<F> {
    let opening = OpeningView {
        attempts: (opening_in(kind).attempts + 1) as u32,
        ..opening_in(kind)
    };
    match kind {
        OpenKindView::Candidate(_) => OpenKindView::Candidate(opening),
        OpenKindView::Index(_) => OpenKindView::Index(opening),
        OpenKindView::Sidecar(search) => OpenKindView::Sidecar(
            SidecarSearchView { opening, ..search },
        ),
    }
}

/// The step once the file that an exchange waits for came to the given outcome.
pub open spec fn file_resolved<F>(open: FileOpenView<F>, outcome: Outcome<F>, c: Counters) -> (
    StepView<F>,
    Counters,
) {
    match open.kind {
        OpenKindView::Candidate(_) => candidate_resolved(open.request, outcome, c),
        OpenKindView::Index(_) => identity_resolved(open.request, open.rel, outcome, c),
        OpenKindView::Sidecar(search) => searched(
            open.request,
            open.rel,
            resolve::probed(search, outcome),
            c,
        ),
    }
}

/// The step after the result of an open.
pub open spec fn file_opened<F>(
    open: FileOpenView<F>,
    result: Result<Opened<F>, Errno>,
    c: Counters,
) -> (StepView<F>, Counters) {
    if resolve::is_retried(opening_in(open.kind).attempts, result) {
        (StepView::Open(FileOpenView { kind: retried(open.kind), ..open }), c)
    } else {
        file_resolved(open, resolve::open_outcome(result), c)
    }
}

/// The step after a permit was asked for.
pub open spec fn admitted<F>(response: PreparedView<F>, granted: bool, c: Counters) -> (
    StepView<F>,
    Counters,
) {
    if granted {
        (StepView::Send(response), counters::with_status(c, response.plan.status))
    } else {
        failed(Counters { sheds: counters::bumped(c.sheds), ..c }, 503)
    }
}

// ---- the steps themselves ----

/// The raw query of a target: what follows its first `?`, the mark at which classification
/// cuts it off.
pub fn raw_query(target: &str) -> (r: Option<String>)
    ensures
        opt_view(r) == query_of(target@),
{
    let chars = text::chars_of(target);
    match text::split_chars_once(chars.as_slice(), '?') {
        Some((_, query)) => Some(text::string_of(query)),
        None => None,
    }
}

/// The headers of the redirect that adds a trailing slash.
fn redirect_headers(location: String) -> (r: Vec<(&'static str, String)>)
    ensures
        semantics::header_views(r@) == redirect_header_list(location@),
{
    let mut list: Vec<(&'static str, String)> = Vec::new();
    list.push(("location", location));
    list.push(("content-length", "0".to_owned()));
    list.push(("x-content-type-options", "nosniff".to_owned()));
    assert(semantics::header_views(list@) =~= redirect_header_list(location@));
    list
}

/// The headers of the 404 with which a server that has no application behind it answers a
/// declined request. They tell such a 404 from that of a strict mount.
pub fn fallthrough_headers() -> (r: Vec<(&'static str, String)>)
    ensures
        semantics::header_views(r@) == fallthrough_header_list(),
{
    let mut list: Vec<(&'static str, String)> = Vec::new();
    list.push(("content-length", "0".to_owned()));
    list.push(("x-crenel-fallthrough", "1".to_owned()));
    assert(semantics::header_views(list@) =~= fallthrough_header_list());
    list
}

fn fail<'a, F>(counters: &mut Counters, status: u16) -> (r: Step<'a, F>)
    ensures
        (r@, *final(counters)) == failed::<F>(*old(counters), status),
{
    counters.record_status(status);
    Step::Fail(status)
}

fn miss<'a, F>(spec: &MountSpec, counters: &mut Counters) -> (r: Step<'a, F>)
    ensures
        (r@, *final(counters)) == missed::<F>(spec@, *old(counters)),
{
    match spec.on_miss {
        OnMiss::Fallthrough => Step::Decline,
        OnMiss::NotFound => fail(counters, 404),
    }
}

fn as_text(value: &Option<String>) -> (r: Option<&str>)
    ensures
        semantics::text_view(r) == opt_view(*value),
{
    match value {
        Some(v) => Some(v.as_str()),
        None => None,
    }
}

/// The path of the index of a directory.
fn index_of(rel: &str) -> (r: String)
    ensures
        r@ == index_path(rel@),
{
    let chars = text::chars_of(rel);
    if chars.len() == 0 {
        "index.html".to_owned()
    } else {
        text::concat(rel, "/index.html")
    }
}

impl StaticServer {
    fn spec(&self, mount: usize) -> (r: &MountSpec)
        requires
            mount < self@.specs.len(),
        ensures
            r@ == self@.specs[mount as int],
    {
        assert(self@.specs[mount as int] == self.specs@[mount as int]@);
        &self.specs[mount]
    }

    /// Begins to answer a request.
    pub fn begin<F>(&self, head: RequestHead, counters: &mut Counters) -> (r: Step<'_, F>)
        ensures
            (r@, *final(counters)) == begun::<F>(self@, head@, *old(counters)),
    {
        proof {
            use_type_invariant(self);
        }
        let bytes = vstd::slice::slice_to_vec(head.raw_target.as_slice());
        let target = match text::text_from_utf8(bytes) {
            Some(target) => target,
            None => {
                return fail(counters, 400);
            },
        };
        proof {
            pipeline::lemma_mount_in_range(head.method@, target@, self@.table);
        }
        match pipeline::classify(head.method.as_str(), target.as_str(), &self.mounts) {
            Classification::NotStatic(_) => Step::Decline,
            Classification::Reject(_) => fail(counters, 400),
            Classification::Miss { mount, .. } => miss(self.spec(mount), counters),
            Classification::Candidate(candidate) => Step::CheckRoot(
                Request { server: self, head, target, candidate },
            ),
        }
    }
}

impl<'a> Request<'a> {
    #[verifier::type_invariant]
    pub closed spec fn wf(self) -> bool {
        &&& is_server(self.server@)
        &&& self.candidate.mount < self.server@.specs.len()
    }

    /// The mount that the request is for.
    pub fn mount(&self) -> (r: usize)
        ensures
            r == self@.candidate.mount,
            r < self@.server.specs.len(),
    {
        proof {
            use_type_invariant(self);
        }
        self.candidate.mount
    }

    fn spec(&self) -> (r: &'a MountSpec)
        ensures
            r@ == spec_of(self@),
    {
        proof {
            use_type_invariant(self);
        }
        self.server.spec(self.candidate.mount)
    }

    fn facts(&self) -> (r: RequestFacts<'_>)
        ensures
            r@ == request_of(self@.head),
    {
        RequestFacts {
            head: text::same_text(self.head.method.as_str(), "HEAD"),
            if_match: as_text(&self.head.if_match),
            if_none_match: as_text(&self.head.if_none_match),
            if_modified_since: as_text(&self.head.if_modified_since),
            if_unmodified_since: as_text(&self.head.if_unmodified_since),
            if_range: as_text(&self.head.if_range),
            range: as_text(&self.head.range),
        }
    }

    /// Takes whether the docroot was found replaced and pinned anew, or `Err` when it could not
    /// be.
    pub fn root_checked<F>(self, changed: Result<bool, ()>, counters: &mut Counters) -> (r: Step<
        'a,
        F,
    >)
        ensures
            (r@, *final(counters)) == root_checked::<F>(self@, changed, *old(counters)),
    {
        match changed {
            Err(_) => {
                return fail(counters, 500);
            },
            Ok(true) => {
                counters.repins = counters.repins.wrapping_add(1);
            },
            Ok(false) => {},
        }
        let policy = self.spec().symlink_policy;
        let rel = self.candidate.rel_path.clone();
        match Opening::begin(rel.as_str(), policy) {
            Ok(opening) => Step::Open(
                FileOpen { request: self, rel, kind: OpenKind::Candidate(opening) },
            ),
            Err(e) => self.candidate_resolved(Outcome::Fault(e), counters),
        }
    }

    /// Dispatches the resolved candidate.
    fn candidate_resolved<F>(self, outcome: Outcome<F>, counters: &mut Counters) -> (r: Step<'a, F>)
        ensures
            (r@, *final(counters)) == candidate_resolved(self@, outcome, *old(counters)),
    {
        if let Outcome::Directory = outcome {
            let spec = self.spec();
            match semantics::directory_action(self.candidate.trailing_slash, spec.index) {
                DirectoryAction::Miss => miss(spec, counters),
                DirectoryAction::ServeIndex => {
                    let rel = index_of(self.candidate.rel_path.as_str());
                    let policy = spec.symlink_policy;
                    match Opening::begin(rel.as_str(), policy) {
                        Ok(opening) => Step::Open(
                            FileOpen { request: self, rel, kind: OpenKind::Index(opening) },
                        ),
                        Err(e) => self.identity_resolved(rel, Outcome::Fault(e), counters),
                    }
                },
                DirectoryAction::RedirectAddSlash => {
                    proof {
                        use_type_invariant(&self);
                    }
                    let query = raw_query(self.target.as_str());
                    let location = headers::redirect_location(
                        self.server.mounts.get(self.candidate.mount).prefix(),
                        self.candidate.rel_path.as_str(),
                        as_text(&query),
                    );
                    counters.record_status(301);
                    Step::Redirect(redirect_headers(location))
                },
            }
        } else {
            let rel = self.candidate.rel_path.clone();
            self.identity_resolved(rel, outcome, counters)
        }
    }

    /// Begins the search for a sidecar of the resolved file.
    fn identity_resolved<F>(self, rel: String, identity: Outcome<F>, counters: &mut Counters) -> (r:
        Step<'a, F>)
        ensures
            (r@, *final(counters)) == identity_resolved(self@, rel@, identity, *old(counters)),
    {
        let spec = self.spec();
        let preference = if spec.sidecars {
            sidecar::negotiate(as_text(&self.head.accept_encoding))
        } else {
            let none: Vec<Encoding> = Vec::new();
            assert(none@ =~= Seq::empty());
            none
        };
        assert(preference@ == preference_of(self@));
        let step = resolve::open_encoded_with_identity(
            rel.as_str(),
            preference,
            identity,
            spec.symlink_policy,
        );
        self.searched(rel, step, counters)
    }

    fn searched<F>(self, rel: String, step: SidecarStep<F>, counters: &mut Counters) -> (r: Step<
        'a,
        F,
    >)
        ensures
            (r@, *final(counters)) == searched(self@, rel@, step@, *old(counters)),
    {
        match step {
            SidecarStep::Probe(search) => Step::Open(
                FileOpen { request: self, rel, kind: OpenKind::Sidecar(search) },
            ),
            SidecarStep::Done(encoded) => self.encoded_resolved(rel, encoded, counters),
        }
    }

    /// Plans the response from what was resolved.
    fn encoded_resolved<F>(
        self,
        rel: String,
        encoded: EncodedOutcome<F>,
        counters: &mut Counters,
    ) -> (r: Step<'a, F>)
        ensures
            (r@, *final(counters)) == encoded_resolved(self@, rel@, encoded, *old(counters)),
    {
        let (encoding, file) = match encoded.identity {
            Outcome::File(identity) => match encoded.sidecar {
                Some((encoding, file)) => (encoding, file),
                None => (Encoding::Identity, identity),
            },
            Outcome::Miss(_) => {
                return miss(self.spec(), counters);
            },
            Outcome::Directory => {
                return miss(self.spec(), counters);
            },
            Outcome::Shed => {
                return fail(counters, 503);
            },
            Outcome::Fault(_) => {
                counters.io_faults = counters.io_faults.wrapping_add(1);
                return fail(counters, 500);
            },
        };
        let spec = self.spec();
        let file_facts = FileFacts {
            len: file.len,
            mtime_sec: file.mtime_sec,
            mtime_nsec: file.mtime_nsec,
            encoding,
            vary_applies: spec.sidecars,
            content_type: headers::content_type_for(rel.as_str()),
        };
        let policy = ResponsePolicy { cache_control: as_text(&spec.cache_control) };
        let facts = self.facts();
        let plan = semantics::plan_response(&facts, &file_facts, &policy);
        assert(file_facts@ == facts_of(spec_of(self@), rel@, encoding, file));
        assert(plan@ == plan_of(self@, rel@, encoding, file));
        let (offset, len): (u64, u64) = match plan.body {
            BodyPlan::NoBody => (0, 0),
            BodyPlan::Whole => (0, file.len),
            BodyPlan::Range { offset, len } => (offset, len),
        };
        let has_body = match plan.body {
            BodyPlan::NoBody => false,
            _ => true,
        };
        let status = plan.status;
        let response = Prepared { plan, file, offset, len };
        if has_body && len > self.server.limits.inline_threshold {
            Step::Admit(response)
        } else {
            counters.record_status(status);
            Step::Send(response)
        }
    }
}

impl<'a, F> FileOpen<'a, F> {
    /// The mount below whose docroot to open.
    pub fn mount(&self) -> (r: usize)
        ensures
            r == self@.request.candidate.mount,
            r < self@.request.server.specs.len(),
    {
        self.request.mount()
    }

    /// What to open.
    pub fn opening(&self) -> (r: &Opening)
        ensures
            r@ == opening_in(self@.kind),
    {
        match &self.kind {
            OpenKind::Candidate(opening) => opening,
            OpenKind::Index(opening) => opening,
            OpenKind::Sidecar(search) => search.opening(),
        }
    }

    /// Takes the result of the open.
    pub fn opened(self, result: Result<Opened<F>, Errno>, counters: &mut Counters) -> (r: Step<
        'a,
        F,
    >)
        ensures
            (r@, *final(counters)) == file_opened(self@, result, *old(counters)),
    {
        let request = self.request;
        let rel = self.rel;
        match self.kind {
            OpenKind::Candidate(opening) => match opening.opened(result) {
                OpenStep::Retry(opening) => Step::Open(
                    FileOpen { request, rel, kind: OpenKind::Candidate(opening) },
                ),
                OpenStep::Done(outcome) => request.candidate_resolved(outcome, counters),
            },
            OpenKind::Index(opening) => match opening.opened(result) {
                OpenStep::Retry(opening) => Step::Open(
                    FileOpen { request, rel, kind: OpenKind::Index(opening) },
                ),
                OpenStep::Done(outcome) => request.identity_resolved(rel, outcome, counters),
            },
            OpenKind::Sidecar(search) => {
                let step = search.opened(result);
                request.searched(rel, step, counters)
            },
        }
    }
}

impl<F> Prepared<F> {
    /// Takes whether a permit was granted. Without one the request is shed before anything is
    /// written.
    pub fn admitted<'a>(self, granted: bool, counters: &mut Counters) -> (r: Step<'a, F>)
        ensures
            (r@, *final(counters)) == admitted(self@, granted, *old(counters)),
    {
        if granted {
            counters.record_status(self.plan.status);
            Step::Send(self)
        } else {
            counters.sheds = counters.sheds.wrapping_add(1);
            fail(counters, 503)
        }
    }
}

// ---- laws ----

/// A hostile target is answered with a fixed 400 before the filesystem is looked at, and the
/// answer is the same whatever the mounts are.
pub proof fn law_hostile_target_is_refused<F>(
    server: ServerView,
    other: ServerView,
    head: HeadView,
    c: Counters,
)
    requires
        !valid_utf8(head.raw_target) || pipeline::classification(
            head.method,
            decode_utf8(head.raw_target),
            server.table,
        ) is Reject,
    ensures
        begun::<F>(server, head, c) == failed::<F>(c, 400),
        begun::<F>(other, head, c) == failed::<F>(c, 400),
{
    if valid_utf8(head.raw_target) {
        pipeline::law_reject_ignores_mounts(
            head.method,
            decode_utf8(head.raw_target),
            server.table,
            other.table,
        );
    }
}

/// A declined request is counted nowhere.
pub proof fn law_decline_counts_nothing<F>(
    server: ServerView,
    head: HeadView,
    open: FileOpenView<F>,
    outcome: Outcome<F>,
    c: Counters,
)
    ensures
        begun::<F>(server, head, c).0 is Decline ==> begun::<F>(server, head, c).1 == c,
        file_resolved(open, outcome, c).0 is Decline ==> file_resolved(open, outcome, c).1 == c,
{
}

/// Without a regular file at the path itself nothing is served, whatever sidecars there are.
pub proof fn law_sidecar_cannot_stand_alone<F>(
    x: ExchangeView,
    rel: Seq<char>,
    encoded: EncodedOutcome<F>,
    c: Counters,
)
    requires
        !(encoded.identity is File),
    ensures
        encoded_resolved(x, rel, encoded, c) == encoded_resolved(
            x,
            rel,
            EncodedOutcome { sidecar: None, ..encoded },
            c,
        ),
        encoded_resolved(x, rel, encoded, c).0 is Decline || encoded_resolved(
            x,
            rel,
            encoded,
            c,
        ).0 is Fail,
{
}

/// A selected sidecar supplies length, validators and bytes; the media type stays that of the
/// path that was asked for.
pub proof fn law_sidecar_supplies_the_snapshot<F>(
    x: ExchangeView,
    rel: Seq<char>,
    encoded: EncodedOutcome<F>,
    c: Counters,
)
    requires
        encoded.identity is File,
        encoded.sidecar is Some,
    ensures
        ({
            let (encoding, file) = encoded.sidecar.unwrap();
            match encoded_resolved(x, rel, encoded, c).0 {
                StepView::Send(response) => response == prepared(
                    plan_of(x, rel, encoding, file),
                    file,
                ),
                StepView::Admit(response) => response == prepared(
                    plan_of(x, rel, encoding, file),
                    file,
                ),
                _ => false,
            }
        }),
{
}

/// The body of a ready response lies inside the file.
pub proof fn law_body_is_inside_the_file<F>(
    x: ExchangeView,
    rel: Seq<char>,
    encoding: Encoding,
    file: ServedFile<F>,
)
    ensures
        ({
            let response = prepared(plan_of(x, rel, encoding, file), file);
            response.offset + response.len <= file.len
        }),
{
    let req = request_of(x.head);
    semantics::law_plan_is_consistent(
        req,
        semantics::dates_of(req, file.mtime_sec),
        facts_of(spec_of(x), rel, encoding, file),
        spec_of(x).cache_control,
    );
}

/// The index of a directory may be opened where the directory may.
pub proof fn law_index_is_openable(rel: Seq<char>)
    requires
        resolve::is_openable(rel),
    ensures
        resolve::is_openable(index_path(rel)),
{
    reveal_strlit("index.html");
    reveal_strlit("/index.html");
    let name = "index.html"@;
    let path = index_path(rel);
    text::lemma_find_is(name, '/', name.len() as int);
    assert(text::split(name, '/') =~= seq![name]);
    if rel.len() > 0 {
        assert(path =~= rel + seq!['/'] + name);
        text::lemma_split_concat(rel, name, '/');
        let before = text::split(rel, '/');
        let pieces = text::split(path, '/');
        assert forall|i: int| 0 <= i < pieces.len() implies resolve::is_normal_segment(
            #[trigger] pieces[i],
        ) by {
            if i < before.len() {
                assert(pieces[i] == before[i]);
            } else {
                assert(pieces[i] == name);
            }
        }
    }
    assert forall|k: int| 0 <= k < path.len() implies !pipeline::is_control_char(
        #[trigger] path[k],
    ) by {
        if k < rel.len() {
            assert(path[k] == rel[k]);
        }
    }
}

/// The outside world of an exchange: whether the docroot was replaced, what each path resolves
/// to, and whether a permit is granted.
pub struct World<F> {
    pub changed: Result<bool, ()>,
    pub resolved: spec_fn(Seq<char>) -> Outcome<F>,
    pub granted: bool,
}

/// How an exchange ends in a world.
pub open spec fn run<F>(at: (StepView<F>, Counters), world: World<F>, fuel: nat) -> Option<
    (StepView<F>, Counters),
>
    decreases fuel,
{
    let (step, c) = at;
    match step {
        StepView::CheckRoot(x) => if fuel == 0 {
            None
        } else {
            run(root_checked(x, world.changed, c), world, (fuel - 1) as nat)
        },
        StepView::Open(open) => if fuel == 0 {
            None
        } else {
            run(
                file_resolved(open, (world.resolved)(opening_in(open.kind).target), c),
                world,
                (fuel - 1) as nat,
            )
        },
        StepView::Admit(response) => if fuel == 0 {
            None
        } else {
            run(admitted(response, world.granted, c), world, (fuel - 1) as nat)
        },
        _ => Some(at),
    }
}

/// A step with its admission decided.
pub open spec fn with_admission<F>(at: (StepView<F>, Counters), granted: bool) -> (
    StepView<F>,
    Counters,
) {
    match at.0 {
        StepView::Admit(response) => admitted(response, granted, at.1),
        _ => at,
    }
}

/// The answer for a path in a world: the first sidecar that is a regular file where the path
/// itself is one, the path itself where none is, and otherwise what its outcome calls for.
pub open spec fn path_answer<F>(
    x: ExchangeView,
    rel: Seq<char>,
    world: World<F>,
    c: Counters,
) -> (StepView<F>, Counters) {
    let identity = (world.resolved)(resolve::opening_of(rel, spec_of(x).symlink_policy).target);
    let sidecar = if identity is File && rel.len() > 0 {
        resolve::first_sidecar(rel, preference_of(x), world.resolved, 0)
    } else {
        None
    };
    with_admission(encoded_resolved(x, rel, EncodedOutcome { identity, sidecar }, c), world.granted)
}

/// The answer for a candidate in a world.
pub open spec fn candidate_answer<F>(x: ExchangeView, world: World<F>, c: Counters) -> (
    StepView<F>,
    Counters,
) {
    let rel = x.candidate.rel_path;
    let outcome = (world.resolved)(resolve::opening_of(rel, spec_of(x).symlink_policy).target);
    if outcome is Directory {
        if spec_of(x).index && x.candidate.trailing_slash {
            path_answer(x, index_path(rel), world, c)
        } else {
            candidate_resolved(x, outcome, c)
        }
    } else {
        path_answer(x, rel, world, c)
    }
}

/// The answer to a request in a world.
pub open spec fn answer<F>(server: ServerView, head: HeadView, world: World<F>, c: Counters) -> (
    StepView<F>,
    Counters,
) {
    match begun::<F>(server, head, c).0 {
        StepView::CheckRoot(x) => match world.changed {
            Err(_) => failed(c, 500),
            Ok(changed) => candidate_answer(
                x,
                world,
                if changed {
                    Counters { repins: counters::bumped(c.repins), ..c }
                } else {
                    c
                },
            ),
        },
        _ => begun(server, head, c),
    }
}

/// What is left of an exchange once the paths are resolved.
proof fn lemma_run_encoded<F>(
    x: ExchangeView,
    rel: Seq<char>,
    encoded: EncodedOutcome<F>,
    world: World<F>,
    c: Counters,
    fuel: nat,
)
    requires
        fuel >= 1,
    ensures
        run(encoded_resolved(x, rel, encoded, c), world, fuel) == Some(
            with_admission(encoded_resolved(x, rel, encoded, c), world.granted),
        ),
{
    reveal_with_fuel(run, 2);
}

/// What is left of an exchange while sidecars are tried.
proof fn lemma_run_searched<F>(
    x: ExchangeView,
    rel: Seq<char>,
    identity: ServedFile<F>,
    preference: Seq<Encoding>,
    at: int,
    world: World<F>,
    c: Counters,
    fuel: nat,
)
    requires
        rel.len() > 0,
        0 <= at <= preference.len(),
        fuel >= preference.len() - at + 1,
    ensures
        run(
            searched(
                x,
                rel,
                resolve::searched_from(
                    identity,
                    rel,
                    preference,
                    spec_of(x).symlink_policy,
                    at,
                ),
                c,
            ),
            world,
            fuel,
        ) == Some(
            with_admission(
                encoded_resolved(
                    x,
                    rel,
                    EncodedOutcome {
                        identity: Outcome::File(identity),
                        sidecar: resolve::first_sidecar(rel, preference, world.resolved, at),
                    },
                    c,
                ),
                world.granted,
            ),
        ),
    decreases preference.len() - at,
{
    let policy = spec_of(x).symlink_policy;
    if at >= preference.len() {
        lemma_run_encoded(
            x,
            rel,
            EncodedOutcome { identity: Outcome::File(identity), sidecar: None },
            world,
            c,
            fuel,
        );
    } else if resolve::can_probe(rel, preference[at]) {
        let path = resolve::sidecar_path(rel, preference[at]).unwrap();
        let search = SidecarSearchView {
            identity,
            rel,
            preference,
            at,
            opening: resolve::opening_of(path, policy),
        };
        let outcome = (world.resolved)(path);
        assert(path.len() > 0);
        assert(search.opening.target == path);
        assert(resolve::policy_of(search.opening.no_symlinks) == policy);
        let open = FileOpenView { request: x, rel, kind: OpenKindView::Sidecar(search) };
        assert(run((StepView::Open(open), c), world, fuel) == run(
            file_resolved(open, outcome, c),
            world,
            (fuel - 1) as nat,
        ));
        match outcome {
            Outcome::File(file) => {
                lemma_run_encoded(
                    x,
                    rel,
                    EncodedOutcome {
                        identity: Outcome::File(identity),
                        sidecar: Some((preference[at], file)),
                    },
                    world,
                    c,
                    (fuel - 1) as nat,
                );
            },
            _ => {
                lemma_run_searched(
                    x,
                    rel,
                    identity,
                    preference,
                    at + 1,
                    world,
                    c,
                    (fuel - 1) as nat,
                );
            },
        }
    } else {
        lemma_run_searched(x, rel, identity, preference, at + 1, world, c, fuel);
    }
}

/// What is left of an exchange once a path itself is resolved.
proof fn lemma_run_identity<F>(
    x: ExchangeView,
    rel: Seq<char>,
    world: World<F>,
    c: Counters,
    fuel: nat,
)
    requires
        fuel >= preference_of(x).len() + 1,
    ensures
        run(
            identity_resolved(
                x,
                rel,
                (world.resolved)(resolve::opening_of(rel, spec_of(x).symlink_policy).target),
                c,
            ),
            world,
            fuel,
        ) == Some(path_answer(x, rel, world, c)),
{
    let identity = (world.resolved)(resolve::opening_of(rel, spec_of(x).symlink_policy).target);
    match identity {
        Outcome::File(file) if rel.len() > 0 => {
            lemma_run_searched(x, rel, file, preference_of(x), 0, world, c, fuel);
        },
        _ => {
            lemma_run_encoded(
                x,
                rel,
                EncodedOutcome { identity, sidecar: None },
                world,
                c,
                fuel,
            );
        },
    }
}

/// What is left of an exchange once its candidate is resolved.
proof fn lemma_run_candidate<F>(x: ExchangeView, world: World<F>, c: Counters, fuel: nat)
    requires
        resolve::is_openable(x.candidate.rel_path),
        fuel >= preference_of(x).len() + 2,
    ensures
        run(
            candidate_resolved(
                x,
                (world.resolved)(
                    resolve::opening_of(
                        x.candidate.rel_path,
                        spec_of(x).symlink_policy,
                    ).target,
                ),
                c,
            ),
            world,
            fuel,
        ) == Some(candidate_answer(x, world, c)),
{
    let rel = x.candidate.rel_path;
    let policy = spec_of(x).symlink_policy;
    let outcome = (world.resolved)(resolve::opening_of(rel, policy).target);
    let step = candidate_resolved(x, outcome, c);
    if outcome is Directory {
        if spec_of(x).index && x.candidate.trailing_slash {
            let index = index_path(rel);
            law_index_is_openable(rel);
            let found = (world.resolved)(resolve::opening_of(index, policy).target);
            assert(run(step, world, fuel) == run(
                identity_resolved(x, index, found, c),
                world,
                (fuel - 1) as nat,
            ));
            lemma_run_identity(x, index, world, c, (fuel - 1) as nat);
        }
    } else {
        lemma_run_identity(x, rel, world, c, fuel);
    }
}

/// The candidate of a request may be opened, and tries no more sidecars than the client accepts.
proof fn lemma_begun_candidate<F>(
    server: ServerView,
    head: HeadView,
    c: Counters,
    x: ExchangeView,
)
    requires
        is_server(server),
        begun::<F>(server, head, c).0 == StepView::<F>::CheckRoot(x),
    ensures
        resolve::is_openable(x.candidate.rel_path),
        preference_of(x).len() <= sidecar::try_order(head.accept_encoding).len(),
{
    pipeline::law_candidate_is_resolvable(head.method, x.target, server.table);
    resolve::law_resolvable_is_openable(x.candidate.rel_path);
}

/// What is left of an exchange once its docroot is checked.
proof fn lemma_run_root_checked<F>(
    x: ExchangeView,
    world: World<F>,
    changed: bool,
    c: Counters,
    fuel: nat,
)
    requires
        resolve::is_openable(x.candidate.rel_path),
        fuel >= preference_of(x).len() + 3,
    ensures
        run(root_checked::<F>(x, Ok(changed), c), world, fuel) == Some(
            candidate_answer(
                x,
                world,
                if changed {
                    Counters { repins: counters::bumped(c.repins), ..c }
                } else {
                    c
                },
            ),
        ),
{
    let step = root_checked::<F>(x, Ok(changed), c);
    let target = resolve::opening_of(x.candidate.rel_path, spec_of(x).symlink_policy).target;
    assert(run(step, world, fuel) == run(
        candidate_resolved(x, (world.resolved)(target), step.1),
        world,
        (fuel - 1) as nat,
    ));
    lemma_run_candidate(x, world, step.1, (fuel - 1) as nat);
}

/// Every exchange ends: after the check of the docroot, the open of the candidate and of an
/// index, one open for each sidecar encoding and one admission it has given its answer.
pub proof fn law_exchange_gives_the_answer<F>(
    server: ServerView,
    head: HeadView,
    world: World<F>,
    c: Counters,
)
    requires
        is_server(server),
    ensures
        ({
            let tries = sidecar::try_order(head.accept_encoding).len();
            run(begun(server, head, c), world, tries + 4) == Some(answer(server, head, world, c))
        }),
{
    let tries = sidecar::try_order(head.accept_encoding).len();
    let first = begun::<F>(server, head, c);
    if let StepView::CheckRoot(x) = first.0 {
        lemma_begun_candidate::<F>(server, head, c, x);
        assert(run(first, world, tries + 4) == run(
            root_checked::<F>(x, world.changed, c),
            world,
            tries + 3,
        ));
        if let Ok(changed) = world.changed {
            lemma_run_root_checked(x, world, changed, c, tries + 3);
        }
    }
}

/// In a world where a candidate is absent, a strict mount answers 404 and a fallthrough mount
/// hands the request back.
pub proof fn law_absent_candidate_is_a_miss<F>(x: ExchangeView, world: World<F>, c: Counters)
    requires
        (world.resolved)(
            resolve::opening_of(x.candidate.rel_path, spec_of(x).symlink_policy).target,
        ) is Miss,
    ensures
        candidate_answer(x, world, c) == missed::<F>(spec_of(x), c),
{
}

/// A directory is a miss where the mount serves no index, with or without a trailing slash.
pub proof fn law_directory_without_index_is_a_miss<F>(x: ExchangeView, c: Counters)
    requires
        !spec_of(x).index,
    ensures
        candidate_resolved(x, Outcome::<F>::Directory, c) == missed::<F>(spec_of(x), c),
{
}

/// A target with a trailing slash is never redirected.
pub proof fn law_trailing_slash_is_not_redirected<F>(
    x: ExchangeView,
    outcome: Outcome<F>,
    c: Counters,
)
    requires
        x.candidate.trailing_slash,
    ensures
        !(candidate_resolved(x, outcome, c).0 is Redirect),
{
}

/// The status buckets of the counters.
pub open spec fn buckets(c: Counters) -> (u64, u64, u64, u64) {
    (c.status_2xx, c.status_3xx, c.status_4xx, c.status_5xx)
}

/// Whether a step counts its status, if it answers, and nothing otherwise.
pub open spec fn counts_its_answer<F>(before: Counters, at: (StepView<F>, Counters)) -> bool {
    match at.0 {
        StepView::Fail(status) => buckets(at.1) == buckets(counters::with_status(before, status)),
        StepView::Redirect(_) => buckets(at.1) == buckets(counters::with_status(before, 301)),
        StepView::Send(response) => buckets(at.1) == buckets(
            counters::with_status(before, response.plan.status),
        ),
        _ => buckets(at.1) == buckets(before),
    }
}

/// Every answer is counted once, in the bucket of its status, and nothing else is.
pub proof fn law_answers_are_counted_once<F>(
    server: ServerView,
    head: HeadView,
    x: ExchangeView,
    changed: Result<bool, ()>,
    open: FileOpenView<F>,
    result: Result<Opened<F>, Errno>,
    response: PreparedView<F>,
    granted: bool,
    c: Counters,
)
    ensures
        counts_its_answer(c, begun::<F>(server, head, c)),
        counts_its_answer(c, root_checked::<F>(x, changed, c)),
        counts_its_answer(c, file_opened(open, result, c)),
        counts_its_answer(c, admitted(response, granted, c)),
{
}

/// An open that stays below its docroot: of the docroot itself, or of a relative path of normal
/// segments, under the symlink policy of the mount.
pub open spec fn is_confined<F>(open: FileOpenView<F>) -> bool {
    let opening = opening_in(open.kind);
    &&& opening.target == pipeline::dot() || (opening.target.len() > 0 && resolve::is_openable(
        opening.target,
    ))
    &&& opening.no_symlinks == (spec_of(open.request).symlink_policy == SymlinkPolicy::Deny)
    &&& open.kind matches OpenKindView::Sidecar(search) ==> search.rel.len() > 0
}

pub open spec fn opens_confined<F>(at: (StepView<F>, Counters)) -> bool {
    at.0 matches StepView::Open(open) ==> is_confined(open)
}

proof fn lemma_search_is_confined<F>(
    x: ExchangeView,
    rel: Seq<char>,
    identity: ServedFile<F>,
    preference: Seq<Encoding>,
    at: int,
    c: Counters,
)
    requires
        rel.len() > 0,
    ensures
        opens_confined(
            searched(
                x,
                rel,
                resolve::searched_from(
                    identity,
                    rel,
                    preference,
                    spec_of(x).symlink_policy,
                    at,
                ),
                c,
            ),
        ),
    decreases preference.len() - at,
{
    if 0 <= at < preference.len() && !resolve::can_probe(rel, preference[at]) {
        lemma_search_is_confined(x, rel, identity, preference, at + 1, c);
    }
}

/// Every open of an exchange is confined to the docroot, the first as those that follow.
pub proof fn law_opens_are_confined<F>(
    x: ExchangeView,
    changed: Result<bool, ()>,
    open: FileOpenView<F>,
    result: Result<Opened<F>, Errno>,
    c: Counters,
)
    requires
        is_confined(open),
    ensures
        opens_confined(root_checked::<F>(x, changed, c)),
        opens_confined(file_opened(open, result, c)),
{
    let y = open.request;
    let outcome = resolve::open_outcome(result);
    if let Outcome::File(file) = outcome {
        if y.candidate.rel_path.len() > 0 {
            lemma_search_is_confined(y, y.candidate.rel_path, file, preference_of(y), 0, c);
        }
        if open.rel.len() > 0 {
            lemma_search_is_confined(y, open.rel, file, preference_of(y), 0, c);
        }
    }
    if let OpenKindView::Sidecar(search) = open.kind {
        assert(resolve::policy_of(search.opening.no_symlinks) == spec_of(y).symlink_policy);
        lemma_probe_is_confined(y, open.rel, search, outcome, c);
    }
}

proof fn lemma_probe_is_confined<F>(
    x: ExchangeView,
    rel: Seq<char>,
    search: SidecarSearchView<F>,
    outcome: Outcome<F>,
    c: Counters,
)
    requires
        search.rel.len() > 0,
        resolve::policy_of(search.opening.no_symlinks) == spec_of(x).symlink_policy,
    ensures
        opens_confined(searched(x, rel, resolve::probed(search, outcome), c)),
{
    lemma_search_is_confined(
        x,
        search.rel,
        search.identity,
        search.preference,
        search.at + 1,
        c,
    );
}

/// A request without conditions or a range, for a path that is a regular file without a
/// sidecar that the client accepts, is answered 200 with the whole file.
pub proof fn law_plain_get_serves_the_file<F>(
    x: ExchangeView,
    rel: Seq<char>,
    file: ServedFile<F>,
    world: World<F>,
    c: Counters,
)
    requires
        x.head.method == "GET"@,
        x.head.if_match is None,
        x.head.if_none_match is None,
        x.head.if_modified_since is None,
        x.head.if_unmodified_since is None,
        x.head.range is None,
        (world.resolved)(resolve::opening_of(rel, spec_of(x).symlink_policy).target)
            == Outcome::File(file),
        rel.len() == 0 || resolve::first_sidecar(rel, preference_of(x), world.resolved, 0) is None,
        world.granted,
    ensures
        ({
            let (step, after) = path_answer(x, rel, world, c);
            &&& step matches StepView::Send(response) && response.plan.status == 200
                && response.plan.body == BodyPlan::Whole && response.file == file
                && response.offset == 0 && response.len == file.len
            &&& after == counters::with_status(c, 200)
        }),
{
    reveal_strlit("GET");
    reveal_strlit("HEAD");
    assert("GET"@.len() != "HEAD"@.len());
}

} // verus!
