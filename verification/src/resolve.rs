//! Resolution of classified candidates below a pinned docroot.
//!
//! The docroot is pinned once, on its physical location, and every request is one open beneath
//! the pinned directory; the kernel enforces that resolution never leaves the tree. This module
//! decides what to open, what each result of an open means, which sidecar is taken, and whether
//! a docroot may be served at all. The system calls themselves are the caller's.
//!
//! All metadata comes from the descriptor that is served, never from a second look at the path.

use crate::numeral;
use crate::pipeline;
use crate::sidecar;
use crate::sidecar::Encoding;
use crate::text;
use vstd::prelude::*;
use vstd::string::*;

verus! {

/// How many times an open that the kernel asks to repeat is repeated.
pub const EAGAIN_RETRIES: u32 = 3;

/// Symlink policy inside the pinned tree; resolution never leaves the tree under either.
#[derive(Debug, Clone, Copy, PartialEq, Eq, Structural)]
pub enum SymlinkPolicy {
    /// Any symlink in resolution fails.
    Deny,
    /// Symlinks that stay inside the pinned tree resolve.
    AllowWithinRoot,
}

/// Why a system call failed.
#[derive(Debug, Clone, Copy, PartialEq, Eq, Structural)]
pub enum Errno {
    Again,
    NoEnt,
    NotDir,
    Access,
    Perm,
    Loop,
    XDev,
    NxIo,
    NoSys,
    Inval,
    Intr,
    /// Any other error number.
    Other(i32),
}

/// Why a candidate did not resolve to a servable file. None of these carries a path.
#[derive(Debug, Clone, Copy, PartialEq, Eq, Structural)]
pub enum MissKind {
    /// Nothing there.
    NotFound,
    /// A non-directory where a directory was needed.
    NotDir,
    /// Permission denied: a miss, so that it cannot be told from absence.
    Access,
    /// A symlink under a policy that denies them, or a symlink loop.
    SymlinkDenied,
    /// Resolution tried to leave the pinned tree.
    EscapesRoot,
    /// Neither a regular file nor a directory.
    NotRegular,
}

/// What a mode says of a file.
#[derive(Debug, Clone, Copy, PartialEq, Eq, Structural)]
pub enum FileKind {
    RegularFile,
    Directory,
    Symlink,
    Fifo,
    Socket,
    CharacterDevice,
    BlockDevice,
    Unknown,
}

/// What `fstat` says of an opened descriptor.
#[derive(Debug, Clone, Copy, PartialEq, Eq, Structural)]
pub struct FileStat {
    pub mode: u32,
    pub size: i64,
    pub mtime_sec: i64,
    pub mtime_nsec: i64,
}

/// A descriptor opened beneath the root of the given generation, and what `fstat` said of it.
#[derive(Debug)]
pub struct Opened<F> {
    pub fd: F,
    pub generation: u64,
    pub stat: Result<FileStat, Errno>,
}

/// An opened regular file with the one snapshot that everything derives from.
#[derive(Debug)]
pub struct ServedFile<F> {
    pub fd: F,
    /// Size in bytes.
    pub len: u64,
    pub mtime_sec: i64,
    pub mtime_nsec: i64,
    /// The generation of the root that the file was resolved under.
    pub generation: u64,
}

/// Result of resolving one relative path.
#[derive(Debug)]
pub enum Outcome<F> {
    /// A regular file; serve from this descriptor only.
    File(ServedFile<F>),
    Directory,
    Miss(MissKind),
    /// The kernel kept asking to repeat the open: a retryable 503.
    Shed,
    /// An unexpected filesystem error.
    Fault(Errno),
}

/// The identity file and the sidecar that was selected, if any.
#[derive(Debug)]
pub struct EncodedOutcome<F> {
    /// Resolution of the uncompressed path, which alone decides existence.
    pub identity: Outcome<F>,
    /// The first sidecar of the preference order that is a regular file.
    pub sidecar: Option<(Encoding, ServedFile<F>)>,
}

// ---- one open ----

/// The kind of file that a mode denotes.
pub open spec fn kind_of_mode(mode: u32) -> FileKind {
    let format = mode & 0xf000;
    if format == 0x8000 {
        FileKind::RegularFile
    } else if format == 0x4000 {
        FileKind::Directory
    } else if format == 0xa000 {
        FileKind::Symlink
    } else if format == 0x1000 {
        FileKind::Fifo
    } else if format == 0xc000 {
        FileKind::Socket
    } else if format == 0x2000 {
        FileKind::CharacterDevice
    } else if format == 0x6000 {
        FileKind::BlockDevice
    } else {
        FileKind::Unknown
    }
}

/// Wraps `rustix::fs::FileType::from_raw_mode`: the file type that the format bits of a mode
/// denote on Linux.
#[verifier::external_body]
fn file_kind(mode: u32) -> (r: FileKind)
    ensures
        r == kind_of_mode(mode),
{
    match rustix::fs::FileType::from_raw_mode(mode) {
        rustix::fs::FileType::RegularFile => FileKind::RegularFile,
        rustix::fs::FileType::Directory => FileKind::Directory,
        rustix::fs::FileType::Symlink => FileKind::Symlink,
        rustix::fs::FileType::Fifo => FileKind::Fifo,
        rustix::fs::FileType::Socket => FileKind::Socket,
        rustix::fs::FileType::CharacterDevice => FileKind::CharacterDevice,
        rustix::fs::FileType::BlockDevice => FileKind::BlockDevice,
        rustix::fs::FileType::Unknown => FileKind::Unknown,
    }
}

/// A segment that names an entry of a directory.
pub open spec fn is_normal_segment(segment: Seq<char>) -> bool {
    segment.len() > 0 && segment != pipeline::dot() && segment != pipeline::dot_dot()
}

/// Whether a text holds a control character: one of C0, NUL among them, or DEL.
pub open spec fn has_control(s: Seq<char>) -> bool {
    exists|i: int| 0 <= i < s.len() && pipeline::is_control_char(#[trigger] s[i])
}

/// A relative path that may be opened: the root itself, or normal segments without control
/// characters.
pub open spec fn is_openable(rel: Seq<char>) -> bool {
    ||| rel.len() == 0
    ||| {
        &&& !has_control(rel)
        &&& forall|i: int|
            0 <= i < text::split(rel, '/').len() ==> is_normal_segment(
                #[trigger] text::split(rel, '/')[i],
            )
    }
}

fn holds_control(s: &[char]) -> (r: bool)
    ensures
        r == has_control(s@),
{
    let mut i: usize = 0;
    while i < s.len()
        invariant
            i <= s@.len(),
            forall|j: int| 0 <= j < i ==> !pipeline::is_control_char(#[trigger] s@[j]),
        decreases s.len() - i,
    {
        let c = s[i];
        if c < ' ' || c == '\u{7f}' {
            assert(pipeline::is_control_char(s@[i as int]));
            return true;
        }
        i += 1;
    }
    false
}

/// Checks again what classification promises of relative paths.
pub fn rel_is_valid(rel: &str) -> (r: bool)
    ensures
        r == is_openable(rel@),
{
    let chars = text::chars_of(rel);
    if chars.len() == 0 {
        return true;
    }
    if holds_control(chars.as_slice()) {
        return false;
    }
    let pieces = text::split_chars(chars.as_slice(), '/');
    let ghost all = text::split(rel@, '/');
    let mut i: usize = 0;
    while i < pieces.len()
        invariant
            i <= pieces@.len(),
            rel@.len() > 0,
            text::views(pieces@) == all,
            all == text::split(rel@, '/'),
            forall|j: int| 0 <= j < i ==> is_normal_segment(#[trigger] all[j]),
        decreases pieces.len() - i,
    {
        let piece = pieces[i];
        assert(all[i as int] == piece@);
        if piece.len() == 0 || pipeline::is_dot(piece) || pipeline::is_dot_dot(piece) {
            assert(!is_normal_segment(text::split(rel@, '/')[i as int]));
            return false;
        }
        i += 1;
    }
    true
}

/// An open in progress: what to open beneath the pinned root.
#[derive(Debug)]
pub struct Opening {
    /// The path to hand to the kernel.
    pub target: String,
    /// Whether resolution must fail on any symlink.
    pub no_symlinks: bool,
    /// How many times the kernel has asked to repeat it.
    pub attempts: u32,
}

pub struct OpeningView {
    pub target: Seq<char>,
    pub no_symlinks: bool,
    pub attempts: u32,
}

impl View for Opening {
    type V = OpeningView;

    open spec fn view(&self) -> OpeningView {
        OpeningView {
            target: self.target@,
            no_symlinks: self.no_symlinks,
            attempts: self.attempts,
        }
    }
}

/// What to do after an open returned.
#[derive(Debug)]
pub enum OpenStep<F> {
    /// Open again.
    Retry(Opening),
    Done(Outcome<F>),
}

/// What is opened for a relative path.
pub open spec fn opening_of(rel: Seq<char>, policy: SymlinkPolicy) -> OpeningView {
    OpeningView {
        target: if rel.len() == 0 {
            pipeline::dot()
        } else {
            rel
        },
        no_symlinks: policy == SymlinkPolicy::Deny,
        attempts: 0,
    }
}

/// What an error of the open comes to.
pub open spec fn error_outcome<F>(e: Errno) -> Outcome<F> {
    match e {
        Errno::Again => Outcome::Shed,
        Errno::NoEnt => Outcome::Miss(MissKind::NotFound),
        Errno::NotDir => Outcome::Miss(MissKind::NotDir),
        Errno::Access | Errno::Perm => Outcome::Miss(MissKind::Access),
        Errno::Loop => Outcome::Miss(MissKind::SymlinkDenied),
        Errno::XDev => Outcome::Miss(MissKind::EscapesRoot),
        Errno::NxIo => Outcome::Miss(MissKind::NotRegular),
        other => Outcome::Fault(other),
    }
}

/// What the last result of an open comes to.
pub open spec fn open_outcome<F>(result: Result<Opened<F>, Errno>) -> Outcome<F> {
    match result {
        Err(e) => error_outcome(e),
        Ok(opened) => match opened.stat {
            Err(e) => Outcome::Fault(e),
            Ok(stat) => match kind_of_mode(stat.mode) {
                FileKind::RegularFile => Outcome::File(
                    ServedFile {
                        fd: opened.fd,
                        len: stat.size as u64,
                        mtime_sec: stat.mtime_sec,
                        mtime_nsec: stat.mtime_nsec,
                        generation: opened.generation,
                    },
                ),
                FileKind::Directory => Outcome::Directory,
                _ => Outcome::Miss(MissKind::NotRegular),
            },
        },
    }
}

/// Whether an open is repeated after the given result.
pub open spec fn is_retried<F>(attempts: u32, result: Result<Opened<F>, Errno>) -> bool {
    result matches Err(e) && e == Errno::Again && attempts < EAGAIN_RETRIES
}

fn error_meaning<F>(e: Errno) -> (r: Outcome<F>)
    ensures
        r == error_outcome::<F>(e),
{
    match e {
        Errno::Again => Outcome::Shed,
        Errno::NoEnt => Outcome::Miss(MissKind::NotFound),
        Errno::NotDir => Outcome::Miss(MissKind::NotDir),
        Errno::Access => Outcome::Miss(MissKind::Access),
        Errno::Perm => Outcome::Miss(MissKind::Access),
        Errno::Loop => Outcome::Miss(MissKind::SymlinkDenied),
        Errno::XDev => Outcome::Miss(MissKind::EscapesRoot),
        Errno::NxIo => Outcome::Miss(MissKind::NotRegular),
        other => Outcome::Fault(other),
    }
}

impl Opening {
    /// Begins to resolve a relative path. One that classification cannot have produced is
    /// refused with the error of an invalid argument.
    pub fn begin(rel: &str, policy: SymlinkPolicy) -> (r: Result<Opening, Errno>)
        ensures
            match r {
                Ok(opening) => is_openable(rel@) && opening@ == opening_of(rel@, policy),
                Err(e) => !is_openable(rel@) && e == Errno::Inval,
            },
    {
        if !rel_is_valid(rel) {
            return Err(Errno::Inval);
        }
        let chars = text::chars_of(rel);
        let target = if chars.len() == 0 {
            let mut dot = String::new();
            dot.push('.');
            assert(dot@ =~= pipeline::dot());
            dot
        } else {
            rel.to_owned()
        };
        let no_symlinks = match policy {
            SymlinkPolicy::Deny => true,
            SymlinkPolicy::AllowWithinRoot => false,
        };
        Ok(Opening { target, no_symlinks, attempts: 0 })
    }

    /// Takes the result of the open: repeat it, or conclude.
    pub fn opened<F>(self, result: Result<Opened<F>, Errno>) -> (r: OpenStep<F>)
        ensures
            match r {
                OpenStep::Retry(next) => is_retried(self@.attempts, result) && next@ == (
                OpeningView { attempts: (self@.attempts + 1) as u32, ..self@ }),
                OpenStep::Done(outcome) => !is_retried(self@.attempts, result) && outcome
                    == open_outcome(result),
            },
    {
        match result {
            Err(e) => {
                if let Errno::Again = e {
                    if self.attempts < EAGAIN_RETRIES {
                        return OpenStep::Retry(
                            Opening {
                                target: self.target,
                                no_symlinks: self.no_symlinks,
                                attempts: self.attempts + 1,
                            },
                        );
                    }
                }
                OpenStep::Done(error_meaning(e))
            },
            Ok(opened) => OpenStep::Done(
                match opened.stat {
                    Err(e) => Outcome::Fault(e),
                    Ok(stat) => match file_kind(stat.mode) {
                        FileKind::RegularFile => Outcome::File(
                            ServedFile {
                                fd: opened.fd,
                                len: stat.size as u64,
                                mtime_sec: stat.mtime_sec,
                                mtime_nsec: stat.mtime_nsec,
                                generation: opened.generation,
                            },
                        ),
                        FileKind::Directory => Outcome::Directory,
                        _ => Outcome::Miss(MissKind::NotRegular),
                    },
                },
            ),
        }
    }
}

// ---- sidecars ----

/// The path of a sidecar; `None` for the file itself.
pub open spec fn sidecar_path(rel: Seq<char>, e: Encoding) -> Option<Seq<char>> {
    match sidecar::file_suffix_of(e) {
        Some(suffix) => Some(rel + suffix),
        None => None,
    }
}

/// A search for the sidecar to serve in place of an opened file.
#[derive(Debug)]
pub struct SidecarSearch<F> {
    identity: ServedFile<F>,
    rel: String,
    preference: Vec<Encoding>,
    at: usize,
    opening: Opening,
}

pub struct SidecarSearchView<F> {
    /// The uncompressed file.
    pub identity: ServedFile<F>,
    /// Its relative path.
    pub rel: Seq<char>,
    /// The encodings that the client accepts, in the order in which they are tried.
    pub preference: Seq<Encoding>,
    /// The position of the one that is being tried.
    pub at: int,
    /// The open of its sidecar.
    pub opening: OpeningView,
}

/// What to do next in the search for a sidecar.
#[derive(Debug)]
pub enum SidecarStep<F> {
    /// Open this sidecar.
    Probe(SidecarSearch<F>),
    Done(EncodedOutcome<F>),
}

pub enum SidecarStepView<F> {
    Probe(SidecarSearchView<F>),
    Done(EncodedOutcome<F>),
}

impl<F> View for SidecarSearch<F> {
    type V = SidecarSearchView<F>;

    closed spec fn view(&self) -> SidecarSearchView<F> {
        SidecarSearchView {
            identity: self.identity,
            rel: self.rel@,
            preference: self.preference@,
            at: self.at as int,
            opening: self.opening@,
        }
    }
}

impl<F> View for SidecarStep<F> {
    type V = SidecarStepView<F>;

    open spec fn view(&self) -> SidecarStepView<F> {
        match *self {
            SidecarStep::Probe(search) => SidecarStepView::Probe(search@),
            SidecarStep::Done(outcome) => SidecarStepView::Done(outcome),
        }
    }
}

/// Whether the encoding at a position has a sidecar that may be opened.
pub open spec fn can_probe(rel: Seq<char>, e: Encoding) -> bool {
    sidecar_path(rel, e) matches Some(path) && is_openable(path)
}

/// The search for a sidecar from the given position of the preference order on.
pub open spec fn searched_from<F>(
    identity: ServedFile<F>,
    rel: Seq<char>,
    preference: Seq<Encoding>,
    policy: SymlinkPolicy,
    at: int,
) -> SidecarStepView<F>
    decreases preference.len() - at,
{
    if at < 0 || at >= preference.len() {
        SidecarStepView::Done(EncodedOutcome { identity: Outcome::File(identity), sidecar: None })
    } else if can_probe(rel, preference[at]) {
        SidecarStepView::Probe(
            SidecarSearchView {
                identity,
                rel,
                preference,
                at,
                opening: opening_of(sidecar_path(rel, preference[at]).unwrap(), policy),
            },
        )
    } else {
        searched_from(identity, rel, preference, policy, at + 1)
    }
}

/// The policy under which an open was begun.
pub open spec fn policy_of(no_symlinks: bool) -> SymlinkPolicy {
    if no_symlinks {
        SymlinkPolicy::Deny
    } else {
        SymlinkPolicy::AllowWithinRoot
    }
}

/// The search after the sidecar that it tried came to the given outcome: any outcome but a
/// regular file is passed over.
pub open spec fn probed<F>(
    search: SidecarSearchView<F>,
    outcome: Outcome<F>,
) -> SidecarStepView<F> {
    match outcome {
        Outcome::File(file) => SidecarStepView::Done(
            EncodedOutcome {
                identity: Outcome::File(search.identity),
                sidecar: Some((search.preference[search.at], file)),
            },
        ),
        _ => searched_from(
            search.identity,
            search.rel,
            search.preference,
            policy_of(search.opening.no_symlinks),
            search.at + 1,
        ),
    }
}

/// The search for a sidecar of a path that came to the given outcome. Only a regular file other
/// than the root has sidecars; any other outcome stands as it is.
pub open spec fn sidecars_of<F>(
    rel: Seq<char>,
    preference: Seq<Encoding>,
    identity: Outcome<F>,
    policy: SymlinkPolicy,
) -> SidecarStepView<F> {
    match identity {
        Outcome::File(file) if rel.len() > 0 => searched_from(file, rel, preference, policy, 0),
        _ => SidecarStepView::Done(EncodedOutcome { identity, sidecar: None }),
    }
}

/// Goes on with the search from the given position.
fn search_from<F>(
    identity: ServedFile<F>,
    rel: String,
    preference: Vec<Encoding>,
    policy: SymlinkPolicy,
    from: usize,
) -> (r: SidecarStep<F>)
    requires
        from <= preference@.len(),
    ensures
        r@ == searched_from(identity, rel@, preference@, policy, from as int),
{
    let mut at: usize = from;
    while at < preference.len()
        invariant
            from <= at <= preference@.len(),
            searched_from(identity, rel@, preference@, policy, from as int) == searched_from(
                identity,
                rel@,
                preference@,
                policy,
                at as int,
            ),
        decreases preference.len() - at,
    {
        if let Some(suffix) = preference[at].file_suffix() {
            let path = text::concat(rel.as_str(), suffix);
            if let Ok(opening) = Opening::begin(path.as_str(), policy) {
                return SidecarStep::Probe(
                    SidecarSearch { identity, rel, preference, at, opening },
                );
            }
        }
        at += 1;
    }
    SidecarStep::Done(EncodedOutcome { identity: Outcome::File(identity), sidecar: None })
}

/// Begins the search for a sidecar of a path whose own resolution is already known. Only a
/// regular file other than the root has sidecars; any other outcome stands as it is.
pub fn open_encoded_with_identity<F>(
    rel: &str,
    preference: Vec<Encoding>,
    identity: Outcome<F>,
    policy: SymlinkPolicy,
) -> (r: SidecarStep<F>)
    ensures
        r@ == sidecars_of(rel@, preference@, identity, policy),
{
    match identity {
        Outcome::File(file) => {
            let chars = text::chars_of(rel);
            if chars.len() == 0 {
                SidecarStep::Done(EncodedOutcome { identity: Outcome::File(file), sidecar: None })
            } else {
                search_from(file, rel.to_owned(), preference, policy, 0)
            }
        },
        other => SidecarStep::Done(EncodedOutcome { identity: other, sidecar: None }),
    }
}

impl<F> SidecarSearch<F> {
    #[verifier::type_invariant]
    pub closed spec fn wf(self) -> bool {
        self.at < self.preference@.len()
    }

    /// The open of the sidecar that is being tried.
    pub fn opening(&self) -> (r: &Opening)
        ensures
            r@ == self@.opening,
    {
        &self.opening
    }

    /// Takes the result of opening the sidecar: open it again, take it, or try the next.
    pub fn opened(self, result: Result<Opened<F>, Errno>) -> (r: SidecarStep<F>)
        ensures
            if is_retried(self@.opening.attempts, result) {
                r@ == SidecarStepView::Probe(
                    SidecarSearchView {
                        opening: OpeningView {
                            attempts: (self@.opening.attempts + 1) as u32,
                            ..self@.opening
                        },
                        ..self@
                    },
                )
            } else {
                r@ == probed(self@, open_outcome(result))
            },
    {
        proof {
            use_type_invariant(&self);
        }
        let tried: usize = self.at;
        let count: usize = self.preference.len();
        assert(tried < count);
        let policy = if self.opening.no_symlinks {
            SymlinkPolicy::Deny
        } else {
            SymlinkPolicy::AllowWithinRoot
        };
        match self.opening.opened(result) {
            OpenStep::Retry(opening) => SidecarStep::Probe(
                SidecarSearch {
                    identity: self.identity,
                    rel: self.rel,
                    preference: self.preference,
                    at: self.at,
                    opening,
                },
            ),
            OpenStep::Done(Outcome::File(file)) => SidecarStep::Done(
                EncodedOutcome {
                    identity: Outcome::File(self.identity),
                    sidecar: Some((self.preference[self.at], file)),
                },
            ),
            OpenStep::Done(_) => search_from(
                self.identity,
                self.rel,
                self.preference,
                policy,
                tried + 1,
            ),
        }
    }
}

/// The open of a file whose sidecars are looked for next.
#[derive(Debug)]
pub struct EncodedOpening {
    rel: String,
    preference: Vec<Encoding>,
    opening: Opening,
}

pub struct EncodedOpeningView {
    /// The relative path of the file.
    pub rel: Seq<char>,
    /// The encodings that the client accepts, in the order in which they are tried.
    pub preference: Seq<Encoding>,
    /// The open of the file itself.
    pub opening: OpeningView,
}

/// What to do next to resolve a file with its sidecars.
#[derive(Debug)]
pub enum EncodedStep<F> {
    /// Open the file itself.
    Identity(EncodedOpening),
    /// Go on with its sidecars.
    Sidecars(SidecarStep<F>),
}

pub enum EncodedStepView<F> {
    Identity(EncodedOpeningView),
    Sidecars(SidecarStepView<F>),
}

impl View for EncodedOpening {
    type V = EncodedOpeningView;

    closed spec fn view(&self) -> EncodedOpeningView {
        EncodedOpeningView {
            rel: self.rel@,
            preference: self.preference@,
            opening: self.opening@,
        }
    }
}

impl<F> View for EncodedStep<F> {
    type V = EncodedStepView<F>;

    open spec fn view(&self) -> EncodedStepView<F> {
        match *self {
            EncodedStep::Identity(opening) => EncodedStepView::Identity(opening@),
            EncodedStep::Sidecars(step) => EncodedStepView::Sidecars(step@),
        }
    }
}

/// How the resolution of a file with its sidecars begins: with the file itself. A path that may
/// not be opened is a fault.
pub open spec fn encoded_from<F>(
    rel: Seq<char>,
    preference: Seq<Encoding>,
    policy: SymlinkPolicy,
) -> EncodedStepView<F> {
    if is_openable(rel) {
        EncodedStepView::Identity(
            EncodedOpeningView { rel, preference, opening: opening_of(rel, policy) },
        )
    } else {
        EncodedStepView::Sidecars(
            sidecars_of(rel, preference, Outcome::Fault(Errno::Inval), policy),
        )
    }
}

impl EncodedOpening {
    /// Begins with the file itself.
    pub fn begin<F>(rel: &str, preference: Vec<Encoding>, policy: SymlinkPolicy) -> (r: EncodedStep<
        F,
    >)
        ensures
            r@ == encoded_from::<F>(rel@, preference@, policy),
    {
        match Opening::begin(rel, policy) {
            Ok(opening) => EncodedStep::Identity(
                EncodedOpening { rel: rel.to_owned(), preference, opening },
            ),
            Err(e) => EncodedStep::Sidecars(
                open_encoded_with_identity(rel, preference, Outcome::Fault(e), policy),
            ),
        }
    }

    /// The open of the file itself.
    pub fn opening(&self) -> (r: &Opening)
        ensures
            r@ == self@.opening,
    {
        &self.opening
    }

    /// Takes the result of opening the file: open it again, or go on with its sidecars.
    pub fn opened<F>(self, result: Result<Opened<F>, Errno>) -> (r: EncodedStep<F>)
        ensures
            if is_retried(self@.opening.attempts, result) {
                r@ == EncodedStepView::<F>::Identity(
                    EncodedOpeningView {
                        opening: OpeningView {
                            attempts: (self@.opening.attempts + 1) as u32,
                            ..self@.opening
                        },
                        ..self@
                    },
                )
            } else {
                r@ == EncodedStepView::Sidecars(
                    sidecars_of(
                        self@.rel,
                        self@.preference,
                        open_outcome(result),
                        policy_of(self@.opening.no_symlinks),
                    ),
                )
            },
    {
        let policy = if self.opening.no_symlinks {
            SymlinkPolicy::Deny
        } else {
            SymlinkPolicy::AllowWithinRoot
        };
        match self.opening.opened(result) {
            OpenStep::Retry(opening) => EncodedStep::Identity(
                EncodedOpening { rel: self.rel, preference: self.preference, opening },
            ),
            OpenStep::Done(identity) => EncodedStep::Sidecars(
                open_encoded_with_identity(self.rel.as_str(), self.preference, identity, policy),
            ),
        }
    }
}

/// The sidecar that a preference order selects where each path resolves as given: the first
/// that is a regular file.
pub open spec fn first_sidecar<F>(
    rel: Seq<char>,
    preference: Seq<Encoding>,
    resolved: spec_fn(Seq<char>) -> Outcome<F>,
    from: int,
) -> Option<(Encoding, ServedFile<F>)>
    decreases preference.len() - from,
{
    if from < 0 || from >= preference.len() {
        None
    } else if can_probe(rel, preference[from]) {
        match resolved(sidecar_path(rel, preference[from]).unwrap()) {
            Outcome::File(file) => Some((preference[from], file)),
            _ => first_sidecar(rel, preference, resolved, from + 1),
        }
    } else {
        first_sidecar(rel, preference, resolved, from + 1)
    }
}

/// How a search ends where each path resolves as given.
pub open spec fn search_result<F>(
    step: SidecarStepView<F>,
    resolved: spec_fn(Seq<char>) -> Outcome<F>,
    fuel: nat,
) -> Option<EncodedOutcome<F>>
    decreases fuel,
{
    match step {
        SidecarStepView::Done(outcome) => Some(outcome),
        SidecarStepView::Probe(search) => if fuel == 0 {
            None
        } else {
            search_result(
                probed(search, resolved(search.opening.target)),
                resolved,
                (fuel - 1) as nat,
            )
        },
    }
}

/// A search ends after at most one probe for each encoding of the preference order. It leaves
/// the identity file as it is and selects the first sidecar that is a regular file.
pub proof fn law_search_selects_first_sidecar<F>(
    identity: ServedFile<F>,
    rel: Seq<char>,
    preference: Seq<Encoding>,
    policy: SymlinkPolicy,
    resolved: spec_fn(Seq<char>) -> Outcome<F>,
    from: int,
)
    requires
        rel.len() > 0,
        0 <= from <= preference.len(),
    ensures
        search_result(
            searched_from(identity, rel, preference, policy, from),
            resolved,
            (preference.len() - from) as nat,
        ) == Some(
            EncodedOutcome {
                identity: Outcome::File(identity),
                sidecar: first_sidecar(rel, preference, resolved, from),
            },
        ),
    decreases preference.len() - from,
{
    reveal_with_fuel(search_result, 2);
    if from < preference.len() {
        law_search_selects_first_sidecar(identity, rel, preference, policy, resolved, from + 1);
        if can_probe(rel, preference[from]) {
            let path = sidecar_path(rel, preference[from]).unwrap();
            assert(path.len() > 0);
            let next = searched_from(identity, rel, preference, policy, from + 1);
            let search = SidecarSearchView {
                identity,
                rel,
                preference,
                at: from,
                opening: opening_of(path, policy),
            };
            assert(search.opening.target == path);
            assert(policy_of(search.opening.no_symlinks) == policy);
            assert(probed(search, resolved(path)) == match resolved(path) {
                Outcome::File(file) => SidecarStepView::Done(
                    EncodedOutcome {
                        identity: Outcome::File(identity),
                        sidecar: Some((preference[from], file)),
                    },
                ),
                _ => next,
            });
            assert(searched_from(identity, rel, preference, policy, from)
                == SidecarStepView::Probe(search));
        } else {
            lemma_search_fuel(
                searched_from(identity, rel, preference, policy, from + 1),
                resolved,
                (preference.len() - from - 1) as nat,
            );
        }
    }
}

/// What a relative path comes to where each path resolves as given: one that may not be opened
/// is a fault, and the empty one is the root itself.
pub open spec fn resolved_rel<F>(
    rel: Seq<char>,
    resolved: spec_fn(Seq<char>) -> Outcome<F>,
) -> Outcome<F> {
    if !is_openable(rel) {
        Outcome::Fault(Errno::Inval)
    } else if rel.len() == 0 {
        resolved(pipeline::dot())
    } else {
        resolved(rel)
    }
}

/// How the resolution of a file with its sidecars ends where each path resolves as given.
pub open spec fn encoded_result<F>(
    step: EncodedStepView<F>,
    resolved: spec_fn(Seq<char>) -> Outcome<F>,
    fuel: nat,
) -> Option<EncodedOutcome<F>> {
    match step {
        EncodedStepView::Identity(o) => search_result(
            sidecars_of(
                o.rel,
                o.preference,
                resolved(o.opening.target),
                policy_of(o.opening.no_symlinks),
            ),
            resolved,
            fuel,
        ),
        EncodedStepView::Sidecars(step) => search_result(step, resolved, fuel),
    }
}

/// A file resolves with its sidecars to what the file itself comes to and, where that is a
/// regular file below the root, to the first of its sidecars that is one. Without the file no
/// sidecar is selected. To resolve the file first and hand over what came of it gives the same.
pub proof fn law_encoded_selects_first_sidecar<F>(
    rel: Seq<char>,
    preference: Seq<Encoding>,
    policy: SymlinkPolicy,
    resolved: spec_fn(Seq<char>) -> Outcome<F>,
)
    ensures
        ({
            let identity = resolved_rel(rel, resolved);
            let result = Some(
                EncodedOutcome {
                    identity,
                    sidecar: if identity is File && rel.len() > 0 {
                        first_sidecar(rel, preference, resolved, 0)
                    } else {
                        None
                    },
                },
            );
            &&& encoded_result(encoded_from::<F>(rel, preference, policy), resolved, preference.len())
                == result
            &&& search_result(
                sidecars_of(rel, preference, identity, policy),
                resolved,
                preference.len(),
            ) == result
        }),
{
    if let Outcome::File(file) = resolved_rel(rel, resolved) {
        if rel.len() > 0 {
            law_search_selects_first_sidecar(file, rel, preference, policy, resolved, 0);
        }
    }
}

/// More fuel does not change how a search ends.
proof fn lemma_search_fuel<F>(
    step: SidecarStepView<F>,
    resolved: spec_fn(Seq<char>) -> Outcome<F>,
    fuel: nat,
)
    requires
        search_result(step, resolved, fuel) is Some,
    ensures
        search_result(step, resolved, fuel + 1) == search_result(step, resolved, fuel),
    decreases fuel,
{
    if let SidecarStepView::Probe(search) = step {
        lemma_search_fuel(
            probed(search, resolved(search.opening.target)),
            resolved,
            (fuel - 1) as nat,
        );
    }
}

/// What may be opened is what classification promises of the relative paths that it produces,
/// no less and no more.
pub proof fn law_resolvable_is_openable(rel: Seq<char>)
    ensures
        pipeline::is_resolvable(rel) <==> is_openable(rel),
{
    let pieces = text::split(rel, '/');
    text::lemma_split(rel, '/');
    if rel.len() > 0 && pipeline::is_resolvable(rel) {
        assert forall|i: int| 0 <= i < pieces.len() implies is_normal_segment(
            #[trigger] pieces[i],
        ) by {
            assert(pipeline::is_plain_segment(pieces[i]));
        }
        assert forall|k: int| 0 <= k < rel.len() implies !pipeline::is_control_char(
            #[trigger] rel[k],
        ) by {
            if rel[k] != '/' {
                text::lemma_split_covers(rel, '/', k);
                let (i, j) = choose|i: int, j: int|
                    0 <= i < pieces.len() && 0 <= j < pieces[i].len() && #[trigger] pieces[i][j]
                        == rel[k];
                assert(pipeline::is_plain_segment(pieces[i]));
                assert(!pipeline::is_control_char(pieces[i][j]));
            }
        }
    }
    if rel.len() > 0 && is_openable(rel) {
        assert forall|i: int| 0 <= i < pieces.len() implies pipeline::is_plain_segment(
            #[trigger] pieces[i],
        ) by {
            assert(is_normal_segment(pieces[i]));
            assert forall|j: int| 0 <= j < pieces[i].len() implies !pipeline::is_control_char(
                #[trigger] pieces[i][j],
            ) by {
                text::lemma_split_within(rel, '/', i, j);
                let k = choose|k: int| 0 <= k < rel.len() && rel[k] == pieces[i][j];
                assert(!pipeline::is_control_char(rel[k]));
            }
        }
    }
}

/// Every sidecar of a path that may be opened may be opened too.
pub proof fn law_sidecars_are_openable(rel: Seq<char>, e: Encoding)
    requires
        rel.len() > 0,
        is_openable(rel),
        e != Encoding::Identity,
    ensures
        can_probe(rel, e),
{
    reveal_strlit(".br");
    reveal_strlit(".zst");
    reveal_strlit(".gz");
    let suffix = sidecar::file_suffix_of(e).unwrap();
    let path = rel + suffix;
    text::lemma_split(rel, '/');
    text::lemma_split_append(rel, suffix, '/');
    let before = text::split(rel, '/');
    let pieces = text::split(path, '/');
    assert forall|i: int| 0 <= i < pieces.len() implies is_normal_segment(#[trigger] pieces[i]) by {
        if i < before.len() - 1 {
            assert(pieces[i] == before[i]);
        } else {
            assert(is_normal_segment(before[before.len() - 1]));
            assert(pieces[i].len() >= 4);
        }
    }
    assert forall|k: int| 0 <= k < path.len() implies !pipeline::is_control_char(
        #[trigger] path[k],
    ) by {
        if k < rel.len() {
            assert(path[k] == rel[k]);
        } else {
            assert(path[k] == suffix[k - rel.len()]);
        }
    }
}

// ---- pinning ----

/// Why pinning a root failed.
#[derive(Debug, Clone, PartialEq, Eq)]
pub enum RootError {
    /// A filesystem error at the configured path, in words.
    Io(String),
    /// The configured path is no directory.
    NotADirectory(String),
    /// The kernel has no `openat2`. There is no fallback.
    Openat2Unsupported,
    /// The tree holds symlinks that would be refused at request time.
    HostileSymlinks { entries: Vec<String> },
    /// The tree has more entries than the audit visits.
    AuditTooLarge { scanned: usize },
    /// The filesystem seems to ignore the case of names.
    CaseInsensitiveRoot(String),
}

pub enum RootErrorView {
    Io(Seq<char>),
    NotADirectory(Seq<char>),
    Openat2Unsupported,
    HostileSymlinks(Seq<Seq<char>>),
    AuditTooLarge(int),
    CaseInsensitiveRoot(Seq<char>),
}

pub open spec fn string_views(strings: Seq<String>) -> Seq<Seq<char>> {
    strings.map_values(|s: String| s@)
}

impl View for RootError {
    type V = RootErrorView;

    open spec fn view(&self) -> RootErrorView {
        match *self {
            RootError::Io(e) => RootErrorView::Io(e@),
            RootError::NotADirectory(p) => RootErrorView::NotADirectory(p@),
            RootError::Openat2Unsupported => RootErrorView::Openat2Unsupported,
            RootError::HostileSymlinks { entries } => RootErrorView::HostileSymlinks(
                string_views(entries@),
            ),
            RootError::AuditTooLarge { scanned } => RootErrorView::AuditTooLarge(scanned as int),
            RootError::CaseInsensitiveRoot(p) => RootErrorView::CaseInsensitiveRoot(p@),
        }
    }
}

/// The texts with `, ` between each two neighbours.
pub open spec fn listed(entries: Seq<Seq<char>>) -> Seq<char>
    decreases entries.len(),
{
    if entries.len() == 0 {
        Seq::empty()
    } else if entries.len() == 1 {
        entries[0]
    } else {
        listed(entries.drop_last()) + ", "@ + entries.last()
    }
}

/// What a root error tells an operator.
pub open spec fn root_error_text(e: RootErrorView) -> Seq<char> {
    match e {
        RootErrorView::Io(e) => "root pin io error: "@ + e,
        RootErrorView::NotADirectory(p) => "static root is not a directory: "@ + text::debug_path(
            p,
        ),
        RootErrorView::Openat2Unsupported =>
            "openat2 unavailable (kernel < 5.6); crenel fails closed without it"@,
        RootErrorView::HostileSymlinks(entries) =>
            "static root contains symlinks the symlink policy would reject at request time ("@
            + numeral::decimal(entries.len()) + " shown): "@ + listed(entries)
            + ". Fix: mount the PHYSICAL target directory directly (e.g. Capistrano linked_dirs -> point the mount at shared/), remove the links, or relax the mount's symlink policy to allow-within-root."@,
        RootErrorView::AuditTooLarge(scanned) => "boot symlink audit exceeded "@ + numeral::decimal(
            scanned as nat,
        ) + " entries; split the mount into smaller roots or reduce the tree"@,
        RootErrorView::CaseInsensitiveRoot(p) => "static root "@ + text::debug_path(p)
            + " appears case-insensitive; byte-exact path guarantees do not hold (move the docroot to a case-sensitive filesystem)"@,
    }
}

fn list_text(entries: &Vec<String>) -> (r: String)
    ensures
        r@ == listed(string_views(entries@)),
{
    let mut out = String::new();
    let ghost all = string_views(entries@);
    let mut i: usize = 0;
    while i < entries.len()
        invariant
            i <= entries@.len(),
            all == string_views(entries@),
            out@ == listed(all.take(i as int)),
        decreases entries.len() - i,
    {
        proof {
            assert(all.take(i + 1).drop_last() =~= all.take(i as int));
            assert(all.take(i + 1).last() == entries@[i as int]@);
        }
        if i > 0 {
            out.append(", ");
        }
        out.append(entries[i].as_str());
        assert(out@ =~= listed(all.take(i + 1)));
        i += 1;
    }
    assert(all.take(i as int) =~= all);
    out
}

impl RootError {
    /// The message for operators.
    pub fn message(&self) -> (r: String)
        ensures
            r@ == root_error_text(self@),
    {
        match self {
            RootError::Io(e) => text::concat("root pin io error: ", e.as_str()),
            RootError::NotADirectory(p) => text::concat(
                "static root is not a directory: ",
                text::quoted_path(p.as_str()).as_str(),
            ),
            RootError::Openat2Unsupported =>
                "openat2 unavailable (kernel < 5.6); crenel fails closed without it".to_owned(),
            RootError::HostileSymlinks { entries } => {
                let mut out =
                    "static root contains symlinks the symlink policy would reject at request time (".to_owned();
                out.append(numeral::decimal_text(entries.len() as u64).as_str());
                out.append(" shown): ");
                out.append(list_text(entries).as_str());
                out.append(". Fix: mount the PHYSICAL target directory directly (e.g. Capistrano linked_dirs -> point the mount at shared/), remove the links, or relax the mount's symlink policy to allow-within-root.");
                out
            },
            RootError::AuditTooLarge { scanned } => {
                let mut out = "boot symlink audit exceeded ".to_owned();
                out.append(numeral::decimal_text(*scanned as u64).as_str());
                out.append(" entries; split the mount into smaller roots or reduce the tree");
                out
            },
            RootError::CaseInsensitiveRoot(p) => {
                let mut out = "static root ".to_owned();
                out.append(text::quoted_path(p.as_str()).as_str());
                out.append(" appears case-insensitive; byte-exact path guarantees do not hold (move the docroot to a case-sensitive filesystem)");
                out
            },
        }
    }
}

// ---- laws ----

/// Only a regular file is ever served: what is opened but is a FIFO, a device or a socket is a
/// miss.
pub proof fn law_only_regular_files_are_served<F>(opened: Opened<F>, stat: FileStat)
    requires
        opened.stat == Ok::<_, Errno>(stat),
    ensures
        open_outcome(Ok::<_, Errno>(opened)) is File <==> kind_of_mode(stat.mode)
            == FileKind::RegularFile,
        kind_of_mode(stat.mode) != FileKind::RegularFile && kind_of_mode(stat.mode)
            != FileKind::Directory ==> open_outcome(Ok::<_, Errno>(opened)) == Outcome::<F>::Miss(
            MissKind::NotRegular,
        ),
{
}

/// An open is repeated as often as the limit says and no more; the kernel's request to repeat
/// it once again sheds the request.
pub proof fn law_opens_are_bounded<F>(attempts: u32)
    ensures
        is_retried(attempts, Err::<Opened<F>, Errno>(Errno::Again)) <==> attempts < EAGAIN_RETRIES,
        open_outcome(Err::<Opened<F>, Errno>(Errno::Again)) == Outcome::<F>::Shed,
{
}

} // verus!
