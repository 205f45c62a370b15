//! Boot configuration: mounts with their policies, and the runtime limits.

use crate::resolve::SymlinkPolicy;
use crate::text;
use vstd::prelude::*;
use vstd::string::*;

verus! {

/// What a mount does with a static miss.
#[derive(Debug, Clone, Copy, PartialEq, Eq, Structural)]
pub enum OnMiss {
    /// Hand the request back to the application.
    Fallthrough,
    /// Answer 404.
    NotFound,
}

/// One mapping from a URL prefix to a docroot, with its policy.
#[derive(Debug, Clone)]
pub struct MountSpec {
    pub prefix: String,
    pub docroot: String,
    pub symlink_policy: SymlinkPolicy,
    pub allow_dotfiles: bool,
    /// Serve `index.html` behind a trailing slash, and redirect to add the slash.
    pub index: bool,
    /// Emitted verbatim on success responses when set.
    pub cache_control: Option<String>,
    /// Try precompressed sidecars.
    pub sidecars: bool,
    pub on_miss: OnMiss,
}

/// Why a mount spec string is refused.
#[derive(Debug, Clone, PartialEq, Eq)]
pub enum MountSpecError {
    /// There is no `=` between prefix and directory.
    NoDirectory,
    /// The directory is empty.
    EmptyDirectory,
    /// An option that does not exist.
    UnknownOption(String),
}

/// A span of time.
#[derive(Debug, Clone, Copy, PartialEq, Eq, Structural)]
pub struct Duration {
    pub secs: u64,
    /// Nanoseconds beyond the seconds, below one thousand million.
    pub nanos: u32,
}

/// Runtime limits.
#[derive(Debug, Clone, Copy, PartialEq, Eq, Structural)]
pub struct Limits {
    /// Bodies up to this length are read inline.
    pub inline_threshold: u64,
    /// Chunk size for longer bodies.
    pub chunk_bytes: usize,
    /// Timeout of each write.
    pub write_timeout: Duration,
    /// The slowest client that the whole-response budget is made for.
    pub min_throughput_bytes_per_sec: u64,
    pub deadline_floor: Duration,
    pub deadline_cap: Duration,
    /// Concurrent reader tasks.
    pub io_permits: usize,
    /// Requests that may queue for a reader task before others are shed.
    pub io_max_waiters: usize,
}

#[derive(Debug, Clone)]
pub struct StaticServerConfig {
    pub mounts: Vec<MountSpec>,
    pub limits: Limits,
}

// ---- models ----

pub struct MountSpecView {
    pub prefix: Seq<char>,
    pub docroot: Seq<char>,
    pub symlink_policy: SymlinkPolicy,
    pub allow_dotfiles: bool,
    pub index: bool,
    pub cache_control: Option<Seq<char>>,
    pub sidecars: bool,
    pub on_miss: OnMiss,
}

pub enum MountSpecErrorView {
    NoDirectory,
    EmptyDirectory,
    UnknownOption(Seq<char>),
}

impl View for MountSpec {
    type V = MountSpecView;

    open spec fn view(&self) -> MountSpecView {
        MountSpecView {
            prefix: self.prefix@,
            docroot: self.docroot@,
            symlink_policy: self.symlink_policy,
            allow_dotfiles: self.allow_dotfiles,
            index: self.index,
            cache_control: match self.cache_control {
                Some(value) => Some(value@),
                None => None,
            },
            sidecars: self.sidecars,
            on_miss: self.on_miss,
        }
    }
}

impl View for MountSpecError {
    type V = MountSpecErrorView;

    open spec fn view(&self) -> MountSpecErrorView {
        match *self {
            MountSpecError::NoDirectory => MountSpecErrorView::NoDirectory,
            MountSpecError::EmptyDirectory => MountSpecErrorView::EmptyDirectory,
            MountSpecError::UnknownOption(option) => MountSpecErrorView::UnknownOption(option@),
        }
    }
}

/// A mount with the conservative defaults: symlinks and dotfiles denied, no index, sidecars
/// tried, 404 on a miss.
pub open spec fn default_mount(prefix: Seq<char>, docroot: Seq<char>) -> MountSpecView {
    MountSpecView {
        prefix,
        docroot,
        symlink_policy: SymlinkPolicy::Deny,
        allow_dotfiles: false,
        index: false,
        cache_control: None,
        sidecars: true,
        on_miss: OnMiss::NotFound,
    }
}

/// A text with a comma in place of each `%2C`.
pub open spec fn commas_restored(s: Seq<char>) -> Seq<char>
    decreases s.len(),
{
    if s.len() == 0 {
        Seq::empty()
    } else if text::starts_with(s, seq!['%', '2', 'C']) {
        seq![','] + commas_restored(s.skip(3))
    } else {
        seq![s[0]] + commas_restored(s.skip(1))
    }
}

/// A mount with one more option; `None` when the option does not exist.
pub open spec fn with_option(spec: MountSpecView, option: Seq<char>) -> Option<MountSpecView> {
    if option == "index"@ {
        Some(MountSpecView { index: true, ..spec })
    } else if option == "fallthrough"@ {
        Some(MountSpecView { on_miss: OnMiss::Fallthrough, ..spec })
    } else if option == "dotfiles"@ {
        Some(MountSpecView { allow_dotfiles: true, ..spec })
    } else if option == "symlinks-within-root"@ {
        Some(MountSpecView { symlink_policy: SymlinkPolicy::AllowWithinRoot, ..spec })
    } else if option == "no-sidecars"@ {
        Some(MountSpecView { sidecars: false, ..spec })
    } else {
        match text::strip_prefix(option, "cache-control="@) {
            Some(value) => Some(
                MountSpecView { cache_control: Some(commas_restored(value)), ..spec },
            ),
            None => None,
        }
    }
}

/// A mount with the given options in turn, or the first that does not exist.
pub open spec fn with_options(spec: MountSpecView, options: Seq<Seq<char>>) -> Result<
    MountSpecView,
    MountSpecErrorView,
>
    decreases options.len(),
{
    if options.len() == 0 {
        Ok(spec)
    } else {
        match with_option(spec, options[0]) {
            Some(next) => with_options(next, options.skip(1)),
            None => Err(MountSpecErrorView::UnknownOption(options[0])),
        }
    }
}

/// The mount that `PREFIX=DIR[,opt,…]` describes.
pub open spec fn parsed_mount(raw: Seq<char>) -> Result<MountSpecView, MountSpecErrorView> {
    match text::split_once(raw, '=') {
        None => Err(MountSpecErrorView::NoDirectory),
        Some((prefix, rest)) => {
            let parts = text::split(rest, ',');
            if parts[0].len() == 0 {
                Err(MountSpecErrorView::EmptyDirectory)
            } else {
                with_options(default_mount(prefix, parts[0]), parts.skip(1))
            }
        },
    }
}

/// What a refused mount spec tells an operator.
pub open spec fn mount_spec_error_text(e: MountSpecErrorView, raw: Seq<char>) -> Seq<char> {
    match e {
        MountSpecErrorView::NoDirectory => "mount spec must be PREFIX=DIR[,opts]: "@
            + text::debug_text(raw),
        MountSpecErrorView::EmptyDirectory => "mount spec "@ + text::debug_text(raw)
            + ": empty directory"@,
        MountSpecErrorView::UnknownOption(option) => "mount spec "@ + text::debug_text(raw)
            + ": unknown option "@ + text::debug_text(option),
    }
}

// ---- mount specs ----

/// Replaces each `%2C` by a comma.
fn restore_commas(s: &[char]) -> (r: String)
    ensures
        r@ == commas_restored(s@),
{
    let mut out: Vec<char> = Vec::new();
    let mut i: usize = 0;
    assert(s@.skip(0) =~= s@);
    while i < s.len()
        invariant
            i <= s@.len(),
            commas_restored(s@) == out@ + commas_restored(s@.skip(i as int)),
        decreases s.len() - i,
    {
        let ghost rest = s@.skip(i as int);
        let ghost before = out@;
        let escaped = s.len() - i >= 3 && s[i] == '%' && s[i + 1] == '2' && s[i + 2] == 'C';
        proof {
            let mark = seq!['%', '2', 'C'];
            if escaped {
                assert(rest.take(3) =~= mark);
            } else if text::starts_with(rest, mark) {
                assert(rest.take(3)[0] == rest[0]);
                assert(rest.take(3)[1] == rest[1]);
                assert(rest.take(3)[2] == rest[2]);
            }
            assert(escaped == text::starts_with(rest, mark));
        }
        if escaped {
            out.push(',');
            proof {
                assert(rest.skip(3) =~= s@.skip(i + 3));
                assert(before + (seq![','] + commas_restored(rest.skip(3))) =~= out@
                    + commas_restored(rest.skip(3)));
            }
            i += 3;
        } else {
            out.push(s[i]);
            proof {
                assert(rest.skip(1) =~= s@.skip(i + 1));
                assert(before + (seq![rest[0]] + commas_restored(rest.skip(1))) =~= out@
                    + commas_restored(rest.skip(1)));
            }
            i += 1;
        }
    }
    proof {
        assert(s@.skip(i as int) =~= Seq::empty());
        assert(out@ + Seq::<char>::empty() =~= out@);
    }
    text::string_of(out.as_slice())
}

/// Sets one option; `false` when it does not exist.
fn set_option(spec: &mut MountSpec, option: &[char]) -> (known: bool)
    ensures
        match with_option(old(spec)@, option@) {
            Some(next) => known && final(spec)@ == next,
            None => !known && final(spec)@ == old(spec)@,
        },
{
    if text::is_text(option, "index") {
        spec.index = true;
    } else if text::is_text(option, "fallthrough") {
        spec.on_miss = OnMiss::Fallthrough;
    } else if text::is_text(option, "dotfiles") {
        spec.allow_dotfiles = true;
    } else if text::is_text(option, "symlinks-within-root") {
        spec.symlink_policy = SymlinkPolicy::AllowWithinRoot;
    } else if text::is_text(option, "no-sidecars") {
        spec.sidecars = false;
    } else {
        match text::strip_text_prefix(option, "cache-control=") {
            Some(value) => {
                spec.cache_control = Some(restore_commas(value));
            },
            None => {
                return false;
            },
        }
    }
    true
}

impl MountSpec {
    /// A mount with conservative defaults: symlinks and dotfiles denied, no index, sidecars
    /// tried, 404 on a miss.
    pub fn new(prefix: &str, docroot: &str) -> (r: MountSpec)
        ensures
            r@ == default_mount(prefix@, docroot@),
    {
        MountSpec {
            prefix: prefix.to_owned(),
            docroot: docroot.to_owned(),
            symlink_policy: SymlinkPolicy::Deny,
            allow_dotfiles: false,
            index: false,
            cache_control: None,
            sidecars: true,
            on_miss: OnMiss::NotFound,
        }
    }

    /// Parses the spec string `PREFIX=DIR[,opt,…]`. Options: `index`, `fallthrough`,
    /// `dotfiles`, `symlinks-within-root`, `no-sidecars` and `cache-control=VALUE`, with `%2C`
    /// for each comma inside the value. An unknown option is an error: a typo must not
    /// silently weaken policy.
    pub fn parse_spec(raw: &str) -> (r: Result<MountSpec, MountSpecError>)
        ensures
            match r {
                Ok(spec) => parsed_mount(raw@) == Ok::<_, MountSpecErrorView>(spec@),
                Err(e) => parsed_mount(raw@) == Err::<MountSpecView, _>(e@),
            },
    {
        let chars = text::chars_of(raw);
        let (prefix, rest) = match text::split_chars_once(chars.as_slice(), '=') {
            None => {
                return Err(MountSpecError::NoDirectory);
            },
            Some(parts) => parts,
        };
        let parts = text::split_chars(rest, ',');
        let ghost all = text::split(rest@, ',');
        proof {
            text::lemma_split(rest@, ',');
            assert(text::views(parts@).len() == parts@.len());
            assert(all[0] == parts@[0]@);
        }
        if parts[0].len() == 0 {
            return Err(MountSpecError::EmptyDirectory);
        }
        let mut spec = MountSpec::new(
            text::string_of(prefix).as_str(),
            text::string_of(parts[0]).as_str(),
        );
        let ghost first = spec@;
        let ghost options = all.skip(1);
        let mut i: usize = 1;
        assert(options.skip(0) =~= options);
        while i < parts.len()
            invariant
                1 <= i <= parts@.len(),
                text::views(parts@) == all,
                all.len() == parts@.len(),
                options == all.skip(1),
                parsed_mount(raw@) == with_options(first, options),
                with_options(first, options) == with_options(spec@, options.skip(i - 1)),
            decreases parts.len() - i,
        {
            let option = parts[i];
            proof {
                assert(options.skip(i - 1)[0] == all[i as int]);
                assert(all[i as int] == option@);
                assert(options.skip(i - 1).skip(1) =~= options.skip(i as int));
            }
            if !set_option(&mut spec, option) {
                return Err(MountSpecError::UnknownOption(text::string_of(option)));
            }
            i += 1;
        }
        assert(options.skip(i - 1) =~= Seq::empty());
        Ok(spec)
    }

    /// [`MountSpec::parse_spec`] with the error as a message for operators.
    pub fn parse(raw: &str) -> (r: Result<MountSpec, String>)
        ensures
            match r {
                Ok(spec) => parsed_mount(raw@) == Ok::<_, MountSpecErrorView>(spec@),
                Err(message) => parsed_mount(raw@) matches Err(e) && message@
                    == mount_spec_error_text(e, raw@),
            },
    {
        match MountSpec::parse_spec(raw) {
            Ok(spec) => Ok(spec),
            Err(e) => Err(e.message(raw)),
        }
    }
}

impl MountSpecError {
    /// The message for operators about the spec string that was refused.
    pub fn message(&self, raw: &str) -> (r: String)
        ensures
            r@ == mount_spec_error_text(self@, raw@),
    {
        let shown = text::quoted(raw);
        match self {
            MountSpecError::NoDirectory => text::concat(
                "mount spec must be PREFIX=DIR[,opts]: ",
                shown.as_str(),
            ),
            MountSpecError::EmptyDirectory => text::concat(
                text::concat("mount spec ", shown.as_str()).as_str(),
                ": empty directory",
            ),
            MountSpecError::UnknownOption(option) => text::concat(
                text::concat(
                    text::concat("mount spec ", shown.as_str()).as_str(),
                    ": unknown option ",
                ).as_str(),
                text::quoted(option.as_str()).as_str(),
            ),
        }
    }
}

// ---- limits ----

/// A span of time in its only form: less than a second stands beyond the seconds.
pub open spec fn is_duration(d: Duration) -> bool {
    d.nanos < 1_000_000_000
}

/// The length of a span in nanoseconds.
pub open spec fn duration_nanos(d: Duration) -> int {
    d.secs * 1_000_000_000 + d.nanos
}

/// Whether one span is no longer than another.
pub open spec fn at_most(a: Duration, b: Duration) -> bool {
    a.secs < b.secs || (a.secs == b.secs && a.nanos <= b.nanos)
}

/// A span held between two others.
pub open spec fn clamped(d: Duration, floor: Duration, cap: Duration) -> Duration {
    if !at_most(floor, d) {
        floor
    } else if !at_most(d, cap) {
        cap
    } else {
        d
    }
}

/// The seconds that a body takes at the slowest throughput, and one more.
pub open spec fn budget_secs(len: u64, throughput: u64) -> int {
    len as int / (if throughput == 0 {
        1
    } else {
        throughput as int
    }) + 1
}

impl Duration {
    /// A span of whole seconds.
    pub fn from_secs(secs: u64) -> (r: Duration)
        ensures
            r == (Duration { secs, nanos: 0 }),
            is_duration(r),
    {
        Duration { secs, nanos: 0 }
    }

    fn no_longer_than(&self, other: &Duration) -> (r: bool)
        ensures
            r == at_most(*self, *other),
    {
        self.secs < other.secs || (self.secs == other.secs && self.nanos <= other.nanos)
    }
}

impl Default for Limits {
    fn default() -> (r: Limits)
        ensures
            r == (Limits {
                inline_threshold: 65_536,
                chunk_bytes: 262_144,
                write_timeout: (Duration { secs: 10, nanos: 0 }),
                min_throughput_bytes_per_sec: 65_536,
                deadline_floor: (Duration { secs: 30, nanos: 0 }),
                deadline_cap: (Duration { secs: 3600, nanos: 0 }),
                io_permits: 64,
                io_max_waiters: 128,
            }),
            is_duration(r.write_timeout) && is_duration(r.deadline_floor) && is_duration(
                r.deadline_cap,
            ),
    {
        Limits {
            inline_threshold: 65_536,
            chunk_bytes: 262_144,
            write_timeout: Duration::from_secs(10),
            min_throughput_bytes_per_sec: 65_536,
            deadline_floor: Duration::from_secs(30),
            deadline_cap: Duration::from_secs(3600),
            io_permits: 64,
            io_max_waiters: 128,
        }
    }
}

impl Limits {
    /// The whole-response budget for a body of `len` bytes: what it takes at the slowest
    /// throughput, held between floor and cap.
    pub fn response_budget(&self, len: u64) -> (r: Duration)
        requires
            at_most(self.deadline_floor, self.deadline_cap),
            budget_secs(len, self.min_throughput_bytes_per_sec) <= u64::MAX,
        ensures
            r == clamped(
                Duration {
                    secs: budget_secs(len, self.min_throughput_bytes_per_sec) as u64,
                    nanos: 0,
                },
                self.deadline_floor,
                self.deadline_cap,
            ),
            is_duration(self.deadline_floor) && is_duration(self.deadline_cap) ==> is_duration(r),
    {
        let throughput: u64 = if self.min_throughput_bytes_per_sec == 0 {
            1
        } else {
            self.min_throughput_bytes_per_sec
        };
        let wanted = Duration::from_secs(len / throughput + 1);
        if !self.deadline_floor.no_longer_than(&wanted) {
            self.deadline_floor
        } else if !wanted.no_longer_than(&self.deadline_cap) {
            self.deadline_cap
        } else {
            wanted
        }
    }
}

/// One span is no longer than another exactly when it has no more nanoseconds, and spans of the
/// same length are the same.
pub proof fn law_durations_compare_by_length(a: Duration, b: Duration)
    requires
        is_duration(a),
        is_duration(b),
    ensures
        at_most(a, b) <==> duration_nanos(a) <= duration_nanos(b),
        duration_nanos(a) == duration_nanos(b) ==> a == b,
{
}

/// The budget lies between floor and cap, and never shrinks as the body grows.
pub proof fn law_budget_is_bounded_and_monotone(limits: Limits, len: u64, longer: u64)
    requires
        at_most(limits.deadline_floor, limits.deadline_cap),
        len <= longer,
        budget_secs(longer, limits.min_throughput_bytes_per_sec) <= u64::MAX,
    ensures
        ({
            let throughput = limits.min_throughput_bytes_per_sec;
            let short = clamped(
                Duration { secs: budget_secs(len, throughput) as u64, nanos: 0 },
                limits.deadline_floor,
                limits.deadline_cap,
            );
            let long = clamped(
                Duration { secs: budget_secs(longer, throughput) as u64, nanos: 0 },
                limits.deadline_floor,
                limits.deadline_cap,
            );
            &&& at_most(limits.deadline_floor, short)
            &&& at_most(short, limits.deadline_cap)
            &&& at_most(short, long)
        }),
{
    let t = if limits.min_throughput_bytes_per_sec == 0 {
        1
    } else {
        limits.min_throughput_bytes_per_sec as int
    };
    vstd::arithmetic::div_mod::lemma_div_is_ordered(len as int, longer as int, t);
    vstd::arithmetic::div_mod::lemma_div_pos_is_pos(len as int, t);
}

/// A spec string that is accepted holds no unknown option: a typo never passes in silence.
pub proof fn law_accepted_options_are_known(spec: MountSpecView, options: Seq<Seq<char>>, i: int)
    requires
        with_options(spec, options) is Ok,
        0 <= i < options.len(),
    ensures
        forall|any: MountSpecView| #[trigger] with_option(any, options[i]) is Some,
    decreases options.len(),
{
    let next = with_option(spec, options[0]).unwrap();
    if i > 0 {
        law_accepted_options_are_known(next, options.skip(1), i - 1);
        assert(options.skip(1)[i - 1] == options[i]);
    }
}

} // verus!
