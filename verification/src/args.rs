//! Command-line arguments of the standalone server.

use crate::config;
use crate::config::{
    Duration, Limits, MountSpec, MountSpecError, MountSpecErrorView, MountSpecView,
    StaticServerConfig,
};
use crate::serve;
use crate::text;
use vstd::prelude::*;
use vstd::slice::slice_subrange;
use vstd::string::*;

verus! {

/// Why the arguments are refused.
#[derive(Debug)]
pub enum ArgsError {
    /// A flag without the value that it takes.
    MissingValue(String),
    /// A mount spec that cannot be parsed.
    Mount { spec: String, error: MountSpecError },
    /// A value that should be a number.
    NotANumber(String),
    UnknownFlag(String),
    NoBind,
    NoMounts,
}

pub enum ArgsErrorView {
    MissingValue(Seq<char>),
    Mount { spec: Seq<char>, error: MountSpecErrorView },
    NotANumber(Seq<char>),
    UnknownFlag(Seq<char>),
    NoBind,
    NoMounts,
}

/// What the arguments so far have set.
pub struct Settings {
    pub bind: Option<Seq<char>>,
    pub mounts: Seq<MountSpecView>,
    pub limits: Limits,
}

impl View for ArgsError {
    type V = ArgsErrorView;

    open spec fn view(&self) -> ArgsErrorView {
        match *self {
            ArgsError::MissingValue(flag) => ArgsErrorView::MissingValue(flag@),
            ArgsError::Mount { spec, error } => ArgsErrorView::Mount { spec: spec@, error: error@ },
            ArgsError::NotANumber(value) => ArgsErrorView::NotANumber(value@),
            ArgsError::UnknownFlag(flag) => ArgsErrorView::UnknownFlag(flag@),
            ArgsError::NoBind => ArgsErrorView::NoBind,
            ArgsError::NoMounts => ArgsErrorView::NoMounts,
        }
    }
}

/// What refused arguments tell an operator.
pub open spec fn args_error_text(e: ArgsErrorView) -> Seq<char> {
    match e {
        ArgsErrorView::MissingValue(flag) => flag + " requires a value"@,
        ArgsErrorView::Mount { spec, error } => config::mount_spec_error_text(error, spec),
        ArgsErrorView::NotANumber(value) => "expected a number, got "@ + text::debug_text(value),
        ArgsErrorView::UnknownFlag(flag) => "unknown flag "@ + text::debug_text(flag),
        ArgsErrorView::NoBind => "--bind is required"@,
        ArgsErrorView::NoMounts => "at least one --mount PREFIX=DIR is required"@,
    }
}

// ---- numbers ----

/// The digits of a number that may start with a plus sign.
pub open spec fn unsigned_digits(s: Seq<char>) -> Seq<char> {
    if s.len() > 0 && s[0] == '+' {
        s.skip(1)
    } else {
        s
    }
}

/// The 64-bit number that a text denotes, if it denotes one.
pub open spec fn u64_of(s: Seq<char>) -> Option<u64> {
    let digits = unsigned_digits(s);
    if text::is_number(digits) && text::number_value(digits) <= u64::MAX {
        Some(text::number_value(digits) as u64)
    } else {
        None
    }
}

/// Parses a decimal number: digits, perhaps after a plus sign, of at most 64 bits.
pub fn parse_u64(digits: &str) -> (r: Result<u64, ArgsError>)
    ensures
        match r {
            Ok(n) => u64_of(digits@) == Some(n),
            Err(e) => u64_of(digits@) is None && e@ == ArgsErrorView::NotANumber(digits@),
        },
{
    let chars = text::chars_of(digits);
    let start: usize = if chars.len() > 0 && chars[0] == '+' {
        1
    } else {
        0
    };
    let run = slice_subrange(chars.as_slice(), start, chars.len());
    assert(run@ =~= unsigned_digits(digits@));
    if !text::is_number_text(run) {
        return Err(ArgsError::NotANumber(digits.to_owned()));
    }
    let mut value: u64 = 0;
    let mut i: usize = 0;
    while i < run.len()
        invariant
            i <= run@.len(),
            run@ == unsigned_digits(digits@),
            text::is_number(run@),
            value == text::number_value(run@.take(i as int)),
        decreases run.len() - i,
    {
        let c = run[i];
        proof {
            assert(text::is_digit(run@[i as int]));
            assert(run@.take(i + 1) =~= run@.take(i as int).push(c));
            text::lemma_number_value_push(run@.take(i as int), c);
            text::lemma_number_value_grows(run@, i + 1);
        }
        let next: Option<u64> = match value.checked_mul(10) {
            Some(tens) => tens.checked_add((c as u8 - 48) as u64),
            None => None,
        };
        match next {
            Some(n) => {
                value = n;
            },
            None => {
                return Err(ArgsError::NotANumber(digits.to_owned()));
            },
        }
        i += 1;
    }
    assert(run@.take(i as int) =~= run@);
    Ok(value)
}

// ---- flags ----

/// A number from a flag's value.
pub open spec fn number_or_error(value: Seq<char>) -> Result<u64, ArgsErrorView> {
    match u64_of(value) {
        Some(n) => Ok(n),
        None => Err(ArgsErrorView::NotANumber(value)),
    }
}

pub open spec fn is_flag(flag: Seq<char>) -> bool {
    ||| flag == "--bind"@
    ||| flag == "--mount"@
    ||| flag == "--inline-threshold"@
    ||| flag == "--min-throughput"@
    ||| flag == "--deadline-floor-secs"@
    ||| flag == "--write-timeout-secs"@
    ||| flag == "--io-permits"@
}

/// The settings with one more flag and its value.
pub open spec fn with_flag(s: Settings, flag: Seq<char>, value: Seq<char>) -> Result<
    Settings,
    ArgsErrorView,
> {
    if flag == "--bind"@ {
        Ok(Settings { bind: Some(value), ..s })
    } else if flag == "--mount"@ {
        match config::parsed_mount(value) {
            Ok(mount) => Ok(Settings { mounts: s.mounts.push(mount), ..s }),
            Err(error) => Err(ArgsErrorView::Mount { spec: value, error }),
        }
    } else {
        match number_or_error(value) {
            Err(e) => Err(e),
            Ok(n) => Ok(
                Settings {
                    limits: if flag == "--inline-threshold"@ {
                        Limits { inline_threshold: n, ..s.limits }
                    } else if flag == "--min-throughput"@ {
                        Limits { min_throughput_bytes_per_sec: n, ..s.limits }
                    } else if flag == "--deadline-floor-secs"@ {
                        Limits { deadline_floor: Duration { secs: n, nanos: 0 }, ..s.limits }
                    } else if flag == "--write-timeout-secs"@ {
                        Limits { write_timeout: Duration { secs: n, nanos: 0 }, ..s.limits }
                    } else {
                        Limits { io_permits: n as usize, ..s.limits }
                    },
                    ..s
                },
            ),
        }
    }
}

/// The settings once all flags are taken; each takes the argument that follows it.
pub open spec fn with_args(s: Settings, args: Seq<Seq<char>>) -> Result<Settings, ArgsErrorView>
    decreases args.len(),
{
    if args.len() == 0 {
        Ok(s)
    } else if !is_flag(args[0]) {
        Err(ArgsErrorView::UnknownFlag(args[0]))
    } else if args.len() == 1 {
        Err(ArgsErrorView::MissingValue(args[0]))
    } else {
        match with_flag(s, args[0], args[1]) {
            Ok(next) => with_args(next, args.skip(2)),
            Err(e) => Err(e),
        }
    }
}

/// The settings without any argument.
pub open spec fn no_settings() -> Settings {
    Settings {
        bind: None,
        mounts: Seq::empty(),
        limits: Limits {
            inline_threshold: 65_536,
            chunk_bytes: 262_144,
            write_timeout: Duration { secs: 10, nanos: 0 },
            min_throughput_bytes_per_sec: 65_536,
            deadline_floor: Duration { secs: 30, nanos: 0 },
            deadline_cap: Duration { secs: 3600, nanos: 0 },
            io_permits: 64,
            io_max_waiters: 128,
        },
    }
}

/// The address and configuration that arguments give.
pub open spec fn parsed_args(args: Seq<Seq<char>>) -> Result<
    (Seq<char>, Seq<MountSpecView>, Limits),
    ArgsErrorView,
> {
    match with_args(no_settings(), args) {
        Err(e) => Err(e),
        Ok(s) => match s.bind {
            None => Err(ArgsErrorView::NoBind),
            Some(bind) => if s.mounts.len() == 0 {
                Err(ArgsErrorView::NoMounts)
            } else {
                Ok((bind, s.mounts, s.limits))
            },
        },
    }
}

pub open spec fn arg_views(args: Seq<String>) -> Seq<Seq<char>> {
    args.map_values(|a: String| a@)
}

impl ArgsError {
    /// The message for operators.
    pub fn message(&self) -> (r: String)
        ensures
            r@ == args_error_text(self@),
    {
        match self {
            ArgsError::MissingValue(flag) => text::concat(flag.as_str(), " requires a value"),
            ArgsError::Mount { spec, error } => error.message(spec.as_str()),
            ArgsError::NotANumber(value) => text::concat(
                "expected a number, got ",
                text::quoted(value.as_str()).as_str(),
            ),
            ArgsError::UnknownFlag(flag) => text::concat(
                "unknown flag ",
                text::quoted(flag.as_str()).as_str(),
            ),
            ArgsError::NoBind => "--bind is required".to_owned(),
            ArgsError::NoMounts => "at least one --mount PREFIX=DIR is required".to_owned(),
        }
    }
}

fn known_flag(flag: &[char]) -> (r: bool)
    ensures
        r == is_flag(flag@),
{
    text::is_text(flag, "--bind") || text::is_text(flag, "--mount") || text::is_text(
        flag,
        "--inline-threshold",
    ) || text::is_text(flag, "--min-throughput") || text::is_text(flag, "--deadline-floor-secs")
        || text::is_text(flag, "--write-timeout-secs") || text::is_text(flag, "--io-permits")
}

/// Reads the arguments into an address to bind and a configuration.
pub fn read_args(args: &Vec<String>) -> (r: Result<(String, StaticServerConfig), ArgsError>)
    ensures
        match r {
            Ok((bind, c)) => parsed_args(arg_views(args@)) == Ok::<_, ArgsErrorView>(
                (bind@, serve::spec_views(c.mounts@), c.limits),
            ),
            Err(e) => parsed_args(arg_views(args@)) == Err::<
                (Seq<char>, Seq<MountSpecView>, Limits),
                _,
            >(e@),
        },
{
    let ghost all = arg_views(args@);
    let mut bind: Option<String> = None;
    let mut mounts: Vec<MountSpec> = Vec::new();
    let mut limits = Limits::default();
    let mut i: usize = 0;
    proof {
        assert(all.skip(0) =~= all);
        assert(serve::spec_views(mounts@) =~= Seq::empty());
    }
    while i < args.len()
        invariant
            i <= args@.len(),
            all == arg_views(args@),
            with_args(no_settings(), all) == with_args(
                Settings {
                    bind: serve::opt_view(bind),
                    mounts: serve::spec_views(mounts@),
                    limits,
                },
                all.skip(i as int),
            ),
        decreases args.len() - i,
    {
        let ghost rest = all.skip(i as int);
        let ghost before = Settings {
            bind: serve::opt_view(bind),
            mounts: serve::spec_views(mounts@),
            limits,
        };
        assert(rest[0] == args@[i as int]@);
        let flag = text::chars_of(args[i].as_str());
        if !known_flag(flag.as_slice()) {
            return Err(ArgsError::UnknownFlag(args[i].clone()));
        }
        if args.len() - i == 1 {
            return Err(ArgsError::MissingValue(args[i].clone()));
        }
        let value = args[i + 1].as_str();
        assert(rest[1] == value@);
        assert(rest.skip(2) =~= all.skip(i + 2));
        if text::is_text(flag.as_slice(), "--bind") {
            bind = Some(value.to_owned());
        } else if text::is_text(flag.as_slice(), "--mount") {
            match MountSpec::parse_spec(value) {
                Ok(mount) => {
                    mounts.push(mount);
                    assert(serve::spec_views(mounts@) =~= before.mounts.push(mount@));
                },
                Err(error) => {
                    return Err(ArgsError::Mount { spec: value.to_owned(), error });
                },
            }
        } else {
            let n: u64 = match parse_u64(value) {
                Ok(n) => n,
                Err(e) => {
                    return Err(e);
                },
            };
            if text::is_text(flag.as_slice(), "--inline-threshold") {
                limits.inline_threshold = n;
            } else if text::is_text(flag.as_slice(), "--min-throughput") {
                limits.min_throughput_bytes_per_sec = n;
            } else if text::is_text(flag.as_slice(), "--deadline-floor-secs") {
                limits.deadline_floor = Duration::from_secs(n);
            } else if text::is_text(flag.as_slice(), "--write-timeout-secs") {
                limits.write_timeout = Duration::from_secs(n);
            } else {
                limits.io_permits = n as usize;
            }
        }
        i += 2;
    }
    assert(all.skip(i as int) =~= Seq::empty());
    assert(serve::spec_views(mounts@).len() == mounts@.len());
    match bind {
        None => Err(ArgsError::NoBind),
        Some(bind) => if mounts.len() == 0 {
            Err(ArgsError::NoMounts)
        } else {
            Ok((bind, StaticServerConfig { mounts, limits }))
        },
    }
}

/// [`read_args`] with the error as a message for operators.
pub fn parse_args(args: Vec<String>) -> (r: Result<(String, StaticServerConfig), String>)
    ensures
        match r {
            Ok((bind, c)) => parsed_args(arg_views(args@)) == Ok::<_, ArgsErrorView>(
                (bind@, serve::spec_views(c.mounts@), c.limits),
            ),
            Err(message) => parsed_args(arg_views(args@)) matches Err(e) && message@
                == args_error_text(e),
        },
{
    match read_args(&args) {
        Ok(parsed) => Ok(parsed),
        Err(e) => Err(e.message()),
    }
}

} // verus!
