//! Arguments: what each flag sets, and which arguments are refused.

use crate::args;
use crate::args::{ArgsErrorView, Settings};
use crate::config;
use crate::config::{Duration, Limits, MountSpecErrorView, MountSpecView};
use crate::laws::texts;
use crate::numeral;
use crate::text;
use vstd::prelude::*;
use vstd::string::*;

verus! {

/// A value is a number when it is made of decimal digits, with or without a plus sign before
/// them, and fits in 64 bits. It is then the number that the digits denote.
pub proof fn law_numbers_of_flags(s: Seq<char>, n: u64)
    ensures
        args::u64_of(numeral::decimal(n as nat)) == Some(n),
        s.len() > 0 && (forall|i: int| 0 <= i < s.len() ==> '0' <= #[trigger] s[i] <= '9') ==> {
            &&& args::u64_of(seq!['+'] + s) == args::u64_of(s)
            &&& args::u64_of(s) == (if text::number_value(s) <= 0xffff_ffff_ffff_ffff {
                Some(text::number_value(s) as u64)
            } else {
                None
            })
        },
        s.len() == 0 ==> args::u64_of(s) is None && args::u64_of(seq!['+'] + s) is None,
        s.len() > 0 && !('0' <= s[0] <= '9') && s[0] != '+' ==> args::u64_of(s) is None,
        (exists|i: int| 0 < i < s.len() && !('0' <= #[trigger] s[i] <= '9')) ==> args::u64_of(
            s,
        ) is None,
{
    let plus = seq!['+'] + s;
    assert(plus.skip(1) =~= s);
    texts::law_numbers_are_decimal(s, '0');
    texts::law_numbers_are_decimal(s.skip(1), '0');
    texts::law_decimal_reads_back(n as nat);
    let d = numeral::decimal(n as nat);
    texts::law_numbers_are_decimal(d, '0');
    assert('0' <= d[0] <= '9');
    if exists|i: int| 0 < i < s.len() && !('0' <= #[trigger] s[i] <= '9') {
        let i = choose|i: int| 0 < i < s.len() && !('0' <= #[trigger] s[i] <= '9');
        assert(s.skip(1)[i - 1] == s[i]);
    }
}

proof fn lemma_args_in_turn(s: Settings, a: Seq<Seq<char>>, b: Seq<Seq<char>>)
    requires
        a.len() % 2 == 0,
    ensures
        args::with_args(s, a + b) == match args::with_args(s, a) {
            Ok(so_far) => args::with_args(so_far, b),
            Err(e) => Err(e),
        },
    decreases a.len(),
{
    let all = a + b;
    if a.len() == 0 {
        assert(all =~= b);
    } else {
        assert(all[0] == a[0]);
        assert(all[1] == a[1]);
        assert(all.skip(2) =~= a.skip(2) + b);
        if args::is_flag(a[0]) {
            if let Ok(next) = args::with_flag(s, a[0], a[1]) {
                lemma_args_in_turn(next, a.skip(2), b);
            }
        }
    }
}

proof fn lemma_accepted_is_even(s: Settings, a: Seq<Seq<char>>)
    requires
        args::with_args(s, a) is Ok,
    ensures
        a.len() % 2 == 0,
    decreases a.len(),
{
    if a.len() > 0 {
        let next = args::with_flag(s, a[0], a[1])->Ok_0;
        lemma_accepted_is_even(next, a.skip(2));
    }
}

proof fn lemma_one_more(s: Settings, a: Seq<Seq<char>>, flag: Seq<char>, value: Seq<char>)
    requires
        args::with_args(s, a) is Ok,
    ensures
        ({
            let so_far = args::with_args(s, a)->Ok_0;
            args::with_args(s, a + seq![flag, value]) == if args::is_flag(flag) {
                args::with_flag(so_far, flag, value)
            } else {
                Err(ArgsErrorView::UnknownFlag(flag))
            }
        }),
{
    lemma_accepted_is_even(s, a);
    lemma_args_in_turn(s, a, seq![flag, value]);
    let pair = seq![flag, value];
    let so_far = args::with_args(s, a)->Ok_0;
    assert(pair[0] == flag);
    assert(pair[1] == value);
    assert(pair.skip(2) =~= Seq::<Seq<char>>::empty());
    if args::is_flag(flag) {
        if let Ok(next) = args::with_flag(so_far, flag, value) {
            assert(args::with_args(next, pair.skip(2)) == Ok::<_, ArgsErrorView>(next));
        }
    }
}

/// An address and one mount are enough. All limits then have their defaults: 64 KiB are read
/// inline and others in chunks of 256 KiB, a write may take 10 s, the budget is made for 64 KiB a
/// second between 30 s and an hour, and 64 readers serve 128 who wait.
pub proof fn law_defaults_of_the_limits(bind: Seq<char>, value: Seq<char>, mount: MountSpecView)
    requires
        config::parsed_mount(value) == Ok::<_, MountSpecErrorView>(mount),
    ensures
        args::parsed_args(seq!["--bind"@, bind, "--mount"@, value]) == Ok::<_, ArgsErrorView>(
            (
                bind,
                seq![mount],
                Limits {
                    inline_threshold: 65_536,
                    chunk_bytes: 262_144,
                    write_timeout: Duration { secs: 10, nanos: 0 },
                    min_throughput_bytes_per_sec: 65_536,
                    deadline_floor: Duration { secs: 30, nanos: 0 },
                    deadline_cap: Duration { secs: 3600, nanos: 0 },
                    io_permits: 64,
                    io_max_waiters: 128,
                },
            ),
        ),
        args::parsed_args(seq!["--mount"@, value]) == Err::<
            (Seq<char>, Seq<MountSpecView>, Limits),
            _,
        >(ArgsErrorView::NoBind),
        args::parsed_args(seq!["--bind"@, bind]) == Err::<
            (Seq<char>, Seq<MountSpecView>, Limits),
            _,
        >(ArgsErrorView::NoMounts),
        args::parsed_args(Seq::empty()) == Err::<(Seq<char>, Seq<MountSpecView>, Limits), _>(
            ArgsErrorView::NoBind,
        ),
{
    lemma_flag_letters();
    let none = Seq::<Seq<char>>::empty();
    let start = args::no_settings();
    assert(args::with_args(start, none) == Ok::<_, ArgsErrorView>(start));
    lemma_one_more(start, none, "--bind"@, bind);
    lemma_one_more(start, none, "--mount"@, value);
    assert(none + seq!["--bind"@, bind] =~= seq!["--bind"@, bind]);
    assert(none + seq!["--mount"@, value] =~= seq!["--mount"@, value]);
    lemma_one_more(start, seq!["--bind"@, bind], "--mount"@, value);
    assert(seq!["--bind"@, bind] + seq!["--mount"@, value] =~= seq![
        "--bind"@,
        bind,
        "--mount"@,
        value,
    ]);
    let mounts = Seq::<MountSpecView>::empty().push(mount);
    assert(mounts =~= seq![mount]);
}

proof fn lemma_flag_letters()
    ensures
        "--bind"@.len() == 6,
        "--mount"@.len() == 7,
        "--inline-threshold"@.len() == 18,
        "--min-throughput"@.len() == 16,
        "--deadline-floor-secs"@.len() == 21,
        "--write-timeout-secs"@.len() == 20,
        "--io-permits"@.len() == 12,
{
    reveal_strlit("--bind");
    reveal_strlit("--mount");
    reveal_strlit("--inline-threshold");
    reveal_strlit("--min-throughput");
    reveal_strlit("--deadline-floor-secs");
    reveal_strlit("--write-timeout-secs");
    reveal_strlit("--io-permits");
}

/// A flag at the end of accepted arguments sets the one thing that it names: a later address and
/// a later limit replace an earlier one, and a mount comes behind those before it.
pub proof fn law_flags_set_one_thing(
    a: Seq<Seq<char>>,
    bind: Seq<char>,
    mounts: Seq<MountSpecView>,
    limits: Limits,
    value: Seq<char>,
)
    requires
        args::parsed_args(a) == Ok::<_, ArgsErrorView>((bind, mounts, limits)),
    ensures
        args::parsed_args(a + seq!["--bind"@, value]) == Ok::<_, ArgsErrorView>(
            (value, mounts, limits),
        ),
        config::parsed_mount(value) matches Ok(mount) ==> args::parsed_args(
            a + seq!["--mount"@, value],
        ) == Ok::<_, ArgsErrorView>((bind, mounts + seq![mount], limits)),
        args::u64_of(value) matches Some(n) ==> {
            &&& args::parsed_args(a + seq!["--inline-threshold"@, value]) == Ok::<_, ArgsErrorView>(
                (bind, mounts, Limits { inline_threshold: n, ..limits }),
            )
            &&& args::parsed_args(a + seq!["--min-throughput"@, value]) == Ok::<_, ArgsErrorView>(
                (bind, mounts, Limits { min_throughput_bytes_per_sec: n, ..limits }),
            )
            &&& args::parsed_args(a + seq!["--deadline-floor-secs"@, value]) == Ok::<
                _,
                ArgsErrorView,
            >((bind, mounts, Limits { deadline_floor: Duration { secs: n, nanos: 0 }, ..limits }))
            &&& args::parsed_args(a + seq!["--write-timeout-secs"@, value]) == Ok::<
                _,
                ArgsErrorView,
            >((bind, mounts, Limits { write_timeout: Duration { secs: n, nanos: 0 }, ..limits }))
            &&& args::parsed_args(a + seq!["--io-permits"@, value]) == Ok::<_, ArgsErrorView>(
                (bind, mounts, Limits { io_permits: n as usize, ..limits }),
            )
        },
{
    lemma_flag_letters();
    let start = args::no_settings();
    lemma_one_more(start, a, "--bind"@, value);
    lemma_one_more(start, a, "--mount"@, value);
    lemma_one_more(start, a, "--inline-threshold"@, value);
    lemma_one_more(start, a, "--min-throughput"@, value);
    lemma_one_more(start, a, "--deadline-floor-secs"@, value);
    lemma_one_more(start, a, "--write-timeout-secs"@, value);
    lemma_one_more(start, a, "--io-permits"@, value);
    if let Ok(mount) = config::parsed_mount(value) {
        assert(mounts.push(mount) =~= mounts + seq![mount]);
    }
}

/// What is wrong with one argument refuses them all, under its own name: a mount that cannot be
/// parsed, a value that is no number, a flag that does not exist, and one without its value.
pub proof fn law_wrong_arguments_are_named(
    a: Seq<Seq<char>>,
    value: Seq<char>,
    flag: Seq<char>,
    more: Seq<Seq<char>>,
)
    requires
        args::parsed_args(a) is Ok,
    ensures
        config::parsed_mount(value) matches Err(error) ==> args::parsed_args(
            a + seq!["--mount"@, value] + more,
        ) == Err::<(Seq<char>, Seq<MountSpecView>, Limits), _>(
            ArgsErrorView::Mount { spec: value, error },
        ),
        args::u64_of(value) is None && (flag == "--inline-threshold"@ || flag == "--min-throughput"@
            || flag == "--deadline-floor-secs"@ || flag == "--write-timeout-secs"@ || flag
            == "--io-permits"@) ==> args::parsed_args(a + seq![flag, value] + more) == Err::<
            (Seq<char>, Seq<MountSpecView>, Limits),
            _,
        >(ArgsErrorView::NotANumber(value)),
        flag != "--bind"@ && flag != "--mount"@ && flag != "--inline-threshold"@ && flag
            != "--min-throughput"@ && flag != "--deadline-floor-secs"@ && flag
            != "--write-timeout-secs"@ && flag != "--io-permits"@ ==> args::parsed_args(
            a + seq![flag] + more,
        ) == Err::<(Seq<char>, Seq<MountSpecView>, Limits), _>(ArgsErrorView::UnknownFlag(flag)),
        flag == "--bind"@ || flag == "--mount"@ || flag == "--inline-threshold"@ || flag
            == "--min-throughput"@ || flag == "--deadline-floor-secs"@ || flag
            == "--write-timeout-secs"@ || flag == "--io-permits"@ ==> args::parsed_args(
            a + seq![flag],
        ) == Err::<(Seq<char>, Seq<MountSpecView>, Limits), _>(ArgsErrorView::MissingValue(flag)),
{
    lemma_flag_letters();
    let start = args::no_settings();
    lemma_accepted_is_even(start, a);
    lemma_one_more(start, a, "--mount"@, value);
    lemma_args_in_turn(start, a + seq!["--mount"@, value], more);
    lemma_one_more(start, a, flag, value);
    lemma_args_in_turn(start, a + seq![flag, value], more);
    assert(a + seq![flag] + more =~= a + (seq![flag] + more));
    lemma_args_in_turn(start, a, seq![flag] + more);
    assert((seq![flag] + more)[0] == flag);
    lemma_args_in_turn(start, a, seq![flag]);
    assert(seq![flag][0] == flag);
}

/// What refused arguments tell an operator.
pub proof fn law_refused_arguments_are_quoted(
    value: Seq<char>,
    spec: Seq<char>,
    error: MountSpecErrorView,
)
    ensures
        args::args_error_text(ArgsErrorView::MissingValue(value)) == value + " requires a value"@,
        args::args_error_text(ArgsErrorView::NotANumber(value)) == "expected a number, got "@
            + text::debug_text(value),
        args::args_error_text(ArgsErrorView::UnknownFlag(value)) == "unknown flag "@
            + text::debug_text(value),
        args::args_error_text(ArgsErrorView::NoBind) == "--bind is required"@,
        args::args_error_text(ArgsErrorView::NoMounts)
            == "at least one --mount PREFIX=DIR is required"@,
        args::args_error_text(ArgsErrorView::Mount { spec, error })
            == config::mount_spec_error_text(error, spec),
{
}

} // verus!
