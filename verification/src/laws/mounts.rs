//! Mount specs and budgets: what a spec string sets, and how long a response may take.

use crate::config;
use crate::config::{Duration, MountSpecErrorView, MountSpecView, OnMiss};
use crate::laws::texts;
use crate::resolve::SymlinkPolicy;
use crate::text;
use vstd::prelude::*;
use vstd::string::*;

verus! {

// ---- mount specs ----

/// The spec string of a prefix and what follows the equals sign.
pub open spec fn spec_text(prefix: Seq<char>, rest: Seq<char>) -> Seq<char> {
    prefix + seq!['='] + rest
}

proof fn lemma_parts(prefix: Seq<char>, rest: Seq<char>)
    requires
        !prefix.contains('='),
    ensures
        config::parsed_mount(spec_text(prefix, rest)) == {
            let parts = text::split(rest, ',');
            if parts[0].len() == 0 {
                Err(MountSpecErrorView::EmptyDirectory)
            } else {
                config::with_options(config::default_mount(prefix, parts[0]), parts.skip(1))
            }
        },
{
    texts::law_split_once_is_at_the_first(prefix, rest, '=');
}

/// A spec of a prefix and a directory alone has careful defaults: symlinks and dotfiles are
/// denied, there is no index and no cache policy, sidecars are tried, and a miss is 404.
pub proof fn law_mounts_have_careful_defaults(prefix: Seq<char>, directory: Seq<char>)
    requires
        !prefix.contains('='),
        !directory.contains(','),
        directory.len() > 0,
    ensures
        config::parsed_mount(spec_text(prefix, directory)) == Ok::<_, MountSpecErrorView>(
            MountSpecView {
                prefix,
                docroot: directory,
                symlink_policy: SymlinkPolicy::Deny,
                allow_dotfiles: false,
                index: false,
                cache_control: None,
                sidecars: true,
                on_miss: OnMiss::NotFound,
            },
        ),
{
    lemma_parts(prefix, directory);
    texts::law_split_is_at_every_separator(directory, directory, ',');
    assert(seq![directory].skip(1) =~= Seq::<Seq<char>>::empty());
}

/// A spec needs an equals sign, and a directory behind it.
pub proof fn law_mounts_need_a_directory(prefix: Seq<char>, options: Seq<char>)
    requires
        !prefix.contains('='),
    ensures
        config::parsed_mount(prefix) == Err::<MountSpecView, _>(MountSpecErrorView::NoDirectory),
        config::parsed_mount(spec_text(prefix, Seq::empty())) == Err::<MountSpecView, _>(
            MountSpecErrorView::EmptyDirectory,
        ),
        config::parsed_mount(spec_text(prefix, seq![','] + options)) == Err::<MountSpecView, _>(
            MountSpecErrorView::EmptyDirectory,
        ),
{
    let empty = Seq::<char>::empty();
    texts::law_split_once_is_at_the_first(prefix, empty, '=');
    lemma_parts(prefix, empty);
    lemma_parts(prefix, seq![','] + options);
    texts::law_split_is_at_every_separator(empty, options, ',');
    assert(empty + seq![','] + options =~= seq![','] + options);
}

proof fn lemma_with_options(spec: MountSpecView, a: Seq<Seq<char>>, option: Seq<char>)
    ensures
        config::with_options(spec, a + seq![option]) == match config::with_options(spec, a) {
            Ok(so_far) => match config::with_option(so_far, option) {
                Some(next) => Ok(next),
                None => Err(MountSpecErrorView::UnknownOption(option)),
            },
            Err(e) => Err(e),
        },
    decreases a.len(),
{
    let all = a + seq![option];
    if a.len() == 0 {
        assert(all[0] == option);
        assert(all.skip(1) =~= Seq::<Seq<char>>::empty());
        if let Some(next) = config::with_option(spec, option) {
            assert(config::with_options(next, all.skip(1)) == Ok::<_, MountSpecErrorView>(next));
        }
    } else {
        assert(all[0] == a[0]);
        assert(all.skip(1) =~= a.skip(1) + seq![option]);
        if let Some(next) = config::with_option(spec, a[0]) {
            lemma_with_options(next, a.skip(1), option);
        }
    }
}

proof fn lemma_one_more(prefix: Seq<char>, rest: Seq<char>, option: Seq<char>)
    requires
        !prefix.contains('='),
        !option.contains(','),
    ensures
        config::parsed_mount(spec_text(prefix, rest + seq![','] + option))
            == match config::parsed_mount(spec_text(prefix, rest)) {
            Ok(so_far) => match config::with_option(so_far, option) {
                Some(next) => Ok(next),
                None => Err(MountSpecErrorView::UnknownOption(option)),
            },
            Err(e) => Err(e),
        },
{
    let more = rest + seq![','] + option;
    lemma_parts(prefix, rest);
    lemma_parts(prefix, more);
    texts::law_split_is_at_every_separator(rest, option, ',');
    texts::law_split_is_at_every_separator(option, option, ',');
    text::lemma_split(rest, ',');
    let parts = text::split(rest, ',');
    assert(text::split(more, ',') == parts + seq![option]);
    assert((parts + seq![option])[0] == parts[0]);
    assert((parts + seq![option]).skip(1) =~= parts.skip(1) + seq![option]);
    lemma_with_options(config::default_mount(prefix, parts[0]), parts.skip(1), option);
}

/// An option at the end of an accepted spec sets the one thing that it names, and leaves all else
/// as it was.
pub proof fn law_options_set_one_thing(
    prefix: Seq<char>,
    rest: Seq<char>,
    spec: MountSpecView,
    value: Seq<char>,
)
    requires
        !prefix.contains('='),
        config::parsed_mount(spec_text(prefix, rest)) == Ok::<_, MountSpecErrorView>(spec),
        !value.contains(','),
    ensures
        config::parsed_mount(spec_text(prefix, rest + seq![','] + "index"@)) == Ok::<
            _,
            MountSpecErrorView,
        >(MountSpecView { index: true, ..spec }),
        config::parsed_mount(spec_text(prefix, rest + seq![','] + "fallthrough"@)) == Ok::<
            _,
            MountSpecErrorView,
        >(MountSpecView { on_miss: OnMiss::Fallthrough, ..spec }),
        config::parsed_mount(spec_text(prefix, rest + seq![','] + "dotfiles"@)) == Ok::<
            _,
            MountSpecErrorView,
        >(MountSpecView { allow_dotfiles: true, ..spec }),
        config::parsed_mount(spec_text(prefix, rest + seq![','] + "symlinks-within-root"@)) == Ok::<
            _,
            MountSpecErrorView,
        >(MountSpecView { symlink_policy: SymlinkPolicy::AllowWithinRoot, ..spec }),
        config::parsed_mount(spec_text(prefix, rest + seq![','] + "no-sidecars"@)) == Ok::<
            _,
            MountSpecErrorView,
        >(MountSpecView { sidecars: false, ..spec }),
        config::parsed_mount(spec_text(prefix, rest + seq![','] + ("cache-control="@ + value)))
            == Ok::<_, MountSpecErrorView>(
            MountSpecView { cache_control: Some(config::commas_restored(value)), ..spec },
        ),
{
    lemma_option_letters();
    lemma_one_more(prefix, rest, "index"@);
    lemma_one_more(prefix, rest, "fallthrough"@);
    lemma_one_more(prefix, rest, "dotfiles"@);
    lemma_one_more(prefix, rest, "symlinks-within-root"@);
    lemma_one_more(prefix, rest, "no-sidecars"@);
    let option = "cache-control="@ + value;
    assert(option[0] == 'c');
    assert(!option.contains(',')) by {
        if option.contains(',') {
            let k = choose|k: int| 0 <= k < option.len() && option[k] == ',';
            if k < 14 {
                assert("cache-control="@[k] == ',');
                assert("cache-control="@.contains(','));
            } else {
                assert(value[k - 14] == ',');
            }
        }
    }
    lemma_one_more(prefix, rest, option);
    texts::law_prefix_is_taken_off("cache-control="@, value, option);
}

proof fn lemma_option_letters()
    ensures
        "index"@.len() == 5,
        "index"@[0] == 'i',
        !"index"@.contains(','),
        "fallthrough"@.len() == 11,
        "fallthrough"@[0] == 'f',
        !"fallthrough"@.contains(','),
        "dotfiles"@.len() == 8,
        "dotfiles"@[0] == 'd',
        !"dotfiles"@.contains(','),
        "symlinks-within-root"@.len() == 20,
        "symlinks-within-root"@[0] == 's',
        !"symlinks-within-root"@.contains(','),
        "no-sidecars"@.len() == 11,
        "no-sidecars"@[0] == 'n',
        !"no-sidecars"@.contains(','),
        "cache-control="@.len() == 14,
        "cache-control="@[0] == 'c',
        !"cache-control="@.contains(','),
{
    reveal_strlit("index");
    reveal_strlit("fallthrough");
    reveal_strlit("dotfiles");
    reveal_strlit("symlinks-within-root");
    reveal_strlit("no-sidecars");
    reveal_strlit("cache-control=");
}

/// Any other option is refused by name. A spec that is refused stays refused, whatever is added
/// to its options.
pub proof fn law_other_options_are_refused(
    prefix: Seq<char>,
    rest: Seq<char>,
    option: Seq<char>,
    e: MountSpecErrorView,
)
    requires
        !prefix.contains('='),
        !option.contains(','),
    ensures
        config::parsed_mount(spec_text(prefix, rest)) is Ok && option != "index"@ && option
            != "fallthrough"@ && option != "dotfiles"@ && option != "symlinks-within-root"@
            && option != "no-sidecars"@ && !text::starts_with(option, "cache-control="@)
            ==> config::parsed_mount(spec_text(prefix, rest + seq![','] + option)) == Err::<
            MountSpecView,
            _,
        >(MountSpecErrorView::UnknownOption(option)),
        config::parsed_mount(spec_text(prefix, rest)) == Err::<MountSpecView, _>(e)
            ==> config::parsed_mount(spec_text(prefix, rest + seq![','] + option)) == Err::<
            MountSpecView,
            _,
        >(e),
{
    lemma_one_more(prefix, rest, option);
}

/// A comma in a cache policy is written `%2C`: each is put back, and nothing else is touched.
pub proof fn law_commas_are_written_as_escapes(a: Seq<char>, b: Seq<char>)
    requires
        !a.contains('%'),
    ensures
        config::commas_restored(a) == a,
        config::commas_restored(a + seq!['%', '2', 'C'] + b) == a + seq![',']
            + config::commas_restored(b),
        !text::starts_with(b, seq!['2', 'C']) ==> config::commas_restored(a + seq!['%'] + b) == a
            + seq!['%'] + config::commas_restored(b),
    decreases a.len(),
{
    let mark = seq!['%', '2', 'C'];
    if a.len() > 0 {
        let rest = a.skip(1);
        assert(a.contains(a[0]));
        assert forall|i: int| 0 <= i < rest.len() implies rest[i] != '%' by {
            assert(a.contains(a[i + 1]));
        }
        law_commas_are_written_as_escapes(rest, b);
        lemma_plain(a);
        lemma_plain(a + mark + b);
        lemma_plain(a + seq!['%'] + b);
        assert(a =~= seq![a[0]] + rest);
        assert((a + mark + b).skip(1) =~= rest + mark + b);
        assert((a + seq!['%'] + b).skip(1) =~= rest + seq!['%'] + b);
        assert(config::commas_restored(a + mark + b) =~= a + seq![','] + config::commas_restored(
            b,
        ));
        if !text::starts_with(b, seq!['2', 'C']) {
            assert(config::commas_restored(a + seq!['%'] + b) =~= a + seq!['%']
                + config::commas_restored(b));
        }
    } else {
        let escaped = a + mark + b;
        assert(escaped.take(3) =~= mark);
        assert(escaped.skip(3) =~= b);
        assert(config::commas_restored(escaped) =~= a + seq![','] + config::commas_restored(b));
        let plain = a + seq!['%'] + b;
        if !text::starts_with(b, seq!['2', 'C']) {
            if text::starts_with(plain, mark) {
                assert(plain.take(3) =~= mark);
                assert(plain.take(3)[1] == b[0]);
                assert(plain.take(3)[2] == b[1]);
                assert(b.take(2) =~= seq!['2', 'C']);
            }
            assert(plain.skip(1) =~= b);
            assert(plain[0] == '%');
            assert(config::commas_restored(plain) =~= a + seq!['%'] + config::commas_restored(b));
        }
    }
}

proof fn lemma_plain(s: Seq<char>)
    requires
        s.len() > 0,
        s[0] != '%',
    ensures
        config::commas_restored(s) == seq![s[0]] + config::commas_restored(s.skip(1)),
{
    if text::starts_with(s, seq!['%', '2', 'C']) {
        assert(s.take(3)[0] == s[0]);
    }
}

/// What a refused spec tells an operator: the spec itself, quoted, and what is wrong with it.
pub proof fn law_refused_mounts_are_quoted(raw: Seq<char>, option: Seq<char>)
    ensures
        config::mount_spec_error_text(MountSpecErrorView::NoDirectory, raw)
            == "mount spec must be PREFIX=DIR[,opts]: "@ + text::debug_text(raw),
        config::mount_spec_error_text(MountSpecErrorView::EmptyDirectory, raw) == "mount spec "@
            + text::debug_text(raw) + ": empty directory"@,
        config::mount_spec_error_text(MountSpecErrorView::UnknownOption(option), raw)
            == "mount spec "@ + text::debug_text(raw) + ": unknown option "@ + text::debug_text(
            option,
        ),
{
}

// ---- budgets ----

/// The length of a span in nanoseconds.
pub open spec fn length_of(d: Duration) -> int {
    1_000_000_000 * d.secs + d.nanos
}

/// The budget of a response: the first whole number of seconds in which the slowest client has
/// taken more than the body. A throughput of zero counts as one byte a second.
pub proof fn law_budget_outlasts_the_body(len: u64, throughput: u64)
    ensures
        ({
            let secs = config::budget_secs(len, throughput);
            let rate = if throughput == 0 {
                1
            } else {
                throughput as int
            };
            (secs - 1) * rate <= len < secs * rate
        }),
{
    let rate = if throughput == 0 {
        1
    } else {
        throughput as int
    };
    let n = len as int;
    let q = n / rate;
    assert(q * rate <= n < (q + 1) * rate) by (nonlinear_arith)
        requires
            rate > 0,
            q == n / rate,
    ;
}

/// A span is held between a floor and a cap by length: too short a one is the floor, too long a
/// one is the cap, and any other is itself.
pub proof fn law_spans_are_held_in_bounds(d: Duration, floor: Duration, cap: Duration)
    requires
        d.nanos < 1_000_000_000,
        floor.nanos < 1_000_000_000,
        cap.nanos < 1_000_000_000,
        length_of(floor) <= length_of(cap),
    ensures
        length_of(d) <= length_of(floor) ==> config::clamped(d, floor, cap) == floor,
        length_of(floor) <= length_of(d) <= length_of(cap) ==> config::clamped(d, floor, cap) == d,
        length_of(d) >= length_of(cap) ==> config::clamped(d, floor, cap) == cap,
        config::at_most(floor, d) <==> length_of(floor) <= length_of(d),
{
}

/// What stands for a mount holds each of its fields.
pub proof fn law_mounts_are_what_they_hold(spec: config::MountSpec)
    ensures
        spec@.prefix == spec.prefix@,
        spec@.docroot == spec.docroot@,
        spec@.symlink_policy == spec.symlink_policy,
        spec@.allow_dotfiles == spec.allow_dotfiles,
        spec@.index == spec.index,
        spec.cache_control matches Some(value) ==> spec@.cache_control == Some(value@),
        spec.cache_control is None ==> spec@.cache_control is None,
        spec@.sidecars == spec.sidecars,
        spec@.on_miss == spec.on_miss,
{
}

} // verus!
