//! Configuration, arguments and counters.

use crenel::args::{parse_args, parse_u64};
use crenel::config::{Duration, Limits, MountSpec, MountSpecError, OnMiss};
use crenel::counters::Counters;
use crenel::resolve::SymlinkPolicy;

#[test]
fn mount_spec_parse_covers_options_and_fails_closed() {
    let spec = MountSpec::parse("/assets=/srv/app/shared/public/assets,cache-control=public%2Cmax-age=31536000%2Cimmutable")
        .expect("assets spec");
    assert_eq!(spec.prefix, "/assets");
    assert_eq!(
        spec.cache_control.as_deref(),
        Some("public,max-age=31536000,immutable")
    );
    assert_eq!(spec.on_miss, OnMiss::NotFound);
    assert_eq!(spec.symlink_policy, SymlinkPolicy::Deny);

    let spec = MountSpec::parse(
        "/=/srv/site,index,fallthrough,dotfiles,symlinks-within-root,no-sidecars",
    )
    .expect("root spec");
    assert!(spec.index && spec.allow_dotfiles && !spec.sidecars);
    assert_eq!(spec.on_miss, OnMiss::Fallthrough);
    assert_eq!(spec.symlink_policy, SymlinkPolicy::AllowWithinRoot);
    assert!(MountSpec::parse("/assets").is_err());
    assert!(MountSpec::parse("/assets=").is_err());
    assert!(MountSpec::parse("/a=/b,fallthru").is_err());
}

#[test]
fn response_budget_clamps_both_ends() {
    let limits = Limits::default();
    assert_eq!(limits.response_budget(1), Duration::from_secs(30));
    assert_eq!(
        limits.response_budget(1024 * 1024 * 1024),
        Duration::from_secs(3600)
    );
    assert_eq!(
        limits.response_budget(64 * 1024 * 1024),
        Duration::from_secs(1025)
    );
}

#[test]
fn refused_mount_specs_say_why() {
    assert_eq!(
        MountSpec::parse("/assets").unwrap_err(),
        "mount spec must be PREFIX=DIR[,opts]: \"/assets\""
    );
    assert_eq!(
        MountSpec::parse("/assets=").unwrap_err(),
        "mount spec \"/assets=\": empty directory"
    );
    assert_eq!(
        MountSpec::parse("/a=/b,fallthru").unwrap_err(),
        "mount spec \"/a=/b,fallthru\": unknown option \"fallthru\""
    );
    assert_eq!(MountSpec::parse_spec("x").unwrap_err(), MountSpecError::NoDirectory);
    assert_eq!(MountSpec::parse_spec("x=,index").unwrap_err(), MountSpecError::EmptyDirectory);
    assert_eq!(
        MountSpec::parse_spec("x=y,,z").unwrap_err(),
        MountSpecError::UnknownOption(String::new())
    );
}

#[test]
fn mount_spec_values_are_taken_verbatim() {
    let spec = MountSpec::parse("/a=/srv/x=y,cache-control=a%2Cb%2cc%2C%2C=").unwrap();
    assert_eq!((spec.prefix.as_str(), spec.docroot.as_str()), ("/a", "/srv/x=y"));
    assert_eq!(spec.cache_control.as_deref(), Some("a,b%2cc,,="));
    assert!(spec.sidecars && !spec.index && !spec.allow_dotfiles);
}

#[test]
fn budget_of_a_mount_without_throughput() {
    let limits = Limits {
        min_throughput_bytes_per_sec: 0,
        deadline_floor: Duration { secs: 0, nanos: 500 },
        ..Limits::default()
    };
    assert_eq!(limits.response_budget(99), Duration::from_secs(100));
    let short = Limits {
        deadline_floor: Duration { secs: 1, nanos: 1 },
        ..Limits::default()
    };
    assert_eq!(short.response_budget(0), Duration { secs: 1, nanos: 1 });
    let tight = Limits {
        deadline_floor: Duration { secs: 0, nanos: 1 },
        deadline_cap: Duration { secs: 0, nanos: 999_999_999 },
        ..Limits::default()
    };
    assert_eq!(tight.response_budget(0), Duration { secs: 0, nanos: 999_999_999 });
}

fn args(list: &[&str]) -> Vec<String> {
    list.iter().map(|a| a.to_string()).collect()
}

#[test]
fn arguments_set_address_mounts_and_limits() {
    let (bind, config) = parse_args(args(&[
        "--bind",
        "127.0.0.1:8080",
        "--mount",
        "/=/srv/site,index",
        "--inline-threshold",
        "1",
        "--min-throughput",
        "+2",
        "--deadline-floor-secs",
        "3",
        "--write-timeout-secs",
        "4",
        "--io-permits",
        "5",
        "--mount",
        "/a=/srv/a",
    ]))
    .unwrap();
    assert_eq!(bind, "127.0.0.1:8080");
    assert_eq!(config.mounts.len(), 2);
    assert!(config.mounts[0].index);
    assert_eq!(config.mounts[1].prefix, "/a");
    assert_eq!(
        config.limits,
        Limits {
            inline_threshold: 1,
            min_throughput_bytes_per_sec: 2,
            deadline_floor: Duration::from_secs(3),
            write_timeout: Duration::from_secs(4),
            io_permits: 5,
            ..Limits::default()
        }
    );
}

#[test]
fn refused_arguments_say_why() {
    let why = |list: &[&str]| parse_args(args(list)).unwrap_err();
    assert_eq!(why(&[]), "--bind is required");
    assert_eq!(why(&["--bind", "x"]), "at least one --mount PREFIX=DIR is required");
    assert_eq!(why(&["--bind"]), "--bind requires a value");
    assert_eq!(why(&["--verbose"]), "unknown flag \"--verbose\"");
    assert_eq!(
        why(&["--io-permits", "many"]),
        "expected a number, got \"many\""
    );
    assert_eq!(
        why(&["--mount", "/a"]),
        "mount spec must be PREFIX=DIR[,opts]: \"/a\""
    );
}

#[test]
fn numbers_have_64_bits() {
    assert_eq!(parse_u64("18446744073709551615").unwrap(), u64::MAX);
    assert_eq!(parse_u64("000").unwrap(), 0);
    for bad in ["", "+", "-1", "1 ", "0x1", "18446744073709551616", "++1"] {
        assert_eq!(
            parse_u64(bad).unwrap_err().message(),
            format!("expected a number, got {bad:?}")
        );
    }
}

#[test]
fn counters_bucket_by_status_class() {
    let mut c = Counters::default();
    for status in [200, 206, 301, 304, 400, 404, 416, 500, 503, 100, 600] {
        c.record_status(status);
    }
    c.add_bytes(7);
    c.add_bytes(u64::MAX);
    assert_eq!(
        c.snapshot(),
        vec![
            ("crenel_status_2xx_total", 2),
            ("crenel_status_3xx_total", 2),
            ("crenel_status_4xx_total", 3),
            ("crenel_status_5xx_total", 4),
            ("crenel_bytes_sent_total", 6),
            ("crenel_io_sheds_total", 0),
            ("crenel_deadline_aborts_total", 0),
            ("crenel_client_aborts_total", 0),
            ("crenel_io_faults_total", 0),
            ("crenel_root_repins_total", 0),
        ]
    );
}
