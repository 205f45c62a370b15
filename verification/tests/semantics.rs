//! Response planning.

use crenel::headers;
use crenel::semantics::{
    directory_action, parse_range, parse_range_for_fuzzing, plan_response, plan_with_dates,
    BodyPlan, DateFacts, DirectoryAction, FileFacts, RangeOutcome, RequestFacts, ResponsePlan,
    ResponsePolicy,
};
use crenel::sidecar::Encoding;

const MTIME: i64 = 784_111_777;
const NSEC: i64 = 123_456_789;
const LEN: u64 = 1000;

fn facts() -> FileFacts {
    FileFacts {
        len: LEN,
        mtime_sec: MTIME,
        mtime_nsec: NSEC,
        encoding: Encoding::Identity,
        vary_applies: false,
        content_type: "text/css; charset=utf-8",
    }
}

fn etag() -> String {
    headers::etag(MTIME, NSEC, LEN, Encoding::Identity)
}

fn lm() -> String {
    headers::last_modified(MTIME)
}

fn plan(req: RequestFacts<'_>) -> ResponsePlan {
    plan_response(&req, &facts(), &ResponsePolicy::default())
}

fn header<'a>(plan: &'a ResponsePlan, name: &str) -> Option<&'a str> {
    plan.headers
        .iter()
        .find(|(n, _)| *n == name)
        .map(|(_, v)| v.as_str())
}

#[test]
fn plain_get_is_200_with_full_validator_set() {
    let p = plan(RequestFacts::default());
    assert_eq!((p.status, p.body), (200, BodyPlan::Whole));
    assert_eq!(header(&p, "etag").unwrap(), etag());
    assert_eq!(header(&p, "last-modified").unwrap(), lm());
    assert_eq!(header(&p, "content-length").unwrap(), "1000");
    assert_eq!(header(&p, "accept-ranges").unwrap(), "bytes");
    assert_eq!(header(&p, "x-content-type-options").unwrap(), "nosniff");
    assert_eq!(
        header(&p, "content-type").unwrap(),
        "text/css; charset=utf-8"
    );
    assert!(header(&p, "vary").is_none());
    assert!(header(&p, "content-encoding").is_none());
    assert!(header(&p, "cache-control").is_none());
}

#[test]
fn head_gets_identical_headers_and_no_body() {
    let p = plan(RequestFacts {
        head: true,
        ..Default::default()
    });
    assert_eq!((p.status, p.body), (200, BodyPlan::NoBody));
    assert_eq!(header(&p, "content-length").unwrap(), "1000");
}

#[test]
fn cache_control_policy_is_emitted_verbatim() {
    let policy = ResponsePolicy {
        cache_control: Some("public, max-age=31536000, immutable"),
    };
    let p = plan_response(&RequestFacts::default(), &facts(), &policy);
    assert_eq!(
        header(&p, "cache-control").unwrap(),
        "public, max-age=31536000, immutable"
    );
}

#[test]
fn if_match_star_passes() {
    let p = plan(RequestFacts {
        if_match: Some("*"),
        ..Default::default()
    });
    assert_eq!(p.status, 200);
}

#[test]
fn if_match_matching_strong_etag_passes() {
    let tag = etag();
    let p = plan(RequestFacts {
        if_match: Some(&tag),
        ..Default::default()
    });
    assert_eq!(p.status, 200);
}

#[test]
fn if_match_mismatch_is_412() {
    let p = plan(RequestFacts {
        if_match: Some("\"deadbeef-1\""),
        ..Default::default()
    });
    assert_eq!((p.status, p.body), (412, BodyPlan::NoBody));
}

#[test]
fn if_match_weak_tag_never_strong_matches() {
    let weak = format!("W/{}", etag());
    let p = plan(RequestFacts {
        if_match: Some(&weak),
        ..Default::default()
    });
    assert_eq!(p.status, 412);
}

#[test]
fn if_match_list_matches_any_member() {
    let list = format!("\"nope-1\", {}", etag());
    let p = plan(RequestFacts {
        if_match: Some(&list),
        ..Default::default()
    });
    assert_eq!(p.status, 200);
}

#[test]
fn ius_older_date_when_modified_is_412() {
    let p = plan(RequestFacts {
        if_unmodified_since: Some("Sun, 06 Nov 1994 08:49:36 GMT"),
        ..Default::default()
    });
    assert_eq!(p.status, 412);
}

#[test]
fn ius_equal_or_newer_date_passes() {
    for date in [lm().as_str(), "Mon, 07 Nov 1994 00:00:00 GMT"] {
        let p = plan(RequestFacts {
            if_unmodified_since: Some(date),
            ..Default::default()
        });
        assert_eq!(p.status, 200, "date {date:?}");
    }
}

#[test]
fn ius_malformed_date_fails_to_constrain() {
    let p = plan(RequestFacts {
        if_unmodified_since: Some("not a date"),
        ..Default::default()
    });
    assert_eq!(p.status, 200);
}

#[test]
fn if_match_present_masks_ius() {
    let tag = etag();
    let p = plan(RequestFacts {
        if_match: Some(&tag),
        if_unmodified_since: Some("Sun, 06 Nov 1994 08:49:36 GMT"),
        ..Default::default()
    });
    assert_eq!(p.status, 200);
}

#[test]
fn inm_matching_etag_is_304_with_validators_no_body() {
    let tag = etag();
    let p = plan(RequestFacts {
        if_none_match: Some(&tag),
        ..Default::default()
    });
    assert_eq!((p.status, p.body), (304, BodyPlan::NoBody));
    assert_eq!(header(&p, "etag").unwrap(), etag());
    assert_eq!(header(&p, "last-modified").unwrap(), lm());
    assert!(header(&p, "content-length").is_none());
    assert!(header(&p, "content-type").is_none());
}

#[test]
fn inm_weak_comparison_matches_weak_client_tag() {
    let weak = format!("W/{}", etag());
    let p = plan(RequestFacts {
        if_none_match: Some(&weak),
        ..Default::default()
    });
    assert_eq!(p.status, 304);
}

#[test]
fn inm_star_is_304() {
    let p = plan(RequestFacts {
        if_none_match: Some("*"),
        ..Default::default()
    });
    assert_eq!(p.status, 304);
}

#[test]
fn inm_mismatch_is_200() {
    let p = plan(RequestFacts {
        if_none_match: Some("\"deadbeef-1\""),
        ..Default::default()
    });
    assert_eq!(p.status, 200);
}

#[test]
fn ims_exact_match_is_304() {
    let date = lm();
    let p = plan(RequestFacts {
        if_modified_since: Some(&date),
        ..Default::default()
    });
    assert_eq!(p.status, 304);
}

#[test]
fn ims_newer_date_is_200_nginx_exact_semantics() {
    let p = plan(RequestFacts {
        if_modified_since: Some("Mon, 07 Nov 1994 00:00:00 GMT"),
        ..Default::default()
    });
    assert_eq!(p.status, 200);
}

#[test]
fn inm_mismatch_masks_ims_match() {
    let date = lm();
    let p = plan(RequestFacts {
        if_none_match: Some("\"deadbeef-1\""),
        if_modified_since: Some(&date),
        ..Default::default()
    });
    assert_eq!(p.status, 200);
}

#[test]
fn single_range_is_206_with_content_range() {
    let p = plan(RequestFacts {
        range: Some("bytes=200-499"),
        ..Default::default()
    });
    assert_eq!(
        (p.status, p.body),
        (
            206,
            BodyPlan::Range {
                offset: 200,
                len: 300
            }
        )
    );
    assert_eq!(header(&p, "content-range").unwrap(), "bytes 200-499/1000");
    assert_eq!(header(&p, "content-length").unwrap(), "300");
}

#[test]
fn head_with_range_plans_no_body() {
    let p = plan(RequestFacts {
        head: true,
        range: Some("bytes=0-9"),
        ..Default::default()
    });
    assert_eq!((p.status, p.body), (206, BodyPlan::NoBody));
}

#[test]
fn multi_range_is_ignored_full_200() {
    let p = plan(RequestFacts {
        range: Some("bytes=0-1,5-9"),
        ..Default::default()
    });
    assert_eq!((p.status, p.body), (200, BodyPlan::Whole));
}

#[test]
fn unsatisfiable_range_is_416_with_star_content_range() {
    let p = plan(RequestFacts {
        range: Some("bytes=5000-"),
        ..Default::default()
    });
    assert_eq!((p.status, p.body), (416, BodyPlan::NoBody));
    assert_eq!(header(&p, "content-range").unwrap(), "bytes */1000");
    assert!(header(&p, "etag").is_none());
}

#[test]
fn if_range_matching_strong_etag_applies_range() {
    let tag = etag();
    let p = plan(RequestFacts {
        range: Some("bytes=0-9"),
        if_range: Some(&tag),
        ..Default::default()
    });
    assert_eq!(p.status, 206);
}

#[test]
fn if_range_mismatch_downgrades_to_full_200() {
    let p = plan(RequestFacts {
        range: Some("bytes=0-9"),
        if_range: Some("\"deadbeef-1\""),
        ..Default::default()
    });
    assert_eq!((p.status, p.body), (200, BodyPlan::Whole));
}

#[test]
fn if_range_weak_etag_never_matches() {
    let weak = format!("W/{}", etag());
    let p = plan(RequestFacts {
        range: Some("bytes=0-9"),
        if_range: Some(&weak),
        ..Default::default()
    });
    assert_eq!(p.status, 200);
}

#[test]
fn if_range_exact_date_applies_range_other_dates_do_not() {
    let date = lm();
    let p = plan(RequestFacts {
        range: Some("bytes=0-9"),
        if_range: Some(&date),
        ..Default::default()
    });
    assert_eq!(p.status, 206);
    let p = plan(RequestFacts {
        range: Some("bytes=0-9"),
        if_range: Some("Mon, 07 Nov 1994 00:00:00 GMT"),
        ..Default::default()
    });
    assert_eq!(p.status, 200);
}

#[test]
fn conditionals_precede_range_412_and_304_have_no_range() {
    let tag = etag();
    let p = plan(RequestFacts {
        if_match: Some("\"deadbeef-1\""),
        range: Some("bytes=0-9"),
        ..Default::default()
    });
    assert_eq!((p.status, p.body), (412, BodyPlan::NoBody));
    let p = plan(RequestFacts {
        if_none_match: Some(&tag),
        range: Some("bytes=0-9"),
        ..Default::default()
    });
    assert_eq!((p.status, p.body), (304, BodyPlan::NoBody));
    assert!(header(&p, "content-range").is_none());
}

#[test]
fn sidecar_representation_uses_sidecar_snapshot_and_encoding() {
    let file = FileFacts {
        len: 400,
        encoding: Encoding::Brotli,
        vary_applies: true,
        ..facts()
    };
    let p = plan_response(&RequestFacts::default(), &file, &ResponsePolicy::default());
    assert_eq!(header(&p, "content-encoding").unwrap(), "br");
    assert_eq!(header(&p, "content-length").unwrap(), "400");
    assert!(header(&p, "etag").unwrap().ends_with("-br\""));
    let p = plan_response(
        &RequestFacts {
            range: Some("bytes=0-99"),
            ..Default::default()
        },
        &file,
        &ResponsePolicy::default(),
    );
    assert_eq!(header(&p, "content-range").unwrap(), "bytes 0-99/400");
}

#[test]
fn vary_is_on_every_response_when_negotiation_applies_incl_identity_and_304() {
    let file = FileFacts {
        vary_applies: true,
        ..facts()
    };
    let p = plan_response(&RequestFacts::default(), &file, &ResponsePolicy::default());
    assert_eq!(header(&p, "vary").unwrap(), "Accept-Encoding");
    let tag = headers::etag(MTIME, NSEC, LEN, Encoding::Identity);
    let p = plan_response(
        &RequestFacts {
            if_none_match: Some(&tag),
            ..Default::default()
        },
        &file,
        &ResponsePolicy::default(),
    );
    assert_eq!(header(&p, "vary").unwrap(), "Accept-Encoding");
    let p = plan_response(
        &RequestFacts {
            range: Some("bytes=9999-"),
            ..Default::default()
        },
        &file,
        &ResponsePolicy::default(),
    );
    assert_eq!(header(&p, "vary").unwrap(), "Accept-Encoding");
}

#[test]
fn directory_dispatch_matrix() {
    assert_eq!(directory_action(true, true), DirectoryAction::ServeIndex);
    assert_eq!(
        directory_action(false, true),
        DirectoryAction::RedirectAddSlash
    );
    assert_eq!(directory_action(true, false), DirectoryAction::Miss);
    assert_eq!(directory_action(false, false), DirectoryAction::Miss);
}

// ---- ranges ----

#[test]
fn range_parser_edges() {
    assert_eq!(
        parse_range("bytes=0-499", 1000),
        RangeOutcome::Satisfiable {
            offset: 0,
            len: 500
        }
    );
    assert_eq!(
        parse_range("bytes=500-", 1000),
        RangeOutcome::Satisfiable {
            offset: 500,
            len: 500
        }
    );
    assert_eq!(
        parse_range("bytes=-300", 1000),
        RangeOutcome::Satisfiable {
            offset: 700,
            len: 300
        }
    );
    assert_eq!(
        parse_range("bytes=-5000", 1000),
        RangeOutcome::Satisfiable {
            offset: 0,
            len: 1000
        }
    );
    assert_eq!(
        parse_range("bytes=900-99999", 1000),
        RangeOutcome::Satisfiable {
            offset: 900,
            len: 100
        }
    );
    assert_eq!(
        parse_range("bytes=1000-", 1000),
        RangeOutcome::Unsatisfiable
    );
    assert_eq!(parse_range("bytes=-0", 1000), RangeOutcome::Unsatisfiable);
    assert_eq!(
        parse_range("bytes=500-100", 1000),
        RangeOutcome::Unsatisfiable
    );
    assert_eq!(
        parse_range("bytes=99999999999999999999-", 1000),
        RangeOutcome::Unsatisfiable
    );
    assert_eq!(parse_range("bytes=0-", 0), RangeOutcome::Ignored);
    assert_eq!(parse_range("bytes=-5", 0), RangeOutcome::Ignored);
    assert_eq!(parse_range("bytes=0-1,5-9", 1000), RangeOutcome::Ignored);
    assert_eq!(parse_range("bytes=+3-9", 1000), RangeOutcome::Ignored);
    assert_eq!(parse_range("items=0-5", 1000), RangeOutcome::Ignored);
    assert_eq!(parse_range("bytes=", 1000), RangeOutcome::Ignored);
}

#[test]
fn range_parser_takes_space_and_either_spelling_of_the_unit() {
    let want = RangeOutcome::Satisfiable { offset: 2, len: 3 };
    for header in ["bytes=2-4", "Bytes=2-4", "  bytes= 2 - 4 ", "bytes=02-004"] {
        assert_eq!(parse_range(header, 10), want, "header {header:?}");
    }
    for header in ["BYTES=2-4", "bytes 2-4", "bytes=2", "bytes=-", "bytes=a-4", "bytes=2-b"] {
        assert_eq!(parse_range(header, 10), RangeOutcome::Ignored, "header {header:?}");
    }
    for header in ["bytes=10-x", "bytes=99999999999999999999-x", "bytes=10-1x"] {
        assert_eq!(parse_range(header, 10), RangeOutcome::Ignored, "header {header:?}");
    }
    assert_eq!(parse_range("bytes=5000-abc", 1000), RangeOutcome::Ignored);
    assert_eq!(parse_range("bytes=10-12", 10), RangeOutcome::Unsatisfiable);
}

#[test]
fn numbers_beyond_64_bits_saturate() {
    let len = u64::MAX;
    assert_eq!(
        parse_range("bytes=18446744073709551614-99999999999999999999", len),
        RangeOutcome::Satisfiable { offset: u64::MAX - 1, len: 1 }
    );
    assert_eq!(
        parse_range("bytes=18446744073709551616-", len),
        RangeOutcome::Unsatisfiable
    );
    assert_eq!(
        parse_range("bytes=-99999999999999999999", len),
        RangeOutcome::Satisfiable { offset: 0, len }
    );
}

#[test]
fn satisfiable_ranges_lie_inside() {
    for header in ["bytes=0-0", "bytes=-1", "bytes=9-", "bytes=3-99", "bytes=-99", "bytes=10-"] {
        let (counts, part) = parse_range_for_fuzzing(header, 10);
        assert!(counts);
        if let Some((offset, len)) = part {
            assert!(len > 0 && offset < 10 && offset + len <= 10);
        }
    }
    assert_eq!(parse_range_for_fuzzing("bytes=10-", 10), (true, None));
    assert_eq!(parse_range_for_fuzzing("items=1-", 10), (false, None));
}

// ---- plans ----

#[test]
fn plan_follows_the_dates_that_it_is_given() {
    let dates = |since: Option<u64>| DateFacts {
        last_modified: "some day".to_string(),
        if_modified_since: since.map(|unix_secs| headers::HttpTime { unix_secs }),
        if_unmodified_since: since.map(|unix_secs| headers::HttpTime { unix_secs }),
        if_range: None,
    };
    let since = RequestFacts {
        if_modified_since: Some("a date"),
        ..Default::default()
    };
    let policy = ResponsePolicy::default();
    let exact = plan_with_dates(&since, &dates(Some(MTIME as u64)), &facts(), &policy);
    assert_eq!(exact.status, 304);
    assert_eq!(header(&exact, "last-modified"), Some("some day"));
    let later = plan_with_dates(&since, &dates(Some(MTIME as u64 + 1)), &facts(), &policy);
    assert_eq!(later.status, 200);
    let unmodified = RequestFacts {
        if_unmodified_since: Some("a date"),
        ..Default::default()
    };
    let before = plan_with_dates(&unmodified, &dates(Some(MTIME as u64 - 1)), &facts(), &policy);
    assert_eq!(before.status, 412);
    let garbage = plan_with_dates(&unmodified, &dates(None), &facts(), &policy);
    assert_eq!(garbage.status, 200);
}

#[test]
fn plan_headers_come_in_order() {
    let file = FileFacts {
        encoding: Encoding::Gzip,
        vary_applies: true,
        ..facts()
    };
    let p = plan_response(
        &RequestFacts {
            range: Some("bytes=1-1"),
            ..Default::default()
        },
        &file,
        &ResponsePolicy {
            cache_control: Some("no-store"),
        },
    );
    let list: Vec<(&str, &str)> = p.headers.iter().map(|(n, v)| (*n, v.as_str())).collect();
    assert_eq!(
        list,
        vec![
            ("x-content-type-options", "nosniff"),
            ("vary", "Accept-Encoding"),
            ("content-type", "text/css; charset=utf-8"),
            ("etag", "\"ae1b981c3a4d715-3e8-gz\""),
            ("last-modified", "Sun, 06 Nov 1994 08:49:37 GMT"),
            ("accept-ranges", "bytes"),
            ("content-encoding", "gzip"),
            ("cache-control", "no-store"),
            ("content-length", "1"),
            ("content-range", "bytes 1-1/1000"),
        ]
    );
}

#[test]
fn head_mirrors_get_on_every_status() {
    let tag = etag();
    let cases = [
        RequestFacts::default(),
        RequestFacts { if_match: Some("x"), ..Default::default() },
        RequestFacts { if_none_match: Some(&tag), ..Default::default() },
        RequestFacts { range: Some("bytes=0-1"), ..Default::default() },
        RequestFacts { range: Some("bytes=1000-"), ..Default::default() },
    ];
    for req in cases {
        let get = plan(req);
        let head = plan(RequestFacts { head: true, ..req });
        assert_eq!((head.status, &head.headers), (get.status, &get.headers));
        assert_eq!(head.body, BodyPlan::NoBody);
    }
}

#[test]
fn empty_file_is_served_whole() {
    let file = FileFacts { len: 0, ..facts() };
    let p = plan_response(
        &RequestFacts {
            range: Some("bytes=0-"),
            ..Default::default()
        },
        &file,
        &ResponsePolicy::default(),
    );
    assert_eq!((p.status, p.body), (200, BodyPlan::Whole));
    assert_eq!(header(&p, "content-length"), Some("0"));
}

#[test]
fn plans_are_consistent_and_printable() {
    let tag = etag();
    let values = [None, Some("*"), Some(tag.as_str()), Some("bytes=3-"), Some("bytes=9999-")];
    for if_match in values {
        for if_none_match in values {
            for range in values {
                let req = RequestFacts {
                    if_match,
                    if_none_match,
                    range,
                    ..Default::default()
                };
                let p = plan(req);
                let part = |body| matches!(body, BodyPlan::Range { offset: 3, len: 997 });
                match p.status {
                    200 => assert_eq!(p.body, BodyPlan::Whole),
                    206 => assert!(part(p.body)),
                    304 | 412 | 416 => assert_eq!(p.body, BodyPlan::NoBody),
                    other => panic!("status {other}"),
                }
                for (_, value) in &p.headers {
                    assert!(value.bytes().all(|b| (0x20..0x7f).contains(&b)), "{value}");
                }
            }
        }
    }
}
