//! Classification of request targets.

use crenel::pipeline::{
    classify, decode_once, decode_once_for_fuzzing, Candidate, Classification, Mount, MountError,
    Mounts, NotStaticReason, PolicyMiss, StructuralReject,
};

fn assets_only() -> Mounts {
    Mounts::new(vec![Mount::new("/assets", false).unwrap()]).unwrap()
}

fn root_and_assets() -> Mounts {
    Mounts::new(vec![
        Mount::new("/", false).unwrap(),
        Mount::new("/assets", false).unwrap(),
    ])
    .unwrap()
}

fn candidate(c: &Classification) -> &Candidate {
    match c {
        Classification::Candidate(c) => c,
        other => panic!("expected candidate, got {other:?}"),
    }
}

#[test]
fn plain_hit_under_mount() {
    let c = classify("GET", "/assets/app-abc123.js", &assets_only());
    let c = candidate(&c);
    assert_eq!(
        (c.mount, c.rel_path.as_str(), c.trailing_slash),
        (0, "app-abc123.js", false)
    );
}

#[test]
fn head_is_eligible_other_methods_are_not() {
    let mounts = assets_only();
    assert!(matches!(
        classify("HEAD", "/assets/a.js", &mounts),
        Classification::Candidate(_)
    ));
    for method in ["POST", "PUT", "DELETE", "OPTIONS", "PATCH", "get", "Get"] {
        assert_eq!(
            classify(method, "/assets/a.js", &mounts),
            Classification::NotStatic(NotStaticReason::MethodNotGetOrHead),
            "method {method} must not be static-eligible (case-sensitive per RFC 9110)"
        );
    }
}

#[test]
fn non_origin_form_targets_are_classified_not_guessed() {
    let mounts = assets_only();
    for target in ["*", "http://evil.example/assets/a.js", "", "assets/a.js"] {
        assert_eq!(
            classify("GET", target, &mounts),
            Classification::NotStatic(NotStaticReason::NonOriginForm),
            "target {target:?}"
        );
    }
}

#[test]
fn traversal_is_rejected_in_every_encoding() {
    let mounts = root_and_assets();
    for target in [
        "/assets/../etc/passwd",
        "/assets/%2e%2e/etc/passwd",
        "/assets/..%2fetc%2fpasswd",
        "/assets%2f..%2fetc%2fpasswd",
        "/..",
        "/../",
        "/a/../../b",
        "/%2e%2e",
        "/assets/.%2e/x",
    ] {
        assert_eq!(
            classify("GET", target, &mounts),
            Classification::Reject(StructuralReject::DotDotComponent),
            "target {target:?}"
        );
    }
}

#[test]
fn rejects_are_mount_independent_no_oracle() {
    let mounts = assets_only();
    assert_eq!(
        classify("GET", "/not-a-mount/../x", &mounts),
        Classification::Reject(StructuralReject::DotDotComponent)
    );
    assert_eq!(
        classify("GET", "/not-a-mount/%00", &mounts),
        Classification::Reject(StructuralReject::NulByte)
    );
}

#[test]
fn nul_control_utf8_and_escape_screens() {
    let mounts = assets_only();
    assert_eq!(
        classify("GET", "/assets/a%00.js", &mounts),
        Classification::Reject(StructuralReject::NulByte)
    );
    for target in ["/assets/a%0d%0ax", "/assets/a%09b", "/assets/a%7fb"] {
        assert_eq!(
            classify("GET", target, &mounts),
            Classification::Reject(StructuralReject::ControlByte),
            "target {target:?}"
        );
    }
    assert_eq!(
        classify("GET", "/assets/a%ff.js", &mounts),
        Classification::Reject(StructuralReject::NotUtf8)
    );
    for target in ["/assets/a%zz", "/assets/a%4", "/assets/a%"] {
        assert_eq!(
            classify("GET", target, &mounts),
            Classification::Reject(StructuralReject::InvalidEscape),
            "target {target:?}"
        );
    }
}

#[test]
fn off_by_slash_cannot_match_a_mount() {
    let mounts = assets_only();
    assert_eq!(
        classify("GET", "/assets../secret", &mounts),
        Classification::NotStatic(NotStaticReason::NoMountMatched)
    );
    assert_eq!(
        classify("GET", "/assetsx/y", &mounts),
        Classification::NotStatic(NotStaticReason::NoMountMatched)
    );
}

#[test]
fn duplicate_slash_merge_and_interior_dot_drop_are_pinned() {
    let mounts = assets_only();
    let c = classify("GET", "//assets///sub//app.js", &mounts);
    assert_eq!(candidate(&c).rel_path, "sub/app.js");
    let c = classify("GET", "/./assets/./sub/./app.js", &mounts);
    assert_eq!(candidate(&c).rel_path, "sub/app.js");
    let c = classify("GET", "/assets/%2e/app.js", &mounts);
    assert_eq!(candidate(&c).rel_path, "app.js");
}

#[test]
fn trailing_slash_flag_survives_normalization() {
    let mounts = assets_only();
    assert!(candidate(&classify("GET", "/assets/dir/", &mounts)).trailing_slash);
    assert!(!candidate(&classify("GET", "/assets/dir", &mounts)).trailing_slash);
    let c = classify("GET", "/assets/", &mounts);
    let c = candidate(&c);
    assert_eq!((c.rel_path.as_str(), c.trailing_slash), ("", true));
    let c = classify("GET", "/assets", &mounts);
    let c = candidate(&c);
    assert_eq!((c.rel_path.as_str(), c.trailing_slash), ("", false));
}

#[test]
fn query_splits_on_raw_question_mark_only() {
    let mounts = assets_only();
    let c = classify("GET", "/assets/app.js?v=123&x=%2e%2e", &mounts);
    assert_eq!(candidate(&c).rel_path, "app.js");
    let c = classify("GET", "/assets/app%3Fv=1.js", &mounts);
    assert_eq!(candidate(&c).rel_path, "app?v=1.js");
}

#[test]
fn encoded_slash_behaves_as_separator_in_the_one_pipeline() {
    let mounts = assets_only();
    let a = classify("GET", "/assets/sub%2Fapp.js", &mounts);
    let b = classify("GET", "/assets/sub/app.js", &mounts);
    assert_eq!(a, b);
    assert_eq!(candidate(&a).rel_path, "sub/app.js");
    let a = classify("GET", "/%61ssets/app.js", &mounts);
    let b = classify("GET", "/assets/app.js", &mounts);
    assert_eq!(
        a, b,
        "encoded and literal mount spellings must classify identically"
    );
}

#[test]
fn dotfiles_are_a_policy_miss_not_a_reject() {
    let mounts = root_and_assets();
    assert_eq!(
        classify("GET", "/.well-known/acme-challenge/tok", &mounts),
        Classification::Miss {
            mount: 0,
            reason: PolicyMiss::DotfileDenied
        }
    );
    assert_eq!(
        classify("GET", "/assets/.hidden", &mounts),
        Classification::Miss {
            mount: 1,
            reason: PolicyMiss::DotfileDenied
        }
    );
    assert_eq!(
        classify("GET", "/assets/sub/.git/config", &mounts),
        Classification::Miss {
            mount: 1,
            reason: PolicyMiss::DotfileDenied
        }
    );
    let permissive = Mounts::new(vec![Mount::new("/assets", true).unwrap()]).unwrap();
    assert!(matches!(
        classify("GET", "/assets/.hidden", &permissive),
        Classification::Candidate(_)
    ));
}

#[test]
fn longest_prefix_wins_and_matching_is_case_sensitive() {
    let mounts = root_and_assets();
    assert_eq!(
        candidate(&classify("GET", "/assets/a.js", &mounts)).mount,
        1
    );
    assert_eq!(candidate(&classify("GET", "/other/page", &mounts)).mount, 0);
    let strict = assets_only();
    assert_eq!(
        classify("GET", "/ASSETS/a.js", &strict),
        Classification::NotStatic(NotStaticReason::NoMountMatched)
    );
}

#[test]
fn candidate_rel_path_invariants_hold() {
    let mounts = root_and_assets();
    for target in [
        "/assets/a/b/c.js",
        "/assets//x/./y.png",
        "/deep/nested/path/file.woff2",
        "/assets/%D0%BF%D1%80%D0%B8%D0%B2%D0%B5%D1%82.js",
    ] {
        if let Classification::Candidate(c) = classify("GET", target, &mounts) {
            assert!(!c.rel_path.starts_with('/'), "{target}");
            for seg in c.rel_path.split('/').filter(|s| !s.is_empty()) {
                assert_ne!(seg, ".");
                assert_ne!(seg, "..");
                assert!(seg.bytes().all(|b| b >= 0x20 && b != 0x7f), "{target}");
            }
            assert!(!c.rel_path.contains("//"), "{target}");
        } else {
            panic!("expected candidate for {target}");
        }
    }
}

// ---- decoding and mounts ----

#[test]
fn decode_once_handles_boundaries() {
    assert_eq!(decode_once(b"abc").unwrap(), b"abc");
    assert_eq!(decode_once(b"%41").unwrap(), b"A");
    assert_eq!(decode_once(b"%4a%4A").unwrap(), b"JJ");
    assert_eq!(decode_once(b"a%"), Err(StructuralReject::InvalidEscape));
    assert_eq!(decode_once(b"a%4"), Err(StructuralReject::InvalidEscape));
    assert_eq!(decode_once(b"a%zz"), Err(StructuralReject::InvalidEscape));
    assert_eq!(decode_once(b"%2541").unwrap(), b"%41");
}

#[test]
fn mount_prefix_normalization() {
    assert_eq!(Mount::new("/", false).unwrap().prefix(), "/");
    assert_eq!(Mount::new("/assets/", false).unwrap().prefix(), "/assets");
    assert_eq!(Mount::new("//a//b/", false).unwrap().prefix(), "/a/b");
    assert!(matches!(
        Mount::new("assets", false),
        Err(MountError::NotAbsolute(_))
    ));
    assert!(matches!(
        Mount::new("/a/../b", false),
        Err(MountError::HostileSegment(_))
    ));
    assert!(matches!(
        Mount::new("/a%2f", false),
        Err(MountError::HostileSegment(_))
    ));
    assert!(matches!(
        Mount::new("/a?b", false),
        Err(MountError::HostileSegment(_))
    ));
}

#[test]
fn duplicate_mounts_rejected() {
    let a = Mount::new("/assets", false).unwrap();
    let b = Mount::new("/assets/", true).unwrap();
    assert!(matches!(
        Mounts::new(vec![a, b]),
        Err(MountError::Duplicate(_))
    ));
}

#[test]
fn decoding_never_grows_its_input() {
    for input in [&b""[..], b"%41%42", b"plain", b"%", b"a%2"] {
        match decode_once_for_fuzzing(input) {
            Ok(out) => assert!(out.len() <= input.len()),
            Err(e) => assert_eq!(e, StructuralReject::InvalidEscape),
        }
    }
    assert_eq!(decode_once_for_fuzzing(b"%C3%A9").unwrap(), vec![0xc3, 0xa9]);
}

#[test]
fn hex_digits_are_read_in_either_case_and_nothing_else() {
    assert_eq!(decode_once(b"%0f%F0%aB").unwrap(), vec![0x0f, 0xf0, 0xab]);
    for bad in [&b"%g0"[..], b"%0g", b"%/0", b"%:0", b"%@0", b"%`0", b"% 0"] {
        assert_eq!(decode_once(bad), Err(StructuralReject::InvalidEscape));
    }
}

#[test]
fn nul_is_reported_before_other_controls_and_both_before_encoding() {
    let mounts = assets_only();
    assert_eq!(
        classify("GET", "/assets/%01%00%ff", &mounts),
        Classification::Reject(StructuralReject::NulByte)
    );
    assert_eq!(
        classify("GET", "/assets/%01%ff", &mounts),
        Classification::Reject(StructuralReject::ControlByte)
    );
}

#[test]
fn mount_table_reports_what_it_holds() {
    let mounts = root_and_assets();
    assert_eq!((mounts.len(), mounts.is_empty()), (2, false));
    assert_eq!(mounts.get(1).prefix(), "/assets");
    assert!(!mounts.get(1).allow_dotfiles());
    let none = Mounts::new(Vec::new()).unwrap();
    assert!(none.is_empty());
    assert_eq!(
        classify("GET", "/", &none),
        Classification::NotStatic(NotStaticReason::NoMountMatched)
    );
}

#[test]
fn mount_order_does_not_matter() {
    let nested = |prefixes: [&str; 3]| {
        Mounts::new(prefixes.iter().map(|p| Mount::new(p, false).unwrap()).collect()).unwrap()
    };
    let a = nested(["/", "/assets", "/assets/deep"]);
    let b = nested(["/assets/deep", "/", "/assets"]);
    for (target, prefix, rel) in [
        ("/assets/deep/x", "/assets/deep", "x"),
        ("/assets/x", "/assets", "x"),
        ("/x", "/", "x"),
    ] {
        for mounts in [&a, &b] {
            let found = classify("GET", target, mounts);
            let found = candidate(&found);
            assert_eq!(mounts.get(found.mount).prefix(), prefix);
            assert_eq!(found.rel_path, rel);
        }
    }
}

#[test]
fn normalized_prefix_is_accepted_unchanged() {
    for prefix in ["/", "/assets/", "//a//b/", "/\u{e9}t\u{e9}"] {
        let once = Mount::new(prefix, true).unwrap();
        let twice = Mount::new(once.prefix(), true).unwrap();
        assert_eq!(once.prefix(), twice.prefix());
    }
}

#[test]
fn cloned_mounts_classify_alike() {
    let mounts = root_and_assets();
    let copy = mounts.clone();
    for target in ["/assets/a.js", "/x/", "/..", "/assets/.git"] {
        assert_eq!(classify("GET", target, &mounts), classify("GET", target, &copy));
    }
}

#[test]
fn mount_errors_quote_the_prefix() {
    let message = |r: Result<Mount, MountError>| r.unwrap_err().message();
    assert_eq!(
        message(Mount::new("as\"sets", false)),
        "mount prefix must start with '/': \"as\\\"sets\""
    );
    assert_eq!(
        message(Mount::new("/a#b", false)),
        "mount prefix contains a forbidden segment or byte (., .., %, ?, #, control): \"/a#b\""
    );
    let a = Mount::new("/a", false).unwrap();
    let b = Mount::new("/a/", false).unwrap();
    assert_eq!(
        Mounts::new(vec![a, b]).unwrap_err().message(),
        "duplicate mount prefix after normalization: \"/a\""
    );
}
