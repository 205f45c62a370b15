//! Sidecar negotiation.

use crenel::sidecar::{negotiate, Encoding};

#[test]
fn negotiation_orders_by_q_then_preference() {
    assert_eq!(negotiate(None), vec![]);
    assert_eq!(negotiate(Some("")), vec![]);
    assert_eq!(
        negotiate(Some("gzip, br")),
        vec![Encoding::Brotli, Encoding::Gzip]
    );
    assert_eq!(
        negotiate(Some("gzip;q=1, br;q=0.5")),
        vec![Encoding::Gzip, Encoding::Brotli]
    );
    assert_eq!(
        negotiate(Some("br;q=0, gzip")),
        vec![Encoding::Gzip]
    );
    assert_eq!(
        negotiate(Some("zstd, br, gzip")),
        vec![Encoding::Brotli, Encoding::Zstd, Encoding::Gzip]
    );
}

#[test]
fn wildcard_and_case_and_malformed_members() {
    assert_eq!(
        negotiate(Some("*")),
        vec![Encoding::Brotli, Encoding::Zstd, Encoding::Gzip]
    );
    assert_eq!(
        negotiate(Some("*;q=0, gzip;q=0.8")),
        vec![Encoding::Gzip]
    );
    assert_eq!(negotiate(Some("GZIP")), vec![Encoding::Gzip]);
    assert_eq!(negotiate(Some("x-gzip")), vec![Encoding::Gzip]);
    assert_eq!(negotiate(Some("br;q=nope, gzip")), vec![Encoding::Gzip]);
    assert_eq!(negotiate(Some("br;q=1.5")), vec![]);
    assert_eq!(negotiate(Some("deflate, identity")), vec![]);
}

#[test]
fn weights_have_up_to_three_decimals() {
    for (header, order) in [
        ("br;q=0.001", vec![Encoding::Brotli]),
        ("br;q=0.0001", vec![]),
        ("br;q=1.000", vec![Encoding::Brotli]),
        ("br;q=1.001", vec![]),
        ("br;q=", vec![]),
        ("br;q=.5", vec![]),
        ("br;q=0.", vec![]),
        ("br;q=2", vec![]),
        ("br;q=0.5x", vec![]),
        ("br; Q = 0.5 ", vec![Encoding::Brotli]),
        ("br;x", vec![]),
        ("br;x=1", vec![Encoding::Brotli]),
        ("br;q=0;q=1", vec![Encoding::Brotli]),
        ("gzip;q=0.12, zstd;q=0.123, br;q=0.1", vec![
            Encoding::Zstd,
            Encoding::Gzip,
            Encoding::Brotli,
        ]),
    ] {
        assert_eq!(negotiate(Some(header)), order, "header {header:?}");
    }
}

#[test]
fn the_last_member_for_an_encoding_counts() {
    assert_eq!(negotiate(Some("br, br;q=0")), vec![]);
    assert_eq!(negotiate(Some("gzip;q=0, x-gzip")), vec![Encoding::Gzip]);
    assert_eq!(negotiate(Some("br, br;q=bad")), vec![Encoding::Brotli]);
    assert_eq!(negotiate(Some("*, *;q=0")), vec![]);
    assert_eq!(negotiate(Some("br;q=0, *")), vec![Encoding::Zstd, Encoding::Gzip]);
    assert_eq!(negotiate(Some(" , ,gzip,, ")), vec![Encoding::Gzip]);
    assert_eq!(negotiate(Some("identity;q=0")), vec![]);
}

#[test]
fn idle_members_change_nothing() {
    let order = vec![Encoding::Gzip, Encoding::Brotli];
    assert_eq!(negotiate(Some("gzip,br;q=0.5")), order);
    for idle in ["identity;q=0", "Identity", "br;q=bad", "gzip;level", "deflate", " ", "**", ";q=1"] {
        for header in [
            format!("{idle},gzip,br;q=0.5"),
            format!("gzip,{idle},br;q=0.5"),
            format!("gzip,br;q=0.5,{idle}"),
        ] {
            assert_eq!(negotiate(Some(&header)), order, "header {header:?}");
        }
        assert_eq!(negotiate(Some(idle)), vec![], "header {idle:?}");
    }
}

#[test]
fn each_encoding_has_its_own_marks() {
    let marks = |e: Encoding| (e.file_suffix(), e.content_encoding(), e.etag_suffix());
    assert_eq!(marks(Encoding::Identity), (None, None, None));
    assert_eq!(marks(Encoding::Brotli), (Some(".br"), Some("br"), Some("-br")));
    assert_eq!(marks(Encoding::Zstd), (Some(".zst"), Some("zstd"), Some("-zst")));
    assert_eq!(marks(Encoding::Gzip), (Some(".gz"), Some("gzip"), Some("-gz")));
}
