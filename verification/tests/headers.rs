//! Validators, media types and redirect locations.

use crenel::headers::{
    content_type_for, etag, last_modified, parse_http_date, redirect_location, system_time_for,
    HttpTime, MAX_HTTP_DATE_UNIX_SECS,
};
use crenel::pipeline::{classify, Classification, Mount, Mounts};
use crenel::sidecar::Encoding;

#[test]
fn etag_is_ns_granular_and_encoding_suffixed() {
    let base = etag(1_700_000_000, 123_456_789, 4096, Encoding::Identity);
    let same_second_later = etag(1_700_000_000, 123_456_790, 4096, Encoding::Identity);
    assert_ne!(base, same_second_later);
    assert!(base.starts_with('"') && base.ends_with('"'));
    let br = etag(1_700_000_000, 123_456_789, 4096, Encoding::Brotli);
    assert!(br.ends_with("-br\""));
    assert_ne!(base, br);
}

#[test]
fn pre_epoch_mtime_is_deterministic() {
    let a = etag(-5, 0, 10, Encoding::Identity);
    let b = etag(-5, 0, 10, Encoding::Identity);
    assert_eq!(a, b);
    assert_eq!(last_modified(-5), last_modified(0));
}

#[test]
fn hostile_extreme_mtimes_never_panic() {
    for mtime in [i64::MAX, i64::MIN, MAX_HTTP_DATE_UNIX_SECS + 1] {
        let _ = last_modified(mtime);
        let _ = system_time_for(mtime);
    }
    assert_eq!(
        last_modified(i64::MAX),
        last_modified(MAX_HTTP_DATE_UNIX_SECS)
    );
    assert_ne!(
        etag(i64::MAX, 0, 10, Encoding::Identity),
        etag(MAX_HTTP_DATE_UNIX_SECS, 0, 10, Encoding::Identity)
    );
}

#[test]
fn http_date_roundtrip_and_three_formats() {
    let lm = last_modified(784_111_777);
    assert_eq!(lm, "Sun, 06 Nov 1994 08:49:37 GMT");
    let t = parse_http_date(&lm).unwrap();
    assert_eq!(t, system_time_for(784_111_777));
    assert_eq!(
        parse_http_date("Sunday, 06-Nov-94 08:49:37 GMT").unwrap(),
        t
    );
    assert_eq!(parse_http_date("Sun Nov  6 08:49:37 1994").unwrap(), t);
    assert!(parse_http_date("yesterday-ish").is_none());
}

#[test]
fn content_type_table_edges() {
    assert_eq!(
        content_type_for("app-abc123.js"),
        "text/javascript; charset=utf-8"
    );
    assert_eq!(content_type_for("a/b/style.CSS"), "text/css; charset=utf-8");
    assert_eq!(content_type_for("archive.tar.gz"), "application/gzip");
    assert_eq!(content_type_for("font.woff2"), "font/woff2");
    assert_eq!(content_type_for("clip.mp4"), "video/mp4");
    assert_eq!(content_type_for(".env"), "application/octet-stream");
    assert_eq!(content_type_for("noext"), "application/octet-stream");
    assert_eq!(content_type_for("weird.zzz"), "application/octet-stream");
    assert_eq!(content_type_for(""), "application/octet-stream");
}

#[test]
fn redirect_location_is_reencoded_and_single_rooted() {
    assert_eq!(redirect_location("/assets", "docs", None), "/assets/docs/");
    assert_eq!(
        redirect_location("/", "a b/c%d", Some("x=1&y=2")),
        "/a%20b/c%25d/?x=1&y=2"
    );
    let loc = redirect_location("/", "evil\r\nSet-Cookie: x", None);
    assert!(!loc.contains('\r') && !loc.contains('\n'));
    assert_eq!(loc, "/evil%0D%0ASet-Cookie%3A%20x/");
    assert_eq!(redirect_location("/", "", None), "/");
    assert!(!redirect_location("/", "host.evil", None).starts_with("//"));
}

#[test]
fn etag_is_hex_of_time_and_length() {
    assert_eq!(etag(0, 0, 0, Encoding::Identity), "\"0-0\"");
    assert_eq!(etag(0, 255, 4096, Encoding::Gzip), "\"ff-1000-gz\"");
    assert_eq!(etag(1, 0, u64::MAX, Encoding::Zstd), "\"3b9aca00-ffffffffffffffff-zst\"");
    assert_eq!(
        etag(0, -1, 10, Encoding::Identity),
        "\"ffffffffffffffffffffffffffffffff-a\""
    );
    assert_eq!(
        etag(-5, 0, 10, Encoding::Identity),
        "\"fffffffffffffffffffffffed5fa0e00-a\""
    );
}

#[test]
fn etags_tell_snapshots_apart() {
    let mut seen: Vec<String> = Vec::new();
    for sec in [-1, 0, 1, i64::MAX] {
        for len in [0, 1, 16] {
            for encoding in [Encoding::Identity, Encoding::Brotli, Encoding::Zstd, Encoding::Gzip] {
                let tag = etag(sec, 7, len, encoding);
                assert!(!seen.contains(&tag), "{tag} twice");
                seen.push(tag);
            }
        }
    }
}

#[test]
fn times_are_clamped_to_the_window_of_http_dates() {
    assert_eq!(system_time_for(-1), HttpTime { unix_secs: 0 });
    assert_eq!(system_time_for(17), HttpTime { unix_secs: 17 });
    assert_eq!(system_time_for(i64::MAX), HttpTime { unix_secs: 253_402_300_799 });
    assert_eq!(last_modified(i64::MIN), "Thu, 01 Jan 1970 00:00:00 GMT");
    assert_eq!(last_modified(i64::MAX), "Fri, 31 Dec 9999 23:59:59 GMT");
}

#[test]
fn last_modified_reads_back() {
    for sec in [0, 1, 951_782_400, 4_107_542_400, 253_402_300_799] {
        let text = last_modified(sec);
        assert_eq!(parse_http_date(&text), Some(system_time_for(sec)));
        assert!(text.bytes().all(|b| b.is_ascii_alphanumeric() || b" ,:".contains(&b)));
    }
    assert_eq!(parse_http_date("Thu, 01 Jan 1970 00:00:60 GMT"), None);
    assert_eq!(parse_http_date(""), None);
}

#[test]
fn extensions_are_those_of_the_final_segment() {
    assert_eq!(content_type_for("a.js/b"), "application/octet-stream");
    assert_eq!(content_type_for("a/.html"), "application/octet-stream");
    assert_eq!(content_type_for("a/b.HTM"), "text/html; charset=utf-8");
    assert_eq!(content_type_for("x.jsonld"), "application/ld+json");
    assert_eq!(content_type_for("x."), "application/octet-stream");
    assert_eq!(content_type_for("x.\u{e9}"), "application/octet-stream");
    assert_eq!(content_type_for("site.webmanifest"), "application/manifest+json");
    assert_eq!(content_type_for("SITE.WebManifest"), "application/manifest+json");
    assert_eq!(content_type_for("site.webmanifests"), "application/octet-stream");
    assert_eq!(content_type_for("..png"), "image/png");
}

#[test]
fn encoding_covers_every_byte() {
    assert_eq!(
        redirect_location("/", "az AZ09-._~!\u{e9}\u{7f}", None),
        "/az%20AZ09-._~%21%C3%A9%7F/"
    );
    assert_eq!(redirect_location("/a", "//b//c/", Some("")), "/a/b/c/?");
}

#[test]
fn redirects_land_on_the_same_path() {
    let mounts = Mounts::new(vec![
        Mount::new("/", false).unwrap(),
        Mount::new("/as sets/\u{e9}", false).unwrap(),
    ])
    .unwrap();
    for target in [
        "/docs",
        "/a%20b/%3Fq/%25",
        "/as%20sets/%C3%A9",
        "/as%20sets/%C3%A9/sub%2Fdir?x=/../y",
        "/",
    ] {
        let Classification::Candidate(first) = classify("GET", target, &mounts) else {
            panic!("expected candidate for {target}");
        };
        let query = target.split_once('?').map(|(_, q)| q);
        let location = redirect_location(mounts.get(first.mount).prefix(), &first.rel_path, query);
        assert!(location.starts_with('/') && !location.starts_with("//"));
        let again = classify("GET", &encode_unicode(&location), &mounts);
        let Classification::Candidate(second) = again else {
            panic!("expected candidate for {location}");
        };
        assert_eq!((second.mount, &second.rel_path), (first.mount, &first.rel_path));
        assert!(second.trailing_slash);
    }
}

fn encode_unicode(location: &str) -> String {
    location
        .bytes()
        .map(|b| if b < 0x80 { (b as char).to_string() } else { format!("%{b:02X}") })
        .collect()
}

#[test]
fn media_types_are_printable() {
    for name in ["a.html", "a.svg", "a.7z", "a.eot", "a.woff2", "a", "a.zzz", "\u{1}.\u{2}"] {
        let value = content_type_for(name);
        assert!(value.bytes().all(|b| (0x20..0x7f).contains(&b)), "{value}");
    }
}
