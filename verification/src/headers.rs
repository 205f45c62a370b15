//! Header-value synthesis: validators, media types and redirect locations.

use crate::numeral;
use crate::pipeline;
use crate::sidecar;
use crate::sidecar::Encoding;
use crate::text;
use vstd::prelude::*;
use vstd::slice::slice_subrange;
use vstd::string::*;
use vstd::utf8::*;

verus! {

/// The last second of the year 9999: the latest instant that an HTTP date can express.
pub const MAX_HTTP_DATE_UNIX_SECS: i64 = 253_402_300_799;

/// An instant of second granularity, counted from the Unix epoch.
#[derive(Debug, Clone, Copy, PartialEq, Eq, Structural)]
pub struct HttpTime {
    pub unix_secs: u64,
}

// ---- HTTP dates ----

/// The IMF-fixdate text of an instant, as `httpdate` writes it.
pub uninterp spec fn http_date_text(unix_secs: u64) -> Seq<char>;

/// The instant that a text denotes in one of the HTTP-date formats, as `httpdate` reads it.
pub uninterp spec fn http_date_instant(value: Seq<char>) -> Option<u64>;

/// A character that can stand in an IMF-fixdate.
pub open spec fn is_date_char(c: char) -> bool {
    'A' <= c <= 'Z' || 'a' <= c <= 'z' || '0' <= c <= '9' || c == ' ' || c == ',' || c == ':'
}

/// Wraps `httpdate::fmt_http_date`, which panics on instants past the year 9999. Its text is a
/// function of the instant, holds only letters, digits, spaces, commas and colons, and reads
/// back as the same instant.
#[verifier::external_body]
fn format_date(unix_secs: u64) -> (r: String)
    requires
        unix_secs <= MAX_HTTP_DATE_UNIX_SECS,
    ensures
        r@ == http_date_text(unix_secs),
        http_date_instant(r@) == Some(unix_secs),
        forall|i: int| 0 <= i < r@.len() ==> is_date_char(#[trigger] r@[i]),
{
    httpdate::fmt_http_date(std::time::UNIX_EPOCH + std::time::Duration::from_secs(unix_secs))
}

/// Wraps `httpdate::parse_http_date`: the instant that a text denotes, `None` when it is no
/// HTTP date. The result is a function of the text.
#[verifier::external_body]
fn read_date(value: &str) -> (r: Option<u64>)
    ensures
        r == http_date_instant(value@),
{
    let instant = httpdate::parse_http_date(value).ok()?;
    instant.duration_since(std::time::UNIX_EPOCH).ok().map(|since| since.as_secs())
}

/// A modification time within the window that HTTP dates can express.
pub open spec fn clamped_instant(mtime_sec: i64) -> u64 {
    if mtime_sec < 0 {
        0
    } else if mtime_sec > MAX_HTTP_DATE_UNIX_SECS {
        MAX_HTTP_DATE_UNIX_SECS as u64
    } else {
        mtime_sec as u64
    }
}

/// The `Last-Modified` value of a modification time.
pub open spec fn last_modified_text(mtime_sec: i64) -> Seq<char> {
    http_date_text(clamped_instant(mtime_sec))
}

/// The instant used for date comparisons: the modification time, clamped to the window from
/// the epoch to the end of 9999.
pub fn system_time_for(mtime_sec: i64) -> (r: HttpTime)
    ensures
        r.unix_secs == clamped_instant(mtime_sec),
        r.unix_secs <= MAX_HTTP_DATE_UNIX_SECS,
{
    let unix_secs: u64 = if mtime_sec < 0 {
        0
    } else if mtime_sec > MAX_HTTP_DATE_UNIX_SECS {
        MAX_HTTP_DATE_UNIX_SECS as u64
    } else {
        mtime_sec as u64
    };
    HttpTime { unix_secs }
}

/// `Last-Modified` value (IMF-fixdate). HTTP dates are second-granular, and modification times
/// outside their window are clamped to it. The value reads back as the clamped instant.
pub fn last_modified(mtime_sec: i64) -> (r: String)
    ensures
        r@ == last_modified_text(mtime_sec),
        http_date_instant(r@) == Some(clamped_instant(mtime_sec)),
        forall|i: int| 0 <= i < r@.len() ==> is_date_char(#[trigger] r@[i]),
{
    format_date(system_time_for(mtime_sec).unix_secs)
}

/// Parses an HTTP date in any of its three formats. `None` on garbage: a malformed date simply
/// fails the condition that it appears in.
pub fn parse_http_date(value: &str) -> (r: Option<HttpTime>)
    ensures
        match r {
            Some(t) => http_date_instant(value@) == Some(t.unix_secs),
            None => http_date_instant(value@) is None,
        },
{
    match read_date(value) {
        Some(unix_secs) => Some(HttpTime { unix_secs }),
        None => None,
    }
}

// ---- validators ----

/// A modification time in nanoseconds since the epoch.
pub open spec fn mtime_ns(mtime_sec: i64, mtime_nsec: i64) -> int {
    mtime_sec * 1_000_000_000 + mtime_nsec
}

/// The 128-bit two's complement of a number.
pub open spec fn twos_complement(n: int) -> nat {
    if n >= 0 {
        n as nat
    } else {
        (n + u128::MAX + 1) as nat
    }
}

/// The suffix that a validator of the given encoding carries.
pub open spec fn etag_suffix_text(encoding: Encoding) -> Seq<char> {
    match sidecar::etag_suffix_of(encoding) {
        Some(suffix) => suffix,
        None => Seq::empty(),
    }
}

/// The strong validator of a representation.
pub open spec fn etag_text(ns: int, len: u64, encoding: Encoding) -> Seq<char> {
    seq!['"'] + numeral::hex(twos_complement(ns)) + seq!['-'] + numeral::hex(len as nat)
        + etag_suffix_text(encoding) + seq!['"']
}

/// Strong ETag of a file snapshot: `"hex(mtime_ns)-hex(size)"`, with the suffix of the
/// encoding. Nanosecond granularity tells two versions of the same second and size apart;
/// times before the epoch are written in two's complement.
pub fn etag(mtime_sec: i64, mtime_nsec: i64, len: u64, encoding: Encoding) -> (r: String)
    ensures
        r@ == etag_text(mtime_ns(mtime_sec, mtime_nsec), len, encoding),
{
    let ns: i128 = mtime_sec as i128 * 1_000_000_000 + mtime_nsec as i128;
    let bits: u128 = if ns >= 0 {
        ns as u128
    } else {
        u128::MAX - (-(ns + 1)) as u128
    };
    let mut out: Vec<char> = Vec::new();
    out.push('"');
    numeral::push_hex(&mut out, bits);
    out.push('-');
    numeral::push_hex(&mut out, len as u128);
    let mut value = text::string_of(out.as_slice());
    if let Some(suffix) = encoding.etag_suffix() {
        value.append(suffix);
    }
    value.push('"');
    assert(value@ =~= etag_text(mtime_ns(mtime_sec, mtime_nsec), len, encoding));
    value
}

// ---- media types ----

pub open spec fn octet_stream() -> Seq<char> {
    "application/octet-stream"@
}

/// The media type of a lower-case file extension.
pub open spec fn mime_type(ext: Seq<char>) -> Seq<char> {
    if ext == "html"@ || ext == "htm"@ {
        "text/html; charset=utf-8"@
    } else if ext == "css"@ {
        "text/css; charset=utf-8"@
    } else if ext == "js"@ || ext == "mjs"@ {
        "text/javascript; charset=utf-8"@
    } else if ext == "txt"@ {
        "text/plain; charset=utf-8"@
    } else if ext == "md"@ {
        "text/markdown; charset=utf-8"@
    } else if ext == "csv"@ {
        "text/csv; charset=utf-8"@
    } else if ext == "xml"@ {
        "application/xml"@
    } else if ext == "json"@ {
        "application/json"@
    } else if ext == "map"@ {
        "application/json"@
    } else if ext == "webmanifest"@ {
        "application/manifest+json"@
    } else if ext == "ics"@ {
        "text/calendar; charset=utf-8"@
    } else if ext == "vtt"@ {
        "text/vtt; charset=utf-8"@
    } else if ext == "png"@ {
        "image/png"@
    } else if ext == "jpg"@ || ext == "jpeg"@ {
        "image/jpeg"@
    } else if ext == "gif"@ {
        "image/gif"@
    } else if ext == "webp"@ {
        "image/webp"@
    } else if ext == "avif"@ {
        "image/avif"@
    } else if ext == "svg"@ {
        "image/svg+xml"@
    } else if ext == "ico"@ {
        "image/x-icon"@
    } else if ext == "bmp"@ {
        "image/bmp"@
    } else if ext == "tif"@ || ext == "tiff"@ {
        "image/tiff"@
    } else if ext == "apng"@ {
        "image/apng"@
    } else if ext == "woff"@ {
        "font/woff"@
    } else if ext == "woff2"@ {
        "font/woff2"@
    } else if ext == "ttf"@ {
        "font/ttf"@
    } else if ext == "otf"@ {
        "font/otf"@
    } else if ext == "eot"@ {
        "application/vnd.ms-fontobject"@
    } else if ext == "mp3"@ {
        "audio/mpeg"@
    } else if ext == "ogg"@ || ext == "oga"@ {
        "audio/ogg"@
    } else if ext == "wav"@ {
        "audio/wav"@
    } else if ext == "flac"@ {
        "audio/flac"@
    } else if ext == "m4a"@ {
        "audio/mp4"@
    } else if ext == "aac"@ {
        "audio/aac"@
    } else if ext == "mp4"@ || ext == "m4v"@ {
        "video/mp4"@
    } else if ext == "webm"@ {
        "video/webm"@
    } else if ext == "ogv"@ {
        "video/ogg"@
    } else if ext == "mov"@ {
        "video/quicktime"@
    } else if ext == "avi"@ {
        "video/x-msvideo"@
    } else if ext == "ts"@ {
        "video/mp2t"@
    } else if ext == "gz"@ {
        "application/gzip"@
    } else if ext == "br"@ {
        "application/octet-stream"@
    } else if ext == "zst"@ {
        "application/zstd"@
    } else if ext == "zip"@ {
        "application/zip"@
    } else if ext == "tar"@ {
        "application/x-tar"@
    } else if ext == "7z"@ {
        "application/x-7z-compressed"@
    } else if ext == "pdf"@ {
        "application/pdf"@
    } else if ext == "wasm"@ {
        "application/wasm"@
    } else if ext == "rtf"@ {
        "application/rtf"@
    } else if ext == "eps"@ || ext == "ps"@ {
        "application/postscript"@
    } else if ext == "atom"@ {
        "application/atom+xml"@
    } else if ext == "rss"@ {
        "application/rss+xml"@
    } else if ext == "jsonld"@ {
        "application/ld+json"@
    } else if ext == "otml"@ {
        "application/octet-stream"@
    } else {
        octet_stream()
    }
}

/// The last segment of a path.
pub open spec fn final_segment(rel_path: Seq<char>) -> Seq<char> {
    rel_path.skip(text::find_last(rel_path, '/') + 1)
}

/// The extension of a file name: what follows its last dot, unless that dot begins the name.
pub open spec fn extension(name: Seq<char>) -> Option<Seq<char>> {
    let dot = text::find_last(name, '.');
    if dot <= 0 {
        None
    } else {
        Some(name.skip(dot + 1))
    }
}

/// The media type of a path: that of its extension, in whatever case it is written.
pub open spec fn content_type(rel_path: Seq<char>) -> Seq<char> {
    match extension(final_segment(rel_path)) {
        None => octet_stream(),
        Some(ext) => mime_type(text::ascii_lower_all(ext)),
    }
}

/// The media type of a lower-case extension. Media containers are opaque bytes here.
fn lookup_mime(ext: &[char]) -> (r: &'static str)
    ensures
        r@ == mime_type(ext@),
{
    if text::is_text(ext, "html") || text::is_text(ext, "htm") {
        "text/html; charset=utf-8"
    } else if text::is_text(ext, "css") {
        "text/css; charset=utf-8"
    } else if text::is_text(ext, "js") || text::is_text(ext, "mjs") {
        "text/javascript; charset=utf-8"
    } else if text::is_text(ext, "txt") {
        "text/plain; charset=utf-8"
    } else if text::is_text(ext, "md") {
        "text/markdown; charset=utf-8"
    } else if text::is_text(ext, "csv") {
        "text/csv; charset=utf-8"
    } else if text::is_text(ext, "xml") {
        "application/xml"
    } else if text::is_text(ext, "json") {
        "application/json"
    } else if text::is_text(ext, "map") {
        "application/json"
    } else if text::is_text(ext, "webmanifest") {
        "application/manifest+json"
    } else if text::is_text(ext, "ics") {
        "text/calendar; charset=utf-8"
    } else if text::is_text(ext, "vtt") {
        "text/vtt; charset=utf-8"
    } else if text::is_text(ext, "png") {
        "image/png"
    } else if text::is_text(ext, "jpg") || text::is_text(ext, "jpeg") {
        "image/jpeg"
    } else if text::is_text(ext, "gif") {
        "image/gif"
    } else if text::is_text(ext, "webp") {
        "image/webp"
    } else if text::is_text(ext, "avif") {
        "image/avif"
    } else if text::is_text(ext, "svg") {
        "image/svg+xml"
    } else if text::is_text(ext, "ico") {
        "image/x-icon"
    } else if text::is_text(ext, "bmp") {
        "image/bmp"
    } else if text::is_text(ext, "tif") || text::is_text(ext, "tiff") {
        "image/tiff"
    } else if text::is_text(ext, "apng") {
        "image/apng"
    } else if text::is_text(ext, "woff") {
        "font/woff"
    } else if text::is_text(ext, "woff2") {
        "font/woff2"
    } else if text::is_text(ext, "ttf") {
        "font/ttf"
    } else if text::is_text(ext, "otf") {
        "font/otf"
    } else if text::is_text(ext, "eot") {
        "application/vnd.ms-fontobject"
    } else if text::is_text(ext, "mp3") {
        "audio/mpeg"
    } else if text::is_text(ext, "ogg") || text::is_text(ext, "oga") {
        "audio/ogg"
    } else if text::is_text(ext, "wav") {
        "audio/wav"
    } else if text::is_text(ext, "flac") {
        "audio/flac"
    } else if text::is_text(ext, "m4a") {
        "audio/mp4"
    } else if text::is_text(ext, "aac") {
        "audio/aac"
    } else if text::is_text(ext, "mp4") || text::is_text(ext, "m4v") {
        "video/mp4"
    } else if text::is_text(ext, "webm") {
        "video/webm"
    } else if text::is_text(ext, "ogv") {
        "video/ogg"
    } else if text::is_text(ext, "mov") {
        "video/quicktime"
    } else if text::is_text(ext, "avi") {
        "video/x-msvideo"
    } else if text::is_text(ext, "ts") {
        "video/mp2t"
    } else if text::is_text(ext, "gz") {
        "application/gzip"
    } else if text::is_text(ext, "br") {
        "application/octet-stream"
    } else if text::is_text(ext, "zst") {
        "application/zstd"
    } else if text::is_text(ext, "zip") {
        "application/zip"
    } else if text::is_text(ext, "tar") {
        "application/x-tar"
    } else if text::is_text(ext, "7z") {
        "application/x-7z-compressed"
    } else if text::is_text(ext, "pdf") {
        "application/pdf"
    } else if text::is_text(ext, "wasm") {
        "application/wasm"
    } else if text::is_text(ext, "rtf") {
        "application/rtf"
    } else if text::is_text(ext, "eps") || text::is_text(ext, "ps") {
        "application/postscript"
    } else if text::is_text(ext, "atom") {
        "application/atom+xml"
    } else if text::is_text(ext, "rss") {
        "application/rss+xml"
    } else if text::is_text(ext, "jsonld") {
        "application/ld+json"
    } else if text::is_text(ext, "otml") {
        "application/octet-stream"
    } else {
        "application/octet-stream"
    }
}

/// Content-Type from the extension of the final path segment, compared in lower case. Unknown
/// extensions are `application/octet-stream`; content is never sniffed.
pub fn content_type_for(rel_path: &str) -> (r: &'static str)
    ensures
        r@ == content_type(rel_path@),
{
    let path = text::chars_of(rel_path);
    let start = text::find_last_end(path.as_slice(), '/');
    let name = slice_subrange(path.as_slice(), start, path.len());
    assert(name@ =~= final_segment(rel_path@));
    let after_dot = text::find_last_end(name, '.');
    if after_dot <= 1 {
        return "application/octet-stream";
    }
    let ext = slice_subrange(name, after_dot, name.len());
    assert(ext@ =~= name@.skip(after_dot as int));
    let mut lower: Vec<char> = Vec::new();
    let mut i: usize = 0;
    while i < ext.len()
        invariant
            i <= ext@.len(),
            lower@.len() == i,
            forall|j: int| 0 <= j < i ==> lower@[j] == text::ascii_lower(ext@[j]),
        decreases ext.len() - i,
    {
        lower.push(text::lower_char(ext[i]));
        i += 1;
    }
    assert(lower@ =~= text::ascii_lower_all(ext@));
    lookup_mime(lower.as_slice())
}

// ---- redirect locations ----

/// The bytes that a path segment carries as they are: letters, digits, `-`, `.`, `_` and `~`.
pub open spec fn is_unreserved(b: u8) -> bool {
    0x41 <= b <= 0x5a || 0x61 <= b <= 0x7a || 0x30 <= b <= 0x39 || b == 0x2d || b == 0x2e || b
        == 0x5f || b == 0x7e
}

pub open spec fn upper_hex_char(d: u8) -> char {
    if d < 10 {
        ('0' as u32 + d) as char
    } else {
        ('A' as u32 + d - 10) as char
    }
}

pub open spec fn encoded_byte(b: u8) -> Seq<char> {
    if is_unreserved(b) {
        seq![b as char]
    } else {
        seq!['%', upper_hex_char(b / 16), upper_hex_char(b % 16)]
    }
}

pub open spec fn encoded_bytes(bytes: Seq<u8>) -> Seq<char>
    decreases bytes.len(),
{
    if bytes.len() == 0 {
        Seq::empty()
    } else {
        encoded_bytes(bytes.drop_last()) + encoded_byte(bytes.last())
    }
}

/// A path segment, percent-encoded.
pub open spec fn encoded_segment(segment: Seq<char>) -> Seq<char> {
    encoded_bytes(encode_utf8(segment))
}

/// A path with a slash at its end.
pub open spec fn with_slash(path: Seq<char>) -> Seq<char> {
    if path.len() > 0 && path.last() == '/' {
        path
    } else {
        path.push('/')
    }
}

/// A prefix followed by encoded segments, each after a single slash.
pub open spec fn path_under(prefix: Seq<char>, segments: Seq<Seq<char>>) -> Seq<char>
    decreases segments.len(),
{
    if segments.len() == 0 {
        prefix
    } else {
        with_slash(path_under(prefix, segments.drop_last())) + encoded_segment(segments.last())
    }
}

pub open spec fn query_text(raw_query: Option<Seq<char>>) -> Seq<char> {
    match raw_query {
        Some(q) => seq!['?'] + q,
        None => Seq::empty(),
    }
}

/// The non-empty segments of a relative path.
pub open spec fn rel_segments(rel_path: Seq<char>) -> Seq<Seq<char>> {
    text::split(rel_path, '/').filter(|s: Seq<char>| s.len() > 0)
}

/// The trailing-slash form of a path below a mount, with its query.
pub open spec fn location(
    mount_prefix: Seq<char>,
    rel_path: Seq<char>,
    raw_query: Option<Seq<char>>,
) -> Seq<char> {
    with_slash(path_under(mount_prefix, rel_segments(rel_path))) + query_text(raw_query)
}

fn upper_hex(d: u8) -> (r: char)
    requires
        d < 16,
    ensures
        r == upper_hex_char(d),
{
    if d < 10 {
        (48u8 + d) as char
    } else {
        (55u8 + d) as char
    }
}

/// Percent-encodes all but the unreserved characters. Over-encoding is always safe in a path
/// segment.
fn encode_segment_into(out: &mut Vec<char>, segment: &str)
    ensures
        final(out)@ == old(out)@ + encoded_segment(segment@),
{
    let bytes = segment.as_bytes();
    let mut i: usize = 0;
    assert(out@ =~= old(out)@ + encoded_bytes(bytes@.take(0)));
    while i < bytes.len()
        invariant
            i <= bytes@.len(),
            out@ == old(out)@ + encoded_bytes(bytes@.take(i as int)),
        decreases bytes.len() - i,
    {
        let b = bytes[i];
        let ghost before = out@;
        if (0x41 <= b && b <= 0x5a) || (0x61 <= b && b <= 0x7a) || (0x30 <= b && b <= 0x39) || b
            == 0x2d || b == 0x2e || b == 0x5f || b == 0x7e {
            out.push(b as char);
        } else {
            out.push('%');
            out.push(upper_hex(b / 16));
            out.push(upper_hex(b % 16));
        }
        proof {
            assert(out@ =~= before + encoded_byte(b));
            assert(bytes@.take(i + 1).drop_last() =~= bytes@.take(i as int));
            assert(out@ =~= old(out)@ + encoded_bytes(bytes@.take(i + 1)));
        }
        i += 1;
    }
    assert(bytes@.take(i as int) =~= bytes@);
}

fn push_slash(out: &mut Vec<char>)
    ensures
        final(out)@ == with_slash(old(out)@),
{
    if out.len() == 0 || out[out.len() - 1] != '/' {
        out.push('/');
    }
}

/// Trailing-slash redirect `Location`, rebuilt from validated segments and never echoed from
/// raw request bytes. The raw query is kept verbatim after `?`.
pub fn redirect_location(mount_prefix: &str, rel_path: &str, raw_query: Option<&str>) -> (r: String)
    requires
        mount_prefix@.len() > 0,
        mount_prefix@[0] == '/',
    ensures
        r@ == location(
            mount_prefix@,
            rel_path@,
            match raw_query {
                Some(q) => Some(q@),
                None => None,
            },
        ),
{
    let mut out = text::chars_of(mount_prefix);
    let rel = text::chars_of(rel_path);
    let pieces = text::split_chars(rel.as_slice(), '/');
    let ghost all = text::split(rel_path@, '/');
    let ghost keep = |s: Seq<char>| s.len() > 0;
    let mut i: usize = 0;
    proof {
        reveal(Seq::filter);
        assert(all.take(0).filter(keep) =~= Seq::empty());
    }
    while i < pieces.len()
        invariant
            i <= pieces@.len(),
            text::views(pieces@) == all,
            keep == (|s: Seq<char>| s.len() > 0),
            out@ == path_under(mount_prefix@, all.take(i as int).filter(keep)),
        decreases pieces.len() - i,
    {
        let piece = pieces[i];
        assert(all[i as int] == piece@);
        let ghost done = all.take(i as int).filter(keep);
        proof {
            reveal(Seq::filter);
            assert(all.take(i + 1).drop_last() =~= all.take(i as int));
        }
        if piece.len() > 0 {
            push_slash(&mut out);
            let segment = text::string_of(piece);
            encode_segment_into(&mut out, segment.as_str());
            assert(done.push(piece@).drop_last() =~= done);
        }
        i += 1;
    }
    assert(all.take(i as int) =~= all);
    push_slash(&mut out);
    let mut value = text::string_of(out.as_slice());
    if let Some(q) = raw_query {
        value.push('?');
        value.append(q);
    }
    assert(value@ =~= location(
        mount_prefix@,
        rel_path@,
        match raw_query {
            Some(q) => Some(q@),
            None => None,
        },
    ));
    value
}

// ---- laws ----

/// Hex digits followed by something else can be read in one way only.
proof fn lemma_hex_cut(a: nat, b: nat, x: Seq<char>, y: Seq<char>)
    requires
        numeral::hex(a) + x == numeral::hex(b) + y,
        x.len() > 0,
        y.len() > 0,
        !numeral::is_hex_char(x[0]),
        !numeral::is_hex_char(y[0]),
    ensures
        a == b,
        x == y,
{
    let s = numeral::hex(a) + x;
    let m = numeral::hex(a).len() as int;
    let n = numeral::hex(b).len() as int;
    numeral::lemma_hex_chars(a);
    numeral::lemma_hex_chars(b);
    assert(s[m] == x[0]);
    assert((numeral::hex(b) + y)[n] == y[0]);
    if m < n {
        assert(s[m] == numeral::hex(b)[m]);
    } else if n < m {
        assert(s[n] == numeral::hex(a)[n]);
    }
    assert(numeral::hex(a) =~= s.take(m));
    assert(numeral::hex(b) =~= s.take(m));
    assert(x =~= s.skip(m));
    assert(y =~= s.skip(m));
    numeral::lemma_hex_injective(a, b);
}

/// The end of a validator: never empty, and never a hex digit at its start.
proof fn lemma_etag_end(a: Encoding, b: Encoding)
    ensures
        (etag_suffix_text(a) + seq!['"']).len() > 0,
        !numeral::is_hex_char((etag_suffix_text(a) + seq!['"'])[0]),
        etag_suffix_text(a) + seq!['"'] == etag_suffix_text(b) + seq!['"'] ==> a == b,
{
    reveal_strlit("-br");
    reveal_strlit("-zst");
    reveal_strlit("-gz");
    let x = etag_suffix_text(a) + seq!['"'];
    let y = etag_suffix_text(b) + seq!['"'];
    if x == y {
        assert(x.len() == y.len());
        assert(x[1] == y[1]);
    }
}

proof fn lemma_etag_cut(a: nat, b: nat, m: nat, n: nat, x: Seq<char>, y: Seq<char>)
    requires
        seq!['"'] + numeral::hex(a) + seq!['-'] + numeral::hex(m) + x == seq!['"'] + numeral::hex(b)
            + seq!['-'] + numeral::hex(n) + y,
        x.len() > 0,
        y.len() > 0,
        !numeral::is_hex_char(x[0]),
        !numeral::is_hex_char(y[0]),
    ensures
        a == b,
        m == n,
        x == y,
{
    let s = seq!['"'] + numeral::hex(a) + seq!['-'] + numeral::hex(m) + x;
    let t = seq!['-'] + (numeral::hex(m) + x);
    let u = seq!['-'] + (numeral::hex(n) + y);
    assert(s.skip(1) =~= numeral::hex(a) + t);
    assert(s.skip(1) =~= numeral::hex(b) + u);
    lemma_hex_cut(a, b, t, u);
    assert(t.skip(1) =~= numeral::hex(m) + x);
    assert(t.skip(1) =~= numeral::hex(n) + y);
    lemma_hex_cut(m, n, x, y);
}

/// Snapshots that differ in time, length or encoding have different validators.
pub proof fn law_etag_is_injective(
    mtime_sec: i64,
    mtime_nsec: i64,
    len: u64,
    encoding: Encoding,
    other_sec: i64,
    other_nsec: i64,
    other_len: u64,
    other_encoding: Encoding,
)
    requires
        etag_text(mtime_ns(mtime_sec, mtime_nsec), len, encoding) == etag_text(
            mtime_ns(other_sec, other_nsec),
            other_len,
            other_encoding,
        ),
    ensures
        mtime_ns(mtime_sec, mtime_nsec) == mtime_ns(other_sec, other_nsec),
        len == other_len,
        encoding == other_encoding,
{
    let a = twos_complement(mtime_ns(mtime_sec, mtime_nsec));
    let b = twos_complement(mtime_ns(other_sec, other_nsec));
    let x = etag_suffix_text(encoding) + seq!['"'];
    let y = etag_suffix_text(other_encoding) + seq!['"'];
    lemma_etag_end(encoding, other_encoding);
    lemma_etag_end(other_encoding, encoding);
    let s = etag_text(mtime_ns(mtime_sec, mtime_nsec), len, encoding);
    assert(s =~= seq!['"'] + numeral::hex(a) + seq!['-'] + numeral::hex(len as nat) + x);
    assert(s =~= seq!['"'] + numeral::hex(b) + seq!['-'] + numeral::hex(other_len as nat) + y);
    lemma_etag_cut(a, b, len as nat, other_len as nat, x, y);
}

/// Every time outside the window of HTTP dates has the `Last-Modified` text of the nearest one
/// inside.
pub proof fn law_last_modified_clamps(mtime_sec: i64)
    ensures
        mtime_sec < 0 ==> last_modified_text(mtime_sec) == last_modified_text(0),
        mtime_sec > MAX_HTTP_DATE_UNIX_SECS ==> last_modified_text(mtime_sec)
            == last_modified_text(MAX_HTTP_DATE_UNIX_SECS),
        clamped_instant(mtime_sec) <= MAX_HTTP_DATE_UNIX_SECS,
{
}

/// A character of an encoded path segment.
pub open spec fn is_encoded_char(c: char) -> bool {
    c == '%' || (c <= '\u{7f}' && is_unreserved(c as u8))
}

pub proof fn lemma_encoded_chars(bytes: Seq<u8>)
    ensures
        encoded_bytes(bytes).len() >= bytes.len(),
        forall|i: int|
            0 <= i < encoded_bytes(bytes).len() ==> is_encoded_char(
                #[trigger] encoded_bytes(bytes)[i],
            ),
    decreases bytes.len(),
{
    if bytes.len() > 0 {
        lemma_encoded_chars(bytes.drop_last());
    }
}

/// Decoding a run of bytes without `%` gives the same bytes.
pub proof fn lemma_decode_plain(bytes: Seq<u8>)
    requires
        !bytes.contains(0x25),
    ensures
        pipeline::percent_decoded(bytes) == Some(bytes),
    decreases bytes.len(),
{
    if bytes.len() > 0 {
        assert(bytes[0] != 0x25);
        let rest = bytes.skip(1);
        if rest.contains(0x25) {
            let k = choose|k: int| 0 <= k < rest.len() && rest[k] == 0x25;
            assert(bytes[k + 1] == 0x25);
        }
        lemma_decode_plain(rest);
        assert(seq![bytes[0]] + rest =~= bytes);
    } else {
        assert(bytes =~= Seq::empty());
    }
}

/// Two runs that decode, decode in a row.
pub proof fn lemma_decode_concat(a: Seq<u8>, b: Seq<u8>)
    requires
        pipeline::percent_decoded(a) is Some,
        pipeline::percent_decoded(b) is Some,
    ensures
        pipeline::percent_decoded(a + b) == Some(
            pipeline::percent_decoded(a).unwrap() + pipeline::percent_decoded(b).unwrap(),
        ),
    decreases a.len(),
{
    let x = pipeline::percent_decoded(a).unwrap();
    let y = pipeline::percent_decoded(b).unwrap();
    if a.len() == 0 {
        assert(a + b =~= b);
        assert(x + y =~= y);
    } else if a[0] == 0x25 {
        assert((a + b).skip(3) =~= a.skip(3) + b);
        lemma_decode_concat(a.skip(3), b);
        assert(pipeline::percent_decoded(a + b).unwrap() =~= x + y);
    } else {
        assert((a + b).skip(1) =~= a.skip(1) + b);
        lemma_decode_concat(a.skip(1), b);
        assert(pipeline::percent_decoded(a + b).unwrap() =~= x + y);
    }
}

proof fn lemma_decode_encoded_byte(b: u8)
    ensures
        pipeline::percent_decoded(encode_utf8(encoded_byte(b))) == Some(seq![b]),
{
    let chars = encoded_byte(b);
    assert(is_ascii_chars(chars));
    is_ascii_chars_encode_utf8(chars);
    let bytes = encode_utf8(chars);
    if is_unreserved(b) {
        assert(chars[0] as u8 == b);
        assert(bytes =~= seq![b]);
        lemma_decode_plain(bytes);
    } else {
        assert(chars[1] as u8 == bytes[1]);
        assert(chars[2] as u8 == bytes[2]);
        assert(bytes[0] == 0x25);
        assert(bytes.len() == 3);
        assert(pipeline::hex_digit_value(bytes[1]) == Some((b / 16) as u8));
        assert(pipeline::hex_digit_value(bytes[2]) == Some((b % 16) as u8));
        assert(bytes.skip(3) =~= Seq::empty());
        assert(pipeline::percent_decoded(bytes.skip(3)) == Some(Seq::<u8>::empty()));
        assert(((b / 16) * 16 + b % 16) as u8 == b);
        assert(seq![b] + Seq::<u8>::empty() =~= seq![b]);
    }
}

/// Percent-decoding undoes the encoding of a path segment.
pub proof fn law_encoding_decodes(segment: Seq<char>)
    ensures
        pipeline::percent_decoded(encode_utf8(encoded_segment(segment))) == Some(
            encode_utf8(segment),
        ),
{
    lemma_decode_encoded(encode_utf8(segment));
}

proof fn lemma_decode_encoded(bytes: Seq<u8>)
    ensures
        pipeline::percent_decoded(encode_utf8(encoded_bytes(bytes))) == Some(bytes),
    decreases bytes.len(),
{
    if bytes.len() == 0 {
        assert(encode_utf8(encoded_bytes(bytes)) =~= Seq::empty());
        assert(bytes =~= Seq::empty());
    } else {
        let shorter = bytes.drop_last();
        lemma_decode_encoded(shorter);
        lemma_decode_encoded_byte(bytes.last());
        text::lemma_utf8_concat(encoded_bytes(shorter), encoded_byte(bytes.last()));
        lemma_decode_concat(
            encode_utf8(encoded_bytes(shorter)),
            encode_utf8(encoded_byte(bytes.last())),
        );
        assert(shorter + seq![bytes.last()] =~= bytes);
    }
}

/// Every media type is printable ASCII.
pub proof fn law_media_types_are_printable(rel_path: Seq<char>)
    ensures
        text::is_printable(content_type(rel_path)),
{
    reveal_strlit("text/html; charset=utf-8");
    reveal_strlit("text/css; charset=utf-8");
    reveal_strlit("text/javascript; charset=utf-8");
    reveal_strlit("text/plain; charset=utf-8");
    reveal_strlit("text/markdown; charset=utf-8");
    reveal_strlit("text/csv; charset=utf-8");
    reveal_strlit("application/xml");
    reveal_strlit("application/json");
    reveal_strlit("application/manifest+json");
    reveal_strlit("text/calendar; charset=utf-8");
    reveal_strlit("text/vtt; charset=utf-8");
    reveal_strlit("image/png");
    reveal_strlit("image/jpeg");
    reveal_strlit("image/gif");
    reveal_strlit("image/webp");
    reveal_strlit("image/avif");
    reveal_strlit("image/svg+xml");
    reveal_strlit("image/x-icon");
    reveal_strlit("image/bmp");
    reveal_strlit("image/tiff");
    reveal_strlit("image/apng");
    reveal_strlit("font/woff");
    reveal_strlit("font/woff2");
    reveal_strlit("font/ttf");
    reveal_strlit("font/otf");
    reveal_strlit("application/vnd.ms-fontobject");
    reveal_strlit("audio/mpeg");
    reveal_strlit("audio/ogg");
    reveal_strlit("audio/wav");
    reveal_strlit("audio/flac");
    reveal_strlit("audio/mp4");
    reveal_strlit("audio/aac");
    reveal_strlit("video/mp4");
    reveal_strlit("video/webm");
    reveal_strlit("video/ogg");
    reveal_strlit("video/quicktime");
    reveal_strlit("video/x-msvideo");
    reveal_strlit("video/mp2t");
    reveal_strlit("application/gzip");
    reveal_strlit("application/octet-stream");
    reveal_strlit("application/zstd");
    reveal_strlit("application/zip");
    reveal_strlit("application/x-tar");
    reveal_strlit("application/x-7z-compressed");
    reveal_strlit("application/pdf");
    reveal_strlit("application/wasm");
    reveal_strlit("application/rtf");
    reveal_strlit("application/postscript");
    reveal_strlit("application/atom+xml");
    reveal_strlit("application/rss+xml");
    reveal_strlit("application/ld+json");
}

} // verus!
