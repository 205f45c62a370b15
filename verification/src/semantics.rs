//! Response planning: request facts, file facts and mount policy become a complete response
//! plan with a status, headers and a body range.
//!
//! Conditions are evaluated in the order If-Match, If-Unmodified-Since, If-None-Match,
//! If-Modified-Since, then Range behind If-Range. A multi-range or malformed `Range` is ignored
//! and the whole representation is served; only a well-formed range that selects nothing is
//! answered 416.

use crate::headers;
use crate::headers::HttpTime;
use crate::numeral;
use crate::sidecar;
use crate::sidecar::Encoding;
use crate::text;
use vstd::prelude::*;
use vstd::string::*;

verus! {

/// The conditional and range request headers, extracted by the HTTP layer.
#[derive(Debug, Clone, Copy)]
pub struct RequestFacts<'a> {
    /// HEAD instead of GET: the same status and headers, and no body.
    pub head: bool,
    pub if_match: Option<&'a str>,
    pub if_none_match: Option<&'a str>,
    pub if_modified_since: Option<&'a str>,
    pub if_unmodified_since: Option<&'a str>,
    pub if_range: Option<&'a str>,
    pub range: Option<&'a str>,
}

/// The snapshot of the representation that is sent: that of the sidecar when one was selected.
#[derive(Debug, Clone, Copy)]
pub struct FileFacts {
    pub len: u64,
    pub mtime_sec: i64,
    pub mtime_nsec: i64,
    /// The encoding of these bytes.
    pub encoding: Encoding,
    /// Whether sidecar negotiation applies to the mount; if so, every response varies by
    /// `Accept-Encoding`.
    pub vary_applies: bool,
    /// The media type of the path that was asked for, not of the sidecar.
    pub content_type: &'static str,
}

/// Mount policy that bears on header synthesis.
#[derive(Debug, Clone, Copy)]
pub struct ResponsePolicy<'a> {
    /// Emitted verbatim as `Cache-Control` when present.
    pub cache_control: Option<&'a str>,
}

/// How the body is produced.
#[derive(Debug, Clone, Copy, PartialEq, Eq, Structural)]
pub enum BodyPlan {
    /// No body bytes.
    NoBody,
    /// The whole representation.
    Whole,
    /// One contiguous byte range of the representation.
    Range { offset: u64, len: u64 },
}

/// A fully planned response, its headers ready to be emitted.
#[derive(Debug)]
pub struct ResponsePlan {
    pub status: u16,
    pub headers: Vec<(&'static str, String)>,
    pub body: BodyPlan,
}

/// What the dates that bear on a response come to: the `Last-Modified` text of the file, and
/// the instants that the date conditions of the request denote. `None` stands for a condition
/// that is absent or is no date.
#[derive(Debug)]
pub struct DateFacts {
    pub last_modified: String,
    pub if_modified_since: Option<HttpTime>,
    pub if_unmodified_since: Option<HttpTime>,
    pub if_range: Option<HttpTime>,
}

/// What a `Range` header asks of a representation.
#[derive(Debug, Clone, Copy, PartialEq, Eq, Structural)]
pub enum RangeOutcome {
    /// Malformed, multi-range, or of another unit: the whole representation is served.
    Ignored,
    Satisfiable { offset: u64, len: u64 },
    /// A well-formed single range that selects nothing.
    Unsatisfiable,
}

/// What to do when a candidate resolved to a directory.
#[derive(Debug, Clone, Copy, PartialEq, Eq, Structural)]
pub enum DirectoryAction {
    /// Resolve `index.html` below it and serve that.
    ServeIndex,
    /// Redirect to the form with a trailing slash.
    RedirectAddSlash,
    /// No index configured: a plain miss.
    Miss,
}

// ---- models ----

pub struct RequestView {
    pub head: bool,
    pub if_match: Option<Seq<char>>,
    pub if_none_match: Option<Seq<char>>,
    pub if_modified_since: Option<Seq<char>>,
    pub if_unmodified_since: Option<Seq<char>>,
    pub if_range: Option<Seq<char>>,
    pub range: Option<Seq<char>>,
}

pub struct FileView {
    pub len: u64,
    pub mtime_sec: i64,
    pub mtime_nsec: i64,
    pub encoding: Encoding,
    pub vary_applies: bool,
    pub content_type: Seq<char>,
}

pub struct DateView {
    pub last_modified: Seq<char>,
    pub if_modified_since: Option<u64>,
    pub if_unmodified_since: Option<u64>,
    pub if_range: Option<u64>,
}

pub struct PlanView {
    pub status: u16,
    pub headers: Seq<(Seq<char>, Seq<char>)>,
    pub body: BodyPlan,
}

pub open spec fn text_view(value: Option<&str>) -> Option<Seq<char>> {
    match value {
        Some(v) => Some(v@),
        None => None,
    }
}

pub open spec fn time_view(value: Option<HttpTime>) -> Option<u64> {
    match value {
        Some(t) => Some(t.unix_secs),
        None => None,
    }
}

pub open spec fn header_views(headers: Seq<(&'static str, String)>) -> Seq<
    (Seq<char>, Seq<char>),
> {
    headers.map_values(|h: (&'static str, String)| (h.0@, h.1@))
}

impl<'a> View for RequestFacts<'a> {
    type V = RequestView;

    open spec fn view(&self) -> RequestView {
        RequestView {
            head: self.head,
            if_match: text_view(self.if_match),
            if_none_match: text_view(self.if_none_match),
            if_modified_since: text_view(self.if_modified_since),
            if_unmodified_since: text_view(self.if_unmodified_since),
            if_range: text_view(self.if_range),
            range: text_view(self.range),
        }
    }
}

impl View for FileFacts {
    type V = FileView;

    open spec fn view(&self) -> FileView {
        FileView {
            len: self.len,
            mtime_sec: self.mtime_sec,
            mtime_nsec: self.mtime_nsec,
            encoding: self.encoding,
            vary_applies: self.vary_applies,
            content_type: self.content_type@,
        }
    }
}

impl<'a> View for ResponsePolicy<'a> {
    type V = Option<Seq<char>>;

    open spec fn view(&self) -> Option<Seq<char>> {
        text_view(self.cache_control)
    }
}

impl View for DateFacts {
    type V = DateView;

    open spec fn view(&self) -> DateView {
        DateView {
            last_modified: self.last_modified@,
            if_modified_since: time_view(self.if_modified_since),
            if_unmodified_since: time_view(self.if_unmodified_since),
            if_range: time_view(self.if_range),
        }
    }
}

impl View for ResponsePlan {
    type V = PlanView;

    open spec fn view(&self) -> PlanView {
        PlanView {
            status: self.status,
            headers: header_views(self.headers@),
            body: self.body,
        }
    }
}

impl<'a> Default for RequestFacts<'a> {
    fn default() -> (r: RequestFacts<'a>)
        ensures
            r@ == (RequestView {
                head: false,
                if_match: None,
                if_none_match: None,
                if_modified_since: None,
                if_unmodified_since: None,
                if_range: None,
                range: None,
            }),
    {
        RequestFacts {
            head: false,
            if_match: None,
            if_none_match: None,
            if_modified_since: None,
            if_unmodified_since: None,
            if_range: None,
            range: None,
        }
    }
}

impl<'a> Default for ResponsePolicy<'a> {
    fn default() -> (r: ResponsePolicy<'a>)
        ensures
            r@ is None,
    {
        ResponsePolicy { cache_control: None }
    }
}

// ---- ranges ----

/// The specs of a `Range` header in bytes.
pub open spec fn byte_specs(header: Seq<char>) -> Option<Seq<char>> {
    match text::strip_prefix(header, "bytes="@) {
        Some(specs) => Some(specs),
        None => text::strip_prefix(header, "Bytes="@),
    }
}

/// The bytes that a range with the given ends selects from a representation of `len` bytes. An
/// empty `first` counts `last` bytes from the end, and an empty `last` reaches to the end.
pub open spec fn selected(first: Seq<char>, last: Seq<char>, len: u64) -> RangeOutcome {
    if first.len() == 0 {
        if !text::is_number(last) {
            RangeOutcome::Ignored
        } else if text::number_value(last) == 0 {
            RangeOutcome::Unsatisfiable
        } else if text::number_value(last) >= len {
            RangeOutcome::Satisfiable { offset: 0, len }
        } else {
            let n = text::number_value(last);
            RangeOutcome::Satisfiable { offset: (len - n) as u64, len: n as u64 }
        }
    } else if !text::is_number(first) || (last.len() > 0 && !text::is_number(last)) {
        RangeOutcome::Ignored
    } else if text::number_value(first) >= len {
        RangeOutcome::Unsatisfiable
    } else {
        let start = text::number_value(first);
        let end = if last.len() == 0 || text::number_value(last) >= len {
            len - 1
        } else {
            text::number_value(last) as int
        };
        if start > end {
            RangeOutcome::Unsatisfiable
        } else {
            RangeOutcome::Satisfiable { offset: start as u64, len: (end - start + 1) as u64 }
        }
    }
}

/// What a `Range` header asks of a representation of `len` bytes. Ranges of an empty
/// representation are ignored.
pub open spec fn range_outcome(header: Seq<char>, len: u64) -> RangeOutcome {
    match byte_specs(text::trim(header)) {
        Some(specs) => if len == 0 || specs.contains(',') {
            RangeOutcome::Ignored
        } else {
            match text::split_once(text::trim(specs), '-') {
                Some((first, last)) => selected(text::trim(first), text::trim(last), len),
                None => RangeOutcome::Ignored,
            }
        },
        None => RangeOutcome::Ignored,
    }
}

pub open spec fn saturated(n: nat) -> u64 {
    if n > u64::MAX {
        u64::MAX
    } else {
        n as u64
    }
}

/// Strict decimal parse: no signs and no white space. What exceeds 64 bits saturates, so that
/// it reads as absurdly large and never wraps.
fn parse_u64_saturating(digits: &[char]) -> (r: Option<u64>)
    ensures
        match r {
            Some(n) => text::is_number(digits@) && n == saturated(text::number_value(digits@)),
            None => !text::is_number(digits@),
        },
{
    if !text::is_number_text(digits) {
        return None;
    }
    let mut value: u64 = 0;
    let mut i: usize = 0;
    while i < digits.len()
        invariant
            i <= digits@.len(),
            text::is_number(digits@),
            value == saturated(text::number_value(digits@.take(i as int))),
        decreases digits.len() - i,
    {
        let c = digits[i];
        proof {
            assert(text::is_digit(digits@[i as int]));
            assert(digits@.take(i + 1) =~= digits@.take(i as int).push(c));
            text::lemma_number_value_push(digits@.take(i as int), c);
        }
        value = match value.checked_mul(10) {
            Some(tens) => tens.saturating_add((c as u8 - 48) as u64),
            None => u64::MAX,
        };
        i += 1;
    }
    assert(digits@.take(i as int) =~= digits@);
    Some(value)
}

/// Parses `Range: bytes=<spec>` with exactly one spec. A value beyond 64 bits lands in the
/// unsatisfiable branch instead of wrapping into a small offset.
pub fn parse_range(header: &str, len: u64) -> (r: RangeOutcome)
    ensures
        r == range_outcome(header@, len),
{
    if len == 0 {
        return RangeOutcome::Ignored;
    }
    let chars = text::chars_of(header);
    let trimmed = text::trim_chars(chars.as_slice());
    let specs = match text::strip_text_prefix(trimmed, "bytes=") {
        Some(specs) => specs,
        None => match text::strip_text_prefix(trimmed, "Bytes=") {
            Some(specs) => specs,
            None => {
                return RangeOutcome::Ignored;
            },
        },
    };
    if text::has_char(specs, ',') {
        return RangeOutcome::Ignored;
    }
    let (first, last) = match text::split_chars_once(text::trim_chars(specs), '-') {
        Some((first, last)) => (text::trim_chars(first), text::trim_chars(last)),
        None => {
            return RangeOutcome::Ignored;
        },
    };
    if first.len() == 0 {
        return match parse_u64_saturating(last) {
            None => RangeOutcome::Ignored,
            Some(suffix) => if suffix == 0 {
                RangeOutcome::Unsatisfiable
            } else if suffix >= len {
                RangeOutcome::Satisfiable { offset: 0, len }
            } else {
                RangeOutcome::Satisfiable { offset: len - suffix, len: suffix }
            },
        };
    }
    let start: u64 = match parse_u64_saturating(first) {
        Some(start) => start,
        None => {
            return RangeOutcome::Ignored;
        },
    };
    let end: u64 = if last.len() == 0 {
        len - 1
    } else {
        match parse_u64_saturating(last) {
            Some(end) => if end >= len {
                len - 1
            } else {
                end
            },
            None => {
                return RangeOutcome::Ignored;
            },
        }
    };
    if start > end {
        RangeOutcome::Unsatisfiable
    } else {
        RangeOutcome::Satisfiable { offset: start, len: end - start + 1 }
    }
}

/// [`parse_range`] in the form that fuzzers call: whether the header counts, and the range that
/// it selects.
pub fn parse_range_for_fuzzing(header: &str, len: u64) -> (r: (bool, Option<(u64, u64)>))
    ensures
        r == match range_outcome(header@, len) {
            RangeOutcome::Ignored => (false, None),
            RangeOutcome::Unsatisfiable => (true, None),
            RangeOutcome::Satisfiable { offset, len } => (true, Some((offset, len))),
        },
{
    match parse_range(header, len) {
        RangeOutcome::Ignored => (false, None),
        RangeOutcome::Unsatisfiable => (true, None),
        RangeOutcome::Satisfiable { offset, len } => (true, Some((offset, len))),
    }
}

// ---- entity tags ----

/// An entity tag without its weakness mark.
pub open spec fn opaque_part(tag: Seq<char>) -> Seq<char> {
    match text::strip_prefix(tag, "W/"@) {
        Some(rest) => rest,
        None => tag,
    }
}

/// Strong comparison: equal, and neither tag weak.
pub open spec fn strongly_equal(candidate: Seq<char>, ours: Seq<char>) -> bool {
    !text::starts_with(candidate, "W/"@) && candidate == ours
}

/// Weak comparison: equal apart from the weakness mark.
pub open spec fn weakly_equal(candidate: Seq<char>, ours: Seq<char>) -> bool {
    opaque_part(candidate) == opaque_part(ours)
}

pub open spec fn tag_matches(candidate: Seq<char>, ours: Seq<char>, strong: bool) -> bool {
    if strong {
        strongly_equal(candidate, ours)
    } else {
        weakly_equal(candidate, ours)
    }
}

/// Whether a list of entity tags holds ours; `*` holds every tag.
pub open spec fn tag_listed(header: Seq<char>, ours: Seq<char>, strong: bool) -> bool {
    let list = text::trim(header);
    ||| list == "*"@
    ||| exists|i: int|
        0 <= i < text::split(list, ',').len() && tag_matches(
            text::trim(#[trigger] text::split(list, ',')[i]),
            ours,
            strong,
        )
}

fn strong_compare(candidate: &[char], ours: &[char]) -> (r: bool)
    ensures
        r == strongly_equal(candidate@, ours@),
{
    !text::starts_with_text(candidate, "W/") && text::same_chars(candidate, ours)
}

fn without_weak_mark<'a>(tag: &'a [char]) -> (r: &'a [char])
    ensures
        r@ == opaque_part(tag@),
{
    match text::strip_text_prefix(tag, "W/") {
        Some(rest) => rest,
        None => tag,
    }
}

fn weak_compare(candidate: &[char], ours: &[char]) -> (r: bool)
    ensures
        r == weakly_equal(candidate@, ours@),
{
    text::same_chars(without_weak_mark(candidate), without_weak_mark(ours))
}

/// Evaluates a comma-separated list of entity tags against ours. No tag of ours holds a comma.
fn etag_list_matches(header: &str, ours: &[char], strong: bool) -> (r: bool)
    ensures
        r == tag_listed(header@, ours@, strong),
{
    let chars = text::chars_of(header);
    let list = text::trim_chars(chars.as_slice());
    if text::is_text(list, "*") {
        return true;
    }
    let pieces = text::split_chars(list, ',');
    let ghost all = text::split(list@, ',');
    let mut i: usize = 0;
    while i < pieces.len()
        invariant
            i <= pieces@.len(),
            text::views(pieces@) == all,
            list@ == text::trim(header@),
            all == text::split(list@, ','),
            forall|j: int| 0 <= j < i ==> !tag_matches(text::trim(#[trigger] all[j]), ours@, strong),
        decreases pieces.len() - i,
    {
        assert(all[i as int] == pieces@[i as int]@);
        let candidate = text::trim_chars(pieces[i]);
        let matches = if strong {
            strong_compare(candidate, ours)
        } else {
            weak_compare(candidate, ours)
        };
        if matches {
            assert(tag_matches(text::trim(text::split(list@, ',')[i as int]), ours@, strong));
            return true;
        }
        i += 1;
    }
    false
}

// ---- planning ----

/// The headers of every plan.
pub open spec fn base_header_list(file: FileView) -> Seq<(Seq<char>, Seq<char>)> {
    let nosniff = seq![("x-content-type-options"@, "nosniff"@)];
    if file.vary_applies {
        nosniff.push(("vary"@, "Accept-Encoding"@))
    } else {
        nosniff
    }
}

/// The headers of a plan that carries the representation.
pub open spec fn success_header_list(
    file: FileView,
    etag: Seq<char>,
    last_modified: Seq<char>,
    cache_control: Option<Seq<char>>,
) -> Seq<(Seq<char>, Seq<char>)> {
    let common = base_header_list(file).push(("content-type"@, file.content_type)).push(
        ("etag"@, etag),
    ).push(("last-modified"@, last_modified)).push(("accept-ranges"@, "bytes"@));
    let encoded = match sidecar::content_encoding_of(file.encoding) {
        Some(token) => common.push(("content-encoding"@, token)),
        None => common,
    };
    match cache_control {
        Some(value) => encoded.push(("cache-control"@, value)),
        None => encoded,
    }
}

/// The validator of a file snapshot.
pub open spec fn file_etag(file: FileView) -> Seq<char> {
    headers::etag_text(
        headers::mtime_ns(file.mtime_sec, file.mtime_nsec),
        file.len,
        file.encoding,
    )
}

/// Whether a precondition of the request fails. If-Match takes the place of
/// If-Unmodified-Since, and a date that cannot be parsed does not constrain.
pub open spec fn precondition_fails(req: RequestView, dates: DateView, file: FileView) -> bool {
    match req.if_match {
        Some(condition) => !tag_listed(condition, file_etag(file), true),
        None => match (req.if_unmodified_since, dates.if_unmodified_since) {
            (Some(_), Some(date)) => headers::clamped_instant(file.mtime_sec) > date,
            _ => false,
        },
    }
}

/// Whether the client already has the representation. If-None-Match takes the place of
/// If-Modified-Since, whose date must match exactly.
pub open spec fn is_not_modified(req: RequestView, dates: DateView, file: FileView) -> bool {
    match req.if_none_match {
        Some(condition) => tag_listed(condition, file_etag(file), false),
        None => match (req.if_modified_since, dates.if_modified_since) {
            (Some(_), Some(date)) => headers::clamped_instant(file.mtime_sec) == date,
            _ => false,
        },
    }
}

/// Whether a condition is written as an entity tag.
pub open spec fn is_tag_condition(condition: Seq<char>) -> bool {
    (condition.len() > 0 && condition[0] == '"') || text::starts_with(condition, "W/"@)
}

/// Whether If-Range lets a range through: its tag strongly equals ours, or its date is ours.
pub open spec fn range_is_current(req: RequestView, dates: DateView, file: FileView) -> bool {
    match req.if_range {
        None => true,
        Some(condition) => if is_tag_condition(condition) {
            strongly_equal(text::trim(condition), file_etag(file))
        } else {
            dates.if_range == Some(headers::clamped_instant(file.mtime_sec))
        },
    }
}

/// The range that a request asks for, once If-Range has been looked at.
pub open spec fn effective_range(
    req: RequestView,
    dates: DateView,
    file: FileView,
) -> RangeOutcome {
    match req.range {
        Some(header) => if range_is_current(req, dates, file) {
            range_outcome(header, file.len)
        } else {
            RangeOutcome::Ignored
        },
        None => RangeOutcome::Ignored,
    }
}

/// `bytes first-last/len`, the value of `Content-Range` for a part.
pub open spec fn part_range_text(offset: u64, len: u64, total: u64) -> Seq<char> {
    "bytes "@ + numeral::decimal(offset as nat) + seq!['-'] + numeral::decimal(
        (offset + len - 1) as nat,
    ) + seq!['/'] + numeral::decimal(total as nat)
}

/// `bytes */len`, the value of `Content-Range` when nothing is selected.
pub open spec fn no_range_text(total: u64) -> Seq<char> {
    "bytes */"@ + numeral::decimal(total as nat)
}

/// The response to a request for a file, given what the dates come to.
pub open spec fn planned(
    req: RequestView,
    dates: DateView,
    file: FileView,
    cache_control: Option<Seq<char>>,
) -> PlanView {
    let etag = file_etag(file);
    let success = success_header_list(file, etag, dates.last_modified, cache_control);
    if precondition_fails(req, dates, file) {
        PlanView { status: 412, headers: base_header_list(file), body: BodyPlan::NoBody }
    } else if is_not_modified(req, dates, file) {
        PlanView {
            status: 304,
            headers: base_header_list(file).push(("etag"@, etag)).push(
                ("last-modified"@, dates.last_modified),
            ),
            body: BodyPlan::NoBody,
        }
    } else {
        match effective_range(req, dates, file) {
            RangeOutcome::Satisfiable { offset, len } => PlanView {
                status: 206,
                headers: success.push(("content-length"@, numeral::decimal(len as nat))).push(
                    ("content-range"@, part_range_text(offset, len, file.len)),
                ),
                body: if req.head {
                    BodyPlan::NoBody
                } else {
                    BodyPlan::Range { offset, len }
                },
            },
            RangeOutcome::Unsatisfiable => PlanView {
                status: 416,
                headers: base_header_list(file).push(("content-range"@, no_range_text(file.len))),
                body: BodyPlan::NoBody,
            },
            RangeOutcome::Ignored => PlanView {
                status: 200,
                headers: success.push(("content-length"@, numeral::decimal(file.len as nat))),
                body: if req.head {
                    BodyPlan::NoBody
                } else {
                    BodyPlan::Whole
                },
            },
        }
    }
}

/// The instant that an optional condition denotes.
pub open spec fn condition_instant(condition: Option<Seq<char>>) -> Option<u64> {
    match condition {
        Some(value) => headers::http_date_instant(value),
        None => None,
    }
}

/// What the dates of a request and a file come to.
pub open spec fn dates_of(req: RequestView, mtime_sec: i64) -> DateView {
    DateView {
        last_modified: headers::last_modified_text(mtime_sec),
        if_modified_since: condition_instant(req.if_modified_since),
        if_unmodified_since: condition_instant(req.if_unmodified_since),
        if_range: condition_instant(req.if_range),
    }
}

fn push_header(list: &mut Vec<(&'static str, String)>, name: &'static str, value: String)
    ensures
        header_views(final(list)@) == header_views(old(list)@).push((name@, value@)),
{
    list.push((name, value));
    assert(header_views(list@) =~= header_views(old(list)@).push((name@, value@)));
}

/// Headers on every plan: `nosniff` always, and `Vary` wherever sidecars are negotiated.
fn base_headers(file: &FileFacts) -> (r: Vec<(&'static str, String)>)
    ensures
        header_views(r@) == base_header_list(file@),
{
    let mut list: Vec<(&'static str, String)> = Vec::new();
    push_header(&mut list, "x-content-type-options", "nosniff".to_owned());
    if file.vary_applies {
        push_header(&mut list, "vary", "Accept-Encoding".to_owned());
    }
    assert(header_views(list@) =~= base_header_list(file@));
    list
}

fn common_success_headers(
    file: &FileFacts,
    etag: &str,
    last_modified: &str,
    policy: &ResponsePolicy<'_>,
) -> (r: Vec<(&'static str, String)>)
    ensures
        header_views(r@) == success_header_list(file@, etag@, last_modified@, policy@),
{
    let mut list = base_headers(file);
    push_header(&mut list, "content-type", file.content_type.to_owned());
    push_header(&mut list, "etag", etag.to_owned());
    push_header(&mut list, "last-modified", last_modified.to_owned());
    push_header(&mut list, "accept-ranges", "bytes".to_owned());
    if let Some(token) = file.encoding.content_encoding() {
        push_header(&mut list, "content-encoding", token.to_owned());
    }
    if let Some(value) = policy.cache_control {
        push_header(&mut list, "cache-control", value.to_owned());
    }
    list
}

fn precondition_failed(file: &FileFacts) -> (r: ResponsePlan)
    ensures
        r@ == (PlanView {
            status: 412,
            headers: base_header_list(file@),
            body: BodyPlan::NoBody,
        }),
{
    ResponsePlan { status: 412, headers: base_headers(file), body: BodyPlan::NoBody }
}

/// A 304 carries the validators, and `Vary` where a 200 would.
fn not_modified(file: &FileFacts, etag: &str, last_modified: &str) -> (r: ResponsePlan)
    ensures
        r@ == (PlanView {
            status: 304,
            headers: base_header_list(file@).push(("etag"@, etag@)).push(
                ("last-modified"@, last_modified@),
            ),
            body: BodyPlan::NoBody,
        }),
{
    let mut list = base_headers(file);
    push_header(&mut list, "etag", etag.to_owned());
    push_header(&mut list, "last-modified", last_modified.to_owned());
    ResponsePlan { status: 304, headers: list, body: BodyPlan::NoBody }
}

fn part_range(offset: u64, len: u64, total: u64) -> (r: String)
    requires
        len > 0,
        offset + len <= u64::MAX,
    ensures
        r@ == part_range_text(offset, len, total),
{
    let mut out = text::chars_of("bytes ");
    numeral::push_decimal(&mut out, offset);
    out.push('-');
    numeral::push_decimal(&mut out, offset + (len - 1));
    out.push('/');
    numeral::push_decimal(&mut out, total);
    assert(out@ =~= part_range_text(offset, len, total));
    text::string_of(out.as_slice())
}

fn no_range(total: u64) -> (r: String)
    ensures
        r@ == no_range_text(total),
{
    let mut out = text::chars_of("bytes */");
    numeral::push_decimal(&mut out, total);
    text::string_of(out.as_slice())
}

fn optional_date(condition: Option<&str>) -> (r: Option<HttpTime>)
    ensures
        time_view(r) == condition_instant(text_view(condition)),
{
    match condition {
        Some(value) => headers::parse_http_date(value),
        None => None,
    }
}

/// Whether If-Range lets a range through.
fn range_applies(req: &RequestFacts<'_>, dates: &DateFacts, file: &FileFacts, etag: &[char]) -> (r:
    bool)
    requires
        etag@ == file_etag(file@),
    ensures
        r == range_is_current(req@, dates@, file@),
{
    match req.if_range {
        None => true,
        Some(condition) => {
            let chars = text::chars_of(condition);
            let tag = (chars.len() > 0 && chars[0] == '"') || text::starts_with_text(
                chars.as_slice(),
                "W/",
            );
            if tag {
                strong_compare(text::trim_chars(chars.as_slice()), etag)
            } else {
                match dates.if_range {
                    Some(date) => date.unix_secs == headers::system_time_for(
                        file.mtime_sec,
                    ).unix_secs,
                    None => false,
                }
            }
        },
    }
}

/// A satisfiable range is a non-empty part of the representation.
pub proof fn law_satisfiable_range_is_inside(header: Seq<char>, len: u64)
    ensures
        range_outcome(header, len) matches RangeOutcome::Satisfiable { offset, len: n } ==> 0 < n
            && offset < len && offset + n <= len,
{
}

/// Plans the response for an opened file, given what the dates come to.
pub fn plan_with_dates(
    req: &RequestFacts<'_>,
    dates: &DateFacts,
    file: &FileFacts,
    policy: &ResponsePolicy<'_>,
) -> (r: ResponsePlan)
    ensures
        r@ == planned(req@, dates@, file@, policy@),
{
    let etag = headers::etag(file.mtime_sec, file.mtime_nsec, file.len, file.encoding);
    let etag_chars = text::chars_of(etag.as_str());
    let modified: u64 = headers::system_time_for(file.mtime_sec).unix_secs;

    if let Some(condition) = req.if_match {
        if !etag_list_matches(condition, etag_chars.as_slice(), true) {
            return precondition_failed(file);
        }
    } else if req.if_unmodified_since.is_some() {
        if let Some(date) = dates.if_unmodified_since {
            if modified > date.unix_secs {
                return precondition_failed(file);
            }
        }
    }
    if let Some(condition) = req.if_none_match {
        if etag_list_matches(condition, etag_chars.as_slice(), false) {
            return not_modified(file, etag.as_str(), dates.last_modified.as_str());
        }
    } else if req.if_modified_since.is_some() {
        if let Some(date) = dates.if_modified_since {
            if date.unix_secs == modified {
                return not_modified(file, etag.as_str(), dates.last_modified.as_str());
            }
        }
    }
    let outcome = match req.range {
        Some(header) => if range_applies(req, dates, file, etag_chars.as_slice()) {
            proof {
                law_satisfiable_range_is_inside(header@, file.len);
            }
            parse_range(header, file.len)
        } else {
            RangeOutcome::Ignored
        },
        None => RangeOutcome::Ignored,
    };
    match outcome {
        RangeOutcome::Satisfiable { offset, len } => {
            let mut list = common_success_headers(
                file,
                etag.as_str(),
                dates.last_modified.as_str(),
                policy,
            );
            push_header(&mut list, "content-length", numeral::decimal_text(len));
            push_header(&mut list, "content-range", part_range(offset, len, file.len));
            ResponsePlan {
                status: 206,
                headers: list,
                body: if req.head {
                    BodyPlan::NoBody
                } else {
                    BodyPlan::Range { offset, len }
                },
            }
        },
        RangeOutcome::Unsatisfiable => {
            let mut list = base_headers(file);
            push_header(&mut list, "content-range", no_range(file.len));
            ResponsePlan { status: 416, headers: list, body: BodyPlan::NoBody }
        },
        RangeOutcome::Ignored => {
            let mut list = common_success_headers(
                file,
                etag.as_str(),
                dates.last_modified.as_str(),
                policy,
            );
            push_header(&mut list, "content-length", numeral::decimal_text(file.len));
            ResponsePlan {
                status: 200,
                headers: list,
                body: if req.head {
                    BodyPlan::NoBody
                } else {
                    BodyPlan::Whole
                },
            }
        },
    }
}

/// Reads the dates of a request and writes that of the file.
fn read_dates(req: &RequestFacts<'_>, mtime_sec: i64) -> (r: DateFacts)
    ensures
        r@ == dates_of(req@, mtime_sec),
        headers::http_date_instant(r.last_modified@) == Some(headers::clamped_instant(mtime_sec)),
        forall|i: int|
            0 <= i < r.last_modified@.len() ==> headers::is_date_char(
                #[trigger] r.last_modified@[i],
            ),
{
    DateFacts {
        last_modified: headers::last_modified(mtime_sec),
        if_modified_since: optional_date(req.if_modified_since),
        if_unmodified_since: optional_date(req.if_unmodified_since),
        if_range: optional_date(req.if_range),
    }
}

/// Plans the response for a resolved, opened file.
///
/// A date condition that gives back the file's own `Last-Modified` holds: If-Unmodified-Since
/// passes, If-Modified-Since answers 304, and If-Range lets the range through.
pub fn plan_response(
    req: &RequestFacts<'_>,
    file: &FileFacts,
    policy: &ResponsePolicy<'_>,
) -> (r: ResponsePlan)
    ensures
        r@ == planned(req@, dates_of(req@, file.mtime_sec), file@, policy@),
        req@.if_match is None && req@.if_unmodified_since == Some(
            headers::last_modified_text(file.mtime_sec),
        ) ==> r.status != 412,
        req@.if_none_match is None && req@.if_modified_since == Some(
            headers::last_modified_text(file.mtime_sec),
        ) && !precondition_fails(req@, dates_of(req@, file.mtime_sec), file@) ==> r.status == 304,
        req@.if_range == Some(headers::last_modified_text(file.mtime_sec)) ==> range_is_current(
            req@,
            dates_of(req@, file.mtime_sec),
            file@,
        ),
{
    let dates = read_dates(req, file.mtime_sec);
    proof {
        reveal_strlit("W/");
        let own = headers::last_modified_text(file.mtime_sec);
        assert(dates.last_modified@ == own);
        if text::starts_with(own, "W/"@) {
            assert(own.take(2)[1] == own[1]);
        }
        assert(!is_tag_condition(own));
    }
    plan_with_dates(req, &dates, file, policy)
}

/// Directory dispatch: an index only behind a trailing slash, and a redirect only where an
/// index would then be served.
pub fn directory_action(trailing_slash: bool, index_enabled: bool) -> (r: DirectoryAction)
    ensures
        r == if !index_enabled {
            DirectoryAction::Miss
        } else if trailing_slash {
            DirectoryAction::ServeIndex
        } else {
            DirectoryAction::RedirectAddSlash
        },
{
    if !index_enabled {
        DirectoryAction::Miss
    } else if trailing_slash {
        DirectoryAction::ServeIndex
    } else {
        DirectoryAction::RedirectAddSlash
    }
}

// ---- laws ----

/// A plan has one of five statuses, and a body that fits it: a part of the representation only
/// with 206, the whole only with 200, and none otherwise or for HEAD.
pub proof fn law_plan_is_consistent(
    req: RequestView,
    dates: DateView,
    file: FileView,
    cache_control: Option<Seq<char>>,
)
    ensures
        ({
            let plan = planned(req, dates, file, cache_control);
            &&& plan.status == 200 || plan.status == 206 || plan.status == 304 || plan.status == 412
                || plan.status == 416
            &&& match plan.body {
                BodyPlan::Range { offset, len } => plan.status == 206 && !req.head && 0 < len
                    && offset < file.len && offset + len <= file.len,
                BodyPlan::Whole => plan.status == 200 && !req.head,
                BodyPlan::NoBody => req.head || (plan.status != 200 && plan.status != 206),
            }
        }),
{
    if let Some(header) = req.range {
        law_satisfiable_range_is_inside(header, file.len);
    }
}

/// HEAD is answered with the status and headers of GET, and no body.
pub proof fn law_head_mirrors_get(
    req: RequestView,
    dates: DateView,
    file: FileView,
    cache_control: Option<Seq<char>>,
)
    ensures
        ({
            let get = planned(RequestView { head: false, ..req }, dates, file, cache_control);
            let head = planned(RequestView { head: true, ..req }, dates, file, cache_control);
            &&& head.status == get.status
            &&& head.headers == get.headers
            &&& head.body == BodyPlan::NoBody
        }),
{
}

/// Every plan starts with the base headers: `nosniff` always, and `Vary` wherever sidecars are
/// negotiated, on 304, 412 and 416 as on 200.
pub proof fn law_base_headers_are_on_every_plan(
    req: RequestView,
    dates: DateView,
    file: FileView,
    cache_control: Option<Seq<char>>,
)
    ensures
        ({
            let base = base_header_list(file);
            let plan = planned(req, dates, file, cache_control);
            base.len() <= plan.headers.len() && plan.headers.take(base.len() as int) == base
        }),
{
    let base = base_header_list(file);
    let plan = planned(req, dates, file, cache_control);
    assert(plan.headers.take(base.len() as int) =~= base);
}

/// The advertised length is that of the body.
pub proof fn law_content_length_is_the_body_length(
    req: RequestView,
    dates: DateView,
    file: FileView,
    cache_control: Option<Seq<char>>,
)
    ensures
        ({
            let plan = planned(req, dates, file, cache_control);
            match plan.body {
                BodyPlan::Range { offset, len } => plan.headers.contains(
                    ("content-length"@, numeral::decimal(len as nat)),
                ),
                BodyPlan::Whole => plan.headers.contains(
                    ("content-length"@, numeral::decimal(file.len as nat)),
                ),
                BodyPlan::NoBody => true,
            }
        }),
{
    let plan = planned(req, dates, file, cache_control);
    match plan.body {
        BodyPlan::Range { offset, len } => {
            assert(plan.headers[plan.headers.len() - 2] == (
                "content-length"@,
                numeral::decimal(len as nat),
            ));
        },
        BodyPlan::Whole => {
            assert(plan.headers[plan.headers.len() - 1] == (
                "content-length"@,
                numeral::decimal(file.len as nat),
            ));
        },
        BodyPlan::NoBody => {},
    }
}

/// If-Match takes the place of If-Unmodified-Since, and If-None-Match that of
/// If-Modified-Since: with the tag condition present, the date condition changes nothing.
pub proof fn law_tags_mask_dates(
    req: RequestView,
    dates: DateView,
    file: FileView,
    cache_control: Option<Seq<char>>,
    condition: Option<Seq<char>>,
    date: Option<u64>,
)
    ensures
        req.if_match is Some ==> planned(
            RequestView { if_unmodified_since: condition, ..req },
            DateView { if_unmodified_since: date, ..dates },
            file,
            cache_control,
        ) == planned(req, dates, file, cache_control),
        req.if_none_match is Some ==> planned(
            RequestView { if_modified_since: condition, ..req },
            DateView { if_modified_since: date, ..dates },
            file,
            cache_control,
        ) == planned(req, dates, file, cache_control),
{
}

/// If-Modified-Since counts only for the exact instant of the file: a later date does not
/// suppress the content.
pub proof fn law_modified_since_is_exact(
    req: RequestView,
    dates: DateView,
    file: FileView,
    cache_control: Option<Seq<char>>,
)
    requires
        req.if_none_match is None,
        req.if_modified_since is Some,
        !precondition_fails(req, dates, file),
    ensures
        planned(req, dates, file, cache_control).status == 304 <==> dates.if_modified_since == Some(
            headers::clamped_instant(file.mtime_sec),
        ),
{
}

/// A validator starts and ends with a quote, and holds no comma.
proof fn lemma_etag_shape(ns: int, len: u64, encoding: Encoding)
    ensures
        ({
            let etag = headers::etag_text(ns, len, encoding);
            &&& etag.len() >= 2
            &&& etag[0] == '"'
            &&& etag.last() == '"'
            &&& !etag.contains(',')
        }),
{
    let etag = headers::etag_text(ns, len, encoding);
    let bits = numeral::hex(headers::twos_complement(ns));
    let size = numeral::hex(len as nat);
    let suffix = headers::etag_suffix_text(encoding);
    numeral::lemma_hex_chars(headers::twos_complement(ns));
    numeral::lemma_hex_chars(len as nat);
    reveal_strlit("-br");
    reveal_strlit("-zst");
    reveal_strlit("-gz");
    assert forall|i: int| 0 <= i < etag.len() implies #[trigger] etag[i] != ',' by {
        let a = 1 + bits.len();
        let b = a + 1 + size.len();
        let c = b + suffix.len();
        if 1 <= i < a {
            assert(etag[i] == bits[i - 1]);
        } else if a < i < b {
            assert(etag[i] == size[i - a - 1]);
        } else if b <= i < c {
            assert(etag[i] == suffix[i - b]);
        }
    }
}

/// Text without white space at its ends is not trimmed, and without a comma it is one piece.
proof fn lemma_is_one_member(tag: Seq<char>)
    requires
        tag.len() > 0,
        !text::is_white_space(tag[0]),
        !text::is_white_space(tag.last()),
        !tag.contains(','),
    ensures
        text::trim(tag) == tag,
        text::split(tag, ',') == seq![tag],
{
    text::lemma_find(tag, ',');
    if text::find(tag, ',') < tag.len() {
        assert(tag.contains(tag[text::find(tag, ',')]));
    }
    assert(text::split(tag, ',') =~= seq![tag]);
}

/// The validator of a file passes If-Match, makes If-None-Match answer 304, also when it comes
/// back marked as weak, and lets a range through If-Range.
pub proof fn law_own_tag_matches(
    req: RequestView,
    dates: DateView,
    file: FileView,
    cache_control: Option<Seq<char>>,
)
    ensures
        req.if_match == Some(file_etag(file)) ==> !precondition_fails(req, dates, file),
        req.if_none_match == Some(file_etag(file)) && !precondition_fails(req, dates, file)
            ==> planned(req, dates, file, cache_control).status == 304,
        req.if_none_match == Some("W/"@ + file_etag(file)) && !precondition_fails(req, dates, file)
            ==> planned(req, dates, file, cache_control).status == 304,
        req.if_range == Some(file_etag(file)) ==> range_is_current(req, dates, file),
{
    reveal_strlit("W/");
    let etag = file_etag(file);
    let weak = "W/"@ + etag;
    lemma_etag_shape(headers::mtime_ns(file.mtime_sec, file.mtime_nsec), file.len, file.encoding);
    lemma_is_one_member(etag);
    assert(etag.take(2)[0] == '"');
    assert(!text::starts_with(etag, "W/"@));
    assert(tag_matches(text::trim(text::split(etag, ',')[0]), etag, true));
    assert(tag_matches(text::trim(text::split(etag, ',')[0]), etag, false));
    assert(weak.last() == etag.last());
    assert(!weak.contains(',')) by {
        if weak.contains(',') {
            let k = choose|k: int| 0 <= k < weak.len() && weak[k] == ',';
            assert(etag[k - 2] == ',');
        }
    }
    lemma_is_one_member(weak);
    assert(weak.take(2) =~= "W/"@);
    assert(weak.skip(2) =~= etag);
    assert(tag_matches(text::trim(text::split(weak, ',')[0]), etag, false));
}

/// A weak tag never passes If-Match nor If-Range.
pub proof fn law_weak_tag_is_never_strong(
    req: RequestView,
    dates: DateView,
    file: FileView,
    tag: Seq<char>,
)
    requires
        !text::is_white_space(tag.last()),
        !tag.contains(','),
        tag.len() > 0,
    ensures
        req.if_match == Some("W/"@ + tag) ==> precondition_fails(req, dates, file),
        req.if_range == Some("W/"@ + tag) ==> !range_is_current(req, dates, file),
{
    reveal_strlit("W/");
    reveal_strlit("*");
    let weak = "W/"@ + tag;
    let etag = file_etag(file);
    assert(weak.last() == tag.last());
    assert(!weak.contains(',')) by {
        if weak.contains(',') {
            let k = choose|k: int| 0 <= k < weak.len() && weak[k] == ',';
            assert(tag[k - 2] == ',');
        }
    }
    lemma_is_one_member(weak);
    assert(weak.take(2) =~= "W/"@);
    assert(!strongly_equal(weak, etag));
    assert(weak != "*"@);
    assert forall|i: int| 0 <= i < text::split(weak, ',').len() implies !tag_matches(
        text::trim(#[trigger] text::split(weak, ',')[i]),
        etag,
        true,
    ) by {
        assert(text::split(weak, ',')[i] == weak);
    }
}

/// Where the texts that a plan is given are printable, so is every header value of the plan.
pub proof fn law_header_values_are_printable(
    req: RequestView,
    dates: DateView,
    file: FileView,
    cache_control: Option<Seq<char>>,
    i: int,
)
    requires
        text::is_printable(dates.last_modified),
        text::is_printable(file.content_type),
        cache_control matches Some(value) ==> text::is_printable(value),
        0 <= i < planned(req, dates, file, cache_control).headers.len(),
    ensures
        text::is_printable(planned(req, dates, file, cache_control).headers[i].1),
{
    reveal_strlit("nosniff");
    reveal_strlit("Accept-Encoding");
    reveal_strlit("bytes");
    reveal_strlit("br");
    reveal_strlit("zstd");
    reveal_strlit("gzip");
    lemma_etag_is_printable(file);
    lemma_decimal_is_printable(file.len as nat);
    lemma_no_range_is_printable(file.len);
    if let RangeOutcome::Satisfiable { offset, len } = effective_range(req, dates, file) {
        lemma_decimal_is_printable(len as nat);
        lemma_part_range_is_printable(offset, len, file.len);
    }
}

proof fn lemma_decimal_is_printable(n: nat)
    ensures
        text::is_printable(numeral::decimal(n)),
{
    numeral::lemma_decimal_chars(n);
}

proof fn lemma_printable_concat(a: Seq<char>, b: Seq<char>)
    requires
        text::is_printable(a),
        text::is_printable(b),
    ensures
        text::is_printable(a + b),
{
    assert forall|i: int| 0 <= i < (a + b).len() implies ' ' <= #[trigger] (a + b)[i] <= '~' by {
        if i < a.len() {
            assert((a + b)[i] == a[i]);
        } else {
            assert((a + b)[i] == b[i - a.len()]);
        }
    }
}

proof fn lemma_no_range_is_printable(total: u64)
    ensures
        text::is_printable(no_range_text(total)),
{
    reveal_strlit("bytes */");
    lemma_decimal_is_printable(total as nat);
    lemma_printable_concat("bytes */"@, numeral::decimal(total as nat));
}

proof fn lemma_part_range_is_printable(offset: u64, len: u64, total: u64)
    ensures
        text::is_printable(part_range_text(offset, len, total)),
{
    reveal_strlit("bytes ");
    let first = numeral::decimal(offset as nat);
    let last = numeral::decimal((offset + len - 1) as nat);
    let all = numeral::decimal(total as nat);
    lemma_decimal_is_printable(offset as nat);
    lemma_decimal_is_printable((offset + len - 1) as nat);
    lemma_decimal_is_printable(total as nat);
    lemma_printable_concat("bytes "@, first);
    lemma_printable_concat("bytes "@ + first, seq!['-']);
    lemma_printable_concat("bytes "@ + first + seq!['-'], last);
    lemma_printable_concat("bytes "@ + first + seq!['-'] + last, seq!['/']);
    lemma_printable_concat("bytes "@ + first + seq!['-'] + last + seq!['/'], all);
}

proof fn lemma_etag_is_printable(file: FileView)
    ensures
        text::is_printable(file_etag(file)),
{
    reveal_strlit("-br");
    reveal_strlit("-zst");
    reveal_strlit("-gz");
    let ns = headers::mtime_ns(file.mtime_sec, file.mtime_nsec);
    let bits = numeral::hex(headers::twos_complement(ns));
    let size = numeral::hex(file.len as nat);
    let suffix = headers::etag_suffix_text(file.encoding);
    numeral::lemma_hex_chars(headers::twos_complement(ns));
    numeral::lemma_hex_chars(file.len as nat);
    let quote = seq!['"'];
    lemma_printable_concat(quote, bits);
    lemma_printable_concat(quote + bits, seq!['-']);
    lemma_printable_concat(quote + bits + seq!['-'], size);
    lemma_printable_concat(quote + bits + seq!['-'] + size, suffix);
    lemma_printable_concat(quote + bits + seq!['-'] + size + suffix, quote);
}

/// A list of ranges is ignored: the whole representation is served.
pub proof fn law_multi_range_is_ignored(header: Seq<char>, len: u64)
    requires
        byte_specs(text::trim(header)) matches Some(specs) && specs.contains(','),
    ensures
        range_outcome(header, len) == RangeOutcome::Ignored,
{
}

/// A first position of more than 64 bits selects nothing, however far it exceeds them.
pub proof fn law_huge_position_selects_nothing(first: Seq<char>, last: Seq<char>, len: u64)
    requires
        text::is_number(first),
        text::number_value(first) > u64::MAX,
        last.len() == 0 || text::is_number(last),
    ensures
        selected(first, last, len) == RangeOutcome::Unsatisfiable,
{
}

} // verus!
