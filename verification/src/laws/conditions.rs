//! Conditional requests: validators, preconditions, and what a response carries.

use crate::headers;
use crate::laws::texts;
use crate::numeral;
use crate::semantics;
use crate::semantics::{BodyPlan, DateView, FileView, RangeOutcome, RequestView};
use crate::sidecar;
use crate::sidecar::Encoding;
use crate::text;
use vstd::prelude::*;
use vstd::string::*;

verus! {

/// What the validator of an encoding ends in before its closing quote.
pub open spec fn validator_end(encoding: Encoding) -> Seq<char> {
    match encoding {
        Encoding::Identity => Seq::empty(),
        Encoding::Brotli => seq!['-', 'b', 'r'],
        Encoding::Zstd => seq!['-', 'z', 's', 't'],
        Encoding::Gzip => seq!['-', 'g', 'z'],
    }
}

/// The validator of a snapshot: the modification time in nanoseconds and the length in hex, in
/// quotes, with the end of the encoding.
pub open spec fn validator(file: FileView) -> Seq<char> {
    let ns = file.mtime_sec * 1_000_000_000 + file.mtime_nsec;
    let bits: int = if ns >= 0 {
        ns
    } else {
        ns + 0x1_0000_0000_0000_0000_0000_0000_0000_0000
    };
    seq!['"'] + numeral::hex(bits as nat) + seq!['-'] + numeral::hex(file.len as nat)
        + validator_end(file.encoding) + seq!['"']
}

/// The second that dates are compared with: that of the modification time, but no earlier than
/// the epoch and no later than the last second of the year 9999.
pub open spec fn modified_at(file: FileView) -> int {
    if file.mtime_sec < 0 {
        0
    } else if file.mtime_sec > 253_402_300_799 {
        253_402_300_799
    } else {
        file.mtime_sec as int
    }
}

/// Whether a comma-separated list has the given text as a member.
pub open spec fn has_member(list: Seq<char>, tag: Seq<char>) -> bool {
    exists|i: int|
        0 <= i < text::split(text::trim(list), ',').len() && text::trim(
            #[trigger] text::split(text::trim(list), ',')[i],
        ) == tag
}

/// The validator of every snapshot is written as stated, by every way to ask for it.
pub proof fn law_validator_is_time_and_size(file: FileView)
    ensures
        semantics::file_etag(file) == validator(file),
        headers::etag_text(
            headers::mtime_ns(file.mtime_sec, file.mtime_nsec),
            file.len,
            file.encoding,
        ) == validator(file),
        validator(file).len() >= 2,
        validator(file)[0] == '"',
        validator(file).last() == '"',
        !validator(file).contains(','),
        headers::clamped_instant(file.mtime_sec) == modified_at(file),
{
    reveal_strlit("-br");
    reveal_strlit("-zst");
    reveal_strlit("-gz");
    assert(headers::etag_suffix_text(file.encoding) =~= validator_end(file.encoding));
    let ns = file.mtime_sec * 1_000_000_000 + file.mtime_nsec;
    let bits = numeral::hex(headers::twos_complement(ns));
    let size = numeral::hex(file.len as nat);
    let end = validator_end(file.encoding);
    let tag = validator(file);
    assert(semantics::file_etag(file) =~= tag);
    numeral::lemma_hex_chars(headers::twos_complement(ns));
    numeral::lemma_hex_chars(file.len as nat);
    assert forall|i: int| 0 <= i < tag.len() implies #[trigger] tag[i] != ',' by {
        let a = 1 + bits.len();
        let b = a + 1 + size.len();
        let c = b + end.len();
        if 1 <= i < a {
            assert(tag[i] == bits[i - 1]);
        } else if a < i < b {
            assert(tag[i] == size[i - a - 1]);
        } else if b <= i < c {
            assert(tag[i] == end[i - b]);
        }
    }
}

/// Snapshots of another time, length or encoding have other validators.
pub proof fn law_validators_differ(a: FileView, b: FileView)
    requires
        a.mtime_sec * 1_000_000_000 + a.mtime_nsec != b.mtime_sec * 1_000_000_000 + b.mtime_nsec
            || a.len != b.len || a.encoding != b.encoding,
    ensures
        validator(a) != validator(b),
{
    law_validator_is_time_and_size(a);
    law_validator_is_time_and_size(b);
    if validator(a) == validator(b) {
        headers::law_etag_is_injective(
            a.mtime_sec,
            a.mtime_nsec,
            a.len,
            a.encoding,
            b.mtime_sec,
            b.mtime_nsec,
            b.len,
            b.encoding,
        );
    }
}

/// Whether a request is refused: a list of tags is demanded that the validator is not in, or,
/// without such a list, a date is given since which the file was modified.
pub open spec fn is_refused(req: RequestView, dates: DateView, file: FileView) -> bool {
    match req.if_match {
        Some(list) => text::trim(list) != seq!['*'] && !has_member(list, validator(file)),
        None => req.if_unmodified_since is Some && (dates.if_unmodified_since matches Some(date)
            && modified_at(file) > date),
    }
}

/// Whether the client has the file: a list of tags is given that the validator is in, marked as
/// weak or not, or, without such a list, the date of the file itself.
pub open spec fn is_had(req: RequestView, dates: DateView, file: FileView) -> bool {
    match req.if_none_match {
        Some(list) => {
            ||| text::trim(list) == seq!['*']
            ||| has_member(list, validator(file))
            ||| has_member(list, seq!['W', '/'] + validator(file))
        },
        None => req.if_modified_since is Some && (dates.if_modified_since matches Some(date)
            && modified_at(file) == date),
    }
}

/// Whether a range is looked at: If-Range is absent, gives the validator, or gives the date.
pub open spec fn is_range_wanted(req: RequestView, dates: DateView, file: FileView) -> bool {
    req.if_range matches Some(condition) ==> {
        let tag = condition.len() > 0 && condition[0] == '"' || condition.len() > 1 && condition[0]
            == 'W' && condition[1] == '/';
        &&& tag ==> text::trim(condition) == validator(file)
        &&& !tag ==> (dates.if_range matches Some(date) && modified_at(file) == date)
    }
}

/// A list holds our tag under strong comparison when it is a star or has the tag as a member.
proof fn lemma_listed(list: Seq<char>, file: FileView)
    ensures
        semantics::tag_listed(list, validator(file), true) <==> text::trim(list) == seq!['*']
            || has_member(list, validator(file)),
        semantics::tag_listed(list, validator(file), false) <==> text::trim(list) == seq!['*']
            || has_member(list, validator(file)) || has_member(
            list,
            seq!['W', '/'] + validator(file),
        ),
{
    reveal_strlit("W/");
    reveal_strlit("*");
    law_validator_is_time_and_size(file);
    let ours = validator(file);
    let weak = seq!['W', '/'] + ours;
    assert("*"@ =~= seq!['*']);
    assert("W/"@ =~= seq!['W', '/']);
    let pieces = text::split(text::trim(list), ',');
    assert forall|i: int| 0 <= i < pieces.len() implies (semantics::tag_matches(
        text::trim(#[trigger] pieces[i]),
        ours,
        true,
    ) <==> text::trim(pieces[i]) == ours) && (semantics::tag_matches(
        text::trim(pieces[i]),
        ours,
        false,
    ) <==> text::trim(pieces[i]) == ours || text::trim(pieces[i]) == weak) by {
        lemma_compared(text::trim(pieces[i]), ours);
    }
    if has_member(list, ours) {
        let i = choose|i: int| 0 <= i < pieces.len() && text::trim(#[trigger] pieces[i]) == ours;
        assert(semantics::tag_matches(text::trim(text::split(text::trim(list), ',')[i]), ours, true));
        assert(semantics::tag_matches(
            text::trim(text::split(text::trim(list), ',')[i]),
            ours,
            false,
        ));
    }
    if has_member(list, weak) {
        let i = choose|i: int| 0 <= i < pieces.len() && text::trim(#[trigger] pieces[i]) == weak;
        assert(semantics::tag_matches(
            text::trim(text::split(text::trim(list), ',')[i]),
            ours,
            false,
        ));
    }
}

proof fn lemma_compared(candidate: Seq<char>, ours: Seq<char>)
    requires
        ours.len() > 0,
        ours[0] == '"',
    ensures
        semantics::tag_matches(candidate, ours, true) <==> candidate == ours,
        semantics::tag_matches(candidate, ours, false) <==> candidate == ours || candidate == seq![
            'W',
            '/',
        ] + ours,
{
    reveal_strlit("W/");
    let mark = seq!['W', '/'];
    assert("W/"@ =~= mark);
    if text::starts_with(ours, mark) {
        assert(ours.take(2)[0] == ours[0]);
    }
    texts::law_prefix_is_taken_off(mark, ours, candidate);
    if text::starts_with(candidate, mark) {
        assert(candidate.take(2)[0] == candidate[0]);
    }
}

/// A condition is written as a tag when it begins with a quote or with the mark of weakness.
proof fn lemma_tag_form(condition: Seq<char>)
    ensures
        semantics::is_tag_condition(condition) <==> condition.len() > 0 && condition[0] == '"'
            || condition.len() > 1 && condition[0] == 'W' && condition[1] == '/',
{
    reveal_strlit("W/");
    if text::starts_with(condition, "W/"@) {
        assert(condition.take(2)[0] == condition[0]);
        assert(condition.take(2)[1] == condition[1]);
    }
    if condition.len() > 1 && condition[0] == 'W' && condition[1] == '/' {
        assert(condition.take(2) =~= "W/"@);
    }
}

/// Which status answers a request: 412 when a precondition fails, then 304 when the client has
/// the file, then what its range selects. The body is the part that the range selects, or else
/// the whole file; HEAD has none.
pub proof fn law_status_of_a_request(
    req: RequestView,
    dates: DateView,
    file: FileView,
    cache_control: Option<Seq<char>>,
)
    ensures
        ({
            let plan = semantics::planned(req, dates, file, cache_control);
            let range = if req.range is Some && is_range_wanted(req, dates, file) {
                semantics::range_outcome(req.range.unwrap(), file.len)
            } else {
                RangeOutcome::Ignored
            };
            if is_refused(req, dates, file) {
                plan.status == 412 && plan.body == BodyPlan::NoBody
            } else if is_had(req, dates, file) {
                plan.status == 304 && plan.body == BodyPlan::NoBody
            } else {
                match range {
                    RangeOutcome::Satisfiable { offset, len } => plan.status == 206 && plan.body
                        == if req.head {
                        BodyPlan::NoBody
                    } else {
                        BodyPlan::Range { offset, len }
                    },
                    RangeOutcome::Unsatisfiable => plan.status == 416 && plan.body
                        == BodyPlan::NoBody,
                    RangeOutcome::Ignored => plan.status == 200 && plan.body == if req.head {
                        BodyPlan::NoBody
                    } else {
                        BodyPlan::Whole
                    },
                }
            }
        }),
{
    law_validator_is_time_and_size(file);
    if let Some(list) = req.if_match {
        lemma_listed(list, file);
    }
    if let Some(list) = req.if_none_match {
        lemma_listed(list, file);
    }
    if let Some(condition) = req.if_range {
        lemma_tag_form(condition);
        lemma_compared(text::trim(condition), validator(file));
    }
}

/// If-None-Match is answered 304 only for a star or the validator of the file itself, marked as
/// weak or not. A client that gives back the validator of another version gets the file.
pub proof fn law_stale_tag_is_not_current(
    req: RequestView,
    dates: DateView,
    file: FileView,
    other: FileView,
    cache_control: Option<Seq<char>>,
    weak: bool,
)
    requires
        other.mtime_sec * 1_000_000_000 + other.mtime_nsec != file.mtime_sec * 1_000_000_000
            + file.mtime_nsec || other.len != file.len || other.encoding != file.encoding,
        req.if_none_match == Some(
            if weak {
                seq!['W', '/'] + semantics::file_etag(other)
            } else {
                semantics::file_etag(other)
            },
        ),
        req.if_match is None,
        req.if_unmodified_since is None,
        req.range is None,
    ensures
        semantics::planned(req, dates, file, cache_control).status == 200,
{
    let list = req.if_none_match.unwrap();
    let tag = validator(other);
    law_validators_differ(file, other);
    law_validator_is_time_and_size(file);
    law_validator_is_time_and_size(other);
    let none = Seq::<char>::empty();
    assert(list.last() == tag.last());
    assert(!list.contains(',')) by {
        if list.contains(',') {
            let k = choose|k: int| 0 <= k < list.len() && list[k] == ',';
            if weak && k >= 2 {
                assert(tag[k - 2] == ',');
            }
        }
    }
    texts::law_trim_takes_off_white_space(none, list, none);
    assert(none + list + none =~= list);
    texts::law_split_is_at_every_separator(list, none, ',');
    assert(list.len() >= 2);
    let pieces = text::split(text::trim(list), ',');
    let ours = validator(file);
    let marked = seq!['W', '/'] + ours;
    assert(list != ours && list != marked) by {
        if weak {
            assert(list[0] == 'W');
            if list == marked {
                assert(list.skip(2) =~= tag);
                assert(marked.skip(2) =~= ours);
            }
        } else {
            assert(marked[0] == 'W');
        }
    }
    assert forall|i: int| 0 <= i < pieces.len() implies text::trim(#[trigger] pieces[i]) != ours
        && text::trim(pieces[i]) != marked by {
        assert(pieces[i] == list);
    }
    law_status_of_a_request(req, dates, file, cache_control);
}

/// What the dates of a request come to: each condition is read on its own, and the text of the
/// file is that of the second it was modified at.
pub proof fn law_dates_are_read_one_by_one(req: RequestView, file: FileView)
    ensures
        ({
            let dates = semantics::dates_of(req, file.mtime_sec);
            &&& dates.last_modified == headers::http_date_text(modified_at(file) as u64)
            &&& dates.if_modified_since == match req.if_modified_since {
                Some(value) => headers::http_date_instant(value),
                None => None,
            }
            &&& dates.if_unmodified_since == match req.if_unmodified_since {
                Some(value) => headers::http_date_instant(value),
                None => None,
            }
            &&& dates.if_range == match req.if_range {
                Some(value) => headers::http_date_instant(value),
                None => None,
            }
        }),
{
    law_validator_is_time_and_size(file);
}

proof fn lemma_contains_push<T>(s: Seq<T>, x: T, y: T)
    ensures
        s.push(x).contains(y) <==> s.contains(y) || x == y,
{
    if s.contains(y) {
        let k = choose|k: int| 0 <= k < s.len() && s[k] == y;
        assert(s.push(x)[k] == y);
    }
    if x == y {
        assert(s.push(x)[s.len() as int] == y);
    }
    if s.push(x).contains(y) && x != y {
        let k = choose|k: int| 0 <= k < s.push(x).len() && s.push(x)[k] == y;
        assert(s[k] == y);
    }
}

/// The token of an encoding in `Content-Encoding`; none for the file itself.
pub open spec fn encoding_token(encoding: Encoding) -> Option<Seq<char>> {
    match encoding {
        Encoding::Identity => None,
        Encoding::Brotli => Some(seq!['b', 'r']),
        Encoding::Zstd => Some(seq!['z', 's', 't', 'd']),
        Encoding::Gzip => Some(seq!['g', 'z', 'i', 'p']),
    }
}

proof fn lemma_base_headers(file: FileView, h: (Seq<char>, Seq<char>))
    ensures
        semantics::base_header_list(file).contains(h) <==> {
            ||| h == ("x-content-type-options"@, "nosniff"@)
            ||| file.vary_applies && h == ("vary"@, "Accept-Encoding"@)
        },
        semantics::base_header_list(file).len() == if file.vary_applies { 2nat } else { 1nat },
{
    let none = Seq::<(Seq<char>, Seq<char>)>::empty();
    let one = ("x-content-type-options"@, "nosniff"@);
    lemma_contains_push(none, one, h);
    assert(none.push(one) =~= seq![one]);
    lemma_contains_push(seq![one], ("vary"@, "Accept-Encoding"@), h);
}

proof fn lemma_success_headers(
    file: FileView,
    etag: Seq<char>,
    last_modified: Seq<char>,
    cache_control: Option<Seq<char>>,
    h: (Seq<char>, Seq<char>),
)
    ensures
        ({
            let list = semantics::success_header_list(file, etag, last_modified, cache_control);
            &&& list.contains(h) <==> {
                ||| h == ("x-content-type-options"@, "nosniff"@)
                ||| file.vary_applies && h == ("vary"@, "Accept-Encoding"@)
                ||| h == ("content-type"@, file.content_type)
                ||| h == ("etag"@, etag)
                ||| h == ("last-modified"@, last_modified)
                ||| h == ("accept-ranges"@, "bytes"@)
                ||| (encoding_token(file.encoding) matches Some(token) && h == (
                    "content-encoding"@,
                    token,
                ))
                ||| (cache_control matches Some(value) && h == ("cache-control"@, value))
            }
            &&& list.len() == (if file.vary_applies { 2nat } else { 1nat }) + 4 + (
            if file.encoding == Encoding::Identity { 0nat } else { 1nat }) + (
            if cache_control is Some { 1nat } else { 0nat })
        }),
{
    reveal_strlit("br");
    reveal_strlit("zstd");
    reveal_strlit("gzip");
    assert("br"@ =~= seq!['b', 'r']);
    assert("zstd"@ =~= seq!['z', 's', 't', 'd']);
    assert("gzip"@ =~= seq!['g', 'z', 'i', 'p']);
    let a = semantics::base_header_list(file);
    let b = a.push(("content-type"@, file.content_type));
    let c = b.push(("etag"@, etag));
    let d = c.push(("last-modified"@, last_modified));
    let e = d.push(("accept-ranges"@, "bytes"@));
    lemma_base_headers(file, h);
    lemma_contains_push(a, ("content-type"@, file.content_type), h);
    lemma_contains_push(b, ("etag"@, etag), h);
    lemma_contains_push(c, ("last-modified"@, last_modified), h);
    lemma_contains_push(d, ("accept-ranges"@, "bytes"@), h);
    let f = match sidecar::content_encoding_of(file.encoding) {
        Some(token) => {
            lemma_contains_push(e, ("content-encoding"@, token), h);
            e.push(("content-encoding"@, token))
        },
        None => e,
    };
    if let Some(value) = cache_control {
        lemma_contains_push(f, ("cache-control"@, value), h);
    }
}

/// Which headers a response carries, by its status: `nosniff` and, where sidecars are
/// negotiated, `Vary` always; the validator and the date with the file and with 304; the type,
/// the encoding and the policy of the mount with the file; its length with the bytes that are
/// sent; and the range with a part, or with the refusal of one. There are no others, and none
/// comes twice.
pub proof fn law_headers_of_a_response(
    req: RequestView,
    dates: DateView,
    file: FileView,
    cache_control: Option<Seq<char>>,
    h: (Seq<char>, Seq<char>),
)
    ensures
        ({
            let plan = semantics::planned(req, dates, file, cache_control);
            let total = numeral::decimal(file.len as nat);
            let part = semantics::range_outcome(req.range.unwrap(), file.len);
            let sent = plan.status == 200 || plan.status == 206;
            &&& plan.headers.contains(h) <==> {
                ||| h == ("x-content-type-options"@, "nosniff"@)
                ||| file.vary_applies && h == ("vary"@, "Accept-Encoding"@)
                ||| (sent || plan.status == 304) && h == ("etag"@, validator(file))
                ||| (sent || plan.status == 304) && h == ("last-modified"@, dates.last_modified)
                ||| sent && h == ("content-type"@, file.content_type)
                ||| sent && h == ("accept-ranges"@, "bytes"@)
                ||| sent && (encoding_token(file.encoding) matches Some(token) && h == (
                    "content-encoding"@,
                    token,
                ))
                ||| sent && (cache_control matches Some(value) && h == ("cache-control"@, value))
                ||| plan.status == 200 && h == ("content-length"@, total)
                ||| plan.status == 206 && (part matches RangeOutcome::Satisfiable { offset, len }
                    && (h == ("content-length"@, numeral::decimal(len as nat)) || h == (
                    "content-range"@,
                    "bytes "@ + numeral::decimal(offset as nat) + seq!['-'] + numeral::decimal(
                        (offset + len - 1) as nat,
                    ) + seq!['/'] + total,
                )))
                ||| plan.status == 416 && h == ("content-range"@, "bytes */"@ + total)
            }
            &&& plan.headers.len() == (if file.vary_applies { 2nat } else { 1nat }) + if sent {
                4 + (if file.encoding == Encoding::Identity { 0nat } else { 1nat }) + (
                if cache_control is Some { 1nat } else { 0nat }) + (if plan.status == 206 {
                    2nat
                } else {
                    1nat
                })
            } else if plan.status == 304 {
                2
            } else if plan.status == 416 {
                1
            } else {
                0
            }
        }),
{
    let plan = semantics::planned(req, dates, file, cache_control);
    let etag = semantics::file_etag(file);
    let base = semantics::base_header_list(file);
    let success = semantics::success_header_list(file, etag, dates.last_modified, cache_control);
    law_validator_is_time_and_size(file);
    law_status_of_a_request(req, dates, file, cache_control);
    lemma_base_headers(file, h);
    lemma_success_headers(file, etag, dates.last_modified, cache_control, h);
    if plan.status == 304 {
        lemma_contains_push(base, ("etag"@, etag), h);
        lemma_contains_push(
            base.push(("etag"@, etag)),
            ("last-modified"@, dates.last_modified),
            h,
        );
    } else if plan.status == 416 {
        lemma_contains_push(base, ("content-range"@, semantics::no_range_text(file.len)), h);
    } else if plan.status == 200 {
        lemma_contains_push(
            success,
            ("content-length"@, numeral::decimal(file.len as nat)),
            h,
        );
    } else if plan.status == 206 {
        if let RangeOutcome::Satisfiable { offset, len } = semantics::range_outcome(
            req.range.unwrap(),
            file.len,
        ) {
            let x = ("content-length"@, numeral::decimal(len as nat));
            lemma_contains_push(success, x, h);
            lemma_contains_push(
                success.push(x),
                ("content-range"@, semantics::part_range_text(offset, len, file.len)),
                h,
            );
        }
    }
}

/// The facts of a request, a file and a policy stand for what their fields hold.
pub proof fn law_facts_are_what_they_hold(
    req: semantics::RequestFacts,
    file: semantics::FileFacts,
    policy: semantics::ResponsePolicy,
)
    ensures
        req@.head == req.head,
        req.if_match matches Some(v) ==> req@.if_match == Some(v@),
        req.if_none_match matches Some(v) ==> req@.if_none_match == Some(v@),
        req.if_modified_since matches Some(v) ==> req@.if_modified_since == Some(v@),
        req.if_unmodified_since matches Some(v) ==> req@.if_unmodified_since == Some(v@),
        req.if_range matches Some(v) ==> req@.if_range == Some(v@),
        req.range matches Some(v) ==> req@.range == Some(v@),
        req@.if_match is Some == req.if_match is Some,
        req@.if_none_match is Some == req.if_none_match is Some,
        req@.if_modified_since is Some == req.if_modified_since is Some,
        req@.if_unmodified_since is Some == req.if_unmodified_since is Some,
        req@.if_range is Some == req.if_range is Some,
        req@.range is Some == req.range is Some,
        file@ == (FileView {
            len: file.len,
            mtime_sec: file.mtime_sec,
            mtime_nsec: file.mtime_nsec,
            encoding: file.encoding,
            vary_applies: file.vary_applies,
            content_type: file.content_type@,
        }),
        policy.cache_control matches Some(v) ==> policy@ == Some(v@),
        policy@ is Some == policy.cache_control is Some,
{
}

} // verus!
