//! Request-target classification: one decode-once pipeline.
//!
//! An HTTP server hands the raw request target here and never decides static eligibility from
//! raw bytes itself; a router that matches raw bytes beside an engine that matches decoded
//! bytes would be two parsers that can disagree.
//!
//! The order, each step exactly once: method gate, origin-form gate, query stripped at the raw
//! first `?`, percent-decoding, byte screens (NUL, other controls, UTF-8), trailing-slash flag,
//! segmentation (empty and `.` segments dropped, `..` refused), longest-prefix mount match on
//! segments, per-mount dotfile policy.
//!
//! Structural hostility is a [`Classification::Reject`] whatever the mount table holds, so that
//! the answer to a hostile target tells nothing about the mounts.

use crate::text;
use vstd::prelude::*;
use vstd::slice::slice_subrange;
use vstd::string::*;
use vstd::utf8::*;

verus! {

/// Not static-eligible: the request flows on to the application.
#[derive(Debug, Clone, Copy, PartialEq, Eq, Structural)]
pub enum NotStaticReason {
    /// Only GET and HEAD are static-eligible.
    MethodNotGetOrHead,
    /// The target has no leading `/` (absolute form, `*`, CONNECT authority).
    NonOriginForm,
    /// No configured mount prefix matched the normalized path.
    NoMountMatched,
}

/// Structurally hostile target: the server must answer a fixed 400 and must not fall through
/// to the application.
#[derive(Debug, Clone, Copy, PartialEq, Eq, Structural)]
pub enum StructuralReject {
    /// `%` not followed by two hex digits.
    InvalidEscape,
    /// A decoded NUL.
    NulByte,
    /// Any other decoded C0 control, or DEL.
    ControlByte,
    /// The decoded path is not UTF-8.
    NotUtf8,
    /// A `..` component, however it was spelled.
    DotDotComponent,
}

/// A policy miss under a matched mount, answered as that mount answers misses.
#[derive(Debug, Clone, Copy, PartialEq, Eq, Structural)]
pub enum PolicyMiss {
    /// A dot-segment below a mount that denies dotfiles.
    DotfileDenied,
}

/// The classification of one request target against a mount table.
#[derive(Debug, Clone, PartialEq, Eq)]
pub enum Classification {
    NotStatic(NotStaticReason),
    Reject(StructuralReject),
    Miss { mount: usize, reason: PolicyMiss },
    Candidate(Candidate),
}

/// A static-eligible request, fully normalized and safe to resolve.
#[derive(Debug, Clone, PartialEq, Eq)]
pub struct Candidate {
    /// Index into the [`Mounts`] table used for classification.
    pub mount: usize,
    /// Path relative to the mount's docroot: decoded, normalized, no leading `/`, and empty
    /// for the mount root itself.
    pub rel_path: String,
    /// Whether the once-decoded path ended with `/`.
    pub trailing_slash: bool,
}

/// Errors constructing a [`Mount`] or a [`Mounts`] table.
#[derive(Debug, Clone, PartialEq, Eq)]
pub enum MountError {
    /// A mount prefix must start with `/`.
    NotAbsolute(String),
    /// The prefix holds a `.` or `..` segment, or a forbidden character (`%`, `?`, `#`, a C0
    /// control, DEL).
    HostileSegment(String),
    /// Two mounts normalize to the same prefix.
    Duplicate(String),
}

/// One URL-prefix mapping; the docroot itself lives with the resolver.
#[derive(Debug)]
pub struct Mount {
    prefix: String,
    prefix_segments: Vec<Vec<char>>,
    allow_dotfiles: bool,
}

/// A validated mount table. Matching is longest-prefix on whole segments.
#[derive(Debug)]
pub struct Mounts {
    mounts: Vec<Mount>,
}

// ---- specifications ----

/// What a mount is: the segments of its prefix, and whether it serves dotfiles.
pub struct MountView {
    pub segments: Seq<Seq<char>>,
    pub allow_dotfiles: bool,
}

pub struct CandidateView {
    pub mount: int,
    pub rel_path: Seq<char>,
    pub trailing_slash: bool,
}

pub enum ClassificationView {
    NotStatic(NotStaticReason),
    Reject(StructuralReject),
    Miss { mount: int, reason: PolicyMiss },
    Candidate(CandidateView),
}

impl View for Candidate {
    type V = CandidateView;

    open spec fn view(&self) -> CandidateView {
        CandidateView {
            mount: self.mount as int,
            rel_path: self.rel_path@,
            trailing_slash: self.trailing_slash,
        }
    }
}

impl View for Classification {
    type V = ClassificationView;

    open spec fn view(&self) -> ClassificationView {
        match *self {
            Classification::NotStatic(reason) => ClassificationView::NotStatic(reason),
            Classification::Reject(reason) => ClassificationView::Reject(reason),
            Classification::Miss { mount, reason } => ClassificationView::Miss {
                mount: mount as int,
                reason,
            },
            Classification::Candidate(c) => ClassificationView::Candidate(c@),
        }
    }
}

impl View for Mount {
    type V = MountView;

    closed spec fn view(&self) -> MountView {
        MountView {
            segments: self.prefix_segments@.map_values(|s: Vec<char>| s@),
            allow_dotfiles: self.allow_dotfiles,
        }
    }
}

impl View for Mounts {
    type V = Seq<MountView>;

    closed spec fn view(&self) -> Seq<MountView> {
        mount_views(self.mounts@)
    }
}

/// The value of a hex digit, in either case.
pub open spec fn hex_digit_value(b: u8) -> Option<u8> {
    if 0x30 <= b <= 0x39 {
        Some((b - 0x30) as u8)
    } else if 0x61 <= b <= 0x66 {
        Some((b - 0x61 + 10) as u8)
    } else if 0x41 <= b <= 0x46 {
        Some((b - 0x41 + 10) as u8)
    } else {
        None
    }
}

/// Percent-decoding, once: each `%` with its two hex digits stands for one byte. `None` when a
/// `%` is not followed by two hex digits.
pub open spec fn percent_decoded(s: Seq<u8>) -> Option<Seq<u8>>
    decreases s.len(),
{
    if s.len() == 0 {
        Some(Seq::empty())
    } else if s[0] == 0x25 {
        if s.len() >= 3 {
            match (hex_digit_value(s[1]), hex_digit_value(s[2]), percent_decoded(s.skip(3))) {
                (Some(hi), Some(lo), Some(rest)) => Some(seq![(hi * 16 + lo) as u8] + rest),
                _ => None,
            }
        } else {
            None
        }
    } else {
        match percent_decoded(s.skip(1)) {
            Some(rest) => Some(seq![s[0]] + rest),
            None => None,
        }
    }
}

/// The part of a target before its raw query.
pub open spec fn raw_path(target: Seq<char>) -> Seq<char> {
    target.take(text::find(target, '?'))
}

pub open spec fn is_control_byte(b: u8) -> bool {
    b < 0x20 || b == 0x7f
}

pub open spec fn has_control_byte(bytes: Seq<u8>) -> bool {
    exists|i: int| 0 <= i < bytes.len() && is_control_byte(#[trigger] bytes[i])
}

pub open spec fn dot() -> Seq<char> {
    seq!['.']
}

pub open spec fn dot_dot() -> Seq<char> {
    seq!['.', '.']
}

/// A segment that normalization keeps.
pub open spec fn is_kept(segment: Seq<char>) -> bool {
    segment.len() > 0 && segment != dot()
}

/// The segments of a decoded path: duplicate slashes merged, `.` dropped.
pub open spec fn path_segments(path: Seq<char>) -> Seq<Seq<char>> {
    text::split(path, '/').filter(|s: Seq<char>| is_kept(s))
}

pub open spec fn has_dot_dot(path: Seq<char>) -> bool {
    text::split(path, '/').contains(dot_dot())
}

/// Whether the prefix segments of `m` begin `segments`.
pub open spec fn mount_matches(m: MountView, segments: Seq<Seq<char>>) -> bool {
    m.segments.len() <= segments.len() && segments.take(m.segments.len() as int) == m.segments
}

/// The first mount whose matching prefix no other matching prefix exceeds.
pub open spec fn best_mount(table: Seq<MountView>, segments: Seq<Seq<char>>) -> Option<int>
    decreases table.len(),
{
    if table.len() == 0 {
        None
    } else {
        let earlier = best_mount(table.drop_last(), segments);
        let last = table.last();
        if mount_matches(last, segments) && match earlier {
            Some(i) => last.segments.len() > table[i].segments.len(),
            None => true,
        } {
            Some(table.len() - 1)
        } else {
            earlier
        }
    }
}

pub open spec fn is_dotfile(segment: Seq<char>) -> bool {
    segment.len() > 0 && segment[0] == '.'
}

pub open spec fn has_dotfile(segments: Seq<Seq<char>>) -> bool {
    exists|i: int| 0 <= i < segments.len() && is_dotfile(#[trigger] segments[i])
}

pub open spec fn ends_with_slash(path: Seq<char>) -> bool {
    path.len() > 0 && path.last() == '/'
}

/// Where a decoded, screened path lands in a mount table.
pub open spec fn placed(path: Seq<char>, table: Seq<MountView>) -> ClassificationView {
    let segments = path_segments(path);
    if has_dot_dot(path) {
        ClassificationView::Reject(StructuralReject::DotDotComponent)
    } else {
        match best_mount(table, segments) {
            None => ClassificationView::NotStatic(NotStaticReason::NoMountMatched),
            Some(mount) => {
                let rel = segments.skip(table[mount].segments.len() as int);
                if !table[mount].allow_dotfiles && has_dotfile(rel) {
                    ClassificationView::Miss { mount, reason: PolicyMiss::DotfileDenied }
                } else {
                    ClassificationView::Candidate(
                        CandidateView {
                            mount,
                            rel_path: text::join(rel, '/'),
                            trailing_slash: ends_with_slash(path),
                        },
                    )
                }
            },
        }
    }
}

/// The reason for which the decoded bytes of a path are refused before segmentation, if any.
pub open spec fn screened(bytes: Seq<u8>) -> Option<StructuralReject> {
    if bytes.contains(0) {
        Some(StructuralReject::NulByte)
    } else if has_control_byte(bytes) {
        Some(StructuralReject::ControlByte)
    } else if !valid_utf8(bytes) {
        Some(StructuralReject::NotUtf8)
    } else {
        None
    }
}

/// The classification of an origin-form target of an eligible method.
pub open spec fn path_classification(
    target: Seq<char>,
    table: Seq<MountView>,
) -> ClassificationView {
    match percent_decoded(encode_utf8(raw_path(target))) {
        None => ClassificationView::Reject(StructuralReject::InvalidEscape),
        Some(bytes) => match screened(bytes) {
            Some(reject) => ClassificationView::Reject(reject),
            None => placed(decode_utf8(bytes), table),
        },
    }
}

pub open spec fn is_eligible_method(method: Seq<char>) -> bool {
    method == "GET"@ || method == "HEAD"@
}

pub open spec fn is_origin_form(target: Seq<char>) -> bool {
    target.len() > 0 && target[0] == '/'
}

/// The classification of one request.
pub open spec fn classification(
    method: Seq<char>,
    target: Seq<char>,
    table: Seq<MountView>,
) -> ClassificationView {
    if !is_eligible_method(method) {
        ClassificationView::NotStatic(NotStaticReason::MethodNotGetOrHead)
    } else if !is_origin_form(target) {
        ClassificationView::NotStatic(NotStaticReason::NonOriginForm)
    } else {
        path_classification(target, table)
    }
}

/// A character that no mount prefix may hold.
pub open spec fn is_forbidden_in_prefix(c: char) -> bool {
    c < ' ' || c == '\u{7f}' || c == '%' || c == '?' || c == '#'
}

/// A segment that no mount prefix may hold.
pub open spec fn is_hostile_in_prefix(segment: Seq<char>) -> bool {
    ||| segment == dot()
    ||| segment == dot_dot()
    ||| exists|i: int| 0 <= i < segment.len() && is_forbidden_in_prefix(#[trigger] segment[i])
}

pub open spec fn has_hostile_segment(prefix: Seq<char>) -> bool {
    exists|i: int|
        0 <= i < text::split(prefix, '/').len() && is_hostile_in_prefix(
            #[trigger] text::split(prefix, '/')[i],
        )
}

/// The segments of a mount prefix: what stands between its slashes.
pub open spec fn prefix_segments_of(prefix: Seq<char>) -> Seq<Seq<char>> {
    text::split(prefix, '/').filter(|s: Seq<char>| s.len() > 0)
}

/// The normalized prefix with the given segments: `/` alone when there are none.
pub open spec fn prefix_text(segments: Seq<Seq<char>>) -> Seq<char> {
    seq!['/'] + text::join(segments, '/')
}

/// A segment that a mount prefix can hold.
pub open spec fn is_prefix_segment(segment: Seq<char>) -> bool {
    &&& segment.len() > 0
    &&& !segment.contains('/')
    &&& !is_hostile_in_prefix(segment)
}

/// What holds of every mount.
pub open spec fn is_mount(m: MountView) -> bool {
    forall|i: int| 0 <= i < m.segments.len() ==> is_prefix_segment(#[trigger] m.segments[i])
}

/// What holds of every mount table.
pub open spec fn is_mount_table(table: Seq<MountView>) -> bool {
    &&& forall|i: int| 0 <= i < table.len() ==> is_mount(#[trigger] table[i])
    &&& forall|i: int, j: int|
        0 <= i < j < table.len() ==> prefix_text(#[trigger] table[i].segments) != prefix_text(
            #[trigger] table[j].segments,
        )
}

/// Whether an earlier mount has the prefix of the one at `j`.
pub open spec fn repeats_earlier(table: Seq<MountView>, j: int) -> bool {
    exists|i: int|
        0 <= i < j && prefix_text(#[trigger] table[i].segments) == prefix_text(table[j].segments)
}

/// The first mount whose prefix an earlier one has.
pub open spec fn first_repeat(table: Seq<MountView>, j: int) -> bool {
    &&& 0 <= j < table.len()
    &&& repeats_earlier(table, j)
    &&& forall|k: int| 0 <= k < j ==> !#[trigger] repeats_earlier(table, k)
}

pub open spec fn mount_views(mounts: Seq<Mount>) -> Seq<MountView> {
    mounts.map_values(|m: Mount| m@)
}

pub enum MountErrorView {
    NotAbsolute(Seq<char>),
    HostileSegment(Seq<char>),
    Duplicate(Seq<char>),
}

impl View for MountError {
    type V = MountErrorView;

    open spec fn view(&self) -> MountErrorView {
        match *self {
            MountError::NotAbsolute(p) => MountErrorView::NotAbsolute(p@),
            MountError::HostileSegment(p) => MountErrorView::HostileSegment(p@),
            MountError::Duplicate(p) => MountErrorView::Duplicate(p@),
        }
    }
}

/// What a mount error tells an operator.
pub open spec fn mount_error_text(e: MountErrorView) -> Seq<char> {
    match e {
        MountErrorView::NotAbsolute(p) => "mount prefix must start with '/': "@ + text::debug_text(
            p,
        ),
        MountErrorView::HostileSegment(p) =>
            "mount prefix contains a forbidden segment or byte (., .., %, ?, #, control): "@
            + text::debug_text(p),
        MountErrorView::Duplicate(p) => "duplicate mount prefix after normalization: "@
            + text::debug_text(p),
    }
}

impl MountError {
    /// The message for operators.
    pub fn message(&self) -> (r: String)
        ensures
            r@ == mount_error_text(self@),
    {
        match self {
            MountError::NotAbsolute(p) => text::concat(
                "mount prefix must start with '/': ",
                text::quoted(p.as_str()).as_str(),
            ),
            MountError::HostileSegment(p) => text::concat(
                "mount prefix contains a forbidden segment or byte (., .., %, ?, #, control): ",
                text::quoted(p.as_str()).as_str(),
            ),
            MountError::Duplicate(p) => text::concat(
                "duplicate mount prefix after normalization: ",
                text::quoted(p.as_str()).as_str(),
            ),
        }
    }
}

// ---- percent-decoding ----

/// Percent-decodes exactly once. A `%` not followed by two hex digits is hostile.
pub fn decode_once(input: &[u8]) -> (r: Result<Vec<u8>, StructuralReject>)
    ensures
        match r {
            Ok(bytes) => percent_decoded(input@) == Some(bytes@),
            Err(e) => e == StructuralReject::InvalidEscape && percent_decoded(input@) is None,
        },
{
    let mut out: Vec<u8> = Vec::with_capacity(input.len());
    let mut i: usize = 0;
    assert(input@.skip(0) =~= input@);
    while i < input.len()
        invariant
            i <= input@.len(),
            match percent_decoded(input@.skip(i as int)) {
                Some(rest) => percent_decoded(input@) == Some(out@ + rest),
                None => percent_decoded(input@) is None,
            },
        decreases input.len() - i,
    {
        let byte = input[i];
        let ghost rest = input@.skip(i as int);
        let ghost before = out@;
        if byte == 0x25 {
            if input.len() - i < 3 {
                return Err(StructuralReject::InvalidEscape);
            }
            match (hex_value(input[i + 1]), hex_value(input[i + 2])) {
                (Some(hi), Some(lo)) => {
                    out.push(hi * 16 + lo);
                    proof {
                        assert(rest.skip(3) =~= input@.skip(i + 3));
                        if let Some(tail) = percent_decoded(input@.skip(i + 3)) {
                            assert(before + (seq![(hi * 16 + lo) as u8] + tail) =~= out@ + tail);
                        }
                    }
                    i += 3;
                },
                _ => {
                    return Err(StructuralReject::InvalidEscape);
                },
            }
        } else {
            out.push(byte);
            proof {
                assert(rest.skip(1) =~= input@.skip(i + 1));
                if let Some(tail) = percent_decoded(input@.skip(i + 1)) {
                    assert(before + (seq![byte] + tail) =~= out@ + tail);
                }
            }
            i += 1;
        }
    }
    proof {
        assert(input@.skip(i as int) =~= Seq::empty());
        assert(out@ + Seq::<u8>::empty() =~= out@);
    }
    Ok(out)
}

/// [`decode_once`] under the name that fuzzers call.
pub fn decode_once_for_fuzzing(input: &[u8]) -> (r: Result<Vec<u8>, StructuralReject>)
    ensures
        match r {
            Ok(bytes) => percent_decoded(input@) == Some(bytes@),
            Err(e) => e == StructuralReject::InvalidEscape && percent_decoded(input@) is None,
        },
{
    decode_once(input)
}

fn hex_value(byte: u8) -> (r: Option<u8>)
    ensures
        r == hex_digit_value(byte),
        r matches Some(v) ==> v < 16,
{
    if 0x30 <= byte && byte <= 0x39 {
        Some(byte - 0x30)
    } else if 0x61 <= byte && byte <= 0x66 {
        Some(byte - 0x61 + 10)
    } else if 0x41 <= byte && byte <= 0x46 {
        Some(byte - 0x41 + 10)
    } else {
        None
    }
}


// ---- mounts ----

/// The first `n` pieces that the filter keeps, extended by one more.
pub proof fn lemma_filter_next(pieces: Seq<Seq<char>>, keep: spec_fn(Seq<char>) -> bool, n: int)
    requires
        0 <= n < pieces.len(),
    ensures
        pieces.take(n + 1).filter(keep) == if keep(pieces[n]) {
            pieces.take(n).filter(keep).push(pieces[n])
        } else {
            pieces.take(n).filter(keep)
        },
{
    reveal(Seq::filter);
    assert(pieces.take(n + 1).drop_last() =~= pieces.take(n));
}

/// What holds of every piece holds of those that a filter keeps, beside what it asks.
pub proof fn lemma_filter_keeps(pieces: Seq<Seq<char>>, keep: spec_fn(Seq<char>) -> bool)
    ensures
        forall|i: int|
            0 <= i < pieces.filter(keep).len() ==> keep(#[trigger] pieces.filter(keep)[i])
                && pieces.contains(pieces.filter(keep)[i]),
    decreases pieces.len(),
{
    reveal(Seq::filter);
    if pieces.len() > 0 {
        let shorter = pieces.drop_last();
        lemma_filter_keeps(shorter, keep);
        assert forall|i: int| 0 <= i < pieces.filter(keep).len() implies keep(
            #[trigger] pieces.filter(keep)[i],
        ) && pieces.contains(pieces.filter(keep)[i]) by {
            if i < shorter.filter(keep).len() {
                assert(pieces.filter(keep)[i] == shorter.filter(keep)[i]);
                let k = choose|k: int|
                    0 <= k < shorter.len() && shorter[k] == shorter.filter(keep)[i];
                assert(pieces[k] == pieces.filter(keep)[i]);
            } else {
                assert(pieces.filter(keep)[i] == pieces[pieces.len() - 1]);
            }
        }
    }
}

/// Whether a prefix segment holds a forbidden character.
fn has_forbidden(segment: &[char]) -> (r: bool)
    ensures
        r == exists|i: int|
            0 <= i < segment@.len() && is_forbidden_in_prefix(#[trigger] segment@[i]),
{
    let mut i: usize = 0;
    while i < segment.len()
        invariant
            i <= segment@.len(),
            forall|j: int| 0 <= j < i ==> !is_forbidden_in_prefix(#[trigger] segment@[j]),
        decreases segment.len() - i,
    {
        let c = segment[i];
        if c < ' ' || c == '\u{7f}' || c == '%' || c == '?' || c == '#' {
            assert(is_forbidden_in_prefix(segment@[i as int]));
            return true;
        }
        i += 1;
    }
    false
}

pub fn is_dot(segment: &[char]) -> (r: bool)
    ensures
        r == (segment@ == dot()),
{
    let r = segment.len() == 1 && segment[0] == '.';
    assert(r ==> segment@ =~= dot());
    r
}

pub fn is_dot_dot(segment: &[char]) -> (r: bool)
    ensures
        r == (segment@ == dot_dot()),
{
    let r = segment.len() == 2 && segment[0] == '.' && segment[1] == '.';
    assert(r ==> segment@ =~= dot_dot());
    r
}

impl Mount {
    #[verifier::type_invariant]
    pub closed spec fn wf(self) -> bool {
        &&& self.prefix@ == prefix_text(self@.segments)
        &&& is_mount(self@)
    }

    /// Validates and normalizes a mount prefix: trailing and duplicate slashes go away.
    pub fn new(prefix: &str, allow_dotfiles: bool) -> (r: Result<Mount, MountError>)
        ensures
            match r {
                Ok(m) => {
                    &&& is_origin_form(prefix@)
                    &&& !has_hostile_segment(prefix@)
                    &&& m@.segments == prefix_segments_of(prefix@)
                    &&& m@.allow_dotfiles == allow_dotfiles
                    &&& is_mount(m@)
                },
                Err(MountError::NotAbsolute(p)) => p@ == prefix@ && !is_origin_form(prefix@),
                Err(MountError::HostileSegment(p)) => p@ == prefix@ && is_origin_form(prefix@)
                    && has_hostile_segment(prefix@),
                Err(MountError::Duplicate(_)) => false,
            },
    {
        let chars = text::chars_of(prefix);
        if chars.len() == 0 || chars[0] != '/' {
            return Err(MountError::NotAbsolute(prefix.to_owned()));
        }
        let pieces = text::split_chars(chars.as_slice(), '/');
        let ghost all = text::split(prefix@, '/');
        let ghost keep = |s: Seq<char>| s.len() > 0;
        let mut segments: Vec<Vec<char>> = Vec::new();
        let mut kept: Vec<&[char]> = Vec::new();
        let mut i: usize = 0;
        proof {
            reveal(Seq::filter);
            assert(text::views(kept@) =~= all.take(0).filter(keep));
        }
        while i < pieces.len()
            invariant
                i <= pieces@.len(),
                is_origin_form(prefix@),
                text::views(pieces@) == all,
                all == text::split(prefix@, '/'),
                keep == (|s: Seq<char>| s.len() > 0),
                text::views(kept@) == all.take(i as int).filter(keep),
                segments@.map_values(|s: Vec<char>| s@) == text::views(kept@),
                forall|j: int| 0 <= j < i ==> !is_hostile_in_prefix(#[trigger] all[j]),
            decreases pieces.len() - i,
        {
            let piece = pieces[i];
            assert(all[i as int] == piece@);
            if is_dot(piece) || is_dot_dot(piece) || has_forbidden(piece) {
                assert(is_hostile_in_prefix(all[i as int]));
                return Err(MountError::HostileSegment(prefix.to_owned()));
            }
            proof {
                lemma_filter_next(all, keep, i as int);
            }
            if piece.len() > 0 {
                let ghost kept_before = text::views(kept@);
                let owned = vstd::slice::slice_to_vec(piece);
                segments.push(owned);
                kept.push(piece);
                proof {
                    assert(text::views(kept@) =~= kept_before.push(piece@));
                    assert(segments@.map_values(|s: Vec<char>| s@) =~= kept_before.push(piece@));
                }
            }
            i += 1;
        }
        let joined = text::join_chars(kept.as_slice(), '/');
        let mut normalized = String::new();
        normalized.push('/');
        normalized.append(joined.as_str());
        let ghost segs = segments@.map_values(|s: Vec<char>| s@);
        proof {
            assert(all.take(i as int) =~= all);
            assert(segs == prefix_segments_of(prefix@));
            assert(normalized@ =~= prefix_text(segs));
            text::lemma_split(prefix@, '/');
            lemma_filter_keeps(all, keep);
            assert forall|k: int| 0 <= k < segs.len() implies is_prefix_segment(
                #[trigger] segs[k],
            ) by {
                assert(keep(all.filter(keep)[k]));
                let j = choose|j: int| 0 <= j < all.len() && all[j] == segs[k];
                assert(!is_hostile_in_prefix(all[j]));
                if segs[k].contains('/') {
                    let n = choose|n: int| 0 <= n < segs[k].len() && segs[k][n] == '/';
                    assert(text::split(prefix@, '/')[j][n] == '/');
                }
            }
        }
        Ok(Mount { prefix: normalized, prefix_segments: segments, allow_dotfiles })
    }

    /// The normalized prefix (`/` for the root mount).
    pub fn prefix(&self) -> (r: &str)
        ensures
            r@ == prefix_text(self@.segments),
            is_mount(self@),
    {
        proof {
            use_type_invariant(self);
        }
        self.prefix.as_str()
    }

    /// Whether dot-segments below this mount are served.
    pub fn allow_dotfiles(&self) -> (r: bool)
        ensures
            r == self@.allow_dotfiles,
    {
        self.allow_dotfiles
    }
}


impl Clone for Mount {
    fn clone(&self) -> (r: Mount)
        ensures
            r@ == self@,
    {
        proof {
            use_type_invariant(self);
        }
        let mut segments: Vec<Vec<char>> = Vec::new();
        let mut i: usize = 0;
        while i < self.prefix_segments.len()
            invariant
                i <= self.prefix_segments@.len(),
                segments@.len() == i,
                forall|j: int| 0 <= j < i ==> segments@[j]@ == self.prefix_segments@[j]@,
            decreases self.prefix_segments.len() - i,
        {
            segments.push(vstd::slice::slice_to_vec(self.prefix_segments[i].as_slice()));
            i += 1;
        }
        assert(segments@.map_values(|s: Vec<char>| s@) =~= self@.segments);
        Mount {
            prefix: self.prefix.clone(),
            prefix_segments: segments,
            allow_dotfiles: self.allow_dotfiles,
        }
    }
}

impl Mounts {
    #[verifier::type_invariant]
    pub closed spec fn wf(self) -> bool {
        is_mount_table(self@)
    }

    /// Builds a table, refusing duplicate normalized prefixes. Nested mounts are fine; the
    /// longest segment-prefix wins when a target is classified.
    pub fn new(mounts: Vec<Mount>) -> (r: Result<Mounts, MountError>)
        ensures
            match r {
                Ok(table) => {
                    &&& table@ == mount_views(mounts@)
                    &&& is_mount_table(table@)
                },
                Err(MountError::Duplicate(p)) => exists|j: int|
                    first_repeat(mount_views(mounts@), j) && p@ == prefix_text(
                        #[trigger] mount_views(mounts@)[j].segments,
                    ),
                Err(_) => false,
            },
    {
        let ghost table = mount_views(mounts@);
        let mut j: usize = 0;
        while j < mounts.len()
            invariant
                j <= mounts@.len(),
                table == mount_views(mounts@),
                forall|k: int| 0 <= k < j ==> !#[trigger] repeats_earlier(table, k),
                forall|k: int| 0 <= k < j ==> is_mount(#[trigger] table[k]),
            decreases mounts.len() - j,
        {
            let prefix = mounts[j].prefix();
            assert(table[j as int] == mounts@[j as int]@);
            let mut i: usize = 0;
            while i < j
                invariant
                    i <= j < mounts@.len(),
                    table == mount_views(mounts@),
                    prefix@ == prefix_text(table[j as int].segments),
                    forall|k: int| 0 <= k < j ==> !#[trigger] repeats_earlier(table, k),
                    forall|k: int|
                        0 <= k < i ==> prefix_text(#[trigger] table[k].segments) != prefix@,
                decreases j - i,
            {
                assert(table[i as int] == mounts@[i as int]@);
                if text::same_text(mounts[i].prefix(), prefix) {
                    assert(prefix_text(table[i as int].segments) == prefix@);
                    assert(first_repeat(table, j as int));
                    assert(prefix@ == prefix_text(mount_views(mounts@)[j as int].segments));
                    return Err(MountError::Duplicate(prefix.to_owned()));
                }
                i += 1;
            }
            j += 1;
        }
        proof {
            assert forall|i: int, k: int| 0 <= i < k < table.len() implies prefix_text(
                #[trigger] table[i].segments,
            ) != prefix_text(#[trigger] table[k].segments) by {
                assert(!repeats_earlier(table, k));
            }
        }
        Ok(Mounts { mounts })
    }

    /// The mount at `index`, as reported in a [`Classification`].
    pub fn get(&self, index: usize) -> (r: &Mount)
        requires
            index < self@.len(),
        ensures
            r@ == self@[index as int],
            is_mount(r@),
    {
        proof {
            use_type_invariant(self);
            assert(self@[index as int] == self.mounts@[index as int]@);
        }
        &self.mounts[index]
    }

    /// The number of mounts.
    pub fn len(&self) -> (r: usize)
        ensures
            r == self@.len(),
    {
        self.mounts.len()
    }

    /// Whether the table is empty; no target is then a candidate.
    pub fn is_empty(&self) -> (r: bool)
        ensures
            r == (self@.len() == 0),
    {
        self.mounts.len() == 0
    }
}

impl Clone for Mounts {
    fn clone(&self) -> (r: Mounts)
        ensures
            r@ == self@,
    {
        proof {
            use_type_invariant(self);
        }
        let mut mounts: Vec<Mount> = Vec::new();
        let mut i: usize = 0;
        while i < self.mounts.len()
            invariant
                i <= self.mounts@.len(),
                mounts@.len() == i,
                forall|j: int| 0 <= j < i ==> mounts@[j]@ == self.mounts@[j]@,
            decreases self.mounts.len() - i,
        {
            mounts.push(self.mounts[i].clone());
            i += 1;
        }
        assert(mount_views(mounts@) =~= self@);
        Mounts { mounts }
    }
}

// ---- classification ----

proof fn lemma_best_mount_next(table: Seq<MountView>, segments: Seq<Seq<char>>, n: int)
    requires
        0 <= n < table.len(),
    ensures
        best_mount(table.take(n + 1), segments) == {
            let earlier = best_mount(table.take(n), segments);
            if mount_matches(table[n], segments) && match earlier {
                Some(i) => table[n].segments.len() > table.take(n + 1)[i].segments.len(),
                None => true,
            } {
                Some(n)
            } else {
                earlier
            }
        },
{
    assert(table.take(n + 1).drop_last() =~= table.take(n));
}

/// The best mount is a matching one of the table.
pub proof fn lemma_best_mount_in_range(table: Seq<MountView>, segments: Seq<Seq<char>>)
    ensures
        best_mount(table, segments) matches Some(i) ==> 0 <= i < table.len() && mount_matches(
            table[i],
            segments,
        ),
    decreases table.len(),
{
    if table.len() > 0 {
        lemma_best_mount_in_range(table.drop_last(), segments);
    }
}

/// The mount of a miss or of a candidate is one of the table.
pub proof fn lemma_mount_in_range(method: Seq<char>, target: Seq<char>, table: Seq<MountView>)
    ensures
        match classification(method, target, table) {
            ClassificationView::Miss { mount, reason } => 0 <= mount < table.len(),
            ClassificationView::Candidate(c) => 0 <= c.mount < table.len(),
            _ => true,
        },
{
    if let Some(bytes) = percent_decoded(encode_utf8(raw_path(target))) {
        lemma_best_mount_in_range(table, path_segments(decode_utf8(bytes)));
    }
}

/// Whether the prefix segments of a mount begin the given segments.
fn prefix_matches(mount: &Mount, segments: &[&[char]]) -> (r: bool)
    ensures
        r == mount_matches(mount@, text::views(segments@)),
{
    let ghost all = text::views(segments@);
    let n = mount.prefix_segments.len();
    if n > segments.len() {
        return false;
    }
    let mut i: usize = 0;
    while i < n
        invariant
            i <= n == mount.prefix_segments@.len(),
            n <= segments@.len(),
            all == text::views(segments@),
            forall|j: int| 0 <= j < i ==> all[j] == #[trigger] mount@.segments[j],
        decreases n - i,
    {
        if !text::same_chars(mount.prefix_segments[i].as_slice(), segments[i]) {
            assert(all.take(n as int)[i as int] != mount@.segments[i as int]);
            return false;
        }
        assert(all[i as int] == mount@.segments[i as int]);
        i += 1;
    }
    assert(all.take(n as int) =~= mount@.segments);
    true
}

/// The screens that decoded path bytes must pass before they are text.
fn screen(bytes: &[u8]) -> (r: Option<StructuralReject>)
    ensures
        r == if bytes@.contains(0) {
            Some(StructuralReject::NulByte)
        } else if has_control_byte(bytes@) {
            Some(StructuralReject::ControlByte)
        } else {
            None
        },
{
    let mut control = false;
    let mut i: usize = 0;
    while i < bytes.len()
        invariant
            i <= bytes@.len(),
            forall|j: int| 0 <= j < i ==> bytes@[j] != 0,
            control == exists|j: int| 0 <= j < i && is_control_byte(#[trigger] bytes@[j]),
        decreases bytes.len() - i,
    {
        let b = bytes[i];
        if b == 0 {
            assert(bytes@[i as int] == 0);
            return Some(StructuralReject::NulByte);
        }
        if b < 0x20 || b == 0x7f {
            assert(is_control_byte(bytes@[i as int]));
            control = true;
        }
        i += 1;
    }
    if control {
        Some(StructuralReject::ControlByte)
    } else {
        None
    }
}

/// The mount that serves the given segments, and how many of them its prefix takes.
fn select_mount(mounts: &Mounts, segments: &[&[char]]) -> (r: Option<(usize, usize)>)
    ensures
        match r {
            Some((i, n)) => {
                &&& best_mount(mounts@, text::views(segments@)) == Some(i as int)
                &&& i < mounts@.len()
                &&& n == mounts@[i as int].segments.len()
                &&& n <= segments@.len()
            },
            None => best_mount(mounts@, text::views(segments@)) is None,
        },
{
    let ghost table = mounts@;
    let ghost segs = text::views(segments@);
    let mut best: Option<(usize, usize)> = None;
    let mut i: usize = 0;
    assert(table.take(0) =~= Seq::empty());
    while i < mounts.mounts.len()
        invariant
            i <= mounts.mounts@.len(),
            table == mounts@,
            segs == text::views(segments@),
            match best {
                Some((k, n)) => {
                    &&& best_mount(table.take(i as int), segs) == Some(k as int)
                    &&& k < i
                    &&& n == table[k as int].segments.len()
                    &&& n <= segments@.len()
                },
                None => best_mount(table.take(i as int), segs) is None,
            },
        decreases mounts.mounts.len() - i,
    {
        let mount = &mounts.mounts[i];
        proof {
            assert(table[i as int] == mount@);
            lemma_best_mount_next(table, segs, i as int);
        }
        let longer = match best {
            Some((_, n)) => mount.prefix_segments.len() > n,
            None => true,
        };
        if longer && prefix_matches(mount, segments) {
            best = Some((i, mount.prefix_segments.len()));
        }
        i += 1;
    }
    assert(table.take(i as int) =~= table);
    best
}

/// Whether a segment starts with a dot.
fn any_dotfile(segments: &[&[char]]) -> (r: bool)
    ensures
        r == has_dotfile(text::views(segments@)),
{
    let mut i: usize = 0;
    while i < segments.len()
        invariant
            i <= segments@.len(),
            forall|j: int| 0 <= j < i ==> !is_dotfile(#[trigger] text::views(segments@)[j]),
        decreases segments.len() - i,
    {
        let segment = segments[i];
        assert(text::views(segments@)[i as int] == segment@);
        if segment.len() > 0 && segment[0] == '.' {
            assert(is_dotfile(text::views(segments@)[i as int]));
            return true;
        }
        i += 1;
    }
    false
}

/// Places a decoded, screened path in the mount table.
fn place(path: &str, mounts: &Mounts) -> (r: Classification)
    ensures
        r@ == placed(path@, mounts@),
{
    let chars = text::chars_of(path);
    let trailing_slash = chars.len() > 0 && chars[chars.len() - 1] == '/';
    let pieces = text::split_chars(chars.as_slice(), '/');
    let ghost all = text::split(path@, '/');
    let ghost keep = |s: Seq<char>| is_kept(s);
    let mut segments: Vec<&[char]> = Vec::new();
    let mut i: usize = 0;
    proof {
        reveal(Seq::filter);
        assert(text::views(segments@) =~= all.take(0).filter(keep));
    }
    while i < pieces.len()
        invariant
            i <= pieces@.len(),
            text::views(pieces@) == all,
            all == text::split(path@, '/'),
            keep == (|s: Seq<char>| is_kept(s)),
            text::views(segments@) == all.take(i as int).filter(keep),
            forall|j: int| 0 <= j < i ==> #[trigger] all[j] != dot_dot(),
        decreases pieces.len() - i,
    {
        let piece = pieces[i];
        assert(all[i as int] == piece@);
        if is_dot_dot(piece) {
            assert(all[i as int] == dot_dot());
            return Classification::Reject(StructuralReject::DotDotComponent);
        }
        proof {
            lemma_filter_next(all, keep, i as int);
        }
        if piece.len() > 0 && !is_dot(piece) {
            let ghost before = text::views(segments@);
            segments.push(piece);
            assert(text::views(segments@) =~= before.push(piece@));
        }
        i += 1;
    }
    proof {
        assert(all.take(i as int) =~= all);
    }
    match select_mount(mounts, segments.as_slice()) {
        None => Classification::NotStatic(NotStaticReason::NoMountMatched),
        Some((mount, prefix_len)) => {
            let rel = slice_subrange(segments.as_slice(), prefix_len, segments.len());
            assert(text::views(rel@) =~= text::views(segments@).skip(prefix_len as int));
            let denied = !mounts.mounts[mount].allow_dotfiles && any_dotfile(rel);
            assert(mounts@[mount as int] == mounts.mounts@[mount as int]@);
            if denied {
                Classification::Miss { mount, reason: PolicyMiss::DotfileDenied }
            } else {
                Classification::Candidate(
                    Candidate { mount, rel_path: text::join_chars(rel, '/'), trailing_slash },
                )
            }
        },
    }
}

/// Classifies one request target. `method` is the raw, case-sensitive method token;
/// `raw_target` is the request target exactly as received, query still attached.
pub fn classify(method: &str, raw_target: &str, mounts: &Mounts) -> (r: Classification)
    ensures
        r@ == classification(method@, raw_target@, mounts@),
{
    if !text::same_text(method, "GET") && !text::same_text(method, "HEAD") {
        return Classification::NotStatic(NotStaticReason::MethodNotGetOrHead);
    }
    let target = text::chars_of(raw_target);
    if target.len() == 0 || target[0] != '/' {
        return Classification::NotStatic(NotStaticReason::NonOriginForm);
    }
    let query = text::find_char(target.as_slice(), '?');
    let path = text::string_of(slice_subrange(target.as_slice(), 0, query));
    assert(path@ =~= raw_path(raw_target@));
    let decoded = match decode_once(path.as_str().as_bytes()) {
        Ok(bytes) => bytes,
        Err(reject) => {
            return Classification::Reject(reject);
        },
    };
    if let Some(reject) = screen(decoded.as_slice()) {
        return Classification::Reject(reject);
    }
    match text::text_from_utf8(decoded) {
        Some(path) => place(path.as_str(), mounts),
        None => Classification::Reject(StructuralReject::NotUtf8),
    }
}

// ---- laws ----

pub open spec fn is_control_char(c: char) -> bool {
    c < ' ' || c == '\u{7f}'
}

/// A path segment that can be resolved below a docroot without leaving it.
pub open spec fn is_plain_segment(segment: Seq<char>) -> bool {
    &&& segment.len() > 0
    &&& segment != dot()
    &&& segment != dot_dot()
    &&& !segment.contains('/')
    &&& forall|i: int| 0 <= i < segment.len() ==> !is_control_char(#[trigger] segment[i])
}

/// A relative path that names the docroot itself or consists of plain segments.
pub open spec fn is_resolvable(rel_path: Seq<char>) -> bool {
    ||| rel_path.len() == 0
    ||| forall|i: int|
        0 <= i < text::split(rel_path, '/').len() ==> is_plain_segment(
            #[trigger] text::split(rel_path, '/')[i],
        )
}

/// The segments of a screened path without `..` are plain.
pub proof fn lemma_path_segments_plain(path: Seq<char>)
    requires
        !has_dot_dot(path),
        forall|i: int| 0 <= i < path.len() ==> !is_control_char(#[trigger] path[i]),
    ensures
        forall|i: int|
            0 <= i < path_segments(path).len() ==> is_plain_segment(
                #[trigger] path_segments(path)[i],
            ),
{
    let all = text::split(path, '/');
    let keep = |s: Seq<char>| is_kept(s);
    text::lemma_split(path, '/');
    lemma_filter_keeps(all, keep);
    assert forall|i: int| 0 <= i < path_segments(path).len() implies is_plain_segment(
        #[trigger] path_segments(path)[i],
    ) by {
        let segment = path_segments(path)[i];
        assert(keep(all.filter(keep)[i]));
        let k = choose|k: int| 0 <= k < all.len() && all[k] == segment;
        assert(all.contains(segment));
        if segment.contains('/') {
            let n = choose|n: int| 0 <= n < segment.len() && segment[n] == '/';
            assert(text::split(path, '/')[k][n] == '/');
        }
        assert forall|n: int| 0 <= n < segment.len() implies !is_control_char(
            #[trigger] segment[n],
        ) by {
            text::lemma_split_within(path, '/', k, n);
            let m = choose|m: int| 0 <= m < path.len() && path[m] == segment[n];
            assert(!is_control_char(path[m]));
        }
    }
}

/// Decoded bytes that pass the screens are text without control characters.
pub proof fn lemma_screened_text(bytes: Seq<u8>)
    requires
        screened(bytes) is None,
    ensures
        encode_utf8(decode_utf8(bytes)) == bytes,
        forall|i: int|
            0 <= i < decode_utf8(bytes).len() ==> !is_control_char(#[trigger] decode_utf8(bytes)[i]),
{
    let path = decode_utf8(bytes);
    decode_utf8_encode_utf8(bytes);
    assert forall|i: int| 0 <= i < path.len() implies !is_control_char(#[trigger] path[i]) by {
        let c = path[i];
        if is_control_char(c) {
            assert(path.contains(c));
            text::lemma_utf8_ascii(path, c);
            let k = choose|k: int| 0 <= k < bytes.len() && bytes[k] == c as u8;
            assert(is_control_byte(bytes[k]));
        }
    }
}

/// The segments of the path that an origin-form target names, when it is not refused.
pub open spec fn target_segments(target: Seq<char>) -> Seq<Seq<char>> {
    path_segments(decode_utf8(percent_decoded(encode_utf8(raw_path(target))).unwrap()))
}

/// What makes a target a candidate.
pub proof fn lemma_candidate(method: Seq<char>, target: Seq<char>, table: Seq<MountView>)
    ensures
        classification(method, target, table) matches ClassificationView::Candidate(c) ==> {
            let segments = target_segments(target);
            &&& best_mount(table, segments) == Some(c.mount)
            &&& 0 <= c.mount < table.len()
            &&& mount_matches(table[c.mount], segments)
            &&& c.rel_path == text::join(
                segments.skip(table[c.mount].segments.len() as int),
                '/',
            )
            &&& table[c.mount].allow_dotfiles || !has_dotfile(
                segments.skip(table[c.mount].segments.len() as int),
            )
            &&& forall|i: int|
                0 <= i < segments.len() ==> is_plain_segment(#[trigger] segments[i])
        },
{
    if let ClassificationView::Candidate(c) = classification(method, target, table) {
        let bytes = percent_decoded(encode_utf8(raw_path(target))).unwrap();
        lemma_screened_text(bytes);
        lemma_path_segments_plain(decode_utf8(bytes));
        lemma_best_mount_in_range(table, target_segments(target));
    }
}

/// The relative path of a candidate never starts with a slash, holds no control character, and
/// has only segments that are non-empty and neither `.` nor `..`.
pub proof fn law_candidate_is_resolvable(
    method: Seq<char>,
    target: Seq<char>,
    table: Seq<MountView>,
)
    ensures
        classification(method, target, table) matches ClassificationView::Candidate(c) ==> {
            &&& is_resolvable(c.rel_path)
            &&& c.rel_path.len() > 0 ==> c.rel_path[0] != '/'
            &&& forall|i: int|
                0 <= i < c.rel_path.len() ==> !is_control_char(#[trigger] c.rel_path[i])
        },
{
    lemma_candidate(method, target, table);
    if let ClassificationView::Candidate(c) = classification(method, target, table) {
        let segments = target_segments(target);
        let n = table[c.mount].segments.len() as int;
        let rel = segments.skip(n);
        assert forall|i: int| 0 <= i < rel.len() implies is_plain_segment(#[trigger] rel[i]) by {
            assert(rel[i] == segments[n + i]);
        }
        if rel.len() > 0 {
            text::lemma_split_join(rel, '/');
            assert(is_plain_segment(rel[0]));
            assert(c.rel_path[0] == rel[0][0]);
            assert(rel[0].contains(rel[0][0]));
            assert forall|i: int| 0 <= i < c.rel_path.len() implies !is_control_char(
                #[trigger] c.rel_path[i],
            ) by {
                if c.rel_path[i] != '/' {
                    text::lemma_join_chars(rel, '/', i);
                    let k = choose|k: int|
                        0 <= k < rel.len() && (#[trigger] rel[k]).contains(c.rel_path[i]);
                    let m = choose|m: int| 0 <= m < rel[k].len() && rel[k][m] == c.rel_path[i];
                    assert(!is_control_char(rel[k][m]));
                }
            }
        }
    }
}

/// A mount that denies dotfiles has no candidate with a segment that starts with a dot.
pub proof fn law_dotfiles_are_denied(method: Seq<char>, target: Seq<char>, table: Seq<MountView>)
    ensures
        classification(method, target, table) matches ClassificationView::Candidate(c) ==> c.mount
            < table.len() && (!table[c.mount].allow_dotfiles && c.rel_path.len() > 0 ==> forall|
            i: int,
        |
            0 <= i < text::split(c.rel_path, '/').len() ==> !is_dotfile(
                #[trigger] text::split(c.rel_path, '/')[i],
            )),
{
    lemma_candidate(method, target, table);
    if let ClassificationView::Candidate(c) = classification(method, target, table) {
        let segments = target_segments(target);
        let n = table[c.mount].segments.len() as int;
        let rel = segments.skip(n);
        assert forall|i: int| 0 <= i < rel.len() implies !(#[trigger] rel[i]).contains('/') by {
            assert(is_plain_segment(segments[n + i]));
        }
        if rel.len() > 0 {
            text::lemma_split_join(rel, '/');
        }
    }
}

/// Structural hostility is refused whatever the mount table holds, for the same reason.
pub proof fn law_reject_ignores_mounts(
    method: Seq<char>,
    target: Seq<char>,
    table: Seq<MountView>,
    other: Seq<MountView>,
)
    requires
        classification(method, target, table) is Reject,
    ensures
        classification(method, target, other) == classification(method, target, table),
{
}

/// Targets whose paths decode to the same bytes are classified alike, however they are spelled
/// and whatever their queries.
pub proof fn law_spelling_is_irrelevant(
    method: Seq<char>,
    a: Seq<char>,
    b: Seq<char>,
    table: Seq<MountView>,
)
    requires
        is_origin_form(a),
        is_origin_form(b),
        percent_decoded(encode_utf8(raw_path(a))) == percent_decoded(encode_utf8(raw_path(b))),
    ensures
        classification(method, a, table) == classification(method, b, table),
{
}

/// The mount that serves a path matches it, and no mount with a longer prefix does; there is
/// none only when no mount matches.
pub proof fn law_best_mount_is_longest(table: Seq<MountView>, segments: Seq<Seq<char>>)
    ensures
        match best_mount(table, segments) {
            Some(i) => {
                &&& 0 <= i < table.len()
                &&& mount_matches(table[i], segments)
                &&& forall|j: int|
                    0 <= j < table.len() && mount_matches(#[trigger] table[j], segments)
                        ==> table[j].segments.len() <= table[i].segments.len()
            },
            None => forall|j: int|
                0 <= j < table.len() ==> !mount_matches(#[trigger] table[j], segments),
        },
    decreases table.len(),
{
    if table.len() > 0 {
        let shorter = table.drop_last();
        law_best_mount_is_longest(shorter, segments);
        assert forall|j: int| 0 <= j < shorter.len() implies shorter[j] == #[trigger] table[j] by {}
    }
}

/// In a mount table the longest matching mount is the only one of its length, so it serves the
/// path wherever it stands in the table.
pub proof fn law_longest_mount_wins(table: Seq<MountView>, segments: Seq<Seq<char>>, i: int)
    requires
        is_mount_table(table),
        0 <= i < table.len(),
        mount_matches(table[i], segments),
        forall|j: int|
            0 <= j < table.len() && mount_matches(#[trigger] table[j], segments)
                ==> table[j].segments.len() <= table[i].segments.len(),
    ensures
        best_mount(table, segments) == Some(i),
{
    law_best_mount_is_longest(table, segments);
    let k = best_mount(table, segments).unwrap();
    assert(table[k].segments.len() == table[i].segments.len());
    assert(table[k].segments == table[i].segments);
    if k < i {
        assert(prefix_text(table[k].segments) != prefix_text(table[i].segments));
    } else if i < k {
        assert(prefix_text(table[i].segments) != prefix_text(table[k].segments));
    }
}

/// Decoding never lengthens its input.
pub proof fn law_decoding_never_grows(input: Seq<u8>)
    ensures
        percent_decoded(input) matches Some(bytes) ==> bytes.len() <= input.len(),
    decreases input.len(),
{
    if input.len() > 0 {
        if input[0] == 0x25 {
            if input.len() >= 3 {
                law_decoding_never_grows(input.skip(3));
            }
        } else {
            law_decoding_never_grows(input.skip(1));
        }
    }
}

/// The pieces of a normalized mount prefix: an empty one, and then its segments; two empty ones
/// for the root.
proof fn lemma_prefix_pieces(segments: Seq<Seq<char>>)
    requires
        forall|i: int| 0 <= i < segments.len() ==> is_prefix_segment(#[trigger] segments[i]),
    ensures
        text::split(prefix_text(segments), '/') == seq![Seq::<char>::empty()] + if segments.len()
            == 0 {
            seq![Seq::<char>::empty()]
        } else {
            segments
        },
{
    let joined = text::join(segments, '/');
    let empty = Seq::<char>::empty();
    text::lemma_split_lead(joined, '/');
    if segments.len() == 0 {
        assert(text::split(joined, '/') =~= seq![empty]);
    } else {
        assert forall|i: int| 0 <= i < segments.len() implies !(#[trigger] segments[i]).contains(
            '/',
        ) by {
            assert(is_prefix_segment(segments[i]));
        }
        text::lemma_split_join(segments, '/');
    }
}

/// Behind an empty piece, a filter that drops what is empty leaves the segments.
proof fn lemma_prefix_filter(segments: Seq<Seq<char>>)
    requires
        forall|i: int| 0 <= i < segments.len() ==> is_prefix_segment(#[trigger] segments[i]),
    ensures
        (seq![Seq::<char>::empty()] + if segments.len() == 0 {
            seq![Seq::<char>::empty()]
        } else {
            segments
        }).filter(|s: Seq<char>| s.len() > 0) == segments,
{
    let keep = |s: Seq<char>| s.len() > 0;
    let empty = Seq::<char>::empty();
    text::lemma_filter_one(empty, keep);
    if segments.len() == 0 {
        Seq::filter_distributes_over_add(seq![empty], seq![empty], keep);
        assert((seq![empty] + seq![empty]).filter(keep) =~= segments);
    } else {
        assert forall|i: int| 0 <= i < segments.len() implies keep(#[trigger] segments[i]) by {
            assert(is_prefix_segment(segments[i]));
        }
        text::lemma_filter_all(segments, keep);
        Seq::filter_distributes_over_add(seq![empty], segments, keep);
        assert((seq![empty] + segments).filter(keep) =~= segments);
    }
}

/// Neither an empty piece nor a segment of a mount prefix is hostile.
proof fn lemma_prefix_piece_is_harmless(piece: Seq<char>)
    requires
        piece.len() == 0 || is_prefix_segment(piece),
    ensures
        !is_hostile_in_prefix(piece),
{
    assert(dot().len() == 1);
    assert(dot_dot().len() == 2);
}

/// A normalized mount prefix holds no hostile segment.
proof fn lemma_prefix_is_harmless(segments: Seq<Seq<char>>)
    requires
        forall|i: int| 0 <= i < segments.len() ==> is_prefix_segment(#[trigger] segments[i]),
    ensures
        !has_hostile_segment(prefix_text(segments)),
{
    let prefix = prefix_text(segments);
    lemma_prefix_pieces(segments);
    if has_hostile_segment(prefix) {
        let i = choose|i: int|
            0 <= i < text::split(prefix, '/').len() && is_hostile_in_prefix(
                #[trigger] text::split(prefix, '/')[i],
            );
        let piece = text::split(prefix, '/')[i];
        if segments.len() > 0 && i > 0 {
            assert(piece == segments[i - 1]);
        } else {
            assert(piece.len() == 0);
        }
        lemma_prefix_piece_is_harmless(piece);
    }
}

/// A normalized mount prefix is accepted, and normalizing it again changes nothing.
#[verifier::spinoff_prover]
pub proof fn law_mount_prefix_is_normal(m: MountView)
    requires
        is_mount(m),
    ensures
        is_origin_form(prefix_text(m.segments)),
        !has_hostile_segment(prefix_text(m.segments)),
        prefix_segments_of(prefix_text(m.segments)) == m.segments,
{
    assert(prefix_text(m.segments)[0] == '/');
    lemma_prefix_is_harmless(m.segments);
    lemma_prefix_pieces(m.segments);
    lemma_prefix_filter(m.segments);
}

/// What is refused, of an origin-form target of an eligible method: a broken escape, a control
/// byte, bytes that are no UTF-8, and `..` in any spelling; and nothing else.
pub proof fn law_hostile_paths_are_refused(
    method: Seq<char>,
    target: Seq<char>,
    table: Seq<MountView>,
)
    requires
        is_eligible_method(method),
        is_origin_form(target),
    ensures
        classification(method, target, table) is Reject <==> match percent_decoded(
            encode_utf8(raw_path(target)),
        ) {
            None => true,
            Some(bytes) => screened(bytes) is Some || has_dot_dot(decode_utf8(bytes)),
        },
{
}

} // verus!
