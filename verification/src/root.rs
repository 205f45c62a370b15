//! Pinning a docroot: what it must pass before anything below it is served, and when it is
//! pinned anew.
//!
//! A docroot is refused when it is no directory, when the kernel cannot confine an open to it,
//! when it holds symlinks that the policy would refuse at request time, or when its filesystem
//! seems to ignore the case of names. A refusal at boot beats a miss for every request.

use crate::paths;
use crate::resolve;
use crate::resolve::{
    EncodedOpening, EncodedStep, Errno, Opening, Outcome, RootError, RootErrorView, SidecarStep,
    SymlinkPolicy,
};
use crate::sidecar::Encoding;
use crate::text;
use vstd::prelude::*;
use vstd::string::*;

verus! {

/// The number of entries that the audit visits at most.
pub const AUDIT_ENTRY_LIMIT: usize = 500_000;

/// The number of refused symlinks that are reported at most.
pub const SHOWN_SYMLINKS: usize = 20;

/// The number of names that are looked at for one whose case can be swapped.
pub const CASE_PROBE_NAMES: usize = 64;

// ---- ordering of names ----

/// Whether one text does not come after another, in the order of code points.
pub open spec fn not_after(a: Seq<char>, b: Seq<char>) -> bool
    decreases a.len(),
{
    if a.len() == 0 {
        true
    } else if b.len() == 0 {
        false
    } else {
        a[0] < b[0] || (a[0] == b[0] && not_after(a.skip(1), b.skip(1)))
    }
}

pub open spec fn is_sorted(s: Seq<Seq<char>>) -> bool {
    forall|i: int, j: int|
        0 <= i < j < s.len() ==> not_after(#[trigger] s[i], #[trigger] s[j])
}

/// Of two texts, one does not come after the other.
pub proof fn lemma_not_after_total(a: Seq<char>, b: Seq<char>)
    ensures
        not_after(a, b) || not_after(b, a),
    decreases a.len(),
{
    if a.len() > 0 && b.len() > 0 {
        lemma_not_after_total(a.skip(1), b.skip(1));
    }
}

pub proof fn lemma_not_after_transitive(a: Seq<char>, b: Seq<char>, c: Seq<char>)
    requires
        not_after(a, b),
        not_after(b, c),
    ensures
        not_after(a, c),
    decreases a.len(),
{
    if a.len() > 0 && a[0] == b[0] && b[0] == c[0] {
        lemma_not_after_transitive(a.skip(1), b.skip(1), c.skip(1));
    }
}

pub proof fn lemma_not_after_antisymmetric(a: Seq<char>, b: Seq<char>)
    requires
        not_after(a, b),
        not_after(b, a),
    ensures
        a == b,
    decreases a.len(),
{
    if a.len() > 0 {
        lemma_not_after_antisymmetric(a.skip(1), b.skip(1));
        assert(a =~= seq![a[0]] + a.skip(1));
        assert(b =~= seq![b[0]] + b.skip(1));
    } else {
        assert(a =~= b);
    }
}

/// The same texts have only one order.
proof fn lemma_sorted_is_unique(a: Seq<Seq<char>>, b: Seq<Seq<char>>)
    requires
        is_sorted(a),
        is_sorted(b),
        a.to_multiset() == b.to_multiset(),
    ensures
        a == b,
{
    let leq = |x: Seq<char>, y: Seq<char>| not_after(x, y);
    assert forall|x: Seq<char>| #[trigger] leq(x, x) by {
        lemma_not_after_total(x, x);
    }
    assert forall|x: Seq<char>, y: Seq<char>|
        #[trigger] leq(x, y) && #[trigger] leq(y, x) implies x == y by {
        lemma_not_after_antisymmetric(x, y);
    }
    assert forall|x: Seq<char>, y: Seq<char>| #[trigger] leq(x, y) || #[trigger] leq(y, x) by {
        lemma_not_after_total(x, y);
    }
    assert forall|x: Seq<char>, y: Seq<char>, z: Seq<char>|
        #[trigger] leq(x, y) && #[trigger] leq(y, z) implies leq(x, z) by {
        lemma_not_after_transitive(x, y, z);
    }
    assert(vstd::relations::sorted_by(a, leq));
    assert(vstd::relations::sorted_by(b, leq));
    vstd::seq_lib::lemma_sorted_unique(a, b, leq);
}

fn comes_not_after(a: &[char], b: &[char]) -> (r: bool)
    ensures
        r == not_after(a@, b@),
{
    let mut i: usize = 0;
    assert(a@.skip(0) =~= a@);
    assert(b@.skip(0) =~= b@);
    while i < a.len() && i < b.len() && a[i] == b[i]
        invariant
            i <= a@.len(),
            i <= b@.len(),
            not_after(a@, b@) == not_after(a@.skip(i as int), b@.skip(i as int)),
        decreases a.len() - i,
    {
        assert(a@.skip(i as int).skip(1) =~= a@.skip(i + 1));
        assert(b@.skip(i as int).skip(1) =~= b@.skip(i + 1));
        i += 1;
    }
    if i == a.len() {
        true
    } else if i == b.len() {
        false
    } else {
        a[i] < b[i]
    }
}

/// Where a text takes its place behind all that do not come after it, from a position on.
proof fn lemma_place(texts: Seq<Seq<char>>, x: Seq<char>, n: int) -> (at: int)
    requires
        0 <= n <= texts.len(),
        forall|i: int| 0 <= i < n ==> not_after(#[trigger] texts[i], x),
    ensures
        n <= at <= texts.len(),
        forall|i: int| 0 <= i < at ==> not_after(#[trigger] texts[i], x),
        at < texts.len() ==> !not_after(texts[at], x),
    decreases texts.len() - n,
{
    if n < texts.len() && not_after(texts[n], x) {
        lemma_place(texts, x, n + 1)
    } else {
        n
    }
}

/// A text that takes its place leaves the order as it is.
proof fn lemma_inserted(sorted: Seq<Seq<char>>, x: Seq<char>, at: int)
    requires
        is_sorted(sorted),
        0 <= at <= sorted.len(),
        forall|i: int| 0 <= i < at ==> not_after(#[trigger] sorted[i], x),
        at < sorted.len() ==> !not_after(sorted[at], x),
    ensures
        is_sorted(sorted.insert(at, x)),
        sorted.insert(at, x).to_multiset() == sorted.to_multiset().insert(x),
{
    let after = sorted.insert(at, x);
    vstd::seq_lib::to_multiset_insert(sorted, at, x);
    if at < sorted.len() {
        lemma_not_after_total(sorted[at], x);
    }
    assert forall|i: int, j: int| 0 <= i < j < after.len() implies not_after(
        #[trigger] after[i],
        #[trigger] after[j],
    ) by {
        let m = if i < at { i } else { i - 1 };
        let n = if j < at { j } else { j - 1 };
        if i != at {
            assert(after[i] == sorted[m]);
        }
        if j != at {
            assert(after[j] == sorted[n]);
        }
        if i == at && n > at {
            lemma_not_after_transitive(x, sorted[at], sorted[n]);
        }
    }
}

// ---- symlinks ----

/// Adds a path to the refused ones, as it is shown to operators.
pub fn push_hostile(hostile: &mut Vec<String>, root: &str, path: &str)
    ensures
        resolve::string_views(final(hostile)@) == resolve::string_views(old(hostile)@).push(
            paths::shown_path(root@, path@),
        ),
{
    hostile.push(paths::shown(root, path));
    assert(resolve::string_views(hostile@) =~= resolve::string_views(old(hostile)@).push(
        paths::shown_path(root@, path@),
    ));
}

/// Whether confinement would refuse a symlink with the given target, which resolves to the
/// given physical path: an absolute target always, a relative one when it leads outside. A link
/// that cannot be read or that dangles is a plain miss at request time.
pub open spec fn link_escapes(
    root: Seq<char>,
    target: Option<Seq<char>>,
    resolved: Option<Seq<char>>,
) -> bool {
    match target {
        None => false,
        Some(target) => paths::is_absolute(target) || (resolved matches Some(path)
            && !paths::is_within(root, path)),
    }
}

/// Would confinement refuse this link? `target` is what the link holds, `None` when it cannot
/// be read; `resolved` is where it leads, `None` when that does not exist.
pub fn symlink_escapes(root: &str, target: Option<&str>, resolved: Option<&str>) -> (r: bool)
    ensures
        r == link_escapes(
            root@,
            match target {
                Some(t) => Some(t@),
                None => None,
            },
            match resolved {
                Some(p) => Some(p@),
                None => None,
            },
        ),
{
    match target {
        None => false,
        Some(target) => {
            let chars = text::chars_of(target);
            if paths::absolute(chars.as_slice()) {
                true
            } else {
                match resolved {
                    Some(path) => !paths::lies_within(root, path),
                    None => false,
                }
            }
        },
    }
}

// ---- report ----

/// A report of refused symlinks: the first few of them in order.
pub open spec fn is_report(entries: Seq<Seq<char>>, hostile: Seq<Seq<char>>) -> bool {
    exists|sorted: Seq<Seq<char>>|
        {
            &&& is_sorted(sorted)
            &&& #[trigger] sorted.to_multiset() == hostile.to_multiset()
            &&& entries == if sorted.len() > SHOWN_SYMLINKS {
                sorted.take(SHOWN_SYMLINKS as int)
            } else {
                sorted
            }
        }
}

/// The report of refused symlinks.
pub open spec fn report_of(hostile: Seq<Seq<char>>) -> Seq<Seq<char>> {
    choose|entries: Seq<Seq<char>>| is_report(entries, hostile)
}

/// The refused symlinks have only one report.
pub proof fn law_report_is_unique(a: Seq<Seq<char>>, b: Seq<Seq<char>>, hostile: Seq<Seq<char>>)
    requires
        is_report(a, hostile),
        is_report(b, hostile),
    ensures
        a == b,
{
    let x = choose|sorted: Seq<Seq<char>>|
        {
            &&& is_sorted(sorted)
            &&& #[trigger] sorted.to_multiset() == hostile.to_multiset()
            &&& a == if sorted.len() > SHOWN_SYMLINKS {
                sorted.take(SHOWN_SYMLINKS as int)
            } else {
                sorted
            }
        };
    let y = choose|sorted: Seq<Seq<char>>|
        {
            &&& is_sorted(sorted)
            &&& #[trigger] sorted.to_multiset() == hostile.to_multiset()
            &&& b == if sorted.len() > SHOWN_SYMLINKS {
                sorted.take(SHOWN_SYMLINKS as int)
            } else {
                sorted
            }
        };
    lemma_sorted_is_unique(x, y);
}

/// One more refused symlink takes its place in the report, and the last falls out of it when
/// there are too many.
proof fn lemma_report_grows(
    entries: Seq<Seq<char>>,
    hostile: Seq<Seq<char>>,
    x: Seq<char>,
    at: int,
)
    requires
        is_report(entries, hostile),
        0 <= at <= entries.len(),
        forall|i: int| 0 <= i < at ==> not_after(#[trigger] entries[i], x),
        at < entries.len() ==> !not_after(entries[at], x),
    ensures
        entries.len() <= SHOWN_SYMLINKS,
        is_report(
            if entries.len() < SHOWN_SYMLINKS {
                entries.insert(at, x)
            } else {
                entries.insert(at, x).take(SHOWN_SYMLINKS as int)
            },
            hostile.push(x),
        ),
{
    let sorted = choose|sorted: Seq<Seq<char>>|
        {
            &&& is_sorted(sorted)
            &&& #[trigger] sorted.to_multiset() == hostile.to_multiset()
            &&& entries == if sorted.len() > SHOWN_SYMLINKS {
                sorted.take(SHOWN_SYMLINKS as int)
            } else {
                sorted
            }
        };
    assert forall|i: int| 0 <= i < at implies not_after(#[trigger] sorted[i], x) by {
        assert(entries[i] == sorted[i]);
    }
    let place = lemma_place(sorted, x, at);
    lemma_inserted(sorted, x, place);
    vstd::seq_lib::to_multiset_build(hostile, x);
    let next = sorted.insert(place, x);
    assert(next.to_multiset() == hostile.push(x).to_multiset());
    if at < entries.len() {
        assert(entries[at] == sorted[at]);
        assert(place == at);
    }
    if entries.len() < SHOWN_SYMLINKS {
        assert(entries == sorted);
        assert(next =~= entries.insert(at, x));
    } else {
        assert(next.take(SHOWN_SYMLINKS as int) =~= entries.insert(at, x).take(
            SHOWN_SYMLINKS as int,
        ));
    }
}

/// All refused symlinks together have a report.
pub proof fn law_report_exists(hostile: Seq<Seq<char>>)
    ensures
        is_report(report_of(hostile), hostile),
    decreases hostile.len(),
{
    if hostile.len() == 0 {
        let none = Seq::<Seq<char>>::empty();
        assert(hostile =~= none);
        assert(none.to_multiset() == hostile.to_multiset());
        assert(is_report(none, hostile));
    } else {
        let before = hostile.drop_last();
        let x = hostile.last();
        law_report_exists(before);
        let at = lemma_place(report_of(before), x, 0);
        lemma_report_grows(report_of(before), before, x, at);
        assert(before.push(x) =~= hostile);
    }
}

/// Puts one more refused symlink in its place in the report.
fn report_one(entries: &mut Vec<String>, entry: String, Ghost(hostile): Ghost<Seq<Seq<char>>>)
    requires
        is_report(resolve::string_views(old(entries)@), hostile),
    ensures
        is_report(resolve::string_views(final(entries)@), hostile.push(entry@)),
{
    let ghost before = resolve::string_views(entries@);
    let ghost x = entry@;
    let key = text::chars_of(entry.as_str());
    let mut at: usize = 0;
    while at < entries.len() && comes_not_after(
        text::chars_of(entries[at].as_str()).as_slice(),
        key.as_slice(),
    )
        invariant
            at <= entries@.len(),
            before == resolve::string_views(entries@),
            key@ == x,
            forall|i: int| 0 <= i < at ==> not_after(#[trigger] before[i], x),
        decreases entries.len() - at,
    {
        assert(before[at as int] == entries@[at as int]@);
        at += 1;
    }
    proof {
        if at < before.len() {
            assert(before[at as int] == entries@[at as int]@);
        }
        lemma_report_grows(before, hostile, x, at as int);
    }
    entries.insert(at, entry);
    assert(resolve::string_views(entries@) =~= before.insert(at as int, x));
    if entries.len() > SHOWN_SYMLINKS {
        entries.truncate(SHOWN_SYMLINKS);
        assert(resolve::string_views(entries@) =~= before.insert(at as int, x).take(
            SHOWN_SYMLINKS as int,
        ));
    }
}

/// The first few of the refused symlinks, in order.
fn report(hostile: Vec<String>) -> (r: Vec<String>)
    ensures
        is_report(resolve::string_views(r@), resolve::string_views(hostile@)),
        resolve::string_views(r@) == report_of(resolve::string_views(hostile@)),
{
    let ghost all = resolve::string_views(hostile@);
    let mut entries: Vec<String> = Vec::new();
    let mut i: usize = 0;
    proof {
        assert(resolve::string_views(entries@) =~= all.take(0));
        assert(all.take(0).to_multiset() == all.take(0).to_multiset());
        assert(is_report(resolve::string_views(entries@), all.take(0)));
    }
    while i < hostile.len()
        invariant
            i <= hostile@.len(),
            all == resolve::string_views(hostile@),
            is_report(resolve::string_views(entries@), all.take(i as int)),
        decreases hostile.len() - i,
    {
        report_one(&mut entries, hostile[i].clone(), Ghost(all.take(i as int)));
        assert(all.take(i as int).push(hostile@[i as int]@) =~= all.take(i + 1));
        i += 1;
    }
    proof {
        assert(all.take(i as int) =~= all);
        law_report_exists(all);
        law_report_is_unique(resolve::string_views(entries@), report_of(all), all);
    }
    entries
}

// ---- case of names ----

pub open spec fn is_letter(c: char) -> bool {
    'a' <= c <= 'z' || 'A' <= c <= 'Z'
}

/// The other case of an ASCII letter; any other character is its own.
pub open spec fn swapped_char(c: char) -> char {
    if 'a' <= c <= 'z' {
        (c as u32 - 32) as char
    } else {
        text::ascii_lower(c)
    }
}

pub open spec fn swapped_name(name: Seq<char>) -> Seq<char> {
    name.map_values(|c: char| swapped_char(c))
}

pub open spec fn has_letter(name: Seq<char>) -> bool {
    exists|i: int| 0 <= i < name.len() && is_letter(#[trigger] name[i])
}

/// Whether a name is text in which a letter can change its case.
pub open spec fn is_case_probe(name: Option<Seq<char>>) -> bool {
    name matches Some(name) && has_letter(name)
}

pub open spec fn name_view(name: Option<String>) -> Option<Seq<char>> {
    match name {
        Some(s) => Some(s@),
        None => None,
    }
}

/// A name with a letter differs from its other case.
pub proof fn law_swapped_name_differs(name: Seq<char>)
    requires
        has_letter(name),
    ensures
        swapped_name(name) != name,
{
    let i = choose|i: int| 0 <= i < name.len() && is_letter(#[trigger] name[i]);
    assert(swapped_name(name)[i] == swapped_char(name[i]));
}

fn swap_char(c: char) -> (r: char)
    ensures
        r == swapped_char(c),
{
    if 'a' <= c && c <= 'z' {
        (c as u8 - 32) as char
    } else {
        text::lower_char(c)
    }
}

/// The name in its other case, when it holds a letter.
fn swap_case(name: &str) -> (r: Option<String>)
    ensures
        match r {
            Some(s) => has_letter(name@) && s@ == swapped_name(name@),
            None => !has_letter(name@),
        },
{
    let chars = text::chars_of(name);
    let mut out: Vec<char> = Vec::new();
    let mut letter = false;
    let mut i: usize = 0;
    while i < chars.len()
        invariant
            i <= chars@.len(),
            chars@ == name@,
            out@.len() == i,
            forall|j: int| 0 <= j < i ==> out@[j] == swapped_char(chars@[j]),
            letter == exists|j: int| 0 <= j < i && is_letter(#[trigger] chars@[j]),
        decreases chars.len() - i,
    {
        let c = chars[i];
        if ('a' <= c && c <= 'z') || ('A' <= c && c <= 'Z') {
            assert(is_letter(chars@[i as int]));
            letter = true;
        }
        out.push(swap_char(c));
        i += 1;
    }
    assert(out@ =~= swapped_name(name@));
    if letter {
        Some(text::string_of(out.as_slice()))
    } else {
        None
    }
}

pub open spec fn name_views(names: Seq<Option<String>>) -> Seq<Option<Seq<char>>> {
    names.map_values(|name: Option<String>| name_view(name))
}

/// Whether an entry, with its name in the other case, is the one whose case decides: the first
/// of the leading names with an ASCII letter. `None` where there is no such name.
pub open spec fn is_decided(
    names: Seq<Option<Seq<char>>>,
    probe: Option<(int, Seq<char>)>,
) -> bool {
    match probe {
        Some((at, swapped)) => {
            &&& 0 <= at < names.len()
            &&& at < CASE_PROBE_NAMES
            &&& is_case_probe(names[at])
            &&& swapped == swapped_name(names[at].unwrap())
            &&& forall|j: int| 0 <= j < at ==> !is_case_probe(#[trigger] names[j])
        },
        None => forall|j: int|
            0 <= j < names.len() && j < CASE_PROBE_NAMES ==> !is_case_probe(#[trigger] names[j]),
    }
}

/// The entry whose case decides, among the names at the top of the docroot, with its name in
/// the other case: the first of the leading ones with an ASCII letter. `None` stands for a name
/// that is no text. Without such an entry the docroot passes.
pub fn case_probe(names: &Vec<Option<String>>) -> (r: Option<(usize, String)>)
    ensures
        match r {
            Some((at, swapped)) => {
                &&& at < names@.len()
                &&& at < CASE_PROBE_NAMES
                &&& is_case_probe(name_view(names@[at as int]))
                &&& swapped@ == swapped_name(name_view(names@[at as int]).unwrap())
                &&& forall|j: int|
                    0 <= j < at ==> !is_case_probe(name_view(#[trigger] names@[j]))
            },
            None => forall|j: int|
                0 <= j < names@.len() && j < CASE_PROBE_NAMES ==> !is_case_probe(
                    name_view(#[trigger] names@[j]),
                ),
        },
        is_decided(name_views(names@), match r {
            Some((at, swapped)) => Some((at as int, swapped@)),
            None => None,
        }),
{
    let mut i: usize = 0;
    while i < names.len() && i < CASE_PROBE_NAMES
        invariant
            i <= names@.len(),
            i <= CASE_PROBE_NAMES,
            forall|j: int| 0 <= j < i ==> !is_case_probe(name_view(#[trigger] names@[j])),
        decreases names.len() - i,
    {
        if let Some(name) = &names[i] {
            if let Some(swapped) = swap_case(name.as_str()) {
                return Some((i, swapped));
            }
        }
        i += 1;
    }
    None
}

/// The verdict on a docroot from the device and inode of an entry under its own name and under
/// the name in the other case; `None` stands for a name that does not exist. The same file
/// under both names shows that case is ignored.
pub fn case_verdict(
    canonical: &str,
    original: Option<(u64, u64)>,
    variant: Option<(u64, u64)>,
) -> (r: Result<(), RootError>)
    ensures
        match r {
            Ok(()) => original is None || original != variant,
            Err(e) => original is Some && original == variant && e@
                == RootErrorView::CaseInsensitiveRoot(canonical@),
        },
        r is Err <==> ignores_case(Some((original, variant))),
{
    if let (Some(a), Some(b)) = (original, variant) {
        if a.0 == b.0 && a.1 == b.1 {
            return Err(RootError::CaseInsensitiveRoot(canonical.to_owned()));
        }
    }
    Ok(())
}

// ---- pinning ----

/// A docroot under the policy and generation that it is pinned with; its configured path has
/// still to be resolved.
#[derive(Debug)]
pub struct Pinning {
    policy: SymlinkPolicy,
    generation: u64,
}

/// The physical path is known; its kind is not.
#[derive(Debug)]
pub struct PinCanonical {
    pinning: Pinning,
    canonical: String,
}

/// The physical path is a directory; it has still to be opened.
#[derive(Debug)]
pub struct PinDirectory {
    pinning: Pinning,
    canonical: String,
}

/// The directory is open; whether opens can be confined to it is not known.
#[derive(Debug)]
pub struct PinOpened {
    pinning: Pinning,
    canonical: String,
}

/// Opens can be confined to the directory; its device and inode have still to be read.
#[derive(Debug)]
pub struct PinConfined {
    pinning: Pinning,
    canonical: String,
}

/// The directory is identified; the tree has still to be audited.
#[derive(Debug)]
pub struct PinIdentified {
    pinning: Pinning,
    canonical: String,
    dev: u64,
    ino: u64,
}

/// A walk over the tree of an identified directory that looks for symlinks that would be
/// refused at request time.
pub struct Audit<P> {
    pin: PinIdentified,
    stack: Vec<P>,
    scanned: usize,
    hostile: Vec<String>,
    links: Ghost<Seq<SeenLink>>,
}

/// What the audit wants next.
pub enum AuditStep<P> {
    /// Read this directory. One that cannot be read is passed over: requests below it will
    /// miss.
    Read(P, Audit<P>),
    /// The walk is over.
    Done(Result<PinAudited, RootError>),
}

/// The tree has passed the audit; the case of names has still to be looked at.
#[derive(Debug)]
pub struct PinAudited {
    pinning: Pinning,
    canonical: String,
    dev: u64,
    ino: u64,
}

/// A pinned docroot: the anchor beneath which every request is resolved.
#[derive(Debug)]
pub struct Root {
    policy: SymlinkPolicy,
    canonical: String,
    dev: u64,
    ino: u64,
    generation: u64,
}

pub struct PinningView {
    pub policy: SymlinkPolicy,
    /// How often the docroot was pinned before.
    pub generation: u64,
}

pub struct PathView {
    pub pinning: PinningView,
    /// The physical path.
    pub canonical: Seq<char>,
}

pub struct RootView {
    pub policy: SymlinkPolicy,
    pub generation: u64,
    /// The physical path.
    pub canonical: Seq<char>,
    pub dev: u64,
    pub ino: u64,
}

/// A symlink that the audit has seen: where it lies, and whether it leads out of the root.
pub struct SeenLink {
    pub path: Seq<char>,
    pub escapes: bool,
}

pub struct AuditView<P> {
    pub pin: RootView,
    /// The directories still to be read; the last is read next.
    pub stack: Seq<P>,
    /// The entries visited so far.
    pub scanned: int,
    /// The symlinks seen so far.
    pub links: Seq<SeenLink>,
}

impl View for Pinning {
    type V = PinningView;

    closed spec fn view(&self) -> PinningView {
        PinningView { policy: self.policy, generation: self.generation }
    }
}

impl View for PinCanonical {
    type V = PathView;

    closed spec fn view(&self) -> PathView {
        PathView { pinning: self.pinning@, canonical: self.canonical@ }
    }
}

impl View for PinDirectory {
    type V = PathView;

    closed spec fn view(&self) -> PathView {
        PathView { pinning: self.pinning@, canonical: self.canonical@ }
    }
}

impl View for PinOpened {
    type V = PathView;

    closed spec fn view(&self) -> PathView {
        PathView { pinning: self.pinning@, canonical: self.canonical@ }
    }
}

impl View for PinConfined {
    type V = PathView;

    closed spec fn view(&self) -> PathView {
        PathView { pinning: self.pinning@, canonical: self.canonical@ }
    }
}

impl View for PinIdentified {
    type V = RootView;

    closed spec fn view(&self) -> RootView {
        RootView {
            policy: self.pinning.policy,
            generation: self.pinning.generation,
            canonical: self.canonical@,
            dev: self.dev,
            ino: self.ino,
        }
    }
}

impl View for PinAudited {
    type V = RootView;

    closed spec fn view(&self) -> RootView {
        RootView {
            policy: self.pinning.policy,
            generation: self.pinning.generation,
            canonical: self.canonical@,
            dev: self.dev,
            ino: self.ino,
        }
    }
}

impl View for Root {
    type V = RootView;

    closed spec fn view(&self) -> RootView {
        RootView {
            policy: self.policy,
            generation: self.generation,
            canonical: self.canonical@,
            dev: self.dev,
            ino: self.ino,
        }
    }
}

impl<P> View for Audit<P> {
    type V = AuditView<P>;

    closed spec fn view(&self) -> AuditView<P> {
        AuditView {
            pin: self.pin@,
            stack: self.stack@,
            scanned: self.scanned as int,
            links: self.links@,
        }
    }
}

/// What the filesystem reported, with errors in words.
pub open spec fn reported<T>(result: Result<T, String>) -> Result<T, Seq<char>> {
    match result {
        Ok(value) => Ok(value),
        Err(e) => Err(e@),
    }
}

/// The pin once its physical path is known.
pub open spec fn after_canonicalized(
    pinning: PinningView,
    result: Result<Seq<char>, Seq<char>>,
) -> Result<PathView, RootErrorView> {
    match result {
        Ok(canonical) => Ok(PathView { pinning, canonical }),
        Err(e) => Err(RootErrorView::Io(e)),
    }
}

/// The pin once it is known whether the path is a directory.
pub open spec fn after_inspected(pin: PathView, is_dir: Result<bool, Seq<char>>) -> Result<
    PathView,
    RootErrorView,
> {
    match is_dir {
        Ok(true) => Ok(pin),
        Ok(false) => Err(RootErrorView::NotADirectory(pin.canonical)),
        Err(e) => Err(RootErrorView::Io(e)),
    }
}

/// The pin once the directory was to be opened.
pub open spec fn after_opened(pin: PathView, result: Result<(), Seq<char>>) -> Result<
    PathView,
    RootErrorView,
> {
    match result {
        Ok(()) => Ok(pin),
        Err(e) => Err(RootErrorView::Io(e)),
    }
}

/// The pin once a confined open was tried.
pub open spec fn after_probed(pin: PathView, result: Result<(), (Errno, Seq<char>)>) -> Result<
    PathView,
    RootErrorView,
> {
    match result {
        Ok(()) => Ok(pin),
        Err((errno, e)) => if errno == Errno::NoSys {
            Err(RootErrorView::Openat2Unsupported)
        } else {
            Err(RootErrorView::Io(e))
        },
    }
}

/// The pin once the device and inode of the directory were to be read.
pub open spec fn after_identified(pin: PathView, result: Result<(u64, u64), Seq<char>>) -> Result<
    RootView,
    RootErrorView,
> {
    match result {
        Ok((dev, ino)) => Ok(
            RootView {
                policy: pin.pinning.policy,
                generation: pin.pinning.generation,
                canonical: pin.canonical,
                dev,
                ino,
            },
        ),
        Err(e) => Err(RootErrorView::Io(e)),
    }
}

/// Whether a symlink is refused: every one where the policy denies them, and otherwise one that
/// escapes the root.
pub open spec fn is_refused(policy: SymlinkPolicy, link: SeenLink) -> bool {
    policy == SymlinkPolicy::Deny || link.escapes
}

/// The refused ones among the symlinks, as they are shown to operators.
pub open spec fn refused_links(
    policy: SymlinkPolicy,
    root: Seq<char>,
    links: Seq<SeenLink>,
) -> Seq<Seq<char>>
    decreases links.len(),
{
    if links.len() == 0 {
        Seq::empty()
    } else {
        let before = refused_links(policy, root, links.drop_last());
        if is_refused(policy, links.last()) {
            before.push(paths::shown_path(root, links.last().path))
        } else {
            before
        }
    }
}

/// The pin once the whole tree was walked: none of the symlinks in it may be refused.
pub open spec fn after_audit(pin: RootView, links: Seq<SeenLink>) -> Result<
    RootView,
    RootErrorView,
> {
    let hostile = refused_links(pin.policy, pin.canonical, links);
    if hostile.len() == 0 {
        Ok(pin)
    } else {
        Err(RootErrorView::HostileSymlinks(report_of(hostile)))
    }
}

/// Whether the same file lies under a name and under the name in the other case.
pub open spec fn ignores_case(found: Option<(Option<(u64, u64)>, Option<(u64, u64)>)>) -> bool {
    found matches Some((original, variant)) && original is Some && original == variant
}

/// The pin once the case of names was looked at.
pub open spec fn after_case_checked(
    pin: RootView,
    found: Option<(Option<(u64, u64)>, Option<(u64, u64)>)>,
) -> Result<RootView, RootErrorView> {
    if ignores_case(found) {
        Err(RootErrorView::CaseInsensitiveRoot(pin.canonical))
    } else {
        Ok(pin)
    }
}

/// What comes of a look at the configured path of a pinned docroot: nothing where it has still
/// the identity that was pinned, and a pin of the next generation where it has another.
pub open spec fn repinned(pin: RootView, current: Result<(u64, u64), Seq<char>>) -> Result<
    Option<PinningView>,
    RootErrorView,
> {
    match current {
        Err(e) => Err(RootErrorView::Io(e)),
        Ok((dev, ino)) => Ok(
            if dev == pin.dev && ino == pin.ino {
                None
            } else {
                Some(
                    PinningView { policy: pin.policy, generation: (pin.generation + 1) as u64 },
                )
            },
        ),
    }
}

/// An audit that begins at a directory.
pub open spec fn audit_begun<P>(pin: RootView, top: P) -> AuditView<P> {
    AuditView { pin, stack: seq![top], scanned: 0, links: Seq::empty() }
}

/// The audit once its next directory is taken.
pub open spec fn after_taken<P>(audit: AuditView<P>) -> AuditView<P> {
    AuditView { stack: audit.stack.drop_last(), ..audit }
}

/// The audit once one more entry is counted.
pub open spec fn after_found<P>(audit: AuditView<P>) -> Result<AuditView<P>, RootErrorView> {
    if audit.scanned < AUDIT_ENTRY_LIMIT {
        Ok(AuditView { scanned: audit.scanned + 1, ..audit })
    } else {
        Err(RootErrorView::AuditTooLarge(AUDIT_ENTRY_LIMIT + 1))
    }
}

/// The audit with one more directory to read.
pub open spec fn with_directory<P>(audit: AuditView<P>, path: P) -> AuditView<P> {
    AuditView { stack: audit.stack.push(path), ..audit }
}

/// The audit with one more symlink seen.
pub open spec fn with_link<P>(audit: AuditView<P>, link: SeenLink) -> AuditView<P> {
    AuditView { links: audit.links.push(link), ..audit }
}

impl Pinning {
    /// How often the docroot was pinned before.
    pub fn generation(&self) -> (r: u64)
        ensures
            r == self@.generation,
    {
        self.generation
    }

    /// Takes the physical path of the docroot.
    pub fn canonicalized(self, result: Result<String, String>) -> (r: Result<
        PinCanonical,
        RootError,
    >)
        ensures
            ({
                let path = match result {
                    Ok(path) => Ok(path@),
                    Err(e) => Err(e@),
                };
                match r {
                    Ok(next) => after_canonicalized(self@, path) == Ok::<_, RootErrorView>(next@),
                    Err(e) => after_canonicalized(self@, path) == Err::<PathView, _>(e@),
                }
            }),
    {
        match result {
            Ok(canonical) => Ok(PinCanonical { pinning: self, canonical }),
            Err(e) => Err(RootError::Io(e)),
        }
    }
}

impl PinCanonical {
    /// The physical path of the docroot.
    pub fn canonical(&self) -> (r: &str)
        ensures
            r@ == self@.canonical,
    {
        self.canonical.as_str()
    }

    /// Takes whether the path is a directory.
    pub fn inspected(self, is_dir: Result<bool, String>) -> (r: Result<PinDirectory, RootError>)
        ensures
            match r {
                Ok(next) => after_inspected(self@, reported(is_dir)) == Ok::<_, RootErrorView>(
                    next@,
                ),
                Err(e) => after_inspected(self@, reported(is_dir)) == Err::<PathView, _>(e@),
            },
    {
        match is_dir {
            Ok(true) => Ok(PinDirectory { pinning: self.pinning, canonical: self.canonical }),
            Ok(false) => Err(RootError::NotADirectory(self.canonical)),
            Err(e) => Err(RootError::Io(e)),
        }
    }
}

impl PinDirectory {
    /// Takes whether the directory could be opened.
    pub fn opened(self, result: Result<(), String>) -> (r: Result<PinOpened, RootError>)
        ensures
            match r {
                Ok(next) => after_opened(self@, reported(result)) == Ok::<_, RootErrorView>(next@),
                Err(e) => after_opened(self@, reported(result)) == Err::<PathView, _>(e@),
            },
    {
        match result {
            Ok(()) => Ok(PinOpened { pinning: self.pinning, canonical: self.canonical }),
            Err(e) => Err(RootError::Io(e)),
        }
    }
}

impl PinOpened {
    /// Takes the result of a confined open of the directory itself, with the error in words. A
    /// kernel without confined opens is refused.
    pub fn probed(self, result: Result<(), (Errno, String)>) -> (r: Result<PinConfined, RootError>)
        ensures
            ({
                let outcome = match result {
                    Ok(()) => Ok(()),
                    Err((errno, e)) => Err((errno, e@)),
                };
                match r {
                    Ok(next) => after_probed(self@, outcome) == Ok::<_, RootErrorView>(next@),
                    Err(e) => after_probed(self@, outcome) == Err::<PathView, _>(e@),
                }
            }),
    {
        match result {
            Ok(()) => Ok(PinConfined { pinning: self.pinning, canonical: self.canonical }),
            Err((Errno::NoSys, _)) => Err(RootError::Openat2Unsupported),
            Err((_, e)) => Err(RootError::Io(e)),
        }
    }
}

impl PinConfined {
    /// Takes the device and inode of the directory.
    pub fn identified(self, result: Result<(u64, u64), String>) -> (r: Result<
        PinIdentified,
        RootError,
    >)
        ensures
            match r {
                Ok(next) => after_identified(self@, reported(result)) == Ok::<_, RootErrorView>(
                    next@,
                ),
                Err(e) => after_identified(self@, reported(result)) == Err::<RootView, _>(e@),
            },
    {
        match result {
            Ok((dev, ino)) => Ok(
                PinIdentified { pinning: self.pinning, canonical: self.canonical, dev, ino },
            ),
            Err(e) => Err(RootError::Io(e)),
        }
    }
}

impl PinIdentified {
    /// Begins the audit at the directory itself.
    pub fn audit<P>(self, top: P) -> (r: Audit<P>)
        ensures
            r@ == audit_begun(self@, top),
    {
        let mut stack: Vec<P> = Vec::new();
        stack.push(top);
        assert(stack@ =~= seq![top]);
        let hostile: Vec<String> = Vec::new();
        assert(resolve::string_views(hostile@) =~= Seq::empty());
        Audit { pin: self, stack, scanned: 0, hostile, links: Ghost(Seq::empty()) }
    }
}

impl<P> Audit<P> {
    #[verifier::type_invariant]
    pub closed spec fn wf(self) -> bool {
        &&& self.scanned <= AUDIT_ENTRY_LIMIT
        &&& resolve::string_views(self.hostile@) == refused_links(
            self.pin@.policy,
            self.pin@.canonical,
            self.links@,
        )
    }

    /// The next directory to read. Once there is none, the pin has passed the audit unless one
    /// of the symlinks is refused.
    pub fn next(self) -> (r: AuditStep<P>)
        ensures
            match r {
                AuditStep::Read(dir, audit) => {
                    &&& self@.stack.len() > 0
                    &&& dir == self@.stack.last()
                    &&& audit@ == after_taken(self@)
                },
                AuditStep::Done(Ok(next)) => self@.stack.len() == 0 && after_audit(
                    self@.pin,
                    self@.links,
                ) == Ok::<_, RootErrorView>(next@),
                AuditStep::Done(Err(e)) => self@.stack.len() == 0 && after_audit(
                    self@.pin,
                    self@.links,
                ) == Err::<RootView, _>(e@),
            },
    {
        proof {
            use_type_invariant(&self);
        }
        let mut stack = self.stack;
        match stack.pop() {
            Some(dir) => AuditStep::Read(
                dir,
                Audit {
                    pin: self.pin,
                    stack,
                    scanned: self.scanned,
                    hostile: self.hostile,
                    links: self.links,
                },
            ),
            None => if self.hostile.len() == 0 {
                AuditStep::Done(
                    Ok(
                        PinAudited {
                            pinning: self.pin.pinning,
                            canonical: self.pin.canonical,
                            dev: self.pin.dev,
                            ino: self.pin.ino,
                        },
                    ),
                )
            } else {
                AuditStep::Done(Err(RootError::HostileSymlinks { entries: report(self.hostile) }))
            },
        }
    }

    /// Counts one entry; the audit ends in an error when the tree has too many.
    pub fn found(self) -> (r: Result<Audit<P>, RootError>)
        ensures
            match r {
                Ok(audit) => after_found(self@) == Ok::<_, RootErrorView>(audit@),
                Err(e) => after_found(self@) == Err::<AuditView<P>, _>(e@),
            },
    {
        proof {
            use_type_invariant(&self);
        }
        if self.scanned >= AUDIT_ENTRY_LIMIT {
            return Err(RootError::AuditTooLarge { scanned: AUDIT_ENTRY_LIMIT + 1 });
        }
        Ok(
            Audit {
                pin: self.pin,
                stack: self.stack,
                scanned: self.scanned + 1,
                hostile: self.hostile,
                links: self.links,
            },
        )
    }

    /// Takes an entry that is a directory: it is read later.
    pub fn directory(self, path: P) -> (r: Audit<P>)
        ensures
            r@ == with_directory(self@, path),
    {
        proof {
            use_type_invariant(&self);
        }
        let mut stack = self.stack;
        stack.push(path);
        Audit {
            pin: self.pin,
            stack,
            scanned: self.scanned,
            hostile: self.hostile,
            links: self.links,
        }
    }

    /// Whether a symlink has to be followed to tell if it is refused.
    pub fn follows_links(&self) -> (r: bool)
        ensures
            r == (self@.pin.policy == SymlinkPolicy::AllowWithinRoot),
    {
        match self.pin.pinning.policy {
            SymlinkPolicy::Deny => false,
            SymlinkPolicy::AllowWithinRoot => true,
        }
    }

    /// Takes an entry that is a symlink. It is refused when the policy denies every symlink, or
    /// when it escapes the root.
    pub fn symlink(self, path: &str, escapes: bool) -> (r: Audit<P>)
        ensures
            r@ == with_link(self@, SeenLink { path: path@, escapes }),
    {
        proof {
            use_type_invariant(&self);
        }
        let ghost links = self.links@.push(SeenLink { path: path@, escapes });
        assert(links.drop_last() =~= self.links@);
        let refused = match self.pin.pinning.policy {
            SymlinkPolicy::Deny => true,
            SymlinkPolicy::AllowWithinRoot => escapes,
        };
        let mut hostile = self.hostile;
        if refused {
            push_hostile(&mut hostile, self.pin.canonical.as_str(), path);
        }
        Audit {
            pin: self.pin,
            stack: self.stack,
            scanned: self.scanned,
            hostile,
            links: Ghost(links),
        }
    }
}

impl PinAudited {
    /// Takes what lies under the name whose case decides and under that name in the other case,
    /// by device and inode: the docroot is pinned unless that is the same file. `None` stands
    /// for a docroot without such a name, or one whose names cannot be read.
    pub fn case_checked(self, found: Option<(Option<(u64, u64)>, Option<(u64, u64)>)>) -> (r:
        Result<Root, RootError>)
        ensures
            match r {
                Ok(root) => after_case_checked(self@, found) == Ok::<_, RootErrorView>(root@),
                Err(e) => after_case_checked(self@, found) == Err::<RootView, _>(e@),
            },
    {
        if let Some((original, variant)) = found {
            if let Err(e) = case_verdict(self.canonical.as_str(), original, variant) {
                return Err(e);
            }
        }
        Ok(
            Root {
                policy: self.pinning.policy,
                canonical: self.canonical,
                dev: self.dev,
                ino: self.ino,
                generation: self.pinning.generation,
            },
        )
    }
}

impl Root {
    /// Begins to pin a docroot for the first time.
    pub fn pin(policy: SymlinkPolicy) -> (r: Pinning)
        ensures
            r@ == (PinningView { policy, generation: 0 }),
    {
        Pinning { policy, generation: 0 }
    }

    /// The generation of this pin.
    pub fn generation(&self) -> (r: u64)
        ensures
            r == self@.generation,
    {
        self.generation
    }

    /// The physical path that is pinned.
    pub fn canonical(&self) -> (r: &str)
        ensures
            r@ == self@.canonical,
    {
        self.canonical.as_str()
    }

    /// Takes the device and inode of the configured path: where they differ from those of the
    /// pin, the docroot is to be pinned anew, as the next generation. `None` means that the pin
    /// stands.
    pub fn check_repin(&self, current: Result<(u64, u64), String>) -> (r: Result<
        Option<Pinning>,
        RootError,
    >)
        requires
            self@.generation < u64::MAX,
        ensures
            match r {
                Ok(None) => current == Ok::<_, String>((self@.dev, self@.ino)),
                Ok(Some(pinning)) => current is Ok && current != Ok::<_, String>(
                    (self@.dev, self@.ino),
                ) && pinning@ == (PinningView {
                    policy: self@.policy,
                    generation: (self@.generation + 1) as u64,
                }),
                Err(e) => current matches Err(text) && e@ == RootErrorView::Io(text@),
            },
            match r {
                Ok(None) => repinned(self@, reported(current)) == Ok::<_, RootErrorView>(
                    None::<PinningView>,
                ),
                Ok(Some(pinning)) => repinned(self@, reported(current)) == Ok::<_, RootErrorView>(
                    Some(pinning@),
                ),
                Err(e) => repinned(self@, reported(current)) == Err::<Option<PinningView>, _>(e@),
            },
    {
        match current {
            Err(e) => Err(RootError::Io(e)),
            Ok((dev, ino)) => if dev == self.dev && ino == self.ino {
                Ok(None)
            } else {
                Ok(Some(Pinning { policy: self.policy, generation: self.generation + 1 }))
            },
        }
    }

    /// Begins to resolve a relative path beneath this root.
    pub fn open_rel(&self, rel: &str) -> (r: Result<Opening, Errno>)
        ensures
            match r {
                Ok(opening) => resolve::is_openable(rel@) && opening@ == resolve::opening_of(
                    rel@,
                    self@.policy,
                ),
                Err(e) => !resolve::is_openable(rel@) && e == Errno::Inval,
            },
    {
        Opening::begin(rel, self.policy)
    }

    /// Begins to resolve a relative path beneath this root, and then its sidecars in the given
    /// order.
    pub fn open_encoded<F>(&self, rel: &str, preference: Vec<Encoding>) -> (r: EncodedStep<F>)
        ensures
            r@ == resolve::encoded_from::<F>(rel@, preference@, self@.policy),
    {
        EncodedOpening::begin(rel, preference, self.policy)
    }

    /// Begins the search for a sidecar of a path whose own resolution beneath this root is
    /// already known.
    pub fn open_encoded_with_identity<F>(
        &self,
        rel: &str,
        preference: Vec<Encoding>,
        identity: Outcome<F>,
    ) -> (r: SidecarStep<F>)
        ensures
            r@ == resolve::sidecars_of(rel@, preference@, identity, self@.policy),
    {
        resolve::open_encoded_with_identity(rel, preference, identity, self.policy)
    }
}

// ---- the whole of a pin ----

/// All that the filesystem reports while a docroot is pinned.
pub struct PinReport {
    pub canonical: Result<Seq<char>, Seq<char>>,
    pub is_dir: Result<bool, Seq<char>>,
    pub opened: Result<(), Seq<char>>,
    pub confined: Result<(), (Errno, Seq<char>)>,
    pub identity: Result<(u64, u64), Seq<char>>,
    /// The symlinks in the tree, or why the walk was broken off.
    pub links: Result<Seq<SeenLink>, RootErrorView>,
    /// What lies under the name whose case decides, and under that name in the other case.
    pub case: Option<(Option<(u64, u64)>, Option<(u64, u64)>)>,
}

/// The pin as far as the directory is identified.
pub open spec fn identified(pinning: PinningView, report: PinReport) -> Result<
    RootView,
    RootErrorView,
> {
    match after_canonicalized(pinning, report.canonical) {
        Err(e) => Err(e),
        Ok(pin) => match after_inspected(pin, report.is_dir) {
            Err(e) => Err(e),
            Ok(pin) => match after_opened(pin, report.opened) {
                Err(e) => Err(e),
                Ok(pin) => match after_probed(pin, report.confined) {
                    Err(e) => Err(e),
                    Ok(pin) => after_identified(pin, report.identity),
                },
            },
        },
    }
}

/// What comes of pinning a docroot: the steps one after the other, up to the first that fails.
pub open spec fn pinned(pinning: PinningView, report: PinReport) -> Result<
    RootView,
    RootErrorView,
> {
    match identified(pinning, report) {
        Err(e) => Err(e),
        Ok(pin) => match report.links {
            Err(e) => Err(e),
            Ok(links) => match after_audit(pin, links) {
                Err(e) => Err(e),
                Ok(pin) => after_case_checked(pin, report.case),
            },
        },
    }
}

/// Whether the tree holds no symlink that is refused: none at all where the policy denies them,
/// and otherwise none that escapes.
pub open spec fn is_free_of_refused_links(policy: SymlinkPolicy, links: Seq<SeenLink>) -> bool {
    match policy {
        SymlinkPolicy::Deny => links.len() == 0,
        SymlinkPolicy::AllowWithinRoot => forall|i: int|
            0 <= i < links.len() ==> !(#[trigger] links[i]).escapes,
    }
}

/// A docroot can be identified: it is a directory that exists, and opens can be confined to it.
pub open spec fn is_identifiable(report: PinReport) -> bool {
    &&& report.canonical is Ok
    &&& report.is_dir == Ok::<_, Seq<char>>(true)
    &&& report.opened is Ok
    &&& report.confined is Ok
    &&& report.identity is Ok
}

/// The audit reports nothing exactly when no symlink is refused.
pub proof fn law_audit_passes(policy: SymlinkPolicy, root: Seq<char>, links: Seq<SeenLink>)
    ensures
        refused_links(policy, root, links).len() == 0 <==> is_free_of_refused_links(policy, links),
    decreases links.len(),
{
    if links.len() > 0 {
        let before = links.drop_last();
        law_audit_passes(policy, root, before);
        if policy == SymlinkPolicy::AllowWithinRoot {
            if is_free_of_refused_links(policy, links) {
                assert forall|i: int| 0 <= i < before.len() implies !(
                #[trigger] before[i]).escapes by {
                    assert(!links[i].escapes);
                }
                assert(!links[links.len() - 1].escapes);
            }
            if is_free_of_refused_links(policy, before) && !links.last().escapes {
                assert forall|i: int| 0 <= i < links.len() implies !(
                #[trigger] links[i]).escapes by {
                    if i < before.len() {
                        assert(!before[i].escapes);
                    }
                }
            }
        }
    }
}

/// A docroot is pinned exactly when its path leads to a directory that can be opened and
/// identified, the kernel confines opens to it, the whole tree was walked and holds no symlink
/// that the policy of the pin refuses, and its filesystem tells the case of names apart. The
/// pin then holds what was reported.
pub proof fn law_pinned_only_when_all_passes(pinning: PinningView, report: PinReport)
    ensures
        pinned(pinning, report) is Ok <==> is_identifiable(report) && (report.links matches Ok(
            links,
        ) && is_free_of_refused_links(pinning.policy, links)) && !ignores_case(report.case),
        pinned(pinning, report) matches Ok(root) ==> {
            &&& root.policy == pinning.policy
            &&& root.generation == pinning.generation
            &&& report.canonical == Ok::<_, Seq<char>>(root.canonical)
            &&& report.identity == Ok::<_, Seq<char>>((root.dev, root.ino))
        },
{
    if let (Ok(pin), Ok(links)) = (identified(pinning, report), report.links) {
        law_audit_passes(pin.policy, pin.canonical, links);
    }
}

/// A docroot that is refused is refused for the first thing that does not pass.
pub proof fn law_refused_for_the_first_failure(pinning: PinningView, report: PinReport)
    ensures
        report.canonical matches Err(e) ==> pinned(pinning, report) == Err::<RootView, _>(
            RootErrorView::Io(e),
        ),
        report.canonical matches Ok(path) ==> match report.is_dir {
            Err(e) => pinned(pinning, report) == Err::<RootView, _>(RootErrorView::Io(e)),
            Ok(false) => pinned(pinning, report) == Err::<RootView, _>(
                RootErrorView::NotADirectory(path),
            ),
            Ok(true) => match (report.opened, report.confined, report.identity) {
                (Err(e), _, _) => pinned(pinning, report) == Err::<RootView, _>(
                    RootErrorView::Io(e),
                ),
                (Ok(()), Err((errno, e)), _) => pinned(pinning, report) == Err::<RootView, _>(
                    if errno == Errno::NoSys {
                        RootErrorView::Openat2Unsupported
                    } else {
                        RootErrorView::Io(e)
                    },
                ),
                (Ok(()), Ok(()), Err(e)) => pinned(pinning, report) == Err::<RootView, _>(
                    RootErrorView::Io(e),
                ),
                (Ok(()), Ok(()), Ok(_)) => match report.links {
                    Err(e) => pinned(pinning, report) == Err::<RootView, _>(e),
                    Ok(links) => if !is_free_of_refused_links(pinning.policy, links) {
                        pinned(pinning, report) == Err::<RootView, _>(
                            RootErrorView::HostileSymlinks(
                                report_of(refused_links(pinning.policy, path, links)),
                            ),
                        )
                    } else if ignores_case(report.case) {
                        pinned(pinning, report) == Err::<RootView, _>(
                            RootErrorView::CaseInsensitiveRoot(path),
                        )
                    } else {
                        pinned(pinning, report) is Ok
                    },
                },
            },
        },
{
    if let (Ok(pin), Ok(links)) = (identified(pinning, report), report.links) {
        law_audit_passes(pin.policy, pin.canonical, links);
    }
}

} // verus!
