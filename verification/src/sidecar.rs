//! Precompressed-sidecar negotiation: which sidecar encodings (`.br`, `.zst`, `.gz` files next
//! to the asset) to try for an `Accept-Encoding` value, and in what order.
//!
//! A sidecar is served only when the uncompressed file exists, and all validators then come
//! from the sidecar's own snapshot.

use crate::text;
use vstd::prelude::*;

verus! {

/// A servable representation encoding. `Identity` is the file itself.
#[derive(Debug, Clone, Copy, PartialEq, Eq, Structural)]
pub enum Encoding {
    Identity,
    Brotli,
    Zstd,
    Gzip,
}

/// The sidecar filename suffix of an encoding.
pub open spec fn file_suffix_of(e: Encoding) -> Option<Seq<char>> {
    match e {
        Encoding::Identity => None,
        Encoding::Brotli => Some(".br"@),
        Encoding::Zstd => Some(".zst"@),
        Encoding::Gzip => Some(".gz"@),
    }
}

/// The `Content-Encoding` token of an encoding.
pub open spec fn content_encoding_of(e: Encoding) -> Option<Seq<char>> {
    match e {
        Encoding::Identity => None,
        Encoding::Brotli => Some("br"@),
        Encoding::Zstd => Some("zstd"@),
        Encoding::Gzip => Some("gzip"@),
    }
}

/// The suffix that tells the validators of an encoding from those of the others.
pub open spec fn etag_suffix_of(e: Encoding) -> Option<Seq<char>> {
    match e {
        Encoding::Identity => None,
        Encoding::Brotli => Some("-br"@),
        Encoding::Zstd => Some("-zst"@),
        Encoding::Gzip => Some("-gz"@),
    }
}

impl Encoding {
    /// Sidecar filename suffix (`None` for identity).
    pub fn file_suffix(self) -> (r: Option<&'static str>)
        ensures
            r is Some == file_suffix_of(self) is Some,
            r matches Some(s) ==> file_suffix_of(self) == Some(s@),
    {
        match self {
            Encoding::Identity => None,
            Encoding::Brotli => Some(".br"),
            Encoding::Zstd => Some(".zst"),
            Encoding::Gzip => Some(".gz"),
        }
    }

    /// `Content-Encoding` token (`None` for identity: the header is omitted).
    pub fn content_encoding(self) -> (r: Option<&'static str>)
        ensures
            r is Some == content_encoding_of(self) is Some,
            r matches Some(s) ==> content_encoding_of(self) == Some(s@),
    {
        match self {
            Encoding::Identity => None,
            Encoding::Brotli => Some("br"),
            Encoding::Zstd => Some("zstd"),
            Encoding::Gzip => Some("gzip"),
        }
    }

    /// ETag suffix, so that distinct representations never share a validator.
    pub fn etag_suffix(self) -> (r: Option<&'static str>)
        ensures
            r is Some == etag_suffix_of(self) is Some,
            r matches Some(s) ==> etag_suffix_of(self) == Some(s@),
    {
        match self {
            Encoding::Identity => None,
            Encoding::Brotli => Some("-br"),
            Encoding::Zstd => Some("-zst"),
            Encoding::Gzip => Some("-gz"),
        }
    }
}

// ---- quality values ----

/// The fraction that up to three decimals denote, in thousandths.
pub open spec fn thousandths(frac: Seq<char>) -> nat {
    let n = text::number_value(frac);
    if frac.len() <= 1 {
        n * 100
    } else if frac.len() == 2 {
        n * 10
    } else {
        n
    }
}

/// What stands before and after the decimal point.
pub open spec fn decimal_parts(value: Seq<char>) -> (Seq<char>, Seq<char>) {
    match text::split_once(value, '.') {
        None => (value, Seq::empty()),
        Some(p) => p,
    }
}

pub open spec fn all_digits(s: Seq<char>) -> bool {
    forall|i: int| 0 <= i < s.len() ==> text::is_digit(#[trigger] s[i])
}

/// A quality value in thousandths: `0` or `1` with up to three decimals, and at most one.
/// `None` when the text is no quality value.
pub open spec fn q_value(value: Seq<char>) -> Option<u16> {
    let (int_part, frac) = decimal_parts(value);
    if frac.len() > 3 || !all_digits(frac) {
        None
    } else if int_part == "0"@ {
        Some(thousandths(frac) as u16)
    } else if int_part == "1"@ && thousandths(frac) == 0 {
        Some(1000)
    } else {
        None
    }
}

/// The weight that a list of parameters gives: that of the last `q`, and one when there is
/// none. `None` when a parameter has no `=`, or a `q` has no quality value.
pub open spec fn weight_of(params: Seq<Seq<char>>) -> Option<u16>
    decreases params.len(),
{
    if params.len() == 0 {
        Some(1000)
    } else {
        match (weight_of(params.drop_last()), text::split_once(text::trim(params.last()), '=')) {
            (Some(q), Some((name, value))) => if text::same_ignoring_case(text::trim(name), "q"@) {
                q_value(text::trim(value))
            } else {
                Some(q)
            },
            _ => None,
        }
    }
}

/// A member of an `Accept-Encoding` list: its token and weight. `None` when it is empty or
/// malformed; such a member counts for nothing.
pub open spec fn member(piece: Seq<char>) -> Option<(Seq<char>, u16)> {
    let m = text::trim(piece);
    if m.len() == 0 {
        None
    } else {
        match text::split_once(m, ';') {
            None => Some((m, 1000)),
            Some((token, params)) => match weight_of(text::split(params, ';')) {
                Some(q) => Some((text::trim(token), q)),
                None => None,
            },
        }
    }
}

/// Whether a token names a sidecar encoding; `Identity` stands for the wildcard.
pub open spec fn token_names(token: Seq<char>, which: Encoding) -> bool {
    match which {
        Encoding::Identity => token == "*"@,
        Encoding::Brotli => text::same_ignoring_case(token, "br"@),
        Encoding::Zstd => text::same_ignoring_case(token, "zstd"@),
        Encoding::Gzip => text::same_ignoring_case(token, "gzip"@) || text::same_ignoring_case(
            token,
            "x-gzip"@,
        ),
    }
}

/// The weight in the last well-formed member that names an encoding.
pub open spec fn stated_weight(pieces: Seq<Seq<char>>, which: Encoding) -> Option<u16>
    decreases pieces.len(),
{
    if pieces.len() == 0 {
        None
    } else {
        match member(pieces.last()) {
            Some((token, q)) if token_names(token, which) => Some(q),
            _ => stated_weight(pieces.drop_last(), which),
        }
    }
}

/// The weight of an encoding in an `Accept-Encoding` value: its own, else the wildcard's,
/// else zero.
pub open spec fn weight(header: Seq<char>, e: Encoding) -> u16 {
    let pieces = text::split(header, ',');
    match (stated_weight(pieces, e), stated_weight(pieces, Encoding::Identity)) {
        (Some(q), _) => q,
        (None, Some(q)) => q,
        (None, None) => 0,
    }
}

/// The order in which encodings of the same weight are tried.
pub open spec fn rank(e: Encoding) -> int {
    match e {
        Encoding::Identity => 0,
        Encoding::Brotli => 1,
        Encoding::Zstd => 2,
        Encoding::Gzip => 3,
    }
}

/// Whether `a` is tried before `b`.
pub open spec fn goes_before(header: Seq<char>, a: Encoding, b: Encoding) -> bool {
    ||| weight(header, a) > weight(header, b)
    ||| weight(header, a) == weight(header, b) && rank(a) < rank(b)
}

/// A sidecar encoding that the client accepts.
pub open spec fn is_accepted(header: Seq<char>, e: Encoding) -> bool {
    e != Encoding::Identity && weight(header, e) > 0
}

/// The accepted encodings, each once, in the order in which they are tried.
pub open spec fn is_try_order(order: Seq<Encoding>, header: Seq<char>) -> bool {
    &&& forall|e: Encoding| #[trigger] order.contains(e) <==> is_accepted(header, e)
    &&& forall|i: int, j: int|
        0 <= i < j < order.len() ==> goes_before(header, #[trigger] order[i], #[trigger] order[j])
}

/// The try order of an `Accept-Encoding` value; nothing is tried without one.
pub open spec fn try_order(accept_encoding: Option<Seq<char>>) -> Seq<Encoding> {
    match accept_encoding {
        None => Seq::empty(),
        Some(header) => choose|order: Seq<Encoding>| is_try_order(order, header),
    }
}

/// An `Accept-Encoding` value has only one try order.
pub proof fn law_try_order_is_unique(a: Seq<Encoding>, b: Seq<Encoding>, header: Seq<char>)
    requires
        is_try_order(a, header),
        is_try_order(b, header),
    ensures
        a == b,
{
    lemma_try_order_len(a, b, header);
    lemma_try_order_len(b, a, header);
    lemma_try_order_prefix(a, b, header, a.len() as int);
    assert(a =~= b);
}

/// Two try orders begin alike, as far as both reach.
proof fn lemma_try_order_prefix(a: Seq<Encoding>, b: Seq<Encoding>, header: Seq<char>, n: int)
    requires
        is_try_order(a, header),
        is_try_order(b, header),
        0 <= n <= a.len(),
        n <= b.len(),
    ensures
        forall|i: int| 0 <= i < n ==> a[i] == b[i],
    decreases n,
{
    if n > 0 {
        lemma_try_order_prefix(a, b, header, n - 1);
        let k = n - 1;
        assert(a.contains(a[k]));
        assert(b.contains(b[k]));
        assert(b.contains(a[k]));
        assert(a.contains(b[k]));
        let i = choose|i: int| 0 <= i < b.len() && b[i] == a[k];
        let j = choose|j: int| 0 <= j < a.len() && a[j] == b[k];
        if i < k {
            assert(a[i] == b[i]);
            assert(goes_before(header, a[i], a[k]));
        } else if j < k {
            assert(a[j] == b[j]);
            assert(goes_before(header, b[j], b[k]));
        } else if i > k && j > k {
            assert(goes_before(header, b[k], b[i]));
            assert(goes_before(header, a[k], a[j]));
        }
    }
}

proof fn lemma_try_order_len(a: Seq<Encoding>, b: Seq<Encoding>, header: Seq<char>)
    requires
        is_try_order(a, header),
        is_try_order(b, header),
    ensures
        a.len() <= b.len(),
{
    if a.len() > b.len() {
        lemma_try_order_prefix(a, b, header, b.len() as int);
        let k = b.len() as int;
        assert(a.contains(a[k]));
        assert(b.contains(a[k]));
        let i = choose|i: int| 0 <= i < b.len() && b[i] == a[k];
        assert(a[i] == b[i]);
        assert(goes_before(header, a[i], a[k]));
    }
}

// ---- negotiation ----

/// The quality value that a text denotes, in thousandths.
fn parse_q_value(value: &[char]) -> (r: Option<u16>)
    ensures
        r == q_value(value@),
{
    let empty: Vec<char> = Vec::new();
    let (int_part, frac) = match text::split_chars_once(value, '.') {
        Some(p) => p,
        None => (value, empty.as_slice()),
    };
    assert(empty@ =~= Seq::empty());
    if frac.len() > 3 {
        return None;
    }
    let mut fraction: u16 = 0;
    let mut i: usize = 0;
    while i < frac.len()
        invariant
            i <= frac@.len() <= 3,
            frac@ == decimal_parts(value@).1,
            fraction == text::number_value(frac@.take(i as int)),
            i == 0 ==> fraction == 0,
            i <= 1 ==> fraction <= 9,
            i <= 2 ==> fraction <= 99,
            fraction <= 999,
            forall|j: int| 0 <= j < i ==> text::is_digit(#[trigger] frac@[j]),
        decreases frac.len() - i,
    {
        let c = frac[i];
        if !text::digit(c) {
            assert(!all_digits(frac@));
            return None;
        }
        proof {
            assert(frac@.take(i + 1) =~= frac@.take(i as int).push(c));
            text::lemma_number_value_push(frac@.take(i as int), c);
        }
        fraction = fraction * 10 + (c as u8 - 48) as u16;
        i += 1;
    }
    assert(frac@.take(i as int) =~= frac@);
    let scaled: u16 = if frac.len() == 1 {
        fraction * 100
    } else if frac.len() == 2 {
        fraction * 10
    } else {
        fraction
    };
    assert(scaled == thousandths(frac@));
    if text::is_text(int_part, "0") {
        Some(scaled)
    } else if text::is_text(int_part, "1") && scaled == 0 {
        Some(1000)
    } else {
        None
    }
}

/// The weight that the parameters of one list member give; `None` when they are malformed.
fn parse_q(params: &[char]) -> (r: Option<u16>)
    ensures
        r == weight_of(text::split(params@, ';')),
{
    let pieces = text::split_chars(params, ';');
    let ghost all = text::split(params@, ';');
    let mut q: u16 = 1000;
    let mut i: usize = 0;
    while i < pieces.len()
        invariant
            i <= pieces@.len(),
            text::views(pieces@) == all,
            all == text::split(params@, ';'),
            weight_of(all.take(i as int)) == Some(q),
        decreases pieces.len() - i,
    {
        proof {
            assert(all.take(i + 1).drop_last() =~= all.take(i as int));
            assert(all.take(i + 1).last() == pieces@[i as int]@);
        }
        let param = text::trim_chars(pieces[i]);
        let next: Option<u16> = match text::split_chars_once(param, '=') {
            None => None,
            Some((name, value)) => if text::same_chars_ignoring_case(text::trim_chars(name), "q") {
                parse_q_value(text::trim_chars(value))
            } else {
                Some(q)
            },
        };
        assert(weight_of(all.take(i + 1)) == next);
        match next {
            Some(stated) => {
                q = stated;
            },
            None => {
                proof {
                    lemma_weight_of_malformed(all, i + 1);
                }
                return None;
            },
        }
        i += 1;
    }
    assert(all.take(i as int) =~= all);
    Some(q)
}

/// A parameter list that begins malformed is malformed.
proof fn lemma_weight_of_malformed(params: Seq<Seq<char>>, n: int)
    requires
        0 <= n <= params.len(),
        weight_of(params.take(n)) is None,
    ensures
        weight_of(params) is None,
    decreases params.len() - n,
{
    if n < params.len() {
        assert(params.take(n + 1).drop_last() =~= params.take(n));
        lemma_weight_of_malformed(params, n + 1);
    } else {
        assert(params.take(n) =~= params);
    }
}

/// Reads one list member: its token and weight.
fn parse_member<'a>(piece: &'a [char]) -> (r: Option<(&'a [char], u16)>)
    ensures
        match r {
            Some((token, q)) => member(piece@) == Some((token@, q)),
            None => member(piece@) is None,
        },
{
    let m = text::trim_chars(piece);
    if m.len() == 0 {
        return None;
    }
    match text::split_chars_once(m, ';') {
        None => Some((m, 1000)),
        Some((token, params)) => match parse_q(params) {
            Some(q) => Some((text::trim_chars(token), q)),
            None => None,
        },
    }
}

/// Which of the four names a token is, if any; `Identity` stands for the wildcard.
fn named_by(token: &[char]) -> (r: Option<Encoding>)
    ensures
        forall|which: Encoding| #[trigger] token_names(token@, which) <==> r == Some(which),
{
    proof {
        reveal_strlit("*");
        reveal_strlit("br");
        reveal_strlit("zstd");
        reveal_strlit("gzip");
        reveal_strlit("x-gzip");
        let lower = text::ascii_lower_all(token@);
        assert(lower.len() == token@.len());
        assert(text::ascii_lower_all("zstd"@)[0] == 'z');
        assert(text::ascii_lower_all("gzip"@)[0] == 'g');
    }
    if text::is_text(token, "*") {
        Some(Encoding::Identity)
    } else if text::same_chars_ignoring_case(token, "br") {
        Some(Encoding::Brotli)
    } else if text::same_chars_ignoring_case(token, "zstd") {
        Some(Encoding::Zstd)
    } else if text::same_chars_ignoring_case(token, "gzip") || text::same_chars_ignoring_case(
        token,
        "x-gzip",
    ) {
        Some(Encoding::Gzip)
    } else {
        None
    }
}

/// Adds an encoding of the given weight, behind all of at least that weight.
fn place(order: &mut Vec<Encoding>, weights: &mut Vec<u16>, e: Encoding, q: u16)
    requires
        old(order)@.len() == old(weights)@.len(),
        forall|i: int, j: int|
            0 <= i < j < old(weights)@.len() ==> old(weights)@[i] >= old(weights)@[j],
    ensures
        final(order)@.len() == final(weights)@.len(),
        exists|at: int|
            {
                &&& 0 <= at <= old(order)@.len()
                &&& #[trigger] old(order)@.insert(at, e) == final(order)@
                &&& old(weights)@.insert(at, q) == final(weights)@
                &&& forall|i: int| 0 <= i < at ==> old(weights)@[i] >= q
                &&& forall|i: int| at <= i < old(weights)@.len() ==> old(weights)@[i] < q
            },
{
    let mut at: usize = 0;
    while at < weights.len() && weights[at] >= q
        invariant
            at <= weights@.len(),
            forall|i: int| 0 <= i < at ==> weights@[i] >= q,
        decreases weights.len() - at,
    {
        at += 1;
    }
    assert(old(order)@.insert(at as int, e).len() == old(order)@.len() + 1);
    order.insert(at, e);
    weights.insert(at, q);
}

/// The try order as far as the encodings up to the given rank make it up.
spec fn is_try_order_up_to(order: Seq<Encoding>, header: Seq<char>, k: int) -> bool {
    &&& forall|i: int| 0 <= i < order.len() ==> rank(#[trigger] order[i]) <= k
    &&& forall|e: Encoding| #[trigger]
        order.contains(e) <==> is_accepted(header, e) && rank(e) <= k
    &&& forall|i: int, j: int|
        0 <= i < j < order.len() ==> goes_before(header, #[trigger] order[i], #[trigger] order[j])
}

/// The weights of the encodings of a try order.
spec fn are_weights(weights: Seq<u16>, order: Seq<Encoding>, header: Seq<char>) -> bool {
    &&& weights.len() == order.len()
    &&& forall|i: int| 0 <= i < order.len() ==> weights[i] == weight(header, #[trigger] order[i])
}

/// The next encoding takes its place behind all of at least its weight.
proof fn lemma_placed(before: Seq<Encoding>, header: Seq<char>, e: Encoding, at: int)
    requires
        is_try_order_up_to(before, header, rank(e) - 1),
        is_accepted(header, e),
        0 <= at <= before.len(),
        forall|i: int| 0 <= i < at ==> weight(header, #[trigger] before[i]) >= weight(header, e),
        forall|i: int|
            at <= i < before.len() ==> weight(header, #[trigger] before[i]) < weight(header, e),
    ensures
        is_try_order_up_to(before.insert(at, e), header, rank(e)),
{
    let order = before.insert(at, e);
    assert forall|i: int| 0 <= i < order.len() implies rank(#[trigger] order[i]) <= rank(e) by {
        if i < at {
            assert(order[i] == before[i]);
        } else if i > at {
            assert(order[i] == before[i - 1]);
        }
    }
    assert forall|i: int, j: int| 0 <= i < j < order.len() implies goes_before(
        header,
        #[trigger] order[i],
        #[trigger] order[j],
    ) by {
        let a = if i < at { i } else { i - 1 };
        let b = if j < at { j } else { j - 1 };
        if i != at {
            assert(order[i] == before[a]);
        }
        if j != at {
            assert(order[j] == before[b]);
        }
    }
    assert forall|x: Encoding| #[trigger] order.contains(x) <==> is_accepted(header, x) && rank(x)
        <= rank(e) by {
        if before.contains(x) {
            let i = choose|i: int| 0 <= i < before.len() && before[i] == x;
            assert(order[if i < at { i } else { i + 1 }] == x);
        }
        if x == e {
            assert(order[at] == e);
        }
        if order.contains(x) && x != e {
            let i = choose|i: int| 0 <= i < order.len() && order[i] == x;
            assert(before[if i < at { i } else { i - 1 }] == x);
        }
    }
}

/// An encoding that is not accepted takes no place.
proof fn lemma_not_placed(order: Seq<Encoding>, header: Seq<char>, e: Encoding)
    requires
        is_try_order_up_to(order, header, rank(e) - 1),
        !is_accepted(header, e),
    ensures
        is_try_order_up_to(order, header, rank(e)),
{
    assert forall|x: Encoding| #[trigger] order.contains(x) <==> is_accepted(header, x) && rank(x)
        <= rank(e) by {
        assert(rank(x) == rank(e) ==> x == e);
    }
}

/// Offers the next encoding for the try order.
fn offer(
    order: &mut Vec<Encoding>,
    weights: &mut Vec<u16>,
    e: Encoding,
    q: u16,
    Ghost(header): Ghost<Seq<char>>,
)
    requires
        is_try_order_up_to(old(order)@, header, rank(e) - 1),
        are_weights(old(weights)@, old(order)@, header),
        e != Encoding::Identity,
        q == weight(header, e),
    ensures
        is_try_order_up_to(final(order)@, header, rank(e)),
        are_weights(final(weights)@, final(order)@, header),
{
    let ghost before = order@;
    let ghost weights_before = weights@;
    if q > 0 {
        assert forall|i: int, j: int| 0 <= i < j < weights@.len() implies weights@[i]
            >= weights@[j] by {
            assert(goes_before(header, order@[i], order@[j]));
        }
        place(order, weights, e, q);
        proof {
            let at = choose|at: int|
                {
                    &&& 0 <= at <= before.len()
                    &&& #[trigger] before.insert(at, e) == order@
                    &&& weights_before.insert(at, q) == weights@
                    &&& forall|i: int| 0 <= i < at ==> weights_before[i] >= q
                    &&& forall|i: int| at <= i < weights_before.len() ==> weights_before[i] < q
                };
            lemma_placed(before, header, e, at);
            assert forall|i: int| 0 <= i < order@.len() implies weights@[i] == weight(
                header,
                #[trigger] order@[i],
            ) by {
                if i < at {
                    assert(order@[i] == before[i]);
                } else if i > at {
                    assert(order@[i] == before[i - 1]);
                }
            }
        }
    } else {
        proof {
            lemma_not_placed(order@, header, e);
        }
    }
}

fn first_stated(own: Option<u16>, wildcard: Option<u16>) -> (r: u16)
    ensures
        r == match (own, wildcard) {
            (Some(q), _) => q,
            (None, Some(q)) => q,
            (None, None) => 0,
        },
{
    match own {
        Some(q) => q,
        None => match wildcard {
            Some(q) => q,
            None => 0,
        },
    }
}

/// The sidecar encodings to try for an `Accept-Encoding` value: those that the client accepts
/// (weight above zero), heaviest first, and `br`, `zstd`, `gzip` within a tie. Empty means that
/// only the file itself is served; so does an absent header. Identity is always the fallback,
/// even for `identity;q=0`. A member that cannot be parsed is skipped.
pub fn negotiate(accept_encoding: Option<&str>) -> (r: Vec<Encoding>)
    ensures
        match accept_encoding {
            None => r@.len() == 0,
            Some(header) => is_try_order(r@, header@),
        },
        r@ == try_order(
            match accept_encoding {
                None => None,
                Some(header) => Some(header@),
            },
        ),
{
    let mut order: Vec<Encoding> = Vec::new();
    let header = match accept_encoding {
        None => {
            assert(order@ =~= Seq::empty());
            return order;
        },
        Some(header) => header,
    };
    let chars = text::chars_of(header);
    let pieces = text::split_chars(chars.as_slice(), ',');
    let ghost all = text::split(header@, ',');
    let mut wildcard: Option<u16> = None;
    let mut brotli: Option<u16> = None;
    let mut zstd: Option<u16> = None;
    let mut gzip: Option<u16> = None;
    let mut i: usize = 0;
    while i < pieces.len()
        invariant
            i <= pieces@.len(),
            text::views(pieces@) == all,
            wildcard == stated_weight(all.take(i as int), Encoding::Identity),
            brotli == stated_weight(all.take(i as int), Encoding::Brotli),
            zstd == stated_weight(all.take(i as int), Encoding::Zstd),
            gzip == stated_weight(all.take(i as int), Encoding::Gzip),
        decreases pieces.len() - i,
    {
        let piece = pieces[i];
        proof {
            assert(all.take(i + 1).drop_last() =~= all.take(i as int));
            assert(all.take(i + 1).last() == piece@);
        }
        if let Some((token, q)) = parse_member(piece) {
            let named = named_by(token);
            assert forall|which: Encoding| #[trigger] stated_weight(all.take(i + 1), which)
                == if named == Some(which) {
                Some(q)
            } else {
                stated_weight(all.take(i as int), which)
            } by {
                assert(token_names(token@, which) <==> named == Some(which));
            }
            match named {
                Some(Encoding::Identity) => {
                    wildcard = Some(q);
                },
                Some(Encoding::Brotli) => {
                    brotli = Some(q);
                },
                Some(Encoding::Zstd) => {
                    zstd = Some(q);
                },
                Some(Encoding::Gzip) => {
                    gzip = Some(q);
                },
                None => {},
            }
        }
        i += 1;
    }
    proof {
        assert(all.take(i as int) =~= all);
        assert forall|e: Encoding| #[trigger] order@.contains(e) <==> is_accepted(header@, e)
            && rank(e) <= 0 by {}
    }
    let mut weights: Vec<u16> = Vec::new();
    offer(
        &mut order,
        &mut weights,
        Encoding::Brotli,
        first_stated(brotli, wildcard),
        Ghost(header@),
    );
    offer(&mut order, &mut weights, Encoding::Zstd, first_stated(zstd, wildcard), Ghost(header@));
    offer(&mut order, &mut weights, Encoding::Gzip, first_stated(gzip, wildcard), Ghost(header@));
    proof {
        assert forall|e: Encoding| #[trigger] order@.contains(e) <==> is_accepted(header@, e) by {
            assert(rank(e) <= 3);
        }
        assert(is_try_order(order@, header@));
        law_try_order_is_unique(order@, try_order(Some(header@)), header@);
    }
    order
}

// ---- members that count for nothing ----

/// A list member that is empty or malformed, or whose token is neither a sidecar encoding nor
/// the wildcard.
pub open spec fn counts_for_nothing(piece: Seq<char>) -> bool {
    member(piece) matches Some((token, q)) ==> forall|which: Encoding|
        !#[trigger] token_names(token, which)
}

/// The member that is left out changes no weight.
proof fn lemma_weight_without(
    before: Seq<Seq<char>>,
    piece: Seq<char>,
    after: Seq<Seq<char>>,
    which: Encoding,
)
    requires
        counts_for_nothing(piece),
    ensures
        stated_weight(before + seq![piece] + after, which) == stated_weight(before + after, which),
    decreases after.len(),
{
    let with = before + seq![piece] + after;
    let without = before + after;
    if after.len() == 0 {
        assert(with.last() == piece);
        assert(with.drop_last() =~= before);
        assert(without =~= before);
    } else {
        assert(with.last() == after.last());
        assert(without.last() == after.last());
        assert(with.drop_last() =~= before + seq![piece] + after.drop_last());
        assert(without.drop_last() =~= before + after.drop_last());
        lemma_weight_without(before, piece, after.drop_last(), which);
    }
}

/// Where an encoding of the given weight takes its place.
proof fn lemma_place(order: Seq<Encoding>, header: Seq<char>, q: u16, n: int) -> (at: int)
    requires
        0 <= n <= order.len(),
        forall|i: int, j: int|
            0 <= i < j < order.len() ==> goes_before(
                header,
                #[trigger] order[i],
                #[trigger] order[j],
            ),
        forall|i: int| 0 <= i < n ==> weight(header, #[trigger] order[i]) >= q,
    ensures
        0 <= at <= order.len(),
        forall|i: int| 0 <= i < at ==> weight(header, #[trigger] order[i]) >= q,
        forall|i: int| at <= i < order.len() ==> weight(header, #[trigger] order[i]) < q,
    decreases order.len() - n,
{
    if n < order.len() && weight(header, order[n]) >= q {
        lemma_place(order, header, q, n + 1)
    } else {
        assert forall|i: int| n <= i < order.len() implies weight(header, #[trigger] order[i])
            < q by {
            assert(i > n ==> goes_before(header, order[n], order[i]));
        }
        n
    }
}

proof fn lemma_offered(order: Seq<Encoding>, header: Seq<char>, e: Encoding) -> (r: Seq<Encoding>)
    requires
        is_try_order_up_to(order, header, rank(e) - 1),
        e != Encoding::Identity,
    ensures
        is_try_order_up_to(r, header, rank(e)),
{
    if is_accepted(header, e) {
        let at = lemma_place(order, header, weight(header, e), 0);
        lemma_placed(order, header, e, at);
        order.insert(at, e)
    } else {
        lemma_not_placed(order, header, e);
        order
    }
}

/// Every `Accept-Encoding` value has a try order.
pub proof fn law_try_order_exists(header: Seq<char>)
    ensures
        is_try_order(try_order(Some(header)), header),
{
    let none = Seq::<Encoding>::empty();
    assert forall|e: Encoding| #[trigger] none.contains(e) <==> is_accepted(header, e) && rank(e)
        <= 0 by {}
    let one = lemma_offered(none, header, Encoding::Brotli);
    let two = lemma_offered(one, header, Encoding::Zstd);
    let three = lemma_offered(two, header, Encoding::Gzip);
    assert forall|e: Encoding| #[trigger] three.contains(e) <==> is_accepted(header, e) by {
        assert(rank(e) <= 3);
    }
    assert(is_try_order(three, header));
}

/// Equal weights give equal try orders.
proof fn lemma_same_try_order(a: Seq<char>, b: Seq<char>)
    requires
        forall|e: Encoding| #[trigger] weight(a, e) == weight(b, e),
    ensures
        try_order(Some(a)) == try_order(Some(b)),
{
    law_try_order_exists(a);
    law_try_order_exists(b);
    let order = try_order(Some(b));
    assert forall|e: Encoding| #[trigger] order.contains(e) <==> is_accepted(a, e) by {
        assert(weight(a, e) == weight(b, e));
    }
    assert forall|i: int, j: int| 0 <= i < j < order.len() implies goes_before(
        a,
        #[trigger] order[i],
        #[trigger] order[j],
    ) by {
        assert(goes_before(b, order[i], order[j]));
        assert(weight(a, order[i]) == weight(b, order[i]));
        assert(weight(a, order[j]) == weight(b, order[j]));
    }
    law_try_order_is_unique(try_order(Some(a)), order, a);
}

/// A member for `identity` counts for nothing, whatever its weight: the file itself always
/// remains the fallback.
pub proof fn law_identity_counts_for_nothing(piece: Seq<char>)
    requires
        member(piece) matches Some((token, q)) ==> text::same_ignoring_case(token, "identity"@),
    ensures
        counts_for_nothing(piece),
{
    reveal_strlit("identity");
    reveal_strlit("*");
    reveal_strlit("br");
    reveal_strlit("zstd");
    reveal_strlit("gzip");
    reveal_strlit("x-gzip");
    if let Some((token, q)) = member(piece) {
        assert(text::ascii_lower_all(token).len() == "identity"@.len());
        assert forall|which: Encoding| !#[trigger] token_names(token, which) by {}
    }
}

/// A member that is malformed, or that names neither a sidecar encoding nor the wildcard,
/// changes nothing, wherever in the list it stands.
pub proof fn law_idle_members_change_nothing(
    before: Seq<char>,
    piece: Seq<char>,
    after: Seq<char>,
)
    requires
        !piece.contains(','),
        counts_for_nothing(piece),
    ensures
        try_order(Some(piece + seq![','] + after)) == try_order(Some(after)),
        try_order(Some(before + seq![','] + piece)) == try_order(Some(before)),
        try_order(Some(before + seq![','] + piece + seq![','] + after)) == try_order(
            Some(before + seq![','] + after),
        ),
        try_order(Some(piece)).len() == 0,
{
    let none = Seq::<Seq<char>>::empty();
    let first = text::split(before, ',');
    let last = text::split(after, ',');
    text::lemma_find_is(piece, ',', piece.len() as int);
    assert(text::split(piece, ',') == seq![piece]);
    text::lemma_split_concat(piece, after, ',');
    text::lemma_split_concat(before, piece, ',');
    text::lemma_split_concat(before, after, ',');
    text::lemma_split_concat(before + seq![','] + piece, after, ',');
    assert(none + seq![piece] + last =~= seq![piece] + last);
    assert(none + last =~= last);
    assert(first + seq![piece] + none =~= first + seq![piece]);
    assert(first + none =~= first);
    assert forall|which: Encoding| #[trigger]
        stated_weight(seq![piece] + last, which) == stated_weight(last, which) by {
        lemma_weight_without(none, piece, last, which);
    }
    assert forall|which: Encoding| #[trigger]
        stated_weight(first + seq![piece], which) == stated_weight(first, which) by {
        lemma_weight_without(first, piece, none, which);
    }
    assert forall|which: Encoding| #[trigger]
        stated_weight(first + seq![piece] + last, which) == stated_weight(first + last, which) by {
        lemma_weight_without(first, piece, last, which);
    }
    lemma_same_weights(piece + seq![','] + after, after);
    lemma_same_weights(before + seq![','] + piece, before);
    lemma_same_weights(
        before + seq![','] + piece + seq![','] + after,
        before + seq![','] + after,
    );
    law_try_order_exists(piece);
    let alone = try_order(Some(piece));
    if alone.len() > 0 {
        assert(alone.contains(alone[0]));
        assert(seq![piece].drop_last() =~= none);
        reveal_with_fuel(stated_weight, 2);
        assert(weight(piece, alone[0]) == 0);
    }
}

proof fn lemma_same_weights(a: Seq<char>, b: Seq<char>)
    requires
        forall|which: Encoding| #[trigger]
            stated_weight(text::split(a, ','), which) == stated_weight(text::split(b, ','), which),
    ensures
        try_order(Some(a)) == try_order(Some(b)),
{
    assert forall|e: Encoding| #[trigger] weight(a, e) == weight(b, e) by {
        assert(stated_weight(text::split(a, ','), e) == stated_weight(text::split(b, ','), e));
        assert(stated_weight(text::split(a, ','), Encoding::Identity) == stated_weight(
            text::split(b, ','),
            Encoding::Identity,
        ));
    }
    lemma_same_try_order(a, b);
}

} // verus!
