//! `Accept-Encoding`: which sidecars are tried, and in what order.

use crate::laws::texts;
use crate::sidecar;
use crate::sidecar::Encoding;
use crate::text;
use vstd::prelude::*;
use vstd::string::*;

verus! {

/// Whether a character is the given lower-case letter, in either case.
pub open spec fn is_letter(c: char, lower: char, upper: char) -> bool {
    c == lower || c == upper
}

/// Whether a token names an encoding, in whatever case: `br`, `zstd`, `gzip` or `x-gzip`.
/// `Identity` stands for the wildcard.
pub open spec fn is_named(token: Seq<char>, e: Encoding) -> bool {
    match e {
        Encoding::Identity => token == seq!['*'],
        Encoding::Brotli => token.len() == 2 && is_letter(token[0], 'b', 'B') && is_letter(
            token[1],
            'r',
            'R',
        ),
        Encoding::Zstd => token.len() == 4 && is_letter(token[0], 'z', 'Z') && is_letter(
            token[1],
            's',
            'S',
        ) && is_letter(token[2], 't', 'T') && is_letter(token[3], 'd', 'D'),
        Encoding::Gzip => {
            ||| is_gzip(token)
            ||| token.len() == 6 && is_letter(token[0], 'x', 'X') && token[1] == '-' && is_gzip(
                token.skip(2),
            )
        },
    }
}

pub open spec fn is_gzip(token: Seq<char>) -> bool {
    token.len() == 4 && is_letter(token[0], 'g', 'G') && is_letter(token[1], 'z', 'Z')
        && is_letter(token[2], 'i', 'I') && is_letter(token[3], 'p', 'P')
}

/// Which tokens name an encoding.
pub proof fn law_tokens_name_encodings(token: Seq<char>, e: Encoding)
    ensures
        sidecar::token_names(token, e) <==> is_named(token, e),
{
    reveal_strlit("*");
    reveal_strlit("br");
    reveal_strlit("zstd");
    reveal_strlit("gzip");
    reveal_strlit("x-gzip");
    assert("*"@ =~= seq!['*']);
    texts::law_case_is_that_of_ascii_letters(token, "br"@);
    texts::law_case_is_that_of_ascii_letters(token, "zstd"@);
    texts::law_case_is_that_of_ascii_letters(token, "gzip"@);
    texts::law_case_is_that_of_ascii_letters(token, "x-gzip"@);
    lemma_letters(token);
}

/// Characters that equal a letter up to case.
proof fn lemma_letters(token: Seq<char>)
    ensures
        text::same_ignoring_case(token, "br"@) <==> is_named(token, Encoding::Brotli),
        text::same_ignoring_case(token, "zstd"@) <==> is_named(token, Encoding::Zstd),
        text::same_ignoring_case(token, "gzip"@) <==> is_gzip(token),
        text::same_ignoring_case(token, "x-gzip"@) <==> token.len() == 6 && is_letter(
            token[0],
            'x',
            'X',
        ) && token[1] == '-' && is_gzip(token.skip(2)),
{
    reveal_strlit("br");
    reveal_strlit("zstd");
    reveal_strlit("gzip");
    reveal_strlit("x-gzip");
    reveal_strlit("BR");
    reveal_strlit("ZSTD");
    reveal_strlit("GZIP");
    reveal_strlit("X-GZIP");
    lemma_same_letters(token, "br"@, "BR"@);
    lemma_same_letters(token, "zstd"@, "ZSTD"@);
    lemma_same_letters(token, "gzip"@, "GZIP"@);
    lemma_same_letters(token, "x-gzip"@, "X-GZIP"@);
    if token.len() == 6 {
        assert(token.skip(2)[0] == token[2]);
        assert(token.skip(2)[1] == token[3]);
        assert(token.skip(2)[2] == token[4]);
        assert(token.skip(2)[3] == token[5]);
    }
    if token.len() == 2 && is_named(token, Encoding::Brotli) {
        assert forall|i: int| 0 <= i < 2 implies token[i] == "br"@[i] || token[i] == "BR"@[i] by {
            assert(i == 0 || i == 1);
        }
    }
    if token.len() == 4 && is_named(token, Encoding::Zstd) {
        assert forall|i: int| 0 <= i < 4 implies token[i] == "zstd"@[i] || token[i]
            == "ZSTD"@[i] by {
            assert(i == 0 || i == 1 || i == 2 || i == 3);
        }
    }
    if token.len() == 4 && is_gzip(token) {
        assert forall|i: int| 0 <= i < 4 implies token[i] == "gzip"@[i] || token[i]
            == "GZIP"@[i] by {
            assert(i == 0 || i == 1 || i == 2 || i == 3);
        }
    }
    if token.len() == 6 && is_letter(token[0], 'x', 'X') && token[1] == '-' && is_gzip(
        token.skip(2),
    ) {
        assert forall|i: int| 0 <= i < 6 implies token[i] == "x-gzip"@[i] || token[i]
            == "X-GZIP"@[i] by {
            assert(i == 0 || i == 1 || i == 2 || i == 3 || i == 4 || i == 5);
        }
    }
}

/// A text equals one in lower case up to case when each character is that one or its upper case.
proof fn lemma_same_letters(token: Seq<char>, lower: Seq<char>, upper: Seq<char>)
    requires
        lower.len() == upper.len(),
        forall|i: int|
            0 <= i < lower.len() ==> {
                ||| #[trigger] lower[i] == '-' && upper[i] == '-'
                ||| 'a' <= lower[i] <= 'z' && 'A' <= upper[i] <= 'Z' && lower[i] as u32
                    == upper[i] as u32 + 32
            },
    ensures
        text::same_ignoring_case(token, lower) <==> token.len() == lower.len() && forall|i: int|
            0 <= i < token.len() ==> #[trigger] token[i] == lower[i] || token[i] == upper[i],
{
    texts::law_case_is_that_of_ascii_letters(token, lower);
    if token.len() == lower.len() {
        assert forall|i: int| 0 <= i < token.len() implies ({
            ||| #[trigger] token[i] == lower[i]
            ||| 'A' <= token[i] <= 'Z' && lower[i] as u32 == token[i] as u32 + 32
            ||| 'A' <= lower[i] <= 'Z' && token[i] as u32 == lower[i] as u32 + 32
        } <==> token[i] == lower[i] || token[i] == upper[i]) by {
            assert(lower[i] == '-' && upper[i] == '-' || 'a' <= lower[i] <= 'z' && 'A' <= upper[i]
                <= 'Z' && lower[i] as u32 == upper[i] as u32 + 32);
            lemma_upper(token[i], lower[i], upper[i]);
        }
    }
}

proof fn lemma_upper(c: char, lower: char, upper: char)
    requires
        lower == '-' && upper == '-' || 'a' <= lower <= 'z' && 'A' <= upper <= 'Z' && lower as u32
            == upper as u32 + 32,
    ensures
        ({
            ||| c == lower
            ||| 'A' <= c <= 'Z' && lower as u32 == c as u32 + 32
            ||| 'A' <= lower <= 'Z' && c as u32 == lower as u32 + 32
        }) <==> c == lower || c == upper,
{
}

// ---- weights ----

/// Whether a text is a quality value of the given thousandths: 0 or 1, with up to three decimals
/// behind a dot, and no more than one.
pub open spec fn is_quality(value: Seq<char>, whole: char, frac: Seq<char>, q: int) -> bool {
    &&& whole == '0' || whole == '1'
    &&& value == seq![whole] && frac.len() == 0 || value == seq![whole, '.'] + frac
    &&& frac.len() <= 3
    &&& forall|i: int| 0 <= i < frac.len() ==> '0' <= #[trigger] frac[i] <= '9'
    &&& q == (if whole == '1' {
        1000int
    } else {
        0
    }) + text::number_value(frac + Seq::new((3 - frac.len()) as nat, |i: int| '0'))
    &&& q <= 1000
}

/// Decimals count as if zeros were written behind them.
proof fn lemma_decimals(frac: Seq<char>)
    requires
        frac.len() <= 3,
        forall|i: int| 0 <= i < frac.len() ==> '0' <= #[trigger] frac[i] <= '9',
    ensures
        sidecar::thousandths(frac) == text::number_value(
            frac + Seq::new((3 - frac.len()) as nat, |i: int| '0'),
        ),
        sidecar::thousandths(frac) <= 999,
        sidecar::all_digits(frac),
{
    let zeros = Seq::new((3 - frac.len()) as nat, |i: int| '0');
    let padded = frac + zeros;
    assert forall|i: int| 0 <= i < frac.len() implies text::is_digit(#[trigger] frac[i]) by {}
    let none = Seq::<char>::empty();
    let a = padded[0];
    let b = padded[1];
    let c = padded[2];
    assert(padded =~= none.push(a).push(b).push(c));
    texts::law_numbers_are_decimal(none, a);
    texts::law_numbers_are_decimal(none.push(a), b);
    texts::law_numbers_are_decimal(none.push(a).push(b), c);
    if frac.len() == 0 {
        assert(frac =~= none);
    } else if frac.len() == 1 {
        assert(frac =~= none.push(a));
    } else if frac.len() == 2 {
        assert(frac =~= none.push(a).push(b));
    } else {
        assert(frac =~= padded);
    }
}

/// What a quality value comes to, in thousandths.
pub proof fn law_quality_is_in_thousandths(
    value: Seq<char>,
    whole: char,
    frac: Seq<char>,
    q: int,
)
    requires
        is_quality(value, whole, frac, q),
    ensures
        sidecar::q_value(value) == Some(q as u16),
        0 <= q <= 1000,
{
    reveal_strlit("0");
    reveal_strlit("1");
    assert("0"@ =~= seq!['0']);
    assert("1"@ =~= seq!['1']);
    lemma_decimals(frac);
    let head = seq![whole];
    assert(!head.contains('.'));
    texts::law_split_once_is_at_the_first(head, frac, '.');
    if value == head && frac.len() == 0 {
        assert(frac =~= Seq::empty());
    } else {
        assert(value =~= head + seq!['.'] + frac);
    }
}

/// Nothing else is a quality value.
pub proof fn law_other_texts_are_no_quality(value: Seq<char>)
    requires
        forall|whole: char, frac: Seq<char>, q: int| !#[trigger] is_quality(value, whole, frac, q),
    ensures
        sidecar::q_value(value) is None,
{
    reveal_strlit("0");
    reveal_strlit("1");
    if sidecar::q_value(value) is Some {
        let (head, frac) = sidecar::decimal_parts(value);
        let whole = if head == "0"@ { '0' } else { '1' };
        assert forall|i: int| 0 <= i < frac.len() implies '0' <= #[trigger] frac[i] <= '9' by {
            assert(text::is_digit(frac[i]));
        }
        lemma_decimals(frac);
        assert(head =~= seq![whole]);
        texts::law_find_is_first(value, '.');
        if text::find(value, '.') < value.len() {
            let at = text::find(value, '.');
            assert(head == value.take(at) && frac == value.skip(at + 1));
            assert(head[0] == value[0]);
            assert(value =~= head + seq!['.'] + frac);
            assert(value =~= seq![whole, '.'] + frac);
        }
        let q = (if whole == '1' { 1000int } else { 0 }) + sidecar::thousandths(frac);
        assert(is_quality(value, whole, frac, q));
    }
}

/// Whether a parameter is a weight: `q`, in either case, and a value behind `=`.
pub open spec fn is_weight_param(param: Seq<char>, name: Seq<char>, value: Seq<char>) -> bool {
    &&& text::trim(param) == name + seq!['='] + value
    &&& !name.contains('=')
    &&& text::trim(name) == seq!['q'] || text::trim(name) == seq!['Q']
}

/// Whether a parameter is of another name.
pub open spec fn is_other_param(param: Seq<char>, name: Seq<char>, value: Seq<char>) -> bool {
    &&& text::trim(param) == name + seq!['='] + value
    &&& !name.contains('=')
    &&& text::trim(name) != seq!['q'] && text::trim(name) != seq!['Q']
}

/// Parameters give the weight of the last `q` among them, and one where there is none; one
/// without `=`, or a `q` without a quality value, spoils them all.
pub proof fn law_params_give_the_last_weight(
    params: Seq<Seq<char>>,
    param: Seq<char>,
    name: Seq<char>,
    value: Seq<char>,
)
    ensures
        sidecar::weight_of(Seq::<Seq<char>>::empty()) == Some(1000u16),
        sidecar::weight_of(params) is None ==> sidecar::weight_of(params.push(param)) is None,
        sidecar::weight_of(params) is Some && is_weight_param(param, name, value)
            ==> sidecar::weight_of(params.push(param)) == sidecar::q_value(text::trim(value)),
        is_other_param(param, name, value) ==> sidecar::weight_of(params.push(param))
            == sidecar::weight_of(params),
        !text::trim(param).contains('=') ==> sidecar::weight_of(params.push(param)) is None,
{
    reveal_strlit("q");
    let all = params.push(param);
    assert(all.drop_last() =~= params);
    assert(all.last() == param);
    if !name.contains('=') {
        texts::law_split_once_is_at_the_first(name, value, '=');
    }
    texts::law_find_is_first(text::trim(param), '=');
    let key = text::trim(name);
    texts::law_case_is_that_of_ascii_letters(key, "q"@);
    assert(text::same_ignoring_case(key, "q"@) <==> key == seq!['q'] || key == seq!['Q']) by {
        if key.len() == 1 {
            assert(key =~= seq![key[0]]);
            lemma_upper(key[0], 'q', 'Q');
            if key[0] == 'q' || key[0] == 'Q' {
                assert(text::same_ignoring_case(key, "q"@));
            }
        }
    }
}

/// A list member without parameters has the weight one, and one that is empty counts for
/// nothing. With parameters behind `;` it has the weight that they give, and counts for nothing
/// when they are malformed.
pub proof fn law_members_have_tokens_and_weights(a: Seq<char>, b: Seq<char>)
    requires
        !a.contains(';'),
    ensures
        text::trim(a).len() > 0 ==> sidecar::member(a) == Some((text::trim(a), 1000u16)),
        text::trim(a).len() == 0 ==> sidecar::member(a) is None,
        sidecar::member(a + seq![';'] + b) == match sidecar::weight_of(text::split(b, ';')) {
            Some(q) => Some((text::trim(a), q)),
            None => None,
        },
{
    let (i, j) = texts::lemma_trim_bounds(a);
    assert(!text::trim(a).contains(';')) by {
        if text::trim(a).contains(';') {
            let k = choose|k: int| 0 <= k < text::trim(a).len() && text::trim(a)[k] == ';';
            assert(a[i + k] == ';');
        }
    }
    texts::law_split_once_is_at_the_first(text::trim(a), b, ';');
    let m = a + seq![';'] + b;
    texts::lemma_trim_around(a, ';', b);
    let head = text::trim_start(a);
    assert(!head.contains(';')) by {
        lemma_trim_start_within(a, ';');
    }
    texts::law_split_once_is_at_the_first(head, text::trim_end(b), ';');
    lemma_weight_of_trimmed(b);
}

proof fn lemma_trim_start_within(s: Seq<char>, c: char)
    requires
        !s.contains(c),
    ensures
        !text::trim_start(s).contains(c),
    decreases s.len(),
{
    if s.len() > 0 && text::is_white_space(s[0]) {
        assert(!s.skip(1).contains(c)) by {
            if s.skip(1).contains(c) {
                let k = choose|k: int| 0 <= k < s.skip(1).len() && s.skip(1)[k] == c;
                assert(s[k + 1] == c);
            }
        }
        lemma_trim_start_within(s.skip(1), c);
    }
}

/// White space behind the parameters does not change the weight.
proof fn lemma_weight_of_trimmed(b: Seq<char>)
    ensures
        sidecar::weight_of(text::split(text::trim_end(b), ';')) == sidecar::weight_of(
            text::split(b, ';'),
        ),
    decreases b.len(),
{
    if b.len() > 0 && text::is_white_space(b.last()) {
        let rest = b.drop_last();
        let tail = seq![b.last()];
        assert(b =~= rest + tail);
        assert(!tail.contains(';'));
        text::lemma_split_append(rest, tail, ';');
        text::lemma_split(rest, ';');
        let x = text::split(rest, ';');
        let y = text::split(b, ';');
        assert(y.drop_last() =~= x.drop_last());
        let none = Seq::<char>::empty();
        texts::law_trim_ignores_white_space(none, x.last(), tail);
        assert(none + x.last() + tail =~= x.last() + tail);
        assert(sidecar::weight_of(x) == sidecar::weight_of(y));
        lemma_weight_of_trimmed(rest);
    }
}

// ---- order ----

/// Whether the list member at a position names an encoding, or the wildcard, with a weight.
pub open spec fn states_at(header: Seq<char>, i: int, e: Encoding, q: u16) -> bool {
    &&& 0 <= i < text::split(header, ',').len()
    &&& sidecar::member(text::split(header, ',')[i]) matches Some((token, weight))
    &&& is_named(token, e)
    &&& weight == q
}

/// Whether no list member from a position on names an encoding, or the wildcard.
pub open spec fn is_silent_from(header: Seq<char>, from: int, e: Encoding) -> bool {
    forall|i: int|
        from <= i < text::split(header, ',').len() ==> {
            sidecar::member(#[trigger] text::split(header, ',')[i]) matches Some((token, weight))
                ==> !is_named(token, e)
        }
}

/// Whether a header gives an encoding a weight: that of its last member, else that of the last
/// wildcard, else zero.
pub open spec fn gives(header: Seq<char>, e: Encoding, q: u16) -> bool {
    ||| exists|i: int| #[trigger] states_at(header, i, e, q) && is_silent_from(header, i + 1, e)
    ||| is_silent_from(header, 0, e) && exists|i: int| #[trigger]
        states_at(header, i, Encoding::Identity, q) && is_silent_from(
            header,
            i + 1,
            Encoding::Identity,
        )
    ||| is_silent_from(header, 0, e) && is_silent_from(header, 0, Encoding::Identity) && q == 0
}

/// Whether an encoding is tried before another of the same weight.
pub open spec fn wins_ties(a: Encoding, b: Encoding) -> bool {
    ||| a == Encoding::Brotli && (b == Encoding::Zstd || b == Encoding::Gzip)
    ||| a == Encoding::Zstd && b == Encoding::Gzip
}

/// The weight that is stated last.
proof fn lemma_stated(pieces: Seq<Seq<char>>, e: Encoding)
    ensures
        match sidecar::stated_weight(pieces, e) {
            Some(q) => exists|i: int|
                {
                    &&& 0 <= i < pieces.len()
                    &&& sidecar::member(#[trigger] pieces[i]) matches Some((token, weight))
                    &&& is_named(token, e)
                    &&& weight == q
                    &&& forall|j: int|
                        i < j < pieces.len() ==> {
                            sidecar::member(#[trigger] pieces[j]) matches Some((token, weight))
                                ==> !is_named(token, e)
                        }
                },
            None => forall|j: int|
                0 <= j < pieces.len() ==> {
                    sidecar::member(#[trigger] pieces[j]) matches Some((token, weight))
                        ==> !is_named(token, e)
                },
        },
    decreases pieces.len(),
{
    if pieces.len() > 0 {
        let last = pieces.len() - 1;
        let before = pieces.drop_last();
        if let Some((token, weight)) = sidecar::member(pieces[last]) {
            law_tokens_name_encodings(token, e);
        }
        lemma_stated(before, e);
        let named = sidecar::member(pieces[last]) matches Some((token, weight)) && is_named(
            token,
            e,
        );
        if !named {
            assert forall|j: int| 0 <= j < before.len() implies before[j] == #[trigger] pieces[j] by {}
            if let Some(q) = sidecar::stated_weight(before, e) {
                let i = choose|i: int|
                    {
                        &&& 0 <= i < before.len()
                        &&& sidecar::member(#[trigger] before[i]) matches Some((token, weight))
                        &&& is_named(token, e)
                        &&& weight == q
                        &&& forall|j: int|
                            i < j < before.len() ==> {
                                sidecar::member(#[trigger] before[j]) matches Some((token, weight))
                                    ==> !is_named(token, e)
                            }
                    };
                assert(sidecar::member(pieces[i]) == sidecar::member(before[i]));
                assert forall|j: int| i < j < pieces.len() implies {
                    sidecar::member(#[trigger] pieces[j]) matches Some((token, weight))
                        ==> !is_named(token, e)
                } by {
                    if j < before.len() {
                        assert(before[j] == pieces[j]);
                    }
                }
            } else {
                assert forall|j: int| 0 <= j < pieces.len() implies {
                    sidecar::member(#[trigger] pieces[j]) matches Some((token, weight))
                        ==> !is_named(token, e)
                } by {
                    if j < before.len() {
                        assert(before[j] == pieces[j]);
                    }
                }
            }
        }
    }
}

/// The last statement of a weight is the only one that counts.
proof fn lemma_stated_weight(header: Seq<char>, e: Encoding, q: u16)
    ensures
        sidecar::stated_weight(text::split(header, ','), e) == Some(q) <==> exists|i: int|
            #[trigger] states_at(header, i, e, q) && is_silent_from(header, i + 1, e),
        sidecar::stated_weight(text::split(header, ','), e) is None <==> is_silent_from(
            header,
            0,
            e,
        ),
{
    let pieces = text::split(header, ',');
    lemma_stated(pieces, e);
    if let Some(w) = sidecar::stated_weight(pieces, e) {
        let k = choose|i: int|
            {
                &&& 0 <= i < pieces.len()
                &&& sidecar::member(#[trigger] pieces[i]) matches Some((token, weight))
                &&& is_named(token, e)
                &&& weight == w
                &&& forall|j: int|
                    i < j < pieces.len() ==> {
                        sidecar::member(#[trigger] pieces[j]) matches Some((token, weight))
                            ==> !is_named(token, e)
                    }
            };
        assert(states_at(header, k, e, w));
        assert(is_silent_from(header, k + 1, e));
        assert(!is_silent_from(header, 0, e)) by {
            if is_silent_from(header, 0, e) {
                assert(sidecar::member(text::split(header, ',')[k]) is Some);
            }
        }
        if exists|i: int| #[trigger] states_at(header, i, e, q) && is_silent_from(header, i + 1, e) {
            let i = choose|i: int| #[trigger]
                states_at(header, i, e, q) && is_silent_from(header, i + 1, e);
            if i < k {
                assert(sidecar::member(text::split(header, ',')[k]) is Some);
            } else if k < i {
                assert(sidecar::member(text::split(header, ',')[i]) is Some);
            }
        }
    } else {
        assert forall|i: int| !(#[trigger] states_at(header, i, e, q)) by {
            if states_at(header, i, e, q) {
                assert(sidecar::member(pieces[i]) is Some);
            }
        }
    }
}

/// The weight that a header gives is the one that counts.
proof fn lemma_gives(header: Seq<char>, e: Encoding, q: u16)
    requires
        e != Encoding::Identity,
    ensures
        gives(header, e, q) <==> sidecar::weight(header, e) == q,
{
    lemma_stated_weight(header, e, q);
    lemma_stated_weight(header, Encoding::Identity, q);
}

/// The encodings that a header accepts are those to which it gives a weight above zero. The
/// heavier of two is tried first, and of two with the same weight `br` before `zstd` before
/// `gzip`. Each is tried once, and the file itself is no sidecar.
pub proof fn law_heavier_encodings_go_first(
    header: Seq<char>,
    a: Encoding,
    b: Encoding,
    p: u16,
    q: u16,
)
    requires
        a != Encoding::Identity,
        b != Encoding::Identity,
        gives(header, a, p),
        gives(header, b, q),
    ensures
        ({
            let order = sidecar::try_order(Some(header));
            &&& order.contains(a) <==> p > 0
            &&& forall|i: int, j: int|
                0 <= i < order.len() && 0 <= j < order.len() && #[trigger] order[i] == a
                    && #[trigger] order[j] == b ==> (i < j <==> p > q || p == q && wins_ties(
                    a,
                    b,
                ))
            &&& order.no_duplicates()
            &&& !order.contains(Encoding::Identity)
        }),
{
    let order = sidecar::try_order(Some(header));
    sidecar::law_try_order_exists(header);
    lemma_gives(header, a, p);
    lemma_gives(header, b, q);
    assert forall|i: int, j: int|
        0 <= i < order.len() && 0 <= j < order.len() && #[trigger] order[i] == a
            && #[trigger] order[j] == b implies (i < j <==> p > q || p == q && wins_ties(a, b)) by {
        if i < j {
            assert(sidecar::goes_before(header, order[i], order[j]));
        } else if j < i {
            assert(sidecar::goes_before(header, order[j], order[i]));
        }
    }
    assert forall|i: int, j: int| 0 <= i < order.len() && 0 <= j < order.len() && i != j implies
        order[i] != order[j] by {
        if i < j {
            assert(sidecar::goes_before(header, order[i], order[j]));
        } else {
            assert(sidecar::goes_before(header, order[j], order[i]));
        }
    }
}

/// Every header gives every encoding a weight, and only one; without a header nothing is tried.
pub proof fn law_weights_are_given_once(header: Seq<char>, e: Encoding, p: u16, q: u16)
    requires
        e != Encoding::Identity,
    ensures
        exists|w: u16| gives(header, e, w),
        gives(header, e, p) && gives(header, e, q) ==> p == q,
        sidecar::try_order(None).len() == 0,
{
    lemma_gives(header, e, sidecar::weight(header, e));
    lemma_gives(header, e, p);
    lemma_gives(header, e, q);
}

/// A wildcard, whatever its weight and wherever it stands, has no say over encodings that are
/// named: they are tried as without it, and in the same order. A named encoding that is heavier
/// than the wildcard goes before every encoding that is not named.
pub proof fn law_wildcard_yields_to_names(
    before: Seq<char>,
    wild: Seq<char>,
    after: Seq<char>,
    a: Encoding,
    b: Encoding,
)
    requires
        !wild.contains(','),
        sidecar::member(wild) matches Some((token, q)) && token == seq!['*'],
        a != Encoding::Identity,
        b != Encoding::Identity,
        !is_silent_from(before + seq![','] + after, 0, a),
        !is_silent_from(before + seq![','] + after, 0, b),
    ensures
        ({
            let with = sidecar::try_order(
                Some(before + seq![','] + wild + seq![','] + after),
            );
            let without = sidecar::try_order(Some(before + seq![','] + after));
            &&& with.contains(a) <==> without.contains(a)
            &&& forall|i: int, j: int, m: int, n: int|
                0 <= i < with.len() && 0 <= j < with.len() && 0 <= m < without.len() && 0 <= n
                    < without.len() && #[trigger] with[i] == a && #[trigger] with[j] == b
                    && #[trigger] without[m] == a && #[trigger] without[n] == b ==> (i < j <==> m
                    < n)
        }),
{
    let one = before + seq![','] + wild + seq![','] + after;
    let two = before + seq![','] + after;
    let first = text::split(before, ',');
    let last = text::split(after, ',');
    texts::law_split_is_at_every_separator(wild, after, ',');
    texts::law_split_is_at_every_separator(before, wild, ',');
    texts::law_split_is_at_every_separator(before, after, ',');
    texts::law_split_is_at_every_separator(before + seq![','] + wild, after, ',');
    lemma_stated_without(first, wild, last, a);
    lemma_stated_without(first, wild, last, b);
    lemma_stated_weight(two, a, 0);
    lemma_stated_weight(two, b, 0);
    let p = sidecar::weight(two, a);
    let q = sidecar::weight(two, b);
    assert(sidecar::weight(one, a) == p && sidecar::weight(one, b) == q);
    lemma_gives(one, a, p);
    lemma_gives(one, b, q);
    lemma_gives(two, a, p);
    lemma_gives(two, b, q);
    law_heavier_encodings_go_first(one, a, b, p, q);
    law_heavier_encodings_go_first(two, a, b, p, q);
}

/// A member that names the wildcard states no weight of an encoding.
proof fn lemma_stated_without(
    before: Seq<Seq<char>>,
    piece: Seq<char>,
    after: Seq<Seq<char>>,
    e: Encoding,
)
    requires
        sidecar::member(piece) matches Some((token, q)) && token == seq!['*'],
        e != Encoding::Identity,
    ensures
        sidecar::stated_weight(before + seq![piece] + after, e) == sidecar::stated_weight(
            before + after,
            e,
        ),
    decreases after.len(),
{
    let with = before + seq![piece] + after;
    let without = before + after;
    if let Some((token, q)) = sidecar::member(piece) {
        law_tokens_name_encodings(token, e);
    }
    if after.len() == 0 {
        assert(with.last() == piece);
        assert(with.drop_last() =~= before);
        assert(without =~= before);
    } else {
        assert(with.last() == after.last());
        assert(without.last() == after.last());
        assert(with.drop_last() =~= before + seq![piece] + after.drop_last());
        assert(without.drop_last() =~= before + after.drop_last());
        lemma_stated_without(before, piece, after.drop_last(), e);
    }
}

} // verus!
