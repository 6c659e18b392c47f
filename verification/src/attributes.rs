//! Numeric attributes in XMP packets.

use vstd::prelude::*;
use vstd::slice::{slice_subrange, slice_to_vec};

use crate::bytes::{find_at, find_from};

verus! {

/// The first position at or after `i` that holds no decimal digit.
pub open spec fn digits_end(s: Seq<u8>, i: int) -> int
    decreases s.len() - i,
{
    if i < s.len() && 0x30 <= s[i] <= 0x39 {
        digits_end(s, i + 1)
    } else {
        i
    }
}

/// A plus or minus sign stands at `i`.
pub open spec fn is_sign_at(s: Seq<u8>, i: int) -> bool {
    i < s.len() && (s[i] == 0x2B || s[i] == 0x2D)
}

/// `s` from `i` on is an exponent: `e` or `E`, a sign or none, and digits.
pub open spec fn is_exponent_at(s: Seq<u8>, i: int) -> bool {
    let first = if is_sign_at(s, i + 1) {
        i + 2
    } else {
        i + 1
    };
    &&& i < s.len()
    &&& s[i] == 0x65 || s[i] == 0x45
    &&& first < s.len()
    &&& digits_end(s, first) == s.len()
}

/// `s` from `i` on is a decimal number: digits with at most one point among or around them, then
/// an exponent or nothing.
pub open spec fn is_decimal_at(s: Seq<u8>, i: int) -> bool {
    let whole = digits_end(s, i);
    let point = whole < s.len() && s[whole] == 0x2E;
    let end = if point {
        digits_end(s, whole + 1)
    } else {
        whole
    };
    &&& whole > i || point && end > whole + 1
    &&& end == s.len() || is_exponent_at(s, end)
}

/// The lower case form of an ASCII letter.
pub open spec fn lower(b: u8) -> u8 {
    if 0x41 <= b <= 0x5A {
        (b + 0x20) as u8
    } else {
        b
    }
}

/// `s` from `i` on is `word`, in upper or lower case.
pub open spec fn is_word_at(s: Seq<u8>, i: int, word: Seq<u8>) -> bool {
    &&& s.len() - i == word.len()
    &&& forall|k: int| 0 <= k < word.len() ==> lower(s[i + k]) == #[trigger] word[k]
}

/// `inf`
pub const WORD_INF: [u8; 3] = [0x69, 0x6E, 0x66];

/// `infinity`
pub const WORD_INFINITY: [u8; 8] = [0x69, 0x6E, 0x66, 0x69, 0x6E, 0x69, 0x74, 0x79];

/// `nan`
pub const WORD_NAN: [u8; 3] = [0x6E, 0x61, 0x6E];

/// The text of a floating-point number: a sign or none, then a decimal number or one of the words
/// `inf`, `infinity` and `nan`.
pub open spec fn is_number(s: Seq<u8>) -> bool {
    let i = if is_sign_at(s, 0) {
        1int
    } else {
        0int
    };
    ||| is_decimal_at(s, i)
    ||| is_word_at(s, i, WORD_INF@)
    ||| is_word_at(s, i, WORD_INFINITY@)
    ||| is_word_at(s, i, WORD_NAN@)
}

fn skip_digits(s: &[u8], from: usize) -> (r: usize)
    requires
        from <= s@.len(),
    ensures
        r == digits_end(s@, from as int),
        from <= r <= s@.len(),
{
    let mut i: usize = from;
    while i < s.len() && s[i] >= 0x30 && s[i] <= 0x39
        invariant
            from <= i <= s@.len(),
            digits_end(s@, from as int) == digits_end(s@, i as int),
        decreases s@.len() - i,
    {
        i += 1;
    }
    i
}

fn sign_stands_at(s: &[u8], i: usize) -> (r: bool)
    ensures
        r == is_sign_at(s@, i as int),
{
    i < s.len() && (s[i] == 0x2B || s[i] == 0x2D)
}

fn exponent_stands_at(s: &[u8], i: usize) -> (r: bool)
    requires
        i < s@.len(),
    ensures
        r == is_exponent_at(s@, i as int),
{
    if s[i] != 0x65 && s[i] != 0x45 {
        return false;
    }
    let mut first: usize = i + 1;
    if sign_stands_at(s, first) {
        first += 1;
    }
    first < s.len() && skip_digits(s, first) == s.len()
}

fn decimal_stands_at(s: &[u8], i: usize) -> (r: bool)
    requires
        i <= s@.len(),
    ensures
        r == is_decimal_at(s@, i as int),
{
    let whole: usize = skip_digits(s, i);
    let point: bool = whole < s.len() && s[whole] == 0x2E;
    let end: usize = if point {
        skip_digits(s, whole + 1)
    } else {
        whole
    };
    if !(whole > i || (point && end > whole + 1)) {
        return false;
    }
    end == s.len() || exponent_stands_at(s, end)
}

fn word_stands_at(s: &[u8], i: usize, word: &[u8]) -> (r: bool)
    requires
        i <= s@.len(),
    ensures
        r == is_word_at(s@, i as int, word@),
{
    if s.len() - i != word.len() {
        return false;
    }
    let rest: &[u8] = slice_subrange(s, i, s.len());
    let mut k: usize = 0;
    while k < word.len()
        invariant
            k <= word@.len(),
            i + word@.len() == s@.len(),
            rest@ == s@.subrange(i as int, s@.len() as int),
            forall|j: int| 0 <= j < k ==> lower(s@[i + j]) == #[trigger] word@[j],
        decreases word@.len() - k,
    {
        let b: u8 = rest[k];
        let l: u8 = if b >= 0x41 && b <= 0x5A {
            b + 0x20
        } else {
            b
        };
        if l != word[k] {
            assert(lower(s@[i + k]) != word@[k as int]);
            return false;
        }
        k += 1;
    }
    true
}

/// Whether the text is that of a floating-point number.
pub fn reads_as_number(s: &[u8]) -> (r: bool)
    ensures
        r == is_number(s@),
{
    let i: usize = if sign_stands_at(s, 0) {
        1
    } else {
        0
    };
    decimal_stands_at(s, i) || word_stands_at(s, i, &WORD_INF) || word_stands_at(
        s,
        i,
        &WORD_INFINITY,
    ) || word_stands_at(s, i, &WORD_NAN)
}

/// The end of the token that begins at `i`: the next comma or space.
pub open spec fn token_end(s: Seq<u8>, i: int) -> int
    decreases s.len() - i,
{
    if i >= s.len() || s[i] == 0x2C || s[i] == 0x20 {
        i
    } else {
        token_end(s, i + 1)
    }
}

/// The numbers in a list from `i` on, as texts. Tokens are set apart by commas and spaces; those
/// that are no numbers are passed over.
pub open spec fn numbers_from(s: Seq<u8>, i: int) -> Seq<Seq<u8>>
    decreases s.len() + 1 - i,
    when 0 <= i
    via numbers_from_decreases
{
    if i >= s.len() {
        Seq::empty()
    } else {
        let token = s.subrange(i, token_end(s, i));
        (if is_number(token) {
            seq![token]
        } else {
            Seq::empty()
        }) + numbers_from(s, token_end(s, i) + 1)
    }
}

#[via_fn]
proof fn numbers_from_decreases(s: Seq<u8>, i: int) {
    lemma_token_end(s, i);
}

/// A token ends where it begins or later, inside the text.
proof fn lemma_token_end(s: Seq<u8>, i: int)
    ensures
        i <= token_end(s, i),
        i <= s.len() ==> token_end(s, i) <= s.len(),
    decreases s.len() - i,
{
    if i >= s.len() || s[i] == 0x2C || s[i] == 0x20 {
    } else {
        lemma_token_end(s, i + 1);
    }
}

/// Texts that a list of byte vectors holds.
pub open spec fn text_views(v: Seq<Vec<u8>>) -> Seq<Seq<u8>> {
    v.map_values(|t: Vec<u8>| t@)
}

/// The numbers in a list of values, as texts.
pub fn list_numbers(s: &[u8]) -> (out: Vec<Vec<u8>>)
    ensures
        text_views(out@) == numbers_from(s@, 0),
{
    let mut out: Vec<Vec<u8>> = Vec::new();
    let mut i: usize = 0;
    assert(text_views(out@) =~= Seq::empty());
    assert(Seq::<Seq<u8>>::empty() + numbers_from(s@, 0) =~= numbers_from(s@, 0));
    while i < s.len()
        invariant
            i <= s@.len() + 1,
            numbers_from(s@, 0) == text_views(out@) + numbers_from(s@, i as int),
        decreases s@.len() + 1 - i,
    {
        let mut end: usize = i;
        while end < s.len() && s[end] != 0x2C && s[end] != 0x20
            invariant
                i <= end <= s@.len(),
                token_end(s@, i as int) == token_end(s@, end as int),
            decreases s@.len() - end,
        {
            end += 1;
        }
        let ghost before = text_views(out@);
        let ghost rest = numbers_from(s@, end + 1);
        let token: &[u8] = slice_subrange(s, i, end);
        if reads_as_number(token) {
            out.push(slice_to_vec(token));
            assert(text_views(out@) =~= before + seq![token@]);
            assert(before + (seq![token@] + rest) =~= text_views(out@) + rest);
        } else {
            assert(before + (Seq::<Seq<u8>>::empty() + rest) =~= before + rest);
        }
        if end == s.len() {
            assert(rest =~= Seq::empty());
            assert(text_views(out@) + rest =~= text_views(out@));
            return out;
        }
        i = end + 1;
    }
    assert(text_views(out@) + numbers_from(s@, i as int) =~= text_views(out@));
    out
}

/// The first position at or after `i` that holds no space.
pub open spec fn spaces_end(s: Seq<u8>, i: int) -> int
    decreases s.len() - i,
{
    if i < s.len() && s[i] == 0x20 {
        spaces_end(s, i + 1)
    } else {
        i
    }
}

/// The range of the quoted value that follows an attribute's name, which ends before `i`: an
/// equals sign, a quote of either kind, and what stands before the next such quote.
pub open spec fn quoted_value(s: Seq<u8>, i: int) -> Option<(int, int)> {
    let eq = spaces_end(s, i);
    let open = spaces_end(s, eq + 1);
    if eq < s.len() && s[eq] == 0x3D && open < s.len() && (s[open] == 0x22 || s[open] == 0x27) {
        Some(
            (
                open + 1,
                match find_from(s, seq![s[open]], open + 1) {
                    Some(end) => end,
                    None => s.len() as int,
                },
            ),
        )
    } else {
        None
    }
}

fn skip_spaces(s: &[u8], from: usize) -> (r: usize)
    requires
        from <= s@.len(),
    ensures
        r == spaces_end(s@, from as int),
        from <= r <= s@.len(),
{
    let mut i: usize = from;
    while i < s.len() && s[i] == 0x20
        invariant
            from <= i <= s@.len(),
            spaces_end(s@, from as int) == spaces_end(s@, i as int),
        decreases s@.len() - i,
    {
        i += 1;
    }
    i
}

/// The range of the quoted value that follows an attribute's name.
pub fn value_range(s: &[u8], i: usize) -> (r: Option<(usize, usize)>)
    requires
        i <= s@.len(),
    ensures
        match r {
            Some((start, end)) => quoted_value(s@, i as int) == Some((start as int, end as int))
                && start <= end <= s@.len(),
            None => quoted_value(s@, i as int) is None,
        },
{
    let eq: usize = skip_spaces(s, i);
    if eq >= s.len() || s[eq] != 0x3D {
        return None;
    }
    let open: usize = skip_spaces(s, eq + 1);
    if open >= s.len() || (s[open] != 0x22 && s[open] != 0x27) {
        return None;
    }
    let quote: [u8; 1] = [s[open]];
    assert(quote@ =~= seq![s@[open as int]]);
    proof {
        crate::bytes::lemma_find_from(s@, quote@, open + 1);
    }
    match find_at(s, &quote, open + 1) {
        Some(end) => Some((open + 1, end)),
        None => Some((open + 1, s.len())),
    }
}

/// The numbers of the value behind a name that ends before `i`; none without a quoted value.
pub open spec fn value_numbers(s: Seq<u8>, i: int) -> Seq<Seq<u8>> {
    match quoted_value(s, i) {
        Some((start, end)) => numbers_from(s.subrange(start, end), 0),
        None => Seq::empty(),
    }
}

/// The numbers of the first attribute `name` at or after `at` whose value holds any.
pub open spec fn attr_numbers_from(s: Seq<u8>, name: Seq<u8>, at: int) -> Seq<Seq<u8>>
    decreases s.len() - at,
    when 0 <= at && name.len() > 0
    via attr_numbers_decreases
{
    match find_from(s, name, at) {
        Some(i) => if value_numbers(s, i + name.len()).len() > 0 {
            value_numbers(s, i + name.len())
        } else {
            attr_numbers_from(s, name, i + name.len())
        },
        None => Seq::empty(),
    }
}

#[via_fn]
proof fn attr_numbers_decreases(s: Seq<u8>, name: Seq<u8>, at: int) {
    crate::bytes::lemma_find_from(s, name, at);
}

/// The numbers of the first attribute `name` whose value holds any, as texts.
pub fn xmp_attr_numbers(payload: &[u8], name: &[u8]) -> (out: Vec<Vec<u8>>)
    requires
        name@.len() > 0,
    ensures
        text_views(out@) == attr_numbers_from(payload@, name@, 0),
{
    let mut at: usize = 0;
    loop
        invariant
            at <= payload@.len(),
            name@.len() > 0,
            attr_numbers_from(payload@, name@, 0) == attr_numbers_from(payload@, name@, at as int),
        decreases payload@.len() - at,
    {
        proof {
            crate::bytes::lemma_find_from(payload@, name@, at as int);
        }
        match find_at(payload, name, at) {
            Some(i) => {
                let next: usize = i + name.len();
                if let Some((start, end)) = value_range(payload, next) {
                    let numbers: Vec<Vec<u8>> = list_numbers(slice_subrange(payload, start, end));
                    assert(text_views(numbers@).len() == numbers@.len());
                    if numbers.len() > 0 {
                        return numbers;
                    }
                }
                at = next;
            },
            None => {
                let none: Vec<Vec<u8>> = Vec::new();
                assert(text_views(none@) =~= Seq::empty());
                return none;
            },
        }
    }
}

} // verus!
