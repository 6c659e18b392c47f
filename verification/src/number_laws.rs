//! Which texts are numbers, and which numbers a list has.

use vstd::prelude::*;

use crate::attributes::{
    attr_numbers_from, digits_end, is_decimal_at, is_number, is_sign_at, is_word_at, lower,
    numbers_from, quoted_value, spaces_end, token_end, value_numbers, WORD_INF, WORD_INFINITY,
    WORD_NAN,
};
use crate::bytes::{find_from, lemma_find_from, lemma_find_from_is, matches_at};
use crate::neutral_laws::{is_list_number, lemma_listed_numbers, lemma_no_comma_text, with_commas};

verus! {

/// The bytes from `from` up to `to` are decimal digits.
pub open spec fn are_digits(s: Seq<u8>, from: int, to: int) -> bool {
    forall|k: int| from <= k < to ==> 0x30 <= #[trigger] s[k] <= 0x39
}

proof fn lemma_digits_end(s: Seq<u8>, i: int)
    requires
        0 <= i <= s.len(),
    ensures
        i <= digits_end(s, i) <= s.len(),
        are_digits(s, i, digits_end(s, i)),
    decreases s.len() - i,
{
    if i < s.len() && 0x30 <= s[i] <= 0x39 {
        lemma_digits_end(s, i + 1);
    }
}

/// The text from `i` on is an exponent whose digits begin at `c`: `e` or `E`, a sign or none, and
/// at least one digit.
pub open spec fn has_exponent(s: Seq<u8>, i: int, c: int) -> bool {
    &&& i < s.len()
    &&& s[i] == 0x65 || s[i] == 0x45
    &&& c == i + 1 || c == i + 2 && (s[i + 1] == 0x2B || s[i + 1] == 0x2D)
    &&& c < s.len()
    &&& are_digits(s, c, s.len() as int)
}

/// The text from `i` on is a decimal number: digits up to `a`, up to `b` a point and digits or
/// nothing, with at least one digit before or behind the point, and then an exponent or nothing.
pub open spec fn has_decimal(s: Seq<u8>, i: int, a: int, b: int) -> bool {
    &&& i <= a <= b <= s.len()
    &&& are_digits(s, i, a)
    &&& a == b || s[a] == 0x2E && are_digits(s, a + 1, b)
    &&& a > i || b > a + 1
    &&& b == s.len() || exists|c: int| #[trigger] has_exponent(s, b, c)
}

/// The text from `i` on is one of the words `inf`, `infinity` and `nan`, in upper or lower case.
pub open spec fn is_special(s: Seq<u8>, i: int) -> bool {
    let t = Seq::new((s.len() - i) as nat, |k: int| lower(s[i + k]));
    &&& 0 <= i <= s.len()
    &&& t == seq![0x69u8, 0x6E, 0x66] || t == seq![0x6Eu8, 0x61, 0x6E] || t == seq![
        0x69u8,
        0x6E,
        0x66,
        0x69,
        0x6E,
        0x69,
        0x74,
        0x79,
    ]
}

/// A sign or none, and then a decimal number or a word.
pub open spec fn has_number_shape(s: Seq<u8>, i: int) -> bool {
    &&& i == 0 || i == 1 && s.len() >= 1 && (s[0] == 0x2B || s[0] == 0x2D)
    &&& is_special(s, i) || exists|a: int, b: int| #[trigger] has_decimal(s, i, a, b)
}

proof fn lemma_word(s: Seq<u8>, i: int, word: Seq<u8>)
    requires
        0 <= i,
        is_word_at(s, i, word),
    ensures
        i <= s.len(),
        Seq::new((s.len() - i) as nat, |k: int| lower(s[i + k])) == word,
{
    assert(Seq::new((s.len() - i) as nat, |k: int| lower(s[i + k])) =~= word);
}

/// A text counts as a number only where it is a sign or none, followed by a decimal number with an
/// exponent or none, or by one of the words.
pub proof fn law_numbers_have_the_shape_of_numbers(s: Seq<u8>)
    requires
        is_number(s),
    ensures
        exists|i: int| #[trigger] has_number_shape(s, i),
{
    let i = if is_sign_at(s, 0) {
        1int
    } else {
        0int
    };
    assert(WORD_INF@ =~= seq![0x69u8, 0x6E, 0x66]);
    assert(WORD_NAN@ =~= seq![0x6Eu8, 0x61, 0x6E]);
    assert(WORD_INFINITY@ =~= seq![0x69u8, 0x6E, 0x66, 0x69, 0x6E, 0x69, 0x74, 0x79]);
    if is_decimal_at(s, i) {
        let a = digits_end(s, i);
        lemma_digits_end(s, i);
        let point = a < s.len() && s[a] == 0x2E;
        let b = if point {
            digits_end(s, a + 1)
        } else {
            a
        };
        if point {
            lemma_digits_end(s, a + 1);
        }
        if b != s.len() {
            let c = if is_sign_at(s, b + 1) {
                b + 2
            } else {
                b + 1
            };
            lemma_digits_end(s, c);
            assert(has_exponent(s, b, c));
        }
        assert(has_decimal(s, i, a, b));
    } else if is_word_at(s, i, WORD_INF@) {
        lemma_word(s, i, WORD_INF@);
    } else if is_word_at(s, i, WORD_INFINITY@) {
        lemma_word(s, i, WORD_INFINITY@);
    } else {
        lemma_word(s, i, WORD_NAN@);
    }
    assert(has_number_shape(s, i));
}

/// The words count as numbers, with a sign or without, in upper or lower case.
pub proof fn law_words_are_numbers(s: Seq<u8>, i: int)
    requires
        i == 0 || i == 1 && s.len() >= 1 && (s[0] == 0x2B || s[0] == 0x2D),
        is_special(s, i),
    ensures
        is_number(s),
{
    let t = Seq::new((s.len() - i) as nat, |k: int| lower(s[i + k]));
    assert(WORD_INF@ =~= seq![0x69u8, 0x6E, 0x66]);
    assert(WORD_NAN@ =~= seq![0x6Eu8, 0x61, 0x6E]);
    assert(WORD_INFINITY@ =~= seq![0x69u8, 0x6E, 0x66, 0x69, 0x6E, 0x69, 0x74, 0x79]);
    if i == 0 && is_sign_at(s, 0) {
        assert(t[0] == s[0]);
    }
    assert(forall|k: int| 0 <= k < t.len() ==> #[trigger] t[k] == lower(s[i + k]));
    if t == WORD_INF@ {
        assert(is_word_at(s, i, WORD_INF@));
    } else if t == WORD_NAN@ {
        assert(is_word_at(s, i, WORD_NAN@));
    } else {
        assert(is_word_at(s, i, WORD_INFINITY@));
    }
}

/// The text has no comma and no space.
pub open spec fn is_token(t: Seq<u8>) -> bool {
    forall|k: int| 0 <= k < t.len() ==> #[trigger] t[k] != 0x2C && t[k] != 0x20
}

proof fn lemma_token_to(s: Seq<u8>, i: int, n: int)
    requires
        0 <= i <= n <= s.len(),
        forall|k: int| i <= k < n ==> #[trigger] s[k] != 0x2C && s[k] != 0x20,
        n == s.len() || s[n] == 0x2C || s[n] == 0x20,
    ensures
        token_end(s, i) == n,
    decreases n - i,
{
    if i < n {
        lemma_token_to(s, i + 1, n);
    }
}

proof fn lemma_behind(a: Seq<u8>, b: Seq<u8>, i: int)
    requires
        0 <= i,
    ensures
        numbers_from(a + b, a.len() + i) == numbers_from(b, i),
    decreases b.len() + 1 - i,
{
    let s = a + b;
    if i < b.len() {
        let n = first_gap(b, i);
        lemma_first_gap(b, i);
        lemma_token_to(b, i, n);
        assert forall|k: int| a.len() + i <= k < a.len() + n implies #[trigger] s[k] != 0x2C
            && s[k] != 0x20 by {
            assert(s[k] == b[k - a.len()]);
        }
        lemma_token_to(s, a.len() + i, a.len() + n);
        assert(s.subrange(a.len() + i, a.len() + n) =~= b.subrange(i, n));
        lemma_behind(a, b, n + 1);
    }
}

/// The next comma or space at or after `i`, or the end.
spec fn first_gap(s: Seq<u8>, i: int) -> int
    decreases s.len() - i,
{
    if i >= s.len() || s[i] == 0x2C || s[i] == 0x20 {
        i
    } else {
        first_gap(s, i + 1)
    }
}

proof fn lemma_first_gap(s: Seq<u8>, i: int)
    requires
        0 <= i <= s.len(),
    ensures
        i <= first_gap(s, i) <= s.len(),
        forall|k: int| i <= k < first_gap(s, i) ==> #[trigger] s[k] != 0x2C && s[k] != 0x20,
        first_gap(s, i) == s.len() || s[first_gap(s, i)] == 0x2C || s[first_gap(s, i)] == 0x20,
    decreases s.len() - i,
{
    if i < s.len() && s[i] != 0x2C && s[i] != 0x20 {
        lemma_first_gap(s, i + 1);
    }
}

/// The first token of a list gives a number where it is one, and what follows the comma or space
/// behind it gives its own numbers.
pub proof fn law_tokens_give_numbers_one_by_one(token: Seq<u8>, gap: u8, rest: Seq<u8>)
    requires
        is_token(token),
        gap == 0x2C || gap == 0x20,
    ensures
        is_number(token) ==> numbers_from(token + seq![gap] + rest, 0) == seq![token]
            + numbers_from(rest, 0),
        !is_number(token) ==> numbers_from(token + seq![gap] + rest, 0) == numbers_from(rest, 0),
{
    let s = token + seq![gap] + rest;
    let n = token.len() as int;
    assert forall|k: int| 0 <= k < n implies #[trigger] s[k] != 0x2C && s[k] != 0x20 by {
        assert(s[k] == token[k]);
    }
    assert(s[n] == gap);
    lemma_token_to(s, 0, n);
    assert(s.subrange(0, n) =~= token);
    assert(s =~= (token + seq![gap]) + rest);
    lemma_behind(token + seq![gap], rest, 0);
    assert(Seq::<Seq<u8>>::empty() + numbers_from(rest, 0) =~= numbers_from(rest, 0));
}

/// A text without commas and spaces gives itself where it is a number, and else nothing.
pub proof fn law_one_token_gives_one_number(token: Seq<u8>)
    requires
        is_token(token),
        token.len() > 0,
    ensures
        numbers_from(token, 0) == (if is_number(token) {
            seq![token]
        } else {
            Seq::empty()
        }),
{
    let n = token.len() as int;
    lemma_token_to(token, 0, n);
    assert(token.subrange(0, n) =~= token);
    assert(numbers_from(token, n + 1) =~= Seq::<Seq<u8>>::empty());
    assert(seq![token] + Seq::<Seq<u8>>::empty() =~= seq![token]);
}

/// The text is made of spaces.
pub open spec fn are_spaces(s: Seq<u8>) -> bool {
    forall|k: int| 0 <= k < s.len() ==> #[trigger] s[k] == 0x20
}

proof fn lemma_spaces_to(s: Seq<u8>, i: int, n: int)
    requires
        0 <= i <= n < s.len(),
        forall|k: int| i <= k < n ==> #[trigger] s[k] == 0x20,
        s[n] != 0x20,
    ensures
        spaces_end(s, i) == n,
    decreases n - i,
{
    if i < n {
        lemma_spaces_to(s, i + 1, n);
    }
}

/// The text of an attribute, with spaces around its equals sign.
pub open spec fn attribute_text(
    before: Seq<u8>,
    name: Seq<u8>,
    left: Seq<u8>,
    right: Seq<u8>,
    q: u8,
    list: Seq<u8>,
    behind: Seq<u8>,
) -> Seq<u8> {
    before + name + left + seq![0x3Du8] + right + seq![q] + list + seq![q] + behind
}

/// Spaces around the equals sign of an attribute do not matter: its numbers are read in order.
pub proof fn law_spaces_around_the_equals_sign_do_not_matter(
    before: Seq<u8>,
    name: Seq<u8>,
    left: Seq<u8>,
    right: Seq<u8>,
    q: u8,
    tokens: Seq<Seq<u8>>,
    behind: Seq<u8>,
)
    requires
        are_spaces(left),
        are_spaces(right),
        q == 0x22 || q == 0x27,
        name.len() > 0,
        tokens.len() > 0,
        forall|i: int| 0 <= i < tokens.len() ==> is_list_number(#[trigger] tokens[i], q),
        ({
            let s = attribute_text(before, name, left, right, q, with_commas(tokens), behind);
            forall|j: int| 0 <= j < before.len() ==> !#[trigger] matches_at(s, name, j)
        }),
    ensures
        attr_numbers_from(
            attribute_text(before, name, left, right, q, with_commas(tokens), behind),
            name,
            0,
        ) == tokens,
{
    let list = with_commas(tokens);
    let s = attribute_text(before, name, left, right, q, list, behind);
    let at = before.len() as int;
    let i = at + name.len();
    let eq = i + left.len();
    let open = eq + 1 + right.len();
    let (start, end) = (open + 1, open + 1 + list.len());
    assert(s.subrange(at, i) =~= name);
    lemma_find_from_is(s, name, 0, at);
    assert(s[eq] == 0x3D && s[open] == q && s[end] == q);
    assert forall|k: int| i <= k < eq implies #[trigger] s[k] == 0x20 by {
        assert(s[k] == left[k - i]);
    }
    assert forall|k: int| eq + 1 <= k < open implies #[trigger] s[k] == 0x20 by {
        assert(s[k] == right[k - eq - 1]);
    }
    lemma_spaces_to(s, i, eq);
    lemma_spaces_to(s, eq + 1, open);
    lemma_no_comma_text(tokens, q);
    assert forall|j: int| start <= j < end implies !#[trigger] matches_at(s, seq![q], j) by {
        assert(s[j] == list[j - start]);
        if matches_at(s, seq![q], j) {
            assert(s.subrange(j, j + 1)[0] == seq![q][0]);
        }
    }
    assert(s.subrange(end, end + 1) =~= seq![q]);
    lemma_find_from_is(s, seq![q], start, end);
    assert(quoted_value(s, i) == Some((start, end)));
    assert(s.subrange(start, end) =~= list);
    lemma_listed_numbers(Seq::empty(), tokens, q);
    assert(Seq::<u8>::empty() + list =~= list);
    assert(value_numbers(s, i) == tokens);
}

/// A name without a value, such as the start of a longer name, and a name with an empty value are
/// passed over: the numbers are those of what follows.
pub proof fn law_names_without_numbers_are_passed_over(s: Seq<u8>, name: Seq<u8>, at: int)
    requires
        name.len() > 0,
        matches_at(s, name, at),
        forall|j: int| 0 <= j < at ==> !#[trigger] matches_at(s, name, j),
        ({
            let i = at + name.len();
            ||| i == s.len()
            ||| s[i] != 0x20 && s[i] != 0x3D
            ||| i + 3 <= s.len() && s[i] == 0x3D && (s[i + 1] == 0x22 || s[i + 1] == 0x27)
                && s[i + 2] == s[i + 1]
        }),
    ensures
        attr_numbers_from(s, name, 0) == attr_numbers_from(s, name, at + name.len()),
{
    let i = at + name.len();
    lemma_find_from_is(s, name, 0, at);
    if i < s.len() && s[i] == 0x3D {
        assert(spaces_end(s, i) == i && spaces_end(s, i + 1) == i + 1);
        assert(s.subrange(i + 2, i + 3) =~= seq![s[i + 1]]);
        lemma_find_from_is(s, seq![s[i + 1]], i + 2, i + 2);
        assert(s.subrange(i + 2, i + 2) =~= Seq::<u8>::empty());
        assert(numbers_from(Seq::<u8>::empty(), 0) =~= Seq::<Seq<u8>>::empty());
    } else {
        assert(spaces_end(s, i) == i);
    }
    assert(value_numbers(s, i).len() == 0);
}

/// A value whose closing quote is missing reaches to the end of the text.
pub proof fn law_unclosed_value_reaches_to_the_end(
    before: Seq<u8>,
    name: Seq<u8>,
    q: u8,
    tokens: Seq<Seq<u8>>,
)
    requires
        q == 0x22 || q == 0x27,
        name.len() > 0,
        tokens.len() > 0,
        forall|i: int| 0 <= i < tokens.len() ==> is_list_number(#[trigger] tokens[i], q),
        ({
            let s = before + name + seq![0x3Du8, q] + with_commas(tokens);
            forall|j: int| 0 <= j < before.len() ==> !#[trigger] matches_at(s, name, j)
        }),
    ensures
        attr_numbers_from(before + name + seq![0x3Du8, q] + with_commas(tokens), name, 0) == tokens,
{
    let list = with_commas(tokens);
    let s = before + name + seq![0x3Du8, q] + list;
    let at = before.len() as int;
    let i = at + name.len();
    let start = i + 2;
    assert(s.subrange(at, i) =~= name);
    lemma_find_from_is(s, name, 0, at);
    assert(s[i] == 0x3D && s[i + 1] == q);
    assert(spaces_end(s, i) == i && spaces_end(s, i + 1) == i + 1);
    lemma_no_comma_text(tokens, q);
    lemma_find_from(s, seq![q], start);
    if let Some(j) = find_from(s, seq![q], start) {
        assert(s[j] == list[j - start]);
        assert(s.subrange(j, j + 1)[0] == seq![q][0]);
    }
    assert(quoted_value(s, i) == Some((start, s.len() as int)));
    assert(s.subrange(start, s.len() as int) =~= list);
    lemma_listed_numbers(Seq::empty(), tokens, q);
    assert(Seq::<u8>::empty() + list =~= list);
    assert(value_numbers(s, i) == tokens);
}

} // verus!
