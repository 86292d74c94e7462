//! Laws of tokens: what is a number, that none is missed, and where path data stands.
use vstd::prelude::*;

use super::lexer::{
    digits, exponent, first_opens_at, first_quote_at, in_number, is_command, is_data, is_digit,
    is_number, lemma_number_bytes, lemma_token_place, mantissa, number_ends, opens_at, optional,
    tokens_from, Tok, MINUS,
};

verus! {

/// Digits are a number, so they are with a point before, between or behind which further digits
/// stand, and so is any number that does not begin with a minus sign, with one before it.
pub proof fn spellings_of_numbers(b: Seq<u8>, i: int, p: int, j: int)
    requires
        0 <= i < j <= b.len(),
    ensures
        digits(b, i, j) ==> is_number(b, i, j),
        i <= p && p + 1 < j && digits(b, i, p) && b[p] == 46 && digits(b, p + 1, j) ==> is_number(
            b,
            i,
            j,
        ),
        b[i] == 45 && i + 1 < j && b[i + 1] != 45 && is_number(b, i + 1, j) ==> is_number(b, i, j),
{
    if digits(b, i, j) {
        assert(mantissa(b, i, i, i, i, j));
        assert(exponent(b, j, j));
    }
    if i <= p && p + 1 < j && digits(b, i, p) && b[p] == 46 && digits(b, p + 1, j) {
        assert(mantissa(b, i, i, p, p + 1, j));
        assert(exponent(b, j, j));
    }
    if b[i] == 45 && i + 1 < j && b[i + 1] != 45 && is_number(b, i + 1, j) {
        let (a, p2, q, r) = choose|a: int, p2: int, q: int, r: int|
            #[trigger] mantissa(b, i + 1, a, p2, q, r) && exponent(b, r, j);
        assert(a == i + 1);
        assert(optional(b, MINUS, i, i + 1));
        assert(mantissa(b, i, i + 1, p2, q, r));
    }
}

/// An exponent may follow a number that has none: the letter, perhaps a minus sign, and digits.
pub proof fn exponents_follow_numbers(b: Seq<u8>, i: int, r: int, t: int, j: int)
    requires
        0 <= i < r < j <= b.len(),
        digits(b, i, r),
        b[r] == 101,
        t == r + 1 || (t == r + 2 && b[r + 1] == 45),
        t < j,
        digits(b, t, j),
    ensures
        is_number(b, i, j),
{
    assert(mantissa(b, i, i, i, i, r));
    assert(optional(b, MINUS, r + 1, t));
    assert(exponent(b, r, j));
}

/// A number begins with a minus sign, a point or a digit and ends in a digit; it has at most one
/// point and at most two minus signs.
pub proof fn numbers_end_in_digits(b: Seq<u8>, i: int, j: int)
    requires
        is_number(b, i, j),
    ensures
        0 <= i < j <= b.len(),
        is_digit(b[j - 1]),
        is_digit(b[i]) || b[i] == 45 || b[i] == 46,
        forall|k: int| i <= k < j ==> in_number(#[trigger] b[k]),
{
    lemma_number_bytes(b, i, j);
    let (a, p, q, r) = choose|a: int, p: int, q: int, r: int|
        #[trigger] mantissa(b, i, a, p, q, r) && exponent(b, r, j);
    assert(is_digit(b[r - 1]));
    if r < j {
        let t = choose|t: int|
            #[trigger] optional(b, MINUS, r + 1, t) && t < j && digits(b, t, j);
        assert(is_digit(b[j - 1]));
    }
    if a == i && p == i && q == i {
        assert(is_digit(b[q]));
    } else if a == i && p > i {
        assert(is_digit(b[i]));
    }
}

proof fn lemma_longest_exists(b: Seq<u8>, i: int, k: int, m: int)
    requires
        is_number(b, i, k),
        k <= m,
        forall|l: int| #[trigger] is_number(b, i, l) ==> l <= m,
    ensures
        exists|j: int| number_ends(b, i, j),
    decreases m - k,
{
    if is_number(b, i, m) {
        lemma_number_bytes(b, i, m);
        assert(number_ends(b, i, m));
    } else {
        assert(k != m);
        assert forall|l: int| #[trigger] is_number(b, i, l) implies l <= m - 1 by {
            assert(l != m);
        }
        lemma_longest_exists(b, i, k, m - 1);
    }
}

proof fn lemma_digit_starts_number(b: Seq<u8>, i: int)
    requires
        0 <= i < b.len(),
        is_digit(b[i]),
    ensures
        exists|j: int| number_ends(b, i, j),
{
    assert(digits(b, i, i + 1));
    spellings_of_numbers(b, i, i, i + 1);
    assert forall|l: int| #[trigger] is_number(b, i, l) implies l <= b.len() by {
        lemma_number_bytes(b, i, l);
    }
    lemma_longest_exists(b, i, i + 1, b.len() as int);
}

proof fn lemma_digit_found(b: Seq<u8>, i: int, k: int) -> (n: int)
    requires
        b.len() <= usize::MAX,
        0 <= i <= k < b.len(),
        is_digit(b[k]),
    ensures
        0 <= n < tokens_from(b, i).len(),
        tokens_from(b, i)[n] is Num,
        tokens_from(b, i)[n]->start <= k < tokens_from(b, i)[n]->end,
    decreases b.len() - i,
{
    if is_command(b[i]) {
        let n = lemma_digit_found(b, i + 1, k);
        assert(tokens_from(b, i)[n + 1] == tokens_from(b, i + 1)[n]);
        n + 1
    } else if exists|j: int| number_ends(b, i, j) {
        let j = choose|j: int| number_ends(b, i, j);
        if k < j {
            assert(tokens_from(b, i)[0] == Tok::Num { start: i as usize, end: j as usize });
            0
        } else {
            let n = lemma_digit_found(b, j, k);
            assert(tokens_from(b, i)[n + 1] == tokens_from(b, j)[n]);
            n + 1
        }
    } else {
        if i == k {
            lemma_digit_starts_number(b, i);
        }
        let n = lemma_digit_found(b, i + 1, k);
        n
    }
}

/// No digit is skipped: each one belongs to a number among the tokens.
pub proof fn every_digit_is_in_a_number(b: Seq<u8>, k: int)
    requires
        b.len() <= usize::MAX,
        0 <= k < b.len(),
        is_digit(b[k]),
    ensures
        exists|n: int|
            0 <= n < tokens_from(b, 0).len() && ((#[trigger] tokens_from(b, 0)[n]) matches Tok::Num {
                start,
                end,
            } && start <= k < end),
{
    let n = lemma_digit_found(b, 0, k);
    assert(tokens_from(b, 0)[n] is Num);
}

/// A text with the attribute `d` in it.
pub open spec fn with_data(before: Seq<char>, d: Seq<char>, after: Seq<char>) -> Seq<char> {
    before + seq!['d', '=', '"'] + d + seq!['"'] + after
}

/// A number goes on as far as it can.
proof fn lemma_number_goes_on(b: Seq<u8>, i: int, j: int)
    requires
        is_number(b, i, j),
        j < b.len(),
        is_digit(b[j]),
    ensures
        is_number(b, i, j + 1),
{
    let (a, p, q, r) = choose|a: int, p: int, q: int, r: int|
        #[trigger] mantissa(b, i, a, p, q, r) && exponent(b, r, j);
    if r == j {
        assert(mantissa(b, i, a, p, q, j + 1));
        assert(exponent(b, j + 1, j + 1));
    } else {
        let t = choose|t: int|
            #[trigger] optional(b, MINUS, r + 1, t) && t < j && digits(b, t, j);
        assert(digits(b, t, j + 1));
        assert(optional(b, MINUS, r + 1, t));
        assert(exponent(b, r, j + 1));
    }
}

/// A number is never split: no digit stands right behind it, nor, where it is digits only, a point
/// or an exponent's letter with a digit behind it.
pub proof fn numbers_are_not_split(b: Seq<u8>, n: int)
    requires
        b.len() <= usize::MAX,
        0 <= n < tokens_from(b, 0).len(),
    ensures
        tokens_from(b, 0)[n] matches Tok::Num { start, end } ==> {
            &&& start < end <= b.len()
            &&& end < b.len() ==> !is_digit(b[end as int])
            &&& digits(b, start as int, end as int) && end + 1 < b.len() && is_digit(b[end + 1])
                ==> b[end as int] != 46 && b[end as int] != 101
        },
{
    if let Tok::Num { start, end } = tokens_from(b, 0)[n] {
        let (i, j) = (start as int, end as int);
        lemma_token_place(b, 0, n);
        assert(number_ends(b, i, j));
        if j < b.len() && is_digit(b[j]) {
            lemma_number_goes_on(b, i, j);
        }
        if digits(b, i, j) && j + 1 < b.len() && is_digit(b[j + 1]) {
            assert(digits(b, j + 1, j + 2));
            if b[j] == 46 {
                spellings_of_numbers(b, i, j, j + 2);
                assert(is_number(b, i, j + 2));
            }
            if b[j] == 101 {
                exponents_follow_numbers(b, i, j, j + 1, j + 2);
                assert(is_number(b, i, j + 2));
            }
        }
    }
}

/// Path data is found where it stands: behind the first `d="` and before the next quote, whatever
/// comes before and behind.
pub proof fn path_data_is_found(
    before: Seq<char>,
    d: Seq<char>,
    after: Seq<char>,
    r: Option<Seq<char>>,
)
    requires
        is_data(with_data(before, d, after), r),
        forall|k: int|
            k < before.len() ==> !#[trigger] opens_at(with_data(before, d, after), k),
        forall|k: int| 0 <= k < d.len() ==> #[trigger] d[k] != '"',
    ensures
        r == Some(d),
{
    let s = with_data(before, d, after);
    let i = before.len() as int;
    let j = i + 3 + d.len();
    assert(s[i] == 'd' && s[i + 1] == '=' && s[i + 2] == '"');
    assert(opens_at(s, i));
    assert(first_opens_at(s, i));
    assert(s[j] == '"');
    assert forall|k: int| i + 3 <= k < j implies #[trigger] s[k] != '"' by {
        assert(s[k] == d[k - (i + 3)]);
    }
    assert(first_quote_at(s, i + 3, j));
    assert(s.subrange(i + 3, j) =~= d);
    match r {
        None => {},
        Some(t) => {
            let (a, b) = choose|a: int, b: int|
                first_opens_at(s, a) && #[trigger] first_quote_at(s, a + 3, b) && t == s.subrange(
                    a + 3,
                    b,
                );
            assert(a == i) by {
                if a < i {
                    assert(!opens_at(s, a));
                }
                if a > i {
                    assert(!opens_at(s, i));
                }
            }
            assert(b == j) by {
                if b < j {
                    assert(s[b] != '"');
                }
                if b > j {
                    assert(s[j] != '"');
                }
            }
        },
    }
}

/// Without a `d="`, or without a quote behind it, there is no path data.
pub proof fn missing_path_data_is_none(s: Seq<char>, r: Option<Seq<char>>, i: int)
    requires
        is_data(s, r),
    ensures
        (forall|k: int| !#[trigger] opens_at(s, k)) ==> r is None,
        opens_at(s, i) && (forall|k: int| 0 <= k < i ==> !#[trigger] opens_at(s, k)) && (forall|k: int|
            i + 3 <= k < s.len() ==> #[trigger] s[k] != '"') ==> r is None,
{
    if let Some(t) = r {
        let (a, b) = choose|a: int, b: int|
            first_opens_at(s, a) && #[trigger] first_quote_at(s, a + 3, b) && t == s.subrange(
                a + 3,
                b,
            );
        assert(opens_at(s, a));
        if opens_at(s, i) && (forall|k: int| 0 <= k < i ==> !#[trigger] opens_at(s, k)) {
            assert(a == i);
            assert(s[b] == '"');
        }
    }
}

} // verus!
