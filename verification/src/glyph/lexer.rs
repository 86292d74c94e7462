//! Splitting SVG path data into command letters and numbers.
use vstd::prelude::*;
use vstd::string::*;
use vstd::utf8::*;

use crate::text::chars_of;

verus! {

/// The bytes `-`, `.` and `e`.
pub const MINUS: u8 = 45;

pub const POINT: u8 = 46;

pub const EXPONENT: u8 = 101;

/// One token of SVG path data. A number is given by the byte range of its text, `start..end`.
#[derive(Clone, Copy, Debug, PartialEq, Eq, Structural)]
pub enum Tok {
    Cmd(u8),
    Num { start: usize, end: usize },
}

/// The command letters `MmLlHhVvCcSsZz`.
pub open spec fn is_command(c: u8) -> bool {
    let c = c as char;
    ||| c == 'M' || c == 'm'
    ||| c == 'L' || c == 'l'
    ||| c == 'H' || c == 'h'
    ||| c == 'V' || c == 'v'
    ||| c == 'C' || c == 'c'
    ||| c == 'S' || c == 's'
    ||| c == 'Z' || c == 'z'
}

pub open spec fn is_digit(c: u8) -> bool {
    48 <= c <= 57
}

/// `b[i..j]` consists of digits only (it may be empty).
pub open spec fn digits(b: Seq<u8>, i: int, j: int) -> bool {
    &&& 0 <= i <= j <= b.len()
    &&& forall|k: int| i <= k < j ==> is_digit(#[trigger] b[k])
}

/// `b[i..j]` is an optional occurrence of the byte `c`.
pub open spec fn optional(b: Seq<u8>, c: u8, i: int, j: int) -> bool {
    j == i || (j == i + 1 && 0 <= i < b.len() && b[i] == c)
}

/// `b[i..j]` matches `(?:e-?\d+)?`.
pub open spec fn exponent(b: Seq<u8>, i: int, j: int) -> bool {
    j == i || (0 <= i < b.len() && b[i] == EXPONENT && exists|t: int|
        #[trigger] optional(b, MINUS, i + 1, t) && t < j && digits(b, t, j))
}

/// `b[i..j]` matches `-?\d*\.?\d+`, its sign ending at `a`, its first digits at `p` and its
/// point at `q`.
pub open spec fn mantissa(b: Seq<u8>, i: int, a: int, p: int, q: int, j: int) -> bool {
    &&& optional(b, MINUS, i, a)
    &&& digits(b, a, p)
    &&& optional(b, POINT, p, q)
    &&& q < j
    &&& digits(b, q, j)
}

/// `b[i..j]` matches `-?\d*\.?\d+(?:e-?\d+)?`.
pub open spec fn is_number(b: Seq<u8>, i: int, j: int) -> bool {
    exists|a: int, p: int, q: int, r: int|
        #[trigger] mantissa(b, i, a, p, q, r) && exponent(b, r, j)
}

/// `j` is the end of the longest number that starts at `i`.
pub open spec fn number_ends(b: Seq<u8>, i: int, j: int) -> bool {
    &&& is_number(b, i, j)
    &&& i < j <= b.len()
    &&& forall|k: int| #[trigger] is_number(b, i, k) ==> k <= j
}

/// The tokens of `b[i..]`: each command letter is one, each longest number is one, and a byte
/// that starts neither is skipped.
pub open spec fn tokens_from(b: Seq<u8>, i: int) -> Seq<Tok>
    decreases b.len() - i,
{
    if i < 0 || i >= b.len() {
        seq![]
    } else if is_command(b[i]) {
        seq![Tok::Cmd(b[i])] + tokens_from(b, i + 1)
    } else if exists|j: int| number_ends(b, i, j) {
        let j = choose|j: int| number_ends(b, i, j);
        seq![Tok::Num { start: i as usize, end: j as usize }] + tokens_from(b, j)
    } else {
        tokens_from(b, i + 1)
    }
}

/// Whether `b` has a digit at `i`.
fn digit_at(b: &[u8], i: usize) -> (r: bool)
    ensures
        r == (i < b@.len() && is_digit(b@[i as int])),
{
    i < b.len() && 48 <= b[i] && b[i] <= 57
}

/// Whether `b` has the byte `c` at `i`.
fn byte_at(b: &[u8], i: usize, c: u8) -> (r: bool)
    ensures
        r == (i < b@.len() && b@[i as int] == c),
{
    i < b.len() && b[i] == c
}

/// The end of the run of digits that starts at `start`.
fn skip_digits(b: &[u8], start: usize) -> (i: usize)
    requires
        start <= b@.len(),
    ensures
        start <= i,
        digits(b@, start as int, i as int),
        i < b@.len() ==> !is_digit(b@[i as int]),
{
    let n: usize = b.len();
    let mut i: usize = start;
    while digit_at(b, i)
        invariant
            n == b@.len(),
            start <= i,
            digits(b@, start as int, i as int),
        decreases b@.len() - i,
    {
        i += 1;
    }
    i
}

/// What a scan finds: the sign ends at `a`, the digits after it at `p`, the mantissa at `r` (with
/// a point at `p` where `r > p`).
spec fn scanned(b: Seq<u8>, i: int, a: int, p: int, r: int) -> bool {
    &&& 0 <= i <= b.len()
    &&& a == (if i < b.len() && b[i] == MINUS { i + 1 } else { i })
    &&& digits(b, a, p)
    &&& p < b.len() ==> !is_digit(b[p])
    &&& if p + 1 < b.len() && b[p] == POINT && is_digit(b[p + 1]) {
        &&& p + 1 < r
        &&& digits(b, p + 1, r)
        &&& r < b.len() ==> !is_digit(b[r])
    } else {
        r == p
    }
}

/// No mantissa reaches further than the scan, and one that stops short is not followed by an
/// exponent.
proof fn lemma_scan_is_longest(b: Seq<u8>, i: int, a: int, p: int, r: int, j: int)
    requires
        scanned(b, i, a, p, r),
        is_number(b, i, j),
    ensures
        a < r,
        j <= r || exponent(b, r, j),
{
    let (a2, p2, q2, r2) = choose|a2: int, p2: int, q2: int, r2: int|
        #[trigger] mantissa(b, i, a2, p2, q2, r2) && exponent(b, r2, j);
    assert(is_digit(b[q2]));
    if a2 != a {
        assert(b[i] == MINUS);
        assert(p2 == a2) by {
            if p2 > a2 {
                assert(is_digit(b[a2]));
            }
        }
        assert(false);
    }
    assert(p2 <= p) by {
        if p2 > p {
            assert(is_digit(b[p]));
        }
    }
    if q2 == p2 {
        assert(r2 <= p) by {
            if r2 > p {
                assert(is_digit(b[p]));
            }
        }
        assert(a < p);
    } else {
        if p2 < p {
            assert(is_digit(b[p2]));
        }
        assert(p2 == p);
        assert(r2 <= r) by {
            if r2 > r {
                assert(is_digit(b[r]));
            }
        }
    }
    if r2 < r {
        if r2 < p {
            assert(is_digit(b[r2]));
        } else if r2 > p {
            assert(is_digit(b[r2]));
        }
        assert(j == r2);
    }
}

/// Returns the end of the number matching `-?\d*\.?\d+(?:e-?\d+)?` at `start`, or `None` when
/// nothing matches there.
pub fn number_end(b: &[u8], start: usize) -> (end: Option<usize>)
    ensures
        match end {
            Some(j) => number_ends(b@, start as int, j as int),
            None => forall|j: int| !is_number(b@, start as int, j),
        },
{
    if start > b.len() {
        return None;
    }
    let a: usize = if byte_at(b, start, MINUS) {
        start + 1
    } else {
        start
    };
    let p: usize = skip_digits(b, a);
    let mut r: usize = p;
    if byte_at(b, p, POINT) && digit_at(b, p + 1) {
        r = skip_digits(b, p + 1);
        assert(mantissa(b@, start as int, a as int, p as int, p + 1, r as int));
    } else if p == a {
        proof {
            assert forall|j: int| !is_number(b@, start as int, j) by {
                if is_number(b@, start as int, j) {
                    lemma_scan_is_longest(b@, start as int, a as int, p as int, r as int, j);
                }
            }
        }
        return None;
    } else {
        assert(mantissa(b@, start as int, a as int, a as int, a as int, r as int));
    }
    assert(exponent(b@, r as int, r as int));
    assert(is_number(b@, start as int, r as int));
    let mut end: usize = r;
    if byte_at(b, r, EXPONENT) {
        let t: usize = if byte_at(b, r + 1, MINUS) {
            r + 2
        } else {
            r + 1
        };
        if digit_at(b, t) {
            end = skip_digits(b, t);
            assert(optional(b@, MINUS, r + 1, t as int));
            assert(exponent(b@, r as int, end as int));
        }
        proof {
            assert forall|j: int| exponent(b@, r as int, j) implies j <= end by {
                if j > r {
                    let u = choose|u: int|
                        #[trigger] optional(b@, MINUS, r + 1, u) && u < j && digits(b@, u, j);
                    assert(is_digit(b@[u]));
                    assert(u == t);
                    if j > end {
                        assert(is_digit(b@[end as int]));
                    }
                }
            }
        }
    }
    proof {
        assert forall|j: int| #[trigger] is_number(b@, start as int, j) implies j <= end by {
            lemma_scan_is_longest(b@, start as int, a as int, p as int, r as int, j);
        }
    }
    Some(end)
}

/// Whether `c` is one of the command letters.
fn command(c: u8) -> (r: bool)
    ensures
        r == is_command(c),
{
    match c as char {
        'M' | 'm' | 'L' | 'l' | 'H' | 'h' | 'V' | 'v' | 'C' | 'c' | 'S' | 's' | 'Z' | 'z' => true,
        _ => false,
    }
}

/// Splits SVG path data into command letters and numbers, skipping what is neither.
pub fn tokenize(d: &str) -> (toks: Vec<Tok>)
    ensures
        toks@ == tokens_from(d.spec_bytes(), 0),
{
    let b = d.as_bytes();
    let mut toks: Vec<Tok> = Vec::new();
    let mut i: usize = 0;
    while i < b.len()
        invariant
            i <= b@.len(),
            toks@ + tokens_from(b@, i as int) == tokens_from(b@, 0),
        decreases b@.len() - i,
    {
        let ghost before = toks@;
        if command(b[i]) {
            toks.push(Tok::Cmd(b[i]));
            i += 1;
            assert(toks@ + tokens_from(b@, i as int) == before + (seq![Tok::Cmd(b@[i - 1])]
                + tokens_from(b@, i as int)));
        } else {
            match number_end(b, i) {
                Some(end) => {
                    let ghost j = choose|j: int| number_ends(b@, i as int, j);
                    assert(j == end);
                    toks.push(Tok::Num { start: i, end });
                    assert(toks@ + tokens_from(b@, end as int) == before + (seq![
                        Tok::Num { start: i, end },
                    ] + tokens_from(b@, end as int)));
                    i = end;
                },
                None => {
                    i += 1;
                },
            }
        }
    }
    assert(toks@ + tokens_from(b@, i as int) == toks@);
    toks
}

/// `d="` stands at `i`.
pub open spec fn opens_at(s: Seq<char>, i: int) -> bool {
    0 <= i && i + 3 <= s.len() && s[i] == 'd' && s[i + 1] == '=' && s[i + 2] == '"'
}

/// The first `d="` stands at `i`.
pub open spec fn first_opens_at(s: Seq<char>, i: int) -> bool {
    opens_at(s, i) && forall|k: int| k < i ==> !#[trigger] opens_at(s, k)
}

/// The first quote from `i` on stands at `j`.
pub open spec fn first_quote_at(s: Seq<char>, i: int, j: int) -> bool {
    i <= j < s.len() && s[j] == '"' && forall|k: int| i <= k < j ==> #[trigger] s[k] != '"'
}

/// `data` stands between the first `d="` and the quote after it; it is `None` if there is no such
/// place.
pub open spec fn is_data(s: Seq<char>, data: Option<Seq<char>>) -> bool {
    match data {
        Some(t) => exists|i: int, j: int|
            first_opens_at(s, i) && #[trigger] first_quote_at(s, i + 3, j) && t == s.subrange(
                i + 3,
                j,
            ),
        None => forall|i: int, j: int|
            first_opens_at(s, i) ==> !#[trigger] first_quote_at(s, i + 3, j),
    }
}

/// Returns the contents of the first `d="..."` attribute; `None` if there is no `d="`, or no quote
/// after the first one.
pub fn path_data(svg: &str) -> (r: Option<&str>)
    ensures
        match r {
            Some(t) => is_data(svg@, Some(t@)),
            None => is_data(svg@, None),
        },
{
    let s: Vec<char> = chars_of(svg);
    let n: usize = s.len();
    let mut i: usize = 0;
    while i < n && !(n - i >= 3 && s[i] == 'd' && s[i + 1] == '=' && s[i + 2] == '"')
        invariant
            i <= n == s@.len(),
            s@ == svg@,
            forall|k: int| k < i ==> !#[trigger] opens_at(svg@, k),
        decreases n - i,
    {
        i += 1;
    }
    if i == n {
        return None;
    }
    assert(first_opens_at(svg@, i as int));
    let start: usize = i + 3;
    let mut j: usize = start;
    while j < n && s[j] != '"'
        invariant
            start <= j <= n == s@.len(),
            s@ == svg@,
            forall|k: int| start <= k < j ==> #[trigger] svg@[k] != '"',
        decreases n - j,
    {
        j += 1;
    }
    if j == n {
        proof {
            assert forall|i2: int, j2: int| first_opens_at(svg@, i2) implies !#[trigger]
            first_quote_at(svg@, i2 + 3, j2) by {
                assert(i2 == i) by {
                    if i2 < i {
                        assert(!opens_at(svg@, i2));
                    }
                    if i < i2 {
                        assert(!opens_at(svg@, i as int));
                    }
                }
            }
        }
        return None;
    }
    assert(first_quote_at(svg@, i + 3, j as int));
    Some(svg.substring_char(start, j))
}

/// Number tokens are numbers of the text, in the order of the text, and do not overlap.
pub proof fn number_tokens_in_order(b: Seq<u8>, k: int, l: int)
    requires
        b.len() <= usize::MAX,
        0 <= k < l < tokens_from(b, 0).len(),
        tokens_from(b, 0)[k] is Num,
        tokens_from(b, 0)[l] is Num,
    ensures
        number_ends(b, tokens_from(b, 0)[k]->start as int, tokens_from(b, 0)[k]->end as int),
        number_ends(b, tokens_from(b, 0)[l]->start as int, tokens_from(b, 0)[l]->end as int),
        tokens_from(b, 0)[k]->end <= tokens_from(b, 0)[l]->start,
{
    lemma_tokens_in_order(b, 0, k, l);
}

pub(crate) proof fn lemma_token_place(b: Seq<u8>, i: int, k: int)
    requires
        b.len() <= usize::MAX,
        0 <= i,
        0 <= k < tokens_from(b, i).len(),
        tokens_from(b, i)[k] is Num,
    ensures
        i <= tokens_from(b, i)[k]->start,
        number_ends(b, tokens_from(b, i)[k]->start as int, tokens_from(b, i)[k]->end as int),
    decreases b.len() - i,
{
    if is_command(b[i]) {
        lemma_token_place(b, i + 1, k - 1);
    } else if exists|j: int| number_ends(b, i, j) {
        let j = choose|j: int| number_ends(b, i, j);
        if k > 0 {
            lemma_token_place(b, j, k - 1);
        }
    } else {
        lemma_token_place(b, i + 1, k);
    }
}

proof fn lemma_tokens_in_order(b: Seq<u8>, i: int, k: int, l: int)
    requires
        b.len() <= usize::MAX,
        0 <= i,
        0 <= k < l < tokens_from(b, i).len(),
        tokens_from(b, i)[k] is Num,
        tokens_from(b, i)[l] is Num,
    ensures
        tokens_from(b, i)[k]->end <= tokens_from(b, i)[l]->start,
        number_ends(b, tokens_from(b, i)[k]->start as int, tokens_from(b, i)[k]->end as int),
        number_ends(b, tokens_from(b, i)[l]->start as int, tokens_from(b, i)[l]->end as int),
    decreases b.len() - i,
{
    lemma_token_place(b, i, k);
    lemma_token_place(b, i, l);
    if is_command(b[i]) {
        lemma_tokens_in_order(b, i + 1, k - 1, l - 1);
    } else if exists|j: int| number_ends(b, i, j) {
        let j = choose|j: int| number_ends(b, i, j);
        if k > 0 {
            lemma_tokens_in_order(b, j, k - 1, l - 1);
        } else {
            lemma_token_place(b, j, l - 1);
        }
    } else {
        lemma_tokens_in_order(b, i + 1, k, l);
    }
}

/// A byte that can stand in a number.
pub open spec fn in_number(c: u8) -> bool {
    is_digit(c) || c == MINUS || c == POINT || c == EXPONENT
}

/// A number lies in the text and holds nothing but the bytes of numbers, no command letter among
/// them.
pub(crate) proof fn lemma_number_bytes(b: Seq<u8>, i: int, j: int)
    requires
        is_number(b, i, j),
    ensures
        0 <= i < j <= b.len(),
        forall|k: int| i <= k < j ==> in_number(#[trigger] b[k]) && !is_command(b[k]),
{
    let (a, p, q, r) = choose|a: int, p: int, q: int, r: int|
        #[trigger] mantissa(b, i, a, p, q, r) && exponent(b, r, j);
    assert forall|k: int| i <= k < j implies in_number(#[trigger] b[k]) && !is_command(b[k]) by {
        if a <= k < p {
            assert(is_digit(b[k]));
        } else if q <= k < r {
            assert(is_digit(b[k]));
        } else if r <= k {
            let t = choose|t: int|
                #[trigger] optional(b, MINUS, r + 1, t) && t < j && digits(b, t, j);
            if t <= k {
                assert(is_digit(b[k]));
            }
        }
    }
}

/// The same bytes are a number wherever they stand.
proof fn lemma_number_moves(b: Seq<u8>, c: Seq<u8>, i: int, j: int, s: int)
    requires
        is_number(b, i, j),
        0 <= i + s,
        j + s <= c.len(),
        forall|k: int| i <= k < j ==> #[trigger] b[k] == c[k + s],
    ensures
        is_number(c, i + s, j + s),
{
    let (a, p, q, r) = choose|a: int, p: int, q: int, r: int|
        #[trigger] mantissa(b, i, a, p, q, r) && exponent(b, r, j);
    assert(digits(c, a + s, p + s)) by {
        assert forall|k: int| a + s <= k < p + s implies is_digit(#[trigger] c[k]) by {
            assert(is_digit(b[k - s]));
        }
    }
    assert(digits(c, q + s, r + s)) by {
        assert forall|k: int| q + s <= k < r + s implies is_digit(#[trigger] c[k]) by {
            assert(is_digit(b[k - s]));
        }
    }
    assert(optional(c, MINUS, i + s, a + s)) by {
        if a > i {
            assert(b[i] == c[i + s]);
        }
    }
    assert(optional(c, POINT, p + s, q + s)) by {
        if q > p {
            assert(b[p] == c[p + s]);
        }
    }
    assert(mantissa(c, i + s, a + s, p + s, q + s, r + s));
    if j != r {
        let t = choose|t: int| #[trigger] optional(b, MINUS, r + 1, t) && t < j && digits(b, t, j);
        assert(b[r] == c[r + s]);
        assert(optional(c, MINUS, r + s + 1, t + s)) by {
            if t > r + 1 {
                assert(b[r + 1] == c[r + 1 + s]);
            }
        }
        assert(digits(c, t + s, j + s)) by {
            assert forall|k: int| t + s <= k < j + s implies is_digit(#[trigger] c[k]) by {
                assert(is_digit(b[k - s]));
            }
        }
    }
    assert(exponent(c, r + s, j + s));
}

/// The token, `n` bytes further on.
pub open spec fn moved(t: Tok, n: int) -> Tok {
    match t {
        Tok::Cmd(c) => Tok::Cmd(c),
        Tok::Num { start, end } => Tok::Num {
            start: (start + n) as usize,
            end: (end + n) as usize,
        },
    }
}

/// The tokens, `n` bytes further on.
pub open spec fn all_moved(toks: Seq<Tok>, n: int) -> Seq<Tok> {
    Seq::new(toks.len(), |k: int| moved(toks[k], n))
}

/// Tokens of the end of a text are those of the end alone, moved.
proof fn lemma_tokens_move(b: Seq<u8>, y: Seq<u8>, i: int, n: int)
    requires
        0 <= i,
        0 <= n,
        b.len() == y.len() + n,
        b.len() <= usize::MAX,
        forall|k: int| 0 <= k < y.len() ==> #[trigger] y[k] == b[k + n],
    ensures
        tokens_from(b, i + n) == all_moved(tokens_from(y, i), n),
    decreases y.len() - i,
{
    if i >= y.len() {
        assert(all_moved(tokens_from(y, i), n) =~= seq![]);
    } else {
        let at = i + n;
        assert(y[i] == b[at]);
        assert forall|j: int| is_number(y, i, j) == #[trigger] is_number(b, at, j + n) by {
            if is_number(y, i, j) {
                lemma_number_bytes(y, i, j);
                lemma_number_moves(y, b, i, j, n);
            }
            if is_number(b, at, j + n) {
                lemma_number_bytes(b, i + n, j + n);
                assert forall|k: int| i + n <= k < j + n implies #[trigger] b[k] == y[k + (-n)] by {
                    assert(y[k - n] == b[k - n + n]);
                }
                lemma_number_moves(b, y, i + n, j + n, -n);
            }
        }
        assert forall|j: int| number_ends(y, i, j) == #[trigger] number_ends(b, at, j + n) by {
            assert(is_number(y, i, j) == is_number(b, at, j + n));
            if number_ends(y, i, j) {
                assert forall|k: int| #[trigger] is_number(b, at, k) implies k <= j + n by {
                    assert(is_number(b, at, (k - n) + n));
                }
            }
            if number_ends(b, at, j + n) {
                assert forall|k: int| #[trigger] is_number(y, i, k) implies k <= j by {
                    assert(is_number(b, at, k + n));
                }
            }
        }
        if is_command(y[i]) {
            lemma_tokens_move(b, y, i + 1, n);
            assert(tokens_from(b, i + n) =~= all_moved(tokens_from(y, i), n));
        } else if exists|j: int| number_ends(y, i, j) {
            let j = choose|j: int| number_ends(y, i, j);
            assert(number_ends(b, at, j + n));
            let m = choose|m: int| number_ends(b, at, m);
            assert(m == j + n);
            lemma_tokens_move(b, y, j, n);
            assert(tokens_from(b, i + n) =~= all_moved(tokens_from(y, i), n));
        } else {
            assert(!exists|m: int| number_ends(b, at, m)) by {
                if exists|m: int| number_ends(b, at, m) {
                    let m = choose|m: int| number_ends(b, at, m);
                    assert(number_ends(b, at, (m - n) + n));
                    assert(number_ends(y, i, m - n));
                }
            }
            lemma_tokens_move(b, y, i + 1, n);
        }
    }
}

/// Up to a byte that no number holds, the tokens of a text are those of the part before it.
proof fn lemma_tokens_before(b: Seq<u8>, x: Seq<u8>, i: int)
    requires
        0 <= i <= x.len() < b.len(),
        b.take(x.len() as int) == x,
        !in_number(b[x.len() as int]),
    ensures
        tokens_from(b, i) == tokens_from(x, i) + tokens_from(b, x.len() as int),
    decreases x.len() - i,
{
    let n = x.len() as int;
    if i == n {
        assert(tokens_from(x, i) + tokens_from(b, n) =~= tokens_from(b, n));
    } else {
        assert forall|k: int| 0 <= k < n implies #[trigger] x[k] == b[k] by {
            assert(b.take(n)[k] == b[k]);
        }
        assert forall|j: int| is_number(x, i, j) == #[trigger] is_number(b, i, j) by {
            if is_number(x, i, j) {
                lemma_number_bytes(x, i, j);
                lemma_number_moves(x, b, i, j, 0);
            }
            if is_number(b, i, j) {
                lemma_number_bytes(b, i, j);
                if j > n {
                    assert(in_number(b[n]));
                }
                lemma_number_moves(b, x, i, j, 0);
            }
        }
        assert forall|j: int| number_ends(x, i, j) == #[trigger] number_ends(b, i, j) by {
            assert(is_number(x, i, j) == is_number(b, i, j));
            if is_number(x, i, j) {
                lemma_number_bytes(x, i, j);
            }
            if number_ends(x, i, j) {
                assert forall|k: int| #[trigger] is_number(b, i, k) implies k <= j by {
                    assert(is_number(x, i, k));
                }
            }
            if number_ends(b, i, j) {
                assert forall|k: int| #[trigger] is_number(x, i, k) implies k <= j by {
                    assert(is_number(b, i, k));
                }
            }
        }
        if is_command(x[i]) {
            lemma_tokens_before(b, x, i + 1);
            assert(tokens_from(b, i) =~= tokens_from(x, i) + tokens_from(b, n));
        } else if exists|j: int| number_ends(x, i, j) {
            let j = choose|j: int| number_ends(x, i, j);
            assert(number_ends(b, i, j));
            let m = choose|m: int| number_ends(b, i, m);
            assert(m == j);
            lemma_tokens_before(b, x, j);
            assert(tokens_from(b, i) =~= tokens_from(x, i) + tokens_from(b, n));
        } else {
            assert(!exists|m: int| number_ends(b, i, m)) by {
                if exists|m: int| number_ends(b, i, m) {
                    let m = choose|m: int| number_ends(b, i, m);
                    assert(number_ends(x, i, m));
                }
            }
            lemma_tokens_before(b, x, i + 1);
        }
    }
}

/// A blank.
pub const BLANK: u8 = 32;

/// Bytes joined by a blank have the tokens of both, those of the second moved behind the first.
pub proof fn joined_bytes_have_both_tokens(x: Seq<u8>, y: Seq<u8>)
    requires
        x.len() + 1 + y.len() <= usize::MAX,
    ensures
        tokens_from(x + seq![BLANK] + y, 0) == tokens_from(x, 0) + all_moved(
            tokens_from(y, 0),
            x.len() as int + 1,
        ),
{
    let b = x + seq![BLANK] + y;
    let n = x.len() as int;
    assert(b.take(n) =~= x);
    lemma_tokens_before(b, x, 0);
    assert(tokens_from(b, n) == tokens_from(b, n + 1)) by {
        assert(b[n] == BLANK);
        if exists|j: int| number_ends(b, n, j) {
            let j = choose|j: int| number_ends(b, n, j);
            lemma_number_bytes(b, n, j);
            assert(in_number(b[n]));
        }
    }
    lemma_tokens_move(b, y, 0, n + 1);
}

/// The encoding of two texts one behind the other is both encodings.
proof fn lemma_encodings_join(a: Seq<char>, b: Seq<char>)
    ensures
        encode_utf8(a + b) == encode_utf8(a) + encode_utf8(b),
    decreases a.len(),
{
    if a.len() == 0 {
        assert(a + b =~= b);
        assert(encode_utf8(a) + encode_utf8(b) =~= encode_utf8(b));
    } else {
        lemma_encodings_join(a.drop_first(), b);
        assert((a + b).drop_first() =~= a.drop_first() + b);
        assert(encode_utf8(a + b) =~= encode_utf8(a) + encode_utf8(b));
    }
}

/// Texts joined by a blank have the tokens of both, those of the second moved behind the first.
pub proof fn joined_texts_have_both_tokens(a: Seq<char>, b: Seq<char>)
    requires
        encode_utf8(a).len() + 1 + encode_utf8(b).len() <= usize::MAX,
    ensures
        tokens_from(encode_utf8(a + seq![' '] + b), 0) == tokens_from(encode_utf8(a), 0)
            + all_moved(tokens_from(encode_utf8(b), 0), encode_utf8(a).len() as int + 1),
{
    let blank = seq![' '];
    lemma_encodings_join(a + blank, b);
    lemma_encodings_join(a, blank);
    assert(blank.drop_first() =~= seq![]);
    assert(' ' as u32 == 32);
    assert((32u32 & 0x7F) as u8 == 32) by (bit_vector);
    reveal_with_fuel(encode_utf8, 2);
    assert(encode_utf8(blank) =~= seq![BLANK]);
    joined_bytes_have_both_tokens(encode_utf8(a), encode_utf8(b));
}

/// The command letters among tokens, in order.
pub open spec fn command_letters(toks: Seq<Tok>) -> Seq<u8>
    decreases toks.len(),
{
    if toks.len() == 0 {
        seq![]
    } else {
        match toks[0] {
            Tok::Cmd(c) => seq![c] + command_letters(toks.skip(1)),
            Tok::Num { .. } => command_letters(toks.skip(1)),
        }
    }
}

/// The bytes of a text from `i` on that are command letters, in order.
pub open spec fn command_bytes(b: Seq<u8>, i: int) -> Seq<u8>
    decreases b.len() - i,
{
    if i < 0 || i >= b.len() {
        seq![]
    } else if is_command(b[i]) {
        seq![b[i]] + command_bytes(b, i + 1)
    } else {
        command_bytes(b, i + 1)
    }
}

proof fn lemma_no_commands(b: Seq<u8>, i: int, j: int)
    requires
        0 <= i <= j <= b.len(),
        forall|k: int| i <= k < j ==> !is_command(#[trigger] b[k]),
    ensures
        command_bytes(b, i) == command_bytes(b, j),
    decreases j - i,
{
    if i < j {
        lemma_no_commands(b, i + 1, j);
    }
}

/// The commands among the tokens are exactly the command letters of the text, in order.
pub proof fn commands_are_the_letters(b: Seq<u8>, i: int)
    requires
        0 <= i,
    ensures
        command_letters(tokens_from(b, i)) == command_bytes(b, i),
    decreases b.len() - i,
{
    let toks = tokens_from(b, i);
    if i < b.len() {
        if is_command(b[i]) {
            commands_are_the_letters(b, i + 1);
            assert(toks.skip(1) =~= tokens_from(b, i + 1));
        } else if exists|j: int| number_ends(b, i, j) {
            let j = choose|j: int| number_ends(b, i, j);
            lemma_number_bytes(b, i, j);
            commands_are_the_letters(b, j);
            lemma_no_commands(b, i, j);
            assert(toks.skip(1) =~= tokens_from(b, j));
        } else {
            commands_are_the_letters(b, i + 1);
        }
    }
}

} // verus!
