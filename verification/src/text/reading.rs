//! Laws of printed numbers and of texts: what is printed can be read back.
use vstd::prelude::*;
use vstd::string::*;

use super::{ascii_lower, decimal, digit_char, numbered_text, padded, same_but_ascii_case};

verus! {

/// A decimal digit.
pub open spec fn is_digit(c: char) -> bool {
    '0' <= c && c <= '9'
}

/// Nothing but decimal digits.
pub open spec fn is_numeral(s: Seq<char>) -> bool {
    forall|i: int| 0 <= i < s.len() ==> is_digit(#[trigger] s[i])
}

/// The number that decimal digits stand for, the highest first.
pub open spec fn read_decimal(s: Seq<char>) -> nat
    decreases s.len(),
{
    if s.len() == 0 {
        0
    } else {
        (10 * read_decimal(s.drop_last()) + (s.last() as int - '0' as int)) as nat
    }
}

/// `text` says `value` behind `label`.
pub open spec fn tells(text: Seq<char>, label: Seq<char>, value: Seq<char>) -> bool {
    exists|before: Seq<char>, after: Seq<char>|
        text == #[trigger] (before + label + value + after)
}

/// `text` ends in `label` and `value`.
pub open spec fn ends_telling(text: Seq<char>, label: Seq<char>, value: Seq<char>) -> bool {
    exists|before: Seq<char>| text == #[trigger] (before + label + value)
}

/// `start`, then labels, each with its value behind it.
pub open spec fn labelled(start: Seq<char>, parts: Seq<(Seq<char>, Seq<char>)>) -> Seq<char>
    decreases parts.len(),
{
    if parts.len() == 0 {
        start
    } else {
        labelled(start, parts.drop_last()) + parts.last().0 + parts.last().1
    }
}

proof fn lemma_labelled_splits(
    start: Seq<char>,
    parts: Seq<(Seq<char>, Seq<char>)>,
    k: int,
)
    requires
        0 <= k <= parts.len(),
    ensures
        labelled(start, parts) == labelled(start, parts.take(k)) + labelled(
            Seq::empty(),
            parts.skip(k),
        ),
    decreases parts.len(),
{
    let none = Seq::<char>::empty();
    if k == parts.len() {
        assert(parts.take(k) =~= parts);
        assert(parts.skip(k) =~= seq![]);
        assert(labelled(start, parts) + none =~= labelled(start, parts));
    } else {
        lemma_labelled_splits(start, parts.drop_last(), k);
        assert(parts.drop_last().take(k) =~= parts.take(k));
        assert(parts.drop_last().skip(k) =~= parts.skip(k).drop_last());
        let a = labelled(start, parts.take(k));
        let b = labelled(none, parts.skip(k).drop_last());
        assert(a + b + parts.last().0 + parts.last().1 =~= a + (b + parts.last().0
            + parts.last().1));
    }
}

/// Each value stands between its own label and the next one, and the last one at the end.
pub proof fn labels_stand_before_values(
    start: Seq<char>,
    parts: Seq<(Seq<char>, Seq<char>)>,
    k: int,
)
    requires
        0 <= k < parts.len(),
    ensures
        k + 1 < parts.len() ==> tells(
            labelled(start, parts),
            parts[k].0,
            parts[k].1 + parts[k + 1].0,
        ),
        k + 1 == parts.len() ==> ends_telling(labelled(start, parts), parts[k].0, parts[k].1),
{
    let none = Seq::<char>::empty();
    let text = labelled(start, parts);
    if k + 1 < parts.len() {
        let before = labelled(start, parts.take(k));
        let front = labelled(start, parts.take(k + 1));
        assert(parts.take(k + 1).drop_last() =~= parts.take(k));
        assert(front == before + parts[k].0 + parts[k].1);
        lemma_labelled_splits(start, parts, k + 1);
        lemma_labelled_splits(none, parts.skip(k + 1), 1);
        let first = parts.skip(k + 1).take(1);
        assert(first.drop_last() =~= seq![]);
        let after = parts[k + 1].1 + labelled(none, parts.skip(k + 1).skip(1));
        assert(labelled(none, first.drop_last()) == none);
        assert(labelled(none, first) =~= parts[k + 1].0 + parts[k + 1].1);
        assert(text =~= before + parts[k].0 + (parts[k].1 + parts[k + 1].0) + after);
    } else {
        let before = labelled(start, parts.drop_last());
        assert(text == before + parts[k].0 + parts[k].1);
    }
}

proof fn lemma_digit(d: nat)
    requires
        d < 10,
    ensures
        is_digit(digit_char(d)),
        digit_char(d) as int - '0' as int == d,
{
}

/// A printed number reads back, holds nothing but digits, at least one, and begins with a zero
/// only if it is zero.
pub proof fn decimal_reads_back(n: nat)
    ensures
        read_decimal(decimal(n)) == n,
        is_numeral(decimal(n)),
        decimal(n).len() > 0,
        decimal(n)[0] == '0' <==> n == 0,
    decreases n,
{
    lemma_digit(n % 10);
    reveal_with_fuel(read_decimal, 2);
    if n < 10 {
        assert(decimal(n).drop_last() =~= seq![]);
    } else {
        decimal_reads_back(n / 10);
        assert(decimal(n).drop_last() =~= decimal(n / 10));
    }
}

/// No two numbers are printed alike.
pub proof fn decimals_differ(a: nat, b: nat)
    requires
        decimal(a) == decimal(b),
    ensures
        a == b,
{
    decimal_reads_back(a);
    decimal_reads_back(b);
}

/// A number below 10 to the `w`th is printed in `w` digits at most.
pub proof fn short_numbers_are_short(n: nat)
    ensures
        n < 10 ==> decimal(n).len() == 1,
        10 <= n < 100 ==> decimal(n).len() == 2,
        100 <= n < 1000 ==> decimal(n).len() == 3,
        1000 <= n < 10000 ==> decimal(n).len() == 4,
        n >= 100 ==> decimal(n).len() >= 3,
        n >= 10000 ==> decimal(n).len() >= 5,
    decreases n,
{
    reveal_with_fuel(decimal, 5);
}

proof fn lemma_zeros_read(k: nat, s: Seq<char>)
    requires
        is_numeral(s),
    ensures
        read_decimal(Seq::new(k, |i: int| '0') + s) == read_decimal(s),
        is_numeral(Seq::new(k, |i: int| '0') + s),
    decreases s.len(), k,
{
    let z = Seq::new(k, |i: int| '0');
    if s.len() > 0 {
        lemma_zeros_read(k, s.drop_last());
        assert((z + s).drop_last() =~= z + s.drop_last());
        assert forall|i: int| 0 <= i < (z + s).len() implies is_digit(#[trigger] (z + s)[i]) by {
            if i >= k {
                assert(is_digit(s[i - k]));
            }
        }
    } else if k > 0 {
        let y = Seq::new((k - 1) as nat, |i: int| '0');
        lemma_zeros_read((k - 1) as nat, s);
        assert((z + s).drop_last() =~= y + s);
        assert((z + s).last() == '0');
    } else {
        assert(z + s =~= s);
    }
}

/// A padded number reads back, and is as wide as asked, or wider where the number is.
pub proof fn padded_reads_back(n: nat, width: nat)
    ensures
        read_decimal(padded(n, width)) == n,
        is_numeral(padded(n, width)),
        padded(n, width).len() >= width,
        padded(n, width).len() > width ==> padded(n, width) == decimal(n),
        width == 2 && n < 100 ==> padded(n, width).len() == 2,
        width == 4 && n < 10000 ==> padded(n, width).len() == 4,
{
    decimal_reads_back(n);
    short_numbers_are_short(n);
    let d = decimal(n);
    if d.len() < width {
        lemma_zeros_read((width - d.len()) as nat, d);
    }
}

/// A message with a number in it begins and ends with the words, and the number between them reads
/// back.
pub proof fn message_tells_its_number(before: Seq<char>, n: nat, after: Seq<char>)
    ensures
        ({
            let text = numbered_text(before, n, after);
            let digits = text.subrange(before.len() as int, text.len() - after.len());
            &&& before.len() + after.len() < text.len()
            &&& text.take(before.len() as int) == before
            &&& text.skip(text.len() - after.len()) == after
            &&& is_numeral(digits)
            &&& read_decimal(digits) == n
        }),
{
    decimal_reads_back(n);
    let text = numbered_text(before, n, after);
    assert(text.subrange(before.len() as int, text.len() - after.len()) =~= decimal(n));
    assert(text.take(before.len() as int) =~= before);
    assert(text.skip(text.len() - after.len()) =~= after);
}

/// Digits end where something else follows: texts that begin with a number are the same only if
/// the numbers and what follows them are.
pub proof fn numbers_end_where_they_end(a: nat, r: Seq<char>, b: nat, s: Seq<char>)
    requires
        r.len() > 0 && !is_digit(r[0]),
        s.len() > 0 && !is_digit(s[0]),
        decimal(a) + r == decimal(b) + s,
    ensures
        a == b,
        r == s,
{
    decimal_reads_back(a);
    decimal_reads_back(b);
    let (x, y) = (decimal(a), decimal(b));
    if x.len() < y.len() {
        assert((x + r)[x.len() as int] == r[0]);
        assert((y + s)[x.len() as int] == y[x.len() as int]);
        assert(is_digit(y[x.len() as int]));
    }
    if y.len() < x.len() {
        assert((y + s)[y.len() as int] == s[0]);
        assert((x + r)[y.len() as int] == x[y.len() as int]);
        assert(is_digit(x[y.len() as int]));
    }
    assert((x + r).take(x.len() as int) =~= x);
    assert((y + s).take(y.len() as int) =~= y);
    assert((x + r).skip(x.len() as int) =~= r);
    assert((y + s).skip(y.len() as int) =~= s);
}

/// Capital letters become the small ones, in order, and nothing else changes.
pub proof fn only_capitals_are_lowered(c: char, d: char)
    ensures
        ('A' <= c && c <= 'Z') ==> 'a' <= ascii_lower(c) && ascii_lower(c) <= 'z' && ascii_lower(c)
            as int - 'a' as int == c as int - 'A' as int,
        !('A' <= c && c <= 'Z') ==> ascii_lower(c) == c,
        ascii_lower(ascii_lower(c)) == ascii_lower(c),
{
}

/// Texts that differ only in case are the same: the relation holds of a text and itself, both ways
/// round, and from one to the next; and it holds of no texts that differ in anything else.
pub proof fn case_does_not_matter(a: Seq<char>, b: Seq<char>, c: Seq<char>)
    ensures
        same_but_ascii_case(a, a),
        same_but_ascii_case(a, b) ==> same_but_ascii_case(b, a),
        same_but_ascii_case(a, b) && same_but_ascii_case(b, c) ==> same_but_ascii_case(a, c),
        same_but_ascii_case(a, b) ==> a.len() == b.len(),
        forall|i: int|
            same_but_ascii_case(a, b) && 0 <= i < a.len() && #[trigger] a[i] != b[i] ==> a[i] as int
                - b[i] as int == 32 || b[i] as int - a[i] as int == 32,
{
    if same_but_ascii_case(a, b) {
        assert forall|i: int| 0 <= i < b.len() implies ascii_lower(#[trigger] b[i]) == ascii_lower(
            a[i],
        ) by {
            assert(ascii_lower(a[i]) == ascii_lower(b[i]));
        }
        if same_but_ascii_case(b, c) {
            assert forall|i: int| 0 <= i < a.len() implies ascii_lower(#[trigger] a[i])
                == ascii_lower(c[i]) by {
                assert(ascii_lower(b[i]) == ascii_lower(c[i]));
            }
        }
    }
}

} // verus!
