//! Laws of path data: a command letter may be left out where it repeats the command in effect.
use vstd::prelude::*;

use super::lexer::{tokens_from, Tok};
use super::path::{
    arity, before, closed, draw, first_gap, followed, pen_at_rest, placed, Coord, Drawn, PathError,
    Pen,
};

verus! {

proof fn lemma_gap_shifts(a: Seq<Tok>, i: int, b: Seq<Tok>, j: int, n: nat)
    requires
        0 <= i <= a.len(),
        0 <= j <= b.len(),
        a.skip(i) == b.skip(j),
        first_gap(a, i, n) is None,
    ensures
        first_gap(b, j, n) is None,
        i + n <= a.len(),
        j + n <= b.len(),
        a.subrange(i, i + n) == b.subrange(j, j + n),
        a.skip(i + n) == b.skip(j + n),
    decreases n,
{
    assert(a.skip(i).len() == a.len() - i && b.skip(j).len() == b.len() - j);
    if n > 0 {
        assert(a[i] == a.skip(i)[0] && b[j] == b.skip(j)[0]);
        assert(a.skip(i + 1) =~= a.skip(i).skip(1));
        assert(b.skip(j + 1) =~= b.skip(j).skip(1));
        lemma_gap_shifts(a, i + 1, b, j + 1, (n - 1) as nat);
        assert(a.subrange(i, i + n) =~= seq![a[i]] + a.subrange(i + 1, i + n));
        assert(b.subrange(j, j + n) =~= seq![b[j]] + b.subrange(j + 1, j + n));
    }
}

/// What is drawn depends on the tokens that are left, not on those before.
proof fn lemma_followed_shifts(a: Seq<Tok>, i: int, b: Seq<Tok>, j: int, pen: Pen)
    requires
        0 <= i <= a.len(),
        0 <= j <= b.len(),
        a.skip(i) == b.skip(j),
        followed(a, i, pen) is Ok,
    ensures
        followed(b, j, pen) == followed(a, i, pen),
    decreases a.len() - i,
{
    assert(a.skip(i).len() == a.len() - i && b.skip(j).len() == b.len() - j);
    if i < a.len() {
        assert(a[i] == a.skip(i)[0] && b[j] == b.skip(j)[0]);
        let (next, k) = match a[i] {
            Tok::Cmd(c) => (Pen { cmd: c, ..pen }, 1int),
            Tok::Num { .. } => (pen, 0int),
        };
        assert(a.skip(i + k) =~= a.skip(i).skip(k));
        assert(b.skip(j + k) =~= b.skip(j).skip(k));
        if a[i] is Cmd && (next.cmd == 'Z' as u8 || next.cmd == 'z' as u8) {
            lemma_followed_shifts(a, i + k, b, j + k, closed(next, next.cmd));
        } else {
            let n = arity(next.cmd)->0;
            lemma_gap_shifts(a, i + k, b, j + k, n);
            let (pen2, d) = draw(next, a.subrange(i + k, i + k + n));
            lemma_followed_shifts(a, i + k + n, b, j + k + n, pen2);
        }
    }
}

/// A letter may be left out where it repeats the command in effect, which behind a move is a
/// line: with or without it, a path draws the same.
pub proof fn repeated_letter_may_be_left_out(toks: Seq<Tok>, i: int, pen: Pen)
    requires
        0 <= i < toks.len(),
        toks[i] is Num,
        followed(toks, i, pen) is Ok,
    ensures
        followed(toks.insert(i, Tok::Cmd(pen.cmd)), i, pen) == followed(toks, i, pen),
{
    let with = toks.insert(i, Tok::Cmd(pen.cmd));
    let n = arity(pen.cmd)->0;
    assert(with.skip(i + 1) =~= toks.skip(i));
    lemma_gap_shifts(toks, i, with, i + 1, n);
    let (pen2, d) = draw(pen, toks.subrange(i, i + n));
    lemma_followed_shifts(toks, i + n, with, i + 1 + n, pen2);
    assert(Pen { cmd: pen.cmd, ..pen } == pen);
}

/// The command in effect behind one occurrence of `cmd`: behind a move it is a line.
pub open spec fn in_effect_after(cmd: u8) -> u8 {
    match cmd as char {
        'M' => 'L' as u8,
        'm' => 'l' as u8,
        _ => cmd,
    }
}

/// The tokens with a letter put in before every group of numbers that has none, `cmd` being in
/// effect before them. (Behind a group that is not complete, nothing is changed.)
pub open spec fn with_letters(toks: Seq<Tok>, cmd: u8) -> Seq<Tok>
    decreases toks.len(),
{
    if toks.len() == 0 {
        seq![]
    } else {
        let (c, k) = match toks[0] {
            Tok::Cmd(c) => (c, 1int),
            Tok::Num { .. } => (cmd, 0int),
        };
        match arity(c) {
            None => if k == 1 {
                seq![toks[0]] + with_letters(toks.skip(1), c)
            } else {
                toks
            },
            Some(n) => if k + n > toks.len() {
                toks
            } else {
                seq![Tok::Cmd(c)] + toks.subrange(k, k + n) + with_letters(
                    toks.skip(k + n),
                    in_effect_after(c),
                )
            },
        }
    }
}

proof fn lemma_gap_copied(a: Seq<Tok>, i: int, b: Seq<Tok>, j: int, n: nat)
    requires
        0 <= i <= a.len(),
        0 <= j,
        j + n <= b.len(),
        first_gap(a, i, n) is None,
        forall|k: int| 0 <= k < n ==> #[trigger] a[i + k] == b[j + k],
    ensures
        i + n <= a.len(),
        first_gap(b, j, n) is None,
    decreases n,
{
    if n > 0 {
        assert(a[i + 0] == b[j + 0]);
        assert forall|k: int| 0 <= k < n - 1 implies #[trigger] a[i + 1 + k] == b[j + 1 + k] by {
            assert(a[i + (1 + k)] == b[j + (1 + k)]);
        }
        lemma_gap_copied(a, i + 1, b, j + 1, (n - 1) as nat);
    }
}

proof fn lemma_gap_room(a: Seq<Tok>, i: int, n: nat)
    requires
        0 <= i <= a.len(),
        first_gap(a, i, n) is None,
    ensures
        i + n <= a.len(),
    decreases n,
{
    if n > 0 {
        lemma_gap_room(a, i + 1, (n - 1) as nat);
    }
}

/// A path draws the same with every letter that is left out put in.
pub proof fn all_letters_may_be_put_in(toks: Seq<Tok>, pen: Pen)
    requires
        followed(toks, 0, pen) is Ok,
    ensures
        followed(with_letters(toks, pen.cmd), 0, pen) == followed(toks, 0, pen),
    decreases toks.len(),
{
    if toks.len() > 0 {
        let full = with_letters(toks, pen.cmd);
        let (next, k) = match toks[0] {
            Tok::Cmd(c) => (Pen { cmd: c, ..pen }, 1int),
            Tok::Num { .. } => (pen, 0int),
        };
        let c = next.cmd;
        if toks[0] is Cmd && (c == 'Z' as u8 || c == 'z' as u8) {
            let rest = toks.skip(1);
            let after = closed(next, c);
            assert(rest.skip(0) =~= toks.skip(1));
            lemma_followed_shifts(toks, 1, rest, 0, after);
            all_letters_may_be_put_in(rest, after);
            let tail = with_letters(rest, c);
            assert(full.skip(1) =~= tail.skip(0));
            lemma_followed_shifts(tail, 0, full, 1, after);
        } else {
            let n = arity(c)->0;
            lemma_gap_room(toks, k, n);
            let rest = toks.skip(k + n);
            let args = toks.subrange(k, k + n);
            let (after, d) = draw(next, args);
            assert(rest.skip(0) =~= toks.skip(k + n));
            lemma_followed_shifts(toks, k + n, rest, 0, after);
            all_letters_may_be_put_in(rest, after);
            assert(after.cmd == in_effect_after(c));
            let tail = with_letters(rest, after.cmd);
            assert(full == seq![Tok::Cmd(c)] + args + tail);
            assert forall|m: int| 0 <= m < n implies #[trigger] toks[k + m] == full[1 + m] by {
                assert(args[m] == toks[k + m]);
            }
            lemma_gap_copied(toks, k, full, 1, n);
            assert(full.subrange(1, 1 + n as int) =~= args);
            assert(full.skip(1 + n as int) =~= tail.skip(0));
            lemma_followed_shifts(tail, 0, full, 1 + n as int, after);
            assert(Pen { cmd: c, ..pen } == next);
        }
    }
}

/// A token by its text: a command letter, or a number as it is written.
pub enum Spelled {
    Cmd(u8),
    Num(Seq<u8>),
}

/// A token of `b` by its text.
pub open spec fn spell(b: Seq<u8>, t: Tok) -> Spelled {
    match t {
        Tok::Cmd(c) => Spelled::Cmd(c),
        Tok::Num { start, end } => Spelled::Num(b.subrange(start as int, end as int)),
    }
}

/// The tokens of `b` by their texts.
pub open spec fn spelled(b: Seq<u8>, toks: Seq<Tok>) -> Seq<Spelled> {
    Seq::new(toks.len(), |i: int| spell(b, toks[i]))
}

/// A coordinate as an expression over numbers as they are written.
pub enum Expr {
    Zero,
    Number(Seq<u8>),
    Sum(Box<Expr>, Box<Expr>),
    Mirror(Box<Expr>, Box<Expr>),
}

/// A segment with its coordinates as they are written.
pub enum Stroke {
    Move(Expr, Expr),
    Line(Expr, Expr),
    Cubic(Expr, Expr, Expr, Expr, Expr, Expr),
    Close,
}

/// A coordinate over `b`, with the numbers as they are written.
pub open spec fn read_coord(b: Seq<u8>, c: Coord) -> Expr
    decreases c,
{
    match c {
        Coord::Zero => Expr::Zero,
        Coord::Number { start, end } => Expr::Number(b.subrange(start as int, end as int)),
        Coord::Sum(p, q) => Expr::Sum(Box::new(read_coord(b, *p)), Box::new(read_coord(b, *q))),
        Coord::Mirror(p, q) => Expr::Mirror(
            Box::new(read_coord(b, *p)),
            Box::new(read_coord(b, *q)),
        ),
    }
}

/// A segment over `b`, with the numbers as they are written.
pub open spec fn read_segment(b: Seq<u8>, d: Drawn) -> Stroke {
    match d {
        Drawn::Move(x, y) => Stroke::Move(read_coord(b, x), read_coord(b, y)),
        Drawn::Line(x, y) => Stroke::Line(read_coord(b, x), read_coord(b, y)),
        Drawn::Cubic(x1, y1, x2, y2, x, y) => Stroke::Cubic(
            read_coord(b, x1),
            read_coord(b, y1),
            read_coord(b, x2),
            read_coord(b, y2),
            read_coord(b, x),
            read_coord(b, y),
        ),
        Drawn::Close => Stroke::Close,
    }
}

/// A drawing over `b`, with the numbers as they are written.
pub open spec fn read_all(b: Seq<u8>, s: Seq<Drawn>) -> Seq<Stroke> {
    Seq::new(s.len(), |i: int| read_segment(b, s[i]))
}

/// Two pens over two texts that are at the same place.
spec fn same_pen(a: Seq<u8>, p: Pen, b: Seq<u8>, q: Pen) -> bool {
    &&& p.cmd == q.cmd
    &&& read_coord(a, p.x) == read_coord(b, q.x)
    &&& read_coord(a, p.y) == read_coord(b, q.y)
    &&& read_coord(a, p.start_x) == read_coord(b, q.start_x)
    &&& read_coord(a, p.start_y) == read_coord(b, q.start_y)
    &&& read_coord(a, p.ctrl_x) == read_coord(b, q.ctrl_x)
    &&& read_coord(a, p.ctrl_y) == read_coord(b, q.ctrl_y)
}

/// The same outcome over two texts.
pub open spec fn same_drawing(
    a: Seq<u8>,
    r: Result<Seq<Drawn>, PathError>,
    b: Seq<u8>,
    s: Result<Seq<Drawn>, PathError>,
) -> bool {
    match (r, s) {
        (Ok(x), Ok(y)) => read_all(a, x) == read_all(b, y),
        (Err(e), Err(f)) => e == f,
        _ => false,
    }
}

/// The two tokens have the same text.
spec fn same_token(a: Seq<u8>, t: Tok, b: Seq<u8>, u: Tok) -> bool {
    match (t, u) {
        (Tok::Cmd(c), Tok::Cmd(d)) => c == d,
        (Tok::Num { start, end }, Tok::Num { start: start2, end: end2 }) => a.subrange(
            start as int,
            end as int,
        ) == b.subrange(start2 as int, end2 as int),
        _ => false,
    }
}

proof fn lemma_same_tokens(a: Seq<u8>, t: Seq<Tok>, b: Seq<u8>, u: Seq<Tok>)
    requires
        spelled(a, t) == spelled(b, u),
    ensures
        t.len() == u.len(),
        forall|i: int| 0 <= i < t.len() ==> #[trigger] same_token(a, t[i], b, u[i]),
{
    assert(spelled(a, t).len() == t.len() && spelled(b, u).len() == u.len());
    assert forall|i: int| 0 <= i < t.len() implies #[trigger] same_token(a, t[i], b, u[i]) by {
        assert(spelled(a, t)[i] == spelled(b, u)[i]);
        assert(spelled(a, t)[i] == spell(a, t[i]));
        assert(spelled(b, u)[i] == spell(b, u[i]));
    }
}

proof fn lemma_same_gap(a: Seq<u8>, t: Seq<Tok>, b: Seq<u8>, u: Seq<Tok>, i: int, n: nat)
    requires
        0 <= i,
        t.len() == u.len(),
        forall|i: int| 0 <= i < t.len() ==> #[trigger] same_token(a, t[i], b, u[i]),
    ensures
        first_gap(t, i, n) == first_gap(u, i, n),
    decreases n,
{
    if n > 0 {
        if i < t.len() {
            assert(same_token(a, t[i], b, u[i]));
        }
        lemma_same_gap(a, t, b, u, i + 1, (n - 1) as nat);
    }
}

proof fn lemma_same_place(
    a: Seq<u8>,
    t: Tok,
    at: Coord,
    b: Seq<u8>,
    u: Tok,
    bt: Coord,
    cmd: u8,
)
    requires
        same_token(a, t, b, u),
        read_coord(a, at) == read_coord(b, bt),
    ensures
        read_coord(a, placed(cmd, t, at)) == read_coord(b, placed(cmd, u, bt)),
{
    reveal_with_fuel(read_coord, 3);
}

proof fn lemma_same_mirror(a: Seq<u8>, x: Coord, c: Coord, b: Seq<u8>, y: Coord, d: Coord)
    requires
        read_coord(a, x) == read_coord(b, y),
        read_coord(a, c) == read_coord(b, d),
    ensures
        read_coord(a, Coord::Mirror(Box::new(x), Box::new(c))) == read_coord(
            b,
            Coord::Mirror(Box::new(y), Box::new(d)),
        ),
{
    reveal_with_fuel(read_coord, 2);
}

proof fn lemma_same_draw(
    a: Seq<u8>,
    p: Pen,
    ta: Seq<Tok>,
    b: Seq<u8>,
    q: Pen,
    tb: Seq<Tok>,
)
    requires
        same_pen(a, p, b, q),
        arity(p.cmd) == Some(ta.len()),
        ta.len() == tb.len(),
        forall|i: int| 0 <= i < ta.len() ==> #[trigger] same_token(a, ta[i], b, tb[i]),
    ensures
        same_pen(a, draw(p, ta).0, b, draw(q, tb).0),
        read_segment(a, draw(p, ta).1) == read_segment(b, draw(q, tb).1),
{
    let c = p.cmd;
    assert forall|i: int| 0 <= i < ta.len() implies #[trigger] read_coord(
        a,
        placed(c, ta[i], p.x),
    ) == read_coord(b, placed(c, tb[i], q.x)) by {
        assert(same_token(a, ta[i], b, tb[i]));
        lemma_same_place(a, ta[i], p.x, b, tb[i], q.x, c);
    }
    assert forall|i: int| 0 <= i < ta.len() implies #[trigger] read_coord(
        a,
        placed(c, ta[i], p.y),
    ) == read_coord(b, placed(c, tb[i], q.y)) by {
        assert(same_token(a, ta[i], b, tb[i]));
        lemma_same_place(a, ta[i], p.y, b, tb[i], q.y, c);
    }
    lemma_same_mirror(a, p.x, p.ctrl_x, b, q.x, q.ctrl_x);
    lemma_same_mirror(a, p.y, p.ctrl_y, b, q.y, q.ctrl_y);
}

proof fn lemma_before_same(
    a: Seq<u8>,
    d: Drawn,
    r: Result<Seq<Drawn>, PathError>,
    b: Seq<u8>,
    e: Drawn,
    s: Result<Seq<Drawn>, PathError>,
)
    requires
        read_segment(a, d) == read_segment(b, e),
        same_drawing(a, r, b, s),
    ensures
        same_drawing(a, before(d, r), b, before(e, s)),
{
    if let (Ok(x), Ok(y)) = (r, s) {
        assert(read_all(a, seq![d] + x) =~= seq![read_segment(a, d)] + read_all(a, x));
        assert(read_all(b, seq![e] + y) =~= seq![read_segment(b, e)] + read_all(b, y));
    }
}

/// Tokens of the same texts draw the same.
proof fn lemma_same_texts_draw_same(
    a: Seq<u8>,
    t: Seq<Tok>,
    p: Pen,
    b: Seq<u8>,
    u: Seq<Tok>,
    q: Pen,
    i: int,
)
    requires
        0 <= i,
        t.len() == u.len(),
        forall|i: int| 0 <= i < t.len() ==> #[trigger] same_token(a, t[i], b, u[i]),
        same_pen(a, p, b, q),
    ensures
        same_drawing(a, followed(t, i, p), b, followed(u, i, q)),
    decreases if i < t.len() { t.len() - i } else { 0 },
{
    if i >= t.len() {
        assert(read_all(a, seq![]) =~= read_all(b, seq![]));
    } else {
        assert(same_token(a, t[i], b, u[i]));
        let (p1, j) = match t[i] {
            Tok::Cmd(c) => (Pen { cmd: c, ..p }, i + 1),
            Tok::Num { .. } => (p, i),
        };
        let (q1, _) = match u[i] {
            Tok::Cmd(c) => (Pen { cmd: c, ..q }, i + 1),
            Tok::Num { .. } => (q, i),
        };
        assert(same_pen(a, p1, b, q1));
        if t[i] is Cmd && (p1.cmd == 'Z' as u8 || p1.cmd == 'z' as u8) {
            let (p2, q2) = (closed(p1, p1.cmd), closed(q1, q1.cmd));
            lemma_same_texts_draw_same(a, t, p2, b, u, q2, j);
            lemma_before_same(
                a,
                Drawn::Close,
                followed(t, j, p2),
                b,
                Drawn::Close,
                followed(u, j, q2),
            );
        } else if let Some(n) = arity(p1.cmd) {
            lemma_same_gap(a, t, b, u, j, n);
            if first_gap(t, j, n) is None {
                lemma_gap_room(t, j, n);
                let (ta, tb) = (t.subrange(j, j + n), u.subrange(j, j + n));
                assert forall|k: int| 0 <= k < ta.len() implies #[trigger] same_token(
                    a,
                    ta[k],
                    b,
                    tb[k],
                ) by {
                    assert(same_token(a, t[j + k], b, u[j + k]));
                }
                lemma_same_draw(a, p1, ta, b, q1, tb);
                let (p2, d) = draw(p1, ta);
                let (q2, e) = draw(q1, tb);
                lemma_same_texts_draw_same(a, t, p2, b, u, q2, j + n);
                lemma_before_same(a, d, followed(t, j + n, p2), b, e, followed(u, j + n, q2));
            }
        }
    }
}

/// Writing out every letter that is left out changes no drawing: if the text `e` has the tokens of
/// the text `d` with those letters put in, and `d` can be followed, both draw the same segments
/// from the same numbers.
pub proof fn letters_written_out_draw_the_same(d: Seq<u8>, e: Seq<u8>)
    requires
        followed(tokens_from(d, 0), 0, pen_at_rest()) is Ok,
        spelled(e, tokens_from(e, 0)) == spelled(
            d,
            with_letters(tokens_from(d, 0), pen_at_rest().cmd),
        ),
    ensures
        followed(tokens_from(e, 0), 0, pen_at_rest()) is Ok,
        same_drawing(
            d,
            followed(tokens_from(d, 0), 0, pen_at_rest()),
            e,
            followed(tokens_from(e, 0), 0, pen_at_rest()),
        ),
{
    let t = tokens_from(d, 0);
    let full = with_letters(t, pen_at_rest().cmd);
    all_letters_may_be_put_in(t, pen_at_rest());
    lemma_same_tokens(d, full, e, tokens_from(e, 0));
    assert(same_pen(d, pen_at_rest(), e, pen_at_rest()));
    lemma_same_texts_draw_same(d, full, pen_at_rest(), e, tokens_from(e, 0), pen_at_rest(), 0);
}

} // verus!
