//! Laws of path data: where the points lie that a path draws.
//!
//! The numbers of the text are given values, and with them every coordinate has one.
use vstd::prelude::*;

use super::lexer::{is_command, Tok};
use super::path::{
    arity, before, closed, draw, drawn, first_gap, followed, placed, resolved, value_ok, Coord,
    Drawn, PathError, Pen, Segment, Value,
};

verus! {

/// A point: x, y.
pub struct Point {
    pub x: int,
    pub y: int,
}

/// A segment as the points it goes through: both control points of a curve, and the end point.
pub enum Figure {
    Move(Point),
    Line(Point),
    Curve(Point, Point, Point),
    Close,
}

/// Values of the numbers of a text, by the bytes they stand in.
pub type Values = spec_fn(usize, usize) -> int;

/// The value of a coordinate.
pub open spec fn worth(c: Coord, v: Values) -> int
    decreases c,
{
    match c {
        Coord::Zero => 0,
        Coord::Number { start, end } => v(start, end),
        Coord::Sum(a, b) => worth(*a, v) + worth(*b, v),
        Coord::Mirror(a, b) => 2 * worth(*a, v) - worth(*b, v),
    }
}

/// The value of a token that is a number.
pub open spec fn number(t: Tok, v: Values) -> int {
    match t {
        Tok::Num { start, end } => v(start, end),
        Tok::Cmd(_) => 0,
    }
}

/// The point with these coordinates.
pub open spec fn point(x: Coord, y: Coord, v: Values) -> Point {
    Point { x: worth(x, v), y: worth(y, v) }
}

/// The points of a segment.
pub open spec fn figure(d: Drawn, v: Values) -> Figure {
    match d {
        Drawn::Move(x, y) => Figure::Move(point(x, y, v)),
        Drawn::Line(x, y) => Figure::Line(point(x, y, v)),
        Drawn::Cubic(x1, y1, x2, y2, x, y) => Figure::Curve(
            point(x1, y1, v),
            point(x2, y2, v),
            point(x, y, v),
        ),
        Drawn::Close => Figure::Close,
    }
}

/// The points of a drawing.
pub open spec fn figures(s: Seq<Drawn>, v: Values) -> Seq<Figure> {
    Seq::new(s.len(), |i: int| figure(s[i], v))
}

/// Where the pen is.
pub open spec fn place(pen: Pen, v: Values) -> Point {
    point(pen.x, pen.y, v)
}

/// Where the pen's subpath began.
pub open spec fn start(pen: Pen, v: Values) -> Point {
    point(pen.start_x, pen.start_y, v)
}

/// The last control point.
pub open spec fn control(pen: Pen, v: Values) -> Point {
    point(pen.ctrl_x, pen.ctrl_y, v)
}

/// `p`, moved by `d`.
pub open spec fn plus(p: Point, d: Point) -> Point {
    Point { x: p.x + d.x, y: p.y + d.y }
}

/// The figure, moved by `d`.
pub open spec fn shifted(f: Figure, d: Point) -> Figure {
    match f {
        Figure::Move(p) => Figure::Move(plus(p, d)),
        Figure::Line(p) => Figure::Line(plus(p, d)),
        Figure::Curve(p, q, r) => Figure::Curve(plus(p, d), plus(q, d), plus(r, d)),
        Figure::Close => Figure::Close,
    }
}

/// The figures, moved by `d`.
pub open spec fn all_shifted(s: Seq<Figure>, d: Point) -> Seq<Figure> {
    Seq::new(s.len(), |i: int| shifted(s[i], d))
}

/// The letter is that of a command relative to the pen.
pub open spec fn is_small(cmd: u8) -> bool {
    let c = cmd as char;
    c == 'm' || c == 'l' || c == 'h' || c == 'v' || c == 'c' || c == 's'
}

/// The same command, not relative.
pub open spec fn capital(cmd: u8) -> u8 {
    match cmd as char {
        'm' => 'M' as u8,
        'l' => 'L' as u8,
        'h' => 'H' as u8,
        'v' => 'V' as u8,
        'c' => 'C' as u8,
        's' => 'S' as u8,
        _ => cmd,
    }
}

/// Number `i` of a command is an x coordinate; otherwise it is a y coordinate.
pub open spec fn is_across(cmd: u8, i: int) -> bool {
    match cmd as char {
        'H' | 'h' => true,
        'V' | 'v' => false,
        _ => i % 2 == 0,
    }
}

/// The value of entry `i` of a value table, worked out from the entries before it: a sum of two of
/// them, or twice the first minus the second.
pub open spec fn entry_worth(values: Seq<Value>, i: int, v: Values) -> int
    decreases i,
{
    if 0 <= i < values.len() && value_ok(values[i], i) {
        match values[i] {
            Value::Zero => 0,
            Value::Number { start, end } => v(start, end),
            Value::Sum(a, b) => entry_worth(values, a as int, v) + entry_worth(values, b as int, v),
            Value::Mirror(a, b) => 2 * entry_worth(values, a as int, v) - entry_worth(
                values,
                b as int,
                v,
            ),
        }
    } else {
        0
    }
}

/// Working out a value table from its first entry to its last gives the coordinates that its
/// entries stand for.
pub proof fn table_is_worth_its_coordinates(values: Seq<Value>, i: int, v: Values)
    ensures
        entry_worth(values, i, v) == worth(resolved(values, i), v),
    decreases i,
{
    if 0 <= i < values.len() && value_ok(values[i], i) {
        match values[i] {
            Value::Sum(a, b) => {
                table_is_worth_its_coordinates(values, a as int, v);
                table_is_worth_its_coordinates(values, b as int, v);
            },
            Value::Mirror(a, b) => {
                table_is_worth_its_coordinates(values, a as int, v);
                table_is_worth_its_coordinates(values, b as int, v);
            },
            _ => {},
        }
    }
}

/// A segment goes through the points at its places of the table, x before y, both control points
/// before the end.
pub proof fn segment_is_at_its_places(values: Seq<Value>, s: Segment, v: Values)
    ensures
        ({
            let at = |x: usize, y: usize|
                Point { x: entry_worth(values, x as int, v), y: entry_worth(values, y as int, v) };
            figure(drawn(values, s), v) == (match s {
                Segment::Move(x, y) => Figure::Move(at(x, y)),
                Segment::Line(x, y) => Figure::Line(at(x, y)),
                Segment::Cubic(x1, y1, x2, y2, x, y) => Figure::Curve(
                    at(x1, y1),
                    at(x2, y2),
                    at(x, y),
                ),
                Segment::Close => Figure::Close,
            })
        }),
{
    match s {
        Segment::Move(x, y) => {
            table_is_worth_its_coordinates(values, x as int, v);
            table_is_worth_its_coordinates(values, y as int, v);
        },
        Segment::Line(x, y) => {
            table_is_worth_its_coordinates(values, x as int, v);
            table_is_worth_its_coordinates(values, y as int, v);
        },
        Segment::Cubic(x1, y1, x2, y2, x, y) => {
            table_is_worth_its_coordinates(values, x1 as int, v);
            table_is_worth_its_coordinates(values, y1 as int, v);
            table_is_worth_its_coordinates(values, x2 as int, v);
            table_is_worth_its_coordinates(values, y2 as int, v);
            table_is_worth_its_coordinates(values, x as int, v);
            table_is_worth_its_coordinates(values, y as int, v);
        },
        Segment::Close => {},
    }
}

/// The letters of path data are the commands that take numbers, and the two that close a subpath;
/// a command takes as many numbers relative to the pen as otherwise.
pub proof fn letters_are_the_commands(cmd: u8)
    ensures
        is_command(cmd) <==> arity(cmd) is Some || cmd == 'Z' as u8 || cmd == 'z' as u8,
        arity(cmd) is Some ==> cmd != 'Z' as u8 && cmd != 'z' as u8,
        is_small(cmd) ==> arity(cmd) is Some && arity(cmd) == arity(capital(cmd)),
        arity(cmd) is Some && !is_small(cmd) ==> capital(cmd) == cmd && (exists|small: u8|
            is_small(small) && #[trigger] capital(small) == cmd),
{
    if arity(cmd) is Some && !is_small(cmd) {
        let small: u8 = (cmd + 32) as u8;
        assert(is_small(small) && capital(small) == cmd);
    }
}

/// Commands in capitals draw through exactly the points that their numbers give, in order; a line
/// across or down keeps the other coordinate, and the first control point of a smooth curve lies
/// opposite to the last one, with the pen halfway between them.
#[verifier::rlimit(40)]
pub proof fn capitals_draw_their_numbers(pen: Pen, args: Seq<Tok>, v: Values)
    requires
        arity(pen.cmd) == Some(args.len()),
        !is_small(pen.cmd),
    ensures
        ({
            let f = figure(draw(pen, args).1, v);
            let n = |i: int| number(args[i], v);
            match pen.cmd as char {
                'M' => args.len() == 2 && f == Figure::Move(Point { x: n(0), y: n(1) }),
                'L' => args.len() == 2 && f == Figure::Line(Point { x: n(0), y: n(1) }),
                'H' => args.len() == 1 && f == Figure::Line(
                    Point { x: n(0), y: place(pen, v).y },
                ),
                'V' => args.len() == 1 && f == Figure::Line(
                    Point { x: place(pen, v).x, y: n(0) },
                ),
                'C' => args.len() == 6 && f == Figure::Curve(
                    Point { x: n(0), y: n(1) },
                    Point { x: n(2), y: n(3) },
                    Point { x: n(4), y: n(5) },
                ),
                'S' => args.len() == 4 && (f matches Figure::Curve(first, second, end) && plus(
                    first,
                    control(pen, v),
                ) == plus(place(pen, v), place(pen, v)) && second == (Point {
                    x: n(0),
                    y: n(1),
                }) && end == (Point { x: n(2), y: n(3) })),
                _ => false,
            }
        }),
{
}

/// A relative command draws what the command in capitals draws with the pen's point added to its
/// numbers, and leaves the pen, its last control point and the start of its subpath where that
/// one does.
#[verifier::rlimit(40)]
pub proof fn relative_numbers_count_from_the_pen(
    p: Pen,
    args: Seq<Tok>,
    v: Values,
    q: Pen,
    sums: Seq<Tok>,
    w: Values,
)
    requires
        is_small(p.cmd),
        q.cmd == capital(p.cmd),
        arity(p.cmd) == Some(args.len()),
        sums.len() == args.len(),
        place(q, w) == place(p, v),
        start(q, w) == start(p, v),
        control(q, w) == control(p, v),
        forall|i: int|
            0 <= i < args.len() ==> number(#[trigger] sums[i], w) == number(args[i], v) + (
            if is_across(p.cmd, i) {
                place(p, v).x
            } else {
                place(p, v).y
            }),
    ensures
        figure(draw(p, args).1, v) == figure(draw(q, sums).1, w),
        place(draw(p, args).0, v) == place(draw(q, sums).0, w),
        control(draw(p, args).0, v) == control(draw(q, sums).0, w),
        start(draw(p, args).0, v) == start(draw(q, sums).0, w),
        is_small(draw(p, args).0.cmd),
        capital(draw(p, args).0.cmd) == draw(q, sums).0.cmd,
{
    reveal_with_fuel(worth, 2);
}

/// The pen ends where the segment ends. The last control point is the second one of a curve, and
/// the end of anything else. A move begins a subpath and is followed by lines; anything else keeps
/// the start of the subpath and the command.
pub proof fn pen_follows_the_segment(pen: Pen, args: Seq<Tok>, v: Values)
    requires
        arity(pen.cmd) == Some(args.len()),
    ensures
        ({
            let (after, d) = draw(pen, args);
            match figure(d, v) {
                Figure::Move(end) => {
                    &&& place(after, v) == end && control(after, v) == end && start(after, v) == end
                    &&& pen.cmd == 'm' as u8 ==> after.cmd == 'l' as u8
                    &&& pen.cmd == 'M' as u8 ==> after.cmd == 'L' as u8
                },
                Figure::Line(end) => {
                    &&& place(after, v) == end && control(after, v) == end
                    &&& start(after, v) == start(pen, v) && after.cmd == pen.cmd
                },
                Figure::Curve(_, second, end) => {
                    &&& place(after, v) == end && control(after, v) == second
                    &&& start(after, v) == start(pen, v) && after.cmd == pen.cmd
                },
                Figure::Close => false,
            }
        }),
{
}

/// Closing a subpath draws no point and takes the pen, and the last control point, back to where
/// the subpath began.
pub proof fn closing_goes_back(toks: Seq<Tok>, i: int, pen: Pen, v: Values)
    requires
        0 <= i < toks.len(),
        toks[i] == Tok::Cmd('Z' as u8) || toks[i] == Tok::Cmd('z' as u8),
    ensures
        exists|back: Pen|
            {
                &&& place(back, v) == start(pen, v)
                &&& control(back, v) == start(pen, v)
                &&& start(back, v) == start(pen, v)
                &&& followed(toks, i, pen) == before(Drawn::Close, #[trigger] followed(
                    toks,
                    i + 1,
                    back,
                ))
            },
{
    let c = toks[i]->Cmd_0;
    let there = Pen { cmd: c, ..pen };
    let back = closed(there, c);
    assert(followed(toks, i, pen) == before(Drawn::Close, followed(toks, i + 1, back)));
    assert(place(back, v) == start(pen, v));
}

/// The pen is where the segment `f` leaves it, in a subpath that began at `began`.
pub open spec fn left_by(pen: Pen, v: Values, f: Figure, began: Point) -> bool {
    match f {
        Figure::Move(end) => place(pen, v) == end && start(pen, v) == end && control(pen, v) == end,
        Figure::Line(end) => place(pen, v) == end && start(pen, v) == began && control(pen, v)
            == end,
        Figure::Curve(_, second, end) => place(pen, v) == end && start(pen, v) == began && control(
            pen,
            v,
        ) == second,
        Figure::Close => place(pen, v) == began && start(pen, v) == began && control(pen, v)
            == began,
    }
}

/// Where the letter at `i`, if there is one, and the numbers of its command end; `cmd` is in effect
/// before them.
pub open spec fn group_end(toks: Seq<Tok>, i: int, cmd: u8) -> int {
    let (c, j) = match toks[i] {
        Tok::Cmd(c) => (c, i + 1),
        Tok::Num { .. } => (cmd, i),
    };
    match arity(c) {
        Some(n) => j + n,
        None => j,
    }
}

/// The first segment of a path is drawn from its own numbers, and the path goes on where it ends:
/// what follows those numbers is drawn with the pen there, the last control point that of a curve, and the subpath the same unless the
/// segment began or closed one.
pub proof fn path_goes_on_where_it_was(toks: Seq<Tok>, i: int, pen: Pen, v: Values)
    requires
        0 <= i < toks.len(),
        followed(toks, i, pen) is Ok,
    ensures
        ({
            let all = followed(toks, i, pen)->Ok_0;
            let (cmd, j) = match toks[i] {
                Tok::Cmd(c) => (c, i + 1),
                Tok::Num { .. } => (pen.cmd, i),
            };
            &&& all.len() > 0
            &&& i < group_end(toks, i, pen.cmd) <= toks.len()
            &&& arity(cmd) matches Some(n) ==> all[0] == draw(
                Pen { cmd, ..pen },
                toks.subrange(j, j + n),
            ).1
            &&& arity(cmd) is None ==> all[0] is Close
            &&& exists|after: Pen|
                {
                    &&& left_by(after, v, figure(all[0], v), start(pen, v))
                    &&& #[trigger] followed(toks, group_end(toks, i, pen.cmd), after) == Ok::<
                        Seq<Drawn>,
                        PathError,
                    >(all.skip(1))
                }
        }),
{
    let all = followed(toks, i, pen)->Ok_0;
    let (p1, j) = match toks[i] {
        Tok::Cmd(c) => (Pen { cmd: c, ..pen }, i + 1),
        Tok::Num { .. } => (pen, i),
    };
    if toks[i] is Cmd && (p1.cmd == 'Z' as u8 || p1.cmd == 'z' as u8) {
        let after = closed(p1, p1.cmd);
        let rest = followed(toks, j, after)->Ok_0;
        assert(all == seq![Drawn::Close] + rest);
        assert(all.skip(1) =~= rest);
        assert(left_by(after, v, figure(all[0], v), start(pen, v)));
        assert(followed(toks, group_end(toks, i, pen.cmd), after) == Ok::<Seq<Drawn>, PathError>(
            all.skip(1),
        ));
    } else {
        let n = arity(p1.cmd)->0;
        lemma_no_gap(toks, j, n);
        let args = toks.subrange(j, j + n);
        pen_follows_the_segment(p1, args, v);
        let (after, d) = draw(p1, args);
        let rest = followed(toks, j + n, after)->Ok_0;
        assert(all == seq![d] + rest);
        assert(all.skip(1) =~= rest);
        assert(left_by(after, v, figure(all[0], v), start(pen, v)));
        assert(followed(toks, group_end(toks, i, pen.cmd), after) == Ok::<Seq<Drawn>, PathError>(
            all.skip(1),
        ));
    }
}

/// The coordinates of a figure's points, in order.
pub open spec fn coordinates(f: Figure) -> Seq<int> {
    match f {
        Figure::Move(p) => seq![p.x, p.y],
        Figure::Line(p) => seq![p.x, p.y],
        Figure::Curve(p, q, r) => seq![p.x, p.y, q.x, q.y, r.x, r.y],
        Figure::Close => seq![],
    }
}

/// The coordinates of all segments, one after the other.
pub open spec fn all_coordinates(s: Seq<Drawn>, v: Values) -> Seq<int>
    decreases s.len(),
{
    if s.len() == 0 {
        seq![]
    } else {
        coordinates(figure(s[0], v)) + all_coordinates(s.skip(1), v)
    }
}

/// The numbers among the tokens from `i` on, in order.
pub open spec fn numbers_from(toks: Seq<Tok>, i: int, v: Values) -> Seq<int>
    decreases toks.len() - i,
{
    if i < 0 || i >= toks.len() {
        seq![]
    } else if toks[i] is Num {
        seq![number(toks[i], v)] + numbers_from(toks, i + 1, v)
    } else {
        numbers_from(toks, i + 1, v)
    }
}

/// The command takes whole points that are not relative to the pen, or closes the subpath.
pub open spec fn takes_points(cmd: u8) -> bool {
    let c = cmd as char;
    c == 'M' || c == 'L' || c == 'C' || c == 'Z' || c == 'z'
}

proof fn lemma_numbers_in_order(toks: Seq<Tok>, i: int, n: nat, v: Values)
    requires
        0 <= i,
        i + n <= toks.len(),
        forall|k: int| i <= k < i + n ==> (#[trigger] toks[k]) is Num,
    ensures
        numbers_from(toks, i, v) == Seq::new(n, |k: int| number(toks[i + k], v)) + numbers_from(
            toks,
            i + n,
            v,
        ),
    decreases n,
{
    let front = Seq::new(n, |k: int| number(toks[i + k], v));
    if n == 0 {
        assert(front + numbers_from(toks, i, v) =~= numbers_from(toks, i, v));
    } else {
        let m = (n - 1) as nat;
        lemma_numbers_in_order(toks, i + 1, m, v);
        let rest = Seq::new(m, |k: int| number(toks[i + 1 + k], v));
        assert(front =~= seq![number(toks[i], v)] + rest);
        assert(toks[i] is Num);
        assert(seq![number(toks[i], v)] + (rest + numbers_from(toks, i + n, v)) =~= front
            + numbers_from(toks, i + n, v));
    }
}

/// A path of moves, lines and curves in capitals goes through exactly the points that its numbers
/// give, in the order of the text: none is left out, added or moved.
pub proof fn absolute_path_draws_its_numbers(toks: Seq<Tok>, i: int, pen: Pen, v: Values)
    requires
        0 <= i <= toks.len(),
        forall|k: int|
            0 <= k < toks.len() ==> (#[trigger] toks[k] matches Tok::Cmd(c) ==> takes_points(c)),
        takes_points(pen.cmd) || arity(pen.cmd) is None,
        followed(toks, i, pen) is Ok,
    ensures
        all_coordinates(followed(toks, i, pen)->Ok_0, v) == numbers_from(toks, i, v),
    decreases toks.len() - i,
{
    if i < toks.len() {
        let all = followed(toks, i, pen)->Ok_0;
        let (p1, j) = match toks[i] {
            Tok::Cmd(c) => (Pen { cmd: c, ..pen }, i + 1),
            Tok::Num { .. } => (pen, i),
        };
        assert(toks[i] matches Tok::Cmd(c) ==> takes_points(c));
        if toks[i] is Cmd && (p1.cmd == 'Z' as u8 || p1.cmd == 'z' as u8) {
            let after = closed(p1, p1.cmd);
            let rest = followed(toks, j, after)->Ok_0;
            absolute_path_draws_its_numbers(toks, j, after, v);
            assert(all == seq![Drawn::Close] + rest);
            assert(all.skip(1) =~= rest);
            assert(seq![] + all_coordinates(rest, v) =~= all_coordinates(rest, v));
        } else {
            let n = arity(p1.cmd)->0;
            lemma_no_gap(toks, j, n);
            let args = toks.subrange(j, j + n);
            let (after, d) = draw(p1, args);
            let rest = followed(toks, j + n, after)->Ok_0;
            capitals_draw_their_numbers(p1, args, v);
            absolute_path_draws_its_numbers(toks, j + n, after, v);
            lemma_numbers_in_order(toks, j, n, v);
            assert(all == seq![d] + rest);
            assert(all.skip(1) =~= rest);
            assert(coordinates(figure(d, v)) =~= Seq::new(n, |k: int| number(toks[j + k], v)));
        }
    }
}

/// All letters among the tokens are relative, or close the subpath.
pub open spec fn all_small(toks: Seq<Tok>) -> bool {
    forall|i: int|
        0 <= i < toks.len() ==> (#[trigger] toks[i] matches Tok::Cmd(c) ==> is_small(c) || c
            == 'z' as u8 || c == 'Z' as u8)
}

/// The pens differ in that `q` is `d` further on.
pub open spec fn pen_moved(p: Pen, v: Values, q: Pen, d: Point) -> bool {
    &&& p.cmd == q.cmd
    &&& place(q, v) == plus(place(p, v), d)
    &&& start(q, v) == plus(start(p, v), d)
    &&& control(q, v) == plus(control(p, v), d)
}

proof fn lemma_small_placed(cmd: u8, t: Tok, at: Coord, v: Values)
    requires
        is_small(cmd),
    ensures
        worth(placed(cmd, t, at), v) == number(t, v) + worth(at, v),
{
    reveal_with_fuel(worth, 2);
}

/// The coordinates that a number stands for move with the pen.
spec fn placed_moves(p: Pen, q: Pen, t: Tok, v: Values, d: Point) -> bool {
    &&& worth(placed(p.cmd, t, q.x), v) == worth(placed(p.cmd, t, p.x), v) + d.x
    &&& worth(placed(p.cmd, t, q.y), v) == worth(placed(p.cmd, t, p.y), v) + d.y
}

#[verifier::spinoff_prover]
#[verifier::rlimit(40)]
proof fn lemma_draw_moves(p: Pen, q: Pen, args: Seq<Tok>, v: Values, d: Point)
    requires
        is_small(p.cmd),
        arity(p.cmd) == Some(args.len()),
        pen_moved(p, v, q, d),
    ensures
        pen_moved(draw(p, args).0, v, draw(q, args).0, d),
        is_small(draw(p, args).0.cmd),
        figure(draw(q, args).1, v) == shifted(figure(draw(p, args).1, v), d),
{
    let n = args.len();
    assert forall|i: int| 0 <= i < n implies #[trigger] placed_moves(p, q, args[i], v, d) by {
        lemma_small_placed(p.cmd, args[i], p.x, v);
        lemma_small_placed(p.cmd, args[i], p.y, v);
        lemma_small_placed(p.cmd, args[i], q.x, v);
        lemma_small_placed(p.cmd, args[i], q.y, v);
    }
    assert(n > 0 ==> placed_moves(p, q, args[0], v, d));
    assert(n > 1 ==> placed_moves(p, q, args[1], v, d));
    assert(n > 2 ==> placed_moves(p, q, args[2], v, d));
    assert(n > 3 ==> placed_moves(p, q, args[3], v, d));
    assert(n > 4 ==> placed_moves(p, q, args[4], v, d));
    assert(n > 5 ==> placed_moves(p, q, args[5], v, d));
}

proof fn lemma_before_moves(
    a: Drawn,
    r: Result<Seq<Drawn>, PathError>,
    b: Drawn,
    s: Result<Seq<Drawn>, PathError>,
    v: Values,
    d: Point,
)
    requires
        figure(b, v) == shifted(figure(a, v), d),
        drawn_moved(r, s, v, d),
    ensures
        drawn_moved(before(a, r), before(b, s), v, d),
{
    if let (Ok(x), Ok(y)) = (r, s) {
        let fx = figures(seq![a] + x, v);
        let fy = figures(seq![b] + y, v);
        assert(figures(y, v).len() == all_shifted(figures(x, v), d).len());
        assert forall|i: int| 0 <= i < fy.len() implies fy[i] == all_shifted(fx, d)[i] by {
            if i > 0 {
                assert(figures(y, v)[i - 1] == all_shifted(figures(x, v), d)[i - 1]);
            }
        }
        assert(fy =~= all_shifted(fx, d));
    }
}

/// `s` is the drawing `r`, moved by `d`, or the same refusal.
pub open spec fn drawn_moved(
    r: Result<Seq<Drawn>, PathError>,
    s: Result<Seq<Drawn>, PathError>,
    v: Values,
    d: Point,
) -> bool {
    match (r, s) {
        (Ok(x), Ok(y)) => figures(y, v) == all_shifted(figures(x, v), d),
        (Err(e), Err(f)) => e == f,
        _ => false,
    }
}

/// Moving the pen moves the whole drawing of a relative path, and changes nothing else of it.
pub proof fn relative_path_moves_with_the_pen(
    toks: Seq<Tok>,
    i: int,
    p: Pen,
    q: Pen,
    v: Values,
    d: Point,
)
    requires
        0 <= i,
        all_small(toks),
        is_small(p.cmd) || arity(p.cmd) is None,
        pen_moved(p, v, q, d),
    ensures
        drawn_moved(followed(toks, i, p), followed(toks, i, q), v, d),
    decreases
            if i < toks.len() {
                toks.len() - i
            } else {
                0
            },
{
    if i < toks.len() {
        let (p1, q1, j) = match toks[i] {
            Tok::Cmd(c) => (Pen { cmd: c, ..p }, Pen { cmd: c, ..q }, i + 1),
            Tok::Num { .. } => (p, q, i),
        };
        if toks[i] is Cmd && (p1.cmd == 'Z' as u8 || p1.cmd == 'z' as u8) {
            let p2 = closed(p1, p1.cmd);
            let q2 = closed(q1, q1.cmd);
            relative_path_moves_with_the_pen(toks, j, p2, q2, v, d);
            lemma_before_moves(
                Drawn::Close,
                followed(toks, j, p2),
                Drawn::Close,
                followed(toks, j, q2),
                v,
                d,
            );
        } else if let Some(n) = arity(p1.cmd) {
            if first_gap(toks, j, n) is None {
                lemma_no_gap(toks, j, n);
                let args = toks.subrange(j, j + n);
                lemma_draw_moves(p1, q1, args, v, d);
                let (p2, a) = draw(p1, args);
                let (q2, b) = draw(q1, args);
                relative_path_moves_with_the_pen(toks, j + n, p2, q2, v, d);
                lemma_before_moves(a, followed(toks, j + n, p2), b, followed(toks, j + n, q2), v, d);
            }
        }
    } else {
        assert(figures(seq![], v) =~= all_shifted(figures(seq![], v), d));
    }
}

proof fn lemma_no_gap(toks: Seq<Tok>, i: int, n: nat)
    requires
        0 <= i <= toks.len(),
        first_gap(toks, i, n) is None,
    ensures
        i + n <= toks.len(),
        forall|k: int| i <= k < i + n ==> (#[trigger] toks[k]) is Num,
    decreases n,
{
    if n > 0 {
        lemma_no_gap(toks, i + 1, (n - 1) as nat);
    }
}

proof fn lemma_gap(toks: Seq<Tok>, i: int, n: nat, k: int)
    requires
        0 <= i <= toks.len(),
        first_gap(toks, i, n) == Some(k),
    ensures
        i <= k <= toks.len(),
        k < i + n,
        k < toks.len() ==> toks[k] is Cmd,
        forall|l: int| i <= l < k ==> (#[trigger] toks[l]) is Num,
    decreases n,
{
    if i < toks.len() && toks[i] is Num {
        lemma_gap(toks, i + 1, (n - 1) as nat, k);
    }
}

/// A refused path is refused for a reason that is there: the token named is missing, or a letter
/// where a number has to stand; the command named takes no numbers.
pub proof fn refusals_are_true(toks: Seq<Tok>, i: int, pen: Pen)
    requires
        0 <= i <= toks.len() <= usize::MAX,
    ensures
        followed(toks, i, pen) matches Err(PathError::ExpectedNumber(k)) ==> i <= k <= toks.len()
            && (k < toks.len() ==> toks[k as int] is Cmd),
        followed(toks, i, pen) matches Err(PathError::UnsupportedCommand(c)) ==> arity(c) is None
            && (c == pen.cmd || exists|k: int| i <= k < toks.len() && #[trigger] toks[k] == Tok::Cmd(c)),
    decreases toks.len() - i,
{
    if i < toks.len() {
        let (p1, j) = match toks[i] {
            Tok::Cmd(c) => (Pen { cmd: c, ..pen }, i + 1),
            Tok::Num { .. } => (pen, i),
        };
        if toks[i] is Cmd && (p1.cmd == 'Z' as u8 || p1.cmd == 'z' as u8) {
            let p2 = closed(p1, p1.cmd);
            refusals_are_true(toks, j, p2);
            assert(toks[i] == Tok::Cmd(p1.cmd));
        } else if let Some(n) = arity(p1.cmd) {
            match first_gap(toks, j, n) {
                None => {
                    lemma_no_gap(toks, j, n);
                    let (p2, a) = draw(p1, toks.subrange(j, j + n));
                    refusals_are_true(toks, j + n, p2);
                    assert(arity(p2.cmd) is Some);
                    assert(toks[i] is Cmd ==> toks[i] == Tok::Cmd(p1.cmd));
                },
                Some(k) => {
                    lemma_gap(toks, j, n, k);
                },
            }
        } else {
            assert(toks[i] is Cmd ==> toks[i] == Tok::Cmd(p1.cmd));
        }
    }
}

} // verus!
