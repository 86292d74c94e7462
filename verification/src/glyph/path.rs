//! Following SVG path data: which segments it draws, and how each coordinate follows from the
//! numbers in the text.
//!
//! Coordinates are kept symbolic. A drawing is a table of values, each made of a number in the
//! text or of earlier values, and a list of segments whose coordinates are places in that table.
use vstd::prelude::*;
use vstd::string::*;

use super::lexer::{tokenize, tokens_from, Tok};

verus! {

/// One entry of the value table; `usize` operands are places of earlier entries.
#[derive(Clone, Copy, Debug, PartialEq, Eq, Structural)]
pub enum Value {
    /// 0.
    Zero,
    /// The number in bytes `start..end` of the path data.
    Number { start: usize, end: usize },
    /// The first operand plus the second.
    Sum(usize, usize),
    /// Twice the first operand minus the second: the second mirrored at the first.
    Mirror(usize, usize),
}

/// One segment; coordinates are places in the value table, x before y.
#[derive(Clone, Copy, Debug, PartialEq, Eq, Structural)]
pub enum Segment {
    Move(usize, usize),
    Line(usize, usize),
    /// First control point, second control point, end point.
    Cubic(usize, usize, usize, usize, usize, usize),
    Close,
}

/// A value table and the segments drawn with it.
#[derive(Debug)]
pub struct Drawing {
    pub values: Vec<Value>,
    pub segments: Vec<Segment>,
}

/// Why path data cannot be followed.
#[derive(Clone, Copy, Debug, PartialEq, Eq, Structural)]
pub enum PathError {
    /// The token with this index had to be a number (it is a command letter, or missing).
    ExpectedNumber(usize),
    /// Numbers follow this command letter (0: no letter at all), which takes none.
    UnsupportedCommand(u8),
}

/// A coordinate as an expression over the numbers in the text.
pub enum Coord {
    Zero,
    Number { start: usize, end: usize },
    Sum(Box<Coord>, Box<Coord>),
    Mirror(Box<Coord>, Box<Coord>),
}

/// A segment with its coordinates written out.
pub enum Drawn {
    Move(Coord, Coord),
    Line(Coord, Coord),
    Cubic(Coord, Coord, Coord, Coord, Coord, Coord),
    Close,
}

/// Where the pen is while a path is followed: the command in effect, the current point, the start
/// of the subpath and the last control point.
pub struct Pen {
    pub cmd: u8,
    pub x: Coord,
    pub y: Coord,
    pub start_x: Coord,
    pub start_y: Coord,
    pub ctrl_x: Coord,
    pub ctrl_y: Coord,
}

/// The pen before the first token.
pub open spec fn pen_at_rest() -> Pen {
    Pen {
        cmd: 0,
        x: Coord::Zero,
        y: Coord::Zero,
        start_x: Coord::Zero,
        start_y: Coord::Zero,
        ctrl_x: Coord::Zero,
        ctrl_y: Coord::Zero,
    }
}

/// How many numbers one occurrence of a command takes.
pub open spec fn arity(cmd: u8) -> Option<nat> {
    match cmd as char {
        'M' | 'm' | 'L' | 'l' => Some(2),
        'H' | 'h' | 'V' | 'v' => Some(1),
        'C' | 'c' => Some(6),
        'S' | 's' => Some(4),
        _ => None,
    }
}

/// Lower-case commands are relative to the current point.
pub open spec fn relative(cmd: u8) -> bool {
    cmd >= 'a' as u8
}

/// The coordinate that a number stands for, given the pen's coordinate on that axis.
pub open spec fn placed(cmd: u8, t: Tok, at: Coord) -> Coord {
    let n = match t {
        Tok::Num { start, end } => Coord::Number { start, end },
        Tok::Cmd(_) => Coord::Zero,
    };
    if relative(cmd) {
        Coord::Sum(Box::new(n), Box::new(at))
    } else {
        n
    }
}

/// The pen moved to a point, which is also where the last control point is then.
pub open spec fn moved(pen: Pen, x: Coord, y: Coord) -> Pen {
    Pen { x, y, ctrl_x: x, ctrl_y: y, ..pen }
}

/// One command with its numbers: the pen afterwards and the segment drawn.
pub open spec fn draw(pen: Pen, args: Seq<Tok>) -> (Pen, Drawn) {
    let c = pen.cmd;
    match c as char {
        'M' | 'm' => {
            let x = placed(c, args[0], pen.x);
            let y = placed(c, args[1], pen.y);
            (
                Pen {
                    cmd: if relative(c) {
                        'l' as u8
                    } else {
                        'L' as u8
                    },
                    start_x: x,
                    start_y: y,
                    ..moved(pen, x, y)
                },
                Drawn::Move(x, y),
            )
        },
        'L' | 'l' => {
            let x = placed(c, args[0], pen.x);
            let y = placed(c, args[1], pen.y);
            (moved(pen, x, y), Drawn::Line(x, y))
        },
        'H' | 'h' => {
            let x = placed(c, args[0], pen.x);
            (moved(pen, x, pen.y), Drawn::Line(x, pen.y))
        },
        'V' | 'v' => {
            let y = placed(c, args[0], pen.y);
            (moved(pen, pen.x, y), Drawn::Line(pen.x, y))
        },
        'C' | 'c' => {
            let x1 = placed(c, args[0], pen.x);
            let y1 = placed(c, args[1], pen.y);
            let x2 = placed(c, args[2], pen.x);
            let y2 = placed(c, args[3], pen.y);
            let x = placed(c, args[4], pen.x);
            let y = placed(c, args[5], pen.y);
            (Pen { x, y, ctrl_x: x2, ctrl_y: y2, ..pen }, Drawn::Cubic(x1, y1, x2, y2, x, y))
        },
        _ => {
            // S, s: the first control point is the last one mirrored at the current point.
            let x1 = Coord::Mirror(Box::new(pen.x), Box::new(pen.ctrl_x));
            let y1 = Coord::Mirror(Box::new(pen.y), Box::new(pen.ctrl_y));
            let x2 = placed(c, args[0], pen.x);
            let y2 = placed(c, args[1], pen.y);
            let x = placed(c, args[2], pen.x);
            let y = placed(c, args[3], pen.y);
            (Pen { x, y, ctrl_x: x2, ctrl_y: y2, ..pen }, Drawn::Cubic(x1, y1, x2, y2, x, y))
        },
    }
}

/// The pen after closing the subpath: back at its start.
pub open spec fn closed(pen: Pen, cmd: u8) -> Pen {
    Pen { cmd, ..moved(pen, pen.start_x, pen.start_y) }
}

/// The first of the tokens `i..i + n` that is not a number.
pub open spec fn first_gap(toks: Seq<Tok>, i: int, n: nat) -> Option<int>
    decreases n,
{
    if n == 0 {
        None
    } else if i < toks.len() && toks[i] is Num {
        first_gap(toks, i + 1, (n - 1) as nat)
    } else {
        Some(i)
    }
}

/// `first`, then what follows.
pub open spec fn before(first: Drawn, rest: Result<Seq<Drawn>, PathError>) -> Result<
    Seq<Drawn>,
    PathError,
> {
    match rest {
        Ok(s) => Ok(seq![first] + s),
        Err(e) => Err(e),
    }
}

/// What the tokens `i..` draw. A letter sets the command; `Z` and `z` close the subpath; numbers
/// without a letter repeat the command in effect.
pub open spec fn followed(toks: Seq<Tok>, i: int, pen: Pen) -> Result<Seq<Drawn>, PathError>
    decreases
            if i < toks.len() {
                toks.len() - i
            } else {
                0
            },
{
    if i >= toks.len() {
        Ok(seq![])
    } else {
        let (pen, j) = match toks[i] {
            Tok::Cmd(c) => (Pen { cmd: c, ..pen }, i + 1),
            Tok::Num { .. } => (pen, i),
        };
        if toks[i] is Cmd && (pen.cmd == 'Z' as u8 || pen.cmd == 'z' as u8) {
            before(Drawn::Close, followed(toks, j, closed(pen, pen.cmd)))
        } else {
            match arity(pen.cmd) {
                None => Err(PathError::UnsupportedCommand(pen.cmd)),
                Some(n) => match first_gap(toks, j, n) {
                    Some(k) => Err(PathError::ExpectedNumber(k as usize)),
                    None => {
                        let (pen2, d) = draw(pen, toks.subrange(j, j + n));
                        before(d, followed(toks, j + n, pen2))
                    },
                },
            }
        }
    }
}

/// Every entry refers only to earlier ones.
pub open spec fn table_ok(values: Seq<Value>) -> bool {
    forall|i: int| 0 <= i < values.len() ==> value_ok(#[trigger] values[i], i)
}

pub open spec fn value_ok(v: Value, i: int) -> bool {
    match v {
        Value::Sum(a, b) => a < i && b < i,
        Value::Mirror(a, b) => a < i && b < i,
        _ => true,
    }
}

/// The coordinate at place `i` of the table, written out.
pub open spec fn resolved(values: Seq<Value>, i: int) -> Coord
    decreases i,
{
    if 0 <= i < values.len() && value_ok(values[i], i) {
        match values[i] {
            Value::Zero => Coord::Zero,
            Value::Number { start, end } => Coord::Number { start, end },
            Value::Sum(a, b) => Coord::Sum(
                Box::new(resolved(values, a as int)),
                Box::new(resolved(values, b as int)),
            ),
            Value::Mirror(a, b) => Coord::Mirror(
                Box::new(resolved(values, a as int)),
                Box::new(resolved(values, b as int)),
            ),
        }
    } else {
        Coord::Zero
    }
}

/// The segment's places lie in a table of `n` entries.
pub open spec fn segment_ok(s: Segment, n: int) -> bool {
    match s {
        Segment::Move(x, y) => x < n && y < n,
        Segment::Line(x, y) => x < n && y < n,
        Segment::Cubic(x1, y1, x2, y2, x, y) => x1 < n && y1 < n && x2 < n && y2 < n && x < n && y
            < n,
        Segment::Close => true,
    }
}

/// The segment with its coordinates written out.
pub open spec fn drawn(values: Seq<Value>, s: Segment) -> Drawn {
    match s {
        Segment::Move(x, y) => Drawn::Move(
            resolved(values, x as int),
            resolved(values, y as int),
        ),
        Segment::Line(x, y) => Drawn::Line(
            resolved(values, x as int),
            resolved(values, y as int),
        ),
        Segment::Cubic(x1, y1, x2, y2, x, y) => Drawn::Cubic(
            resolved(values, x1 as int),
            resolved(values, y1 as int),
            resolved(values, x2 as int),
            resolved(values, y2 as int),
            resolved(values, x as int),
            resolved(values, y as int),
        ),
        Segment::Close => Drawn::Close,
    }
}

impl Drawing {
    /// Values refer to earlier values only and segments to values only, so the table can be
    /// evaluated from its first entry to its last.
    pub open spec fn wf(self) -> bool {
        &&& table_ok(self.values@)
        &&& forall|i: int|
            0 <= i < self.segments@.len() ==> segment_ok(
                #[trigger] self.segments@[i],
                self.values@.len() as int,
            )
    }

    /// The segments with their coordinates written out.
    pub open spec fn view(self) -> Seq<Drawn> {
        Seq::new(self.segments@.len(), |i: int| drawn(self.values@, self.segments@[i]))
    }
}

proof fn lemma_resolved_grows(values: Seq<Value>, v: Value, i: int)
    requires
        table_ok(values),
        0 <= i < values.len(),
    ensures
        resolved(values.push(v), i) == resolved(values, i),
    decreases i,
{
    assert(value_ok(values[i], i));
    match values[i] {
        Value::Sum(a, b) => {
            lemma_resolved_grows(values, v, a as int);
            lemma_resolved_grows(values, v, b as int);
        },
        Value::Mirror(a, b) => {
            lemma_resolved_grows(values, v, a as int);
            lemma_resolved_grows(values, v, b as int);
        },
        _ => {},
    }
}

/// A drawing in progress, and the pen as places in its table.
struct Walker {
    d: Drawing,
    cmd: u8,
    x: usize,
    y: usize,
    start_x: usize,
    start_y: usize,
    ctrl_x: usize,
    ctrl_y: usize,
}

impl Walker {
    spec fn wf(self) -> bool {
        let n = self.d.values@.len();
        &&& self.d.wf()
        &&& self.x < n && self.y < n
        &&& self.start_x < n && self.start_y < n
        &&& self.ctrl_x < n && self.ctrl_y < n
    }

    spec fn at(self, i: usize) -> Coord {
        resolved(self.d.values@, i as int)
    }

    spec fn pen(self) -> Pen {
        Pen {
            cmd: self.cmd,
            x: self.at(self.x),
            y: self.at(self.y),
            start_x: self.at(self.start_x),
            start_y: self.at(self.start_y),
            ctrl_x: self.at(self.ctrl_x),
            ctrl_y: self.at(self.ctrl_y),
        }
    }

    /// `self` has a larger table than `old` and is otherwise the same.
    spec fn grown_from(self, old: Walker) -> bool {
        &&& self.wf()
        &&& self == (Walker { d: self.d, ..old })
        &&& self.d.segments == old.d.segments
        &&& old.d.values@.len() <= self.d.values@.len()
        &&& forall|i: usize| i < old.d.values@.len() ==> #[trigger] self.at(i) == old.at(i)
        &&& self.pen() == old.pen()
        &&& self.d.view() == old.d.view()
    }

    /// Appends an entry to the table and returns its place.
    fn value(&mut self, v: Value) -> (i: usize)
        requires
            old(self).wf(),
            value_ok(v, old(self).d.values@.len() as int),
        ensures
            final(self).grown_from(*old(self)),
            i == old(self).d.values@.len() < final(self).d.values@.len(),
            final(self).at(i) == match v {
                Value::Zero => Coord::Zero,
                Value::Number { start, end } => Coord::Number { start, end },
                Value::Sum(a, b) => Coord::Sum(
                    Box::new(old(self).at(a)),
                    Box::new(old(self).at(b)),
                ),
                Value::Mirror(a, b) => Coord::Mirror(
                    Box::new(old(self).at(a)),
                    Box::new(old(self).at(b)),
                ),
            },
    {
        let ghost w0 = *self;
        let i: usize = self.d.values.len();
        self.d.values.push(v);
        proof {
            assert forall|k: usize| k < w0.d.values@.len() implies #[trigger] self.at(k) == w0.at(
                k,
            ) by {
                lemma_resolved_grows(w0.d.values@, v, k as int);
            }
            assert forall|k: int| 0 <= k < self.d.values@.len() implies value_ok(
                #[trigger] self.d.values@[k],
                k,
            ) by {
                if k < w0.d.values@.len() {
                    assert(value_ok(w0.d.values@[k], k));
                }
            }
            assert forall|k: int| 0 <= k < self.d.segments@.len() implies segment_ok(
                #[trigger] self.d.segments@[k],
                self.d.values@.len() as int,
            ) && drawn(self.d.values@, self.d.segments@[k]) == drawn(
                w0.d.values@,
                w0.d.segments@[k],
            ) by {
                let s = w0.d.segments@[k];
                assert(segment_ok(s, w0.d.values@.len() as int));
                match s {
                    Segment::Move(x, y) => {
                        assert(self.at(x) == w0.at(x) && self.at(y) == w0.at(y));
                    },
                    Segment::Line(x, y) => {
                        assert(self.at(x) == w0.at(x) && self.at(y) == w0.at(y));
                    },
                    Segment::Cubic(x1, y1, x2, y2, x, y) => {
                        assert(self.at(x1) == w0.at(x1) && self.at(y1) == w0.at(y1));
                        assert(self.at(x2) == w0.at(x2) && self.at(y2) == w0.at(y2));
                        assert(self.at(x) == w0.at(x) && self.at(y) == w0.at(y));
                    },
                    Segment::Close => {},
                }
            }
            assert(self.d.view() =~= w0.d.view());
            match v {
                Value::Sum(a, b) => {
                    assert(self.at(a) == w0.at(a) && self.at(b) == w0.at(b));
                },
                Value::Mirror(a, b) => {
                    assert(self.at(a) == w0.at(a) && self.at(b) == w0.at(b));
                },
                _ => {},
            }
        }
        i
    }

    /// The coordinate that the number `t` stands for, with the pen at `base` on that axis.
    fn place(&mut self, t: Tok, base: usize) -> (i: usize)
        requires
            old(self).wf(),
            t is Num,
            base < old(self).d.values@.len(),
        ensures
            final(self).grown_from(*old(self)),
            i < final(self).d.values@.len(),
            final(self).at(i) == placed(old(self).cmd, t, old(self).at(base)),
    {
        let v = match t {
            Tok::Num { start, end } => Value::Number { start, end },
            Tok::Cmd(_) => Value::Zero,
        };
        let i: usize = self.value(v);
        if self.cmd >= 97 {
            self.value(Value::Sum(i, base))
        } else {
            i
        }
    }

    /// Appends a segment.
    fn segment(&mut self, s: Segment)
        requires
            old(self).wf(),
            segment_ok(s, old(self).d.values@.len() as int),
        ensures
            final(self).wf(),
            *final(self) == (Walker { d: final(self).d, ..*old(self) }),
            final(self).d.values == old(self).d.values,
            final(self).pen() == old(self).pen(),
            final(self).d.view() == old(self).d.view().push(drawn(old(self).d.values@, s)),
    {
        self.d.segments.push(s);
        assert(self.d.view() =~= old(self).d.view().push(drawn(old(self).d.values@, s)));
    }

    /// Moves the pen to a point, taking the last control point along.
    fn go(&mut self, x: usize, y: usize)
        requires
            old(self).wf(),
            x < old(self).d.values@.len(),
            y < old(self).d.values@.len(),
        ensures
            final(self).wf(),
            final(self).d == old(self).d,
            final(self).pen() == moved(old(self).pen(), old(self).at(x), old(self).at(y)),
    {
        self.x = x;
        self.y = y;
        self.ctrl_x = x;
        self.ctrl_y = y;
    }

    /// Draws one command with its numbers, which start at token `j`.
    #[verifier::rlimit(40)]
    fn draw(&mut self, toks: &[Tok], j: usize)
        requires
            old(self).wf(),
            arity(old(self).cmd) is Some,
            j + arity(old(self).cmd)->0 <= toks@.len(),
            forall|k: int|
                j <= k < j + arity(old(self).cmd)->0 ==> (#[trigger] toks@[k]) is Num,
        ensures
            final(self).wf(),
            ({
                let args = toks@.subrange(j as int, j + arity(old(self).cmd)->0);
                let (pen, d) = draw(old(self).pen(), args);
                final(self).pen() == pen && final(self).d.view() == old(self).d.view().push(d)
            }),
    {
        let ghost args = toks@.subrange(j as int, j + arity(self.cmd)->0);
        let ghost c = self.cmd;
        let ghost px = self.at(self.x);
        let ghost py = self.at(self.y);
        match self.cmd as char {
            'M' | 'm' => {
                let x: usize = self.place(toks[j], self.x);
                let y: usize = self.place(toks[j + 1], self.y);
                assert(self.at(x) == placed(c, args[0], px));
                assert(self.at(y) == placed(c, args[1], py));
                self.segment(Segment::Move(x, y));
                self.go(x, y);
                self.start_x = x;
                self.start_y = y;
                self.cmd = if self.cmd >= 97 {
                    108
                } else {
                    76
                };
            },
            'L' | 'l' => {
                let x: usize = self.place(toks[j], self.x);
                let y: usize = self.place(toks[j + 1], self.y);
                assert(self.at(x) == placed(c, args[0], px));
                assert(self.at(y) == placed(c, args[1], py));
                self.segment(Segment::Line(x, y));
                self.go(x, y);
            },
            'H' | 'h' => {
                let x: usize = self.place(toks[j], self.x);
                assert(self.at(x) == placed(c, args[0], px) && self.at(self.y) == py);
                self.segment(Segment::Line(x, self.y));
                self.go(x, self.y);
            },
            'V' | 'v' => {
                let y: usize = self.place(toks[j], self.y);
                assert(self.at(y) == placed(c, args[0], py) && self.at(self.x) == px);
                self.segment(Segment::Line(self.x, y));
                self.go(self.x, y);
            },
            'C' | 'c' => {
                let x1: usize = self.place(toks[j], self.x);
                let y1: usize = self.place(toks[j + 1], self.y);
                let x2: usize = self.place(toks[j + 2], self.x);
                let y2: usize = self.place(toks[j + 3], self.y);
                let x: usize = self.place(toks[j + 4], self.x);
                let y: usize = self.place(toks[j + 5], self.y);
                assert(self.at(x1) == placed(c, args[0], px));
                assert(self.at(y1) == placed(c, args[1], py));
                assert(self.at(x2) == placed(c, args[2], px));
                assert(self.at(y2) == placed(c, args[3], py));
                assert(self.at(x) == placed(c, args[4], px));
                assert(self.at(y) == placed(c, args[5], py));
                self.segment(Segment::Cubic(x1, y1, x2, y2, x, y));
                self.x = x;
                self.y = y;
                self.ctrl_x = x2;
                self.ctrl_y = y2;
            },
            _ => {
                let x2: usize = self.place(toks[j], self.x);
                let y2: usize = self.place(toks[j + 1], self.y);
                let x: usize = self.place(toks[j + 2], self.x);
                let y: usize = self.place(toks[j + 3], self.y);
                let x1: usize = self.value(Value::Mirror(self.x, self.ctrl_x));
                let y1: usize = self.value(Value::Mirror(self.y, self.ctrl_y));
                assert(self.at(x2) == placed(c, args[0], px));
                assert(self.at(y2) == placed(c, args[1], py));
                assert(self.at(x) == placed(c, args[2], px));
                assert(self.at(y) == placed(c, args[3], py));
                assert(self.at(x1) == Coord::Mirror(Box::new(px), Box::new(old(self).pen().ctrl_x)));
                assert(self.at(y1) == Coord::Mirror(Box::new(py), Box::new(old(self).pen().ctrl_y)));
                self.segment(Segment::Cubic(x1, y1, x2, y2, x, y));
                self.x = x;
                self.y = y;
                self.ctrl_x = x2;
                self.ctrl_y = y2;
            },
        }
    }
}

/// The first of the tokens `j..j + n` that is not a number.
fn gap(toks: &[Tok], j: usize, n: usize) -> (r: Option<usize>)
    requires
        j <= toks@.len(),
    ensures
        match r {
            Some(k) => first_gap(toks@, j as int, n as nat) == Some(k as int),
            None => {
                &&& first_gap(toks@, j as int, n as nat) is None
                &&& j + n <= toks@.len()
                &&& forall|k: int| j <= k < j + n ==> (#[trigger] toks@[k]) is Num
            },
        },
    decreases n,
{
    if n == 0 {
        return None;
    }
    if j < toks.len() && matches!(toks[j], Tok::Num { .. }) {
        gap(toks, j + 1, n - 1)
    } else {
        Some(j)
    }
}

/// The numbers a command takes.
fn numbers_of(cmd: u8) -> (n: Option<usize>)
    ensures
        match n {
            Some(n) => arity(cmd) == Some(n as nat),
            None => arity(cmd) is None,
        },
{
    match cmd as char {
        'M' | 'm' | 'L' | 'l' => Some(2),
        'H' | 'h' | 'V' | 'v' => Some(1),
        'C' | 'c' => Some(6),
        'S' | 's' => Some(4),
        _ => None,
    }
}

/// What is already drawn, then what follows.
spec fn after(done: Seq<Drawn>, rest: Result<Seq<Drawn>, PathError>) -> Result<
    Seq<Drawn>,
    PathError,
> {
    match rest {
        Ok(s) => Ok(done + s),
        Err(e) => Err(e),
    }
}

proof fn lemma_after_before(done: Seq<Drawn>, d: Drawn, rest: Result<Seq<Drawn>, PathError>)
    ensures
        after(done, before(d, rest)) == after(done.push(d), rest),
{
    if let Ok(s) = rest {
        assert(done + (seq![d] + s) =~= done.push(d) + s);
    }
}

/// What an SVG path (`M`/`m`, `L`/`l`, `H`/`h`, `V`/`v`, `C`/`c`, `S`/`s`, `Z`/`z`) draws.
pub fn walk_path(d: &str) -> (r: Result<Drawing, PathError>)
    ensures
        match r {
            Ok(p) => p.wf() && followed(tokens_from(d.spec_bytes(), 0), 0, pen_at_rest()) == Ok::<
                Seq<Drawn>,
                PathError,
            >(p@),
            Err(e) => followed(tokens_from(d.spec_bytes(), 0), 0, pen_at_rest()) == Err::<
                Seq<Drawn>,
                PathError,
            >(e),
        },
{
    let toks: Vec<Tok> = tokenize(d);
    let mut values: Vec<Value> = Vec::new();
    values.push(Value::Zero);
    let mut w = Walker {
        d: Drawing { values, segments: Vec::new() },
        cmd: 0,
        x: 0,
        y: 0,
        start_x: 0,
        start_y: 0,
        ctrl_x: 0,
        ctrl_y: 0,
    };
    let mut i: usize = 0;
    let ghost whole = followed(toks@, 0, pen_at_rest());
    proof {
        assert(w.d@ =~= seq![]);
        if let Ok(s) = whole {
            assert(w.d@ + s =~= s);
        }
    }
    while i < toks.len()
        invariant
            i <= toks@.len(),
            w.wf(),
            toks@ == tokens_from(d.spec_bytes(), 0),
            whole == followed(toks@, 0, pen_at_rest()),
            whole == after(w.d@, followed(toks@, i as int, w.pen())),
        decreases toks@.len() - i,
    {
        let ghost done = w.d@;
        if let Tok::Cmd(c) = toks[i] {
            w.cmd = c;
            i += 1;
            if c as char == 'Z' || c as char == 'z' {
                proof {
                    lemma_after_before(
                        done,
                        Drawn::Close,
                        followed(toks@, i as int, closed(w.pen(), c)),
                    );
                }
                w.segment(Segment::Close);
                w.go(w.start_x, w.start_y);
                continue;
            }
        }
        let n: usize = match numbers_of(w.cmd) {
            Some(n) => n,
            None => {
                return Err(PathError::UnsupportedCommand(w.cmd));
            },
        };
        if let Some(k) = gap(toks.as_slice(), i, n) {
            return Err(PathError::ExpectedNumber(k));
        }
        proof {
            let (pen2, d) = draw(w.pen(), toks@.subrange(i as int, i + n));
            lemma_after_before(done, d, followed(toks@, i + n, pen2));
        }
        w.draw(toks.as_slice(), i);
        i += n;
    }
    proof {
        assert(w.d@ + Seq::<Drawn>::empty() =~= w.d@);
    }
    Ok(w.d)
}

} // verus!
