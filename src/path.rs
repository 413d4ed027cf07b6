//! The path log of a turtle and its replay as coloured line segments.
use crate::coord::{lemma_truncated_fits, truncated, Coord};
use vstd::prelude::*;

verus! {

/// An 8-bit-per-channel colour.
pub type Color = (u8, u8, u8);

/// The colour of the pen before any colour is set.
pub open spec fn white() -> Color {
    (255u8, 255u8, 255u8)
}

/// One recorded drawing operation.
#[derive(Clone, Copy, Debug, PartialEq, Eq, Structural)]
pub enum Op {
    /// Lift the pen to a point: no segment.
    MoveTo(Coord, Coord),
    /// Draw to a point: one segment from the previous pen point.
    LineTo(Coord, Coord),
    /// Change the colour of the segments that follow.
    SetColor(u8, u8, u8),
}

/// A segment with integer pixel endpoints and its colour. `color_changed`
/// tells whether a colour was set since the previous segment.
#[derive(Clone, Copy, Debug, PartialEq, Eq)]
pub struct Line {
    pub start: (i32, i32),
    pub end: (i32, i32),
    pub color: Color,
    pub color_changed: bool,
}

/// The state carried while a path is replayed: the pen's pixel, its colour,
/// and whether the colour was set since the last segment.
#[derive(Clone, Copy, Debug, PartialEq, Eq)]
pub struct Pen {
    pub x: i32,
    pub y: i32,
    pub color: Color,
    pub color_changed: bool,
}

/// The pen at the start of every replay: pixel (0, 0), white, no change.
pub open spec fn start_pen() -> Pen {
    Pen { x: 0, y: 0, color: white(), color_changed: false }
}

/// The pen after one operation.
pub open spec fn pen_step(p: Pen, op: Op) -> Pen {
    match op {
        Op::MoveTo(x, y) => Pen { x: truncated(x.bits) as i32, y: truncated(y.bits) as i32, ..p },
        Op::LineTo(x, y) => Pen {
            x: truncated(x.bits) as i32,
            y: truncated(y.bits) as i32,
            color_changed: false,
            ..p
        },
        Op::SetColor(r, g, b) => Pen { color: (r, g, b), color_changed: true, ..p },
    }
}

/// The segment that one operation emits, if any.
pub open spec fn emitted(p: Pen, op: Op) -> Option<Line> {
    match op {
        Op::LineTo(x, y) => Some(
            Line {
                start: (p.x, p.y),
                end: (truncated(x.bits) as i32, truncated(y.bits) as i32),
                color: p.color,
                color_changed: p.color_changed,
            },
        ),
        _ => None,
    }
}

/// The pen after replaying `ops` from the start.
pub open spec fn pen_after(ops: Seq<Op>) -> Pen
    decreases ops.len(),
{
    if ops.len() == 0 {
        start_pen()
    } else {
        pen_step(pen_after(ops.drop_last()), ops.last())
    }
}

/// The segments that a replay of `ops` emits, in order.
pub open spec fn segments(ops: Seq<Op>) -> Seq<Line>
    decreases ops.len(),
{
    if ops.len() == 0 {
        Seq::empty()
    } else {
        let prev = segments(ops.drop_last());
        match emitted(pen_after(ops.drop_last()), ops.last()) {
            Some(l) => prev.push(l),
            None => prev,
        }
    }
}

/// How many operations of `ops` draw.
pub open spec fn line_to_count(ops: Seq<Op>) -> nat
    decreases ops.len(),
{
    if ops.len() == 0 {
        0
    } else {
        line_to_count(ops.drop_last()) + if ops.last() is LineTo {
            1nat
        } else {
            0nat
        }
    }
}

impl Pen {
    /// The pen at the start of a replay.
    pub fn new() -> (r: Pen)
        ensures
            r == start_pen(),
    {
        Pen { x: 0, y: 0, color: (255, 255, 255), color_changed: false }
    }

    /// Replays one operation: moves the pen, and returns the segment that
    /// the operation draws, if any.
    pub fn apply(&mut self, op: &Op) -> (r: Option<Line>)
        ensures
            *final(self) == pen_step(*old(self), *op),
            r == emitted(*old(self), *op),
    {
        match *op {
            Op::MoveTo(x, y) => {
                self.x = x.to_pixel();
                self.y = y.to_pixel();
                None
            },
            Op::LineTo(x, y) => {
                let line = Line {
                    start: (self.x, self.y),
                    end: (x.to_pixel(), y.to_pixel()),
                    color: self.color,
                    color_changed: self.color_changed,
                };
                self.x = line.end.0;
                self.y = line.end.1;
                self.color_changed = false;
                Some(line)
            },
            Op::SetColor(r, g, b) => {
                self.color = (r, g, b);
                self.color_changed = true;
                None
            },
        }
    }
}

/// The path log: every drawing operation in the order it was issued. It is
/// only appended to.
pub struct Path {
    ops: Vec<Op>,
}

impl View for Path {
    type V = Seq<Op>;

    closed spec fn view(&self) -> Seq<Op> {
        self.ops@
    }
}

impl Path {
    /// An empty log.
    pub fn new() -> (r: Path)
        ensures
            r@ == Seq::<Op>::empty(),
    {
        Path { ops: Vec::new() }
    }

    /// Records a jump of the pen to (x, y).
    pub fn move_to(&mut self, x: Coord, y: Coord)
        ensures
            final(self)@ == old(self)@.push(Op::MoveTo(x, y)),
    {
        self.ops.push(Op::MoveTo(x, y));
    }

    /// Records a stroke of the pen to (x, y).
    pub fn line_to(&mut self, x: Coord, y: Coord)
        ensures
            final(self)@ == old(self)@.push(Op::LineTo(x, y)),
    {
        self.ops.push(Op::LineTo(x, y));
    }

    /// Records a change of the stroke colour.
    pub fn set_color(&mut self, r: u8, g: u8, b: u8)
        ensures
            final(self)@ == old(self)@.push(Op::SetColor(r, g, b)),
    {
        self.ops.push(Op::SetColor(r, g, b));
    }

    /// The number of recorded operations.
    pub fn len(&self) -> (r: usize)
        ensures
            r == self@.len(),
    {
        self.ops.len()
    }

    /// The operation at index `i`.
    pub fn op(&self, i: usize) -> (r: Op)
        requires
            i < self@.len(),
        ensures
            r == self@[i as int],
    {
        self.ops[i]
    }

    /// A fresh replay of the whole log, from its first operation with the
    /// pen at (0, 0) and white.
    pub fn lines(&self) -> (r: Lines<'_>)
        ensures
            r.ops() == self@,
            r.done() == 0,
    {
        assert(self.ops@.take(0) =~= Seq::<Op>::empty());
        Lines { ops: &self.ops, next: 0, pen: Pen::new() }
    }

    /// All the segments of a replay, in order.
    pub fn segments(&self) -> (r: Vec<Line>)
        ensures
            r@ == segments(self@),
    {
        let mut lines = self.lines();
        let mut out: Vec<Line> = Vec::new();
        loop
            invariant
                lines.ops() == self@,
                out@ == segments(self@).take(lines.done() as int),
                lines.done() <= segments(self@).len(),
            decreases segments(self@).len() - lines.done(),
        {
            match lines.next() {
                Some(l) => {
                    out.push(l);
                    assert(out@ =~= segments(self@).take(lines.done() as int));
                },
                None => {
                    assert(out@ =~= segments(self@));
                    return out;
                },
            }
        }
    }
}

/// A replay of a path log in progress: it yields the log's segments one at a
/// time, in order.
pub struct Lines<'a> {
    ops: &'a Vec<Op>,
    next: usize,
    pen: Pen,
}

impl<'a> Lines<'a> {
    #[verifier::type_invariant]
    spec fn replays_prefix(self) -> bool {
        &&& self.next <= self.ops@.len()
        &&& self.pen == pen_after(self.ops@.take(self.next as int))
    }

    /// The log being replayed.
    pub closed spec fn ops(&self) -> Seq<Op> {
        self.ops@
    }

    /// How many segments have been yielded so far.
    pub closed spec fn done(&self) -> nat {
        segments(self.ops@.take(self.next as int)).len()
    }

    /// The next segment of the replay, or `None` once all have been yielded.
    pub fn next(&mut self) -> (r: Option<Line>)
        ensures
            final(self).ops() == old(self).ops(),
            old(self).done() < segments(old(self).ops()).len() ==> {
                &&& r == Some(segments(old(self).ops())[old(self).done() as int])
                &&& final(self).done() == old(self).done() + 1
            },
            old(self).done() >= segments(old(self).ops()).len() ==> {
                &&& r is None
                &&& final(self).done() == old(self).done()
            },
    {
        proof {
            use_type_invariant(&*self);
        }
        let ops = self.ops;
        let mut pen = self.pen;
        let mut i = self.next;
        let ghost start = i as int;
        while i < ops.len()
            invariant
                start <= i <= ops@.len(),
                pen == pen_after(ops@.take(i as int)),
                segments(ops@.take(i as int)) == segments(ops@.take(start)),
                ops == old(self).ops,
                start == old(self).next,
            decreases ops@.len() - i,
        {
            let ghost before = segments(ops@.take(i as int));
            let r = pen.apply(&ops[i]);
            proof {
                lemma_segments_step(ops@, i as int);
            }
            i = i + 1;
            match r {
                Some(l) => {
                    proof {
                        let after = segments(ops@.take(i as int));
                        assert(after == before.push(l));
                        lemma_segments_prefix(ops@, i as int);
                        assert(after[before.len() as int] == l);
                    }
                    *self = Lines { ops, next: i, pen };
                    return r;
                },
                None => {},
            }
        }
        proof {
            assert(ops@.take(i as int) =~= ops@);
        }
        *self = Lines { ops, next: i, pen };
        None
    }
}

/// Replaying one more operation appends what it emits.
pub proof fn lemma_segments_step(ops: Seq<Op>, n: int)
    requires
        0 <= n < ops.len(),
    ensures
        pen_after(ops.take(n + 1)) == pen_step(pen_after(ops.take(n)), ops[n]),
        segments(ops.take(n + 1)) == match emitted(pen_after(ops.take(n)), ops[n]) {
            Some(l) => segments(ops.take(n)).push(l),
            None => segments(ops.take(n)),
        },
{
    assert(ops.take(n + 1).drop_last() =~= ops.take(n));
}

/// The segments of a prefix of the log begin the segments of the whole log.
pub proof fn lemma_segments_prefix(ops: Seq<Op>, n: int)
    requires
        0 <= n <= ops.len(),
    ensures
        segments(ops.take(n)).len() <= segments(ops).len(),
        segments(ops.take(n)) == segments(ops).take(segments(ops.take(n)).len() as int),
    decreases ops.len() - n,
{
    if n == ops.len() {
        assert(ops.take(n) =~= ops);
    } else {
        lemma_segments_prefix(ops, n + 1);
        lemma_segments_step(ops, n);
        let a = segments(ops.take(n));
        let b = segments(ops.take(n + 1));
        assert(a =~= b.take(a.len() as int));
        assert(a =~= segments(ops).take(a.len() as int));
    }
}

/// The pixel of the last jump or stroke of a log; (0, 0) when there is none.
pub open spec fn last_point(ops: Seq<Op>) -> (int, int)
    decreases ops.len(),
{
    if ops.len() == 0 {
        (0, 0)
    } else {
        match ops.last() {
            Op::MoveTo(x, y) => (truncated(x.bits), truncated(y.bits)),
            Op::LineTo(x, y) => (truncated(x.bits), truncated(y.bits)),
            Op::SetColor(..) => last_point(ops.drop_last()),
        }
    }
}

/// A replay ends with the pen on the pixel of the last recorded position.
pub proof fn lemma_replay_ends_at_last_point(ops: Seq<Op>)
    ensures
        (pen_after(ops).x as int, pen_after(ops).y as int) == last_point(ops),
    decreases ops.len(),
{
    if ops.len() > 0 {
        lemma_replay_ends_at_last_point(ops.drop_last());
        match ops.last() {
            Op::MoveTo(x, y) => {
                lemma_truncated_fits(x.bits);
                lemma_truncated_fits(y.bits);
            },
            Op::LineTo(x, y) => {
                lemma_truncated_fits(x.bits);
                lemma_truncated_fits(y.bits);
            },
            Op::SetColor(..) => {},
        }
    }
}

/// A log with no colour change replays as white segments only.
pub proof fn lemma_uncolored_path_is_white(ops: Seq<Op>)
    requires
        forall|i: int| 0 <= i < ops.len() ==> !(ops[i] is SetColor),
    ensures
        pen_after(ops).color == white(),
        forall|k: int| 0 <= k < segments(ops).len() ==> (#[trigger] segments(ops)[k]).color == white(),
    decreases ops.len(),
{
    if ops.len() > 0 {
        let init = ops.drop_last();
        assert forall|i: int| 0 <= i < init.len() implies !(init[i] is SetColor) by {
            assert(init[i] == ops[i]);
        }
        lemma_uncolored_path_is_white(init);
        assert(!(ops[ops.len() - 1] is SetColor));
        let prev = segments(init);
        assert forall|k: int| 0 <= k < segments(ops).len() implies (#[trigger] segments(ops)[k]).color
            == white() by {
            if k < prev.len() {
                assert(segments(ops)[k] == prev[k]);
            }
        }
    }
}

/// A replay yields one segment per drawing operation of the log, and none
/// for a jump or a colour change.
pub proof fn lemma_segment_count(ops: Seq<Op>)
    ensures
        segments(ops).len() == line_to_count(ops),
    decreases ops.len(),
{
    if ops.len() > 0 {
        lemma_segment_count(ops.drop_last());
    }
}

/// A stroke to the pixel that the pen is on is a segment of length zero at
/// that pixel.
pub proof fn lemma_stroke_in_place(ops: Seq<Op>, x: Coord, y: Coord)
    requires
        truncated(x.bits) == pen_after(ops).x,
        truncated(y.bits) == pen_after(ops).y,
    ensures
        segments(ops.push(Op::LineTo(x, y))).last().start == (pen_after(ops).x, pen_after(ops).y),
        segments(ops.push(Op::LineTo(x, y))).last().end == (pen_after(ops).x, pen_after(ops).y),
{
    assert(ops.push(Op::LineTo(x, y)).drop_last() =~= ops);
}

} // verus!
