//! Dragging the knots of a drawn curve. Places on the screen, in pixels, and
//! on the curve are given in millionths.

use vstd::prelude::*;

verus! {

/// Farthest place or value that is handled.
pub const FARTHEST: i64 = 1_000_000_000_000_000;

/// Distance from a knot at which the pointer grabs it.
pub const GRAB_RADIUS: i64 = 8_000_000;

/// A knot of the curve.
#[derive(Clone, Copy, Debug, PartialEq, Eq, Structural)]
pub struct Knot {
    pub loc: i64,
    pub val: i64,
}

/// A place on the screen; y grows downwards.
#[derive(Clone, Copy, Debug, PartialEq, Eq, Structural)]
pub struct Spot {
    pub x: i64,
    pub y: i64,
}

/// The part of the screen that the curve is drawn in.
#[derive(Clone, Copy, Debug, PartialEq, Eq, Structural)]
pub struct Frame {
    pub left: i64,
    pub bottom: i64,
    pub width: i64,
    pub height: i64,
}

/// The part of the plane that is drawn.
#[derive(Clone, Copy, Debug)]
pub struct SplineEditor {
    pub x_range: (i64, i64),
    pub y_range: (i64, i64),
}

/// A place or value that is handled.
pub open spec fn near(v: i64) -> bool {
    -FARTHEST <= v <= FARTHEST
}

impl Knot {
    pub open spec fn wf(&self) -> bool {
        near(self.loc) && near(self.val)
    }
}

impl Spot {
    pub open spec fn wf(&self) -> bool {
        near(self.x) && near(self.y)
    }
}

impl Frame {
    /// The frame has an extent.
    pub open spec fn wf(&self) -> bool {
        &&& near(self.left)
        &&& near(self.bottom)
        &&& 0 < self.width <= FARTHEST
        &&& 0 < self.height <= FARTHEST
    }
}

/// A range with an extent.
pub open spec fn range_ok(r: (i64, i64)) -> bool {
    near(r.0) && near(r.1) && r.0 < r.1
}

/// Where a value of a range is drawn along a side of some length.
pub open spec fn drawn(v: int, range: (i64, i64), length: int) -> int {
    (v - range.0) * length / (range.1 - range.0)
}

/// Which value of a range is drawn at a distance along a side of some length.
pub open spec fn read(at: int, range: (i64, i64), length: int) -> int {
    range.0 + at * (range.1 - range.0) / length
}

/// A value brought into a range.
pub open spec fn held(v: int, range: (i64, i64)) -> int {
    if v < range.0 {
        range.0 as int
    } else if v > range.1 {
        range.1 as int
    } else {
        v
    }
}

/// The values differ by more than one millionth.
pub open spec fn differs(a: int, b: int) -> bool {
    a - b > 1 || b - a > 1
}

/// Places close enough to grab.
pub open spec fn close(dx: int, dy: int) -> bool {
    dx * dx + dy * dy < GRAB_RADIUS * GRAB_RADIUS
}

/// What is read where a value is drawn is that value, but for rounding: never
/// more than it, and less by no more than a step of the side.
pub proof fn law_drawn_values_read_back(v: int, range: (i64, i64), length: int)
    requires
        range_ok(range),
        range.0 <= v <= range.1,
        length > 0,
    ensures
        read(drawn(v, range, length), range, length) <= v,
        v <= read(drawn(v, range, length) + 1, range, length),
{
    let span = range.1 - range.0;
    let a = v - range.0;
    let d = a * length / span;
    assert(d * span <= a * length < (d + 1) * span) by (nonlinear_arith)
        requires
            span > 0,
            d == a * length / span,
    ;
    assert(d * span / length <= a) by (nonlinear_arith)
        requires
            d * span <= a * length,
            length > 0,
    ;
    assert(a <= (d + 1) * span / length) by (nonlinear_arith)
        requires
            a * length < (d + 1) * span,
            length > 0,
    ;
}

/// The product of two distances.
fn product(a: i64, b: i64) -> (p: i128)
    requires
        -4 * FARTHEST <= a <= 4 * FARTHEST,
        -4 * FARTHEST <= b <= 4 * FARTHEST,
    ensures
        p == a * b,
        -16 * FARTHEST * FARTHEST <= p <= 16 * FARTHEST * FARTHEST,
{
    assert(-16 * FARTHEST * FARTHEST <= a * b <= 16 * FARTHEST * FARTHEST) by (nonlinear_arith)
        requires
            -4 * FARTHEST <= a <= 4 * FARTHEST,
            -4 * FARTHEST <= b <= 4 * FARTHEST,
    ;
    a as i128 * b as i128
}

/// The quotient, rounded down.
fn floored(n: i128, d: i128) -> (q: i128)
    requires
        0 < d <= 1_000_000_000_000_000_000,
        -100_000_000_000_000_000_000_000_000_000_000_000 < n,
        n < 100_000_000_000_000_000_000_000_000_000_000_000,
    ensures
        q == n as int / d as int,
{
    if n >= 0 {
        n / d
    } else {
        let up: i128 = -n + (d - 1);
        let q: i128 = -(up / d);
        assert(q == n as int / d as int) by (nonlinear_arith)
            requires
                d > 0,
                n < 0,
                up == -n + (d - 1),
                q == -(up as int / d as int),
        ;
        q
    }
}

impl SplineEditor {
    pub open spec fn wf(&self) -> bool {
        range_ok(self.x_range) && range_ok(self.y_range)
    }

    /// An editor of the plane from -1.1 to 1.1 and from -1.5 to 1.5.
    pub fn new() -> (e: Self)
        ensures
            e.wf(),
            e.x_range == (-1_100_000i64, 1_100_000i64),
            e.y_range == (-1_500_000i64, 1_500_000i64),
    {
        SplineEditor { x_range: (-1_100_000, 1_100_000), y_range: (-1_500_000, 1_500_000) }
    }

    /// The same editor for other locations.
    pub fn x_range(self, lo: i64, hi: i64) -> (e: Self)
        ensures
            e == (SplineEditor { x_range: (lo, hi), ..self }),
    {
        SplineEditor { x_range: (lo, hi), ..self }
    }

    /// The same editor for other values.
    pub fn y_range(self, lo: i64, hi: i64) -> (e: Self)
        ensures
            e == (SplineEditor { y_range: (lo, hi), ..self }),
    {
        SplineEditor { y_range: (lo, hi), ..self }
    }

    /// Whether the pointer is on a knot.
    pub open spec fn grabs(&self, frame: Frame, knot: Knot, at: Spot) -> bool {
        close(
            at.x - (frame.left + drawn(knot.loc as int, self.x_range, frame.width as int)),
            at.y - (frame.bottom - drawn(knot.val as int, self.y_range, frame.height as int)),
        )
    }

    /// Where the pointer would put a knot.
    pub open spec fn dropped(&self, frame: Frame, at: Spot) -> (int, int) {
        (
            held(read(at.x - frame.left, self.x_range, frame.width as int), self.x_range),
            held(read(frame.bottom - at.y, self.y_range, frame.height as int), self.y_range),
        )
    }

    /// The last of the first `n` knots that the pointer is on.
    pub open spec fn target(&self, frame: Frame, knots: Seq<Knot>, at: Spot, n: nat) -> Option<int>
        decreases n,
    {
        if n == 0 {
            None
        } else if self.grabs(frame, knots[n - 1], at) {
            Some(n - 1)
        } else {
            self.target(frame, knots, at, (n - 1) as nat)
        }
    }

    /// The knots after the pointer was dragged: the last knot under it follows
    /// it, within what is drawn, unless it would hardly move.
    pub open spec fn after_drag(&self, frame: Frame, knots: Seq<Knot>, at: Spot) -> Seq<Knot> {
        match self.target(frame, knots, at, knots.len()) {
            None => knots,
            Some(i) => {
                let (loc, val) = self.dropped(frame, at);
                if differs(knots[i].loc as int, loc) || differs(knots[i].val as int, val) {
                    knots.update(i, Knot { loc: loc as i64, val: val as i64 })
                } else {
                    knots
                }
            },
        }
    }

    /// Whether the pointer is on a knot.
    pub fn on_knot(&self, frame: &Frame, knot: &Knot, at: &Spot) -> (b: bool)
        requires
            self.wf(),
            frame.wf(),
            knot.wf(),
            at.wf(),
        ensures
            b == self.grabs(*frame, *knot, *at),
    {
        let span_x: i64 = self.x_range.1 - self.x_range.0;
        let span_y: i64 = self.y_range.1 - self.y_range.0;
        let along: i128 = floored(
            product(knot.loc - self.x_range.0, frame.width),
            span_x as i128,
        );
        let up: i128 = floored(
            product(knot.val - self.y_range.0, frame.height),
            span_y as i128,
        );
        proof {
            lemma_quotient(
                (knot.loc - self.x_range.0) * frame.width,
                span_x as int,
                2_000_000_000_000_000_000_000_000_000_000,
            );
            lemma_quotient(
                (knot.val - self.y_range.0) * frame.height,
                span_y as int,
                2_000_000_000_000_000_000_000_000_000_000,
            );
            lemma_reach(knot.loc - self.x_range.0, frame.width as int);
            lemma_reach(knot.val - self.y_range.0, frame.height as int);
        }
        let dx: i128 = at.x as i128 - (frame.left as i128 + along);
        let dy: i128 = at.y as i128 - (frame.bottom as i128 - up);
        let r: i128 = GRAB_RADIUS as i128;
        proof {
            let gx = dx as int;
            let gy = dy as int;
            let gr = r as int;
            assert((gx >= gr || gx <= -gr || gy >= gr || gy <= -gr) ==> gx * gx + gy * gy >= gr
                * gr) by (nonlinear_arith)
                requires
                    gr > 0,
            ;
            assert((-gr < gx < gr && -gr < gy < gr) ==> 0 <= gx * gx <= gr * gr && 0 <= gy * gy
                <= gr * gr) by (nonlinear_arith)
                requires
                    gr > 0,
            ;
        }
        if dx >= r || dx <= -r || dy >= r || dy <= -r {
            return false;
        }
        assert(GRAB_RADIUS * GRAB_RADIUS == 64_000_000_000_000);
        dx * dx + dy * dy < 64_000_000_000_000
    }

    /// Drag the pointer: the last knot under it follows it. Whether a knot
    /// moved.
    pub fn drag(&self, frame: &Frame, knots: &mut Vec<Knot>, at: &Spot) -> (changed: bool)
        requires
            self.wf(),
            frame.wf(),
            at.wf(),
            forall|i: int| 0 <= i < old(knots)@.len() ==> (#[trigger] old(knots)@[i]).wf(),
        ensures
            final(knots)@ == self.after_drag(*frame, old(knots)@, *at),
            changed == (final(knots)@ != old(knots)@),
            forall|i: int| 0 <= i < final(knots)@.len() ==> (#[trigger] final(knots)@[i]).wf(),
    {
        let mut found: Option<usize> = None;
        let mut i: usize = 0;
        while i < knots.len()
            invariant
                self.wf(),
                frame.wf(),
                at.wf(),
                i <= knots@.len(),
                knots@ == old(knots)@,
                forall|k: int| 0 <= k < knots@.len() ==> (#[trigger] knots@[k]).wf(),
                match found {
                    Some(k) => k < knots@.len() && self.target(*frame, knots@, *at, i as nat)
                        == Some(k as int),
                    None => self.target(*frame, knots@, *at, i as nat) is None,
                },
            decreases knots@.len() - i,
        {
            if self.on_knot(frame, &knots[i], at) {
                found = Some(i);
            }
            i = i + 1;
        }
        match found {
            None => false,
            Some(k) => {
                let loc: i64 = place(at.x - frame.left, self.x_range, frame.width);
                let val: i64 = place(frame.bottom - at.y, self.y_range, frame.height);
                let knot: Knot = knots[k];
                if apart(knot.loc, loc) || apart(knot.val, val) {
                    knots.set(k, Knot { loc, val });
                    assert(knots@[k as int] != old(knots)@[k as int]);
                    true
                } else {
                    false
                }
            },
        }
    }
}

/// Bounds of a product of distances.
proof fn lemma_reach(a: int, b: int)
    requires
        -2 * FARTHEST <= a <= 2 * FARTHEST,
        0 < b <= FARTHEST,
    ensures
        -2_000_000_000_000_000_000_000_000_000_000 <= a * b
            <= 2_000_000_000_000_000_000_000_000_000_000,
{
    assert(-2 * FARTHEST * FARTHEST <= a * b <= 2 * FARTHEST * FARTHEST) by (nonlinear_arith)
        requires
            -2 * FARTHEST <= a <= 2 * FARTHEST,
            0 < b <= FARTHEST,
    ;
    assert(2 * FARTHEST * FARTHEST == 2_000_000_000_000_000_000_000_000_000_000);
}

/// Dividing by a positive number makes nothing larger.
proof fn lemma_quotient(n: int, d: int, most: int)
    requires
        d > 0,
        most > 0,
    ensures
        -most <= n <= most ==> -most <= n / d <= most,
{
    if -most <= n <= most {
        assert(-most <= n / d <= most) by (nonlinear_arith)
            requires
                d > 0,
                most > 0,
                -most <= n <= most,
        ;
    }
}

/// The values differ by more than one millionth.
fn apart(a: i64, b: i64) -> (r: bool)
    requires
        near(a),
        near(b),
    ensures
        r == differs(a as int, b as int),
{
    a - b > 1 || b - a > 1
}

/// The value of a range at a distance along a side, within the range.
fn place(at: i64, range: (i64, i64), length: i64) -> (v: i64)
    requires
        range_ok(range),
        0 < length <= FARTHEST,
        -2 * FARTHEST <= at <= 2 * FARTHEST,
    ensures
        v == held(read(at as int, range, length as int), range),
        near(v),
{
    let wide: i128 = floored(product(at, range.1 - range.0), length as i128);
    proof {
        let n = at * (range.1 - range.0);
        lemma_quotient(n, length as int, 16 * FARTHEST * FARTHEST);
    }
    let v: i128 = range.0 as i128 + wide;
    if v < range.0 as i128 {
        range.0
    } else if v > range.1 as i128 {
        range.1
    } else {
        v as i64
    }
}

/// A dragged knot stays within what is drawn.
pub proof fn law_dragged_knot_stays_drawn(e: SplineEditor, frame: Frame, at: Spot)
    requires
        e.wf(),
    ensures
        e.x_range.0 <= e.dropped(frame, at).0 <= e.x_range.1,
        e.y_range.0 <= e.dropped(frame, at).1 <= e.y_range.1,
{
}

} // verus!
