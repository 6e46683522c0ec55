//! The box of chunks that is shown.

use vstd::prelude::*;

use crate::voxel::coords::{ChunkCoord, IVec3};

verus! {

/// A box of chunks around a centre column: `radius_xz` chunks to each side on
/// the horizontal axes, and `radius_y` chunks above and below the chunk at
/// height 0.
#[derive(Debug, Clone, Copy, PartialEq, Eq, Structural)]
pub struct Region {
    pub center_cx: i32,
    pub center_cz: i32,
    pub radius_xz: i32,
    pub radius_y: i32,
}

/// Side of a span that reaches `radius` to both sides.
pub open spec fn span(radius: int) -> int {
    2 * radius + 1
}

/// A chunk position.
pub open spec fn chunk(x: int, y: int, z: int) -> ChunkCoord {
    ChunkCoord(IVec3 { x: x as i32, y: y as i32, z: z as i32 })
}

impl Region {
    /// The chunks of the box have `i32` coordinates and can be counted.
    pub open spec fn sound(&self) -> bool {
        &&& i32::MIN <= self.center_cx - self.radius_xz <= i32::MAX
        &&& i32::MIN <= self.center_cx + self.radius_xz <= i32::MAX
        &&& i32::MIN <= self.center_cz - self.radius_xz <= i32::MAX
        &&& i32::MIN <= self.center_cz + self.radius_xz <= i32::MAX
        &&& i32::MIN < self.radius_y
        &&& self.count() <= usize::MAX
    }

    /// Number of chunks in the box; none where a radius is negative.
    pub open spec fn count(&self) -> int {
        if self.radius_xz < 0 || self.radius_y < 0 {
            0
        } else {
            span(self.radius_xz as int) * span(self.radius_xz as int) * span(self.radius_y as int)
        }
    }

    /// Whether the box holds a chunk.
    pub open spec fn holds(&self, c: ChunkCoord) -> bool {
        &&& self.center_cx - self.radius_xz <= c.0.x <= self.center_cx + self.radius_xz
        &&& self.center_cz - self.radius_xz <= c.0.z <= self.center_cz + self.radius_xz
        &&& -self.radius_y <= c.0.y <= self.radius_y
    }

    /// The `n`-th chunk of the box: x runs fastest, then z, then y.
    pub open spec fn nth(&self, n: int) -> ChunkCoord {
        let w = span(self.radius_xz as int);
        chunk(
            self.center_cx - self.radius_xz + n % w,
            -self.radius_y + n / (w * w),
            self.center_cz - self.radius_xz + (n / w) % w,
        )
    }

    pub fn new(center_cx: i32, center_cz: i32, radius_xz: i32, radius_y: i32) -> (r: Self)
        ensures
            r == (Region { center_cx, center_cz, radius_xz, radius_y }),
    {
        Region { center_cx, center_cz, radius_xz, radius_y }
    }

    /// Number of chunks in the box.
    pub fn chunk_count(&self) -> (n: usize)
        requires
            0 <= self.radius_xz,
            0 <= self.radius_y,
            self.count() <= usize::MAX,
        ensures
            n == self.count(),
    {
        let xz: i128 = 2 * self.radius_xz as i128 + 1;
        let y: i128 = 2 * self.radius_y as i128 + 1;
        assert(0 < xz * xz <= 0x1_0000_0000 * 0x1_0000_0000) by (nonlinear_arith)
            requires
                0 < xz <= 0x1_0000_0000,
        ;
        let square: i128 = xz * xz;
        assert(square <= square * y) by (nonlinear_arith)
            requires
                0 < square,
                0 < y,
        ;
        (square * y) as usize
    }

    /// Whether the box holds a chunk.
    pub fn contains(&self, coord: ChunkCoord) -> (b: bool)
        ensures
            b == self.holds(coord),
    {
        let dx: i64 = coord.0.x as i64 - self.center_cx as i64;
        let dz: i64 = coord.0.z as i64 - self.center_cz as i64;
        let y: i64 = coord.0.y as i64;
        let r: i64 = self.radius_xz as i64;
        let ry: i64 = self.radius_y as i64;
        -r <= dx && dx <= r && -r <= dz && dz <= r && -ry <= y && y <= ry
    }

    /// The chunks of the box, layer by layer from the lowest, row by row.
    #[verifier::rlimit(30)]
    pub fn coords(&self) -> (out: Vec<ChunkCoord>)
        requires
            self.sound(),
        ensures
            out@ == Seq::new(self.count() as nat, |n: int| self.nth(n)),
    {
        let mut out: Vec<ChunkCoord> = Vec::new();
        if self.radius_xz < 0 || self.radius_y < 0 {
            assert(out@ =~= Seq::new(self.count() as nat, |n: int| self.nth(n)));
            return out;
        }
        let ghost w = span(self.radius_xz as int);
        let ghost h = span(self.radius_y as int);
        let x0: i64 = self.center_cx as i64 - self.radius_xz as i64;
        let x1: i64 = self.center_cx as i64 + self.radius_xz as i64;
        let z0: i64 = self.center_cz as i64 - self.radius_xz as i64;
        let z1: i64 = self.center_cz as i64 + self.radius_xz as i64;
        let y0: i64 = -(self.radius_y as i64);
        let y1: i64 = self.radius_y as i64;
        let mut y: i64 = y0;
        while y <= y1
            invariant
                self.sound(),
                self.radius_xz >= 0,
                self.radius_y >= 0,
                w == span(self.radius_xz as int),
                h == span(self.radius_y as int),
                x0 == self.center_cx - self.radius_xz,
                x1 == self.center_cx + self.radius_xz,
                z0 == self.center_cz - self.radius_xz,
                z1 == self.center_cz + self.radius_xz,
                y0 == -self.radius_y,
                y1 == self.radius_y,
                y0 <= y <= y1 + 1,
                out@.len() == (y - y0) * (w * w),
                forall|n: int| 0 <= n < out@.len() ==> #[trigger] out@[n] == self.nth(n),
            decreases y1 + 1 - y,
        {
            let mut z: i64 = z0;
            assert((y - y0) * (w * w) == (y - y0) * (w * w) + (z0 - z0) * w) by (nonlinear_arith);
            while z <= z1
                invariant
                    self.sound(),
                    self.radius_xz >= 0,
                    self.radius_y >= 0,
                    w == span(self.radius_xz as int),
                    x0 == self.center_cx - self.radius_xz,
                    x1 == self.center_cx + self.radius_xz,
                    z0 == self.center_cz - self.radius_xz,
                    z1 == self.center_cz + self.radius_xz,
                    y0 == -self.radius_y,
                    y0 <= y <= y1,
                    y1 == self.radius_y,
                    z0 <= z <= z1 + 1,
                    out@.len() == (y - y0) * (w * w) + (z - z0) * w,
                    forall|n: int| 0 <= n < out@.len() ==> #[trigger] out@[n] == self.nth(n),
                decreases z1 + 1 - z,
            {
                let mut x: i64 = x0;
                while x <= x1
                    invariant
                        self.sound(),
                        self.radius_xz >= 0,
                        self.radius_y >= 0,
                        w == span(self.radius_xz as int),
                        x0 == self.center_cx - self.radius_xz,
                        x1 == self.center_cx + self.radius_xz,
                        z0 == self.center_cz - self.radius_xz,
                        z1 == self.center_cz + self.radius_xz,
                        y0 == -self.radius_y,
                        y0 <= y <= y1,
                        y1 == self.radius_y,
                        z0 <= z <= z1,
                        x0 <= x <= x1 + 1,
                        out@.len() == (y - y0) * (w * w) + (z - z0) * w + (x - x0),
                        forall|n: int| 0 <= n < out@.len() ==> #[trigger] out@[n] == self.nth(n),
                    decreases x1 + 1 - x,
                {
                    proof {
                        lemma_digits(w, x - x0, z - z0, y - y0);
                    }
                    out.push(ChunkCoord(IVec3 { x: x as i32, y: y as i32, z: z as i32 }));
                    x = x + 1;
                }
                assert((z - z0) * w + w == (z + 1 - z0) * w) by (nonlinear_arith);
                z = z + 1;
            }
            assert((y - y0) * (w * w) + w * w == (y + 1 - y0) * (w * w)) by (nonlinear_arith);
            y = y + 1;
        }
        assert(h * (w * w) == w * w * h) by (nonlinear_arith);
        out
    }
}

/// The digits of a number to base `w`, the highest one unbounded.
proof fn lemma_digits(w: int, a: int, b: int, c: int)
    requires
        0 <= a < w,
        0 <= b < w,
        0 <= c,
    ensures
        (c * (w * w) + b * w + a) % w == a,
        ((c * (w * w) + b * w + a) / w) % w == b,
        (c * (w * w) + b * w + a) / (w * w) == c,
{
    let n = c * (w * w) + b * w + a;
    assert(n == (c * w + b) * w + a) by (nonlinear_arith)
        requires
            n == c * (w * w) + b * w + a,
    ;
    vstd::arithmetic::div_mod::lemma_fundamental_div_mod_converse(n, w, c * w + b, a);
    vstd::arithmetic::div_mod::lemma_fundamental_div_mod_converse(c * w + b, w, c, b);
    assert(n == c * (w * w) + (b * w + a)) by (nonlinear_arith)
        requires
            n == c * (w * w) + b * w + a,
    ;
    assert(0 <= b * w + a < w * w) by (nonlinear_arith)
        requires
            0 <= a < w,
            0 <= b < w,
    ;
    vstd::arithmetic::div_mod::lemma_fundamental_div_mod_converse(n, w * w, c, b * w + a);
}

/// Where a chunk of the box stands in the list of its chunks.
pub open spec fn place(r: Region, c: ChunkCoord) -> int {
    let w = span(r.radius_xz as int);
    (c.0.y + r.radius_y) * (w * w) + (c.0.z - (r.center_cz - r.radius_xz)) * w + (c.0.x - (
    r.center_cx - r.radius_xz))
}

/// The list of a box's chunks holds each chunk of the box once and no other.
pub proof fn law_region_lists_its_chunks(r: Region, c: ChunkCoord, n: int)
    requires
        r.sound(),
    ensures
        r.holds(c) ==> 0 <= place(r, c) < r.count() && r.nth(place(r, c)) == c,
        0 <= n < r.count() ==> r.holds(r.nth(n)) && place(r, r.nth(n)) == n,
{
    let w = span(r.radius_xz as int);
    let h = span(r.radius_y as int);
    if r.holds(c) {
        let x = c.0.x - (r.center_cx - r.radius_xz);
        let z = c.0.z - (r.center_cz - r.radius_xz);
        let y = c.0.y + r.radius_y;
        lemma_digits(w, x, z, y);
        assert(0 <= y * (w * w) + z * w + x < w * w * h) by (nonlinear_arith)
            requires
                0 <= x < w,
                0 <= z < w,
                0 <= y < h,
        ;
    }
    if 0 <= n < r.count() {
        let x = n % w;
        let z = (n / w) % w;
        let y = n / (w * w);
        vstd::arithmetic::div_mod::lemma_fundamental_div_mod(n, w);
        vstd::arithmetic::div_mod::lemma_fundamental_div_mod(n / w, w);
        vstd::arithmetic::div_mod::lemma_div_denominator(n, w, w);
        assert(w * w > 0) by (nonlinear_arith)
            requires
                w > 0,
        ;
        assert(0 <= y < h) by {
            vstd::arithmetic::div_mod::lemma_fundamental_div_mod(n, w * w);
            vstd::arithmetic::div_mod::lemma_mod_bound(n, w * w);
            assert(0 <= y < h) by (nonlinear_arith)
                requires
                    n == (w * w) * y + n % (w * w),
                    0 <= n % (w * w) < w * w,
                    0 <= n < w * w * h,
                    w * w > 0,
            ;
        }
        vstd::arithmetic::div_mod::lemma_mod_bound(n, w);
        vstd::arithmetic::div_mod::lemma_mod_bound(n / w, w);
        assert(y * (w * w) + z * w + x == n) by (nonlinear_arith)
            requires
                n == w * (n / w) + x,
                n / w == w * y + z,
        ;
    }
}

} // verus!
