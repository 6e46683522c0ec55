//! The map seen from above: what its pixels stand for. Lengths and pixel
//! positions are in millionths.

use vstd::prelude::*;

use crate::fixed::{clamped, nearest, round, truncate, whole};
use crate::viz::stage::Stage;

verus! {

/// Side of the map, in pixels.
pub const MAP_SIZE_PX: u32 = 256;

/// Least and most blocks per pixel.
pub const MIN_ZOOM: i64 = 500_000;

pub const MAX_ZOOM: i64 = 64_000_000;

/// What a map was drawn for.
#[derive(Debug, Clone, Copy, PartialEq, Eq, Structural)]
pub struct RenderKey {
    pub stage: Stage,
    pub center_wx: i32,
    pub center_wz: i32,
    pub blocks_per_pixel: i32,
    pub config_revision: u64,
}

/// The map.
#[derive(Debug, Clone, Copy, PartialEq, Eq, Structural)]
pub struct MapView {
    pub stage: Stage,
    pub center_wx: i64,
    pub center_wz: i64,
    pub blocks_per_pixel: i64,
    pub last_render_key: Option<RenderKey>,
}

/// The world coordinate of a pixel position on one axis.
pub open spec fn coordinate(center: int, unit: int, px: int) -> int {
    nearest(center + (px - 128_000_000) * unit / 1_000_000)
}

/// The pixel position of a world coordinate on one axis.
pub open spec fn pixel(center: int, unit: int, w: int) -> int {
    128_000_000 + (w * 1_000_000 - center) * 1_000_000 / unit
}

/// Whether a pixel position lies on the map.
pub open spec fn on_map(p: int) -> bool {
    0 <= p < 256_000_000
}

/// What a picture of a map is drawn for.
pub open spec fn key_of(m: MapView, revision: u64) -> RenderKey {
    RenderKey {
        stage: m.stage,
        center_wx: clamped(whole(m.center_wx as int)),
        center_wz: clamped(whole(m.center_wz as int)),
        blocks_per_pixel: clamped(whole(m.blocks_per_pixel as int)),
        config_revision: revision,
    }
}

/// A value between bounds.
pub open spec fn bounded(v: int, lo: int, hi: int) -> int {
    if v < lo {
        lo
    } else if v > hi {
        hi
    } else {
        v
    }
}

/// Floor division of wide numbers by a positive one.
fn floor_div(a: i128, b: i128) -> (q: i128)
    requires
        0 < b,
        a > i128::MIN,
    ensures
        q == a as int / b as int,
{
    if a >= 0 {
        a / b
    } else {
        let up: i128 = -a;
        let q: i128 = up / b;
        let r: i128 = up % b;
        proof {
            vstd::arithmetic::div_mod::lemma_fundamental_div_mod(up as int, b as int);
            vstd::arithmetic::div_mod::lemma_mod_bound(up as int, b as int);
        }
        assert(0 <= q <= up) by (nonlinear_arith)
            requires
                up == b * q + r,
                0 <= r < b,
                0 <= up,
                0 < b,
        ;
        if r == 0 {
            proof {
                assert(a == (-q) * b + 0) by (nonlinear_arith)
                    requires
                        -a == b * q + 0,
                ;
                vstd::arithmetic::div_mod::lemma_fundamental_div_mod_converse(
                    a as int,
                    b as int,
                    -q as int,
                    0,
                );
            }
            -q
        } else {
            proof {
                assert(a == (-q - 1) * b + (b - r)) by (nonlinear_arith)
                    requires
                        -a == b * q + r,
                ;
                vstd::arithmetic::div_mod::lemma_fundamental_div_mod_converse(
                    a as int,
                    b as int,
                    -q - 1,
                    b - r,
                );
            }
            -q - 1
        }
    }
}

/// The map after it was dragged.
pub open spec fn panned(m: MapView, dx: int, dy: int) -> MapView {
    MapView {
        center_wx: bounded(
            m.center_wx - dx * m.blocks_per_pixel / 1_000_000,
            i64::MIN as int,
            i64::MAX as int,
        ) as i64,
        center_wz: bounded(
            m.center_wz - dy * m.blocks_per_pixel / 1_000_000,
            i64::MIN as int,
            i64::MAX as int,
        ) as i64,
        last_render_key: None,
        ..m
    }
}

/// The map after its blocks per pixel were scaled.
pub open spec fn zoomed(m: MapView, factor: int) -> MapView {
    MapView {
        blocks_per_pixel: bounded(
            m.blocks_per_pixel * factor / 1_000_000,
            MIN_ZOOM as int,
            MAX_ZOOM as int,
        ) as i64,
        last_render_key: None,
        ..m
    }
}

fn clamp_wide(v: i128) -> (r: i64)
    ensures
        r == bounded(v as int, i64::MIN as int, i64::MAX as int),
{
    if v < i64::MIN as i128 {
        i64::MIN
    } else if v > i64::MAX as i128 {
        i64::MAX
    } else {
        v as i64
    }
}

/// A distance in pixels, as one in the world.
fn scaled(d: i128, unit: i64) -> (r: i128)
    requires
        -0x2_0000_0000_0000_0000 <= d <= 0x2_0000_0000_0000_0000,
        0 <= unit <= MAX_ZOOM,
    ensures
        r == d * unit / 1_000_000,
        -0x2_0000_0000_0000_0000 * 64 <= r <= 0x2_0000_0000_0000_0000 * 64,
{
    assert(-0x2_0000_0000_0000_0000 * 64_000_000 <= d * unit <= 0x2_0000_0000_0000_0000
        * 64_000_000) by (nonlinear_arith)
        requires
            -0x2_0000_0000_0000_0000 <= d <= 0x2_0000_0000_0000_0000,
            0 <= unit <= 64_000_000,
    ;
    floor_div(d * unit as i128, 1_000_000)
}

impl MapView {
    /// The blocks per pixel are within bounds.
    pub open spec fn wf(&self) -> bool {
        MIN_ZOOM <= self.blocks_per_pixel <= MAX_ZOOM
    }

    pub fn new() -> (m: Self)
        ensures
            m == (MapView {
                stage: Stage::HTarget,
                center_wx: 0,
                center_wz: 0,
                blocks_per_pixel: 4_000_000,
                last_render_key: None,
            }),
            m.wf(),
    {
        MapView {
            stage: Stage::HTarget,
            center_wx: 0,
            center_wz: 0,
            blocks_per_pixel: 4_000_000,
            last_render_key: None,
        }
    }

    /// Show another stage.
    pub fn set_stage(&mut self, stage: Stage)
        ensures
            *final(self) == (if old(self).stage == stage {
                *old(self)
            } else {
                MapView { stage, last_render_key: None, ..*old(self) }
            }),
    {
        if self.stage != stage {
            self.stage = stage;
            self.last_render_key = None;
        }
    }

    /// The column a pixel position stands for.
    pub fn pixel_to_world(&self, px: i64, py: i64) -> (p: (i32, i32))
        requires
            self.wf(),
        ensures
            p.0 == clamped(
                coordinate(self.center_wx as int, self.blocks_per_pixel as int, px as int),
            ),
            p.1 == clamped(
                coordinate(self.center_wz as int, self.blocks_per_pixel as int, py as int),
            ),
    {
        let dx: i128 = scaled(px as i128 - 128_000_000, self.blocks_per_pixel);
        let dz: i128 = scaled(py as i128 - 128_000_000, self.blocks_per_pixel);
        (round(self.center_wx as i128 + dx), round(self.center_wz as i128 + dz))
    }

    /// The pixel position of a column, if it is on the map.
    pub fn world_to_pixel(&self, wx: i32, wz: i32) -> (r: Option<(i64, i64)>)
        requires
            self.wf(),
        ensures
            ({
                let px = pixel(self.center_wx as int, self.blocks_per_pixel as int, wx as int);
                let py = pixel(self.center_wz as int, self.blocks_per_pixel as int, wz as int);
                match r {
                    Some(p) => on_map(px) && on_map(py) && p.0 == px && p.1 == py,
                    None => !(on_map(px) && on_map(py)),
                }
            }),
    {
        let unit: i128 = self.blocks_per_pixel as i128;
        let dx: i128 = (wx as i128 * 1_000_000 - self.center_wx as i128) * 1_000_000;
        let dz: i128 = (wz as i128 * 1_000_000 - self.center_wz as i128) * 1_000_000;
        let qx: i128 = floor_div(dx, unit);
        let qz: i128 = floor_div(dz, unit);
        proof {
            lemma_quotient_small(dx as int, unit as int);
            lemma_quotient_small(dz as int, unit as int);
        }
        let px: i128 = 128_000_000 + qx;
        let py: i128 = 128_000_000 + qz;
        if px < 0 || px >= 256_000_000 || py < 0 || py >= 256_000_000 {
            None
        } else {
            Some((px as i64, py as i64))
        }
    }

    /// Drag the map.
    pub fn pan(&mut self, dx_px: i64, dy_px: i64)
        requires
            old(self).wf(),
        ensures
            *final(self) == panned(*old(self), dx_px as int, dy_px as int),
            final(self).wf(),
    {
        let dx: i128 = scaled(dx_px as i128, self.blocks_per_pixel);
        let dz: i128 = scaled(dy_px as i128, self.blocks_per_pixel);
        self.center_wx = clamp_wide(self.center_wx as i128 - dx);
        self.center_wz = clamp_wide(self.center_wz as i128 - dz);
        self.last_render_key = None;
    }

    /// Scale the blocks per pixel by a factor.
    pub fn zoom(&mut self, factor: i64)
        requires
            old(self).wf(),
        ensures
            *final(self) == zoomed(*old(self), factor as int),
            final(self).wf(),
    {
        let v: i128 = scaled(factor as i128, self.blocks_per_pixel);
        assert(factor * self.blocks_per_pixel == self.blocks_per_pixel * factor)
            by (nonlinear_arith);
        self.blocks_per_pixel = if v < MIN_ZOOM as i128 {
            MIN_ZOOM
        } else if v > MAX_ZOOM as i128 {
            MAX_ZOOM
        } else {
            v as i64
        };
        self.last_render_key = None;
    }

    /// Whether the map has to be drawn, for it shows something else or there
    /// is no picture; notes what it is drawn for.
    pub fn regenerate(&mut self, revision: u64, drawn: bool) -> (b: bool)
        ensures
            b == !(drawn && old(self).last_render_key == Some(key_of(*old(self), revision))),
            *final(self) == (if b {
                MapView { last_render_key: Some(key_of(*old(self), revision)), ..*old(self) }
            } else {
                *old(self)
            }),
    {
        let key: RenderKey = RenderKey {
            stage: self.stage,
            center_wx: truncate(self.center_wx),
            center_wz: truncate(self.center_wz),
            blocks_per_pixel: truncate(self.blocks_per_pixel),
            config_revision: revision,
        };
        if drawn && self.last_render_key == Some(key) {
            return false;
        }
        self.last_render_key = Some(key);
        true
    }
}

/// Dividing by a positive number does not enlarge.
proof fn lemma_quotient_small(a: int, b: int)
    requires
        0 < b,
    ensures
        a >= 0 ==> 0 <= a / b <= a,
        a < 0 ==> a <= a / b < 0,
{
    vstd::arithmetic::div_mod::lemma_fundamental_div_mod(a, b);
    vstd::arithmetic::div_mod::lemma_mod_bound(a, b);
    let q = a / b;
    let r = a % b;
    assert(a >= 0 ==> 0 <= q <= a) by (nonlinear_arith)
        requires
            a == b * q + r,
            0 <= r < b,
    ;
    assert(a < 0 ==> a <= q < 0) by (nonlinear_arith)
        requires
            a == b * q + r,
            0 <= r < b,
    ;
}

/// A click on the map and the place of the column it names are at most half a
/// block apart, up to the smallest fraction of a pixel.
pub proof fn law_pixel_round_trip(center: int, unit: int, px: int)
    requires
        MIN_ZOOM <= unit <= MAX_ZOOM,
    ensures
        ({
            let back = pixel(center, unit, coordinate(center, unit, px));
            let off = (back - px) * unit;
            -500_001 * 1_000_000 - unit <= off <= 500_001 * 1_000_000
        }),
{
    let d = (px - 128_000_000) * unit;
    let t = d / 1_000_000;
    vstd::arithmetic::div_mod::lemma_fundamental_div_mod(d, 1_000_000);
    let w = nearest(center + t);
    crate::fixed::law_rounding_is_near(center + t);
    let e = (w * 1_000_000 - center) * 1_000_000;
    let q = e / unit;
    vstd::arithmetic::div_mod::lemma_fundamental_div_mod(e, unit);
    vstd::arithmetic::div_mod::lemma_mod_bound(e, unit);
    let back = pixel(center, unit, w);
    assert(back == 128_000_000 + q);
    assert((back - px) * unit == unit * q - d) by (nonlinear_arith)
        requires
            back == 128_000_000 + q,
            d == (px - 128_000_000) * unit,
    ;
    assert(unit * q == e - e % unit);
    assert(e - 1_000_000 * t <= 500_000 * 1_000_000 && e - 1_000_000 * t >= -500_000 * 1_000_000);
}

/// Dragging the map moves its centre the other way.
pub proof fn law_pan_moves_against_drag(m: MapView, dx: int)
    requires
        m.wf(),
        dx >= 1_000_000,
        m.center_wx > i64::MIN,
    ensures
        panned(m, dx, 0).center_wx < m.center_wx,
        panned(m, dx, 0).center_wz == m.center_wz,
{
    let unit = m.blocks_per_pixel as int;
    assert(dx * unit >= 1_000_000 * unit) by (nonlinear_arith)
        requires
            dx >= 1_000_000,
            unit > 0,
    ;
    assert(0 * unit == 0) by (nonlinear_arith);
}

/// However far the map is zoomed, its blocks per pixel stay within bounds.
pub proof fn law_zoom_stays_in_bounds(m: MapView, factor: int)
    ensures
        zoomed(m, factor).wf(),
{
}

} // verus!
