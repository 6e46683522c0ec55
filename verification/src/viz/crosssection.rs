//! A cut through the world: which plane is shown, and what its pixels stand
//! for. Lengths are in millionths of a block.

use vstd::prelude::*;

use crate::fixed::{clamped, nearest, round, truncate, whole, ONE};
use crate::viz::colormap::{bytes_of, density_color, density_hue};
use crate::voxel::block::Block;

verus! {

/// Side of the picture, in pixels.
pub const PLOT_PX: u32 = 128;

/// The plane of the cut.
#[derive(Debug, Clone, Copy, PartialEq, Eq, Structural)]
pub enum Orientation {
    /// Level: x runs right, z up.
    Xz,
    /// Upright at fixed z: x runs right, y up.
    Xy,
    /// Upright at fixed x: z runs right, y up.
    Yz,
}

/// The label of an orientation.
pub open spec fn orientation_label(o: Orientation) -> Seq<char> {
    match o {
        Orientation::Xz => "XZ (horizontal)"@,
        Orientation::Xy => "XY (vertical, fixed Z)"@,
        Orientation::Yz => "YZ (vertical, fixed X)"@,
    }
}

/// The label of the axis across an orientation's plane.
pub open spec fn axis_label(o: Orientation) -> Seq<char> {
    match o {
        Orientation::Xz => "slice Y"@,
        Orientation::Xy => "slice Z"@,
        Orientation::Yz => "slice X"@,
    }
}

impl Orientation {
    pub fn label(self) -> (t: &'static str)
        ensures
            t@ == orientation_label(self),
    {
        match self {
            Orientation::Xz => "XZ (horizontal)",
            Orientation::Xy => "XY (vertical, fixed Z)",
            Orientation::Yz => "YZ (vertical, fixed X)",
        }
    }

    pub fn slice_axis_label(self) -> (t: &'static str)
        ensures
            t@ == axis_label(self),
    {
        match self {
            Orientation::Xz => "slice Y",
            Orientation::Xy => "slice Z",
            Orientation::Yz => "slice X",
        }
    }
}

/// What the cut shows.
#[derive(Debug, Clone, Copy, PartialEq, Eq, Structural)]
pub enum Layer {
    /// The signed density.
    Density,
    /// The block.
    Block,
}

/// The label of a layer.
pub open spec fn layer_label(l: Layer) -> Seq<char> {
    match l {
        Layer::Density => "Density (signed)"@,
        Layer::Block => "Block"@,
    }
}

impl Layer {
    pub fn label(self) -> (t: &'static str)
        ensures
            t@ == layer_label(self),
    {
        match self {
            Layer::Density => "Density (signed)",
            Layer::Block => "Block",
        }
    }
}

/// What a picture was drawn for.
#[derive(Debug, Clone, Copy, PartialEq, Eq, Structural)]
pub struct RenderKey {
    pub orientation: Orientation,
    pub layer: Layer,
    pub slice_axis: i32,
    pub center_a: i32,
    pub center_b: i32,
    /// Hundredths of a block per pixel.
    pub blocks_per_pixel: i32,
    pub config_revision: u64,
}

/// A column and its height.
#[derive(Debug, Clone, Copy, PartialEq, Eq, Structural)]
pub struct Pin {
    pub wx: i32,
    pub h_target: i32,
    pub wz: i32,
}

/// The cut.
#[derive(Debug, Clone, Copy, PartialEq, Eq, Structural)]
pub struct CrossSection {
    pub orientation: Orientation,
    pub layer: Layer,
    /// Where the plane stands on the axis across it.
    pub slice_axis: i32,
    /// What is at the centre, along the picture's axes.
    pub center_a: i64,
    pub center_b: i64,
    pub blocks_per_pixel: i64,
    pub last_seen_pin: Option<Pin>,
    pub last_key: Option<RenderKey>,
}

/// A cut whose plane and centre are moved to a column.
pub open spec fn focused(c: CrossSection, p: Pin) -> CrossSection {
    match c.orientation {
        Orientation::Xz => CrossSection {
            center_a: (p.wx * 1_000_000) as i64,
            center_b: (p.wz * 1_000_000) as i64,
            slice_axis: p.h_target,
            ..c
        },
        Orientation::Xy => CrossSection {
            center_a: (p.wx * 1_000_000) as i64,
            center_b: (p.h_target * 1_000_000) as i64,
            slice_axis: p.wz,
            ..c
        },
        Orientation::Yz => CrossSection {
            center_a: (p.wz * 1_000_000) as i64,
            center_b: (p.h_target * 1_000_000) as i64,
            slice_axis: p.wx,
            ..c
        },
    }
}

/// The position a pixel stands for: pixels count right and down from the top
/// left corner.
pub open spec fn position_of(c: CrossSection, px: int, py: int) -> (i32, i32, i32) {
    let a = clamped(nearest(c.center_a + (px - 64) * c.blocks_per_pixel));
    let b = clamped(nearest(c.center_b - (py - 64) * c.blocks_per_pixel));
    match c.orientation {
        Orientation::Xz => (a, c.slice_axis, b),
        Orientation::Xy => (a, b, c.slice_axis),
        Orientation::Yz => (c.slice_axis, b, a),
    }
}

/// What a picture of a cut is drawn for.
pub open spec fn key_of(c: CrossSection, revision: u64) -> RenderKey {
    RenderKey {
        orientation: c.orientation,
        layer: c.layer,
        slice_axis: c.slice_axis,
        center_a: clamped(whole(c.center_a as int)),
        center_b: clamped(whole(c.center_b as int)),
        blocks_per_pixel: clamped(whole(c.blocks_per_pixel * 100)),
        config_revision: revision,
    }
}

impl CrossSection {
    pub fn new() -> (c: Self)
        ensures
            c == (CrossSection {
                orientation: Orientation::Xy,
                layer: Layer::Density,
                slice_axis: 0,
                center_a: 0,
                center_b: 70_000_000,
                blocks_per_pixel: ONE,
                last_seen_pin: None,
                last_key: None,
            }),
    {
        CrossSection {
            orientation: Orientation::Xy,
            layer: Layer::Density,
            slice_axis: 0,
            center_a: 0,
            center_b: 70_000_000,
            blocks_per_pixel: ONE,
            last_seen_pin: None,
            last_key: None,
        }
    }

    /// Move the plane and the centre to a column.
    pub fn focus_on(&mut self, wx: i32, h_target: i32, wz: i32)
        ensures
            *final(self) == focused(*old(self), Pin { wx, h_target, wz }),
    {
        let x: i64 = wx as i64 * ONE;
        let y: i64 = h_target as i64 * ONE;
        let z: i64 = wz as i64 * ONE;
        match self.orientation {
            Orientation::Xz => {
                self.center_a = x;
                self.center_b = z;
                self.slice_axis = h_target;
            },
            Orientation::Xy => {
                self.center_a = x;
                self.center_b = y;
                self.slice_axis = wz;
            },
            Orientation::Yz => {
                self.center_a = z;
                self.center_b = y;
                self.slice_axis = wx;
            },
        }
    }

    /// The pinned column of this frame: a new one is moved to.
    pub fn see_pin(&mut self, pin: Option<Pin>)
        ensures
            *final(self) == (if pin == old(self).last_seen_pin {
                *old(self)
            } else {
                match pin {
                    Some(p) => CrossSection { last_seen_pin: pin, ..focused(*old(self), p) },
                    None => CrossSection { last_seen_pin: None, ..*old(self) },
                }
            }),
    {
        if pin != self.last_seen_pin {
            if let Some(p) = pin {
                self.focus_on(p.wx, p.h_target, p.wz);
            }
            self.last_seen_pin = pin;
        }
    }

    /// Choose an orientation. A change moves to the pinned column under the
    /// new axes.
    pub fn set_orientation(&mut self, orientation: Orientation, pin: Option<Pin>)
        ensures
            *final(self) == (if orientation == old(self).orientation {
                *old(self)
            } else {
                let turned = CrossSection { orientation, ..*old(self) };
                match pin {
                    Some(p) => focused(turned, p),
                    None => turned,
                }
            }),
    {
        if orientation != self.orientation {
            self.orientation = orientation;
            if let Some(p) = pin {
                self.focus_on(p.wx, p.h_target, p.wz);
            }
        }
    }

    /// The position a pixel stands for.
    pub fn pixel_to_world(&self, px: u32, py: u32) -> (p: (i32, i32, i32))
        ensures
            p == position_of(*self, px as int, py as int),
    {
        let half: i128 = 64;
        let dx: i128 = px as i128 - half;
        let dy: i128 = py as i128 - half;
        let unit: i128 = self.blocks_per_pixel as i128;
        assert(-0x1_0000_0000 * 0x1_0000_0000_0000_0000 <= dx * unit <= 0x1_0000_0000
            * 0x1_0000_0000_0000_0000) by (nonlinear_arith)
            requires
                -0x1_0000_0000 <= dx <= 0x1_0000_0000,
                -0x1_0000_0000_0000_0000 <= unit <= 0x1_0000_0000_0000_0000,
        ;
        assert(-0x1_0000_0000 * 0x1_0000_0000_0000_0000 <= dy * unit <= 0x1_0000_0000
            * 0x1_0000_0000_0000_0000) by (nonlinear_arith)
            requires
                -0x1_0000_0000 <= dy <= 0x1_0000_0000,
                -0x1_0000_0000_0000_0000 <= unit <= 0x1_0000_0000_0000_0000,
        ;
        let a: i32 = round(self.center_a as i128 + dx * unit);
        let b: i32 = round(self.center_b as i128 - dy * unit);
        match self.orientation {
            Orientation::Xz => (a, self.slice_axis, b),
            Orientation::Xy => (a, b, self.slice_axis),
            Orientation::Yz => (self.slice_axis, b, a),
        }
    }

    /// Whether the picture has to be drawn, for it shows something else or
    /// there is none; notes what it is drawn for.
    pub fn regenerate(&mut self, revision: u64, drawn: bool) -> (b: bool)
        ensures
            b == !(drawn && old(self).last_key == Some(key_of(*old(self), revision))),
            *final(self) == (if b {
                CrossSection { last_key: Some(key_of(*old(self), revision)), ..*old(self) }
            } else {
                *old(self)
            }),
    {
        let hundred: i128 = self.blocks_per_pixel as i128 * 100;
        let zoom: i32 = if hundred >= 0 {
            crate::fixed::clamp_to_int(hundred / 1_000_000)
        } else {
            crate::fixed::clamp_to_int(-((-hundred) / 1_000_000))
        };
        let key: RenderKey = RenderKey {
            orientation: self.orientation,
            layer: self.layer,
            slice_axis: self.slice_axis,
            center_a: truncate(self.center_a),
            center_b: truncate(self.center_b),
            blocks_per_pixel: zoom,
            config_revision: revision,
        };
        if drawn && self.last_key == Some(key) {
            return false;
        }
        self.last_key = Some(key);
        true
    }
}

/// After moving to a column, the middle pixel stands for its surface.
pub proof fn law_focus_centres_column(c: CrossSection, p: Pin)
    ensures
        position_of(focused(c, p), 64, 64) == (p.wx, p.h_target, p.wz),
{
    assert((64 - 64) * c.blocks_per_pixel == 0) by (nonlinear_arith);
}

/// A picture once drawn is drawn again only for something else.
pub proof fn law_same_cut_is_drawn_once(c: CrossSection, revision: u64)
    ensures
        key_of(
            CrossSection { last_key: Some(key_of(c, revision)), ..c },
            revision,
        ) == key_of(c, revision),
{
}

/// The colour of a block, as red, green, blue and opacity.
pub open spec fn color_of(b: Block) -> Seq<u8> {
    match b {
        Block::Air => seq![10u8, 12u8, 24u8, 255u8],
        Block::Stone => seq![140u8, 140u8, 140u8, 255u8],
        Block::Dirt => seq![128u8, 82u8, 46u8, 255u8],
        Block::Grass => seq![77u8, 166u8, 64u8, 255u8],
        Block::Sand => seq![235u8, 217u8, 158u8, 255u8],
        Block::Snow => seq![242u8, 242u8, 247u8, 255u8],
        Block::Water => seq![60u8, 100u8, 200u8, 255u8],
        Block::Lava => seq![255u8, 115u8, 20u8, 255u8],
        _ => seq![80u8, 80u8, 80u8, 255u8],
    }
}

/// The colour of a block.
pub fn block_color(b: Block) -> (c: [u8; 4])
    ensures
        c@ == color_of(b),
{
    let c: [u8; 4] = match b {
        Block::Air => [10, 12, 24, 255],
        Block::Stone => [140, 140, 140, 255],
        Block::Dirt => [128, 82, 46, 255],
        Block::Grass => [77, 166, 64, 255],
        Block::Sand => [235, 217, 158, 255],
        Block::Snow => [242, 242, 247, 255],
        Block::Water => [60, 100, 200, 255],
        Block::Lava => [255, 115, 20, 255],
        _ => [80, 80, 80, 255],
    };
    assert(c@ =~= color_of(b));
    c
}

/// The colour of a pixel of a layer, given the density and the block there.
pub fn sample_pixel(layer: Layer, density: i64, block: Block) -> (c: [u8; 4])
    ensures
        match layer {
            Layer::Density => bytes_of(c) == density_hue(density as int),
            Layer::Block => c@ == color_of(block),
        },
{
    match layer {
        Layer::Density => density_color(density),
        Layer::Block => block_color(block),
    }
}

} // verus!
