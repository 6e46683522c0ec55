//! What the colours of the shown terrain mean.

use vstd::prelude::*;

use crate::mesher::Face;
use crate::voxel::block::Block;

verus! {

/// What a face's colour stands for.
#[derive(Debug, Clone, Copy, PartialEq, Eq, Structural)]
pub enum PaintMode {
    /// The block's kind.
    Block,
    /// The column's biome.
    Biome,
    /// The column's tectonic plate.
    PlateId,
    /// How far the column was carved or raised.
    HeightDelta,
    /// How steep the terrain is.
    Slope,
}

impl Default for PaintMode {
    fn default() -> (m: Self)
        ensures
            m == PaintMode::Block,
    {
        PaintMode::Block
    }
}

/// The label of a mode.
pub open spec fn label_text(mode: PaintMode) -> Seq<char> {
    match mode {
        PaintMode::Block => "Block"@,
        PaintMode::Biome => "Biome"@,
        PaintMode::PlateId => "Plate ID"@,
        PaintMode::HeightDelta => "Height Δ"@,
        PaintMode::Slope => "Slope"@,
    }
}

/// The description of a mode.
pub open spec fn description_text(mode: PaintMode) -> Seq<char> {
    match mode {
        PaintMode::Block => {
            "Block-type colour (Stone grey, Grass green, Snow white, Lava orange)."@
        },
        PaintMode::Biome => "Column biome — categorical hue per biome variant."@,
        PaintMode::PlateId => {
            "Tectonic plate ID — categorical hue. Reveals plate boundaries."@
        },
        PaintMode::HeightDelta => {
            "Heightmap delta (h_target - h_pre). Red = valley carved by hydrology, blue = lifted by ridge noise."@
        },
        PaintMode::Slope => {
            "Heightmap slope magnitude. Brighter = steeper. Useful for finding cliff-thresholds."@
        },
    }
}

/// All modes in the order they are offered.
pub open spec fn modes() -> Seq<PaintMode> {
    seq![
        PaintMode::Block,
        PaintMode::Biome,
        PaintMode::PlateId,
        PaintMode::HeightDelta,
        PaintMode::Slope,
    ]
}

impl PaintMode {
    /// All modes in the order they are offered.
    pub fn all() -> (a: [PaintMode; 5])
        ensures
            a@ == modes(),
    {
        let a = [
            PaintMode::Block,
            PaintMode::Biome,
            PaintMode::PlateId,
            PaintMode::HeightDelta,
            PaintMode::Slope,
        ];
        assert(a@ =~= modes());
        a
    }

    pub fn label(self) -> (t: &'static str)
        ensures
            t@ == label_text(self),
    {
        match self {
            PaintMode::Block => "Block",
            PaintMode::Biome => "Biome",
            PaintMode::PlateId => "Plate ID",
            PaintMode::HeightDelta => "Height Δ",
            PaintMode::Slope => "Slope",
        }
    }

    pub fn description(self) -> (t: &'static str)
        ensures
            t@ == description_text(self),
    {
        match self {
            PaintMode::Block => {
                "Block-type colour (Stone grey, Grass green, Snow white, Lava orange)."
            },
            PaintMode::Biome => "Column biome — categorical hue per biome variant.",
            PaintMode::PlateId => {
                "Tectonic plate ID — categorical hue. Reveals plate boundaries."
            },
            PaintMode::HeightDelta => {
                "Heightmap delta (h_target - h_pre). Red = valley carved by hydrology, blue = lifted by ridge noise."
            },
            PaintMode::Slope => {
                "Heightmap slope magnitude. Brighter = steeper. Useful for finding cliff-thresholds."
            },
        }
    }

    /// Whether a mode needs data of the column; only block colours do not.
    pub fn needs_column_data(self) -> (b: bool)
        ensures
            b == (self != PaintMode::Block),
    {
        self != PaintMode::Block
    }
}

/// Every mode is offered, once.
pub proof fn law_every_mode_is_offered(mode: PaintMode)
    ensures
        modes().contains(mode),
        modes().no_duplicates(),
{
    let at = match mode {
        PaintMode::Block => 0int,
        PaintMode::Biome => 1,
        PaintMode::PlateId => 2,
        PaintMode::HeightDelta => 3,
        PaintMode::Slope => 4,
    };
    assert(modes()[at] == mode);
}

/// The paint data of one chunk: the mode, where the chunk's columns start, and
/// whether data was gathered for its 32 by 32 columns, row by row.
#[derive(Debug, Clone, Copy, PartialEq, Eq, Structural)]
pub struct PaintContext {
    pub mode: PaintMode,
    pub origin_x: i32,
    pub origin_z: i32,
    pub columns: bool,
}

/// Where the data of column `(wx, wz)` stands among the gathered columns.
pub open spec fn column_at(p: PaintContext, wx: int, wz: int) -> Option<int> {
    let lx = wx - p.origin_x;
    let lz = wz - p.origin_z;
    if p.columns && 0 <= lx < 32 && 0 <= lz < 32 {
        Some(lz * 32 + lx)
    } else {
        None
    }
}

/// The `n`-th column of a chunk whose columns start at `(x, z)`.
pub open spec fn column_of(x: i32, z: i32, n: int) -> (i32, i32) {
    ((x + n % 32) as i32, (z + n / 32) as i32)
}

impl PaintContext {
    /// The context for a mode, and the columns whose data it needs, in the
    /// order in which they are read back.
    pub fn build(mode: PaintMode, origin_x: i32, origin_z: i32) -> (r: (Self, Vec<(i32, i32)>))
        requires
            mode != PaintMode::Block ==> origin_x <= i32::MAX - 31 && origin_z <= i32::MAX - 31,
        ensures
            r.0 == (PaintContext { mode, origin_x, origin_z, columns: mode != PaintMode::Block }),
            mode == PaintMode::Block ==> r.1@.len() == 0,
            mode != PaintMode::Block ==> r.1@ == Seq::new(
                1024,
                |n: int| column_of(origin_x, origin_z, n),
            ),
    {
        let mut wanted: Vec<(i32, i32)> = Vec::new();
        if mode.needs_column_data() {
            let mut n: i32 = 0;
            while n < 1024
                invariant
                    0 <= n <= 1024,
                    origin_x <= i32::MAX - 31,
                    origin_z <= i32::MAX - 31,
                    wanted@.len() == n,
                    forall|k: int|
                        0 <= k < n ==> #[trigger] wanted@[k] == column_of(origin_x, origin_z, k),
                decreases 1024 - n,
            {
                wanted.push((origin_x + n % 32, origin_z + n / 32));
                n = n + 1;
            }
            assert(wanted@ =~= Seq::new(1024, |n: int| column_of(origin_x, origin_z, n)));
        }
        (PaintContext { mode, origin_x, origin_z, columns: mode.needs_column_data() }, wanted)
    }

    /// A context for a mode that needs no data of the columns.
    pub fn without_columns(mode: PaintMode, origin_x: i32, origin_z: i32) -> (p: Self)
        requires
            mode == PaintMode::Block,
        ensures
            p == (PaintContext { mode, origin_x, origin_z, columns: false }),
    {
        PaintContext { mode, origin_x, origin_z, columns: false }
    }

    /// Where the data of column `(wx, wz)` stands; nowhere outside the chunk,
    /// or if the mode needs none.
    pub fn column(&self, wx: i32, wz: i32) -> (r: Option<usize>)
        ensures
            match r {
                Some(i) => column_at(*self, wx as int, wz as int) == Some(i as int) && i < 1024,
                None => column_at(*self, wx as int, wz as int) is None,
            },
    {
        if !self.columns {
            return None;
        }
        let lx: i64 = wx as i64 - self.origin_x as i64;
        let lz: i64 = wz as i64 - self.origin_z as i64;
        if lx < 0 || lz < 0 || lx >= 32 || lz >= 32 {
            None
        } else {
            Some((lz * 32 + lx) as usize)
        }
    }
}

/// A column's data is read back from where it was gathered.
pub proof fn law_columns_read_back(p: PaintContext, n: int)
    requires
        p.columns,
        p.origin_x <= i32::MAX - 31,
        p.origin_z <= i32::MAX - 31,
        0 <= n < 1024,
    ensures
        column_at(
            p,
            column_of(p.origin_x, p.origin_z, n).0 as int,
            column_of(p.origin_x, p.origin_z, n).1 as int,
        ) == Some(n),
{
}

/// Kinds of country a column can lie in.
#[derive(Debug, Clone, Copy, PartialEq, Eq, Structural)]
pub enum Biome {
    Tundra,
    SnowyForest,
    Plains,
    Forest,
    Desert,
    Tropical,
}

/// What the paint modes read of a terrain column.
#[derive(Debug, Clone, Copy, PartialEq, Eq, Structural)]
pub struct PaintColumn {
    pub biome: Biome,
    /// Hash of the column's tectonic plate.
    pub plate: u64,
    /// Height of the finished ground, in blocks.
    pub h_target: i32,
    /// Height before rivers and ridges, in millionths of a block.
    pub h_pre: i64,
    /// Rise of the ground per block, in millionths of a block.
    pub slope: u64,
}

/// A colour in millionths of full brightness: red, green and blue.
pub type Color = [u32; 3];

/// The colour whose channels are given in hundredths.
pub open spec fn hundredths(r: int, g: int, b: int) -> Seq<int> {
    seq![r * 10_000, g * 10_000, b * 10_000]
}

/// Brightness of a face in hundredths: top faces in full sun, sides graduated,
/// bottom faces in shadow.
pub open spec fn tint_of(face: Face) -> int {
    match face {
        Face::PosY => 100,
        Face::PosX | Face::NegZ => 82,
        Face::NegX | Face::PosZ => 66,
        Face::NegY => 40,
    }
}

/// The colour of a kind of block.
pub open spec fn block_hue(b: Block) -> Seq<int> {
    match b {
        Block::Stone => hundredths(55, 55, 55),
        Block::Dirt => hundredths(50, 32, 18),
        Block::Grass => hundredths(30, 65, 25),
        Block::Sand => hundredths(92, 85, 62),
        Block::Snow => hundredths(95, 95, 97),
        Block::Lava => hundredths(100, 45, 8),
        _ => hundredths(40, 40, 40),
    }
}

/// The colour of a biome.
pub open spec fn biome_hue(b: Biome) -> Seq<int> {
    match b {
        Biome::Tundra => hundredths(85, 92, 96),
        Biome::SnowyForest => hundredths(55, 78, 78),
        Biome::Plains => hundredths(66, 86, 52),
        Biome::Forest => hundredths(20, 55, 20),
        Biome::Desert => hundredths(95, 86, 50),
        Biome::Tropical => hundredths(20, 78, 40),
    }
}

/// One channel of a plate's colour: a byte of its hash, mixed half with grey.
pub open spec fn plate_channel(byte: int) -> int {
    500_000 + byte * 500_000 / 255
}

/// The colour of a plate: its hash's three lowest bytes.
pub open spec fn plate_hue(hash: int) -> Seq<int> {
    seq![
        plate_channel(hash % 256),
        plate_channel(hash / 256 % 256),
        plate_channel(hash / 65_536 % 256),
    ]
}

/// The colour of a height change, in millionths of a block: red where the
/// ground was carved and blue where it was raised, full at 16 blocks.
pub open spec fn delta_hue(delta: int) -> Seq<int> {
    if delta < 0 {
        let s = if delta < -16_000_000 {
            16_000_000
        } else {
            -delta
        };
        seq![
            (s * 85 + (16_000_000 - s) * 40) / 1_600,
            (16_000_000 - s) * 65 / 1_600,
            (16_000_000 - s) * 65 / 1_600,
        ]
    } else {
        let s = if delta > 16_000_000 {
            16_000_000
        } else {
            delta
        };
        seq![
            (16_000_000 - s) * 40 / 1_600,
            ((16_000_000 - s) * 40 + s * 20) / 1_600,
            ((16_000_000 - s) * 40 + s * 85) / 1_600,
        ]
    }
}

/// The colour of a slope, in millionths: black, red, yellow and white over
/// slopes from 0 to 6.
pub open spec fn slope_hue(slope: int) -> Seq<int> {
    if slope < 3_000_000 {
        seq![slope / 3, 0, 0]
    } else {
        let s = if slope > 6_000_000 {
            3_000_000
        } else {
            slope - 3_000_000
        };
        seq![1_000_000, s / 3, s * 7 / 30]
    }
}

/// The colour of a column for a mode that reads columns.
pub open spec fn column_hue(mode: PaintMode, c: PaintColumn) -> Seq<int> {
    match mode {
        PaintMode::Block => hundredths(40, 40, 40),
        PaintMode::Biome => biome_hue(c.biome),
        PaintMode::PlateId => plate_hue(c.plate as int),
        PaintMode::HeightDelta => delta_hue(c.h_target * 1_000_000 - c.h_pre),
        PaintMode::Slope => slope_hue(c.slope as int),
    }
}

/// The colour of a block's face before its tint. Where a mode has no data for
/// the column, the face is grey.
pub open spec fn hue_of(
    p: PaintContext,
    columns: Seq<PaintColumn>,
    wx: int,
    wz: int,
    block: Block,
) -> Seq<int> {
    if p.mode == PaintMode::Block {
        block_hue(block)
    } else {
        match column_at(p, wx, wz) {
            Some(i) => if i < columns.len() {
                column_hue(p.mode, columns[i])
            } else {
                hundredths(40, 40, 40)
            },
            None => hundredths(40, 40, 40),
        }
    }
}

/// The colour as mathematical values.
pub open spec fn channels(c: Color) -> Seq<int> {
    seq![c[0] as int, c[1] as int, c[2] as int]
}

/// Every channel lies between dark and full brightness.
pub open spec fn in_gamut(hue: Seq<int>) -> bool {
    hue.len() == 3 && forall|i: int| 0 <= i < 3 ==> 0 <= #[trigger] hue[i] <= 1_000_000
}

/// Brightness of a face, in hundredths.
pub fn face_tint(face: Face) -> (t: u32)
    ensures
        t == tint_of(face),
{
    match face {
        Face::PosY => 100,
        Face::PosX | Face::NegZ => 82,
        Face::NegX | Face::PosZ => 66,
        Face::NegY => 40,
    }
}

/// The colour of a kind of block.
pub fn block_color(b: Block) -> (c: Color)
    ensures
        channels(c) == block_hue(b),
{
    match b {
        Block::Stone => [550_000, 550_000, 550_000],
        Block::Dirt => [500_000, 320_000, 180_000],
        Block::Grass => [300_000, 650_000, 250_000],
        Block::Sand => [920_000, 850_000, 620_000],
        Block::Snow => [950_000, 950_000, 970_000],
        Block::Lava => [1_000_000, 450_000, 80_000],
        _ => [400_000, 400_000, 400_000],
    }
}

/// The colour of a biome.
pub fn biome_color(b: Biome) -> (c: Color)
    ensures
        channels(c) == biome_hue(b),
{
    match b {
        Biome::Tundra => [850_000, 920_000, 960_000],
        Biome::SnowyForest => [550_000, 780_000, 780_000],
        Biome::Plains => [660_000, 860_000, 520_000],
        Biome::Forest => [200_000, 550_000, 200_000],
        Biome::Desert => [950_000, 860_000, 500_000],
        Biome::Tropical => [200_000, 780_000, 400_000],
    }
}

/// The colour of a plate with a given hash.
pub fn plate_color(hash: u64) -> (c: Color)
    ensures
        channels(c) == plate_hue(hash as int),
{
    let r: u64 = 500_000 + hash % 256 * 500_000 / 255;
    let g: u64 = 500_000 + hash / 256 % 256 * 500_000 / 255;
    let b: u64 = 500_000 + hash / 65_536 % 256 * 500_000 / 255;
    [r as u32, g as u32, b as u32]
}

/// The colour of how far a column was carved or raised.
pub fn height_delta_color(c: &PaintColumn) -> (r: Color)
    ensures
        channels(r) == delta_hue(c.h_target * 1_000_000 - c.h_pre),
{
    let delta: i128 = c.h_target as i128 * 1_000_000 - c.h_pre as i128;
    if delta < 0 {
        let s: i64 = if delta < -16_000_000 {
            16_000_000
        } else {
            (-delta) as i64
        };
        let rest: i64 = 16_000_000 - s;
        let faded: u32 = (rest * 65 / 1_600) as u32;
        [((s * 85 + rest * 40) / 1_600) as u32, faded, faded]
    } else {
        let s: i64 = if delta > 16_000_000 {
            16_000_000
        } else {
            delta as i64
        };
        let rest: i64 = 16_000_000 - s;
        [
            (rest * 40 / 1_600) as u32,
            ((rest * 40 + s * 20) / 1_600) as u32,
            ((rest * 40 + s * 85) / 1_600) as u32,
        ]
    }
}

/// The colour of how steep a column is.
pub fn slope_color(c: &PaintColumn) -> (r: Color)
    ensures
        channels(r) == slope_hue(c.slope as int),
{
    if c.slope < 3_000_000 {
        [(c.slope / 3) as u32, 0, 0]
    } else {
        let s: u64 = if c.slope > 6_000_000 {
            3_000_000
        } else {
            c.slope - 3_000_000
        };
        [1_000_000, (s / 3) as u32, (s * 7 / 30) as u32]
    }
}

/// Every colour a face can take before its tint lies between dark and full.
pub proof fn law_colors_are_in_gamut(
    p: PaintContext,
    columns: Seq<PaintColumn>,
    wx: int,
    wz: int,
    block: Block,
)
    ensures
        in_gamut(hue_of(p, columns, wx, wz, block)),
{
}

/// A colour dimmed to some hundredths of it.
fn tinted(c: Color, tint: u32) -> (r: Color)
    requires
        in_gamut(channels(c)),
        tint <= 100,
    ensures
        channels(r) == channels(c).map_values(|v: int| v * tint / 100),
{
    assert(channels(c)[0] <= 1_000_000 && channels(c)[1] <= 1_000_000 && channels(c)[2]
        <= 1_000_000);
    let t: u64 = tint as u64;
    let red: u64 = c[0] as u64;
    let green: u64 = c[1] as u64;
    let blue: u64 = c[2] as u64;
    assert(0 <= red * t <= 100_000_000 && 0 <= green * t <= 100_000_000 && 0 <= blue * t
        <= 100_000_000) by (nonlinear_arith)
        requires
            red <= 1_000_000,
            green <= 1_000_000,
            blue <= 1_000_000,
            t <= 100,
    ;
    let r: Color = [(red * t / 100) as u32, (green * t / 100) as u32, (blue * t / 100) as u32];
    assert(channels(r) =~= channels(c).map_values(|v: int| v * tint / 100));
    r
}

impl PaintContext {
    /// The colour of a block's face, given the data of the chunk's columns:
    /// what the mode says of the block or its column, tinted by the face's
    /// direction. How high the block stands makes no difference.
    pub fn color_for(
        &self,
        columns: &Vec<PaintColumn>,
        wx: i32,
        _wy: i32,
        wz: i32,
        face: Face,
        block: Block,
    ) -> (c: Color)
        ensures
            channels(c) == hue_of(*self, columns@, wx as int, wz as int, block).map_values(
                |v: int| v * tint_of(face) / 100,
            ),
    {
        let mut base: Color = [400_000, 400_000, 400_000];
        if self.mode == PaintMode::Block {
            base = block_color(block);
        } else if let Some(i) = self.column(wx, wz) {
            if i < columns.len() {
                base = match self.mode {
                    PaintMode::Block => base,
                    PaintMode::Biome => biome_color(columns[i].biome),
                    PaintMode::PlateId => plate_color(columns[i].plate),
                    PaintMode::HeightDelta => height_delta_color(&columns[i]),
                    PaintMode::Slope => slope_color(&columns[i]),
                };
            }
        }
        proof {
            law_colors_are_in_gamut(*self, columns@, wx as int, wz as int, block);
            assert(channels(base) =~= hue_of(*self, columns@, wx as int, wz as int, block));
        }
        let c: Color = tinted(base, face_tint(face));
        assert(channels(c) =~= hue_of(*self, columns@, wx as int, wz as int, block).map_values(
            |v: int| v * tint_of(face) / 100,
        ));
        c
    }
}

} // verus!
