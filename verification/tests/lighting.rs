use oxium::lighting::flood::neighbor_cell;
use oxium::lighting::sky_sources::{ChunkSkyLightSources, NO_SOURCE_FLOOR};
use oxium::lighting::{
    mirror_boundary, recompute_chunk, recompute_chunk_with_inputs, seed_from_neighbors,
    snapshot_face_boundaries, BfsChannel,
};
use oxium::mesher::Face;
use oxium::voxel::block::{Block, BlockRegistry};
use oxium::voxel::chunk::{
    pack_rgb, unpack_rgb, ChunkLightInputs, DenseChunk, Neighbors, PalettedChunk,
};
use oxium::voxel::coords::{BlockPos, ChunkCoord, IVec3, LocalPos, UVec3, CHUNK_DIM_U};

fn empty_neighbors() -> Neighbors<'static> {
    Neighbors { chunks: [None; 6] }
}

fn cell(x: u32, y: u32, z: u32) -> usize {
    LocalPos(UVec3::new(x, y, z)).to_index()
}

fn origin_chunk() -> ChunkCoord {
    ChunkCoord(IVec3::new(0, 0, 0))
}

#[test]
fn all_air_has_full_sky_light() {
    let mut c = DenseChunk::empty();
    let r = BlockRegistry::new();
    recompute_chunk(&mut c, &empty_neighbors(), &r);
    assert!(c.sky_light.iter().all(|&v| v == 15));
}

#[test]
fn full_stone_has_no_sky_light() {
    let mut c = DenseChunk::new_filled(Block::Stone);
    let r = BlockRegistry::new();
    recompute_chunk(&mut c, &empty_neighbors(), &r);
    assert!(c.sky_light.iter().all(|&v| v == 0));
}

#[test]
fn torch_emits_block_light_with_falloff() {
    let mut c = DenseChunk::empty();
    c.set(LocalPos(UVec3::new(16, 16, 16)), Block::Torch);
    let r = BlockRegistry::new();
    recompute_chunk(&mut c, &empty_neighbors(), &r);
    let center = cell(16, 16, 16);
    let adj = cell(17, 16, 16);
    let far = cell(20, 16, 16);
    let (cr, cg, cb) = unpack_rgb(c.block_rgb[center]);
    let (ar, ag, ab) = unpack_rgb(c.block_rgb[adj]);
    let (fr, fg, fb) = unpack_rgb(c.block_rgb[far]);
    assert_eq!(cr, 13);
    assert_eq!(cg, 13);
    assert_eq!(cb, 13);
    assert!(ar >= 11, "adj R too low: {}", ar);
    assert_eq!(ag, ar, "G should match R for a uniformly-emissive torch");
    assert_eq!(ab, ar, "B should match R for a uniformly-emissive torch");
    assert!(fr < ar);
    assert_eq!(fg, fr);
    assert_eq!(fb, fr);
}

#[test]
fn torch_light_falls_by_one_per_step() {
    let mut c = DenseChunk::empty();
    c.set(LocalPos(UVec3::new(16, 16, 16)), Block::Torch);
    recompute_chunk(&mut c, &empty_neighbors(), &BlockRegistry::new());
    assert_eq!(unpack_rgb(c.block_rgb[cell(17, 16, 16)]), (12, 12, 12));
    assert_eq!(unpack_rgb(c.block_rgb[cell(20, 16, 16)]), (9, 9, 9));
    assert_eq!(unpack_rgb(c.block_rgb[cell(18, 18, 18)]), (7, 7, 7));
    assert_eq!(unpack_rgb(c.block_rgb[cell(16, 16, 29)]), (0, 0, 0));
}

#[test]
fn lava_light_is_coloured() {
    let mut c = DenseChunk::empty();
    c.set(LocalPos(UVec3::new(4, 4, 4)), Block::Lava);
    recompute_chunk(&mut c, &empty_neighbors(), &BlockRegistry::new());
    assert_eq!(unpack_rgb(c.block_rgb[cell(4, 4, 4)]), (15, 6, 2));
    assert_eq!(unpack_rgb(c.block_rgb[cell(5, 4, 4)]), (14, 5, 1));
    assert_eq!(unpack_rgb(c.block_rgb[cell(8, 4, 4)]), (11, 2, 0));
}

#[test]
fn water_costs_three_per_step() {
    let mut c = DenseChunk::new_filled(Block::Water);
    c.set(LocalPos(UVec3::new(16, 16, 16)), Block::Torch);
    recompute_chunk(&mut c, &empty_neighbors(), &BlockRegistry::new());
    assert_eq!(unpack_rgb(c.block_rgb[cell(17, 16, 16)]).0, 10);
    assert_eq!(unpack_rgb(c.block_rgb[cell(18, 16, 16)]).0, 7);
    assert_eq!(unpack_rgb(c.block_rgb[cell(21, 16, 16)]).0, 0);
}

#[test]
fn light_goes_round_an_opaque_wall() {
    let mut c = DenseChunk::empty();
    c.set(LocalPos(UVec3::new(10, 10, 10)), Block::Torch);
    c.set(LocalPos(UVec3::new(11, 10, 10)), Block::Stone);
    recompute_chunk(&mut c, &empty_neighbors(), &BlockRegistry::new());
    assert_eq!(unpack_rgb(c.block_rgb[cell(11, 10, 10)]).0, 0);
    assert_eq!(unpack_rgb(c.block_rgb[cell(12, 10, 10)]).0, 9);
}

#[test]
fn relighting_twice_changes_nothing() {
    let mut c = DenseChunk::empty();
    c.set(LocalPos(UVec3::new(3, 30, 3)), Block::Stone);
    c.set(LocalPos(UVec3::new(3, 3, 3)), Block::Lava);
    let r = BlockRegistry::new();
    recompute_chunk(&mut c, &empty_neighbors(), &r);
    let (sky, rgb) = (c.sky_light.clone(), c.block_rgb.clone());
    recompute_chunk(&mut c, &empty_neighbors(), &r);
    assert_eq!(c.sky_light, sky);
    assert_eq!(c.block_rgb, rgb);
}

#[test]
fn opaque_block_blocks_sky() {
    let mut c = DenseChunk::empty();
    for z in 0..32 {
        for x in 0..32 {
            c.set(LocalPos(UVec3::new(x, 20, z)), Block::Stone);
        }
    }
    let r = BlockRegistry::new();
    recompute_chunk(&mut c, &empty_neighbors(), &r);
    assert_eq!(c.sky_light[cell(10, 25, 10)], 15);
    assert_eq!(c.sky_light[cell(10, 19, 10)], 0);
}

#[test]
fn sky_spreads_under_an_overhang() {
    let mut c = DenseChunk::empty();
    for z in 0..32 {
        for x in 10..20 {
            c.set(LocalPos(UVec3::new(x, 20, z)), Block::Stone);
        }
    }
    recompute_chunk(&mut c, &empty_neighbors(), &BlockRegistry::new());
    assert_eq!(c.sky_light[cell(9, 19, 10)], 15);
    assert_eq!(c.sky_light[cell(10, 19, 10)], 14);
    assert_eq!(c.sky_light[cell(13, 19, 10)], 11);
}

#[test]
fn vertical_water_column_attenuates_sky() {
    let mut c = DenseChunk::empty();
    for z in 0..32 {
        for x in 0..32 {
            for y in 20..=31 {
                c.set(LocalPos(UVec3::new(x, y, z)), Block::Water);
            }
        }
    }
    let r = BlockRegistry::new();
    recompute_chunk(&mut c, &empty_neighbors(), &r);
    assert_eq!(c.sky_light[cell(10, 31, 10)], 15);
    assert_eq!(c.sky_light[cell(10, 26, 10)], 0);
    assert_eq!(c.sky_light[cell(10, 19, 10)], 0);
}

#[test]
fn beam_loses_three_per_water_and_one_per_leaf() {
    let mut c = DenseChunk::empty();
    for z in 0..32 {
        for x in 0..32 {
            c.set(LocalPos(UVec3::new(x, 31, z)), Block::Water);
            c.set(LocalPos(UVec3::new(x, 30, z)), Block::Leaves);
        }
    }
    recompute_chunk(&mut c, &empty_neighbors(), &BlockRegistry::new());
    assert_eq!(c.sky_light[cell(5, 31, 5)], 15);
    // near the surface the light that spreads is brighter than the beam
    assert_eq!(c.sky_light[cell(5, 30, 5)], 14);
    assert_eq!(c.sky_light[cell(5, 29, 5)], 13);
    assert_eq!(c.sky_light[cell(5, 27, 5)], 11);
    assert_eq!(c.sky_light[cell(5, 0, 5)], 11);
}

#[test]
fn manifest_controls_missing_above_sky_inflow() {
    let mut c = DenseChunk::empty();
    let r = BlockRegistry::new();
    let inputs = ChunkLightInputs::from_dense(&c, origin_chunk(), &r);
    recompute_chunk_with_inputs(&mut c, &empty_neighbors(), &inputs, &r);
    assert!(
        c.sky_light.iter().all(|&v| v == 0),
        "missing +Y with no worldgen sky hint must not assume full daylight"
    );
}

#[test]
fn manifest_open_sky_hint_lights_missing_above() {
    let mut c = DenseChunk::empty();
    let r = BlockRegistry::new();
    let inputs =
        ChunkLightInputs::from_dense_with_surface(&c, origin_chunk(), &r, |_, _| Some(-1));
    recompute_chunk_with_inputs(&mut c, &empty_neighbors(), &inputs, &r);
    assert!(c.sky_light.iter().all(|&v| v == 15));
}

#[test]
fn sky_does_not_seed_upward_from_below_neighbor() {
    let mut c = DenseChunk::empty();
    let mut below = DenseChunk::empty();
    below.sky_light.iter_mut().for_each(|v| *v = 15);
    let r = BlockRegistry::new();
    let inputs = ChunkLightInputs::from_dense(&c, origin_chunk(), &r);
    let neighbors = Neighbors { chunks: [None, None, None, Some(&below), None, None] };

    recompute_chunk_with_inputs(&mut c, &neighbors, &inputs, &r);

    assert!(
        c.sky_light.iter().all(|&v| v == 0),
        "stale lower chunks must not keep sealed sky light alive"
    );
}

#[test]
fn light_crosses_a_seam_one_step_dimmer() {
    let mut lit = DenseChunk::empty();
    lit.set(LocalPos(UVec3::new(0, 5, 5)), Block::Torch);
    let r = BlockRegistry::new();
    recompute_chunk(&mut lit, &empty_neighbors(), &r);
    let mut c = DenseChunk::new_filled(Block::Air);
    let neighbors = Neighbors { chunks: [Some(&lit), None, None, None, None, None] };
    recompute_chunk(&mut c, &neighbors, &r);
    assert_eq!(unpack_rgb(c.block_rgb[cell(31, 5, 5)]).0, 12);
    assert_eq!(unpack_rgb(c.block_rgb[cell(28, 5, 5)]).0, 9);
}

#[test]
fn seeding_only_touches_its_channel() {
    let mut n = DenseChunk::empty();
    n.sky_light.iter_mut().for_each(|v| *v = 9);
    n.block_rgb.iter_mut().for_each(|v| *v = pack_rgb(4, 0, 7));
    let neighbors = Neighbors { chunks: [None, Some(&n), None, None, None, None] };
    let mut c = DenseChunk::empty();
    seed_from_neighbors(&mut c, &neighbors, BfsChannel::Sky);
    assert_eq!(c.sky_light[cell(0, 3, 4)], 8);
    assert_eq!(c.sky_light[cell(1, 3, 4)], 0);
    assert!(c.block_rgb.iter().all(|&v| v == 0));
    seed_from_neighbors(&mut c, &neighbors, BfsChannel::BlockRgb);
    assert_eq!(unpack_rgb(c.block_rgb[cell(0, 3, 4)]), (3, 0, 6));
}

#[test]
fn mirror_cells_agree_from_both_sides() {
    for face in Face::all() {
        let (a, b) = mirror_boundary(face, 3, 7);
        let (c, d) = mirror_boundary(face.opposite(), 3, 7);
        assert_eq!(a, d);
        assert_eq!(b, c);
    }
    assert_eq!(mirror_boundary(Face::PosX, 3, 7).0, LocalPos(UVec3::new(31, 7, 3)));
    assert_eq!(mirror_boundary(Face::NegY, 3, 7).1, LocalPos(UVec3::new(3, 31, 7)));
}

#[test]
fn snapshot_lists_border_light() {
    let mut c = DenseChunk::empty();
    c.sky_light[cell(31, 7, 3)] = 11;
    c.block_rgb[cell(31, 7, 3)] = pack_rgb(1, 2, 3);
    let snap = snapshot_face_boundaries(&c);
    let k = 4 * (3 + 32 * 7);
    assert_eq!(snap[0].len(), 4096);
    assert_eq!(&snap[0][k..k + 4], &[11, 1, 2, 3]);
    assert!(snap[1].iter().all(|&v| v == 0));
}

#[test]
fn neighbor_cell_stops_at_the_chunk_edge() {
    assert_eq!(neighbor_cell(cell(31, 0, 0), 0), None);
    assert_eq!(neighbor_cell(cell(30, 4, 4), 0), Some(cell(31, 4, 4)));
    assert_eq!(neighbor_cell(cell(4, 0, 4), 3), None);
    assert_eq!(neighbor_cell(cell(4, 4, 4), 5), Some(cell(4, 4, 3)));
}

#[test]
fn packed_light_round_trips() {
    assert_eq!(unpack_rgb(pack_rgb(15, 0, 9)), (15, 0, 9));
    assert_eq!(pack_rgb(1, 2, 3), 1 + 2 * 16 + 3 * 256);
}

#[test]
fn compression_round_trips() {
    let mut d = DenseChunk::empty();
    d.set(LocalPos(UVec3::new(1, 2, 3)), Block::Torch);
    d.set(LocalPos(UVec3::new(31, 31, 31)), Block::Snow);
    d.sky_light[5] = 9;
    d.block_rgb[6] = 77;
    let back = PalettedChunk::compress(&d).decompress();
    assert_eq!(back.blocks, d.blocks);
    assert_eq!(back.sky_light, d.sky_light);
    assert_eq!(back.block_rgb, d.block_rgb);
    assert_eq!(back.get(LocalPos(UVec3::new(1, 2, 3))), Block::Torch);
}

#[test]
fn block_coordinates_split_by_floor() {
    let p = BlockPos(IVec3::new(-1, 32, 70));
    assert_eq!(p.to_chunk(), ChunkCoord(IVec3::new(-1, 1, 2)));
    assert_eq!(p.to_local(), LocalPos(UVec3::new(31, 0, 6)));
    assert_eq!(ChunkCoord(IVec3::new(-1, 1, 2)).origin(), BlockPos(IVec3::new(-32, 32, 64)));
    assert_eq!(LocalPos::from_index(cell(5, 6, 7)), LocalPos(UVec3::new(5, 6, 7)));
}

#[test]
fn default_is_all_no_source_floor() {
    let s = ChunkSkyLightSources::default();
    for lz in 0..CHUNK_DIM_U {
        for lx in 0..CHUNK_DIM_U {
            assert_eq!(s.lowest_source_y(lx, lz), NO_SOURCE_FLOOR);
        }
    }
}

#[test]
fn all_air_chunk_has_no_source_floor_anywhere() {
    let dense = DenseChunk::empty();
    let reg = BlockRegistry::new();
    let s = ChunkSkyLightSources::build_from_dense(&dense, origin_chunk(), &reg);
    for lz in 0..CHUNK_DIM_U {
        for lx in 0..CHUNK_DIM_U {
            assert_eq!(
                s.lowest_source_y(lx, lz),
                NO_SOURCE_FLOOR,
                "column ({lx},{lz}) should have no floor in all-air chunk",
            );
        }
    }
}

#[test]
fn all_stone_chunk_floor_is_just_above_chunk_top() {
    let dense = DenseChunk::new_filled(Block::Stone);
    let reg = BlockRegistry::new();
    let s = ChunkSkyLightSources::build_from_dense(&dense, origin_chunk(), &reg);
    for lz in 0..CHUNK_DIM_U {
        for lx in 0..CHUNK_DIM_U {
            assert_eq!(s.lowest_source_y(lx, lz), 32);
        }
    }
}

fn with_layer(ys: &[u32], block: Block) -> DenseChunk {
    let mut dense = DenseChunk::empty();
    for lz in 0..CHUNK_DIM_U {
        for lx in 0..CHUNK_DIM_U {
            for &y in ys {
                dense.set(LocalPos(UVec3::new(lx, y, lz)), block);
            }
        }
    }
    dense
}

#[test]
fn stone_layer_at_local_y_20_gives_floor_at_world_y_21() {
    let dense = with_layer(&[20], Block::Stone);
    let reg = BlockRegistry::new();
    let s = ChunkSkyLightSources::build_from_dense(&dense, origin_chunk(), &reg);
    for lz in 0..CHUNK_DIM_U {
        for lx in 0..CHUNK_DIM_U {
            assert_eq!(s.lowest_source_y(lx, lz), 21);
        }
    }
}

#[test]
fn floor_uses_topmost_opaque_when_multiple_layers_exist() {
    let dense = with_layer(&[10, 20], Block::Stone);
    let reg = BlockRegistry::new();
    let s = ChunkSkyLightSources::build_from_dense(&dense, origin_chunk(), &reg);
    assert_eq!(s.lowest_source_y(5, 5), 21);
}

#[test]
fn floor_is_per_column_independent() {
    let mut dense = DenseChunk::empty();
    dense.set(LocalPos(UVec3::new(0, 15, 0)), Block::Stone);
    let reg = BlockRegistry::new();
    let s = ChunkSkyLightSources::build_from_dense(&dense, origin_chunk(), &reg);
    assert_eq!(s.lowest_source_y(0, 0), 16, "column (0,0) has floor at world y=16");
    assert_eq!(
        s.lowest_source_y(1, 0),
        NO_SOURCE_FLOOR,
        "column (1,0) has no floor, should be NO_SOURCE_FLOOR",
    );
    assert_eq!(s.lowest_source_y(0, 1), NO_SOURCE_FLOOR);
}

#[test]
fn world_y_translation_respects_chunk_coord() {
    let dense = with_layer(&[10], Block::Stone);
    let reg = BlockRegistry::new();
    let s = ChunkSkyLightSources::build_from_dense(&dense, ChunkCoord(IVec3::new(0, 3, 0)), &reg);
    assert_eq!(s.lowest_source_y(5, 5), 107);
}

#[test]
fn negative_chunk_y_translates_correctly() {
    let dense = with_layer(&[5], Block::Stone);
    let reg = BlockRegistry::new();
    let s = ChunkSkyLightSources::build_from_dense(&dense, ChunkCoord(IVec3::new(0, -1, 0)), &reg);
    assert_eq!(s.lowest_source_y(5, 5), -26);
}

#[test]
fn non_opaque_non_air_does_not_create_floor() {
    let dense = with_layer(&[20], Block::Water);
    let reg = BlockRegistry::new();
    let s = ChunkSkyLightSources::build_from_dense(&dense, origin_chunk(), &reg);
    assert_eq!(
        s.lowest_source_y(5, 5),
        NO_SOURCE_FLOOR,
        "water is non-opaque; should not create a source floor",
    );
}
