use oxium::mesher::Face;
use oxium::viz::bridge::{cross_column, regen_region_mesh, region_coords};
use oxium::viz::cache::ChunkCache;
use oxium::viz::colormap::{
    binary, categorical, density_color, divergent, hot, lerp, terrain_ramp, viridis,
};
use oxium::viz::crosssection::{
    block_color, sample_pixel, CrossSection, Layer, Orientation, Pin,
};
use oxium::viz::cutaway::{cutaway_range, CutawayRange, CUTAWAY_MAX_Y, CUTAWAY_MIN_Y};
use oxium::viz::invalidate::{Invalidator, DEBOUNCE};
use oxium::viz::mesher::{mesh_chunk, Vertex, VizMesh};
use oxium::viz::overlays::{MapView, MAP_SIZE_PX};
use oxium::viz::paint::{
    biome_color, face_tint, height_delta_color, plate_color, slope_color, Biome,
    PaintColumn, PaintContext, PaintMode,
};
use oxium::viz::preset::{
    list_presets, notes_action, presets_root, sanitize_name, save_target, NotesAction,
    PresetError, PresetUi,
};
use oxium::viz::probe::{ColumnProbe, Probe};
use oxium::viz::region::Region;
use oxium::viz::session::{dashboard, CamKind, Choices, LayoutResult, RightTab, Session};
use oxium::viz::spline::{
    add_knot, axis_name, collapse, remove_knot, to_multipoint, NestedSpline,
};
use oxium::viz::spline_editor::{Frame, Knot, SplineEditor, Spot};
use oxium::viz::stage::{stage_named, Stage};
use oxium::viz::stream::{camera_chunk, chunks_in_radius, StreamRadius};
use oxium::viz::world::World;
use oxium::voxel::block::Block;
use oxium::voxel::chunk::DenseChunk;
use oxium::voxel::coords::{BlockPos, ChunkCoord, IVec3, LocalPos, UVec3};

const ONE: i64 = 1_000_000;

fn coord(x: i32, y: i32, z: i32) -> ChunkCoord {
    ChunkCoord(IVec3::new(x, y, z))
}

fn block_at(x: i32, y: i32, z: i32) -> BlockPos {
    BlockPos(IVec3::new(x, y, z))
}

fn no_mesh() -> VizMesh {
    VizMesh { vertices: Vec::new(), indices: Vec::new() }
}

// ── invalidation ─────────────────────────────────────────────────────────

#[test]
fn no_bump_means_not_pending() {
    let mut inv = Invalidator::new();
    assert!(!inv.take_pending());
}

#[test]
fn bump_then_take_returns_true_once() {
    let mut inv = Invalidator::new();
    inv.bump();
    assert!(inv.take_pending());
    assert!(!inv.take_pending());
}

#[test]
fn multiple_bumps_collapse_to_one_take() {
    let mut inv = Invalidator::new();
    inv.bump();
    inv.bump();
    inv.bump();
    assert!(inv.take_pending());
    assert!(!inv.take_pending());
}

#[test]
fn queue_without_tick_does_not_promote() {
    let mut inv = Invalidator::new();
    inv.queue(1_000);
    assert!(!inv.take_pending());
}

#[test]
fn queue_promotes_after_debounce_elapses() {
    let mut inv = Invalidator::new();
    let now = 10_000;
    inv.queue(now - DEBOUNCE - 10);
    inv.tick(now);
    assert!(inv.take_pending());
}

#[test]
fn queue_restart_within_debounce_window_does_not_promote() {
    let mut inv = Invalidator::new();
    let now = 10_000;
    inv.queue(now - 100);
    inv.queue(now);
    inv.tick(now);
    assert!(!inv.take_pending());
}

#[test]
fn remaining_time_counts_down_and_revision_counts_up() {
    let mut inv = Invalidator::new();
    assert_eq!(inv.pending_remaining(0), None);
    inv.queue(1_000);
    assert_eq!(inv.pending_remaining(1_000), Some(200));
    assert_eq!(inv.pending_remaining(1_150), Some(50));
    assert_eq!(inv.pending_remaining(1_200), None);
    assert_eq!(inv.revision(), 0);
    inv.tick(1_199);
    assert_eq!(inv.revision(), 0);
    inv.tick(1_200);
    assert_eq!(inv.revision(), 1);
    inv.tick(5_000);
    assert_eq!(inv.revision(), 1);
}

// ── presets ──────────────────────────────────────────────────────────────

#[test]
fn sanitize_strips_unsafe_chars() {
    assert_eq!(sanitize_name("Alpine v2"), "alpine-v2");
    assert_eq!(sanitize_name("../etc/passwd"), "etc-passwd");
    assert_eq!(sanitize_name("ok_name"), "ok_name");
    assert_eq!(sanitize_name("with.dot"), "with-dot");
    assert_eq!(sanitize_name("a..b"), "a-b");
    assert_eq!(sanitize_name("-alpine-"), "alpine");
}

#[test]
fn sanitize_empty_on_garbage() {
    assert_eq!(sanitize_name("!!!"), "");
    assert_eq!(sanitize_name(""), "");
}

#[test]
fn sanitizing_again_changes_nothing() {
    for raw in ["Alpine v2", "../etc/passwd", "Größe 7", "__A--b  c!"] {
        let once = sanitize_name(raw);
        assert_eq!(sanitize_name(&once), once);
    }
    assert_eq!(sanitize_name("Größe 7"), "gr-e-7");
}

#[test]
fn presets_are_listed_by_name() {
    let root = presets_root("/p");
    assert_eq!(root, "/p/assets/worldgen/presets");
    let files: Vec<String> = ["zeta.ron", "alpine.notes.md", ".ron", "alpine.ron", "mid.ron", "x.txt"]
        .iter()
        .map(|s| s.to_string())
        .collect();
    let found = list_presets(&root, &files);
    let names: Vec<&str> = found.iter().map(|e| e.name.as_str()).collect();
    assert_eq!(names, ["alpine", "mid", "zeta"]);
    assert_eq!(found[0].config_path, "/p/assets/worldgen/presets/alpine.ron");
    assert_eq!(found[0].notes_path, "/p/assets/worldgen/presets/alpine.notes.md");
}

#[test]
fn saving_needs_a_name() {
    assert_eq!(save_target("/r", "!!!").unwrap_err(), PresetError::EmptyName);
    let e = save_target("/r", "My Hills").unwrap();
    assert_eq!(e.name, "my-hills");
    assert_eq!(e.config_path, "/r/my-hills.ron");
    assert_eq!(e.notes_path, "/r/my-hills.notes.md");
}

#[test]
fn notes_follow_the_active_preset() {
    let entries = || list_presets("/r", &vec!["a.ron".to_string(), "b.ron".to_string()]);
    let mut ui = PresetUi::new(entries());
    assert!(!ui.notes_dirty());
    ui.activate(Some("a".to_string()), Some("good caves".to_string()));
    assert_eq!(ui.notes_buffer, "good caves");
    assert!(!ui.notes_dirty());
    ui.notes_buffer = "better caves".to_string();
    assert!(ui.notes_dirty());
    ui.mark_notes_saved();
    assert!(!ui.notes_dirty());
    ui.activate(Some("zz".to_string()), Some("stray".to_string()));
    assert_eq!(ui.notes_buffer, "");
    assert!(ui.entry(&"b".to_string()).is_some());
    assert!(ui.entry(&"zz".to_string()).is_none());
    ui.activate(None, None);
    assert_eq!(ui.active_name, None);
    assert_eq!(notes_action(""), NotesAction::Remove);
    assert_eq!(notes_action("x"), NotesAction::Write);
}

#[test]
fn saved_and_deleted_presets_update_the_panel() {
    let mut ui = PresetUi::new(Vec::new());
    assert!(!ui.can_save());
    ui.new_name = "   ".to_string();
    assert!(!ui.can_save());
    ui.new_name = " hills ".to_string();
    assert!(ui.can_save());
    ui.saved(list_presets("/r", &vec!["hills.ron".to_string()]), "hills".to_string(), None);
    assert_eq!(ui.new_name, "");
    assert_eq!(ui.active_name, Some("hills".to_string()));
    ui.deleted(Vec::new(), &"other".to_string());
    assert_eq!(ui.active_name, Some("hills".to_string()));
    ui.deleted(Vec::new(), &"hills".to_string());
    assert_eq!(ui.active_name, None);
}

// ── region ───────────────────────────────────────────────────────────────

#[test]
fn region_chunk_count_matches_box() {
    let r = Region::new(0, 0, 2, 1);
    let expected = (2 * 2 + 1) * (2 * 2 + 1) * (2 + 1);
    assert_eq!(r.chunk_count(), expected as usize);
    assert_eq!(r.coords().len(), expected as usize);
}

#[test]
fn region_contains_center_chunk() {
    let r = Region::new(5, -3, 2, 1);
    assert!(r.contains(coord(5, 0, -3)));
    assert!(r.contains(coord(7, 1, -1)));
    assert!(!r.contains(coord(8, 0, -3)));
    assert!(!r.contains(coord(5, 2, -3)));
}

#[test]
fn region_lists_layers_then_rows() {
    let r = Region::new(10, 20, 1, 1);
    let c = r.coords();
    assert_eq!(c[0], coord(9, -1, 19));
    assert_eq!(c[1], coord(10, -1, 19));
    assert_eq!(c[3], coord(9, -1, 20));
    assert_eq!(c[9], coord(9, 0, 19));
    assert_eq!(c[26], coord(11, 1, 21));
    assert!(c.iter().all(|x| r.contains(*x)));
}

#[test]
fn world_fills_region_within_timeout() {
    let region = Region::new(0, 0, 0, 0);
    let (mut world, wanted) = World::new(region);
    assert_eq!(world.entries_len(), 0);
    for c in wanted {
        world.absorb(c, DenseChunk::empty(), no_mesh());
    }
    assert_eq!(world.entries_len(), 1);
    assert_eq!(world.in_flight_len(), 0);
}

#[test]
fn world_fills_a_region_once_per_chunk() {
    let (mut world, wanted) = World::new(Region::new(0, 0, 0, 0));
    assert_eq!(wanted, vec![coord(0, 0, 0)]);
    assert_eq!(world.in_flight_len(), 1);
    assert!(world.absorb(coord(0, 0, 0), DenseChunk::empty(), no_mesh()));
    assert_eq!(world.entries_len(), 1);
    assert_eq!(world.in_flight_len(), 0);
    assert!(!world.absorb(coord(0, 0, 0), DenseChunk::empty(), no_mesh()));
}

#[test]
fn moving_the_region_drops_what_lies_outside() {
    let (mut world, wanted) = World::new(Region::new(0, 0, 1, 0));
    for c in &wanted {
        assert!(world.absorb(*c, DenseChunk::empty(), no_mesh()));
    }
    assert_eq!(world.entries_len(), 9);
    let (dropped, again) = world.set_region(Region::new(1, 0, 1, 0));
    assert_eq!(dropped.len(), 3);
    assert!(dropped.iter().all(|c| c.0.x == -1));
    assert_eq!(again.len(), 9);
    assert_eq!(world.entries_len(), 6);
    assert_eq!(world.in_flight_len(), 9);
    assert!(!world.absorb(coord(-1, 0, 0), DenseChunk::empty(), no_mesh()));
    let (dropped, again) = world.set_region(Region::new(1, 0, 1, 0));
    assert!(dropped.is_empty() && again.is_empty());
    assert_eq!(world.region(), Region::new(1, 0, 1, 0));
}

#[test]
fn ray_stops_at_the_first_solid_block() {
    let (mut world, _) = World::new(Region::new(0, 0, 0, 0));
    let mut chunk = DenseChunk::empty();
    chunk.set(LocalPos(UVec3::new(3, 5, 7)), Block::Stone);
    chunk.set(LocalPos(UVec3::new(2, 5, 7)), Block::Water);
    assert!(world.absorb(coord(0, 0, 0), chunk, no_mesh()));
    let path = vec![block_at(-1, 5, 7), block_at(2, 5, 7), block_at(3, 5, 7), block_at(4, 5, 7)];
    assert_eq!(world.raycast_column(&path), Some((3, 7)));
    assert_eq!(world.raycast_column(&vec![block_at(2, 5, 7)]), None);
}

// ── streaming ────────────────────────────────────────────────────────────

fn zero() -> BlockPos {
    block_at(0, 0, 0)
}

#[test]
fn camera_chunk_at_origin_is_zero() {
    assert_eq!(camera_chunk(zero()).0, IVec3::new(0, 0, 0));
}

#[test]
fn camera_chunk_floors_negative() {
    assert_eq!(camera_chunk(block_at(-1, -1, -1)).0, IVec3::new(-1, -1, -1));
}

#[test]
fn chunks_in_radius_size_matches_3d_box() {
    let r = StreamRadius { xz: 2, y: 1 };
    let v = chunks_in_radius(zero(), r);
    let expected = (2 * r.xz + 1).pow(2) * (2 * r.y + 1);
    assert_eq!(v.len() as i32, expected);
}

#[test]
fn chunks_in_radius_center_first() {
    let v = chunks_in_radius(zero(), StreamRadius::default());
    assert_eq!(v[0].0, IVec3::new(0, 0, 0));
}

#[test]
fn chunks_in_radius_sorted_by_chebyshev() {
    let v = chunks_in_radius(zero(), StreamRadius { xz: 1, y: 0 });
    assert_eq!(v.len(), 9);
    let chebyshev = |c: &ChunkCoord| c.0.x.abs().max(c.0.y.abs()).max(c.0.z.abs());
    for w in v.windows(2) {
        assert!(chebyshev(&w[0]) <= chebyshev(&w[1]));
    }
}

#[test]
fn camera_y_does_not_shift_returned_chunks_y() {
    let low = chunks_in_radius(zero(), StreamRadius::default());
    let high = chunks_in_radius(block_at(0, 400, 0), StreamRadius::default());
    let low_ys: std::collections::BTreeSet<i32> = low.iter().map(|c| c.0.y).collect();
    let high_ys: std::collections::BTreeSet<i32> = high.iter().map(|c| c.0.y).collect();
    assert_eq!(low_ys, high_ys, "Y range must be camera-independent");
}

#[test]
fn camera_xz_does_shift_returned_chunks_xz() {
    let a = chunks_in_radius(zero(), StreamRadius::default());
    let b = chunks_in_radius(block_at(500, 0, 0), StreamRadius::default());
    let a_xs: std::collections::BTreeSet<i32> = a.iter().map(|c| c.0.x).collect();
    let b_xs: std::collections::BTreeSet<i32> = b.iter().map(|c| c.0.x).collect();
    assert_ne!(a_xs, b_xs, "XZ must track the camera");
}

// ── cache ────────────────────────────────────────────────────────────────

#[test]
fn put_and_get_chunk() {
    let mut c = ChunkCache::new(4);
    c.put_chunk(coord(0, 0, 0), DenseChunk::empty());
    assert!(c.has_chunk(coord(0, 0, 0)));
    assert!(c.get_chunk(coord(0, 0, 0)).is_some());
}

#[test]
fn over_capacity_evicts_oldest() {
    let mut c = ChunkCache::new(2);
    c.put_chunk(coord(0, 0, 0), DenseChunk::empty());
    c.put_chunk(coord(1, 0, 0), DenseChunk::empty());
    c.put_chunk(coord(2, 0, 0), DenseChunk::empty());
    assert!(!c.has_chunk(coord(0, 0, 0)));
    assert!(c.has_chunk(coord(1, 0, 0)));
    assert!(c.has_chunk(coord(2, 0, 0)));
}

#[test]
fn clear_drops_everything() {
    let mut c = ChunkCache::new(4);
    c.put_chunk(coord(0, 0, 0), DenseChunk::empty());
    c.put_mesh(coord(0, 0, 0), no_mesh());
    c.clear();
    assert_eq!(c.len(), (0, 0));
}

#[test]
fn reading_keeps_an_entry_from_being_dropped() {
    let mut c = ChunkCache::new(2);
    c.put_chunk(coord(0, 0, 0), DenseChunk::new_filled(Block::Sand));
    c.put_chunk(coord(1, 0, 0), DenseChunk::empty());
    let read = c.get_chunk(coord(0, 0, 0)).unwrap();
    assert_eq!(read.blocks[0], Block::Sand);
    c.put_chunk(coord(2, 0, 0), DenseChunk::empty());
    assert!(c.has_chunk(coord(0, 0, 0)));
    assert!(!c.has_chunk(coord(1, 0, 0)));
    assert_eq!(c.len(), (2, 0));
    assert!(c.get_chunk(coord(1, 0, 0)).is_none());
}

#[test]
fn meshes_are_listed_most_recent_first() {
    let mut c = ChunkCache::new(0);
    c.put_mesh(coord(1, 2, 3), no_mesh());
    c.put_mesh(coord(4, 5, 6), no_mesh());
    assert_eq!(c.meshed_coords(), vec![coord(4, 5, 6)]);
    let mut c = ChunkCache::new(3);
    for x in 0..3 {
        c.put_mesh(coord(x, 0, 0), no_mesh());
    }
    assert!(c.get_mesh(coord(0, 0, 0)).is_some());
    assert_eq!(c.meshed_coords(), vec![coord(0, 0, 0), coord(2, 0, 0), coord(1, 0, 0)]);
    assert!(c.has_mesh(coord(1, 0, 0)));
    assert!(!c.has_chunk(coord(1, 0, 0)));
    c.put_mesh(coord(1, 0, 0), no_mesh());
    assert_eq!(c.len(), (0, 3));
    assert_eq!(c.meshed_coords()[0], coord(1, 0, 0));
}

// ── meshes ───────────────────────────────────────────────────────────────

#[test]
fn empty_chunk_meshes_to_no_vertices() {
    let chunk = DenseChunk::empty();
    let m = mesh_chunk(coord(0, 0, 0), &chunk);
    assert_eq!(m.vertices.len(), 0);
    assert_eq!(m.indices.len(), 0);
}

#[test]
fn single_stone_at_origin_has_six_faces() {
    let mut chunk = DenseChunk::empty();
    chunk.set(LocalPos(UVec3::new(0, 0, 0)), Block::Stone);
    let m = mesh_chunk(coord(0, 0, 0), &chunk);
    assert_eq!(m.vertices.len(), 6 * 4, "expected 6 quads = 24 verts");
    assert_eq!(m.indices.len(), 6 * 6, "expected 6 quads = 36 indices");
}

#[test]
fn adjacent_solids_hide_shared_face() {
    let mut chunk = DenseChunk::empty();
    chunk.set(LocalPos(UVec3::new(0, 0, 0)), Block::Stone);
    chunk.set(LocalPos(UVec3::new(1, 0, 0)), Block::Stone);
    let m = mesh_chunk(coord(0, 0, 0), &chunk);
    assert_eq!(m.vertices.len(), 10 * 4);
}

#[test]
fn boundary_face_emitted_when_chunk_edge() {
    let mut chunk = DenseChunk::empty();
    let edge = LocalPos(UVec3::new(31, 0, 0));
    chunk.set(edge, Block::Stone);
    let m = mesh_chunk(coord(0, 0, 0), &chunk);
    assert_eq!(m.vertices.len(), 6 * 4);
}

#[test]
fn quads_stand_where_their_faces_are() {
    let mut chunk = DenseChunk::empty();
    chunk.set(LocalPos(UVec3::new(2, 3, 4)), Block::Lava);
    let m = mesh_chunk(coord(-1, 0, 2), &chunk);
    let at = |v: &Vertex| (v.x, v.y, v.z);
    // the upper face is the third
    let top: Vec<(i64, i64, i64)> = m.vertices[8..12].iter().map(at).collect();
    assert_eq!(top, [(-30, 4, 68), (-29, 4, 68), (-29, 4, 69), (-30, 4, 69)]);
    assert!(m.vertices[8..12].iter().all(|v| v.face == Face::PosY && v.block == Block::Lava));
    assert_eq!(&m.indices[12..18], &[8, 9, 10, 8, 10, 11]);
    let east: Vec<(i64, i64, i64)> = m.vertices[0..4].iter().map(at).collect();
    assert_eq!(east, [(-29, 3, 68), (-29, 3, 69), (-29, 4, 69), (-29, 4, 68)]);
}

#[test]
fn region_meshes_share_one_numbering() {
    let coords = region_coords();
    assert_eq!(coords.len(), 45);
    assert_eq!(coords[0], coord(0, -1, 0));
    assert_eq!(coords[1], coord(1, -1, 0));
    assert_eq!(coords[3], coord(0, -1, 1));
    assert_eq!(coords[44], coord(2, 3, 2));
    let mut chunks: Vec<DenseChunk> = (0..45).map(|_| DenseChunk::empty()).collect();
    chunks[0].set(LocalPos(UVec3::new(0, 0, 0)), Block::Stone);
    chunks[44].set(LocalPos(UVec3::new(0, 0, 0)), Block::Sand);
    let m = regen_region_mesh(&chunks);
    assert_eq!(m.vertices.len(), 48);
    assert_eq!(m.indices[36], 24);
    assert_eq!(m.vertices[24].y, 96);
    assert_eq!(cross_column(128, 0), (0, -512));
}

// ── paint ────────────────────────────────────────────────────────────────

#[test]
fn paint_modes_have_labels_and_needs() {
    assert_eq!(PaintMode::default(), PaintMode::Block);
    let labels: Vec<&str> = PaintMode::all().iter().map(|m| m.label()).collect();
    assert_eq!(labels, ["Block", "Biome", "Plate ID", "Height Δ", "Slope"]);
    assert!(PaintMode::all().iter().all(|m| !m.description().is_empty()));
    assert!(!PaintMode::Block.needs_column_data());
    assert!(PaintMode::Slope.needs_column_data());
}

#[test]
fn paint_columns_are_read_where_they_were_gathered() {
    let (ctx, wanted) = PaintContext::build(PaintMode::Biome, 64, -32);
    assert_eq!(wanted.len(), 1024);
    for (i, (x, z)) in wanted.iter().enumerate() {
        assert_eq!(ctx.column(*x, *z), Some(i));
    }
    assert_eq!(ctx.column(63, -32), None);
    assert_eq!(ctx.column(64, 0), None);
    let (plain, none) = PaintContext::build(PaintMode::Block, 64, -32);
    assert!(none.is_empty());
    assert_eq!(plain.column(64, -32), None);
    assert_eq!(PaintContext::without_columns(PaintMode::Block, 64, -32), plain);
}

// ── map and cross-section ────────────────────────────────────────────────

#[test]
fn pixel_to_world_centers_at_center_wx() {
    let mut m = MapView::new();
    m.center_wx = 100 * ONE;
    m.center_wz = 200 * ONE;
    m.blocks_per_pixel = 4 * ONE;
    let half = MAP_SIZE_PX as i64 * ONE / 2;
    let (wx, wz) = m.pixel_to_world(half, half);
    assert_eq!(wx, 100);
    assert_eq!(wz, 200);
}

#[test]
fn world_to_pixel_inverse_of_pixel_to_world() {
    let mut m = MapView::new();
    m.center_wx = 32 * ONE;
    m.center_wz = -64 * ONE;
    m.blocks_per_pixel = 4 * ONE;
    let (wx, wz) = m.pixel_to_world(64 * ONE, 64 * ONE);
    let (px, py) = m.world_to_pixel(wx, wz).unwrap();
    assert!((px - 64 * ONE).abs() < 4 * ONE);
    assert!((py - 64 * ONE).abs() < 4 * ONE);
}

#[test]
fn pan_shifts_center_inversely_to_drag() {
    let mut m = MapView::new();
    m.center_wx = 0;
    m.pan(10 * ONE, 0);
    assert!(m.center_wx < 0);
}

#[test]
fn zoom_clamps_in_range() {
    let mut m = MapView::new();
    for _ in 0..100 {
        m.zoom(500_000);
    }
    assert!(m.blocks_per_pixel >= 500_000);
    for _ in 0..100 {
        m.zoom(2 * ONE);
    }
    assert!(m.blocks_per_pixel <= 64 * ONE);
}

#[test]
fn map_is_drawn_only_for_something_new() {
    let mut m = MapView::new();
    assert!(m.regenerate(0, false));
    assert!(!m.regenerate(0, true));
    assert!(m.regenerate(0, false));
    assert!(m.regenerate(1, true));
    m.set_stage(Stage::HTarget);
    assert!(!m.regenerate(1, true));
    m.set_stage(Stage::Humidity);
    assert!(m.regenerate(1, true));
    m.pan(ONE, 0);
    assert_eq!(m.center_wx, -4 * ONE);
    assert!(m.regenerate(1, true));
    assert_eq!(m.world_to_pixel(10_000, 0), None);
    assert_eq!(m.world_to_pixel(0, 0), Some((129 * ONE, 128 * ONE)));
}

#[test]
fn cut_moves_to_the_pinned_column() {
    let mut c = CrossSection::new();
    assert_eq!(c.pixel_to_world(64, 64), (0, 70, 0));
    let pin = Pin { wx: 10, h_target: 80, wz: -20 };
    c.see_pin(Some(pin));
    assert_eq!(c.slice_axis, -20);
    assert_eq!(c.pixel_to_world(64, 64), (10, 80, -20));
    assert_eq!(c.pixel_to_world(65, 64), (11, 80, -20));
    assert_eq!(c.pixel_to_world(64, 63), (10, 81, -20));
    c.set_orientation(Orientation::Yz, Some(pin));
    assert_eq!(c.slice_axis, 10);
    assert_eq!(c.pixel_to_world(65, 64), (10, 80, -19));
    c.set_orientation(Orientation::Xz, Some(pin));
    assert_eq!(c.slice_axis, 80);
    assert_eq!(c.pixel_to_world(64, 64), (10, 80, -20));
    c.slice_axis = 5;
    c.see_pin(Some(pin));
    assert_eq!(c.slice_axis, 5);
    c.focus_on(1, 2, 3);
    assert_eq!(c.pixel_to_world(64, 64), (1, 2, 3));
    c.blocks_per_pixel = 250_000;
    // half a block rounds away from zero
    assert_eq!(c.pixel_to_world(66, 64), (2, 2, 3));
}

#[test]
fn cut_is_drawn_only_for_something_new() {
    let mut c = CrossSection::new();
    assert!(c.regenerate(3, false));
    assert!(!c.regenerate(3, true));
    c.layer = Layer::Block;
    assert!(c.regenerate(3, true));
    c.center_a = 999_999;
    assert!(!c.regenerate(3, true));
    c.center_a = -1_000_000;
    assert!(c.regenerate(3, true));
    assert_eq!(c.orientation.label(), "XY (vertical, fixed Z)");
    assert_eq!(c.orientation.slice_axis_label(), "slice Z");
    assert_eq!(Layer::Density.label(), "Density (signed)");
    assert_eq!(block_color(Block::Lava), [255, 115, 20, 255]);
    assert_eq!(block_color(Block::Torch), [80, 80, 80, 255]);
}

#[test]
fn stages_are_found_by_name() {
    assert_eq!(stage_named("h-target"), Some(Stage::HTarget));
    assert_eq!(stage_named("aquifer-substance"), Some(Stage::AquiferSubstance));
    assert_eq!(stage_named("H-target"), None);
}

// ── probe, cutaway, splines, session ─────────────────────────────────────

fn column(x: i32, z: i32) -> ColumnProbe<i32> {
    ColumnProbe { wx: x, wz: z, h_target: x + z, rest: x - z }
}

fn density(x: i32, y: i32, z: i32) -> i32 {
    x * 10_000 + y * 100 + z
}

#[test]
fn pinning_describes_the_column_at_its_height() {
    let mut p: Probe<i32, i32> = Probe::new();
    assert_eq!(p.probe_y, 70);
    p.pin(column, density, 5, 7);
    assert_eq!(p.pinned, Some((5, 7)));
    assert_eq!(p.probe_y, 12);
    assert_eq!(p.breakdown, Some(51_207));
    p.set_y(density, 32);
    assert_eq!(p.breakdown, Some(53_207));
    assert_eq!(p.snapshot.as_ref().unwrap().h_target, 12);
    p.refresh(column, density);
    assert_eq!(p.probe_y, 32);
    assert_eq!(p.breakdown, Some(53_207));
    p.unpin();
    assert!(p.pinned.is_none() && p.snapshot.is_none() && p.breakdown.is_none());
    p.set_y(density, 1);
    assert!(p.breakdown.is_none());
}

#[test]
fn pin_populates_snapshot_and_breakdown() {
    let mut p: Probe<i32, i32> = Probe::new();
    p.pin(column, density, 50, 50);
    assert_eq!(p.pinned, Some((50, 50)));
    assert!(p.snapshot.is_some());
    assert!(p.breakdown.is_some());
    assert_eq!(p.probe_y, p.snapshot.as_ref().unwrap().h_target);
}

#[test]
fn unpin_clears_state() {
    let mut p: Probe<i32, i32> = Probe::new();
    p.pin(column, density, 0, 0);
    p.unpin();
    assert!(p.pinned.is_none());
    assert!(p.snapshot.is_none());
    assert!(p.breakdown.is_none());
}

#[test]
fn set_y_refreshes_breakdown_only() {
    let mut p: Probe<i32, i32> = Probe::new();
    p.pin(column, density, 0, 0);
    let initial_breakdown = p.breakdown.unwrap();
    let y = p.probe_y + 20;
    p.set_y(density, y);
    let new_breakdown = p.breakdown.unwrap();
    assert_ne!(initial_breakdown, new_breakdown);
    assert_eq!(p.snapshot.as_ref().unwrap().h_target, 0);
}

#[test]
fn handles_never_cross() {
    let mut r = CutawayRange::new(-64, 192);
    r.drag_started(-60);
    assert!(!r.dragging_max);
    assert!(r.dragged(100, -64, 300));
    assert_eq!((r.min, r.max), (100, 192));
    assert!(r.dragged(500, -64, 300));
    assert_eq!((r.min, r.max), (192, 192));
    assert!(!r.dragged(500, -64, 300));
    r.drag_started(192);
    assert!(r.dragging_max);
    assert!(!r.dragged(0, -64, 300));
    assert_eq!((r.min, r.max), (192, 192));
}

#[test]
fn handles_stay_on_the_track() {
    let mut r = CutawayRange::new(0, 100);
    r.drag_started(90);
    assert!(r.dragged(5_000, -64, 192));
    assert_eq!((r.min, r.max), (0, 192));
    assert!(!r.dragged(9_000, -64, 192));
    r.drag_started(-500);
    assert!(r.dragged(-500, -64, 192));
    assert_eq!((r.min, r.max), (-64, 192));
    assert!(!r.dragged(-64, -64, 192));
}

#[test]
fn track_frames_grab_the_nearer_handle_and_keep_it() {
    let (lo, hi) = (CUTAWAY_MIN_Y, CUTAWAY_MAX_Y);
    let mut r = CutawayRange::new(lo, hi);
    let idle = cutaway_range(&mut r, None, true, true, None, lo, hi);
    assert!(!idle.clamps_changed && idle.upper_is_cut);
    assert_eq!(r, CutawayRange::new(lo, hi));
    assert_eq!(idle.ticks, vec![0, 64_000_000]);
    let near_bottom = Some(lo + 1_000_000);
    let grabbed = cutaway_range(&mut r, near_bottom, true, true, Some(hi + 1), lo, hi);
    assert!(grabbed.clamps_changed && !grabbed.upper_is_cut);
    assert_eq!(grabbed.playhead, Some(hi));
    assert_eq!((r.min, r.max, r.dragging_max), (lo + 1_000_000, hi, false));
    let across = cutaway_range(&mut r, Some(hi), false, true, Some(3), lo, hi);
    assert!(across.clamps_changed);
    assert_eq!(across.playhead, Some(3));
    assert_eq!((r.min, r.max), (hi, hi));
    let hover = cutaway_range(&mut r, Some(lo), false, false, None, 1, 64_000_000);
    assert!(!hover.clamps_changed);
    assert_eq!(hover.ticks, vec![64_000_000]);
    assert_eq!((r.min, r.max), (hi, hi));
}

fn no_choices() -> Choices {
    Choices {
        paint: None,
        camera: None,
        reset_camera: false,
        regen: false,
        config_edited: false,
        tab: None,
    }
}

#[test]
fn dashboard_reports_what_the_frame_asks_for() {
    let (mut session, _) = Session::new(7, Region::new(0, 0, 1, 1));
    let mut tab = RightTab::default();
    let quiet = LayoutResult { dirty: false, reset_camera: false, force_regen: false };
    assert_eq!(dashboard(&mut session, &mut tab, no_choices(), 0), quiet);
    let same = Choices { paint: Some(PaintMode::Block), ..no_choices() };
    assert_eq!(dashboard(&mut session, &mut tab, same, 0), quiet);
    assert!(session.frame(1_000).is_empty());

    let buttons = Choices { reset_camera: true, regen: true, ..no_choices() };
    let out = dashboard(&mut session, &mut tab, buttons, 0);
    assert_eq!(out, LayoutResult { dirty: false, reset_camera: true, force_regen: true });

    let painted = Choices {
        paint: Some(PaintMode::Slope),
        camera: Some(CamKind::Orbit),
        tab: Some(RightTab::CrossSection),
        ..no_choices()
    };
    let out = dashboard(&mut session, &mut tab, painted, 0);
    assert_eq!(out, LayoutResult { dirty: true, ..quiet });
    assert_eq!(session.paint, PaintMode::Slope);
    assert_eq!(session.cam_kind, CamKind::Orbit);
    assert_eq!(tab, RightTab::CrossSection);
    assert!(!session.frame(0).is_empty());
    assert!(session.frame(10_000).is_empty());
}

#[test]
fn edited_settings_are_reported_at_once_and_drawn_later() {
    let (mut session, _) = Session::new(7, Region::new(0, 0, 1, 1));
    let mut tab = RightTab::default();
    let edit = Choices { config_edited: true, ..no_choices() };
    assert!(dashboard(&mut session, &mut tab, edit, 1_000).dirty);
    assert!(session.frame(1_199).is_empty());
    assert!(!session.frame(1_200).is_empty());
    let both = Choices { paint: Some(PaintMode::Biome), ..edit };
    assert!(dashboard(&mut session, &mut tab, both, 2_000).dirty);
    assert!(!session.frame(2_000).is_empty());
    assert!(!session.frame(2_200).is_empty());
    assert!(session.frame(9_000).is_empty());
}

#[test]
fn probe_panel_needs_a_pinned_column() {
    let column = |wx: i32, wz: i32| ColumnProbe { wx, wz, h_target: 64, rest: () };
    let density = |x: i32, y: i32, z: i32| (x, y, z);
    let mut p: Probe<(), (i32, i32, i32)> = Probe::new();
    p.panel(density, true, 99);
    assert_eq!((p.probe_y, p.pinned), (70, None));
    p.pin(column, density, 3, 4);
    p.panel(density, false, 64);
    assert_eq!(p.breakdown, Some((3, 64, 4)));
    p.panel(density, false, 80);
    assert_eq!(p.breakdown, Some((3, 80, 4)));
    p.panel(density, true, 90);
    assert_eq!((p.probe_y, p.pinned, p.breakdown), (90, None, None));
    assert!(p.snapshot.is_none());
}

fn locs(s: &NestedSpline) -> Vec<i64> {
    match s {
        NestedSpline::Constant(_) => Vec::new(),
        NestedSpline::Multipoint(knots) => knots.iter().map(|k| k.loc).collect(),
    }
}

#[test]
fn spline_edits_keep_knots_in_order() {
    let mut s = NestedSpline::Constant(300_000);
    assert!(to_multipoint(&mut s, 0));
    assert_eq!(locs(&s), [-ONE, ONE]);
    add_knot(&mut s);
    assert_eq!(locs(&s), [-ONE, 0, ONE]);
    remove_knot(&mut s, 0);
    assert_eq!(locs(&s), [0, ONE]);
    add_knot(&mut s);
    assert_eq!(locs(&s), [0, 500_000, ONE]);
    remove_knot(&mut s, 0);
    remove_knot(&mut s, 0);
    remove_knot(&mut s, 0);
    assert!(matches!(s, NestedSpline::Constant(0)));
    assert!(!to_multipoint(&mut s, 3));
    let mut t = NestedSpline::Constant(5);
    assert!(to_multipoint(&mut t, 2));
    assert!(!to_multipoint(&mut t, 0));
    collapse(&mut t);
    assert!(matches!(t, NestedSpline::Constant(0)));
    assert_eq!(axis_name(2), "ridges_pv (r)");
    assert_eq!(axis_name(3), "(beyond inputs)");
}

#[test]
fn session_regenerates_once_per_pause() {
    let (mut s, wanted) = Session::new(42, Region::new(0, 0, 0, 0));
    assert_eq!(wanted.len(), 1);
    assert!(s.frame(0).is_empty());
    s.config_edited(100);
    s.config_edited(250);
    assert!(s.frame(400).is_empty());
    assert_eq!(s.frame(450).len(), 1);
    assert!(s.frame(451).is_empty());
    assert!(!s.choose_paint(PaintMode::Block));
    assert!(s.choose_paint(PaintMode::Slope));
    assert_eq!(s.world.paint_mode(), PaintMode::Slope);
    assert_eq!(s.frame(452).len(), 1);
    s.cam_kind.toggle_camera();
    assert_eq!(s.cam_kind, CamKind::Orbit);
    s.cam_kind.select(CamKind::Orbit);
    assert_eq!(s.cam_kind, CamKind::Orbit);
    s.cam_kind.select(CamKind::Fly);
    assert_eq!(s.cam_kind, CamKind::Fly);
    assert_eq!(RightTab::default(), RightTab::TopDown);
}

fn painted_column() -> PaintColumn {
    PaintColumn { biome: Biome::Desert, plate: 0xFF_80_00, h_target: 70, h_pre: 62_000_000, slope: 0 }
}

#[test]
fn face_colors_follow_the_mode_and_the_face() {
    let plain = PaintContext::without_columns(PaintMode::Block, 0, 0);
    let none: Vec<PaintColumn> = Vec::new();
    assert_eq!(plain.color_for(&none, 5, 9, 7, Face::PosY, Block::Grass), [300_000, 650_000, 250_000]);
    assert_eq!(plain.color_for(&none, 5, 9, 7, Face::NegY, Block::Grass), [120_000, 260_000, 100_000]);
    assert_eq!(plain.color_for(&none, 5, 9, 7, Face::PosX, Block::Torch), [328_000, 328_000, 328_000]);
    let (ctx, wanted) = PaintContext::build(PaintMode::Biome, 32, -32);
    let columns = vec![painted_column(); wanted.len()];
    assert_eq!(
        ctx.color_for(&columns, 40, 0, -20, Face::PosY, Block::Stone),
        biome_color(Biome::Desert),
    );
    assert_eq!(
        ctx.color_for(&columns, 64, 0, -20, Face::PosY, Block::Stone),
        [400_000, 400_000, 400_000],
    );
    assert_eq!(face_tint(Face::NegZ), 82);
    assert_eq!(face_tint(Face::PosZ), 66);
}

#[test]
fn column_colors_have_exact_values() {
    assert_eq!(oxium::viz::paint::block_color(Block::Lava), [1_000_000, 450_000, 80_000]);
    assert_eq!(biome_color(Biome::SnowyForest), [550_000, 780_000, 780_000]);
    assert_eq!(plate_color(0xFF_80_00), [500_000, 750_980, 1_000_000]);
    let raised = painted_column();
    assert_eq!(height_delta_color(&raised), [200_000, 300_000, 625_000]);
    let carved = PaintColumn { h_target: 40, ..painted_column() };
    assert_eq!(height_delta_color(&carved), [850_000, 0, 0]);
    assert_eq!(slope_color(&painted_column()), [0, 0, 0]);
    let cliff = PaintColumn { slope: 4_500_000, ..painted_column() };
    assert_eq!(slope_color(&cliff), [1_000_000, 500_000, 350_000]);
    let wall = PaintColumn { slope: 90_000_000, ..painted_column() };
    assert_eq!(slope_color(&wall), [1_000_000, 1_000_000, 700_000]);
}

#[test]
fn viridis_endpoints_match_stops() {
    assert_eq!(viridis(0), [68, 1, 84, 255]);
    assert_eq!(viridis(ONE), [253, 231, 37, 255]);
}

#[test]
fn divergent_midpoint_is_neutral() {
    let mid = divergent(ONE / 2);
    // Both red and blue components should be near zero at the midpoint.
    assert!(mid[0] < 50 && mid[2] < 50);
}

#[test]
fn terrain_ramp_low_is_water_blue_ish() {
    let low = terrain_ramp(ONE / 20);
    assert!(low[2] > low[0]); // more blue than red at the low end
    assert_eq!(low, [44, 90, 136, 255]);
}

#[test]
fn gradients_have_exact_values() {
    assert_eq!(viridis(125_000), [63, 41, 111, 255]);
    assert_eq!(viridis(750_000), [94, 201, 98, 255]);
    assert_eq!(viridis(-5), viridis(0));
    assert_eq!(divergent(0), [220, 0, 0, 255]);
    assert_eq!(divergent(750_000), [0, 0, 110, 255]);
    assert_eq!(hot(165_000), [127, 0, 0, 255]);
    assert_eq!(hot(495_000), [255, 127, 0, 255]);
    assert_eq!(hot(2 * ONE), [255, 255, 255, 255]);
    assert_eq!(terrain_ramp(ONE), [220, 200, 140, 255]);
    assert_eq!(binary(499_999, [1; 4], [2; 4]), [1; 4]);
    assert_eq!(binary(500_000, [1; 4], [2; 4]), [2; 4]);
    assert_eq!(lerp(10, 20, 1, 4), 12);
}

#[test]
fn categories_go_round_the_hues() {
    assert_eq!(categorical(0), [216, 75, 75, 255]);
    assert_eq!(categorical(3 * ONE), categorical(0));
    assert_eq!(categorical(ONE / 2), [75, 216, 216, 255]);
    assert_eq!(categorical(-ONE / 2), categorical(ONE / 2));
    assert_eq!(categorical(ONE / 12), [216, 146, 75, 255]);
    assert_eq!(categorical(i64::MIN)[3], 255);
}

#[test]
fn pixels_show_density_or_block() {
    assert_eq!(density_color(0), [20, 60, 60, 255]);
    assert_eq!(density_color(-4 * ONE), [10, 60, 140, 255]);
    assert_eq!(density_color(100 * ONE), [220, 30, 30, 255]);
    assert_eq!(sample_pixel(Layer::Density, 4 * ONE, Block::Stone), [120, 45, 45, 255]);
    assert_eq!(sample_pixel(Layer::Block, 4 * ONE, Block::Stone), block_color(Block::Stone));
}

#[test]
fn dragged_knots_follow_the_pointer_within_the_plot() {
    let editor = SplineEditor::new();
    let frame = Frame { left: 10 * ONE, bottom: 230 * ONE, width: 380 * ONE, height: 220 * ONE };
    let start = vec![Knot { loc: -ONE, val: 0 }, Knot { loc: 0, val: 0 }, Knot { loc: 0, val: 0 }];
    let mut knots = start.clone();
    // The middle of the plot is at the origin; the last knot there is taken.
    assert!(editor.on_knot(&frame, &knots[1], &Spot { x: 200 * ONE, y: 120 * ONE }));
    assert!(!editor.on_knot(&frame, &knots[1], &Spot { x: 209 * ONE, y: 120 * ONE }));
    assert!(editor.drag(&frame, &mut knots, &Spot { x: 205 * ONE, y: 120 * ONE }));
    assert_eq!(knots[1], start[1]);
    assert_eq!(knots[2], Knot { loc: 28_947, val: 0 });
    // Nothing under the pointer, or hardly a move: nothing changes.
    assert!(!editor.drag(&frame, &mut knots, &Spot { x: 300 * ONE, y: 120 * ONE }));
    let mut still = vec![Knot { loc: 0, val: 0 }];
    assert!(!editor.drag(&frame, &mut still, &Spot { x: 200 * ONE, y: 120 * ONE }));
    // The pointer may leave the plot, the knot does not.
    let narrow = SplineEditor::new().x_range(0, ONE).y_range(0, ONE);
    let mut corner = vec![Knot { loc: 0, val: 0 }];
    assert!(!narrow.drag(&frame, &mut corner, &Spot { x: 7 * ONE, y: 233 * ONE }));
    let mut edge = vec![Knot { loc: 5_000, val: 0 }];
    assert!(narrow.drag(&frame, &mut edge, &Spot { x: 7 * ONE, y: 233 * ONE }));
    assert_eq!(edge[0], Knot { loc: 0, val: 0 });
}

#[test]
fn queued_edit_takes_effect_once_across_frames() {
    let (mut s, _) = Session::new(9, Region::new(0, 0, 0, 0));
    let _ = s.frame(0);
    s.toggle_camera();
    s.config_edited(1_000);
    for now in [1_016, 1_032, 1_100, 1_199] {
        assert!(s.frame(now).is_empty());
    }
    assert_eq!(s.frame(1_200).len(), 1);
    assert!(s.frame(1_216).is_empty());
    assert!(s.frame(9_000).is_empty());
    assert_eq!(s.seed, 9);
    assert_eq!(s.cam_kind, CamKind::Orbit);
}

#[test]
fn regions_reach_the_end_of_the_coordinates() {
    let edge = Region::new(i32::MAX, i32::MIN + 1, 0, 0);
    assert_eq!(edge.coords(), [ChunkCoord(IVec3::new(i32::MAX, 0, i32::MIN + 1))]);
    let last = Region::new(i32::MAX - 1, 0, 1, 0);
    assert_eq!(last.coords().len(), 9);
    assert!(Region::new(0, 0, -1, 2).coords().is_empty());
    assert!(Region::new(0, 0, 2, -1).coords().is_empty());
}

#[test]
fn block_colours_need_no_columns_anywhere() {
    let (ctx, wanted) = PaintContext::build(PaintMode::Block, i32::MAX, i32::MAX);
    assert!(wanted.is_empty());
    assert!(!ctx.columns);
}
