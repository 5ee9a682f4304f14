use factoriomaps::error::EngineError;
use factoriomaps::plan::{ceil_log2_u64, surface_extent, surface_min_zoom, Coordinate, SurfaceInfo};
use factoriomaps::registry::{TileState, ThreadContext};
use factoriomaps::tile::Tile;

fn surface(name: &str, chunks: &[(i32, i32)]) -> SurfaceInfo {
    SurfaceInfo {
        name: name.to_string(),
        chunks: chunks.iter().map(|&(x, y)| Coordinate { x, y }).collect(),
    }
}

fn state(tc: &ThreadContext, t: &Tile) -> Option<&'static str> {
    let k = tc.lookup_key(t)?;
    tc.tiles.get(&k).map(|s| match s {
        TileState::Loaded(_) => "loaded",
        TileState::Waiting => "waiting",
        TileState::Processed => "processed",
    })
}

#[test]
fn ceil_log2_values() {
    assert_eq!(ceil_log2_u64(0), 0);
    assert_eq!(ceil_log2_u64(1), 0);
    assert_eq!(ceil_log2_u64(2), 1);
    assert_eq!(ceil_log2_u64(3), 2);
    assert_eq!(ceil_log2_u64(4), 2);
    assert_eq!(ceil_log2_u64(5), 3);
    assert_eq!(ceil_log2_u64(1024), 10);
    assert_eq!(ceil_log2_u64(1025), 11);
    assert_eq!(ceil_log2_u64(0x8000_0001), 32);
}

#[test]
fn extent_counts_negative_side_off_by_one() {
    let s = surface("a", &[(0, 0)]);
    assert_eq!(surface_extent(&s.chunks), 1);
    let s = surface("a", &[(-1, -1), (0, 0)]);
    assert_eq!(surface_extent(&s.chunks), 2);
    let s = surface("a", &[(2, -5), (7, 1)]);
    assert_eq!(surface_extent(&s.chunks), 7);
    let s = surface("a", &[(2, -9), (7, 1)]);
    assert_eq!(surface_extent(&s.chunks), 10);
}

#[test]
fn min_zoom_single_chunk_is_fourteen() {
    let s = surface("nauvis", &[(0, 0)]);
    assert_eq!(surface_min_zoom(&s.chunks), 14);
    let s = surface("nauvis", &[(0, 0), (3, 3)]);
    assert_eq!(surface_min_zoom(&s.chunks), 12);
    let s = surface("factory", &[(5, 5)]);
    assert_eq!(surface_min_zoom(&s.chunks), 11);
}

#[test]
fn plan_single_chunk() {
    let info = vec![surface("nauvis", &[(0, 0)])];
    let tc = ThreadContext::new(&info).unwrap();
    assert_eq!(tc.total_tiles, 6);
    assert_eq!(tc.loaded_tiles, 0);
    for z in 15..=20 {
        assert_eq!(state(&tc, &Tile::new("nauvis".to_string(), z, 0, 0)), Some("waiting"));
    }
    assert_eq!(state(&tc, &Tile::new("nauvis".to_string(), 14, 0, 0)), None);
    assert_eq!(state(&tc, &Tile::new("nauvis".to_string(), 20, 1, 0)), None);
    assert_eq!(tc.surfaces[0].min_zoom, Some(14));
}

#[test]
fn plan_negative_coordinates() {
    let info = vec![surface("nauvis", &[(-1, -1), (0, 0)])];
    let tc = ThreadContext::new(&info).unwrap();
    assert_eq!(tc.surfaces[0].min_zoom, Some(13));
    assert_eq!(tc.total_tiles, 14);
    assert_eq!(state(&tc, &Tile::new("nauvis".to_string(), 19, -1, -1)), Some("waiting"));
    assert_eq!(state(&tc, &Tile::new("nauvis".to_string(), 14, -1, -1)), Some("waiting"));
    assert_eq!(state(&tc, &Tile::new("nauvis".to_string(), 19, 0, 0)), Some("waiting"));
}

#[test]
fn plan_shares_ancestors() {
    let info = vec![surface("nauvis", &[(0, 0), (3, 3)])];
    let tc = ThreadContext::new(&info).unwrap();
    assert_eq!(tc.total_tiles, 10);
    assert_eq!(tc.planned.len(), 10);
    let info = vec![surface("nauvis", &[(0, 0), (0, 0)])];
    let tc = ThreadContext::new(&info).unwrap();
    assert_eq!(tc.total_tiles, 6);
}

#[test]
fn plan_two_surfaces_independent() {
    let info = vec![surface("nauvis", &[(0, 0)]), surface("factory", &[(5, 5)])];
    let tc = ThreadContext::new(&info).unwrap();
    assert_eq!(tc.total_tiles, 6 + 9);
    assert_eq!(state(&tc, &Tile::new("factory".to_string(), 12, 0, 0)), Some("waiting"));
    assert_eq!(state(&tc, &Tile::new("nauvis".to_string(), 15, 0, 0)), Some("waiting"));
    assert_eq!(state(&tc, &Tile::new("factory".to_string(), 20, 0, 0)), None);
    let index = tc.map_index();
    assert_eq!(index.len(), 2);
    assert_eq!(index[0].name, "nauvis");
    assert_eq!(index[0].tiles.len(), 24);
    assert_eq!(index[1].name, "factory");
    assert_eq!(index[1].tiles.len(), 36);
    assert!(index[1].tiles.contains(&(20, 11, 10)));
    assert!(index[0].tiles.contains(&(15, 1, 1)));
}

#[test]
fn plan_skips_empty_surface() {
    let info = vec![surface("empty", &[]), surface("nauvis", &[(0, 0)])];
    let tc = ThreadContext::new(&info).unwrap();
    assert_eq!(tc.surfaces[0].min_zoom, None);
    assert_eq!(tc.total_tiles, 6);
    let index = tc.map_index();
    assert_eq!(index[0].tiles.len(), 0);
}

#[test]
fn plan_rejects_duplicate_surface() {
    let info = vec![surface("a", &[(0, 0)]), surface("a", &[(1, 1)])];
    assert_eq!(ThreadContext::new(&info).err(), Some(EngineError::DuplicateSurface));
}

#[test]
fn plan_rejects_far_chunk() {
    let info = vec![surface("a", &[(0x4000_0000, 0)])];
    assert_eq!(ThreadContext::new(&info).err(), Some(EngineError::ChunkOutOfRange));
    let info = vec![surface("a", &[(0, -0x4000_0000)])];
    assert!(ThreadContext::new(&info).is_ok());
}

#[test]
fn readiness_and_taking_children() {
    let info = vec![surface("n", &[(0, 0), (1, 1)])];
    let mut tc = ThreadContext::new(&info).unwrap();
    let parent = Tile::new("n".to_string(), 19, 0, 0);
    assert_eq!(tc.tile_ready(&parent), Ok(false));
    let img = factoriomaps::image::new_transparent(1, 1);
    tc.mark_loaded(&Tile::new("n".to_string(), 20, 0, 0), img.clone()).unwrap();
    assert_eq!(tc.loaded_tiles, 1);
    assert_eq!(tc.tile_ready(&parent), Ok(false));
    assert_eq!(
        tc.mark_loaded(&Tile::new("n".to_string(), 20, 0, 0), img.clone()),
        Err(EngineError::TileWrittenTwice)
    );
    assert_eq!(
        tc.mark_loaded(&Tile::new("n".to_string(), 20, 5, 0), img.clone()),
        Err(EngineError::UnplannedTile)
    );
    tc.mark_loaded(&Tile::new("n".to_string(), 20, 1, 1), img.clone()).unwrap();
    assert_eq!(tc.tile_ready(&parent), Ok(true));
    let children = tc.take_children(&parent);
    assert_eq!(children.len(), 2);
    assert_eq!(children[0].0, Tile::new("n".to_string(), 20, 0, 0));
    assert_eq!(children[1].0, Tile::new("n".to_string(), 20, 1, 1));
    assert_eq!(state(&tc, &Tile::new("n".to_string(), 20, 0, 0)), Some("processed"));
    assert_eq!(state(&tc, &Tile::new("n".to_string(), 20, 1, 1)), Some("processed"));
    assert_eq!(tc.tile_ready(&parent), Err(EngineError::ProcessedChild));
}
