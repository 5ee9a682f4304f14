use std::collections::VecDeque;

use factoriomaps::coordinator::{Coordinator, Directive, MessageToMain, MessageToWorker};
use factoriomaps::error::EngineError;
use factoriomaps::files::VirtualFile;
use factoriomaps::image::{new_transparent, RgbaImage};
use factoriomaps::index::SurfaceIndex;
use factoriomaps::plan::{Coordinate, SurfaceInfo};
use factoriomaps::tile::Tile;

fn surface(name: &str, chunks: &[(i32, i32)]) -> SurfaceInfo {
    SurfaceInfo {
        name: name.to_string(),
        chunks: chunks.iter().map(|&(x, y)| Coordinate { x, y }).collect(),
    }
}

fn chunk(surface: &str, x: i32, y: i32) -> Tile {
    Tile::new(surface.to_string(), 20, x, y)
}

fn small() -> RgbaImage {
    new_transparent(1, 1)
}

#[derive(Default)]
struct Run {
    builds: Vec<(Tile, Vec<Tile>)>,
    writes: Vec<Tile>,
    published: Vec<Vec<SurfaceIndex>>,
    stopped: bool,
    manifest: Option<Vec<SurfaceInfo>>,
}

/// Runs the coordinator on `queue` until it stops or the queue is empty,
/// performing every directive at once with stand-in images.
fn drive(c: &mut Coordinator, queue: &mut VecDeque<MessageToMain>, run: &mut Run) {
    while let Some(msg) = queue.pop_front() {
        let ds = c.handle(msg).expect("the run fails");
        for d in ds {
            match d {
                Directive::Work(MessageToWorker::ReadImage { tile, .. }) => {
                    queue.push_back(MessageToMain::FinishReadImage { tile, image: small() });
                }
                Directive::Work(MessageToWorker::TileWriteParts { tile, image }) => {
                    run.writes.push(tile.clone());
                    queue.push_back(MessageToMain::FinishWriteParts { tile, image });
                }
                Directive::Work(MessageToWorker::TileBuildParent { parent, children }) => {
                    run.builds.push((parent.clone(), children.iter().map(|c| c.0.clone()).collect()));
                    queue.push_back(MessageToMain::FinishBuildParent { parent, image: small() });
                }
                Directive::DecodeManifest(_) => {
                    let info = run.manifest.take().expect("a manifest decoded once");
                    queue.push_front(MessageToMain::Manifest(info));
                }
                Directive::Publish(index) => {
                    run.published.push(index);
                    queue.push_back(MessageToMain::Finished);
                }
                Directive::Stop => {
                    run.stopped = true;
                    return;
                }
            }
        }
    }
}

fn start(info: Vec<SurfaceInfo>) -> Coordinator {
    let mut c = Coordinator::new();
    let ds = c.handle(MessageToMain::Manifest(info)).unwrap();
    assert!(ds.is_empty());
    c
}

#[test]
fn single_chunk_single_surface() {
    let mut c = start(vec![surface("nauvis", &[(0, 0)])]);
    let mut q = VecDeque::new();
    q.push_back(MessageToMain::FinishReadImage { tile: chunk("nauvis", 0, 0), image: small() });
    let mut run = Run::default();
    drive(&mut c, &mut q, &mut run);
    assert!(run.stopped);
    assert_eq!(run.writes.len(), 6);
    for (i, t) in run.writes.iter().enumerate() {
        assert_eq!(t, &Tile::new("nauvis".to_string(), 20 - i as i32, 0, 0));
    }
    assert_eq!(run.builds.len(), 5);
    assert_eq!(run.published.len(), 1);
    let index = &run.published[0];
    assert_eq!(index.len(), 1);
    assert_eq!(index[0].name, "nauvis");
    let mut tiles = index[0].tiles.clone();
    tiles.sort();
    let mut expected = vec![];
    for z in 15..=20 {
        for (x, y) in [(0, 0), (1, 0), (0, 1), (1, 1)] {
            expected.push((z, x, y));
        }
    }
    expected.sort();
    assert_eq!(tiles, expected);
    let tc = c.context.as_ref().unwrap();
    assert_eq!(tc.loaded_tiles, tc.total_tiles);
    assert_eq!(tc.total_tiles, 6);
}

#[test]
fn negative_coordinates_keep_their_own_parents() {
    let mut c = start(vec![surface("nauvis", &[(-1, -1), (0, 0)])]);
    let mut q = VecDeque::new();
    q.push_back(MessageToMain::FinishReadImage { tile: chunk("nauvis", -1, -1), image: small() });
    q.push_back(MessageToMain::FinishReadImage { tile: chunk("nauvis", 0, 0), image: small() });
    let mut run = Run::default();
    drive(&mut c, &mut q, &mut run);
    assert!(run.writes.contains(&Tile::new("nauvis".to_string(), 19, -1, -1)));
    assert!(run.builds.iter().any(|(p, cs)| p == &Tile::new("nauvis".to_string(), 19, -1, -1)
        && cs == &vec![chunk("nauvis", -1, -1)]));
    assert_eq!(run.published.len(), 1);
    assert_eq!(run.writes.len(), 14);
}

#[test]
fn sparse_siblings_build_from_present_children() {
    let mut c = start(vec![surface("nauvis", &[(0, 0), (3, 3)])]);
    let mut q = VecDeque::new();
    q.push_back(MessageToMain::FinishReadImage { tile: chunk("nauvis", 3, 3), image: small() });
    q.push_back(MessageToMain::FinishReadImage { tile: chunk("nauvis", 0, 0), image: small() });
    let mut run = Run::default();
    drive(&mut c, &mut q, &mut run);
    let join: Vec<_> = run
        .builds
        .iter()
        .filter(|(p, _)| p == &Tile::new("nauvis".to_string(), 18, 0, 0))
        .collect();
    assert_eq!(join.len(), 1);
    assert_eq!(
        join[0].1,
        vec![Tile::new("nauvis".to_string(), 19, 0, 0), Tile::new("nauvis".to_string(), 19, 1, 1)]
    );
    assert_eq!(run.published.len(), 1);
    assert_eq!(run.writes.len(), 10);
}

#[test]
fn two_surfaces_stay_apart() {
    let mut c = start(vec![surface("nauvis", &[(0, 0)]), surface("factory", &[(5, 5)])]);
    let mut q = VecDeque::new();
    q.push_back(MessageToMain::FinishReadImage { tile: chunk("factory", 5, 5), image: small() });
    q.push_back(MessageToMain::FinishReadImage { tile: chunk("nauvis", 0, 0), image: small() });
    let mut run = Run::default();
    drive(&mut c, &mut q, &mut run);
    assert_eq!(run.published.len(), 1);
    let index = &run.published[0];
    let names: Vec<&str> = index.iter().map(|s| s.name.as_str()).collect();
    assert_eq!(names, vec!["nauvis", "factory"]);
    assert_eq!(index[0].tiles.len(), 24);
    assert_eq!(index[1].tiles.len(), 36);
    for (p, cs) in &run.builds {
        for ch in cs {
            assert_eq!(ch.surface, p.surface);
        }
    }
}

#[test]
fn cancellation_stops_without_publishing() {
    let mut c = start(vec![surface("nauvis", &[(0, 0), (1, 0), (0, 1), (1, 1)])]);
    let mut q = VecDeque::new();
    q.push_back(MessageToMain::FinishReadImage { tile: chunk("nauvis", 0, 0), image: small() });
    q.push_back(MessageToMain::FinishReadImage { tile: chunk("nauvis", 1, 0), image: small() });
    q.push_back(MessageToMain::Killed);
    q.push_back(MessageToMain::FinishReadImage { tile: chunk("nauvis", 0, 1), image: small() });
    let mut run = Run::default();
    drive(&mut c, &mut q, &mut run);
    assert!(run.stopped);
    assert!(run.published.is_empty());
    let tc = c.context.as_ref().unwrap();
    assert!(tc.loaded_tiles < tc.total_tiles);
}

#[test]
fn parent_dispatched_once_when_last_sibling_arrives() {
    let mut c = start(vec![surface("nauvis", &[(0, 0), (1, 0), (0, 1), (1, 1)])]);
    let parent = Tile::new("nauvis".to_string(), 19, 0, 0);
    for (x, y) in [(1, 1), (0, 1), (1, 0)] {
        let ds = c
            .handle(MessageToMain::FinishWriteParts { tile: chunk("nauvis", x, y), image: small() })
            .unwrap();
        assert!(ds.is_empty());
    }
    let ds = c
        .handle(MessageToMain::FinishWriteParts { tile: chunk("nauvis", 0, 0), image: small() })
        .unwrap();
    assert_eq!(ds.len(), 1);
    match &ds[0] {
        Directive::Work(MessageToWorker::TileBuildParent { parent: p, children }) => {
            assert_eq!(p, &parent);
            let order: Vec<Tile> = children.iter().map(|c| c.0.clone()).collect();
            assert_eq!(
                order,
                vec![chunk("nauvis", 0, 0), chunk("nauvis", 1, 0), chunk("nauvis", 0, 1), chunk("nauvis", 1, 1)]
            );
        }
        _ => panic!("expected the parent to be built"),
    }
    let mut q = VecDeque::new();
    q.push_back(MessageToMain::FinishBuildParent { parent: parent.clone(), image: small() });
    let mut run = Run::default();
    drive(&mut c, &mut q, &mut run);
    assert!(run.builds.iter().all(|(p, _)| p != &parent));
    assert_eq!(run.published.len(), 1);
}

#[test]
fn progress_counts_each_write_once() {
    let mut c = start(vec![surface("nauvis", &[(0, 0), (1, 1)])]);
    assert_eq!(c.context.as_ref().unwrap().loaded_tiles, 0);
    c.handle(MessageToMain::FinishWriteParts { tile: chunk("nauvis", 0, 0), image: small() }).unwrap();
    assert_eq!(c.context.as_ref().unwrap().loaded_tiles, 1);
    let again = c.handle(MessageToMain::FinishWriteParts { tile: chunk("nauvis", 0, 0), image: small() });
    assert_eq!(again.err(), Some(EngineError::TileWrittenTwice));
    assert_eq!(c.context.as_ref().unwrap().loaded_tiles, 1);
    c.handle(MessageToMain::FinishWriteParts { tile: chunk("nauvis", 1, 1), image: small() }).unwrap();
    assert_eq!(c.context.as_ref().unwrap().loaded_tiles, 2);
}

#[test]
fn messages_before_manifest_fail() {
    let mut c = Coordinator::new();
    let r = c.handle(MessageToMain::FinishWriteParts { tile: chunk("n", 0, 0), image: small() });
    assert_eq!(r.err(), Some(EngineError::NoManifest));
    let mut f = VirtualFile::new("/out/n,0,0.bmp".to_string());
    f.data = vec![1, 2, 3];
    assert_eq!(c.handle(MessageToMain::File(f)).err(), Some(EngineError::NoManifest));
}

#[test]
fn manifest_file_and_chunk_file() {
    let mut c = Coordinator::new();
    let mut f = VirtualFile::new("script-output/info.json".to_string());
    f.data = b"[]".to_vec();
    let ds = c.handle(MessageToMain::File(f)).unwrap();
    assert!(matches!(&ds[..], [Directive::DecodeManifest(b)] if b == b"[]"));
    c.handle(MessageToMain::Manifest(vec![surface("n", &[(2, -3)])])).unwrap();
    let again = c.handle(MessageToMain::Manifest(vec![]));
    assert_eq!(again.err(), Some(EngineError::ManifestRepeated));
    let mut f = VirtualFile::new("script-output/n,2,-3.png".to_string());
    f.data = vec![9, 9];
    let ds = c.handle(MessageToMain::File(f)).unwrap();
    match &ds[..] {
        [Directive::Work(MessageToWorker::ReadImage { tile, data })] => {
            assert_eq!(tile, &chunk("n", 2, -3));
            assert_eq!(data, &vec![9, 9]);
        }
        _ => panic!("expected a decode"),
    }
    let f = VirtualFile::new("script-output/readme.txt".to_string());
    assert!(c.handle(MessageToMain::File(f)).unwrap().is_empty());
    let f = VirtualFile::new("script-output/n,2.png".to_string());
    assert_eq!(c.handle(MessageToMain::File(f)).err(), Some(EngineError::MalformedChunkName));
}

#[test]
fn empty_manifest_publishes_at_once() {
    let mut c = Coordinator::new();
    let ds = c.handle(MessageToMain::Manifest(vec![surface("void", &[])])).unwrap();
    match &ds[..] {
        [Directive::Publish(index)] => {
            assert_eq!(index.len(), 1);
            assert!(index[0].tiles.is_empty());
        }
        _ => panic!("expected the index"),
    }
}

#[test]
fn unplanned_tile_is_refused() {
    let mut c = start(vec![surface("n", &[(0, 0)])]);
    let r = c.handle(MessageToMain::FinishWriteParts { tile: chunk("n", 4, 4), image: small() });
    assert_eq!(r.err(), Some(EngineError::UnplannedTile));
    let r = c.handle(MessageToMain::FinishWriteParts { tile: chunk("elsewhere", 0, 0), image: small() });
    assert_eq!(r.err(), Some(EngineError::UnplannedTile));
}

#[test]
fn manifest_file_is_planned_before_waiting_chunks() {
    let mut c = Coordinator::new();
    let mut q = VecDeque::new();
    let mut manifest = VirtualFile::new("script-output/info.json".to_string());
    manifest.data = b"{}".to_vec();
    q.push_back(MessageToMain::File(manifest));
    let mut image = VirtualFile::new("script-output/nauvis,0,0.bmp".to_string());
    image.data = vec![0, 1, 2];
    q.push_back(MessageToMain::File(image));
    let mut run = Run::default();
    run.manifest = Some(vec![surface("nauvis", &[(0, 0)])]);
    drive(&mut c, &mut q, &mut run);
    assert!(run.stopped);
    assert_eq!(run.writes.len(), 6);
    assert_eq!(run.published.len(), 1);
    assert_eq!(run.published[0][0].tiles.len(), 24);
}
