use factoriomaps::error::EngineError;
use factoriomaps::files::{classify, FileKind};
use factoriomaps::tile::Tile;

fn chunk_of(path: &str) -> Result<Tile, EngineError> {
    match classify(&path.to_string())? {
        FileKind::Chunk(t) => Ok(t),
        other => panic!("not a chunk: {:?}", other),
    }
}

#[test]
fn manifest_by_name() {
    assert!(matches!(classify(&"info.json".to_string()), Ok(FileKind::Manifest)));
    assert!(matches!(classify(&"/a/b/info.json".to_string()), Ok(FileKind::Manifest)));
    assert!(matches!(classify(&"/a/b/xinfo.json".to_string()), Ok(FileKind::Other)));
}

#[test]
fn chunk_names() {
    assert_eq!(chunk_of("/tmp/out/nauvis,-3,7.bmp"), Ok(Tile::new("nauvis".to_string(), 20, -3, 7)));
    assert_eq!(chunk_of("nauvis,0,0.png"), Ok(Tile::new("nauvis".to_string(), 20, 0, 0)));
    assert_eq!(chunk_of("x/my surface,+5,-0.png"), Ok(Tile::new("my surface".to_string(), 20, 5, 0)));
    assert_eq!(
        chunk_of("s,-2147483648,2147483647.bmp"),
        Ok(Tile::new("s".to_string(), 20, i32::MIN, i32::MAX))
    );
}

#[test]
fn malformed_chunk_names() {
    for bad in [
        "nauvis,1.bmp",
        "nauvis,1,2,3.png",
        "nauvis,1,x.png",
        "nauvis,,1.png",
        "nauvis,1,-.png",
        "n,2147483648,0.bmp",
        "n,0,-2147483649.bmp",
        "n,1 ,2.bmp",
        ".bmp",
    ] {
        assert_eq!(chunk_of(bad).err(), Some(EngineError::MalformedChunkName), "{}", bad);
    }
}

#[test]
fn other_files_ignored() {
    assert!(matches!(classify(&"a.txt".to_string()), Ok(FileKind::Other)));
    assert!(matches!(classify(&"nauvis,1,2.jpg".to_string()), Ok(FileKind::Other)));
    assert!(matches!(classify(&"".to_string()), Ok(FileKind::Other)));
    assert!(matches!(classify(&"dir.bmp/readme".to_string()), Ok(FileKind::Other)));
}
