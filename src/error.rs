//! What can stop a run.

use vstd::prelude::*;

verus! {

/// The reasons a run stops before its map is complete.
#[derive(Debug, Clone, Copy, PartialEq, Eq)]
pub enum EngineError {
    /// The manifest arrived a second time.
    ManifestRepeated,
    /// A chunk image or a completion arrived before the manifest.
    NoManifest,
    /// The manifest lists more surfaces than a run can key.
    TooManySurfaces,
    /// A chunk lies too far from the origin for its parts' coordinates to fit.
    ChunkOutOfRange,
    /// Two surfaces of the manifest carry the same name.
    DuplicateSurface,
    /// A chunk file's name is not `<surface>,<x>,<y>` with two signed integers.
    MalformedChunkName,
    /// A tile that the plan does not hold was handed back.
    UnplannedTile,
    /// A tile's parts were reported written twice.
    TileWrittenTwice,
    /// A readiness check met a tile whose image already went into its parent.
    ProcessedChild,
    /// A completion arrived after the run had finished.
    AfterFinish,
    /// A chunk image could not be decoded.
    DecodeFailure,
    /// A tile part could not be encoded.
    EncodeFailure,
    /// A parent image could not be down-sampled.
    ResizeFailure,
    /// An image does not have the dimensions its stage requires.
    BadDimensions,
    /// An image handed in for a parent is not one of its children.
    NotAChild,
}

} // verus!
