//! The coordinator: a state machine from completions to the next work.
//!
//! It owns the registry. The caller runs the loop: it hands each message to
//! [`Coordinator::handle`] and carries out the directives that come back.

use vstd::prelude::*;

use crate::error::EngineError;
use crate::files::{classify, classify_spec, FileKind, FileKindView, VirtualFile};
use crate::image::RgbaImage;
use crate::index::{surface_parts, SurfaceIndex};
use crate::plan::SurfaceInfo;
use crate::registry::{
    chunks_in_range, has_duplicate_names, key_fits, key_of, lemma_key_injective, lemma_planned_tile,
    waiting_keys, ThreadContext, TileState,
};
use crate::tile::{children_of, parent_of, Tile, TileView};

verus! {

broadcast use vstd::std_specs::hash::group_hash_axioms;

/// A message to the coordinator: an arrival from outside, or a completion
/// from a worker.
pub enum MessageToMain {
    /// The map index is published; the run is over.
    Finished,
    /// The run is cancelled.
    Killed,
    /// The host wrote a file.
    File(VirtualFile),
    /// The manifest, decoded.
    Manifest(Vec<SurfaceInfo>),
    /// A chunk image is decoded.
    FinishReadImage { tile: Tile, image: RgbaImage },
    /// A tile's parts are written.
    FinishWriteParts { tile: Tile, image: RgbaImage },
    /// A parent tile is built from its children.
    FinishBuildParent { parent: Tile, image: RgbaImage },
}

/// Work for a worker.
pub enum MessageToWorker {
    /// Decode a chunk image.
    ReadImage { tile: Tile, data: Vec<u8> },
    /// Cut a tile into parts, encode and store them.
    TileWriteParts { tile: Tile, image: RgbaImage },
    /// Build a parent from the images of its present children.
    TileBuildParent { parent: Tile, children: Vec<(Tile, RgbaImage)> },
}

/// What the loop around the coordinator does next.
pub enum Directive {
    /// Hand this work to the workers.
    Work(MessageToWorker),
    /// Decode these bytes as the manifest and hand back `Manifest`.
    DecodeManifest(Vec<u8>),
    /// Publish this map index, then hand back `Finished`.
    Publish(Vec<SurfaceIndex>),
    /// Stop the loop.
    Stop,
}

/// The children of a parent that are present once `tile` is loaded, in order.
pub open spec fn present_after(tc: ThreadContext, tile: TileView, cs: Seq<TileView>) -> Seq<TileView>
    decreases cs.len(),
{
    if cs.len() == 0 {
        Seq::empty()
    } else {
        let rest = present_after(tc, tile, cs.drop_last());
        if cs.last() == tile || tc.state_of(cs.last()) is Some {
            rest.push(cs.last())
        } else {
            rest
        }
    }
}

/// Whether, once `tile` is loaded, every child of `parent` is loaded or absent.
pub open spec fn ready_after(tc: ThreadContext, tile: TileView, parent: TileView) -> bool {
    forall|i: int|
        0 <= i < 4 ==> {
            let c = #[trigger] children_of(parent)[i];
            c == tile || tc.state_of(c) is None || tc.state_of(c) matches Some(TileState::Loaded(_))
        }
}

/// Whether a child of `parent` other than `tile` has already gone into a parent.
pub open spec fn sees_processed(tc: ThreadContext, tile: TileView, parent: TileView) -> bool {
    exists|i: int|
        0 <= i < 4 && #[trigger] children_of(parent)[i] != tile && tc.state_of(children_of(parent)[i])
            matches Some(TileState::Processed)
}

/// Whether the parent of `tile` lies above its surface's root level.
pub open spec fn parent_in_plan(tc: ThreadContext, tile: TileView) -> bool {
    tc.min_zoom_view(tile.surface) matches Some(m) && parent_of(tile).zoom > m
}

/// Whether writing `tile`'s parts makes its parent buildable.
pub open spec fn dispatches(tc: ThreadContext, tile: TileView) -> bool {
    parent_in_plan(tc, tile) && ready_after(tc, tile, parent_of(tile))
}

/// Whether a map index lists every surface of `tc` with the parts of its tiles.
pub open spec fn is_map_index(tc: ThreadContext, index: Seq<SurfaceIndex>) -> bool {
    &&& index.len() == tc.surfaces@.len()
    &&& forall|s: int|
        0 <= s < index.len() ==> {
            &&& (#[trigger] index[s]).name@ == tc.surfaces@[s].name@
            &&& index[s].tiles@ == surface_parts(tc.planned@, s)
        }
}

proof fn lemma_state_after_load(
    tc0: ThreadContext,
    tc1: ThreadContext,
    tile: TileView,
    image: RgbaImage,
    c: TileView,
)
    requires
        tc0.wf(),
        tc1.surfaces@ == tc0.surfaces@,
        tc0.key_of_view(tile) is Some,
        tc1.tiles@ == tc0.tiles@.insert(tc0.key_of_view(tile)->0, TileState::Loaded(image)),
        c.surface == tile.surface,
        tc0.key_of_view(c) is Some,
    ensures
        tc1.key_of_view(c) == tc0.key_of_view(c),
        tc1.state_of(c) == (if c == tile {
            Some(TileState::Loaded(image))
        } else {
            tc0.state_of(c)
        }),
{
    let s = tc0.surface_named(tile.surface)->0;
    assert(tc1.surface_named(tile.surface) == tc0.surface_named(tile.surface));
    if c != tile {
        if key_of(s, c.zoom, c.x, c.y) == key_of(s, tile.zoom, tile.x, tile.y) {
            lemma_key_injective(s, c.zoom, c.x, c.y, s, tile.zoom, tile.x, tile.y);
        }
    }
}

proof fn lemma_present_after(
    tc0: ThreadContext,
    tc1: ThreadContext,
    tile: TileView,
    image: RgbaImage,
    cs: Seq<TileView>,
)
    requires
        forall|i: int|
            0 <= i < cs.len() ==> #[trigger] tc1.state_of(cs[i]) == (if cs[i] == tile {
                Some(TileState::Loaded(image))
            } else {
                tc0.state_of(cs[i])
            }),
    ensures
        tc1.present_children(cs) == present_after(tc0, tile, cs),
    decreases cs.len(),
{
    if cs.len() > 0 {
        assert forall|i: int| 0 <= i < cs.drop_last().len() implies #[trigger] tc1.state_of(
            cs.drop_last()[i],
        ) == (if cs.drop_last()[i] == tile {
            Some(TileState::Loaded(image))
        } else {
            tc0.state_of(cs.drop_last()[i])
        }) by {
            assert(cs.drop_last()[i] == cs[i]);
        }
        lemma_present_after(tc0, tc1, tile, image, cs.drop_last());
        assert(tc1.state_of(cs[cs.len() - 1]) == (if cs.last() == tile {
            Some(TileState::Loaded(image))
        } else {
            tc0.state_of(cs.last())
        }));
    }
}

/// What a completed write of `tile`'s parts does to the registry `tc0`,
/// giving `tc1`, and what it returns.
pub open spec fn parts_written_outcome(
    tc0: ThreadContext,
    tc1: ThreadContext,
    tile: TileView,
    image: RgbaImage,
    r: Result<Vec<Directive>, EngineError>,
) -> bool {
    &&& tc1.wf()
    &&& (r is Ok <==> (tc0.state_of(tile) matches Some(TileState::Waiting) && !(parent_in_plan(tc0, tile)
        && sees_processed(tc0, tile, parent_of(tile)))))
    &&& (r matches Err(e) ==> (e == EngineError::UnplannedTile || e == EngineError::TileWrittenTwice
        || e == EngineError::ProcessedChild))
    &&& (r matches Ok(ds) ==> {
        let builds = dispatches(tc0, tile);
        let publishes = tc1.loaded_tiles == tc1.total_tiles;
        &&& tc1.loaded_tiles == tc0.loaded_tiles + 1
        &&& tc1.total_tiles == tc0.total_tiles
        &&& tc1.surfaces@ == tc0.surfaces@
        &&& tc1.planned@ == tc0.planned@
        &&& waiting_keys(tc1.tiles@).len() + 1 == waiting_keys(tc0.tiles@).len()
        &&& ds@.len() == (if builds { 1int } else { 0 }) + (if publishes { 1int } else { 0 })
        &&& builds ==> (ds@[0] matches Directive::Work(
            MessageToWorker::TileBuildParent { parent, children },
        ) && parent@ == parent_of(tile) && children@.len() == present_after(
            tc0,
            tile,
            children_of(parent_of(tile)),
        ).len() && forall|j: int|
            0 <= j < children@.len() ==> {
                &&& (#[trigger] children@[j]).0@ == present_after(
                    tc0,
                    tile,
                    children_of(parent_of(tile)),
                )[j]
                &&& if children@[j].0@ == tile {
                    children@[j].1 == image
                } else {
                    tc0.state_of(children@[j].0@) == Some(TileState::Loaded(children@[j].1))
                }
            })
        &&& builds ==> forall|i: int|
            0 <= i < 4 ==> (#[trigger] children_of(parent_of(tile))[i] == tile || tc0.state_of(
                children_of(parent_of(tile))[i],
            ) is Some) ==> tc1.state_of(children_of(parent_of(tile))[i]) == Some(
                TileState::Processed,
            )
        &&& !builds ==> tc1.tiles@ == tc0.tiles@.insert(
            tc0.key_of_view(tile)->0,
            TileState::Loaded(image),
        )
        &&& publishes ==> (ds@.last() matches Directive::Publish(index) && is_map_index(
            tc1,
            index@,
        ))
        &&& publishes ==> waiting_keys(tc1.tiles@).len() == 0
    })
}

/// Applies a completed write of `tile`'s parts: the tile becomes loaded and
/// counts as written; where that makes its parent buildable, the children are
/// taken and the parent is dispatched; once every tile is written, the map
/// index is published.
pub fn on_parts_written(tc: &mut ThreadContext, tile: Tile, image: RgbaImage) -> (r: Result<
    Vec<Directive>,
    EngineError,
>)
    requires
        old(tc).wf(),
    ensures
        parts_written_outcome(*old(tc), *final(tc), tile@, image, r),
{
    let ghost tc0 = *tc;
    proof {
        if tc0.state_of(tile@) is Some {
            lemma_planned_tile(tc0, tile@);
        }
    }
    match tc.mark_loaded(&tile, image) {
        Ok(()) => {},
        Err(e) => {
            return Err(e);
        },
    }
    let ghost tc1 = *tc;
    proof {
        let w0 = waiting_keys(tc0.tiles@);
        vstd::set_lib::lemma_len_subset(w0, tc0.tiles@.dom());
    }
    let mut ds: Vec<Directive> = Vec::new();
    let s = match tc.surface_index(&tile.surface) {
        Some(s) => s,
        None => {
            proof {
                assert(tc1.surface_named(tile@.surface) == tc0.surface_named(tile@.surface));
            }
            return Err(EngineError::UnplannedTile);
        },
    };
    let m = match tc.surfaces[s].min_zoom {
        Some(m) => m,
        None => {
            return Err(EngineError::UnplannedTile);
        },
    };
    assert(tc0.min_zoom_view(tile@.surface) == Some(m));
    let parent = tile.zoom_out();
    let ghost cs = children_of(parent@);
    proof {
        crate::tile::lemma_children_distinct_with_parent(parent@);
        assert forall|i: int| 0 <= i < 4 implies tc0.key_of_view(#[trigger] cs[i]) is Some && cs[i].surface
            == tile@.surface by {
            assert(tc0.surface_named(cs[i].surface) == Some(s as int));
        }
        assert forall|i: int| 0 <= i < 4 implies #[trigger] tc1.state_of(cs[i]) == (if cs[i] == tile@ {
            Some(TileState::Loaded(image))
        } else {
            tc0.state_of(cs[i])
        }) by {
            lemma_state_after_load(tc0, tc1, tile@, image, cs[i]);
        }
    }
    if parent.zoom > m {
        match tc.tile_ready(&parent) {
            Err(e) => {
                proof {
                    let i = choose|i: int|
                        0 <= i < 4 && #[trigger] tc1.state_of(cs[i]) matches Some(TileState::Processed);
                    assert(cs[i] != tile@);
                    assert(sees_processed(tc0, tile@, parent@));
                }
                return Err(e);
            },
            Ok(ready) => {
                proof {
                    assert(!sees_processed(tc0, tile@, parent@)) by {
                        if sees_processed(tc0, tile@, parent@) {
                            let i = choose|i: int|
                                0 <= i < 4 && #[trigger] children_of(parent@)[i] != tile@ && tc0.state_of(
                                    children_of(parent@)[i],
                                ) matches Some(TileState::Processed);
                            assert(tc1.state_of(cs[i]) matches Some(TileState::Processed));
                        }
                    }
                    assert(ready == ready_after(tc0, tile@, parent@)) by {
                        if ready {
                            assert forall|i: int| 0 <= i < 4 implies {
                                let c = #[trigger] children_of(parent@)[i];
                                c == tile@ || tc0.state_of(c) is None || tc0.state_of(c) matches Some(
                                    TileState::Loaded(_),
                                )
                            } by {
                                assert(!(tc1.state_of(cs[i]) matches Some(TileState::Waiting)));
                                assert(!(tc1.state_of(cs[i]) matches Some(TileState::Processed)));
                            }
                        } else {
                            let i = choose|i: int|
                                0 <= i < 4 && (#[trigger] tc1.state_of(children_of(parent@)[i])) matches Some(
                                    TileState::Waiting,
                                );
                            assert(cs[i] != tile@);
                        }
                    }
                }
                if ready {
                    let children = tc.take_children(&parent);
                    proof {
                        lemma_present_after(tc0, tc1, tile@, image, cs);
                        assert forall|i: int|
                            0 <= i < 4 && (#[trigger] cs[i] == tile@ || tc0.state_of(cs[i]) is Some) implies tc.state_of(
                            cs[i],
                        ) == Some(TileState::Processed) by {
                            assert(tc.surface_named(cs[i].surface) == tc1.surface_named(cs[i].surface));
                            let kc = tc1.key_of_view(cs[i])->0;
                            assert(tc1.is_child_key(parent@, kc));
                        }
                        assert forall|j: int| 0 <= j < children@.len() implies (if (
                        #[trigger] children@[j]).0@ == tile@ {
                            children@[j].1 == image
                        } else {
                            tc0.state_of(children@[j].0@) == Some(TileState::Loaded(children@[j].1))
                        }) by {
                            let c = children@[j].0@;
                            let p = tc1.present_children(cs);
                            assert(c == p[j]);
                            assert(tc1.state_of(c) == Some(TileState::Loaded(children@[j].1)));
                            lemma_present_in(tc1, cs, j);
                            let i = choose|i: int| 0 <= i < cs.len() && cs[i] == p[j];
                            assert(tc1.state_of(cs[i]) == (if cs[i] == tile@ {
                                Some(TileState::Loaded(image))
                            } else {
                                tc0.state_of(cs[i])
                            }));
                        }
                    }
                    ds.push(Directive::Work(MessageToWorker::TileBuildParent { parent, children }));
                }
            },
        }
    }
    if tc.loaded_tiles == tc.total_tiles {
        let index = tc.map_index();
        ds.push(Directive::Publish(index));
    }
    Ok(ds)
}

/// Every tile listed among the present children is one of the children.
proof fn lemma_present_in(tc: ThreadContext, cs: Seq<TileView>, j: int)
    requires
        0 <= j < tc.present_children(cs).len(),
    ensures
        exists|i: int| 0 <= i < cs.len() && cs[i] == tc.present_children(cs)[j],
    decreases cs.len(),
{
    if cs.len() > 0 {
        let rest = tc.present_children(cs.drop_last());
        if j < rest.len() {
            lemma_present_in(tc, cs.drop_last(), j);
            let i = choose|i: int| 0 <= i < cs.drop_last().len() && cs.drop_last()[i] == rest[j];
            assert(cs[i] == cs.drop_last()[i]);
        } else {
            assert(cs[cs.len() - 1] == tc.present_children(cs)[j]);
        }
    }
}

/// The coordinator of a run: before the manifest it holds no registry.
pub struct Coordinator {
    pub context: Option<ThreadContext>,
}

/// What planning `info` gives a coordinator that has no registry yet.
pub open spec fn manifest_outcome(
    info: Seq<SurfaceInfo>,
    c1: Coordinator,
    r: Result<Vec<Directive>, EngineError>,
) -> bool {
    if info.len() >= 0x1_0000_0000 {
        r == Err::<Vec<Directive>, EngineError>(EngineError::TooManySurfaces)
    } else if !chunks_in_range(info) {
        r == Err::<Vec<Directive>, EngineError>(EngineError::ChunkOutOfRange)
    } else if has_duplicate_names(info) {
        r == Err::<Vec<Directive>, EngineError>(EngineError::DuplicateSurface)
    } else {
        &&& c1.context matches Some(tc) && tc.wf() && tc.plans(info)
        &&& r matches Ok(ds) && (if c1.context->0.total_tiles == 0 {
            ds@.len() == 1 && (ds@[0] matches Directive::Publish(index) && is_map_index(
                c1.context->0,
                index@,
            ))
        } else {
            ds@.len() == 0
        })
    }
}

/// What a file's arrival gives, by its name.
pub open spec fn file_outcome(
    c0: Coordinator,
    f: VirtualFile,
    r: Result<Vec<Directive>, EngineError>,
) -> bool {
    match classify_spec(f.path@) {
        Err(e) => r == Err::<Vec<Directive>, EngineError>(e),
        Ok(FileKindView::Manifest) => if c0.context is Some {
            r == Err::<Vec<Directive>, EngineError>(EngineError::ManifestRepeated)
        } else {
            r matches Ok(ds) && (ds@.len() == 1 && (ds@[0] matches Directive::DecodeManifest(b) && b@
                == f.data@))
        },
        Ok(FileKindView::Chunk(t)) => if c0.context is None {
            r == Err::<Vec<Directive>, EngineError>(EngineError::NoManifest)
        } else {
            r matches Ok(ds) && (ds@.len() == 1 && (ds@[0] matches Directive::Work(
                MessageToWorker::ReadImage { tile, data },
            ) && tile@ == t && data@ == f.data@))
        },
        Ok(FileKindView::Other) => r matches Ok(ds) && ds@.len() == 0,
    }
}

impl Coordinator {
    /// The coordinator's invariant.
    pub open spec fn wf(&self) -> bool {
        self.context matches Some(tc) ==> tc.wf()
    }

    /// A coordinator before the manifest.
    pub fn new() -> (r: Coordinator)
        ensures
            r.wf(),
            r.context is None,
    {
        Coordinator { context: None }
    }

    /// Applies one message and says what the loop must do next.
    pub fn handle(&mut self, msg: MessageToMain) -> (r: Result<Vec<Directive>, EngineError>)
        requires
            old(self).wf(),
        ensures
            final(self).wf(),
            match msg {
                MessageToMain::Finished | MessageToMain::Killed => {
                    &&& r matches Ok(ds) && ds@.len() == 1 && ds@[0] is Stop
                    &&& *final(self) == *old(self)
                },
                MessageToMain::File(f) => file_outcome(*old(self), f, r) && *final(self) == *old(
                    self,
                ),
                MessageToMain::Manifest(info) => if old(self).context is Some {
                    r == Err::<Vec<Directive>, EngineError>(EngineError::ManifestRepeated)
                        && *final(self) == *old(self)
                } else {
                    manifest_outcome(info@, *final(self), r)
                },
                MessageToMain::FinishReadImage { tile, image } => if old(self).context is None {
                    r == Err::<Vec<Directive>, EngineError>(EngineError::NoManifest)
                } else {
                    &&& r matches Ok(ds) && (ds@.len() == 1 && (ds@[0] matches Directive::Work(
                        MessageToWorker::TileWriteParts { tile: t, image: i },
                    ) && t@ == tile@ && i == image))
                    &&& *final(self) == *old(self)
                },
                MessageToMain::FinishWriteParts { tile, image } => if old(self).context is None {
                    r == Err::<Vec<Directive>, EngineError>(EngineError::NoManifest)
                } else {
                    final(self).context matches Some(tc1) && parts_written_outcome(
                        old(self).context->0,
                        tc1,
                        tile@,
                        image,
                        r,
                    )
                },
                MessageToMain::FinishBuildParent { parent, image } => if old(self).context is None {
                    r == Err::<Vec<Directive>, EngineError>(EngineError::NoManifest)
                } else {
                    &&& r matches Ok(ds) && (ds@.len() == 1 && (ds@[0] matches Directive::Work(
                        MessageToWorker::TileWriteParts { tile: t, image: i },
                    ) && t@ == parent@ && i == image))
                    &&& *final(self) == *old(self)
                },
            },
    {
        match msg {
            MessageToMain::Finished | MessageToMain::Killed => {
                let mut ds: Vec<Directive> = Vec::new();
                ds.push(Directive::Stop);
                Ok(ds)
            },
            MessageToMain::File(f) => self.on_file(f),
            MessageToMain::Manifest(info) => {
                if self.context.is_some() {
                    return Err(EngineError::ManifestRepeated);
                }
                self.on_manifest(info)
            },
            MessageToMain::FinishReadImage { tile, image } => {
                if self.context.is_none() {
                    return Err(EngineError::NoManifest);
                }
                let mut ds: Vec<Directive> = Vec::new();
                ds.push(Directive::Work(MessageToWorker::TileWriteParts { tile, image }));
                Ok(ds)
            },
            MessageToMain::FinishWriteParts { tile, image } => {
                match &mut self.context {
                    Some(tc) => on_parts_written(tc, tile, image),
                    None => Err(EngineError::NoManifest),
                }
            },
            MessageToMain::FinishBuildParent { parent, image } => {
                if self.context.is_none() {
                    return Err(EngineError::NoManifest);
                }
                let mut ds: Vec<Directive> = Vec::new();
                ds.push(Directive::Work(MessageToWorker::TileWriteParts { tile: parent, image }));
                Ok(ds)
            },
        }
    }

    fn on_file(&self, f: VirtualFile) -> (r: Result<Vec<Directive>, EngineError>)
        ensures
            file_outcome(*self, f, r),
    {
        let ghost fv = f;
        let kind = match classify(&f.path) {
            Ok(k) => k,
            Err(e) => {
                return Err(e);
            },
        };
        let mut ds: Vec<Directive> = Vec::new();
        match kind {
            FileKind::Manifest => {
                if self.context.is_some() {
                    return Err(EngineError::ManifestRepeated);
                }
                ds.push(Directive::DecodeManifest(f.data));
            },
            FileKind::Chunk(tile) => {
                if self.context.is_none() {
                    return Err(EngineError::NoManifest);
                }
                ds.push(Directive::Work(MessageToWorker::ReadImage { tile, data: f.data }));
            },
            FileKind::Other => {},
        }
        Ok(ds)
    }

    fn on_manifest(&mut self, info: Vec<SurfaceInfo>) -> (r: Result<Vec<Directive>, EngineError>)
        requires
            old(self).context is None,
        ensures
            final(self).wf(),
            manifest_outcome(info@, *final(self), r),
            r is Err ==> *final(self) == *old(self),
    {
        if info.len() as u64 >= 0x1_0000_0000 {
            return Err(EngineError::TooManySurfaces);
        }
        let tc = match ThreadContext::new(&info) {
            Ok(tc) => tc,
            Err(e) => {
                return Err(e);
            },
        };
        let mut ds: Vec<Directive> = Vec::new();
        if tc.total_tiles == 0 {
            ds.push(Directive::Publish(tc.map_index()));
        }
        self.context = Some(tc);
        Ok(ds)
    }
}

/// Termination: every accepted write of a tile's parts lowers the number of
/// waiting tiles by exactly one, and the map index is published exactly when
/// that number reaches zero, with every planned tile written once.
pub proof fn lemma_run_terminates(
    tc0: ThreadContext,
    tc1: ThreadContext,
    tile: TileView,
    image: RgbaImage,
    ds: Vec<Directive>,
)
    requires
        tc0.wf(),
        parts_written_outcome(tc0, tc1, tile, image, Ok(ds)),
    ensures
        waiting_keys(tc1.tiles@).len() < waiting_keys(tc0.tiles@).len(),
        tc1.total_tiles - tc1.loaded_tiles == waiting_keys(tc1.tiles@).len(),
        (ds@.len() > 0 && ds@.last() is Publish) <==> waiting_keys(tc1.tiles@).len() == 0,
        (ds@.len() > 0 && ds@.last() is Publish) ==> tc1.loaded_tiles == tc1.total_tiles,
{
    if ds@.len() > 0 && ds@.last() is Publish {
        if tc1.loaded_tiles != tc1.total_tiles {
            assert(dispatches(tc0, tile));
            assert(ds@.len() == 1);
            assert(ds@[0] is Work);
        }
    }
}

/// The index is published once: when every planned tile is written, no further
/// write of parts is accepted.
pub proof fn lemma_publish_once(
    tc0: ThreadContext,
    tc1: ThreadContext,
    tile: TileView,
    image: RgbaImage,
    r: Result<Vec<Directive>, EngineError>,
)
    requires
        tc0.wf(),
        tc0.loaded_tiles == tc0.total_tiles,
        parts_written_outcome(tc0, tc1, tile, image, r),
    ensures
        r is Err,
{
    let w = waiting_keys(tc0.tiles@);
    vstd::set_lib::lemma_len_subset(w, tc0.tiles@.dom());
    if tc0.state_of(tile) matches Some(TileState::Waiting) {
        let k = tc0.key_of_view(tile)->0;
        assert(w.contains(k));
        vstd::set_lib::lemma_set_empty_equivalency_len(w);
    }
}

} // verus!
