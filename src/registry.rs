//! The tile registry: which tiles a run must produce, and the state of each.

use std::collections::HashMap;

use vstd::prelude::*;

use crate::error::EngineError;
use crate::image::RgbaImage;
use crate::plan::{
    ancestor, lemma_ancestor_at_max, lemma_ancestor_parent, lemma_min_zoom_bounds,
    min_zoom_of, surface_min_zoom, SurfaceInfo,
};
use crate::tile::{children_of, div_floor_2, first_child_of, representable, translated, Tile, TileView};
use crate::MAX_ZOOM;

verus! {

broadcast use vstd::std_specs::hash::group_hash_axioms;

/// Packs four fields into one 128-bit key: 56, 8, 32 and 32 bits wide.
pub open spec fn pack(a: u128, b: u128, c: u128, d: u128) -> u128 {
    (a << 72u128) | (b << 64u128) | (c << 32u128) | d
}

/// The registry key of tile `(x, y)` at level `z` of the surface with index `s`.
pub open spec fn key_of(s: int, z: int, x: int, y: int) -> u128 {
    pack(s as u128, (z + 128) as u128, (x + 0x8000_0000) as u128, (y + 0x8000_0000) as u128)
}

/// Whether a tile's surface index, level and coordinates fit in a key.
pub open spec fn key_fits(s: int, z: int, x: int, y: int) -> bool {
    0 <= s < 0x1_0000_0000 && -128 <= z < 128 && i32::MIN <= x <= i32::MAX && i32::MIN <= y
        <= i32::MAX
}

proof fn lemma_pack_injective(
    a1: u128,
    b1: u128,
    c1: u128,
    d1: u128,
    a2: u128,
    b2: u128,
    c2: u128,
    d2: u128,
) by (bit_vector)
    requires
        a1 < 0x1_0000_0000,
        b1 < 256,
        c1 < 0x1_0000_0000,
        d1 < 0x1_0000_0000,
        a2 < 0x1_0000_0000,
        b2 < 256,
        c2 < 0x1_0000_0000,
        d2 < 0x1_0000_0000,
        (a1 << 72u128) | (b1 << 64u128) | (c1 << 32u128) | d1 == (a2 << 72u128) | (b2 << 64u128)
            | (c2 << 32u128) | d2,
    ensures
        a1 == a2 && b1 == b2 && c1 == c2 && d1 == d2,
{
}

/// Distinct tiles have distinct keys.
pub proof fn lemma_key_injective(s1: int, z1: int, x1: int, y1: int, s2: int, z2: int, x2: int, y2: int)
    requires
        key_fits(s1, z1, x1, y1),
        key_fits(s2, z2, x2, y2),
        key_of(s1, z1, x1, y1) == key_of(s2, z2, x2, y2),
    ensures
        s1 == s2 && z1 == z2 && x1 == x2 && y1 == y2,
{
    lemma_pack_injective(
        s1 as u128,
        (z1 + 128) as u128,
        (x1 + 0x8000_0000) as u128,
        (y1 + 0x8000_0000) as u128,
        s2 as u128,
        (z2 + 128) as u128,
        (x2 + 0x8000_0000) as u128,
        (y2 + 0x8000_0000) as u128,
    );
}

/// Computes the registry key of a tile.
pub fn tile_key(s: usize, z: i32, x: i32, y: i32) -> (r: u128)
    requires
        key_fits(s as int, z as int, x as int, y as int),
    ensures
        r == key_of(s as int, z as int, x as int, y as int),
{
    let a: u128 = s as u128;
    let b: u128 = (z + 128) as u128;
    let c: u128 = (x as i64 + 0x8000_0000) as u128;
    let d: u128 = (y as i64 + 0x8000_0000) as u128;
    (a << 72u128) | (b << 64u128) | (c << 32u128) | d
}

/// Coordinates on the path of a chunk fit a machine integer.
pub proof fn lemma_ancestor_fits(c: int, z: int)
    requires
        i32::MIN <= c <= i32::MAX,
        z <= MAX_ZOOM,
    ensures
        i32::MIN <= ancestor(c, z) <= i32::MAX,
        c >= 0 ==> 0 <= ancestor(c, z) <= c,
        c < 0 ==> c <= ancestor(c, z) < 0,
{
    let p = vstd::arithmetic::power2::pow2((MAX_ZOOM - z) as nat) as int;
    vstd::arithmetic::power2::lemma_pow2_pos((MAX_ZOOM - z) as nat);
    let q = c / p;
    let r = c % p;
    vstd::arithmetic::div_mod::lemma_fundamental_div_mod(c, p);
    assert(c == p * q + r && 0 <= r < p);
    if c >= 0 {
        assert(0 <= q <= c) by (nonlinear_arith)
            requires
                c >= 0,
                p >= 1,
                c == p * q + r,
                0 <= r < p,
        ;
    } else {
        assert(c <= q < 0) by (nonlinear_arith)
            requires
                c < 0,
                p >= 1,
                c == p * q + r,
                0 <= r < p,
        ;
    }
}

/// Two chunk coordinates that share an ancestor share every ancestor above it.
pub proof fn lemma_ancestor_agree(c1: int, c2: int, z: int, z2: int)
    requires
        ancestor(c1, z) == ancestor(c2, z),
        z2 <= z <= MAX_ZOOM,
    ensures
        ancestor(c1, z2) == ancestor(c2, z2),
    decreases z - z2,
{
    if z2 < z {
        lemma_ancestor_parent(c1, z);
        lemma_ancestor_parent(c2, z);
        lemma_ancestor_agree(c1, c2, z - 1, z2);
    }
}

/// The state of a planned tile.
pub enum TileState {
    /// Its parts are written and its image waits for the parent to be built.
    Loaded(RgbaImage),
    /// Its image has not been produced yet.
    Waiting,
    /// Its image went into its parent.
    Processed,
}

/// A planned tile, by the index of its surface.
#[derive(Debug, Clone, Copy, PartialEq, Eq)]
pub struct TileRef {
    pub surface: usize,
    pub zoom: i32,
    pub x: i32,
    pub y: i32,
}

/// The registry key of a planned tile.
pub open spec fn ref_key(t: TileRef) -> u128 {
    key_of(t.surface as int, t.zoom as int, t.x as int, t.y as int)
}

/// A surface as planned: its name and, where it has chunks, its root level.
#[derive(Debug)]
pub struct SurfacePlan {
    pub name: String,
    pub min_zoom: Option<i32>,
}

/// Whether `(s, j, z)` names a tile on the path of chunk `j` of surface `s`:
/// the level lies above the surface's root level and at most at the chunk level.
pub open spec fn on_path(info: Seq<SurfaceInfo>, s: int, j: int, z: int) -> bool {
    &&& 0 <= s < info.len()
    &&& 0 <= j < info[s].chunks@.len()
    &&& min_zoom_of(info[s].chunks@) < z <= MAX_ZOOM
}

/// The key of the tile at level `z` on the path of chunk `j` of surface `s`.
pub open spec fn path_key(info: Seq<SurfaceInfo>, s: int, j: int, z: int) -> u128 {
    let c = info[s].chunks@[j];
    key_of(s, z, ancestor(c.x as int, z), ancestor(c.y as int, z))
}

/// Whether `k` is on the path of a chunk that comes before chunk `j` of surface `s`.
pub open spec fn planned_before(info: Seq<SurfaceInfo>, s: int, j: int, k: u128) -> bool {
    exists|s2: int, j2: int, z2: int|
        #![trigger path_key(info, s2, j2, z2)]
        on_path(info, s2, j2, z2) && (s2 < s || (s2 == s && j2 < j)) && path_key(info, s2, j2, z2)
            == k
}

/// Whether `k` is on the path of some chunk of the manifest.
pub open spec fn planned(info: Seq<SurfaceInfo>, k: u128) -> bool {
    planned_before(info, info.len() as int, 0, k)
}

/// Whether two surfaces of the manifest share a name.
pub open spec fn has_duplicate_names(info: Seq<SurfaceInfo>) -> bool {
    exists|a: int, b: int| 0 <= a < b < info.len() && #[trigger] info[a].name@ == #[trigger] info[b].name@
}

/// The root level recorded for a surface: none where it has no chunks.
pub open spec fn planned_min_zoom(chunks: Seq<crate::plan::Coordinate>) -> Option<i32> {
    if chunks.len() == 0 {
        None
    } else {
        Some(min_zoom_of(chunks) as i32)
    }
}

pub open spec fn path_fits(info: Seq<SurfaceInfo>, s: int, j: int, z: int) -> bool {
    let c = info[s].chunks@[j];
    key_fits(s, z, ancestor(c.x as int, z), ancestor(c.y as int, z))
}

proof fn lemma_path_fits(info: Seq<SurfaceInfo>, s: int, j: int, z: int)
    requires
        info.len() < 0x1_0000_0000,
        0 <= s < info.len(),
        0 <= j < info[s].chunks@.len(),
        min_zoom_of(info[s].chunks@) <= z <= MAX_ZOOM,
    ensures
        path_fits(info, s, j, z),
{
    let c = info[s].chunks@[j];
    lemma_min_zoom_bounds(info[s].chunks@);
    lemma_ancestor_fits(c.x as int, z);
    lemma_ancestor_fits(c.y as int, z);
}

/// Equal keys on the paths of two chunks mean the same level and the same
/// tile, and from there on the same path.
proof fn lemma_paths_join(info: Seq<SurfaceInfo>, s: int, j: int, z: int, s2: int, j2: int, z2: int)
    requires
        info.len() < 0x1_0000_0000,
        on_path(info, s, j, z) || (0 <= s < info.len() && 0 <= j < info[s].chunks@.len() && z
            == min_zoom_of(info[s].chunks@)),
        on_path(info, s2, j2, z2),
        path_key(info, s, j, z) == path_key(info, s2, j2, z2),
    ensures
        s == s2,
        z == z2,
        forall|z3: int| z3 <= z ==> path_key(info, s, j, z3) == #[trigger] path_key(info, s2, j2, z3),
{
    lemma_path_fits(info, s, j, z);
    lemma_path_fits(info, s2, j2, z2);
    let c = info[s].chunks@[j];
    let c2 = info[s2].chunks@[j2];
    lemma_key_injective(
        s,
        z,
        ancestor(c.x as int, z),
        ancestor(c.y as int, z),
        s2,
        z2,
        ancestor(c2.x as int, z2),
        ancestor(c2.y as int, z2),
    );
    assert forall|z3: int| z3 <= z implies path_key(info, s, j, z3) == #[trigger] path_key(
        info,
        s2,
        j2,
        z3,
    ) by {
        lemma_ancestor_agree(c.x as int, c2.x as int, z, z3);
        lemma_ancestor_agree(c.y as int, c2.y as int, z, z3);
    }
}

/// The map of states and the list of planned tiles hold the same tiles, each once.
pub open spec fn registry_matches(tiles: Map<u128, TileState>, planned: Seq<TileRef>) -> bool {
    &&& planned.len() == tiles.len()
    &&& forall|i: int| 0 <= i < planned.len() ==> tiles.contains_key(#[trigger] ref_key(planned[i]))
    &&& forall|i: int, j: int|
        0 <= i < j < planned.len() ==> #[trigger] ref_key(planned[i]) != #[trigger] ref_key(
            planned[j],
        )
    &&& forall|k: u128| #[trigger]
        tiles.contains_key(k) ==> exists|i: int| 0 <= i < planned.len() && ref_key(planned[i]) == k
}

/// The keys of the tiles that still wait for their image.
pub open spec fn waiting_keys(tiles: Map<u128, TileState>) -> Set<u128> {
    tiles.dom().filter(|k: u128| tiles[k] is Waiting)
}

/// Whether every tile in the map waits for its image.
pub open spec fn all_waiting(tiles: Map<u128, TileState>) -> bool {
    forall|k: u128| #[trigger] tiles.contains_key(k) ==> tiles[k] is Waiting
}

/// Whether a chunk or tile coordinate is near enough to the origin that the
/// coordinates of its parts fit a machine integer.
pub open spec fn coord_in_range(v: int) -> bool {
    -0x4000_0000 <= v < 0x4000_0000
}

/// Whether every chunk of the manifest is in range.
pub open spec fn chunks_in_range(info: Seq<SurfaceInfo>) -> bool {
    forall|s: int, j: int|
        0 <= s < info.len() && 0 <= j < info[s].chunks@.len() ==> coord_in_range(
            #[trigger] info[s].chunks@[j].x as int,
        ) && coord_in_range(info[s].chunks@[j].y as int)
}

/// Whether every planned tile lies on a surface with chunks, up to surface `s`,
/// strictly above that surface's root level.
pub open spec fn refs_on_surfaces(info: Seq<SurfaceInfo>, planned: Seq<TileRef>, s: int) -> bool {
    forall|i: int|
        0 <= i < planned.len() ==> {
            let t = #[trigger] planned[i];
            &&& t.surface <= s
            &&& t.surface < info.len()
            &&& info[t.surface as int].chunks@.len() > 0
            &&& min_zoom_of(info[t.surface as int].chunks@) < t.zoom <= MAX_ZOOM
            &&& coord_in_range(t.x as int)
            &&& coord_in_range(t.y as int)
        }
}

/// Inserts the path of chunk `j` of surface `s`, from the chunk level up to
/// the first tile that is already there or to the surface's root level.
fn plan_chunk(
    tiles: &mut HashMap<u128, TileState>,
    planned: &mut Vec<TileRef>,
    info: &Vec<SurfaceInfo>,
    s: usize,
    j: usize,
    mz: i32,
)
    requires
        info@.len() < 0x1_0000_0000,
        s < info@.len(),
        j < info@[s as int].chunks@.len(),
        mz as int == min_zoom_of(info@[s as int].chunks@),
        chunks_in_range(info@),
        registry_matches(old(tiles)@, old(planned)@),
        all_waiting(old(tiles)@),
        refs_on_surfaces(info@, old(planned)@, s as int),
        forall|k: u128| #[trigger]
            old(tiles)@.contains_key(k) <==> planned_before(info@, s as int, j as int, k),
    ensures
        registry_matches(final(tiles)@, final(planned)@),
        all_waiting(final(tiles)@),
        refs_on_surfaces(info@, final(planned)@, s as int),
        forall|k: u128| #[trigger]
            final(tiles)@.contains_key(k) <==> planned_before(info@, s as int, j as int + 1, k),
{
    let ghost I = info@;
    let ghost si = s as int;
    let ghost ji = j as int;
    let c = info[s].chunks[j];
    proof {
        lemma_ancestor_at_max(c.x as int);
        lemma_ancestor_at_max(c.y as int);
        lemma_min_zoom_bounds(I[si].chunks@);
    }
    let mut z: i32 = MAX_ZOOM;
    let mut x: i32 = c.x;
    let mut y: i32 = c.y;
    loop
        invariant
            info@ == I,
            I.len() < 0x1_0000_0000,
            0 <= si < I.len(),
            0 <= ji < I[si].chunks@.len(),
            si == s as int,
            ji == j as int,
            c == I[si].chunks@[ji],
            coord_in_range(c.x as int),
            coord_in_range(c.y as int),
            mz as int == min_zoom_of(I[si].chunks@),
            -18 <= mz <= MAX_ZOOM - 6,
            mz <= z <= MAX_ZOOM,
            x as int == ancestor(c.x as int, z as int),
            y as int == ancestor(c.y as int, z as int),
            registry_matches(tiles@, planned@),
            all_waiting(tiles@),
            refs_on_surfaces(I, planned@, si),
            forall|k: u128| #[trigger]
                tiles@.contains_key(k) <==> (planned_before(I, si, ji, k) || exists|z2: int|
                    z < z2 <= MAX_ZOOM && k == #[trigger] path_key(I, si, ji, z2)),
        ensures
            registry_matches(tiles@, planned@),
            all_waiting(tiles@),
            refs_on_surfaces(I, planned@, si),
            forall|k: u128| #[trigger] tiles@.contains_key(k) <==> planned_before(I, si, ji + 1, k),
        decreases z - mz,
    {
        if z <= mz {
            proof {
                assert forall|k: u128| #[trigger]
                    tiles@.contains_key(k) <==> planned_before(I, si, ji + 1, k) by {
                    if tiles@.contains_key(k) {
                        if planned_before(I, si, ji, k) {
                            let (s2, j2, z2) = choose|s2: int, j2: int, z2: int|
                                #![trigger path_key(I, s2, j2, z2)]
                                on_path(I, s2, j2, z2) && (s2 < si || (s2 == si && j2 < ji))
                                    && path_key(I, s2, j2, z2) == k;
                            assert(path_key(I, s2, j2, z2) == k);
                        } else {
                            let z2 = choose|z2: int|
                                z < z2 <= MAX_ZOOM && k == #[trigger] path_key(I, si, ji, z2);
                            assert(on_path(I, si, ji, z2));
                        }
                    }
                    if planned_before(I, si, ji + 1, k) {
                        let (s2, j2, z2) = choose|s2: int, j2: int, z2: int|
                            #![trigger path_key(I, s2, j2, z2)]
                            on_path(I, s2, j2, z2) && (s2 < si || (s2 == si && j2 < ji + 1))
                                && path_key(I, s2, j2, z2) == k;
                        if s2 < si || j2 < ji {
                            assert(planned_before(I, si, ji, k));
                        } else {
                            assert(z < z2 <= MAX_ZOOM && k == path_key(I, si, ji, z2));
                        }
                    }
                }
            }
            break;
        }
        proof {
            lemma_path_fits(I, si, ji, z as int);
        }
        let k = tile_key(s, z, x, y);
        assert(k == path_key(I, si, ji, z as int));
        if tiles.contains_key(&k) {
            proof {
                assert(on_path(I, si, ji, z as int));
                if exists|z2: int| z < z2 <= MAX_ZOOM && k == #[trigger] path_key(I, si, ji, z2) {
                    let z2 = choose|z2: int|
                        z < z2 <= MAX_ZOOM && k == #[trigger] path_key(I, si, ji, z2);
                    assert(on_path(I, si, ji, z2));
                    lemma_paths_join(I, si, ji, z as int, si, ji, z2);
                }
                assert(planned_before(I, si, ji, k));
                let (s2, j2, z2) = choose|s2: int, j2: int, z2: int|
                    #![trigger path_key(I, s2, j2, z2)]
                    on_path(I, s2, j2, z2) && (s2 < si || (s2 == si && j2 < ji))
                        && path_key(I, s2, j2, z2) == k;
                lemma_paths_join(I, si, ji, z as int, s2, j2, z2);
                assert forall|z3: int| mz < z3 <= z implies #[trigger] tiles@.contains_key(
                    path_key(I, si, ji, z3),
                ) by {
                    assert(path_key(I, si, ji, z3) == path_key(I, s2, j2, z3));
                    assert(on_path(I, s2, j2, z3));
                    assert(planned_before(I, si, ji, path_key(I, si, ji, z3)));
                }
                assert forall|k2: u128| #[trigger]
                    tiles@.contains_key(k2) <==> planned_before(I, si, ji + 1, k2) by {
                    if tiles@.contains_key(k2) {
                        if planned_before(I, si, ji, k2) {
                            let (s3, j3, z3) = choose|s3: int, j3: int, z3: int|
                                #![trigger path_key(I, s3, j3, z3)]
                                on_path(I, s3, j3, z3) && (s3 < si || (s3 == si && j3 < ji))
                                    && path_key(I, s3, j3, z3) == k2;
                            assert(path_key(I, s3, j3, z3) == k2);
                        } else {
                            let z3 = choose|z3: int|
                                z < z3 <= MAX_ZOOM && k2 == #[trigger] path_key(I, si, ji, z3);
                            assert(on_path(I, si, ji, z3));
                        }
                    }
                    if planned_before(I, si, ji + 1, k2) {
                        let (s3, j3, z3) = choose|s3: int, j3: int, z3: int|
                            #![trigger path_key(I, s3, j3, z3)]
                            on_path(I, s3, j3, z3) && (s3 < si || (s3 == si && j3 < ji + 1))
                                && path_key(I, s3, j3, z3) == k2;
                        if s3 < si || j3 < ji {
                            assert(planned_before(I, si, ji, k2));
                        } else if z3 > z {
                            assert(z < z3 <= MAX_ZOOM && k2 == path_key(I, si, ji, z3));
                        } else {
                            assert(tiles@.contains_key(path_key(I, si, ji, z3)));
                        }
                    }
                }
            }
            break;
        }
        let ghost old_tiles = tiles@;
        let ghost old_planned = planned@;
        tiles.insert(k, TileState::Waiting);
        let t = TileRef { surface: s, zoom: z, x, y };
        planned.push(t);
        proof {
            lemma_ancestor_fits(c.x as int, z as int);
            lemma_ancestor_fits(c.y as int, z as int);
            assert(ref_key(t) == k);
            assert(planned@ == old_planned.push(t));
            assert(tiles@ == old_tiles.insert(k, TileState::Waiting));
            assert(tiles@.len() == old_tiles.len() + 1);
            assert forall|k2: u128| #[trigger] tiles@.contains_key(k2) implies exists|i: int|
                0 <= i < planned@.len() && ref_key(planned@[i]) == k2 by {
                if k2 == k {
                    assert(ref_key(planned@[planned@.len() - 1]) == k2);
                } else {
                    assert(old_tiles.contains_key(k2));
                    let i = choose|i: int| 0 <= i < old_planned.len() && ref_key(old_planned[i]) == k2;
                    assert(ref_key(planned@[i]) == k2);
                }
            }
            assert forall|i: int| 0 <= i < planned@.len() implies tiles@.contains_key(
                #[trigger] ref_key(planned@[i]),
            ) by {
                if i < old_planned.len() {
                    assert(planned@[i] == old_planned[i]);
                    assert(old_tiles.contains_key(ref_key(old_planned[i])));
                }
            }
            assert forall|i: int, i2: int|
                0 <= i < i2 < planned@.len() implies #[trigger] ref_key(planned@[i])
                != #[trigger] ref_key(planned@[i2]) by {
                if i2 == planned@.len() - 1 {
                    assert(old_tiles.contains_key(ref_key(old_planned[i])));
                } else {
                    assert(planned@[i] == old_planned[i]);
                    assert(planned@[i2] == old_planned[i2]);
                }
            }
            assert forall|i: int| 0 <= i < planned@.len() implies {
                let t2 = #[trigger] planned@[i];
                &&& t2.surface <= si
                &&& t2.surface < I.len()
                &&& I[t2.surface as int].chunks@.len() > 0
                &&& min_zoom_of(I[t2.surface as int].chunks@) < t2.zoom <= MAX_ZOOM
                &&& coord_in_range(t2.x as int)
                &&& coord_in_range(t2.y as int)
            } by {
                if i < old_planned.len() {
                    assert(planned@[i] == old_planned[i]);
                }
            }
            lemma_ancestor_parent(c.x as int, z as int);
            lemma_ancestor_parent(c.y as int, z as int);
            assert forall|k2: u128| #[trigger]
                tiles@.contains_key(k2) <==> (planned_before(I, si, ji, k2) || exists|z2: int|
                    z - 1 < z2 <= MAX_ZOOM && k2 == #[trigger] path_key(I, si, ji, z2)) by {
                if k2 == k {
                    assert(path_key(I, si, ji, z as int) == k2);
                }
                if exists|z2: int| z - 1 < z2 <= MAX_ZOOM && k2 == #[trigger] path_key(I, si, ji, z2) {
                    let z2 = choose|z2: int|
                        z - 1 < z2 <= MAX_ZOOM && k2 == #[trigger] path_key(I, si, ji, z2);
                    if z2 > z {
                        assert(old_tiles.contains_key(k2));
                    }
                }
            }
        }
        x = div_floor_2(x);
        y = div_floor_2(y);
        z = z - 1;
    }
}

/// Whether every chunk of the manifest is in range, checked on the machine.
fn all_chunks_in_range(info: &Vec<SurfaceInfo>) -> (r: bool)
    ensures
        r == chunks_in_range(info@),
{
    let mut s: usize = 0;
    while s < info.len()
        invariant
            s <= info@.len(),
            forall|a: int, k: int|
                0 <= a < s && 0 <= k < info@[a].chunks@.len() ==> coord_in_range(
                    #[trigger] info@[a].chunks@[k].x as int,
                ) && coord_in_range(info@[a].chunks@[k].y as int),
        decreases info@.len() - s,
    {
        let mut j: usize = 0;
        while j < info[s].chunks.len()
            invariant
                s < info@.len(),
                j <= info@[s as int].chunks@.len(),
                forall|a: int, k: int|
                    0 <= a < info@.len() && 0 <= k < info@[a].chunks@.len() && (a < s || (a == s
                        && k < j)) ==> coord_in_range(#[trigger] info@[a].chunks@[k].x as int)
                        && coord_in_range(info@[a].chunks@[k].y as int),
            decreases info@[s as int].chunks@.len() - j,
        {
            let c = info[s].chunks[j];
            if c.x < -0x4000_0000 || c.x >= 0x4000_0000 || c.y < -0x4000_0000 || c.y >= 0x4000_0000 {
                assert(!coord_in_range(info@[s as int].chunks@[j as int].x as int) || !coord_in_range(
                    info@[s as int].chunks@[j as int].y as int,
                ));
                return false;
            }
            j += 1;
        }
        s += 1;
    }
    true
}

/// The registry of a run, owned by the coordinator: the planned surfaces, the
/// state of every planned tile, and the progress counters.
pub struct ThreadContext {
    pub surfaces: Vec<SurfacePlan>,
    pub tiles: HashMap<u128, TileState>,
    pub planned: Vec<TileRef>,
    pub loaded_tiles: usize,
    pub total_tiles: usize,
}

impl ThreadContext {
    /// Whether a planned tile lies on a planned surface, above its root level.
    pub open spec fn ref_ok(&self, t: TileRef) -> bool {
        &&& t.surface < self.surfaces@.len()
        &&& self.surfaces@[t.surface as int].min_zoom matches Some(m) && -18 <= m < t.zoom
            <= MAX_ZOOM
        &&& coord_in_range(t.x as int)
        &&& coord_in_range(t.y as int)
    }

    /// The registry's invariant.
    pub open spec fn wf(&self) -> bool {
        &&& self.surfaces@.len() < 0x1_0000_0000
        &&& registry_matches(self.tiles@, self.planned@)
        &&& forall|i: int| 0 <= i < self.planned@.len() ==> self.ref_ok(#[trigger] self.planned@[i])
        &&& self.total_tiles == self.planned@.len()
        &&& forall|a: int, b: int|
            0 <= a < b < self.surfaces@.len() ==> #[trigger] self.surfaces@[a].name@
                != #[trigger] self.surfaces@[b].name@
        &&& self.loaded_tiles + waiting_keys(self.tiles@).len() == self.total_tiles
    }

    /// Whether this registry is the plan of `info`: one surface each, with its
    /// root level, and exactly the tiles on the paths of the chunks, each waiting.
    pub open spec fn plans(&self, info: Seq<SurfaceInfo>) -> bool {
        &&& self.surfaces@.len() == info.len()
        &&& forall|s: int|
            0 <= s < info.len() ==> {
                &&& (#[trigger] self.surfaces@[s]).name@ == info[s].name@
                &&& self.surfaces@[s].min_zoom == planned_min_zoom(info[s].chunks@)
            }
        &&& forall|k: u128| #[trigger] self.tiles@.contains_key(k) <==> planned(info, k)
        &&& all_waiting(self.tiles@)
        &&& self.loaded_tiles == 0
        &&& self.total_tiles == self.tiles@.len()
    }

    /// Plans a run: records each surface with its root level and registers,
    /// as waiting, every tile on the path of every chunk from the chunk level up
    /// to just above the root level. Paths that meet share their tiles.
    pub fn new(info: &Vec<SurfaceInfo>) -> (r: Result<ThreadContext, EngineError>)
        requires
            info@.len() < 0x1_0000_0000,
        ensures
            r matches Err(EngineError::ChunkOutOfRange) <==> !chunks_in_range(info@),
            r matches Err(EngineError::DuplicateSurface) <==> chunks_in_range(info@)
                && has_duplicate_names(info@),
            r matches Err(e) ==> e == EngineError::ChunkOutOfRange || e
                == EngineError::DuplicateSurface,
            r matches Ok(tc) ==> tc.wf() && tc.plans(info@),
    {
        if !all_chunks_in_range(info) {
            return Err(EngineError::ChunkOutOfRange);
        }
        let mut tiles: HashMap<u128, TileState> = HashMap::new();
        let mut planned: Vec<TileRef> = Vec::new();
        let mut surfaces: Vec<SurfacePlan> = Vec::new();
        let ghost I = info@;
        let mut s: usize = 0;
        while s < info.len()
            invariant
                info@ == I,
                I.len() < 0x1_0000_0000,
                chunks_in_range(I),
                s <= I.len(),
                surfaces@.len() == s,
                forall|a: int|
                    0 <= a < s ==> {
                        &&& (#[trigger] surfaces@[a]).name@ == I[a].name@
                        &&& surfaces@[a].min_zoom == planned_min_zoom(I[a].chunks@)
                    },
                forall|a: int, b: int| 0 <= a < b < s ==> #[trigger] I[a].name@ != #[trigger] I[b].name@,
                registry_matches(tiles@, planned@),
                all_waiting(tiles@),
                refs_on_surfaces(I, planned@, s as int - 1),
                forall|k: u128| #[trigger] tiles@.contains_key(k) <==> planned_before(I, s as int, 0, k),
            decreases I.len() - s,
        {
            let surface = &info[s];
            let mut t: usize = 0;
            while t < s
                invariant
                    info@ == I,
                    s < I.len(),
                    chunks_in_range(I),
                    *surface == I[s as int],
                    t <= s,
                    surfaces@.len() == s,
                    forall|a: int| 0 <= a < s ==> (#[trigger] surfaces@[a]).name@ == I[a].name@,
                    forall|a: int| 0 <= a < t ==> #[trigger] I[a].name@ != I[s as int].name@,
                decreases s - t,
            {
                let same = surfaces[t].name.eq(&surface.name);
                assert(surfaces@[t as int].name@ == I[t as int].name@);
                if same {
                    assert(I[t as int].name@ == I[s as int].name@);
                    return Err(EngineError::DuplicateSurface);
                }
                t += 1;
            }
            if surface.chunks.len() == 0 {
                surfaces.push(SurfacePlan { name: surface.name.clone(), min_zoom: None });
                proof {
                    assert forall|k: u128| #[trigger]
                        tiles@.contains_key(k) <==> planned_before(I, s as int + 1, 0, k) by {
                        if planned_before(I, s as int + 1, 0, k) {
                            let (s2, j2, z2) = choose|s2: int, j2: int, z2: int|
                                #![trigger path_key(I, s2, j2, z2)]
                                on_path(I, s2, j2, z2) && (s2 < s as int + 1 || (s2 == s as int + 1 && j2 < 0))
                                    && path_key(I, s2, j2, z2) == k;
                            assert(planned_before(I, s as int, 0, k));
                        }
                        if planned_before(I, s as int, 0, k) {
                            let (s2, j2, z2) = choose|s2: int, j2: int, z2: int|
                                #![trigger path_key(I, s2, j2, z2)]
                                on_path(I, s2, j2, z2) && (s2 < s as int || (s2 == s as int && j2 < 0))
                                    && path_key(I, s2, j2, z2) == k;
                            assert(path_key(I, s2, j2, z2) == k);
                        }
                    }
                }
            } else {
                let mz = surface_min_zoom(&surface.chunks);
                surfaces.push(SurfacePlan { name: surface.name.clone(), min_zoom: Some(mz) });
                let mut j: usize = 0;
                while j < surface.chunks.len()
                    invariant
                        info@ == I,
                        I.len() < 0x1_0000_0000,
                        chunks_in_range(I),
                        s < I.len(),
                        *surface == I[s as int],
                        j <= I[s as int].chunks@.len(),
                        mz as int == min_zoom_of(I[s as int].chunks@),
                        registry_matches(tiles@, planned@),
                        all_waiting(tiles@),
                        refs_on_surfaces(I, planned@, s as int),
                        forall|k: u128| #[trigger]
                            tiles@.contains_key(k) <==> planned_before(I, s as int, j as int, k),
                    decreases I[s as int].chunks@.len() - j,
                {
                    plan_chunk(&mut tiles, &mut planned, info, s, j, mz);
                    j += 1;
                }
                proof {
                    assert forall|k: u128| #[trigger]
                        tiles@.contains_key(k) <==> planned_before(I, s as int + 1, 0, k) by {
                        if planned_before(I, s as int + 1, 0, k) {
                            let (s2, j2, z2) = choose|s2: int, j2: int, z2: int|
                                #![trigger path_key(I, s2, j2, z2)]
                                on_path(I, s2, j2, z2) && (s2 < s as int + 1 || (s2 == s as int + 1 && j2 < 0))
                                    && path_key(I, s2, j2, z2) == k;
                            assert(planned_before(I, s as int, j as int, k));
                        }
                        if planned_before(I, s as int, j as int, k) {
                            let (s2, j2, z2) = choose|s2: int, j2: int, z2: int|
                                #![trigger path_key(I, s2, j2, z2)]
                                on_path(I, s2, j2, z2) && (s2 < s as int || (s2 == s as int && j2 < j as int))
                                    && path_key(I, s2, j2, z2) == k;
                            assert(path_key(I, s2, j2, z2) == k);
                        }
                    }
                }
            }
            s += 1;
        }
        let total = tiles.len();
        let tc = ThreadContext { surfaces, tiles, planned, loaded_tiles: 0, total_tiles: total };
        proof {
            assert forall|i: int| 0 <= i < tc.planned@.len() implies tc.ref_ok(
                #[trigger] tc.planned@[i],
            ) by {
                let t = tc.planned@[i];
                lemma_min_zoom_bounds(I[t.surface as int].chunks@);
            }
            assert(!has_duplicate_names(I));
            assert(waiting_keys(tc.tiles@) =~= tc.tiles@.dom());
            assert forall|a: int, b: int|
                0 <= a < b < tc.surfaces@.len() implies #[trigger] tc.surfaces@[a].name@
                != #[trigger] tc.surfaces@[b].name@ by {
                assert(I[a].name@ != I[b].name@);
            }
        }
        Ok(tc)
    }

    /// The index of the surface called `name`, if there is one.
    pub open spec fn surface_named(&self, name: Seq<char>) -> Option<int> {
        if exists|i: int| 0 <= i < self.surfaces@.len() && #[trigger] self.surfaces@[i].name@ == name {
            Some(choose|i: int| 0 <= i < self.surfaces@.len() && #[trigger] self.surfaces@[i].name@ == name)
        } else {
            None
        }
    }

    /// The registry key of a tile, where its surface is planned and it fits a key.
    pub open spec fn key_of_view(&self, t: TileView) -> Option<u128> {
        match self.surface_named(t.surface) {
            Some(s) => if key_fits(s, t.zoom, t.x, t.y) {
                Some(key_of(s, t.zoom, t.x, t.y))
            } else {
                None
            },
            None => None,
        }
    }

    /// The state of a tile; none where the plan does not hold it.
    pub open spec fn state_of(&self, t: TileView) -> Option<TileState> {
        match self.key_of_view(t) {
            Some(k) => if self.tiles@.contains_key(k) {
                Some(self.tiles@[k])
            } else {
                None
            },
            None => None,
        }
    }

    /// The root level of a tile's surface, where the surface has chunks.
    pub open spec fn min_zoom_view(&self, surface: Seq<char>) -> Option<i32> {
        match self.surface_named(surface) {
            Some(s) => self.surfaces@[s].min_zoom,
            None => None,
        }
    }

    /// Finds a planned surface by name.
    pub fn surface_index(&self, name: &String) -> (r: Option<usize>)
        requires
            self.wf(),
        ensures
            match r {
                Some(i) => self.surface_named(name@) == Some(i as int),
                None => self.surface_named(name@) is None,
            },
    {
        let mut i: usize = 0;
        while i < self.surfaces.len()
            invariant
                self.wf(),
                i <= self.surfaces@.len(),
                forall|a: int| 0 <= a < i ==> #[trigger] self.surfaces@[a].name@ != name@,
            decreases self.surfaces@.len() - i,
        {
            if self.surfaces[i].name.eq(name) {
                proof {
                    let c = choose|c: int|
                        0 <= c < self.surfaces@.len() && #[trigger] self.surfaces@[c].name@ == name@;
                    if c != i {
                        if c < i {
                            assert(self.surfaces@[c].name@ != self.surfaces@[i as int].name@);
                        } else {
                            assert(self.surfaces@[i as int].name@ != self.surfaces@[c].name@);
                        }
                    }
                }
                return Some(i);
            }
            i += 1;
        }
        None
    }

    /// The registry key of a tile, where its surface is planned and it fits a key.
    pub fn lookup_key(&self, t: &Tile) -> (r: Option<u128>)
        requires
            self.wf(),
        ensures
            r == self.key_of_view(t@),
    {
        match self.surface_index(&t.surface) {
            Some(s) => {
                if -128 <= t.zoom && t.zoom < 128 {
                    Some(tile_key(s, t.zoom, t.x, t.y))
                } else {
                    None
                }
            },
            None => None,
        }
    }

    /// Whether every child of `parent` is loaded or absent from the plan; an
    /// error where a child's image already went into a parent.
    pub fn tile_ready(&self, parent: &Tile) -> (r: Result<bool, EngineError>)
        requires
            self.wf(),
            representable(translated(first_child_of(parent@), 1, 1)),
        ensures
            r is Err <==> exists|i: int|
                0 <= i < 4 && #[trigger] self.state_of(children_of(parent@)[i]) matches Some(
                    TileState::Processed,
                ),
            r matches Err(e) ==> e == EngineError::ProcessedChild,
            r matches Ok(b) ==> (b <==> forall|i: int|
                0 <= i < 4 ==> !(#[trigger] self.state_of(children_of(parent@)[i]) matches Some(
                    TileState::Waiting,
                ))),
    {
        let children = parent.children();
        let mut ready = true;
        let mut i: usize = 0;
        while i < 4
            invariant
                self.wf(),
                children@.len() == 4,
                forall|j: int| 0 <= j < 4 ==> #[trigger] children@[j]@ == children_of(parent@)[j],
                i <= 4,
                forall|j: int|
                    0 <= j < i ==> !(#[trigger] self.state_of(children_of(parent@)[j]) matches Some(
                        TileState::Processed,
                    )),
                ready <==> forall|j: int|
                    0 <= j < i ==> !(#[trigger] self.state_of(children_of(parent@)[j]) matches Some(
                        TileState::Waiting,
                    )),
            decreases 4 - i,
        {
            let ghost cv = children_of(parent@)[i as int];
            assert(children@[i as int]@ == cv);
            match self.lookup_key(&children[i]) {
                Some(k) => {
                    match self.tiles.get(&k) {
                        Some(st) => {
                            assert(self.state_of(cv) == Some(*st));
                            match st {
                                TileState::Processed => {
                                    assert(self.state_of(children_of(parent@)[i as int]) matches Some(
                                        TileState::Processed,
                                    ));
                                    return Err(EngineError::ProcessedChild);
                                },
                                TileState::Waiting => {
                                    ready = false;
                                },
                                TileState::Loaded(_) => {},
                            }
                        },
                        None => {
                            assert(self.state_of(cv) is None);
                        },
                    }
                },
                None => {
                    assert(self.state_of(cv) is None);
                },
            }
            i += 1;
        }
        Ok(ready)
    }

    /// Records that a waiting tile's parts are written: the tile becomes loaded
    /// with its image, and one more tile counts as loaded. Any other tile is an
    /// error and changes nothing.
    pub fn mark_loaded(&mut self, t: &Tile, image: RgbaImage) -> (r: Result<(), EngineError>)
        requires
            old(self).wf(),
        ensures
            final(self).wf(),
            r is Ok <==> old(self).state_of(t@) matches Some(TileState::Waiting),
            r matches Err(e) ==> e == (if old(self).state_of(t@) is None {
                EngineError::UnplannedTile
            } else {
                EngineError::TileWrittenTwice
            }),
            r is Err ==> *final(self) == *old(self),
            r is Ok ==> {
                &&& final(self).tiles@ == old(self).tiles@.insert(
                    old(self).key_of_view(t@)->0,
                    TileState::Loaded(image),
                )
                &&& final(self).loaded_tiles == old(self).loaded_tiles + 1
                &&& final(self).surfaces@ == old(self).surfaces@
                &&& final(self).planned@ == old(self).planned@
                &&& final(self).total_tiles == old(self).total_tiles
            },
    {
        let k = match self.lookup_key(t) {
            Some(k) => k,
            None => {
                return Err(EngineError::UnplannedTile);
            },
        };
        let waiting = match self.tiles.get(&k) {
            Some(st) => matches!(st, TileState::Waiting),
            None => {
                return Err(EngineError::UnplannedTile);
            },
        };
        if !waiting {
            return Err(EngineError::TileWrittenTwice);
        }
        let ghost pre = self.tiles@;
        proof {
            let w = waiting_keys(pre);
            vstd::set_lib::lemma_len_subset(w, pre.dom());
            assert(w.contains(k));
            assert(waiting_keys(pre.insert(k, TileState::Loaded(image))) =~= w.remove(k));
        }
        self.tiles.insert(k, TileState::Loaded(image));
        self.loaded_tiles = self.loaded_tiles + 1;
        proof {
            assert(self.tiles@.dom() =~= pre.dom());
        }
        Ok(())
    }

    /// The tiles of `cs` that the plan holds, in order.
    pub open spec fn present_children(&self, cs: Seq<TileView>) -> Seq<TileView>
        decreases cs.len(),
    {
        if cs.len() == 0 {
            Seq::empty()
        } else {
            let rest = self.present_children(cs.drop_last());
            if self.state_of(cs.last()) is Some {
                rest.push(cs.last())
            } else {
                rest
            }
        }
    }

    /// Whether `k` is the key of a child of `p`.
    pub open spec fn is_child_key(&self, p: TileView, k: u128) -> bool {
        exists|i: int| 0 <= i < 4 && self.key_of_view(#[trigger] children_of(p)[i]) == Some(k)
    }

    /// Takes the images of the children of `parent` that the plan holds, all of
    /// them loaded, and marks those children processed.
    pub fn take_children(&mut self, parent: &Tile) -> (r: Vec<(Tile, RgbaImage)>)
        requires
            old(self).wf(),
            representable(translated(first_child_of(parent@), 1, 1)),
            forall|i: int|
                0 <= i < 4 ==> #[trigger] old(self).state_of(children_of(parent@)[i]) is None
                    || old(self).state_of(children_of(parent@)[i]) matches Some(TileState::Loaded(_)),
        ensures
            final(self).wf(),
            final(self).surfaces@ == old(self).surfaces@,
            final(self).planned@ == old(self).planned@,
            final(self).loaded_tiles == old(self).loaded_tiles,
            final(self).total_tiles == old(self).total_tiles,
            final(self).tiles@.dom() == old(self).tiles@.dom(),
            forall|k: u128| #[trigger]
                old(self).tiles@.contains_key(k) ==> final(self).tiles@[k] == (if old(self).is_child_key(
                    parent@,
                    k,
                ) {
                    TileState::Processed
                } else {
                    old(self).tiles@[k]
                }),
            r@.len() == old(self).present_children(children_of(parent@)).len(),
            forall|i: int|
                0 <= i < r@.len() ==> {
                    &&& (#[trigger] r@[i]).0@ == old(self).present_children(children_of(parent@))[i]
                    &&& old(self).state_of(r@[i].0@) == Some(TileState::Loaded(r@[i].1))
                },
    {
        let ghost pre = *self;
        let ghost cs = children_of(parent@);
        proof {
            crate::tile::lemma_children_distinct_with_parent(parent@);
        }
        let children = parent.children();
        let mut taken: Vec<(Tile, RgbaImage)> = Vec::new();
        let mut i: usize = 0;
        while i < 4
            invariant
                self.wf(),
                pre.wf(),
                children@.len() == 4,
                forall|j: int| 0 <= j < 4 ==> #[trigger] children@[j]@ == cs[j],
                cs == children_of(parent@),
                forall|a: int, b: int| 0 <= a < 4 && 0 <= b < 4 && a != b ==> cs[a] != cs[b],
                forall|j: int|
                    0 <= j < 4 ==> #[trigger] pre.state_of(cs[j]) is None || pre.state_of(
                        cs[j],
                    ) matches Some(TileState::Loaded(_)),
                i <= 4,
                self.surfaces@ == pre.surfaces@,
                self.planned@ == pre.planned@,
                self.loaded_tiles == pre.loaded_tiles,
                self.total_tiles == pre.total_tiles,
                self.tiles@.dom() == pre.tiles@.dom(),
                waiting_keys(self.tiles@) == waiting_keys(pre.tiles@),
                forall|k: u128| #[trigger]
                    pre.tiles@.contains_key(k) ==> self.tiles@[k] == (if exists|j: int|
                        0 <= j < i && pre.key_of_view(#[trigger] cs[j]) == Some(k) {
                        TileState::Processed
                    } else {
                        pre.tiles@[k]
                    }),
                taken@.len() == pre.present_children(cs.take(i as int)).len(),
                forall|j: int|
                    0 <= j < taken@.len() ==> {
                        &&& (#[trigger] taken@[j]).0@ == pre.present_children(cs.take(i as int))[j]
                        &&& pre.state_of(taken@[j].0@) == Some(TileState::Loaded(taken@[j].1))
                    },
            decreases 4 - i,
        {
            let ghost c = cs[i as int];
            assert(cs.take(i as int + 1).drop_last() =~= cs.take(i as int));
            assert(cs.take(i as int + 1).last() == c);
            assert(children@[i as int]@ == c);
            let ghost before = self.tiles@;
            match self.lookup_key(&children[i]) {
                Some(k) => {
                    assert(pre.key_of_view(c) == Some(k));
                    if self.tiles.contains_key(&k) {
                        // no earlier child has this key
                        assert forall|j: int| 0 <= j < i implies pre.key_of_view(#[trigger] cs[j])
                            != Some(k) by {
                            if pre.key_of_view(cs[j]) == Some(k) {
                                let sj = pre.surface_named(cs[j].surface)->0;
                                let si = pre.surface_named(c.surface)->0;
                                lemma_key_injective(
                                    sj,
                                    cs[j].zoom,
                                    cs[j].x,
                                    cs[j].y,
                                    si,
                                    c.zoom,
                                    c.x,
                                    c.y,
                                );
                                assert(cs[j] == c);
                            }
                        }
                        assert(self.tiles@[k] == pre.tiles@[k]);
                        let st = self.tiles.remove(&k);
                        match st {
                            Some(TileState::Loaded(img)) => {
                                self.tiles.insert(k, TileState::Processed);
                                proof {
                                    assert(self.tiles@ =~= before.insert(k, TileState::Processed));
                                    assert(waiting_keys(self.tiles@) =~= waiting_keys(before));
                                    assert(self.tiles@.dom() =~= before.dom());
                                }
                                taken.push((children[i].duplicate(), img));
                                proof {
                                    assert(pre.state_of(c) == Some(TileState::Loaded(img)));
                                }
                            },
                            _ => {
                                proof {
                                    assert(false);
                                }
                            },
                        }
                    } else {
                        assert(pre.state_of(c) is None);
                    }
                },
                None => {
                    assert(pre.state_of(c) is None);
                },
            }
            proof {
                assert forall|k2: u128| #[trigger]
                    pre.tiles@.contains_key(k2) implies self.tiles@[k2] == (if exists|j: int|
                        0 <= j < i + 1 && pre.key_of_view(#[trigger] cs[j]) == Some(k2) {
                        TileState::Processed
                    } else {
                        pre.tiles@[k2]
                    }) by {
                    if pre.key_of_view(c) == Some(k2) {
                        assert(0 <= i < i + 1 && pre.key_of_view(cs[i as int]) == Some(k2));
                    } else if exists|j: int| 0 <= j < i + 1 && pre.key_of_view(#[trigger] cs[j]) == Some(k2) {
                        let j = choose|j: int| 0 <= j < i + 1 && pre.key_of_view(#[trigger] cs[j]) == Some(k2);
                        assert(j < i);
                    }
                }
            }
            i += 1;
        }
        proof {
            assert(cs.take(4) =~= cs);
            assert forall|k: u128| #[trigger] pre.tiles@.contains_key(k) implies self.tiles@[k] == (if pre.is_child_key(parent@, k) {
                TileState::Processed
            } else {
                pre.tiles@[k]
            }) by {
                if pre.is_child_key(parent@, k) {
                    let j = choose|j: int| 0 <= j < 4 && pre.key_of_view(#[trigger] children_of(parent@)[j]) == Some(k);
                    assert(pre.key_of_view(cs[j]) == Some(k));
                }
            }
        }
        taken
    }
}


/// The tile at level `z` on the path of chunk `j` of surface `s`.
pub open spec fn path_tile(info: Seq<SurfaceInfo>, s: int, j: int, z: int) -> TileView {
    let c = info[s].chunks@[j];
    TileView {
        surface: info[s].name@,
        zoom: z,
        x: ancestor(c.x as int, z),
        y: ancestor(c.y as int, z),
    }
}

proof fn lemma_surface_named(info: Seq<SurfaceInfo>, tc: ThreadContext, s: int)
    requires
        tc.wf(),
        tc.plans(info),
        0 <= s < info.len(),
    ensures
        tc.surface_named(info[s].name@) == Some(s),
{
    assert(tc.surfaces@[s].name@ == info[s].name@);
    let c = choose|c: int| 0 <= c < tc.surfaces@.len() && #[trigger] tc.surfaces@[c].name@ == info[s].name@;
    if c < s {
        assert(tc.surfaces@[c].name@ != tc.surfaces@[s].name@);
    } else if c > s {
        assert(tc.surfaces@[s].name@ != tc.surfaces@[c].name@);
    }
}

/// Planning is complete: every tile on the path from a chunk up to just above
/// its surface's root level is registered as waiting, and the list of planned
/// tiles holds it exactly once.
pub proof fn lemma_planning_complete(info: Seq<SurfaceInfo>, tc: ThreadContext, s: int, j: int, z: int)
    requires
        tc.wf(),
        tc.plans(info),
        on_path(info, s, j, z),
    ensures
        tc.state_of(path_tile(info, s, j, z)) == Some(TileState::Waiting),
        exists|i: int| 0 <= i < tc.planned@.len() && ref_key(tc.planned@[i]) == path_key(info, s, j, z),
        forall|i1: int, i2: int|
            0 <= i1 < tc.planned@.len() && 0 <= i2 < tc.planned@.len() && ref_key(tc.planned@[i1])
                == path_key(info, s, j, z) && ref_key(tc.planned@[i2]) == path_key(info, s, j, z)
                ==> i1 == i2,
{
    let k = path_key(info, s, j, z);
    assert(planned(info, k));
    lemma_surface_named(info, tc, s);
    lemma_path_fits(info, s, j, z);
    assert(tc.tiles@.contains_key(k));
    assert forall|i1: int, i2: int|
        0 <= i1 < tc.planned@.len() && 0 <= i2 < tc.planned@.len() && ref_key(tc.planned@[i1])
            == k && ref_key(tc.planned@[i2]) == k implies i1 == i2 by {
        if i1 < i2 {
            assert(ref_key(tc.planned@[i1]) != ref_key(tc.planned@[i2]));
        } else if i2 < i1 {
            assert(ref_key(tc.planned@[i2]) != ref_key(tc.planned@[i1]));
        }
    }
}

/// Planning is minimal: every registered tile lies on the path of some chunk,
/// and the number of planned tiles is the size of the union of all paths, so a
/// tile shared by several paths counts once.
pub proof fn lemma_planning_minimal(info: Seq<SurfaceInfo>, tc: ThreadContext, t: TileView)
    requires
        tc.wf(),
        tc.plans(info),
    ensures
        tc.state_of(t) is Some ==> exists|s: int, j: int|
            on_path(info, s, j, t.zoom) && #[trigger] path_tile(info, s, j, t.zoom) == t,
        tc.total_tiles == Set::new(|k: u128| planned(info, k)).len(),
{
    assert(tc.tiles@.dom() =~= Set::new(|k: u128| planned(info, k)));
    if tc.state_of(t) is Some {
        let s = tc.surface_named(t.surface)->0;
        let k = key_of(s, t.zoom, t.x, t.y);
        assert(tc.tiles@.contains_key(k));
        let (s2, j2, z2) = choose|s2: int, j2: int, z2: int|
            #![trigger path_key(info, s2, j2, z2)]
            on_path(info, s2, j2, z2) && (s2 < info.len() || (s2 == info.len() && j2 < 0))
                && path_key(info, s2, j2, z2) == k;
        lemma_path_fits(info, s2, j2, z2);
        let c = info[s2].chunks@[j2];
        lemma_key_injective(
            s,
            t.zoom,
            t.x,
            t.y,
            s2,
            z2,
            ancestor(c.x as int, z2),
            ancestor(c.y as int, z2),
        );
        assert(tc.surfaces@[s].name@ == t.surface);
        assert(path_tile(info, s2, j2, t.zoom) == t);
    }
}


/// A tile that the plan holds lies above its surface's root level, at most at
/// the chunk level, with coordinates in range.
pub proof fn lemma_planned_tile(tc: ThreadContext, t: TileView)
    requires
        tc.wf(),
        tc.state_of(t) is Some,
    ensures
        tc.surface_named(t.surface) is Some,
        tc.min_zoom_view(t.surface) matches Some(m) && -18 <= m < t.zoom <= MAX_ZOOM,
        coord_in_range(t.x),
        coord_in_range(t.y),
{
    let s = tc.surface_named(t.surface)->0;
    let k = key_of(s, t.zoom, t.x, t.y);
    assert(tc.tiles@.contains_key(k));
    let i = choose|i: int| 0 <= i < tc.planned@.len() && ref_key(tc.planned@[i]) == k;
    let p = tc.planned@[i];
    assert(tc.ref_ok(p));
    lemma_key_injective(s, t.zoom, t.x, t.y, p.surface as int, p.zoom as int, p.x as int, p.y as int);
}

} // verus!
