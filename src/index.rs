//! The map index: every stored part of every planned tile, per surface.

use vstd::prelude::*;

use crate::parts::{get_tile_parts, part_components, part_positions};
use crate::registry::{ThreadContext, TileRef};
use crate::tile::Tile;

verus! {

/// The parts of one surface, as `(zoom, X, Y)`.
#[derive(Debug)]
pub struct SurfaceIndex {
    pub name: String,
    pub tiles: Vec<(i32, i32, i32)>,
}

/// Zoom and stored coordinates of each part of a planned tile, in storage order.
pub open spec fn ref_parts(t: TileRef) -> Seq<(i32, i32, i32)> {
    part_positions().map_values(
        |p: (int, int)| {
            let c = part_components(
                p.0,
                p.1,
                crate::tile::TileView { surface: Seq::empty(), zoom: t.zoom as int, x: t.x as int, y: t.y as int },
            );
            (c.0 as i32, c.1 as i32, c.2 as i32)
        },
    )
}

/// The parts of the planned tiles of surface `s`, tile by tile in plan order.
pub open spec fn surface_parts(planned: Seq<TileRef>, s: int) -> Seq<(i32, i32, i32)>
    decreases planned.len(),
{
    if planned.len() == 0 {
        Seq::empty()
    } else {
        let rest = surface_parts(planned.drop_last(), s);
        if planned.last().surface == s {
            rest + ref_parts(planned.last())
        } else {
            rest
        }
    }
}

impl ThreadContext {
    /// The map index: for each surface in manifest order, its name and the
    /// parts of all its planned tiles.
    pub fn map_index(&self) -> (r: Vec<SurfaceIndex>)
        requires
            self.wf(),
        ensures
            r@.len() == self.surfaces@.len(),
            forall|s: int|
                0 <= s < r@.len() ==> {
                    &&& (#[trigger] r@[s]).name@ == self.surfaces@[s].name@
                    &&& r@[s].tiles@ == surface_parts(self.planned@, s)
                },
    {
        let mut out: Vec<SurfaceIndex> = Vec::new();
        let mut s: usize = 0;
        while s < self.surfaces.len()
            invariant
                self.wf(),
                s <= self.surfaces@.len(),
                out@.len() == s,
                forall|a: int|
                    0 <= a < s ==> {
                        &&& (#[trigger] out@[a]).name@ == self.surfaces@[a].name@
                        &&& out@[a].tiles@ == surface_parts(self.planned@, a)
                    },
            decreases self.surfaces@.len() - s,
        {
            let mut tiles: Vec<(i32, i32, i32)> = Vec::new();
            let mut i: usize = 0;
            while i < self.planned.len()
                invariant
                    self.wf(),
                    s < self.surfaces@.len(),
                    i <= self.planned@.len(),
                    tiles@ == surface_parts(self.planned@.take(i as int), s as int),
                decreases self.planned@.len() - i,
            {
                let t = self.planned[i];
                assert(self.planned@.take(i + 1).drop_last() =~= self.planned@.take(i as int));
                assert(self.planned@.take(i + 1).last() == t);
                if t.surface == s {
                    assert(self.ref_ok(self.planned@[i as int]));
                    let ghost before = tiles@;
                    let parts = get_tile_parts();
                    let mut j: usize = 0;
                    while j < parts.len()
                        invariant
                            parts@.len() == part_positions().len(),
                            forall|k: int|
                                0 <= k < parts@.len() ==> (#[trigger] parts@[k].x as int, parts@[k].y as int)
                                    == part_positions()[k],
                            -0x4000_0000 <= t.x < 0x4000_0000,
                            -0x4000_0000 <= t.y < 0x4000_0000,
                            j <= parts@.len(),
                            tiles@ == before + ref_parts(t).take(j as int),
                        decreases parts@.len() - j,
                    {
                        let p = parts[j];
                        assert((p.x as int, p.y as int) == part_positions()[j as int]);
                        let comp = p.get_path_components(&Tile::new(String::new(), t.zoom, t.x, t.y));
                        tiles.push(comp);
                        assert(ref_parts(t).take(j + 1) =~= ref_parts(t).take(j as int).push(comp));
                        j += 1;
                    }
                    assert(ref_parts(t).take(j as int) =~= ref_parts(t));
                }
                i += 1;
            }
            assert(self.planned@.take(i as int) =~= self.planned@);
            out.push(SurfaceIndex { name: self.surfaces[s].name.clone(), tiles });
            s += 1;
        }
        out
    }
}

} // verus!
