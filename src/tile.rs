//! Tile identities and the coordinate algebra of the quadtree.

use vstd::prelude::*;

verus! {

/// A tile of the pyramid: a surface name, a zoom level and signed coordinates.
#[derive(Debug, Clone, PartialEq, Eq, PartialOrd, Ord, Hash)]
pub struct Tile {
    pub surface: String,
    pub zoom: i32,
    pub x: i32,
    pub y: i32,
}

/// The mathematical value of a tile.
pub ghost struct TileView {
    pub surface: Seq<char>,
    pub zoom: int,
    pub x: int,
    pub y: int,
}

impl View for Tile {
    type V = TileView;

    open spec fn view(&self) -> TileView {
        TileView { surface: self.surface@, zoom: self.zoom as int, x: self.x as int, y: self.y as int }
    }
}

/// Mathematical floor of `v / 2` (specification division is Euclidean).
pub open spec fn floor_half(v: int) -> int {
    v / 2
}

/// The tile one level up that contains `t`.
pub open spec fn parent_of(t: TileView) -> TileView {
    TileView { surface: t.surface, zoom: t.zoom - 1, x: floor_half(t.x), y: floor_half(t.y) }
}

/// The child of `t` with the smallest coordinates.
pub open spec fn first_child_of(t: TileView) -> TileView {
    TileView { surface: t.surface, zoom: t.zoom + 1, x: 2 * t.x, y: 2 * t.y }
}

/// `t` moved by `(dx, dy)` on its own level.
pub open spec fn translated(t: TileView, dx: int, dy: int) -> TileView {
    TileView { surface: t.surface, zoom: t.zoom, x: t.x + dx, y: t.y + dy }
}

/// The four children of `t`, in the order `(0,0), (1,0), (0,1), (1,1)`.
pub open spec fn children_of(t: TileView) -> Seq<TileView> {
    let o = first_child_of(t);
    seq![translated(o, 0, 0), translated(o, 1, 0), translated(o, 0, 1), translated(o, 1, 1)]
}

pub open spec fn fits_i32(v: int) -> bool {
    i32::MIN <= v <= i32::MAX
}

/// Whether every coordinate of `t` is representable.
pub open spec fn representable(t: TileView) -> bool {
    fits_i32(t.zoom) && fits_i32(t.x) && fits_i32(t.y)
}

/// Floor division of a machine integer by two.
pub fn div_floor_2(v: i32) -> (r: i32)
    ensures
        r as int == floor_half(v as int),
{
    if v >= 0 {
        v / 2
    } else {
        let m: i32 = -((v + 1) / 2) ;
        assert(m as int == ((-(v as int) - 1) / 2)) by {
            assert(-(v as int) - 1 >= 0);
        }
        -m - 1
    }
}

impl Tile {
    /// Builds a tile from its parts.
    pub fn new(surface: String, zoom: i32, x: i32, y: i32) -> (r: Tile)
        ensures
            r@ == (TileView { surface: surface@, zoom: zoom as int, x: x as int, y: y as int }),
    {
        Tile { surface, zoom, x, y }
    }

    /// A copy of this tile.
    pub fn duplicate(&self) -> (r: Tile)
        ensures
            r@ == self@,
    {
        Tile { surface: self.surface.clone(), zoom: self.zoom, x: self.x, y: self.y }
    }

    /// Returns tile containing this tile
    pub fn zoom_out(&self) -> (r: Tile)
        requires
            self.zoom > i32::MIN,
        ensures
            r@ == parent_of(self@),
    {
        Tile {
            surface: self.surface.clone(),
            zoom: self.zoom - 1,
            x: div_floor_2(self.x),
            y: div_floor_2(self.y),
        }
    }

    /// Returns tile inside this tile with the smallest coordinates
    pub fn zoom_in(&self) -> (r: Tile)
        requires
            representable(first_child_of(self@)),
        ensures
            r@ == first_child_of(self@),
    {
        Tile {
            surface: self.surface.clone(),
            zoom: self.zoom + 1,
            x: self.x * 2,
            y: self.y * 2,
        }
    }

    /// Returns translated Tile offset
    pub fn translate(&self, x: i32, y: i32) -> (r: Tile)
        requires
            representable(translated(self@, x as int, y as int)),
        ensures
            r@ == translated(self@, x as int, y as int),
    {
        Tile {
            surface: self.surface.clone(),
            zoom: self.zoom,
            x: self.x + x,
            y: self.y + y,
        }
    }

    /// Returns all child tiles
    pub fn children(&self) -> (r: Vec<Tile>)
        requires
            representable(translated(first_child_of(self@), 1, 1)),
        ensures
            r@.len() == 4,
            forall|i: int| 0 <= i < 4 ==> #[trigger] r@[i]@ == children_of(self@)[i],
    {
        let origin = self.zoom_in();
        let mut v: Vec<Tile> = Vec::new();
        v.push(origin.translate(0, 0));
        v.push(origin.translate(1, 0));
        v.push(origin.translate(0, 1));
        v.push(origin.translate(1, 1));
        v
    }
}

/// The parent of a tile's first child is the tile itself.
pub proof fn lemma_parent_of_first_child(t: TileView)
    ensures
        parent_of(first_child_of(t)) == t,
{
    assert(floor_half(2 * t.x) == t.x) by (nonlinear_arith);
    assert(floor_half(2 * t.y) == t.y) by (nonlinear_arith);
}

/// The four children of a tile are pairwise distinct, and each has that tile
/// as its parent.
pub proof fn lemma_children_distinct_with_parent(t: TileView)
    ensures
        children_of(t).len() == 4,
        forall|i: int, j: int|
            0 <= i < 4 && 0 <= j < 4 && i != j ==> children_of(t)[i] != children_of(t)[j],
        forall|i: int| 0 <= i < 4 ==> #[trigger] parent_of(children_of(t)[i]) == t,
{
    assert(floor_half(2 * t.x) == t.x) by (nonlinear_arith);
    assert(floor_half(2 * t.y) == t.y) by (nonlinear_arith);
    assert(floor_half(2 * t.x + 1) == t.x) by (nonlinear_arith);
    assert(floor_half(2 * t.y + 1) == t.y) by (nonlinear_arith);
    let c = children_of(t);
    assert(parent_of(c[0]) == t);
    assert(parent_of(c[1]) == t);
    assert(parent_of(c[2]) == t);
    assert(parent_of(c[3]) == t);
}

/// Floor division rounds toward negative infinity: the parent of a tile at
/// `(-1, -1)` sits at `(-1, -1)`, and no coordinate is rounded toward zero.
pub proof fn lemma_parent_floor_negative(t: TileView)
    requires
        t.x < 0,
        t.y < 0,
    ensures
        parent_of(t).x < 0,
        parent_of(t).y < 0,
        2 * parent_of(t).x <= t.x < 2 * parent_of(t).x + 2,
        2 * parent_of(t).y <= t.y < 2 * parent_of(t).y + 2,
{
}

} // verus!
