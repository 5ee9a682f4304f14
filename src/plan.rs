//! The surfaces of the manifest, and the arithmetic of each surface's pyramid.

use vstd::prelude::*;
use vstd::arithmetic::div_mod::lemma_fundamental_div_mod_converse;
use vstd::arithmetic::power2::{pow2, lemma_pow2_pos, lemma_pow2_unfold};
use vstd::math::max;

use crate::tile::floor_half;
use crate::MAX_ZOOM;

verus! {

/// A chunk position on a surface.
#[derive(Debug, Clone, Copy, PartialEq, Eq)]
pub struct Coordinate {
    pub x: i32,
    pub y: i32,
}

/// A surface of the manifest: its name and the chunks that were rendered on it.
/// Its tags travel beside it and play no part in planning.
#[derive(Debug, Clone)]
pub struct SurfaceInfo {
    pub name: String,
    pub chunks: Vec<Coordinate>,
}

/// How far a chunk reaches from the origin, counting the off-by-one on the
/// negative side: the largest of `1 - x`, `1 - y`, `x` and `y`.
pub open spec fn reach(c: Coordinate) -> int {
    max(max(1 - c.x, 1 - c.y), max(c.x as int, c.y as int))
}

/// The largest reach over `chunks`, which is
/// `max(1 - min_x, 1 - min_y, max_x, max_y)`; zero for no chunks.
pub open spec fn extent(chunks: Seq<Coordinate>) -> int
    decreases chunks.len(),
{
    if chunks.len() == 0 {
        0
    } else {
        max(extent(chunks.drop_last()), reach(chunks.last()))
    }
}

/// The least `k` with `2^k >= n`.
pub open spec fn ceil_log2(n: nat) -> nat
    decreases n,
{
    if n <= 1 {
        0
    } else {
        1 + ceil_log2(((n + 1) / 2) as nat)
    }
}

/// The root level of a surface's pyramid: no planned tile lies at or below it.
pub open spec fn min_zoom_of(chunks: Seq<Coordinate>) -> int {
    MAX_ZOOM - ceil_log2(extent(chunks) as nat) - 6
}

/// The coordinate, at level `z`, of the tile on the path of chunk coordinate `c`.
pub open spec fn ancestor(c: int, z: int) -> int {
    c / (pow2((MAX_ZOOM - z) as nat) as int)
}

pub proof fn lemma_extent_bounds(chunks: Seq<Coordinate>)
    requires
        chunks.len() > 0,
    ensures
        1 <= extent(chunks) <= 0x8000_0001,
    decreases chunks.len(),
{
    let c = chunks.last();
    assert(1 <= reach(c) <= 0x8000_0001);
    if chunks.len() > 1 {
        lemma_extent_bounds(chunks.drop_last());
    } else {
        assert(extent(chunks.drop_last()) == 0);
    }
}

pub proof fn lemma_ceil_log2_bound(n: nat, k: nat)
    requires
        n <= pow2(k),
    ensures
        ceil_log2(n) <= k,
    decreases k,
{
    if n > 1 {
        if k == 0 {
            assert(pow2(0) == 1) by { vstd::arithmetic::power2::lemma2_to64(); }
        } else {
            lemma_pow2_unfold(k);
            lemma_ceil_log2_bound(((n + 1) / 2) as nat, (k - 1) as nat);
        }
    }
}

/// The root level lies at most 38 levels below the chunk level.
pub proof fn lemma_min_zoom_bounds(chunks: Seq<Coordinate>)
    requires
        chunks.len() > 0,
    ensures
        -18 <= min_zoom_of(chunks) <= MAX_ZOOM - 6,
{
    lemma_extent_bounds(chunks);
    vstd::arithmetic::power2::lemma2_to64();
    lemma_pow2_unfold(32);
    lemma_ceil_log2_bound(extent(chunks) as nat, 32);
}

/// Halving the ancestor at one level gives the ancestor one level up.
pub proof fn lemma_ancestor_parent(c: int, z: int)
    requires
        z <= MAX_ZOOM,
    ensures
        floor_half(ancestor(c, z)) == ancestor(c, z - 1),
{
    let p = pow2((MAX_ZOOM - z) as nat) as int;
    lemma_pow2_pos((MAX_ZOOM - z) as nat);
    lemma_pow2_unfold((MAX_ZOOM - (z - 1)) as nat);
    assert(pow2((MAX_ZOOM - (z - 1)) as nat) as int == 2 * p);
    let q = c / p;
    let r = c % p;
    assert(c == p * q + r && 0 <= r < p) by {
        vstd::arithmetic::div_mod::lemma_fundamental_div_mod(c, p);
    }
    let a = q / 2;
    let b = q % 2;
    assert(q == 2 * a + b && 0 <= b < 2);
    assert(c == a * (2 * p) + (p * b + r) && 0 <= p * b + r < 2 * p) by (nonlinear_arith)
        requires
            c == p * q + r,
            0 <= r < p,
            q == 2 * a + b,
            0 <= b < 2,
    ;
    lemma_fundamental_div_mod_converse(c, 2 * p, a, p * b + r);
}

/// At the chunk level a chunk coordinate is its own ancestor.
pub proof fn lemma_ancestor_at_max(c: int)
    ensures
        ancestor(c, MAX_ZOOM as int) == c,
{
    assert(pow2(0) == 1) by { vstd::arithmetic::power2::lemma2_to64(); }
    assert(c / 1 == c);
    assert((MAX_ZOOM - MAX_ZOOM as int) as nat == 0);
}

/// The largest reach over a surface's chunks.
pub fn surface_extent(chunks: &Vec<Coordinate>) -> (r: i64)
    ensures
        r as int == extent(chunks@),
{
    let mut e: i64 = 0;
    let mut i: usize = 0;
    while i < chunks.len()
        invariant
            i <= chunks@.len(),
            e as int == extent(chunks@.subrange(0, i as int)),
            0 <= e <= 0x8000_0001,
        decreases chunks@.len() - i,
    {
        let c = chunks[i];
        let xi = c.x as i64;
        let yi = c.y as i64;
        let mut r: i64 = 1 - xi;
        if 1 - yi > r {
            r = 1 - yi;
        }
        if xi > r {
            r = xi;
        }
        if yi > r {
            r = yi;
        }
        assert(r as int == reach(c));
        if r > e {
            e = r;
        }
        assert(chunks@.subrange(0, i + 1).drop_last() =~= chunks@.subrange(0, i as int));
        i += 1;
    }
    assert(chunks@.subrange(0, i as int) =~= chunks@);
    e
}

/// The least `k` with `2^k >= n`.
pub fn ceil_log2_u64(n: u64) -> (r: u32)
    requires
        n <= 0x1_0000_0000,
    ensures
        r as nat == ceil_log2(n as nat),
        r <= 32,
    decreases n,
{
    proof {
        vstd::arithmetic::power2::lemma2_to64();
        lemma_pow2_unfold(32);
        lemma_ceil_log2_bound(n as nat, 32);
    }
    if n <= 1 {
        0
    } else {
        1 + ceil_log2_u64((n + 1) / 2)
    }
}

/// The root level of the pyramid of a surface with at least one chunk.
pub fn surface_min_zoom(chunks: &Vec<Coordinate>) -> (r: i32)
    requires
        chunks@.len() > 0,
    ensures
        r as int == min_zoom_of(chunks@),
        -18 <= r <= MAX_ZOOM - 6,
{
    proof {
        lemma_extent_bounds(chunks@);
        lemma_min_zoom_bounds(chunks@);
    }
    let e = surface_extent(chunks);
    let k = ceil_log2_u64(e as u64);
    MAX_ZOOM - k as i32 - 6
}

} // verus!
