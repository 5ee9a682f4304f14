//! The parts a tile is split into on disk, and their relative paths.

use vstd::prelude::*;

use crate::tile::{Tile, TileView};
use crate::NUM_PARTS;

verus! {

/// Extension of the stored part images.
pub const TILE_EXTENSION: &'static str = "jpg";

/// The character of a decimal digit.
pub open spec fn digit_char(d: nat) -> char {
    if d == 0 { '0' } else if d == 1 { '1' } else if d == 2 { '2' } else if d == 3 { '3' }
    else if d == 4 { '4' } else if d == 5 { '5' } else if d == 6 { '6' } else if d == 7 { '7' }
    else if d == 8 { '8' } else { '9' }
}

/// Decimal digits of a natural number, most significant first.
pub open spec fn digits_of(n: nat) -> Seq<char>
    decreases n,
{
    if n < 10 {
        seq![digit_char(n)]
    } else {
        digits_of(n / 10) + seq![digit_char(n % 10)]
    }
}

/// Decimal text of an integer, with a leading `-` when negative.
pub open spec fn decimal_of(n: int) -> Seq<char> {
    if n < 0 {
        seq!['-'] + digits_of((-n) as nat)
    } else {
        digits_of(n as nat)
    }
}

fn digit_str(d: u64) -> (r: &'static str)
    requires
        d < 10,
    ensures
        r@ == seq![digit_char(d as nat)],
{
    proof {
        reveal_strlit("0");
        reveal_strlit("1");
        reveal_strlit("2");
        reveal_strlit("3");
        reveal_strlit("4");
        reveal_strlit("5");
        reveal_strlit("6");
        reveal_strlit("7");
        reveal_strlit("8");
        reveal_strlit("9");
    }
    let r = if d == 0 { "0" } else if d == 1 { "1" } else if d == 2 { "2" } else if d == 3 { "3" }
    else if d == 4 { "4" } else if d == 5 { "5" } else if d == 6 { "6" } else if d == 7 { "7" }
    else if d == 8 { "8" } else { "9" };
    assert(r@ =~= seq![digit_char(d as nat)]);
    r
}

/// Appends the decimal digits of `n` to `out`.
fn push_digits(out: &mut String, n: u64)
    ensures
        final(out)@ == old(out)@ + digits_of(n as nat),
    decreases n,
{
    if n < 10 {
        out.append(digit_str(n));
    } else {
        push_digits(out, n / 10);
        out.append(digit_str(n % 10));
        assert(final(out)@ =~= old(out)@ + digits_of(n as nat));
    }
}

/// Appends the decimal text of `n` to `out`.
pub fn push_decimal(out: &mut String, n: i32)
    ensures
        final(out)@ == old(out)@ + decimal_of(n as int),
{
    proof {
        reveal_strlit("-");
    }
    if n < 0 {
        out.append("-");
        let m: u64 = (-(n as i64)) as u64;
        push_digits(out, m);
        assert(final(out)@ =~= old(out)@ + decimal_of(n as int));
    } else {
        push_digits(out, n as u64);
    }
}

/// A part of a tile, by its position inside the tile.
#[derive(Debug, Clone, Copy, PartialEq, Eq)]
pub struct TilePart {
    pub x: u32,
    pub y: u32,
}

/// The positions of the parts of a tile, in storage order: by column, then row.
pub open spec fn part_positions() -> Seq<(int, int)> {
    seq![(0, 0), (0, 1), (1, 0), (1, 1)]
}

/// Zoom and coordinates that a part of `t` is stored under.
pub open spec fn part_components(px: int, py: int, t: TileView) -> (int, int, int) {
    (t.zoom, px + t.x * NUM_PARTS, py + t.y * NUM_PARTS)
}

/// Whether every part of `t` has coordinates that fit a machine integer.
pub open spec fn parts_representable(t: TileView) -> bool {
    i32::MIN <= t.x * NUM_PARTS && t.x * NUM_PARTS + NUM_PARTS - 1 <= i32::MAX
        && i32::MIN <= t.y * NUM_PARTS && t.y * NUM_PARTS + NUM_PARTS - 1 <= i32::MAX
}

/// The relative path of a part: `<surface>/<zoom>/<X>/<Y>.<extension>`.
pub open spec fn part_path(px: int, py: int, t: TileView) -> Seq<char> {
    let c = part_components(px, py, t);
    t.surface + seq!['/'] + decimal_of(c.0) + seq!['/'] + decimal_of(c.1) + seq!['/']
        + decimal_of(c.2) + seq!['.', 'j', 'p', 'g']
}

impl TilePart {
    /// Zoom and on-disk coordinates of this part of `tile`.
    pub fn get_path_components(&self, tile: &Tile) -> (r: (i32, i32, i32))
        requires
            self.x < NUM_PARTS,
            self.y < NUM_PARTS,
            parts_representable(tile@),
        ensures
            (r.0 as int, r.1 as int, r.2 as int) == part_components(
                self.x as int,
                self.y as int,
                tile@,
            ),
    {
        (
            tile.zoom,
            self.x as i32 + tile.x * NUM_PARTS as i32,
            self.y as i32 + tile.y * NUM_PARTS as i32,
        )
    }

    /// Relative path under which this part of `tile` is stored.
    pub fn get_path(&self, tile: &Tile) -> (r: String)
        requires
            self.x < NUM_PARTS,
            self.y < NUM_PARTS,
            parts_representable(tile@),
        ensures
            r@ == part_path(self.x as int, self.y as int, tile@),
    {
        proof {
            reveal_strlit("/");
            reveal_strlit(".jpg");
        }
        let components = self.get_path_components(tile);
        let mut path = tile.surface.clone();
        path.append("/");
        push_decimal(&mut path, components.0);
        path.append("/");
        push_decimal(&mut path, components.1);
        path.append("/");
        push_decimal(&mut path, components.2);
        path.append(".jpg");
        assert(path@ =~= part_path(self.x as int, self.y as int, tile@));
        path
    }
}

/// All parts of a tile, in storage order.
pub fn get_tile_parts() -> (r: Vec<TilePart>)
    ensures
        r@.len() == part_positions().len(),
        forall|i: int|
            0 <= i < r@.len() ==> (#[trigger] r@[i].x as int, r@[i].y as int)
                == part_positions()[i],
{
    let mut parts: Vec<TilePart> = Vec::new();
    let mut x: u32 = 0;
    while x < NUM_PARTS
        invariant
            x <= NUM_PARTS,
            parts@.len() == NUM_PARTS * x,
            forall|i: int|
                0 <= i < parts@.len() ==> (#[trigger] parts@[i].x as int, parts@[i].y as int)
                    == part_positions()[i],
        decreases NUM_PARTS - x,
    {
        let mut y: u32 = 0;
        while y < NUM_PARTS
            invariant
                x < NUM_PARTS,
                y <= NUM_PARTS,
                parts@.len() == NUM_PARTS * x + y,
                forall|i: int|
                    0 <= i < parts@.len() ==> (#[trigger] parts@[i].x as int, parts@[i].y as int)
                        == part_positions()[i],
            decreases NUM_PARTS - y,
        {
            parts.push(TilePart { x, y });
            y += 1;
        }
        x += 1;
    }
    parts
}

} // verus!
