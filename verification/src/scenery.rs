//! What of the map is drawn: the jungle's edge, the scatter of plants in its
//! depths, and the fixed hashes that pick a plant or a ground detail per tile.
//!
//! Every choice here is a function of the map alone, so the village looks the
//! same every time the game opens.

use vstd::prelude::*;
use crate::map::{Grid, Terrain, Tile, VillageMap};

verus! {

/// Some tile among the eight around `(x, y)` is ground a monkey could stand on.
pub open spec fn touches_open(g: Grid, x: int, y: int) -> bool {
    ||| g.open_at(x - 1, y - 1)
    ||| g.open_at(x, y - 1)
    ||| g.open_at(x + 1, y - 1)
    ||| g.open_at(x - 1, y)
    ||| g.open_at(x + 1, y)
    ||| g.open_at(x - 1, y + 1)
    ||| g.open_at(x, y + 1)
    ||| g.open_at(x + 1, y + 1)
}

/// A board tile with drawn ground over it: open ground, or jungle beside it.
pub open spec fn drawn_at(g: Grid, x: int, y: int) -> bool {
    g.open_at(x, y) || touches_open(g, x, y)
}

/// A jungle tile that shows the player the wall: it touches open ground.
pub open spec fn is_wall(g: Grid, x: int, y: int) -> bool {
    !g.open_at(x, y) && touches_open(g, x, y)
}

/// The wall tiles of row `y` left of column `upto`, left to right.
pub open spec fn walls_in_row(g: Grid, y: int, upto: int) -> Seq<Tile>
    decreases upto,
{
    if upto <= 0 {
        seq![]
    } else if is_wall(g, upto - 1, y) {
        walls_in_row(g, y, upto - 1).push(Tile { x: (upto - 1) as i32, y: y as i32 })
    } else {
        walls_in_row(g, y, upto - 1)
    }
}

/// The wall tiles of the first `rows` rows, in reading order.
pub open spec fn walls_in_rows(g: Grid, rows: int) -> Seq<Tile>
    decreases rows,
{
    if rows <= 0 {
        seq![]
    } else {
        walls_in_rows(g, rows - 1) + walls_in_row(g, rows - 1, g.width)
    }
}

/// A jungle tile deep enough that no open ground touches it.
pub open spec fn is_deep(g: Grid, x: int, y: int) -> bool {
    !g.open_at(x, y) && !touches_open(g, x, y)
}

/// The deep jungle tiles of row `y` at columns `x`, `x + 3`, ... on the map.
pub open spec fn deep_from(g: Grid, y: int, x: int) -> Seq<Tile>
    decreases (if x < g.width { g.width - x } else { 0 }),
{
    if x >= g.width || x < 0 {
        seq![]
    } else if is_deep(g, x, y) {
        seq![Tile { x: x as i32, y: y as i32 }] + deep_from(g, y, x + 3)
    } else {
        deep_from(g, y, x + 3)
    }
}

/// Where the staggered clusters of row `y` start: every other planted row is
/// shifted one tile along.
pub open spec fn cluster_offset(y: int) -> int {
    y % 6 / 3
}

/// The deep jungle tiles planted in rows `y`, `y + 3`, ... of the map.
pub open spec fn deep_rows_from(g: Grid, y: int) -> Seq<Tile>
    decreases (if y < g.height { g.height - y } else { 0 }),
{
    if y >= g.height || y < 0 {
        seq![]
    } else {
        deep_from(g, y, cluster_offset(y)) + deep_rows_from(g, y + 3)
    }
}

/// Whether the tile `dx`, `dy` away from `(x, y)` is open ground. A step past
/// the ends of `i32` leaves the map, so it lands in jungle.
fn open_beside(map: &VillageMap, x: i32, y: i32, dx: i32, dy: i32) -> (open: bool)
    requires
        -1 <= dx <= 1,
        -1 <= dy <= 1,
    ensures
        open == map.grid().open_at(x + dx, y + dy),
{
    let width = map.width();
    let height = map.height();
    if (dx > 0 && x == i32::MAX) || (dx < 0 && x == i32::MIN) || (dy > 0 && y == i32::MAX) || (dy
        < 0 && y == i32::MIN) {
        proof {
            assert(!map.grid().on_map(x + dx, y + dy));
        }
        false
    } else {
        map.passable_at(x + dx, y + dy)
    }
}

/// Whether a tile has ground a monkey could stand on beside it.
pub fn tile_touches_open(map: &VillageMap, tile: Tile) -> (touches: bool)
    ensures
        touches == touches_open(map.grid(), tile.x as int, tile.y as int),
{
    let (x, y) = (tile.x, tile.y);
    open_beside(map, x, y, -1, -1) || open_beside(map, x, y, 0, -1) || open_beside(map, x, y, 1, -1)
        || open_beside(map, x, y, -1, 0) || open_beside(map, x, y, 1, 0) || open_beside(
        map,
        x,
        y,
        -1,
        1,
    ) || open_beside(map, x, y, 0, 1) || open_beside(map, x, y, 1, 1)
}

/// Whether a board tile has drawn ground over it: open ground, and the
/// jungle's edge, where the plants stand on floor rather than over canopy.
pub fn drawn(map: &VillageMap, tile: Tile) -> (shown: bool)
    ensures
        shown == drawn_at(map.grid(), tile.x as int, tile.y as int),
{
    map.terrain(tile).passable() || tile_touches_open(map, tile)
}

/// The jungle tiles that show the player a wall, in reading order: only the
/// ones touching ground a monkey could stand on.
pub fn wall_tiles(map: &VillageMap) -> (tiles: Vec<Tile>)
    ensures
        tiles@ == walls_in_rows(map.grid(), map.grid().height),
{
    let ghost g = map.grid();
    let width = map.width();
    let height = map.height();
    let mut tiles: Vec<Tile> = Vec::new();
    let mut y: i32 = 0;
    while y < height
        invariant
            g == map.grid(),
            width == g.width,
            height == g.height,
            0 < width,
            0 <= y <= height,
            tiles@ == walls_in_rows(g, y as int),
        decreases height - y,
    {
        let mut x: i32 = 0;
        let ghost before = tiles@;
        while x < width
            invariant
                g == map.grid(),
                width == g.width,
                height == g.height,
                0 <= y < height,
                0 <= x <= width,
                before == walls_in_rows(g, y as int),
                tiles@ == before + walls_in_row(g, y as int, x as int),
            decreases width - x,
        {
            let tile = Tile::new(x, y);
            if !map.terrain(tile).passable() && tile_touches_open(map, tile) {
                tiles.push(tile);
                proof {
                    assert(tiles@ =~= before + walls_in_row(g, y as int, x + 1));
                }
            } else {
                proof {
                    assert(tiles@ =~= before + walls_in_row(g, y as int, x + 1));
                }
            }
            x = x + 1;
        }
        y = y + 1;
    }
    tiles
}

/// The jungle's planting: its edge, and then staggered clusters in its depths
/// on every third row and column, one row in two shifted along. Only jungle is
/// planted, and no tile twice; routes and the town are untouched.
pub fn scenery_tiles(map: &VillageMap) -> (tiles: Vec<Tile>)
    ensures
        tiles@ == walls_in_rows(map.grid(), map.grid().height) + deep_rows_from(map.grid(), 0),
{
    let ghost g = map.grid();
    let width = map.width();
    let height = map.height();
    let mut tiles = wall_tiles(map);
    let ghost walls = tiles@;
    let mut y: i32 = 0;
    proof {
        assert(walls + deep_rows_from(g, 0) =~= tiles@ + deep_rows_from(g, y as int));
    }
    while y < height
        invariant
            g == map.grid(),
            width == g.width,
            height == g.height,
            0 <= y,
            walls == walls_in_rows(g, g.height),
            tiles@ + deep_rows_from(g, y as int) == walls + deep_rows_from(g, 0),
        decreases height - y,
    {
        let mut x: i32 = y % 6 / 3;
        let ghost row_start = tiles@;
        proof {
            assert(deep_rows_from(g, y as int) == deep_from(g, y as int, x as int) + deep_rows_from(g, y + 3));
        }
        while x < width
            invariant
                g == map.grid(),
                width == g.width,
                height == g.height,
                0 <= y < height,
                0 <= x,
                tiles@ + deep_from(g, y as int, x as int) == row_start + deep_from(g, y as int, y % 6 / 3),
            decreases width - x,
        {
            let tile = Tile::new(x, y);
            if map.terrain(tile) == Terrain::Jungle && !tile_touches_open(map, tile) {
                tiles.push(tile);
                proof {
                    assert(tiles@ + deep_from(g, y as int, x + 3) =~= row_start + deep_from(
                        g,
                        y as int,
                        y % 6 / 3,
                    ));
                }
            }
            if width - x <= 3 {
                proof {
                    assert(deep_from(g, y as int, x + 3) =~= Seq::<Tile>::empty());
                }
                x = width;
            } else {
                x = x + 3;
            }
        }
        proof {
            assert(deep_from(g, y as int, x as int) =~= Seq::<Tile>::empty());
            assert(tiles@ =~= row_start + deep_from(g, y as int, y % 6 / 3));
        }
        if height - y <= 3 {
            proof {
                assert(deep_rows_from(g, y + 3) =~= Seq::<Tile>::empty());
            }
            y = height;
        } else {
            y = y + 3;
        }
    }
    proof {
        assert(deep_rows_from(g, y as int) =~= Seq::<Tile>::empty());
        assert(tiles@ =~= tiles@ + deep_rows_from(g, y as int));
    }
    tiles
}

// ──────────────────────────────────────────────────────────────── hashes

/// `x * k` in wrapping 32-bit arithmetic.
pub open spec fn wrap_mul(x: u32, k: u32) -> u32 {
    ((x as nat * k as nat) % 0x1_0000_0000) as u32
}

/// The scrambled bits a tile's planting is read from.
pub open spec fn planting_bits(tile: Tile) -> u32 {
    let a = wrap_mul(tile.x as u32, 0x9E37_79B9) ^ wrap_mul(tile.y as u32, 0x85EB_CA6B);
    let b = a ^ (a >> 16u32);
    let c = wrap_mul(b, 0x7FEB_352D);
    c ^ (c >> 15u32)
}

/// Which of the eight jungle plants stands on a tile, if any: two tiles in
/// five are planted, hashed from the tile so the same jungle grows every time.
pub fn planting(tile: Tile) -> (plant: Option<usize>)
    ensures
        plant == (if planting_bits(tile) % 5 < 2 {
            Some(((planting_bits(tile) >> 8u32) % 8) as usize)
        } else {
            None::<usize>
        }),
{
    let mut bits = (tile.x as u32).wrapping_mul(0x9E37_79B9) ^ (tile.y as u32).wrapping_mul(0x85EB_CA6B);
    bits = bits ^ (bits >> 16u32);
    bits = bits.wrapping_mul(0x7FEB_352D);
    bits = bits ^ (bits >> 15u32);
    if bits % 5 < 2 {
        Some(((bits >> 8u32) % 8) as usize)
    } else {
        None
    }
}

/// The scrambled bits a ground tile's detail variant is read from.
pub open spec fn ground_bits(x: i32, y: i32) -> u32 {
    let a = wrap_mul(x as u32, 0x27D4_EB2F) ^ wrap_mul(y as u32, 0x1656_67B1);
    let b = a ^ (a >> 15u32);
    let c = wrap_mul(b, 0x846C_A68B);
    c ^ (c >> 16u32)
}

/// The detail variant a ground tile at `(x, y)` shows.
pub open spec fn ground_variant_of(x: i32, y: i32) -> u8 {
    if ground_bits(x, y) % 9 <= 5 {
        0
    } else {
        (ground_bits(x, y) % 9 - 5) as u8
    }
}

/// Which detail variant a ground tile shows: two in three are the quiet
/// variant 0, and the rest share the three marked ones.
pub fn ground_variant(x: i32, y: i32) -> (variant: u8)
    ensures
        variant == ground_variant_of(x, y),
        variant < 4,
{
    let mut bits = (x as u32).wrapping_mul(0x27D4_EB2F) ^ (y as u32).wrapping_mul(0x1656_67B1);
    bits = bits ^ (bits >> 15u32);
    bits = bits.wrapping_mul(0x846C_A68B);
    bits = bits ^ (bits >> 16u32);
    let marked = bits % 9;
    if marked <= 5 {
        0
    } else {
        (marked - 5) as u8
    }
}

} // verus!
