//! The ground drawn under the village: a grid of ground tiles, each two board
//! tiles across, whose corners are dirt where monkeys tread and floor
//! elsewhere.
//!
//! Dirt is decided at the corners (the vertices of the ground grid), never per
//! tile, so two neighbouring ground tiles always agree on the corners they
//! share.

use vstd::prelude::*;
use crate::map::{Grid, Terrain, Tile, VillageMap};
use crate::scenery::{drawn, drawn_at, ground_variant, ground_variant_of};

verus! {

/// Board tiles along each side of one ground tile.
pub const GROUND_SPAN: i32 = 2;

/// Ground tiles across the map: enough to cover every column.
pub open spec fn ground_columns(g: Grid) -> int {
    (g.width + 1) / 2
}

/// Ground tiles down the map: enough to cover every row.
pub open spec fn ground_rows(g: Grid) -> int {
    (g.height + 1) / 2
}

/// How many of four statements hold.
pub open spec fn count_true(a: bool, b: bool, c: bool, d: bool) -> int {
    (if a { 1int } else { 0 }) + (if b { 1int } else { 0 }) + (if c { 1int } else { 0 }) + (if d {
        1int
    } else {
        0
    })
}

/// Of the four board tiles meeting at ground vertex `(i, j)`, how many are
/// the ring path.
pub open spec fn paths_at_vertex(g: Grid, i: int, j: int) -> int {
    let (x, y) = (2 * i, 2 * j);
    count_true(
        g.terrain_at(x - 1, y - 1) == Terrain::Path,
        g.terrain_at(x, y - 1) == Terrain::Path,
        g.terrain_at(x - 1, y) == Terrain::Path,
        g.terrain_at(x, y) == Terrain::Path,
    )
}

/// Of the four board tiles meeting at ground vertex `(i, j)`, how many are
/// open ground.
pub open spec fn opens_at_vertex(g: Grid, i: int, j: int) -> int {
    let (x, y) = (2 * i, 2 * j);
    count_true(
        g.open_at(x - 1, y - 1),
        g.open_at(x, y - 1),
        g.open_at(x - 1, y),
        g.open_at(x, y),
    )
}

/// Whether ground vertex `(i, j)` is dirt: half the tiles at it are path, or
/// half are open and it is near where monkeys walk (`near`).
pub open spec fn vertex_dirt(g: Grid, i: int, j: int, near: bool) -> bool {
    paths_at_vertex(g, i, j) >= 2 || (opens_at_vertex(g, i, j) >= 2 && near)
}

/// Which ground vertices are trodden to dirt, row by row.
pub struct Trodden {
    columns: i32,
    rows: i32,
    dirt: Vec<bool>,
}

impl Trodden {
    #[verifier::type_invariant]
    spec fn well_formed(self) -> bool {
        &&& 0 <= self.columns
        &&& 0 <= self.rows
        &&& self.dirt@.len() == self.columns * self.rows
    }

    /// Vertices across.
    pub closed spec fn columns(self) -> int {
        self.columns as int
    }

    /// Vertices down.
    pub closed spec fn rows(self) -> int {
        self.rows as int
    }

    /// Whether each vertex is dirt, row by row.
    pub closed spec fn cells(self) -> Seq<bool> {
        self.dirt@
    }

    /// Whether vertex `(i, j)` is dirt; off the grid is floor.
    pub open spec fn dirt_at(self, i: int, j: int) -> bool {
        &&& 0 <= i < self.columns()
        &&& 0 <= j < self.rows()
        &&& self.cells()[j * self.columns() + i]
    }

    /// How many ground vertices a map has across and down: one more than its
    /// ground tiles each way, for the far corners of the last column and row.
    pub fn vertices(map: &VillageMap) -> (size: (i32, i32))
        ensures
            size.0 == ground_columns(map.grid()) + 1,
            size.1 == ground_rows(map.grid()) + 1,
            size.0 >= 2,
            size.1 >= 2,
    {
        let width = map.width();
        let height = map.height();
        ((width - 1) / GROUND_SPAN + 2, (height - 1) / GROUND_SPAN + 2)
    }

    /// The trodden ground of a map. `near` says, for each vertex row by row,
    /// whether it lies on the plaza round the town centre or beside the worked
    /// route; a vertex is dirt where half its tiles are path, or where half
    /// are open and it is near.
    pub fn of(map: &VillageMap, near: &Vec<bool>) -> (trodden: Trodden)
        requires
            near@.len() == (ground_columns(map.grid()) + 1) * (ground_rows(map.grid()) + 1),
        ensures
            trodden.columns() == ground_columns(map.grid()) + 1,
            trodden.rows() == ground_rows(map.grid()) + 1,
            forall|i: int, j: int|
                0 <= i < trodden.columns() && 0 <= j < trodden.rows() ==> #[trigger] trodden.dirt_at(
                    i,
                    j,
                ) == vertex_dirt(map.grid(), i, j, near@[j * trodden.columns() + i]),
    {
        let ghost g = map.grid();
        let (columns, rows) = Trodden::vertices(map);
        let vertex_count = near.len();
        let mut dirt: Vec<bool> = Vec::new();
        let mut j: i32 = 0;
        while j < rows
            invariant
                g == map.grid(),
                columns == ground_columns(g) + 1,
                rows == ground_rows(g) + 1,
                near@.len() == columns * rows,
                vertex_count == near@.len(),
                columns >= 2,
                0 <= j <= rows,
                dirt@.len() == j * columns,
                forall|k: int|
                    0 <= k < dirt@.len() ==> #[trigger] dirt@[k] == vertex_dirt(
                        g,
                        k % columns as int,
                        k / columns as int,
                        near@[k],
                    ),
            decreases rows - j,
        {
            let mut i: i32 = 0;
            while i < columns
                invariant
                    g == map.grid(),
                    columns == ground_columns(g) + 1,
                    rows == ground_rows(g) + 1,
                    near@.len() == columns * rows,
                    vertex_count == near@.len(),
                    columns >= 2,
                    0 <= j < rows,
                    0 <= i <= columns,
                    dirt@.len() == j * columns + i,
                    forall|k: int|
                        0 <= k < dirt@.len() ==> #[trigger] dirt@[k] == vertex_dirt(
                            g,
                            k % columns as int,
                            k / columns as int,
                            near@[k],
                        ),
                decreases columns - i,
            {
                proof {
                    crate::map::lemma_cell_of_coords(i as int, j as int, columns as int, rows as int);
                }
                let k: usize = j as usize * columns as usize + i as usize;
                let x: i64 = 2 * i as i64;
                let y: i64 = 2 * j as i64;
                let nw = wide_terrain(map, x - 1, y - 1);
                let ne = wide_terrain(map, x, y - 1);
                let sw = wide_terrain(map, x - 1, y);
                let se = wide_terrain(map, x, y);
                let paths: u8 = (if nw == Terrain::Path { 1u8 } else { 0 }) + (if ne
                    == Terrain::Path { 1u8 } else { 0 }) + (if sw == Terrain::Path { 1u8 } else {
                    0
                }) + (if se == Terrain::Path { 1u8 } else { 0 });
                let opens: u8 = (if nw.passable() { 1u8 } else { 0 }) + (if ne.passable() {
                    1u8
                } else {
                    0
                }) + (if sw.passable() { 1u8 } else { 0 }) + (if se.passable() { 1u8 } else { 0 });
                let trodden = paths >= 2 || (opens >= 2 && near[k]);
                dirt.push(trodden);
                i = i + 1;
            }
            proof {
                assert(j * columns + columns == (j + 1) * columns) by (nonlinear_arith);
            }
            j = j + 1;
        }
        proof {
            assert(rows * columns == columns * rows) by (nonlinear_arith);
        }
        let trodden = Trodden { columns, rows, dirt };
        proof {
            assert forall|i: int, j: int|
                0 <= i < trodden.columns() && 0 <= j < trodden.rows() implies #[trigger] trodden.dirt_at(
                i,
                j,
            ) == vertex_dirt(g, i, j, near@[j * trodden.columns() + i]) by {
                crate::map::lemma_cell_of_coords(i, j, columns as int, rows as int);
                assert(dirt@[j * columns + i] == vertex_dirt(
                    g,
                    (j * columns + i) % columns as int,
                    (j * columns + i) / columns as int,
                    near@[j * columns + i],
                ));
            }
        }
        trodden
    }

    /// Whether vertex `(i, j)` is dirt. Off the grid is floor.
    pub fn dirt(&self, i: i32, j: i32) -> (dirt: bool)
        ensures
            dirt == self.dirt_at(i as int, j as int),
    {
        proof {
            use_type_invariant(self);
        }
        let cells = self.dirt.len();
        if 0 <= i && i < self.columns && 0 <= j && j < self.rows {
            proof {
                crate::map::lemma_cell_of_coords(i as int, j as int, self.columns as int, self.rows as int);
            }
            self.dirt[j as usize * self.columns as usize + i as usize]
        } else {
            false
        }
    }
}

/// The terrain at a board position given in wider integers: past the ends of
/// `i32` is off the map, so jungle.
fn wide_terrain(map: &VillageMap, x: i64, y: i64) -> (terrain: Terrain)
    ensures
        terrain == map.grid().terrain_at(x as int, y as int),
{
    let width = map.width();
    let height = map.height();
    if x < i32::MIN as i64 || x > i32::MAX as i64 || y < i32::MIN as i64 || y > i32::MAX as i64 {
        Terrain::Jungle
    } else {
        map.terrain(Tile::new(x as i32, y as i32))
    }
}

// ──────────────────────────────────────────────────────────── ground tiles

/// One drawn ground tile: its place in the ground grid, which of its four
/// corners are dirt (bits 1, 2, 4 and 8 for top, right, bottom and left), and
/// which of its four detail variants it shows.
#[derive(Debug, Clone, Copy, PartialEq, Eq, Structural)]
pub struct GroundTile {
    pub x: i32,
    pub y: i32,
    pub mask: u8,
    pub variant: u8,
}

/// Whether the corner `bit` of a ground tile's mask is dirt.
pub open spec fn corner_is_dirt(mask: u8, bit: u8) -> bool {
    mask & bit != 0
}

/// Some board tile under ground tile `(i, j)` is drawn.
pub open spec fn block_shown(g: Grid, i: int, j: int) -> bool {
    ||| drawn_at(g, 2 * i, 2 * j)
    ||| drawn_at(g, 2 * i + 1, 2 * j)
    ||| drawn_at(g, 2 * i, 2 * j + 1)
    ||| drawn_at(g, 2 * i + 1, 2 * j + 1)
}

/// The corner mask of ground tile `(i, j)`: its top, right, bottom and left
/// corners are the vertices `(i, j)`, `(i + 1, j)`, `(i + 1, j + 1)` and
/// `(i, j + 1)`.
pub open spec fn corner_mask(t: Trodden, i: int, j: int) -> u8 {
    ((if t.dirt_at(i, j) { 1int } else { 0 }) + (if t.dirt_at(i + 1, j) { 2int } else { 0 }) + (if t.dirt_at(
        i + 1,
        j + 1,
    ) { 4int } else { 0 }) + (if t.dirt_at(i, j + 1) { 8int } else { 0 })) as u8
}

/// Ground tile `(i, j)` as drawn.
pub open spec fn ground_tile_at(t: Trodden, i: int, j: int) -> GroundTile {
    GroundTile {
        x: i as i32,
        y: j as i32,
        mask: corner_mask(t, i, j),
        variant: ground_variant_of(i as i32, j as i32),
    }
}

/// The drawn ground tiles of row `j` left of column `upto`, left to right.
pub open spec fn ground_row(g: Grid, t: Trodden, j: int, upto: int) -> Seq<GroundTile>
    decreases upto,
{
    if upto <= 0 {
        seq![]
    } else if block_shown(g, upto - 1, j) {
        ground_row(g, t, j, upto - 1).push(ground_tile_at(t, upto - 1, j))
    } else {
        ground_row(g, t, j, upto - 1)
    }
}

/// The drawn ground tiles of the first `rows` rows, in reading order.
pub open spec fn ground_rows_upto(g: Grid, t: Trodden, rows: int) -> Seq<GroundTile>
    decreases rows,
{
    if rows <= 0 {
        seq![]
    } else {
        ground_rows_upto(g, t, rows - 1) + ground_row(g, t, rows - 1, ground_columns(g))
    }
}

/// Every drawn ground tile of a map, in reading order.
pub open spec fn ground_plan(g: Grid, t: Trodden) -> Seq<GroundTile> {
    ground_rows_upto(g, t, ground_rows(g))
}

/// The drawn ground tiles: every one with open ground or the jungle's edge
/// under it, in reading order. Past them is canopy, drawn flat.
pub fn ground_tiles(map: &VillageMap, trodden: &Trodden) -> (tiles: Vec<GroundTile>)
    ensures
        tiles@ == ground_plan(map.grid(), *trodden),
{
    let ghost g = map.grid();
    let (across, down) = Trodden::vertices(map);
    let columns = across - 1;
    let rows = down - 1;
    let width = map.width();
    let height = map.height();
    let mut tiles: Vec<GroundTile> = Vec::new();
    let mut j: i32 = 0;
    while j < rows
        invariant
            g == map.grid(),
            columns == ground_columns(g),
            rows == ground_rows(g),
            width == g.width,
            height == g.height,
            0 < width,
            0 < height,
            0 <= j <= rows,
            tiles@ == ground_rows_upto(g, *trodden, j as int),
        decreases rows - j,
    {
        let mut i: i32 = 0;
        let ghost before = tiles@;
        while i < columns
            invariant
                g == map.grid(),
                columns == ground_columns(g),
                rows == ground_rows(g),
                width == g.width,
                height == g.height,
                0 < width,
                0 < height,
                0 <= j < rows,
                0 <= i <= columns,
                before == ground_rows_upto(g, *trodden, j as int),
                tiles@ == before + ground_row(g, *trodden, j as int, i as int),
            decreases columns - i,
        {
            let (x, y) = (2 * i, 2 * j);
            let shown = drawn(map, Tile::new(x, y)) || drawn(map, Tile::new(x + 1, y)) || drawn(
                map,
                Tile::new(x, y + 1),
            ) || drawn(map, Tile::new(x + 1, y + 1));
            if shown {
                let top: u8 = if trodden.dirt(i, j) { 1 } else { 0 };
                let right: u8 = if trodden.dirt(i + 1, j) { 2 } else { 0 };
                let bottom: u8 = if trodden.dirt(i + 1, j + 1) { 4 } else { 0 };
                let left: u8 = if trodden.dirt(i, j + 1) { 8 } else { 0 };
                tiles.push(
                    GroundTile { x: i, y: j, mask: top + right + bottom + left, variant: ground_variant(i, j) },
                );
            }
            proof {
                assert(tiles@ =~= before + ground_row(g, *trodden, j as int, i + 1));
            }
            i = i + 1;
        }
        j = j + 1;
    }
    tiles
}

/// What shows under a board tile where the ground tiles leave a seam.
#[derive(Debug, Clone, Copy, PartialEq, Eq, Structural)]
pub enum Underlay {
    /// Nothing is drawn over the tile: the jungle canopy.
    Canopy,
    /// Trodden ground.
    Dirt,
    /// Untrodden ground.
    Floor,
}

/// The underlay of board tile `(x, y)`: canopy where nothing is drawn, and
/// otherwise the material of the one ground vertex the tile touches.
pub open spec fn underlay_of(g: Grid, t: Trodden, x: int, y: int) -> Underlay {
    if !drawn_at(g, x, y) {
        Underlay::Canopy
    } else if t.dirt_at((x + 1) / 2, (y + 1) / 2) {
        Underlay::Dirt
    } else {
        Underlay::Floor
    }
}

/// The ground under a board tile in flat colour, for any pixel that the
/// ground tiles leave uncovered: canopy where nothing is drawn over it, and
/// the drawn material's own colour where a ground tile is.
pub fn underlay(map: &VillageMap, trodden: &Trodden, tile: Tile) -> (under: Underlay)
    ensures
        under == underlay_of(map.grid(), *trodden, tile.x as int, tile.y as int),
{
    if !drawn(map, tile) {
        return Underlay::Canopy;
    }
    let i = half_down(tile.x as i64 + 1);
    let j = half_down(tile.y as i64 + 1);
    if trodden.dirt(i, j) {
        Underlay::Dirt
    } else {
        Underlay::Floor
    }
}

/// `n / 2`, rounded towards minus infinity.
fn half_down(n: i64) -> (half: i32)
    requires
        i32::MIN as int <= n <= i32::MAX as int + 1,
    ensures
        half == n / 2,
{
    let shifted: i64 = n + 0x1_0000_0000;
    let half: i64 = shifted / 2 - 0x8000_0000;
    half as i32
}

// ──────────────────────────────────────────────────────────────── laws

/// The corner of its ground tile that board tile `(x, y)` touches: top for
/// the tile at the ground tile's top, then right, bottom and left.
pub open spec fn nearest_corner(x: int, y: int) -> u8 {
    if x % 2 == 0 && y % 2 == 0 {
        1
    } else if y % 2 == 0 {
        2
    } else if x % 2 == 1 {
        4
    } else {
        8
    }
}

/// Each bit of a corner mask reads back the vertex it was made from.
pub proof fn lemma_mask_corners(t: Trodden, i: int, j: int)
    ensures
        corner_is_dirt(corner_mask(t, i, j), 1) == t.dirt_at(i, j),
        corner_is_dirt(corner_mask(t, i, j), 2) == t.dirt_at(i + 1, j),
        corner_is_dirt(corner_mask(t, i, j), 4) == t.dirt_at(i + 1, j + 1),
        corner_is_dirt(corner_mask(t, i, j), 8) == t.dirt_at(i, j + 1),
        corner_mask(t, i, j) < 16,
{
    let a: u8 = if t.dirt_at(i, j) { 1 } else { 0 };
    let b: u8 = if t.dirt_at(i + 1, j) { 1 } else { 0 };
    let c: u8 = if t.dirt_at(i + 1, j + 1) { 1 } else { 0 };
    let d: u8 = if t.dirt_at(i, j + 1) { 1 } else { 0 };
    let m: u8 = corner_mask(t, i, j);
    assert(m == a + 2 * b + 4 * c + 8 * d);
    assert({
        &&& (m & 1 != 0) == (a == 1)
        &&& (m & 2 != 0) == (b == 1)
        &&& (m & 4 != 0) == (c == 1)
        &&& (m & 8 != 0) == (d == 1)
    }) by (bit_vector)
        requires
            a <= 1,
            b <= 1,
            c <= 1,
            d <= 1,
            m == a + 2 * b + 4 * c + 8 * d,
    ;
}

proof fn lemma_row_member(g: Grid, t: Trodden, j: int, upto: int, e: GroundTile) -> (i: int)
    requires
        ground_row(g, t, j, upto).contains(e),
    ensures
        0 <= i < upto,
        block_shown(g, i, j),
        e == ground_tile_at(t, i, j),
    decreases upto,
{
    let row = ground_row(g, t, j, upto);
    let k = choose|k: int| 0 <= k < row.len() && row[k] == e;
    if upto <= 0 {
        assert(false);
        0
    } else if block_shown(g, upto - 1, j) {
        let before = ground_row(g, t, j, upto - 1);
        if k == before.len() {
            upto - 1
        } else {
            assert(before[k] == e);
            lemma_row_member(g, t, j, upto - 1, e)
        }
    } else {
        lemma_row_member(g, t, j, upto - 1, e)
    }
}

proof fn lemma_rows_member(g: Grid, t: Trodden, rows: int, e: GroundTile) -> (ij: (int, int))
    requires
        ground_rows_upto(g, t, rows).contains(e),
    ensures
        0 <= ij.0 < ground_columns(g),
        0 <= ij.1 < rows,
        block_shown(g, ij.0, ij.1),
        e == ground_tile_at(t, ij.0, ij.1),
    decreases rows,
{
    let all = ground_rows_upto(g, t, rows);
    let k = choose|k: int| 0 <= k < all.len() && all[k] == e;
    if rows <= 0 {
        assert(false);
        (0, 0)
    } else {
        let before = ground_rows_upto(g, t, rows - 1);
        let row = ground_row(g, t, rows - 1, ground_columns(g));
        if k < before.len() {
            assert(before[k] == e);
            lemma_rows_member(g, t, rows - 1, e)
        } else {
            assert(row[k - before.len()] == e);
            let i = lemma_row_member(g, t, rows - 1, ground_columns(g), e);
            (i, rows - 1)
        }
    }
}

proof fn lemma_row_holds(g: Grid, t: Trodden, j: int, upto: int, i: int)
    requires
        0 <= i < upto,
        block_shown(g, i, j),
    ensures
        ground_row(g, t, j, upto).contains(ground_tile_at(t, i, j)),
    decreases upto,
{
    let before = ground_row(g, t, j, upto - 1);
    if i == upto - 1 {
        assert(ground_row(g, t, j, upto)[before.len() as int] == ground_tile_at(t, i, j));
    } else {
        lemma_row_holds(g, t, j, upto - 1, i);
        let k = choose|k: int| 0 <= k < before.len() && before[k] == ground_tile_at(t, i, j);
        assert(ground_row(g, t, j, upto)[k] == ground_tile_at(t, i, j));
    }
}

proof fn lemma_rows_hold(g: Grid, t: Trodden, rows: int, i: int, j: int)
    requires
        0 <= i < ground_columns(g),
        0 <= j < rows,
        block_shown(g, i, j),
    ensures
        ground_rows_upto(g, t, rows).contains(ground_tile_at(t, i, j)),
    decreases rows,
{
    let before = ground_rows_upto(g, t, rows - 1);
    let row = ground_row(g, t, rows - 1, ground_columns(g));
    let tile = ground_tile_at(t, i, j);
    if j == rows - 1 {
        lemma_row_holds(g, t, j, ground_columns(g), i);
        let k = choose|k: int| 0 <= k < row.len() && row[k] == tile;
        assert((before + row)[before.len() + k] == tile);
    } else {
        lemma_rows_hold(g, t, rows - 1, i, j);
        let k = choose|k: int| 0 <= k < before.len() && before[k] == tile;
        assert((before + row)[k] == tile);
    }
}

/// Every ground tile drawn lies in the ground grid and has some drawn board
/// tile under it: the canopy is never drawn over.
pub proof fn lemma_a_ground_tile_covers_drawn_ground(g: Grid, t: Trodden, e: GroundTile)
    requires
        g.width > 0,
        g.height > 0,
        g.width <= i32::MAX,
        g.height <= i32::MAX,
        ground_plan(g, t).contains(e),
    ensures
        0 <= e.x < ground_columns(g),
        0 <= e.y < ground_rows(g),
        block_shown(g, e.x as int, e.y as int),
        e == ground_tile_at(t, e.x as int, e.y as int),
{
    let (i, j) = lemma_rows_member(g, t, ground_rows(g), e);
}

/// Every drawn board tile of the map lies under a drawn ground tile, the one
/// at half its coordinates.
pub proof fn lemma_drawn_ground_is_covered(g: Grid, t: Trodden, x: int, y: int)
    requires
        g.on_map(x, y),
        drawn_at(g, x, y),
    ensures
        ground_plan(g, t).contains(ground_tile_at(t, x / 2, y / 2)),
{
    assert(x == 2 * (x / 2) + x % 2);
    assert(y == 2 * (y / 2) + y % 2);
    assert(block_shown(g, x / 2, y / 2));
    lemma_rows_hold(g, t, ground_rows(g), x / 2, y / 2);
}

/// Neighbouring ground tiles agree on every corner they share: along a row,
/// one tile's right and bottom corners are the next one's top and left; down
/// a column, one tile's left and bottom corners are the next one's top and
/// right. Every tile shows one of its four variants.
pub proof fn lemma_neighbouring_ground_tiles_agree(g: Grid, t: Trodden, a: GroundTile, b: GroundTile)
    requires
        g.width > 0,
        g.height > 0,
        g.width <= i32::MAX,
        g.height <= i32::MAX,
        ground_plan(g, t).contains(a),
        ground_plan(g, t).contains(b),
    ensures
        b.x == a.x + 1 && b.y == a.y ==> corner_is_dirt(a.mask, 2) == corner_is_dirt(b.mask, 1)
            && corner_is_dirt(a.mask, 4) == corner_is_dirt(b.mask, 8),
        b.x == a.x && b.y == a.y + 1 ==> corner_is_dirt(a.mask, 8) == corner_is_dirt(b.mask, 1)
            && corner_is_dirt(a.mask, 4) == corner_is_dirt(b.mask, 2),
        a.variant < 4,
{
    lemma_a_ground_tile_covers_drawn_ground(g, t, a);
    lemma_a_ground_tile_covers_drawn_ground(g, t, b);
    lemma_mask_corners(t, a.x as int, a.y as int);
    lemma_mask_corners(t, b.x as int, b.y as int);
}

/// Under a drawn board tile the underlay is the material of the corner of its
/// ground tile that it touches, so a seam shows that ground and never the
/// canopy.
pub proof fn lemma_underlay_is_the_nearest_corner(g: Grid, t: Trodden, x: int, y: int)
    requires
        g.on_map(x, y),
        drawn_at(g, x, y),
    ensures
        ground_plan(g, t).contains(ground_tile_at(t, x / 2, y / 2)),
        underlay_of(g, t, x, y) == (if corner_is_dirt(
            ground_tile_at(t, x / 2, y / 2).mask,
            nearest_corner(x, y),
        ) {
            Underlay::Dirt
        } else {
            Underlay::Floor
        }),
{
    lemma_drawn_ground_is_covered(g, t, x, y);
    lemma_mask_corners(t, x / 2, y / 2);
    assert((x + 1) / 2 == x / 2 + x % 2);
    assert((y + 1) / 2 == y / 2 + y % 2);
}

} // verus!
