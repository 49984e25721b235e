//! The village map: a grid of terrain read from a text file, and the grid walk
//! between two tiles.
//!
//! A walk steps to any of the eight neighbouring tiles, never into jungle, and
//! never diagonally between two blocked corners. The search is an A* with
//! integer step costs, so that two walks of equal cost really are equal and the
//! cell-index tie-break decides between them.

use vstd::prelude::*;
use vstd::arithmetic::div_mod::lemma_fundamental_div_mod_converse;
use crate::expansion::{
    lemma_expand_dry, lemma_expand_pop, lemma_relax_keep, lemma_relax_next, lemma_relax_take,
    lemma_run_next, lemma_run_starts, lemma_searched_dry, lemma_searched_found,
    lemma_searched_trivially, lowest_index, lowest_upto, relax_upto, run, searched, traces, Books,
    Progress,
};
use crate::cheapest::{
    came_cheaply, cell_move_cost, cheapest_books, lemma_books_record_cheap_predecessors,
    lemma_cheapest_books_start, lemma_every_move_tried, lemma_expanding_the_popped_cell,
    lemma_popped_is_cheapest, lemma_relax_cheaply, lemma_stale_pop, lemma_tile_cell,
    lemma_walk_cost_nonneg, lemma_walk_cost_push, moves_tried, search_frame, tile_cell, walk_cost,
};

verus! {

/// A* step costs, scaled so the octile metric is exact integer arithmetic.
pub const STEP: u64 = 1_000_000;

/// `STEP * sqrt(2)`, rounded up.
pub const DIAGONAL_STEP: u64 = 1_414_214;

#[derive(Debug, Clone, Copy, PartialEq, Eq, Structural)]
pub enum Terrain {
    /// The hard barrier. Nothing routes through it.
    Jungle,
    /// The ring around the town.
    Path,
    /// Town ground. Monkeys walk through the buildings on it.
    Town,
    /// A clearing cut into the jungle around a banana node.
    Grove,
}

impl Terrain {
    pub fn passable(self) -> (passable: bool)
        ensures
            passable == (self != Terrain::Jungle),
    {
        match self {
            Terrain::Jungle => false,
            _ => true,
        }
    }
}

/// A tile, signed so that a tile off the west or north edge can be expressed.
#[derive(Debug, Clone, Copy, PartialEq, Eq, Hash, Structural)]
pub struct Tile {
    pub x: i32,
    pub y: i32,
}

impl Tile {
    pub fn new(x: i32, y: i32) -> (tile: Self)
        ensures
            tile == (Tile { x, y }),
    {
        Tile { x, y }
    }
}

/// Why a text file is not a map.
#[derive(Debug, Clone, PartialEq, Eq, Structural)]
pub enum MapError {
    Empty,
    Ragged { row: i32 },
    Unknown { row: i32, column: i32, found: char },
    NoTownCentre,
    TwoTownCentres,
    NoGrove,
    /// A banana node the town centre cannot reach.
    Unreachable(Tile),
}

// ───────────────────────────────────────────────────────────── the model

/// A rectangle of terrain, row by row. Everything off it is jungle.
pub struct Grid {
    pub width: int,
    pub height: int,
    pub cells: Seq<Terrain>,
}

impl Grid {
    pub open spec fn on_map(self, x: int, y: int) -> bool {
        0 <= x < self.width && 0 <= y < self.height
    }

    pub open spec fn terrain_at(self, x: int, y: int) -> Terrain {
        if self.on_map(x, y) {
            self.cells[y * self.width + x]
        } else {
            Terrain::Jungle
        }
    }

    pub open spec fn open_at(self, x: int, y: int) -> bool {
        self.terrain_at(x, y) != Terrain::Jungle
    }

    /// One move of a walk: to a neighbouring tile that is not jungle, and, on a
    /// diagonal, only when both tiles it squeezes between are open too.
    pub open spec fn step_ok(self, ax: int, ay: int, bx: int, by: int) -> bool {
        let dx = bx - ax;
        let dy = by - ay;
        &&& -1 <= dx <= 1
        &&& -1 <= dy <= 1
        &&& (dx != 0 || dy != 0)
        &&& self.open_at(bx, by)
        &&& (dx != 0 && dy != 0) ==> (self.open_at(ax + dx, ay) && self.open_at(ax, ay + dy))
    }

    /// The move from the `i`th tile of `walk` to the next.
    pub open spec fn walk_step(self, walk: Seq<Tile>, i: int) -> bool {
        self.step_ok(walk[i].x as int, walk[i].y as int, walk[i + 1].x as int, walk[i + 1].y as int)
    }

    /// `walk` goes from `from` to `to`, starting on open ground and making only
    /// legal moves.
    pub open spec fn is_walk(self, walk: Seq<Tile>, from: Tile, to: Tile) -> bool {
        &&& walk.len() >= 1
        &&& walk[0] == from
        &&& walk.last() == to
        &&& self.open_at(from.x as int, from.y as int)
        &&& forall|i: int| 0 <= i < walk.len() - 1 ==> #[trigger] self.walk_step(walk, i)
    }

    pub open spec fn reachable(self, from: Tile, to: Tile) -> bool {
        exists|walk: Seq<Tile>| self.is_walk(walk, from, to)
    }

    /// The tile a cell index names, row by row.
    pub open spec fn cell_x(self, c: int) -> int {
        c % self.width
    }

    pub open spec fn cell_y(self, c: int) -> int {
        c / self.width
    }

    pub open spec fn cell_step(self, c: int, d: int) -> bool {
        self.step_ok(self.cell_x(c), self.cell_y(c), self.cell_x(d), self.cell_y(d))
    }

    pub open spec fn cell_count(self) -> int {
        self.width * self.height
    }
}

/// Octile distance: the cost of the cheapest unobstructed grid walk between two
/// tiles `dx` columns and `dy` rows apart.
pub open spec fn octile(dx: int, dy: int) -> int {
    if dx >= dy {
        dx * STEP + dy * (DIAGONAL_STEP - STEP)
    } else {
        dy * STEP + dx * (DIAGONAL_STEP - STEP)
    }
}

pub open spec fn abs_diff(a: int, b: int) -> int {
    if a >= b {
        a - b
    } else {
        b - a
    }
}

/// Largest cell count a map may have: every tile coordinate and every cell
/// index then fits an `i32`.
pub const MAX_CELLS: usize = 0x7fff_ffff;

pub proof fn lemma_cell_of_coords(x: int, y: int, w: int, h: int)
    requires
        0 <= x < w,
        0 <= y < h,
    ensures
        0 <= y * w + x < w * h,
        (y * w + x) % w == x,
        (y * w + x) / w == y,
{
    assert(0 <= y * w) by (nonlinear_arith)
        requires
            0 <= y,
            0 <= w,
    ;
    assert(y * w + x < w * h) by (nonlinear_arith)
        requires
            0 <= x < w,
            0 <= y < h,
    ;
    lemma_fundamental_div_mod_converse(y * w + x, w, y, x);
}

pub proof fn lemma_coords_of_cell(c: int, w: int, h: int)
    requires
        0 <= c < w * h,
        0 < w,
        0 < h,
    ensures
        0 <= c % w < w,
        0 <= c / w < h,
        (c / w) * w + c % w == c,
{
    vstd::arithmetic::div_mod::lemma_fundamental_div_mod(c, w);
    vstd::arithmetic::div_mod::lemma_mod_pos_bound(c, w);
    vstd::arithmetic::div_mod::lemma_div_pos_is_pos(c, w);
    let q = c / w;
    assert(q * w == w * q) by (nonlinear_arith);
    if q >= h {
        assert(q * w >= h * w) by (nonlinear_arith)
            requires
                q >= h,
                w > 0,
        ;
        assert(h * w == w * h) by (nonlinear_arith);
    }
}

/// How many of `cells` are `kind`.
pub open spec fn terrain_count(cells: Seq<Terrain>, kind: Terrain) -> nat
    decreases cells.len(),
{
    if cells.len() == 0 {
        0
    } else {
        terrain_count(cells.drop_last(), kind) + (if cells.last() == kind {
            1nat
        } else {
            0nat
        })
    }
}

/// Every tile is counted once: the four terrain counts add up to the tiles.
pub proof fn lemma_census_counts_every_tile(cells: Seq<Terrain>)
    ensures
        terrain_count(cells, Terrain::Jungle) + terrain_count(cells, Terrain::Path) + terrain_count(
            cells,
            Terrain::Town,
        ) + terrain_count(cells, Terrain::Grove) == cells.len(),
    decreases cells.len(),
{
    if cells.len() > 0 {
        lemma_census_counts_every_tile(cells.drop_last());
    }
}

/// How many tiles of each terrain a map has.
#[derive(Debug, Clone, Copy, PartialEq, Eq, Structural)]
pub struct Census {
    pub jungle: u32,
    pub path: u32,
    pub town: u32,
    pub grove: u32,
}

// ──────────────────────────────────────────────────────────────── the map

pub struct VillageMap {
    width: i32,
    height: i32,
    terrain: Vec<Terrain>,
    town_centre: Tile,
    /// Every banana node, in reading order.
    nodes: Vec<Tile>,
    home_trees: Vec<Tile>,
}

impl VillageMap {
    #[verifier::type_invariant]
    spec fn well_formed(self) -> bool {
        &&& 0 < self.width
        &&& 0 < self.height
        &&& self.width * self.height <= MAX_CELLS
        &&& self.terrain@.len() == self.width * self.height
    }

    /// The terrain, as a grid.
    pub closed spec fn grid(self) -> Grid {
        Grid { width: self.width as int, height: self.height as int, cells: self.terrain@ }
    }

    pub closed spec fn centre(self) -> Tile {
        self.town_centre
    }

    /// The banana nodes, in reading order.
    pub closed spec fn banana_nodes(self) -> Seq<Tile> {
        self.nodes@
    }

    pub closed spec fn trees(self) -> Seq<Tile> {
        self.home_trees@
    }

    pub fn width(&self) -> (width: i32)
        ensures
            width == self.grid().width,
            width > 0,
    {
        proof {
            use_type_invariant(self);
        }
        self.width
    }

    pub fn height(&self) -> (height: i32)
        ensures
            height == self.grid().height,
            height > 0,
    {
        proof {
            use_type_invariant(self);
        }
        self.height
    }

    pub fn town_centre(&self) -> (centre: Tile)
        ensures
            centre == self.centre(),
    {
        self.town_centre
    }

    /// Every banana node, in the order they appear in the file.
    pub fn nodes(&self) -> (nodes: &[Tile])
        ensures
            nodes@ == self.banana_nodes(),
    {
        self.nodes.as_slice()
    }

    /// Banana trees the player picks by hand and no monkey is ever sent to.
    pub fn home_trees(&self) -> (trees: &[Tile])
        ensures
            trees@ == self.trees(),
    {
        self.home_trees.as_slice()
    }

    /// How many tiles of each terrain the map has.
    pub fn census(&self) -> (census: Census)
        ensures
            census.jungle == terrain_count(self.grid().cells, Terrain::Jungle),
            census.path == terrain_count(self.grid().cells, Terrain::Path),
            census.town == terrain_count(self.grid().cells, Terrain::Town),
            census.grove == terrain_count(self.grid().cells, Terrain::Grove),
    {
        proof {
            use_type_invariant(self);
        }
        let cells = self.terrain.len();
        let mut census = Census { jungle: 0, path: 0, town: 0, grove: 0 };
        let mut k: usize = 0;
        while k < cells
            invariant
                cells == self.terrain@.len(),
                cells <= MAX_CELLS,
                k <= cells,
                census.jungle == terrain_count(self.terrain@.take(k as int), Terrain::Jungle),
                census.path == terrain_count(self.terrain@.take(k as int), Terrain::Path),
                census.town == terrain_count(self.terrain@.take(k as int), Terrain::Town),
                census.grove == terrain_count(self.terrain@.take(k as int), Terrain::Grove),
                census.jungle + census.path + census.town + census.grove == k,
            decreases cells - k,
        {
            proof {
                assert(self.terrain@.take(k + 1).drop_last() =~= self.terrain@.take(k as int));
            }
            match self.terrain[k] {
                Terrain::Jungle => census.jungle = census.jungle + 1,
                Terrain::Path => census.path = census.path + 1,
                Terrain::Town => census.town = census.town + 1,
                Terrain::Grove => census.grove = census.grove + 1,
            }
            k = k + 1;
        }
        proof {
            assert(self.terrain@.take(cells as int) =~= self.terrain@);
        }
        census
    }

    /// Off-map reads as jungle: the barrier does not stop at the edge of the file.
    pub fn terrain(&self, tile: Tile) -> (terrain: Terrain)
        ensures
            terrain == self.grid().terrain_at(tile.x as int, tile.y as int),
    {
        proof {
            use_type_invariant(self);
        }
        if tile.x < 0 || tile.y < 0 || tile.x >= self.width || tile.y >= self.height {
            return Terrain::Jungle;
        }
        proof {
            lemma_cell_of_coords(tile.x as int, tile.y as int, self.width as int, self.height as int);
        }
        self.terrain[tile.y as usize * self.width as usize + tile.x as usize]
    }

    pub(crate) fn passable_at(&self, x: i32, y: i32) -> (passable: bool)
        ensures
            passable == self.grid().open_at(x as int, y as int),
    {
        self.terrain(Tile::new(x, y)).passable()
    }

    fn index(&self, tile: Tile) -> (cell: usize)
        requires
            self.grid().on_map(tile.x as int, tile.y as int),
        ensures
            cell == tile.y * self.grid().width + tile.x,
            cell < self.grid().cell_count(),
            self.grid().cell_x(cell as int) == tile.x,
            self.grid().cell_y(cell as int) == tile.y,
    {
        proof {
            use_type_invariant(self);
            lemma_cell_of_coords(tile.x as int, tile.y as int, self.width as int, self.height as int);
        }
        tile.y as usize * self.width as usize + tile.x as usize
    }

    fn tile_of(&self, cell: usize) -> (tile: Tile)
        requires
            cell < self.grid().cell_count(),
        ensures
            tile.x == self.grid().cell_x(cell as int),
            tile.y == self.grid().cell_y(cell as int),
            self.grid().on_map(tile.x as int, tile.y as int),
            tile.y * self.grid().width + tile.x == cell,
    {
        proof {
            use_type_invariant(self);
            lemma_coords_of_cell(cell as int, self.width as int, self.height as int);
        }
        let w = self.width as usize;
        Tile::new((cell % w) as i32, (cell / w) as i32)
    }
}

/// Octile distance between two tiles: the exact cost of the cheapest
/// unobstructed grid walk between them, so A* never expands a cell it does not
/// have to.
fn heuristic(from: Tile, to: Tile) -> (estimate: u64)
    ensures
        estimate == octile(
            abs_diff(from.x as int, to.x as int),
            abs_diff(from.y as int, to.y as int),
        ),
        estimate <= 0xffff_ffff * DIAGONAL_STEP,
{
    let dx: u64 = if from.x >= to.x {
        (from.x as i64 - to.x as i64) as u64
    } else {
        (to.x as i64 - from.x as i64) as u64
    };
    let dy: u64 = if from.y >= to.y {
        (from.y as i64 - to.y as i64) as u64
    } else {
        (to.y as i64 - from.y as i64) as u64
    };
    assert(dx <= 0xffff_ffff && dy <= 0xffff_ffff);
    if dx >= dy {
        assert(dx * STEP <= 0xffff_ffff * STEP) by (nonlinear_arith)
            requires
                dx <= 0xffff_ffff,
        ;
        assert(dy * (DIAGONAL_STEP - STEP) <= 0xffff_ffff * (DIAGONAL_STEP - STEP)) by (nonlinear_arith)
            requires
                dy <= 0xffff_ffff,
        ;
        assert(dx * STEP + dy * (DIAGONAL_STEP - STEP) <= 0xffff_ffff * DIAGONAL_STEP) by (nonlinear_arith)
            requires
                dy <= dx <= 0xffff_ffff,
        ;
        dx * STEP + dy * (DIAGONAL_STEP - STEP)
    } else {
        assert(dy * STEP <= 0xffff_ffff * STEP) by (nonlinear_arith)
            requires
                dy <= 0xffff_ffff,
        ;
        assert(dx * (DIAGONAL_STEP - STEP) <= 0xffff_ffff * (DIAGONAL_STEP - STEP)) by (nonlinear_arith)
            requires
                dx <= 0xffff_ffff,
        ;
        assert(dy * STEP + dx * (DIAGONAL_STEP - STEP) <= 0xffff_ffff * DIAGONAL_STEP) by (nonlinear_arith)
            requires
                dx <= dy <= 0xffff_ffff,
        ;
        dy * STEP + dx * (DIAGONAL_STEP - STEP)
    }
}

// ─────────────────────────────────────────────────────────────── the search

/// The eight moves, in the order the search tries them.
pub open spec fn move_dx(k: int) -> int {
    if k == 0 || k == 1 || k == 7 {
        1
    } else if k == 3 || k == 4 || k == 5 {
        -1
    } else {
        0
    }
}

pub open spec fn move_dy(k: int) -> int {
    if k == 1 || k == 2 || k == 3 {
        1
    } else if k == 5 || k == 6 || k == 7 {
        -1
    } else {
        0
    }
}

fn neighbour_offset(k: usize) -> (offset: (i32, i32))
    requires
        k < 8,
    ensures
        offset.0 == move_dx(k as int),
        offset.1 == move_dy(k as int),
{
    match k {
        0 => (1, 0),
        1 => (1, 1),
        2 => (0, 1),
        3 => (-1, 1),
        4 => (-1, 0),
        5 => (-1, -1),
        6 => (0, -1),
        _ => (1, -1),
    }
}

pub proof fn lemma_every_move_is_tried(dx: int, dy: int) -> (k: int)
    requires
        -1 <= dx <= 1,
        -1 <= dy <= 1,
        dx != 0 || dy != 0,
    ensures
        0 <= k < 8,
        move_dx(k) == dx,
        move_dy(k) == dy,
{
    if dx == 1 && dy == 0 {
        0
    } else if dx == 1 && dy == 1 {
        1
    } else if dx == 0 && dy == 1 {
        2
    } else if dx == -1 && dy == 1 {
        3
    } else if dx == -1 && dy == 0 {
        4
    } else if dx == -1 && dy == -1 {
        5
    } else if dx == 0 && dy == -1 {
        6
    } else {
        7
    }
}

/// How many flags are raised.
pub open spec fn count_true(flags: Seq<bool>) -> nat
    decreases flags.len(),
{
    if flags.len() == 0 {
        0
    } else {
        count_true(flags.drop_last()) + if flags.last() {
            1nat
        } else {
            0nat
        }
    }
}

proof fn lemma_count_true_bound(flags: Seq<bool>)
    ensures
        count_true(flags) <= flags.len(),
    decreases flags.len(),
{
    if flags.len() > 0 {
        lemma_count_true_bound(flags.drop_last());
    }
}

proof fn lemma_count_true_raise(flags: Seq<bool>, i: int)
    requires
        0 <= i < flags.len(),
        !flags[i],
    ensures
        count_true(flags.update(i, true)) == count_true(flags) + 1,
    decreases flags.len(),
{
    let raised = flags.update(i, true);
    if i == flags.len() - 1 {
        assert(raised.drop_last() =~= flags.drop_last());
    } else {
        assert(raised.drop_last() =~= flags.drop_last().update(i, true));
        lemma_count_true_raise(flags.drop_last(), i);
    }
}

proof fn lemma_count_true_none(flags: Seq<bool>)
    requires
        forall|i: int| 0 <= i < flags.len() ==> !flags[i],
    ensures
        count_true(flags) == 0,
    decreases flags.len(),
{
    if flags.len() > 0 {
        lemma_count_true_none(flags.drop_last());
    }
}

/// An open-list entry: an estimate of the whole walk through a cell, and the cell.
pub open spec fn entry_before(a: (u64, usize), b: (u64, usize)) -> bool {
    a.0 < b.0 || (a.0 == b.0 && a.1 < b.1)
}

/// The entry to expand next: the lowest estimate, ties to the lowest cell.
fn lowest_entry(open: &Vec<(u64, usize)>) -> (k: usize)
    requires
        open.len() > 0,
    ensures
        k < open.len(),
        k == lowest_index(open@),
        forall|i: int| 0 <= i < open.len() ==> !entry_before(#[trigger] open@[i], open@[k as int]),
{
    let mut k: usize = 0;
    let mut i: usize = 1;
    while i < open.len()
        invariant
            0 < open.len(),
            k < i <= open.len(),
            k == lowest_upto(open@, i as int),
            forall|j: int| 0 <= j < i ==> !entry_before(#[trigger] open@[j], open@[k as int]),
        decreases open.len() - i,
    {
        let a = open[i];
        let b = open[k];
        if a.0 < b.0 || (a.0 == b.0 && a.1 < b.1) {
            k = i;
        }
        i = i + 1;
    }
    k
}

fn filled<T: Copy>(n: usize, value: T) -> (cells: Vec<T>)
    ensures
        cells@.len() == n,
        forall|i: int| 0 <= i < n ==> cells@[i] == value,
{
    let mut cells: Vec<T> = Vec::new();
    while cells.len() < n
        invariant
            cells@.len() <= n,
            forall|i: int| 0 <= i < cells@.len() ==> cells@[i] == value,
        decreases n - cells@.len(),
    {
        cells.push(value);
    }
    cells
}

/// Every queued entry names a cell the search has reached.
pub open spec fn queue_live(n: int, cost: Seq<u64>, open: Seq<(u64, usize)>) -> bool {
    forall|i: int|
        0 <= i < open.len() ==> (#[trigger] open[i]).1 < n && cost[open[i].1 as int] < u64::MAX
}

/// Every reached cell not yet expanded is waiting in the queue.
pub open spec fn frontier_queued(
    n: int,
    cost: Seq<u64>,
    closed: Seq<bool>,
    open: Seq<(u64, usize)>,
) -> bool {
    forall|c: int|
        0 <= c < n && #[trigger] cost[c] < u64::MAX && !closed[c] ==> exists|i: int|
            0 <= i < open.len() && (#[trigger] open[i]).1 == c
}

/// Every expanded cell, bar `busy`, has reached every cell one legal move away.
pub open spec fn expanded_spread(g: Grid, cost: Seq<u64>, closed: Seq<bool>, busy: int) -> bool {
    forall|c: int, d: int|
        0 <= c < g.cell_count() && 0 <= d < g.cell_count() && closed[c] && c != busy
            && #[trigger] g.cell_step(c, d) ==> cost[d] < u64::MAX
}

/// The bookkeeping of a search from `start` to `goal` that has not yet reached the goal.
pub open spec fn search_books(
    g: Grid,
    start: int,
    goal: int,
    cost: Seq<u64>,
    came: Seq<usize>,
    closed: Seq<bool>,
    expanded: nat,
) -> bool {
    let n = g.cell_count();
    &&& cost.len() == n
    &&& came.len() == n
    &&& closed.len() == n
    &&& 0 <= start < n
    &&& 0 <= goal < n
    &&& start != goal
    &&& cost[start] == 0
    &&& came[start] == usize::MAX
    &&& !closed[goal]
    &&& expanded == count_true(closed)
    &&& forall|c: int| 0 <= c < n && #[trigger] closed[c] ==> cost[c] < u64::MAX
    &&& forall|c: int|
        0 <= c < n && #[trigger] cost[c] < u64::MAX ==> cost[c] <= expanded * DIAGONAL_STEP
            && g.open_at(g.cell_x(c), g.cell_y(c))
    &&& forall|c: int|
        0 <= c < n && #[trigger] cost[c] < u64::MAX && c != start ==> came[c] < n && cost[came[c] as int]
            < cost[c] && g.cell_step(came[c] as int, c)
}

proof fn lemma_walk_ends_open(g: Grid, walk: Seq<Tile>, from: Tile, to: Tile)
    requires
        g.is_walk(walk, from, to),
    ensures
        g.open_at(from.x as int, from.y as int),
        g.open_at(to.x as int, to.y as int),
{
    if walk.len() > 1 {
        assert(g.walk_step(walk, walk.len() - 2));
    }
}

proof fn lemma_open_is_on_map(g: Grid, x: int, y: int)
    requires
        g.open_at(x, y),
    ensures
        g.on_map(x, y),
{
}

/// A walk that starts in a set of cells closed under legal moves never leaves it.
proof fn lemma_walk_stays_reached(
    g: Grid,
    walk: Seq<Tile>,
    from: Tile,
    to: Tile,
    cost: Seq<u64>,
    closed: Seq<bool>,
    i: int,
)
    requires
        g.is_walk(walk, from, to),
        0 <= i < walk.len(),
        0 < g.width,
        0 < g.height,
        cost.len() == g.cell_count(),
        closed.len() == g.cell_count(),
        cost[from.y * g.width + from.x] < u64::MAX,
        forall|c: int| 0 <= c < g.cell_count() && #[trigger] cost[c] < u64::MAX ==> closed[c],
        expanded_spread(g, cost, closed, -1),
    ensures
        g.on_map(walk[i].x as int, walk[i].y as int),
        cost[walk[i].y * g.width + walk[i].x] < u64::MAX,
    decreases i,
{
    if i == 0 {
        lemma_open_is_on_map(g, from.x as int, from.y as int);
    } else {
        lemma_walk_stays_reached(g, walk, from, to, cost, closed, i - 1);
        assert(g.walk_step(walk, i - 1));
        let (ax, ay) = (walk[i - 1].x as int, walk[i - 1].y as int);
        let (bx, by) = (walk[i].x as int, walk[i].y as int);
        lemma_open_is_on_map(g, bx, by);
        lemma_cell_of_coords(ax, ay, g.width, g.height);
        lemma_cell_of_coords(bx, by, g.width, g.height);
        let c = ay * g.width + ax;
        let d = by * g.width + bx;
        assert(g.cell_step(c, d));
        assert(closed[c]);
    }
}

/// The cell one move of kind `k` away from the tile at `(x, y)`.
pub open spec fn move_target(g: Grid, x: int, y: int, k: int) -> int {
    (y + move_dy(k)) * g.width + x + move_dx(k)
}

/// Lowering the cost of a cell, recording where it was reached from and
/// queueing it, keeps the books.
proof fn lemma_relax_keeps_books(
    g: Grid,
    start: int,
    goal: int,
    cost0: Seq<u64>,
    came0: Seq<usize>,
    open0: Seq<(u64, usize)>,
    cost: Seq<u64>,
    came: Seq<usize>,
    open: Seq<(u64, usize)>,
    closed: Seq<bool>,
    expanded: nat,
    cell: int,
    nb: int,
    step: u64,
    estimate: u64,
)
    requires
        search_books(g, start, goal, cost0, came0, closed, expanded),
        g.cell_count() <= MAX_CELLS,
        queue_live(g.cell_count(), cost0, open0),
        frontier_queued(g.cell_count(), cost0, closed, open0),
        expanded_spread(g, cost0, closed, cell),
        0 <= cell < g.cell_count(),
        0 <= nb < g.cell_count(),
        closed[cell],
        cost0[cell] < step,
        step < cost0[nb],
        step <= expanded * DIAGONAL_STEP,
        g.cell_step(cell, nb),
        g.open_at(g.cell_x(nb), g.cell_y(nb)),
        cost == cost0.update(nb, step),
        came == came0.update(nb, cell as usize),
        open == open0.push((estimate, nb as usize)),
    ensures
        search_books(g, start, goal, cost, came, closed, expanded),
        queue_live(g.cell_count(), cost, open),
        frontier_queued(g.cell_count(), cost, closed, open),
        expanded_spread(g, cost, closed, cell),
        forall|d: int| 0 <= d < g.cell_count() && cost0[d] < u64::MAX ==> #[trigger] cost[d] < u64::MAX,
{
    let n = g.cell_count();
    assert(nb != start);
    assert forall|c: int| 0 <= c < n && #[trigger] cost[c] < u64::MAX && c != start implies came[c] < n
        && cost[came[c] as int] < cost[c] && g.cell_step(came[c] as int, c) by {
        if c != nb {
            assert(cost0[c] < u64::MAX);
            assert(cost[came[c] as int] <= cost0[came0[c] as int]);
        }
    }
    assert forall|c: int| 0 <= c < n && #[trigger] cost[c] < u64::MAX implies cost[c] <= expanded
        * DIAGONAL_STEP && g.open_at(g.cell_x(c), g.cell_y(c)) by {
        if c != nb {
            assert(cost0[c] < u64::MAX);
        }
    }
    assert forall|c: int| 0 <= c < n && #[trigger] closed[c] implies cost[c] < u64::MAX by {
        if c != nb {
            assert(cost0[c] < u64::MAX);
        }
    }
    assert forall|i: int| 0 <= i < open.len() implies (#[trigger] open[i]).1 < n && cost[open[i].1 as int]
        < u64::MAX by {
        if i < open.len() - 1 {
            assert(open[i] == open0[i]);
            assert(cost0[open[i].1 as int] < u64::MAX);
        }
    }
    assert forall|c: int|
        0 <= c < n && #[trigger] cost[c] < u64::MAX && !closed[c] implies exists|i: int|
            0 <= i < open.len() && (#[trigger] open[i]).1 == c by {
        if c == nb {
            assert(open[open.len() - 1].1 == c);
        } else {
            assert(cost0[c] < u64::MAX);
            let i = choose|i: int| 0 <= i < open0.len() && (#[trigger] open0[i]).1 == c;
            assert(open[i] == open0[i]);
        }
    }
    assert forall|c: int, d: int|
        0 <= c < n && 0 <= d < n && closed[c] && c != cell && #[trigger] g.cell_step(c, d) implies cost[d]
            < u64::MAX by {
        if d != nb {
            assert(cost0[d] < u64::MAX);
        }
    }
}

/// Taking an entry off the queue leaves every other reached, unexpanded cell queued.
proof fn lemma_pop_keeps_queue(
    n: int,
    cost: Seq<u64>,
    closed: Seq<bool>,
    before: Seq<(u64, usize)>,
    open: Seq<(u64, usize)>,
    k: int,
    cell: usize,
)
    requires
        0 <= k < before.len(),
        open == before.update(k, before.last()).drop_last(),
        before[k].1 == cell,
        queue_live(n, cost, before),
        frontier_queued(n, cost, closed, before),
    ensures
        queue_live(n, cost, open),
        cell < n,
        cost[cell as int] < u64::MAX,
        closed[cell as int] ==> frontier_queued(n, cost, closed, open),
        forall|c: int|
            0 <= c < n && #[trigger] cost[c] < u64::MAX && !closed[c] && c != cell ==> exists|j: int|
                0 <= j < open.len() && (#[trigger] open[j]).1 == c,
{
    assert forall|j: int| 0 <= j < open.len() implies (#[trigger] open[j]).1 < n && cost[open[j].1 as int]
        < u64::MAX by {
        if j == k {
            assert(open[j] == before[before.len() - 1]);
        } else {
            assert(open[j] == before[j]);
        }
    }
    assert forall|c: int|
        0 <= c < n && #[trigger] cost[c] < u64::MAX && !closed[c] && c != cell implies exists|j: int|
            0 <= j < open.len() && (#[trigger] open[j]).1 == c by {
        let i = choose|i: int| 0 <= i < before.len() && (#[trigger] before[i]).1 == c;
        assert(i != k);
        if i == before.len() - 1 {
            assert(open[k] == before[i]);
        } else {
            assert(open[i] == before[i]);
        }
    }
}

/// Marking a reached cell expanded keeps the books, one more expansion in.
proof fn lemma_close_keeps_books(
    g: Grid,
    start: int,
    goal: int,
    cost: Seq<u64>,
    came: Seq<usize>,
    closed0: Seq<bool>,
    closed: Seq<bool>,
    open: Seq<(u64, usize)>,
    expanded: nat,
    cell: int,
)
    requires
        search_books(g, start, goal, cost, came, closed0, expanded),
        expanded_spread(g, cost, closed0, -1),
        0 <= cell < g.cell_count(),
        cell != goal,
        !closed0[cell],
        cost[cell] < u64::MAX,
        closed == closed0.update(cell, true),
        forall|c: int|
            0 <= c < g.cell_count() && #[trigger] cost[c] < u64::MAX && !closed0[c] && c != cell ==> exists|j: int|
                0 <= j < open.len() && (#[trigger] open[j]).1 == c,
    ensures
        search_books(g, start, goal, cost, came, closed, expanded + 1),
        frontier_queued(g.cell_count(), cost, closed, open),
        expanded_spread(g, cost, closed, cell),
        expanded + 1 <= g.cell_count(),
        cost[cell] + DIAGONAL_STEP <= (expanded + 1) * DIAGONAL_STEP,
{
    lemma_count_true_raise(closed0, cell);
    lemma_count_true_bound(closed);
    let n = g.cell_count();
    assert forall|c: int| 0 <= c < n && #[trigger] cost[c] < u64::MAX implies cost[c] <= (expanded + 1)
        * DIAGONAL_STEP && g.open_at(g.cell_x(c), g.cell_y(c)) by {
        assert(cost[c] <= expanded * DIAGONAL_STEP);
        assert(expanded * DIAGONAL_STEP <= (expanded + 1) * DIAGONAL_STEP) by (nonlinear_arith);
    }
    assert(cost[cell] <= expanded * DIAGONAL_STEP);
    assert(expanded * DIAGONAL_STEP + DIAGONAL_STEP == (expanded + 1) * DIAGONAL_STEP) by (nonlinear_arith);
    assert forall|c: int|
        0 <= c < n && #[trigger] cost[c] < u64::MAX && !closed[c] implies exists|j: int|
            0 <= j < open.len() && (#[trigger] open[j]).1 == c by {
        assert(!closed0[c] && c != cell);
    }
    assert forall|c: int| 0 <= c < n && #[trigger] closed[c] implies cost[c] < u64::MAX by {
        if c != cell {
            assert(closed0[c]);
        }
    }
    assert forall|c: int, d: int|
        0 <= c < n && 0 <= d < n && closed[c] && c != cell && #[trigger] g.cell_step(c, d) implies cost[d]
            < u64::MAX by {
        assert(closed0[c]);
    }
}

/// Once every move out of `cell` has been tried, the expanded cells spread
/// everywhere one move takes them.
proof fn lemma_expansion_complete(g: Grid, cost: Seq<u64>, closed: Seq<bool>, cell: int, x: int, y: int)
    requires
        0 < g.width,
        0 < g.height,
        cost.len() == g.cell_count(),
        closed.len() == g.cell_count(),
        0 <= cell < g.cell_count(),
        x == g.cell_x(cell),
        y == g.cell_y(cell),
        expanded_spread(g, cost, closed, cell),
        forall|j: int|
            0 <= j < 8 && g.step_ok(x, y, x + move_dx(j), y + move_dy(j)) ==> 0 <= #[trigger] move_target(g, x, y, j)
                < g.cell_count() && cost[move_target(g, x, y, j)] < u64::MAX,
    ensures
        expanded_spread(g, cost, closed, -1),
{
    assert forall|c: int, d: int|
        0 <= c < g.cell_count() && 0 <= d < g.cell_count() && closed[c] && c != -1 && #[trigger] g.cell_step(
            c,
            d,
        ) implies cost[d] < u64::MAX by {
        if c == cell {
            lemma_coords_of_cell(d, g.width, g.height);
            let i = lemma_every_move_is_tried(g.cell_x(d) - x, g.cell_y(d) - y);
            assert(g.step_ok(x, y, x + move_dx(i), y + move_dy(i)));
            assert(move_target(g, x, y, i) == d);
        }
    }
}

impl VillageMap {
    /// The cheapest grid walk between two tiles, by integer step cost, ties
    /// broken on the cell index. `None` when either end is jungle or the goal
    /// is walled off. The walk is the one the run of expansions fixes
    /// ([`searched`]), so a search is the same search on every run.
    #[verifier::rlimit(100)]
    #[verifier::spinoff_prover]
    pub fn search(&self, from: Tile, to: Tile) -> (walk: Option<Vec<Tile>>)
        ensures
            walk is Some <==> self.grid().reachable(from, to),
            walk matches Some(w) ==> self.grid().is_walk(w@, from, to),
            walk matches Some(w) ==> forall|other: Seq<Tile>| #[trigger]
                self.grid().is_walk(other, from, to) ==> walk_cost(w@) <= walk_cost(other),
            from == to ==> (walk matches Some(w) ==> w@ == seq![from]),
            walk matches Some(w) ==> searched(self.grid(), from, to) == Some(w@),
            walk is None ==> searched(self.grid(), from, to) == None::<Seq<Tile>>,
    {
        proof {
            use_type_invariant(self);
        }
        let ghost g = self.grid();
        if !self.passable_at(from.x, from.y) || !self.passable_at(to.x, to.y) {
            proof {
                if g.reachable(from, to) {
                    let w = choose|w: Seq<Tile>| g.is_walk(w, from, to);
                    lemma_walk_ends_open(g, w, from, to);
                }
                lemma_searched_trivially(g, from, to);
            }
            return None;
        }
        if from == to {
            let mut walk: Vec<Tile> = Vec::new();
            walk.push(from);
            proof {
                assert(walk@ =~= seq![from]);
                lemma_searched_trivially(g, from, to);
                assert(g.is_walk(walk@, from, to));
                assert forall|other: Seq<Tile>| #[trigger] g.is_walk(other, from, to) implies walk_cost(walk@)
                    <= walk_cost(other) by {
                    lemma_walk_cost_nonneg(other);
                }
            }
            return Some(walk);
        }
        proof {
            lemma_open_is_on_map(g, from.x as int, from.y as int);
            lemma_open_is_on_map(g, to.x as int, to.y as int);
        }
        let cells = self.width as usize * self.height as usize;
        let start = self.index(from);
        let goal = self.index(to);
        let mut cost: Vec<u64> = filled(cells, u64::MAX);
        let mut came: Vec<usize> = filled(cells, usize::MAX);
        let mut closed: Vec<bool> = filled(cells, false);
        cost.set(start, 0);
        let ghost mut expanded: nat = 0;
        let mut open: Vec<(u64, usize)> = Vec::new();
        open.push((heuristic(from, to), start));
        let ghost mut steps: nat = 0;
        proof {
            lemma_run_starts(g, from, to, Books { cost: cost@, came: came@, closed: closed@, open: open@ });
            lemma_tile_cell(g, from);
            lemma_cheapest_books_start(g, from, to, start as int, cost@, came@, closed@, open@);
            lemma_count_true_none(closed@);
            assert(start != goal) by {
                if start == goal {
                    assert(from == to);
                }
            }
            assert(frontier_queued(cells as int, cost@, closed@, open@)) by {
                assert forall|c: int|
                    0 <= c < cells && #[trigger] cost@[c] < u64::MAX && !closed@[c] implies exists|i: int|
                        0 <= i < open@.len() && (#[trigger] open@[i]).1 == c by {
                    assert(c == start);
                    assert(open@[0].1 == c);
                }
            }
        }
        loop
            invariant
                0 < self.width,
                0 < self.height,
                g == self.grid(),
                cells == g.cell_count(),
                cells <= MAX_CELLS,
                start == from.y * g.width + from.x,
                goal == to.y * g.width + to.x,
                g.on_map(from.x as int, from.y as int),
                g.on_map(to.x as int, to.y as int),
                g.open_at(from.x as int, from.y as int),
                search_books(g, start as int, goal as int, cost@, came@, closed@, expanded),
                expanded <= cells,
                queue_live(cells as int, cost@, open@),
                frontier_queued(cells as int, cost@, closed@, open@),
                expanded_spread(g, cost@, closed@, -1),
                search_frame(g, from, start as int),
                cheapest_books(g, from, to, start as int, cost@, came@, closed@, open@, -1),
                from != to,
                g.open_at(to.x as int, to.y as int),
                run(g, from, to, steps) == ((Books { cost: cost@, came: came@, closed: closed@, open: open@ }), Progress::Running),
            decreases cells - expanded, open@.len(),
        {
            if open.len() == 0 {
                proof {
                    assert forall|c: int| 0 <= c < cells && #[trigger] cost@[c] < u64::MAX implies closed@[c] by {
                        if !closed@[c] {
                            assert(frontier_queued(cells as int, cost@, closed@, open@));
                        }
                    }
                    if g.reachable(from, to) {
                        let w = choose|w: Seq<Tile>| g.is_walk(w, from, to);
                        lemma_walk_stays_reached(g, w, from, to, cost@, closed@, w.len() - 1);
                        assert(closed@[goal as int]);
                    }
                    lemma_run_next(g, from, to, steps);
                    lemma_expand_dry(g, to, goal as int, Books { cost: cost@, came: came@, closed: closed@, open: open@ });
                    lemma_searched_dry(g, from, to, steps);
                }
                return None;
            }
            let k = lowest_entry(&open);
            let ghost before = open@;
            let ghost prior = Books { cost: cost@, came: came@, closed: closed@, open: open@ };
            let (_, cell) = open.swap_remove(k);
            proof {
                lemma_run_next(g, from, to, steps);
                lemma_expand_pop(g, to, goal as int, prior, k as int, cell as int, open@);
            }
            proof {
                lemma_pop_keeps_queue(cells as int, cost@, closed@, before, open@, k as int, cell);
            }
            if cell == goal {
                proof {
                    lemma_popped_is_cheapest(g, from, to, start as int, goal as int, cost@, came@, closed@, expanded, before, k as int);
                    lemma_tile_cell(g, to);
                    lemma_books_record_cheap_predecessors(g, from, to, start as int, cost@, came@, closed@, before, -1);
                }
                let walk = self.walk_back(&came, start, goal, Ghost(cost@), Ghost(closed@), Ghost(expanded), from, to);
                proof {
                    lemma_searched_found(g, from, to, steps, walk@);
                    assert forall|other: Seq<Tile>| #[trigger] g.is_walk(other, from, to) implies walk_cost(walk@)
                        <= walk_cost(other) by {
                        assert(g.is_walk(other, from, crate::cheapest::cell_tile(g, goal as int)));
                    }
                }
                return Some(walk);
            }
            if closed[cell] {
                proof {
                    lemma_stale_pop(g, from, to, start as int, cost@, came@, closed@, before, open@, k as int);
                    steps = steps + 1;
                }
                continue;
            }
            let ghost closed_before = closed@;
            closed.set(cell, true);
            proof {
                lemma_expanding_the_popped_cell(
                    g,
                    from,
                    to,
                    start as int,
                    goal as int,
                    cost@,
                    came@,
                    closed_before,
                    closed@,
                    expanded,
                    before,
                    open@,
                    k as int,
                );
                lemma_close_keeps_books(g, start as int, goal as int, cost@, came@, closed_before, closed@, open@, expanded, cell as int);
                expanded = expanded + 1;
            }
            let here = self.tile_of(cell);
            let ghost cell_cost = cost@[cell as int];
            let ghost mid = Books { cost: cost@, came: came@, closed: closed@, open: open@ };
            proof {
                assert(mid == (Books { closed: prior.closed.update(cell as int, true), open: open@, ..prior }));
                lemma_relax_next(g, to, mid, cell as int, 0);
            }
            let mut k: usize = 0;
            while k < 8
                invariant
                    0 < self.width,
                    0 < self.height,
                    g == self.grid(),
                    cells == g.cell_count(),
                    cells <= MAX_CELLS,
                    start == from.y * g.width + from.x,
                    goal == to.y * g.width + to.x,
                    g.on_map(from.x as int, from.y as int),
                    g.on_map(to.x as int, to.y as int),
                    g.open_at(from.x as int, from.y as int),
                    search_books(g, start as int, goal as int, cost@, came@, closed@, expanded),
                    expanded <= cells,
                    1 <= expanded,
                    queue_live(cells as int, cost@, open@),
                    frontier_queued(cells as int, cost@, closed@, open@),
                    expanded_spread(g, cost@, closed@, cell as int),
                    cell < cells,
                    closed@[cell as int],
                    cost@[cell as int] == cell_cost,
                    cell_cost + DIAGONAL_STEP <= expanded * DIAGONAL_STEP,
                    here.x == g.cell_x(cell as int),
                    here.y == g.cell_y(cell as int),
                    g.on_map(here.x as int, here.y as int),
                    k <= 8,
                    search_frame(g, from, start as int),
                    cheapest_books(g, from, to, start as int, cost@, came@, closed@, open@, cell as int),
                    moves_tried(g, cost@, cell as int, here.x as int, here.y as int, k as int),
                    (Books { cost: cost@, came: came@, closed: closed@, open: open@ }) == relax_upto(g, to, mid, cell as int, k as int),
                    forall|j: int|
                        0 <= j < k && g.step_ok(
                            here.x as int,
                            here.y as int,
                            here.x + move_dx(j),
                            here.y + move_dy(j),
                        ) ==> 0 <= #[trigger] move_target(g, here.x as int, here.y as int, j) < cells
                            && cost@[move_target(g, here.x as int, here.y as int, j)] < u64::MAX,
                decreases 8 - k,
            {
                let (dx, dy) = neighbour_offset(k);
                let ghost j = k as int;
                let ghost books = Books { cost: cost@, came: came@, closed: closed@, open: open@ };
                proof {
                    lemma_relax_next(g, to, mid, cell as int, j);
                }
                k = k + 1;
                let nx = here.x + dx;
                let ny = here.y + dy;
                if !self.passable_at(nx, ny) {
                    proof {
                        lemma_relax_keep(g, to, books, cell as int, j);
                    }
                    continue;
                }
                let diagonal = dx != 0 && dy != 0;
                if diagonal && (!self.passable_at(here.x + dx, here.y) || !self.passable_at(here.x, here.y + dy)) {
                    proof {
                        lemma_relax_keep(g, to, books, cell as int, j);
                    }
                    continue;
                }
                proof {
                    lemma_open_is_on_map(g, nx as int, ny as int);
                    assert(g.step_ok(here.x as int, here.y as int, nx as int, ny as int));
                }
                let neighbour = self.index(Tile::new(nx, ny));
                proof {
                    assert(neighbour != cell);
                    assert(g.cell_step(cell as int, neighbour as int));
                    assert(expanded * DIAGONAL_STEP <= MAX_CELLS * DIAGONAL_STEP) by (nonlinear_arith)
                        requires
                            expanded <= MAX_CELLS,
                    ;
                }
                let step = cost[cell] + if diagonal {
                    DIAGONAL_STEP
                } else {
                    STEP
                };
                let ghost cost_start = cost@;
                if step < cost[neighbour] {
                    let ghost cost0 = cost@;
                    let ghost came0 = came@;
                    let ghost open0 = open@;
                    let estimate = heuristic(Tile::new(nx, ny), to);
                    cost.set(neighbour, step);
                    came.set(neighbour, cell);
                    let priority = step + estimate;
                    open.push((priority, neighbour));
                    proof {
                        assert(neighbour == move_target(g, here.x as int, here.y as int, j));
                        lemma_relax_take(g, to, books, cell as int, j, step as int, neighbour as int);
                        lemma_relax_cheaply(
                            g,
                            from,
                            to,
                            start as int,
                            goal as int,
                            cost0,
                            came0,
                            open0,
                            cost@,
                            came@,
                            open@,
                            closed@,
                            expanded,
                            cell as int,
                            neighbour as int,
                            step,
                            priority,
                        );
                        lemma_relax_keeps_books(
                            g,
                            start as int,
                            goal as int,
                            cost0,
                            came0,
                            open0,
                            cost@,
                            came@,
                            open@,
                            closed@,
                            expanded,
                            cell as int,
                            neighbour as int,
                            step,
                            priority,
                        );
                    }
                }
                proof {
                    if step >= cost_start[neighbour as int] {
                        assert(neighbour == move_target(g, here.x as int, here.y as int, j));
                        lemma_relax_keep(g, to, books, cell as int, j);
                    }
                    assert forall|i: int|
                        0 <= i < k && g.step_ok(
                            here.x as int,
                            here.y as int,
                            here.x + move_dx(i),
                            here.y + move_dy(i),
                        ) implies 0 <= #[trigger] move_target(g, here.x as int, here.y as int, i) < cells
                            && cost@[move_target(g, here.x as int, here.y as int, i)] < u64::MAX by {
                        if i == j {
                            assert(move_target(g, here.x as int, here.y as int, i) == neighbour);
                        } else {
                            assert(cost_start[move_target(g, here.x as int, here.y as int, i)] < u64::MAX);
                        }
                    }
                    assert forall|i: int|
                        0 <= i < k && g.step_ok(
                            here.x as int,
                            here.y as int,
                            here.x + move_dx(i),
                            here.y + move_dy(i),
                        ) implies cost@[move_target(g, here.x as int, here.y as int, i)] <= cost@[cell as int]
                            + cell_move_cost(g, cell as int, #[trigger] move_target(g, here.x as int, here.y as int, i)) by {
                        if i == j {
                            assert(move_target(g, here.x as int, here.y as int, i) == neighbour);
                        } else {
                            assert(cost_start[move_target(g, here.x as int, here.y as int, i)] <= cell_cost
                                + cell_move_cost(g, cell as int, move_target(g, here.x as int, here.y as int, i)));
                        }
                    }
                }
            }
            proof {
                steps = steps + 1;
                lemma_expansion_complete(g, cost@, closed@, cell as int, here.x as int, here.y as int);
                lemma_every_move_tried(g, from, to, start as int, cost@, came@, closed@, open@, cell as int, here.x as int, here.y as int);
            }
        }
    }

    /// Follow the breadcrumbs from the goal back to the start, and turn the
    /// trail round into a walk.
    #[verifier::spinoff_prover]
    #[verifier::rlimit(40)]
    fn walk_back(
        &self,
        came: &Vec<usize>,
        start: usize,
        goal: usize,
        Ghost(cost): Ghost<Seq<u64>>,
        Ghost(closed): Ghost<Seq<bool>>,
        Ghost(expanded): Ghost<nat>,
        from: Tile,
        to: Tile,
    ) -> (walk: Vec<Tile>)
        requires
            search_books(self.grid(), start as int, goal as int, cost, came@, closed, expanded),
            0 < self.grid().width,
            0 < self.grid().height,
            self.grid().cell_count() <= MAX_CELLS,
            cost[goal as int] < u64::MAX,
            start == from.y * self.grid().width + from.x,
            goal == to.y * self.grid().width + to.x,
            self.grid().on_map(from.x as int, from.y as int),
            self.grid().on_map(to.x as int, to.y as int),
            self.grid().open_at(from.x as int, from.y as int),
            came_cheaply(self.grid(), start as int, cost, came@),
        ensures
            self.grid().is_walk(walk@, from, to),
            self.grid().reachable(from, to),
            walk_cost(walk@) <= cost[goal as int],
            traces(self.grid(), came@, goal as int, walk@),
    {
        let ghost g = self.grid();
        let ghost n = g.cell_count();
        let mut trail: Vec<usize> = Vec::new();
        trail.push(goal);
        let mut at = goal;
        while came[at] != usize::MAX
            invariant
                search_books(g, start as int, goal as int, cost, came@, closed, expanded),
                n == g.cell_count(),
                n <= MAX_CELLS,
                at < n,
                cost[at as int] < u64::MAX,
                trail@.len() >= 1,
                trail@[0] == goal,
                trail@.last() == at,
                forall|i: int| 0 <= i < trail@.len() ==> #[trigger] trail@[i] < n,
                forall|i: int|
                    0 <= i < trail@.len() - 1 ==> g.cell_step(trail@[i + 1] as int, #[trigger] trail@[i] as int),
                forall|i: int| 0 <= i < trail@.len() - 1 ==> came@[#[trigger] trail@[i] as int] == trail@[i + 1],
                forall|i: int| 0 <= i < trail@.len() ==> cost[#[trigger] trail@[i] as int] < u64::MAX,
            decreases cost[at as int],
        {
            let ghost trail0 = trail@;
            let ghost at0 = at as int;
            proof {
                assert(at0 != start);
                assert(came@[at0] < n && cost[came@[at0] as int] < cost[at0]);
            }
            at = came[at];
            trail.push(at);
            proof {
                assert forall|i: int| 0 <= i < trail@.len() - 1 implies came@[#[trigger] trail@[i] as int]
                    == trail@[i + 1] by {
                    if i < trail0.len() - 1 {
                        assert(trail@[i] == trail0[i] && trail@[i + 1] == trail0[i + 1]);
                    }
                }
                assert forall|i: int| 0 <= i < trail@.len() implies cost[#[trigger] trail@[i] as int]
                    < u64::MAX by {
                    if i < trail0.len() {
                        assert(trail@[i] == trail0[i]);
                    }
                }
            }
        }
        assert(at == start);
        let mut walk: Vec<Tile> = Vec::new();
        let mut i = trail.len();
        while i > 0
            invariant
                0 < g.width,
                0 < g.height,
                g == self.grid(),
                n == g.cell_count(),
                n <= MAX_CELLS,
                0 <= i <= trail@.len(),
                walk@.len() == trail@.len() - i,
                forall|m: int| 0 <= m < trail@.len() ==> #[trigger] trail@[m] < n,
                forall|m: int|
                    0 <= m < walk@.len() ==> (#[trigger] walk@[m]).x == g.cell_x(
                        trail@[trail@.len() - 1 - m] as int,
                    ) && walk@[m].y == g.cell_y(trail@[trail@.len() - 1 - m] as int),
                forall|m: int| 0 <= m < trail@.len() - 1 ==> came@[#[trigger] trail@[m] as int] == trail@[m + 1],
                trail@.last() == start,
                came@[start as int] == usize::MAX,
                came_cheaply(g, start as int, cost, came@),
                cost[start as int] == 0,
                forall|m: int| 0 <= m < trail@.len() ==> cost[#[trigger] trail@[m] as int] < u64::MAX,
                walk@.len() > 0 ==> walk_cost(walk@) <= cost[trail@[i as int] as int],
            decreases i,
        {
            i = i - 1;
            let ghost before = walk@;
            let tile = self.tile_of(trail[i]);
            walk.push(tile);
            proof {
                if before.len() > 0 {
                    lemma_walk_cost_push(before, tile);
                    let c = trail@[i as int] as int;
                    let p = trail@[i + 1] as int;
                    assert(came@[c] == p);
                    assert(c != start);
                    assert(before.last() == walk@[before.len() - 1]);
                } else {
                    assert(walk@.len() == 1);
                }
            }
        }
        proof {
            let len = trail@.len() as int;
            lemma_cell_of_coords(from.x as int, from.y as int, g.width, g.height);
            lemma_cell_of_coords(to.x as int, to.y as int, g.width, g.height);
            assert(walk@[0] == from);
            assert(walk@.last() == to);
            assert forall|m: int| 0 <= m < walk@.len() - 1 implies #[trigger] g.walk_step(walk@, m) by {
                assert(g.cell_step(trail@[len - 1 - m] as int, trail@[len - 2 - m] as int));
            }
            assert(g.is_walk(walk@, from, to));
            assert forall|m: int| 0 <= m < len implies tile_cell(g, #[trigger] walk@[m]) == trail@[len - 1 - m]
                && g.on_map(walk@[m].x as int, walk@[m].y as int) by {
                lemma_coords_of_cell(trail@[len - 1 - m] as int, g.width, g.height);
            }
            assert forall|i: int| 1 <= i < len implies came@[tile_cell(g, #[trigger] walk@[i])] == tile_cell(
                g,
                walk@[i - 1],
            ) by {
                assert(tile_cell(g, walk@[i]) == trail@[len - 1 - i]);
                assert(tile_cell(g, walk@[i - 1]) == trail@[len - 1 - (i - 1)]);
            }
            assert(tile_cell(g, walk@[0]) == start);
            assert(traces(g, came@, goal as int, walk@));
        }
        walk
    }
}

// ─────────────────────────────────────────────────────────────── the text

/// Where the first line break in `text` is, or -1 when there is none.
pub open spec fn first_newline(text: Seq<char>) -> int
    decreases text.len(),
{
    if text.len() == 0 {
        -1
    } else if text[0] == '\n' {
        0
    } else {
        let rest = first_newline(text.drop_first());
        if rest < 0 {
            -1
        } else {
            rest + 1
        }
    }
}

proof fn lemma_first_newline_at(text: Seq<char>, k: int)
    requires
        0 <= k < text.len(),
        text[k] == '\n',
        forall|i: int| 0 <= i < k ==> text[i] != '\n',
    ensures
        first_newline(text) == k,
    decreases k,
{
    if k > 0 {
        lemma_first_newline_at(text.drop_first(), k - 1);
    }
}

proof fn lemma_first_newline_none(text: Seq<char>)
    requires
        forall|i: int| 0 <= i < text.len() ==> text[i] != '\n',
    ensures
        first_newline(text) == -1,
    decreases text.len(),
{
    if text.len() > 0 {
        lemma_first_newline_none(text.drop_first());
    }
}

pub proof fn lemma_first_newline_bounds(text: Seq<char>)
    ensures
        -1 <= first_newline(text) < text.len(),
    decreases text.len(),
{
    if text.len() > 0 {
        lemma_first_newline_bounds(text.drop_first());
    }
}

/// A line as `str::lines` yields it: without the carriage return of a `\r\n` ending.
pub open spec fn without_cr(line: Seq<char>) -> Seq<char> {
    if line.len() > 0 && line.last() == '\r' {
        line.drop_last()
    } else {
        line
    }
}

/// The lines of `text`, as `str::lines` splits them: at every `\n`, with a
/// `\r` right before it dropped, and with the final line ending optional.
pub open spec fn text_lines(text: Seq<char>) -> Seq<Seq<char>>
    decreases text.len(),
{
    if text.len() == 0 {
        seq![]
    } else {
        let i = first_newline(text);
        if i < 0 {
            seq![text]
        } else {
            proof {
                lemma_first_newline_bounds(text);
            }
            seq![without_cr(text.take(i))] + text_lines(text.skip(i + 1))
        }
    }
}

/// Characters across every line.
pub open spec fn total_len(lines: Seq<Seq<char>>) -> int
    decreases lines.len(),
{
    if lines.len() == 0 {
        0
    } else {
        total_len(lines.drop_last()) + lines.last().len()
    }
}

proof fn lemma_total_len_rectangle(lines: Seq<Seq<char>>, width: int)
    requires
        forall|i: int| 0 <= i < lines.len() ==> #[trigger] lines[i].len() == width,
    ensures
        total_len(lines) == width * lines.len(),
    decreases lines.len(),
{
    if lines.len() > 0 {
        lemma_total_len_rectangle(lines.drop_last(), width);
        assert(width * (lines.len() - 1) + width == width * lines.len()) by (nonlinear_arith);
    }
}

fn split_lines(chars: &Vec<char>) -> (rows: Vec<Vec<char>>)
    ensures
        rows@.len() == text_lines(chars@).len(),
        forall|i: int| 0 <= i < rows@.len() ==> #[trigger] rows@[i]@ == text_lines(chars@)[i],
        total_len(text_lines(chars@)) <= chars@.len(),
        text_lines(chars@).len() <= chars@.len() + 1,
{
    let ghost text = chars@;
    let mut rows: Vec<Vec<char>> = Vec::new();
    let mut line: Vec<char> = Vec::new();
    let ghost mut done: Seq<Seq<char>> = seq![];
    let ghost mut start: int = 0;
    let mut i: usize = 0;
    assert(text.skip(0) =~= text);
    assert(seq![] + text_lines(text) =~= text_lines(text));
    while i < chars.len()
        invariant
            text == chars@,
            0 <= start <= i <= text.len(),
            line@ == text.subrange(start, i as int),
            forall|j: int| start <= j < i ==> text[j] != '\n',
            text_lines(text) == done + text_lines(text.skip(start)),
            rows@.len() == done.len(),
            forall|j: int| 0 <= j < rows@.len() ==> #[trigger] rows@[j]@ == done[j],
            total_len(done) + done.len() + line@.len() <= i,
        decreases text.len() - i,
    {
        let c = chars[i];
        if c == '\n' {
            proof {
                let rest = text.skip(start);
                lemma_first_newline_at(rest, i - start);
                assert(rest.take(i - start) =~= line@);
                assert(rest.skip(i - start + 1) =~= text.skip(i + 1));
                assert(text_lines(rest) == seq![without_cr(line@)] + text_lines(text.skip(i + 1)));
            }
            let mut finished = line;
            let ends_in_cr = finished.len() > 0 && finished[finished.len() - 1] == '\r';
            if ends_in_cr {
                finished.pop();
            }
            proof {
                assert(finished@ == without_cr(line@)) by {
                    if ends_in_cr {
                        assert(finished@ =~= line@.drop_last());
                    }
                }
                assert(done.push(finished@).drop_last() =~= done);
                assert((done + seq![finished@]) + text_lines(text.skip(i + 1)) =~= done + (seq![
                    finished@,
                ] + text_lines(text.skip(i + 1))));
                done = done.push(finished@);
                start = i + 1;
            }
            rows.push(finished);
            line = Vec::new();
        } else {
            line.push(c);
        }
        i = i + 1;
    }
    proof {
        let rest = text.skip(start);
        assert(rest =~= line@);
        lemma_first_newline_none(rest);
    }
    if line.len() > 0 {
        proof {
            assert(text_lines(text.skip(start)) == seq![line@]);
            assert(done.push(line@).drop_last() =~= done);
            assert(done + seq![line@] =~= done.push(line@));
            done = done.push(line@);
        }
        rows.push(line);
    } else {
        proof {
            assert(text_lines(text.skip(start)) =~= seq![]);
            assert(done + seq![] =~= done);
        }
    }
    proof {
        lemma_total_len_nonneg(done);
    }
    rows
}

proof fn lemma_total_len_nonneg(lines: Seq<Seq<char>>)
    ensures
        total_len(lines) >= 0,
    decreases lines.len(),
{
    if lines.len() > 0 {
        lemma_total_len_nonneg(lines.drop_last());
    }
}

/// The glyphs a map is drawn in.
pub open spec fn glyph_known(c: char) -> bool {
    c == '#' || c == '+' || c == '.' || c == 'o' || c == '*' || c == 'T' || c == '@'
}

/// The ground under a glyph: `#` jungle, `+` path, `.` `T` `@` town, `o` `*` clearing.
pub open spec fn glyph_terrain(c: char) -> Terrain {
    if c == '+' {
        Terrain::Path
    } else if c == '.' || c == 'T' || c == '@' {
        Terrain::Town
    } else if c == 'o' || c == '*' {
        Terrain::Grove
    } else {
        Terrain::Jungle
    }
}

pub open spec fn tile_at(x: int, y: int) -> Tile {
    Tile { x: x as i32, y: y as i32 }
}

/// The tiles among the first `upto` of row `y` that hold `glyph`, left to right.
pub open spec fn row_glyphs(row: Seq<char>, y: int, glyph: char, upto: int) -> Seq<Tile>
    decreases upto,
{
    if upto <= 0 {
        seq![]
    } else {
        let before = row_glyphs(row, y, glyph, upto - 1);
        if row[upto - 1] == glyph {
            before.push(tile_at(upto - 1, y))
        } else {
            before
        }
    }
}

/// The tiles of the first `upto` rows that hold `glyph`, in reading order.
pub open spec fn grid_glyphs(rows: Seq<Seq<char>>, glyph: char, upto: int) -> Seq<Tile>
    decreases upto,
{
    if upto <= 0 {
        seq![]
    } else {
        grid_glyphs(rows, glyph, upto - 1) + row_glyphs(
            rows[upto - 1],
            upto - 1,
            glyph,
            rows[upto - 1].len() as int,
        )
    }
}

/// The tiles holding `glyph` that are read before cell `x` of row `y`.
pub open spec fn glyphs_before(rows: Seq<Seq<char>>, glyph: char, x: int, y: int) -> Seq<Tile> {
    grid_glyphs(rows, glyph, y) + row_glyphs(rows[y], y, glyph, x)
}

/// Row `y` is not as wide as the first row.
pub open spec fn row_fault(rows: Seq<Seq<char>>, y: int) -> bool {
    rows[y].len() != rows[0].len()
}

/// Cell `x` of row `y` is an unknown glyph, or a second town centre.
pub open spec fn cell_fault(rows: Seq<Seq<char>>, x: int, y: int) -> bool {
    let c = rows[y][x];
    !glyph_known(c) || (c == '@' && glyphs_before(rows, '@', x, y).len() > 0)
}

/// The scan reads each row in two kinds of step: step 0 checks its width,
/// and step `x + 1` reads its cell `x`.
pub open spec fn scan_step(rows: Seq<Seq<char>>, y: int, k: int) -> bool {
    0 <= y < rows.len() && 0 <= k <= rows[0].len()
}

pub open spec fn fault_at(rows: Seq<Seq<char>>, y: int, k: int) -> bool {
    if k == 0 {
        row_fault(rows, y)
    } else {
        k - 1 < rows[y].len() && cell_fault(rows, k - 1, y)
    }
}

pub open spec fn step_earlier(y1: int, k1: int, y2: int, k2: int) -> bool {
    y1 < y2 || (y1 == y2 && k1 < k2)
}

/// No step of the scan before step `k` of row `y` finds a fault.
pub open spec fn clean_before(rows: Seq<Seq<char>>, y: int, k: int) -> bool {
    forall|y2: int, k2: int|
        scan_step(rows, y2, k2) && step_earlier(y2, k2, y, k) ==> !#[trigger] fault_at(rows, y2, k2)
}

/// Step `k` of row `y` is where the scan first finds a fault.
pub open spec fn first_fault(rows: Seq<Seq<char>>, y: int, k: int) -> bool {
    scan_step(rows, y, k) && fault_at(rows, y, k) && clean_before(rows, y, k)
}

pub open spec fn fault_error(rows: Seq<Seq<char>>, y: int, k: int) -> MapError {
    if k == 0 {
        MapError::Ragged { row: y as i32 }
    } else if !glyph_known(rows[y][k - 1]) {
        MapError::Unknown { row: y as i32, column: (k - 1) as i32, found: rows[y][k - 1] }
    } else {
        MapError::TwoTownCentres
    }
}

/// The terrain the rows draw, as a grid as wide as the first row.
pub open spec fn grid_of(rows: Seq<Seq<char>>) -> Grid {
    let w = rows[0].len() as int;
    Grid {
        width: w,
        height: rows.len() as int,
        cells: Seq::new((w * rows.len()) as nat, |i: int| glyph_terrain(rows[i / w][i % w])),
    }
}

/// Node `i` is the first, in reading order, that the town centre cannot reach.
pub open spec fn first_unreachable(g: Grid, centre: Tile, nodes: Seq<Tile>, i: int) -> bool {
    &&& 0 <= i < nodes.len()
    &&& !g.reachable(centre, nodes[i])
    &&& forall|j: int| 0 <= j < i ==> g.reachable(centre, #[trigger] nodes[j])
}

/// The first node, from `i` on, that the centre cannot reach, given that one
/// is unreachable and every node before `i` is reachable.
proof fn lemma_least_unreachable(g: Grid, centre: Tile, nodes: Seq<Tile>, i: int, k: int) -> (m: int)
    requires
        0 <= i <= k < nodes.len(),
        !g.reachable(centre, nodes[k]),
        forall|j: int| 0 <= j < i ==> g.reachable(centre, #[trigger] nodes[j]),
    ensures
        first_unreachable(g, centre, nodes, m),
    decreases k - i,
{
    if !g.reachable(centre, nodes[i]) {
        i
    } else {
        lemma_least_unreachable(g, centre, nodes, i + 1, k)
    }
}

/// A text that is a map has a town centre and a banana node, and the centre
/// reaches every node.
pub proof fn lemma_a_map_reaches_every_node(source: Seq<char>)
    requires
        map_fault(source) is None,
    ensures
        ({
            let rows = text_lines(source);
            let h = rows.len() as int;
            let nodes = grid_glyphs(rows, '*', h);
            &&& nodes.len() > 0
            &&& grid_glyphs(rows, '@', h).len() > 0
            &&& forall|i: int|
                0 <= i < nodes.len() ==> grid_of(rows).reachable(
                    grid_glyphs(rows, '@', h)[0],
                    #[trigger] nodes[i],
                )
        }),
{
    let rows = text_lines(source);
    let h = rows.len() as int;
    let nodes = grid_glyphs(rows, '*', h);
    let centre = grid_glyphs(rows, '@', h)[0];
    assert forall|i: int| 0 <= i < nodes.len() implies grid_of(rows).reachable(centre, #[trigger] nodes[i]) by {
        if !grid_of(rows).reachable(centre, nodes[i]) {
            let m = lemma_least_unreachable(grid_of(rows), centre, nodes, 0, i);
            assert(first_unreachable(grid_of(rows), centre, nodes, m));
        }
    }
}

/// Why `source` is not a map, or `None` when it is one.
pub open spec fn map_fault(source: Seq<char>) -> Option<MapError> {
    let rows = text_lines(source);
    let h = rows.len() as int;
    if rows.len() == 0 || rows[0].len() == 0 {
        Some(MapError::Empty)
    } else if exists|y: int, k: int| first_fault(rows, y, k) {
        let (y, k) = choose|y: int, k: int| first_fault(rows, y, k);
        Some(fault_error(rows, y, k))
    } else if grid_glyphs(rows, '*', h).len() == 0 {
        Some(MapError::NoGrove)
    } else if grid_glyphs(rows, '@', h).len() == 0 {
        Some(MapError::NoTownCentre)
    } else if exists|i: int|
        first_unreachable(grid_of(rows), grid_glyphs(rows, '@', h)[0], grid_glyphs(rows, '*', h), i) {
        let i = choose|i: int|
            first_unreachable(grid_of(rows), grid_glyphs(rows, '@', h)[0], grid_glyphs(rows, '*', h), i);
        Some(MapError::Unreachable(grid_glyphs(rows, '*', h)[i]))
    } else {
        None
    }
}

proof fn lemma_first_fault_unique(rows: Seq<Seq<char>>, y1: int, k1: int, y2: int, k2: int)
    requires
        first_fault(rows, y1, k1),
        first_fault(rows, y2, k2),
    ensures
        y1 == y2 && k1 == k2,
{
    if step_earlier(y1, k1, y2, k2) {
        assert(!fault_at(rows, y1, k1));
    } else if step_earlier(y2, k2, y1, k1) {
        assert(!fault_at(rows, y2, k2));
    }
}

proof fn lemma_first_unreachable_unique(g: Grid, centre: Tile, nodes: Seq<Tile>, i: int, j: int)
    requires
        first_unreachable(g, centre, nodes, i),
        first_unreachable(g, centre, nodes, j),
    ensures
        i == j,
{
    if i < j {
        assert(g.reachable(centre, nodes[i]));
    } else if j < i {
        assert(g.reachable(centre, nodes[j]));
    }
}

proof fn lemma_row_glyphs_len(row: Seq<char>, y: int, glyph: char, upto: int)
    ensures
        row_glyphs(row, y, glyph, upto).len() <= if upto < 0 {
            0
        } else {
            upto
        },
    decreases upto,
{
    if upto > 0 {
        lemma_row_glyphs_len(row, y, glyph, upto - 1);
    }
}

/// The terrain a glyph stands for, read while scanning.
fn terrain_of_glyph(c: char) -> (terrain: Option<Terrain>)
    ensures
        terrain is Some <==> glyph_known(c),
        terrain matches Some(t) ==> t == glyph_terrain(c),
{
    match c {
        '#' => Some(Terrain::Jungle),
        '+' => Some(Terrain::Path),
        '.' | 'T' | '@' => Some(Terrain::Town),
        'o' | '*' => Some(Terrain::Grove),
        _ => None,
    }
}

impl VillageMap {
    /// One character per tile:
    ///
    /// ```text
    /// #  jungle, impassable      *  a clearing holding a banana node
    /// +  the ring path           T  town ground holding a home tree
    /// .  town ground             @  town ground holding the town centre
    /// o  a clearing in the jungle
    /// ```
    ///
    /// More than a lexer: every node is routed from the town centre, which
    /// proves it reachable, so a parsed map has no node a worker cannot walk to.
    #[verifier::rlimit(60)]
    pub fn parse(source: &str) -> (parsed: Result<Self, MapError>)
        requires
            source@.len() <= MAX_CELLS,
        ensures
            match parsed {
                Err(fault) => map_fault(source@) == Some(fault),
                Ok(map) => {
                    let rows = text_lines(source@);
                    let h = rows.len() as int;
                    &&& map_fault(source@) is None
                    &&& map.grid() == grid_of(rows)
                    &&& map.centre() == grid_glyphs(rows, '@', h)[0]
                    &&& map.banana_nodes() == grid_glyphs(rows, '*', h)
                    &&& map.trees() == grid_glyphs(rows, 'T', h)
                    &&& map.banana_nodes().len() > 0
                    &&& forall|i: int|
                        0 <= i < map.banana_nodes().len() ==> map.grid().reachable(
                            map.centre(),
                            #[trigger] map.banana_nodes()[i],
                        )
                    &&& forall|i: int|
                        0 <= i < map.trees().len() ==> map.grid().terrain_at(
                            (#[trigger] map.trees()[i]).x as int,
                            map.trees()[i].y as int,
                        ) == Terrain::Town
                    &&& forall|i: int|
                        0 <= i < map.banana_nodes().len() ==> map.grid().terrain_at(
                            (#[trigger] map.banana_nodes()[i]).x as int,
                            map.banana_nodes()[i].y as int,
                        ) == Terrain::Grove
                    &&& map.grid().terrain_at(map.centre().x as int, map.centre().y as int) == Terrain::Town
                },
            },
    {
        let mut chars: Vec<char> = Vec::new();
        let ghost mut seen: int = 0;
        for c in it: source.chars()
            invariant
                it.seq() == source@,
                chars@ == source@.take(it.index() as int),
                seen == it.index(),
        {
            chars.push(c);
            proof {
                seen = seen + 1;
            }
        }
        assert(chars@ =~= source@.take(seen));
        let rows = split_lines(&chars);
        let ghost lines = text_lines(source@);
        assert(chars@ == source@);
        if rows.len() == 0 || rows[0].len() == 0 {
            return Err(MapError::Empty);
        }
        let width = rows[0].len();
        let height = rows.len();
        let ghost w = width as int;
        let mut terrain: Vec<Terrain> = Vec::new();
        let mut town_centre: Option<Tile> = None;
        let mut nodes: Vec<Tile> = Vec::new();
        let mut home_trees: Vec<Tile> = Vec::new();
        let mut y: usize = 0;
        while y < height
            invariant
                lines == text_lines(source@),
                rows@.len() == lines.len(),
                forall|j: int| 0 <= j < rows@.len() ==> #[trigger] rows@[j]@ == lines[j],
                total_len(lines) <= source@.len() <= MAX_CELLS,
                lines.len() <= source@.len() + 1,
                height == lines.len(),
                width == lines[0].len(),
                w == width,
                0 < width,
                y <= height,
                forall|j: int| 0 <= j < y ==> #[trigger] lines[j].len() == width,
                clean_before(lines, y as int, 0),
                terrain@.len() == y * w,
                forall|i: int| 0 <= i < terrain@.len() ==> #[trigger] terrain@[i] == glyph_terrain(lines[i / w][i % w]),
                nodes@ == grid_glyphs(lines, '*', y as int),
                home_trees@ == grid_glyphs(lines, 'T', y as int),
                town_centre is Some <==> grid_glyphs(lines, '@', y as int).len() > 0,
                town_centre matches Some(t) ==> grid_glyphs(lines, '@', y as int) == seq![t],
            decreases height - y,
        {
            if rows[y].len() != width {
                proof {
                    assert(first_fault(lines, y as int, 0));
                    lemma_first_fault_reported(source@, y as int, 0);
                }
                return Err(MapError::Ragged { row: y as i32 });
            }
            proof {
                assert(lines[y as int].len() == width);
                assert forall|i: int| 0 <= i < lines.take(y + 1).len() implies #[trigger] lines.take(y + 1)[i].len() == w by {
                    assert(lines.take(y + 1)[i] == lines[i]);
                }
                lemma_total_len_rectangle(lines.take(y + 1), w);
                lemma_total_len_prefix(lines, y + 1);
                assert(w * (y + 1) == (y + 1) * w) by (nonlinear_arith);
                assert(!fault_at(lines, y as int, 0));
                lemma_clean_extends(lines, y as int, 0);
                assert(glyphs_before(lines, '*', 0, y as int) =~= grid_glyphs(lines, '*', y as int));
                assert(glyphs_before(lines, 'T', 0, y as int) =~= grid_glyphs(lines, 'T', y as int));
                assert(glyphs_before(lines, '@', 0, y as int) =~= grid_glyphs(lines, '@', y as int));
            }
            let mut x: usize = 0;
            while x < width
                invariant
                    lines == text_lines(source@),
                    rows@.len() == lines.len(),
                    forall|j: int| 0 <= j < rows@.len() ==> #[trigger] rows@[j]@ == lines[j],
                    lines.len() <= source@.len() + 1,
                    source@.len() <= MAX_CELLS,
                    height == lines.len(),
                    width == lines[0].len(),
                    w == width,
                    0 < width,
                    y < height,
                    lines[y as int].len() == width,
                    x <= width,
                    forall|j: int| 0 <= j < y ==> #[trigger] lines[j].len() == width,
                    (y + 1) * w <= MAX_CELLS,
                    clean_before(lines, y as int, x + 1),
                    terrain@.len() == y * w + x,
                    forall|i: int| 0 <= i < terrain@.len() ==> #[trigger] terrain@[i] == glyph_terrain(lines[i / w][i % w]),
                    nodes@ == glyphs_before(lines, '*', x as int, y as int),
                    home_trees@ == glyphs_before(lines, 'T', x as int, y as int),
                    town_centre is Some <==> glyphs_before(lines, '@', x as int, y as int).len() > 0,
                    town_centre matches Some(t) ==> glyphs_before(lines, '@', x as int, y as int) == seq![t],
                decreases width - x,
            {
                let glyph = rows[y][x];
                let here = Tile::new(x as i32, y as i32);
                proof {
                    assert(glyph == lines[y as int][x as int]);
                    assert(here == tile_at(x as int, y as int));
                }
                let ground = match terrain_of_glyph(glyph) {
                    Some(ground) => ground,
                    None => {
                        proof {
                            assert(fault_at(lines, y as int, x + 1));
                            lemma_first_fault_reported(source@, y as int, x + 1);
                        }
                        return Err(MapError::Unknown { row: y as i32, column: x as i32, found: glyph });
                    },
                };
                if glyph == '@' {
                    if town_centre.is_some() {
                        proof {
                            assert(fault_at(lines, y as int, x + 1));
                            lemma_first_fault_reported(source@, y as int, x + 1);
                        }
                        return Err(MapError::TwoTownCentres);
                    }
                    town_centre = Some(here);
                } else if glyph == '*' {
                    nodes.push(here);
                } else if glyph == 'T' {
                    home_trees.push(here);
                }
                proof {
                    lemma_cell_of_coords(x as int, y as int, w, (y + 1) as int);
                    assert(terrain@.len() == y * w + x);
                }
                terrain.push(ground);
                proof {
                    assert(!fault_at(lines, y as int, x + 1));
                    lemma_clean_extends(lines, y as int, x + 1);
                    assert(glyphs_before(lines, '@', x + 1, y as int) =~= glyphs_before(lines, '@', x as int, y as int) + if glyph == '@' {
                        seq![here]
                    } else {
                        seq![]
                    });
                    assert(glyphs_before(lines, '*', x + 1, y as int) =~= glyphs_before(lines, '*', x as int, y as int) + if glyph == '*' {
                        seq![here]
                    } else {
                        seq![]
                    });
                    assert(glyphs_before(lines, 'T', x + 1, y as int) =~= glyphs_before(lines, 'T', x as int, y as int) + if glyph == 'T' {
                        seq![here]
                    } else {
                        seq![]
                    });
                }
                x = x + 1;
            }
            proof {
                assert(grid_glyphs(lines, '*', y + 1) =~= glyphs_before(lines, '*', w, y as int));
                assert(grid_glyphs(lines, 'T', y + 1) =~= glyphs_before(lines, 'T', w, y as int));
                assert(grid_glyphs(lines, '@', y + 1) =~= glyphs_before(lines, '@', w, y as int));
                lemma_row_end_clean(lines, y as int);
                assert((y + 1) * w == y * w + w) by (nonlinear_arith);
            }
            y = y + 1;
        }
        let ghost h = height as int;
        proof {
            lemma_total_len_rectangle(lines, w);
            lemma_no_fault_anywhere(lines);
            assert(w * h <= MAX_CELLS);
            assert(h * w == w * h) by (nonlinear_arith);
            assert(terrain@.len() == w * h);
            assert(w <= w * h) by (nonlinear_arith)
                requires
                    1 <= h,
                    1 <= w,
            ;
            assert(h <= w * h) by (nonlinear_arith)
                requires
                    1 <= h,
                    1 <= w,
            ;
            assert(width as i32 as int == w);
            assert(height as i32 as int == h);
        }
        if nodes.len() == 0 {
            return Err(MapError::NoGrove);
        }
        let centre = match town_centre {
            Some(centre) => centre,
            None => {
                return Err(MapError::NoTownCentre);
            },
        };
        let ghost terrain_len = terrain@.len() as int;
        let map = VillageMap {
            width: width as i32,
            height: height as i32,
            terrain,
            town_centre: centre,
            nodes,
            home_trees,
        };
        proof {
            assert(map.grid().width == w);
            assert(map.grid().height == h);
            assert forall|i: int| 0 <= i < terrain_len implies #[trigger] map.grid().cells[i] == grid_of(lines).cells[i] by {
                assert(map.terrain@[i] == glyph_terrain(lines[i / w][i % w]));
            }
            assert(map.grid().cells =~= grid_of(lines).cells);
            assert(map.grid() == grid_of(lines));
        }
        let mut i: usize = 0;
        while i < map.nodes.len()
            invariant
                lines == text_lines(source@),
                lines.len() > 0,
                lines[0].len() > 0,
                h == lines.len(),
                forall|y: int, k: int| !first_fault(lines, y, k),
                grid_glyphs(lines, '@', h).len() > 0,
                map.grid() == grid_of(lines),
                map.centre() == grid_glyphs(lines, '@', h)[0],
                map.banana_nodes() == grid_glyphs(lines, '*', h),
                i <= map.nodes@.len(),
                forall|j: int| 0 <= j < i ==> map.grid().reachable(map.centre(), #[trigger] map.nodes@[j]),
            decreases map.nodes@.len() - i,
        {
            let node = map.nodes[i];
            if map.search(map.town_centre, node).is_none() {
                proof {
                    assert(!(lines.len() == 0 || lines[0].len() == 0));
                    assert(!exists|y: int, k: int| first_fault(lines, y, k));
                    assert(grid_glyphs(lines, '*', h).len() != 0);
                    assert(grid_glyphs(lines, '@', h).len() != 0);
                    assert(first_unreachable(map.grid(), map.centre(), map.banana_nodes(), i as int));
                    lemma_first_unreachable_unique(
                        map.grid(),
                        map.centre(),
                        map.banana_nodes(),
                        i as int,
                        choose|j: int| first_unreachable(grid_of(lines), grid_glyphs(lines, '@', h)[0], grid_glyphs(lines, '*', h), j),
                    );
                }
                return Err(MapError::Unreachable(node));
            }
            i = i + 1;
        }
        proof {
            assert forall|j: int| !first_unreachable(map.grid(), map.centre(), map.banana_nodes(), j) by {
                if 0 <= j < map.nodes@.len() {
                    assert(map.grid().reachable(map.centre(), map.nodes@[j]));
                }
            }
            lemma_a_map_reaches_every_node(source@);
            lemma_trees_nodes_and_centre_stand_on_their_ground(source@, map);
        }
        Ok(map)
    }
}

/// When the scan stops at a fault, the fault it reports is the first one.
proof fn lemma_first_fault_reported(source: Seq<char>, y: int, k: int)
    requires
        first_fault(text_lines(source), y, k),
        text_lines(source).len() > 0,
        text_lines(source)[0].len() > 0,
    ensures
        map_fault(source) == Some(fault_error(text_lines(source), y, k)),
{
    let rows = text_lines(source);
    let (y2, k2) = choose|y: int, k: int| first_fault(rows, y, k);
    lemma_first_fault_unique(rows, y, k, y2, k2);
}

proof fn lemma_total_len_prefix(lines: Seq<Seq<char>>, y: int)
    requires
        0 <= y <= lines.len(),
    ensures
        total_len(lines.take(y)) <= total_len(lines),
    decreases lines.len(),
{
    if y < lines.len() {
        assert(lines.drop_last().take(y) =~= lines.take(y));
        lemma_total_len_prefix(lines.drop_last(), y);
    } else {
        assert(lines.take(y) =~= lines);
    }
}

/// A step that finds nothing wrong moves the clean prefix on by one.
proof fn lemma_clean_extends(rows: Seq<Seq<char>>, y: int, k: int)
    requires
        clean_before(rows, y, k),
        !fault_at(rows, y, k),
    ensures
        clean_before(rows, y, k + 1),
{
    assert forall|y2: int, k2: int|
        scan_step(rows, y2, k2) && step_earlier(y2, k2, y, k + 1) implies !#[trigger] fault_at(rows, y2, k2) by {
        if !(y2 == y && k2 == k) {
            assert(step_earlier(y2, k2, y, k));
        }
    }
}

/// A row read to its end without a fault hands a clean prefix to the next row.
proof fn lemma_row_end_clean(rows: Seq<Seq<char>>, y: int)
    requires
        rows.len() > 0,
        clean_before(rows, y, rows[0].len() + 1 as int),
    ensures
        clean_before(rows, y + 1, 0),
{
    assert forall|y2: int, k2: int|
        scan_step(rows, y2, k2) && step_earlier(y2, k2, y + 1, 0) implies !#[trigger] fault_at(rows, y2, k2) by {
        assert(step_earlier(y2, k2, y, rows[0].len() + 1 as int));
    }
}

/// A scan that reaches the end clean has no first fault to report.
proof fn lemma_no_fault_anywhere(rows: Seq<Seq<char>>)
    requires
        clean_before(rows, rows.len() as int, 0),
    ensures
        forall|y: int, k: int| !first_fault(rows, y, k),
{
    assert forall|y: int, k: int| !first_fault(rows, y, k) by {
        if scan_step(rows, y, k) {
            assert(step_earlier(y, k, rows.len() as int, 0));
        }
    }
}

/// A fault anywhere in the scan means there is a first one.
proof fn lemma_a_fault_has_a_first(rows: Seq<Seq<char>>, y: int, k: int)
    requires
        rows.len() > 0,
        scan_step(rows, y, k),
        fault_at(rows, y, k),
    ensures
        exists|y2: int, k2: int| first_fault(rows, y2, k2),
    decreases y * (rows[0].len() + 1) + k,
{
    let w = rows[0].len() as int;
    assert(0 <= y * (w + 1)) by (nonlinear_arith)
        requires
            0 <= y,
            0 <= w,
    ;
    if !clean_before(rows, y, k) {
        let (y2, k2) = choose|y2: int, k2: int|
            scan_step(rows, y2, k2) && step_earlier(y2, k2, y, k) && #[trigger] fault_at(rows, y2, k2);
        assert(y2 * (w + 1) + k2 < y * (w + 1) + k) by (nonlinear_arith)
            requires
                0 <= k2 <= w,
                0 <= k <= w,
                y2 < y || (y2 == y && k2 < k),
        ;
        assert(0 <= y2 * (w + 1)) by (nonlinear_arith)
            requires
                0 <= y2,
                0 <= w,
        ;
        lemma_a_fault_has_a_first(rows, y2, k2);
    } else {
        assert(first_fault(rows, y, k));
    }
}

/// A text that is a map draws a rectangle: every row is as wide as the first.
proof fn lemma_a_map_is_a_rectangle(source: Seq<char>)
    requires
        map_fault(source) is None,
    ensures
        text_lines(source).len() > 0,
        text_lines(source)[0].len() > 0,
        forall|y: int|
            0 <= y < text_lines(source).len() ==> #[trigger] text_lines(source)[y].len() == text_lines(
                source,
            )[0].len(),
{
    let rows = text_lines(source);
    assert forall|y: int| 0 <= y < rows.len() implies #[trigger] rows[y].len() == rows[0].len() by {
        if rows[y].len() != rows[0].len() {
            assert(fault_at(rows, y, 0));
            lemma_a_fault_has_a_first(rows, y, 0);
        }
    }
}

/// Where the `i`th tile of row `y` holding `glyph` stands.
proof fn lemma_row_glyph_at(row: Seq<char>, y: int, glyph: char, upto: int, i: int) -> (x: int)
    requires
        0 <= i < row_glyphs(row, y, glyph, upto).len(),
    ensures
        0 <= x < upto,
        row[x] == glyph,
        row_glyphs(row, y, glyph, upto)[i] == tile_at(x, y),
    decreases upto,
{
    let before = row_glyphs(row, y, glyph, upto - 1);
    if row[upto - 1] == glyph && i == before.len() {
        upto - 1
    } else {
        lemma_row_glyph_at(row, y, glyph, upto - 1, i)
    }
}

/// Where the `i`th tile of the first `upto` rows holding `glyph` stands.
proof fn lemma_grid_glyph_at(rows: Seq<Seq<char>>, glyph: char, upto: int, i: int) -> (at: (int, int))
    requires
        upto <= rows.len(),
        0 <= i < grid_glyphs(rows, glyph, upto).len(),
    ensures
        0 <= at.1 < upto,
        0 <= at.0 < rows[at.1].len(),
        rows[at.1][at.0] == glyph,
        grid_glyphs(rows, glyph, upto)[i] == tile_at(at.0, at.1),
    decreases upto,
{
    let before = grid_glyphs(rows, glyph, upto - 1);
    let row = row_glyphs(rows[upto - 1], upto - 1, glyph, rows[upto - 1].len() as int);
    if i < before.len() {
        assert(grid_glyphs(rows, glyph, upto)[i] == before[i]);
        lemma_grid_glyph_at(rows, glyph, upto - 1, i)
    } else {
        assert(grid_glyphs(rows, glyph, upto)[i] == row[i - before.len()]);
        let x = lemma_row_glyph_at(rows[upto - 1], upto - 1, glyph, rows[upto - 1].len() as int, i - before.len());
        (x, upto - 1)
    }
}

/// The `i`th tile holding `glyph` in a map's text lies on the map, where the
/// map's ground is the ground that glyph stands for.
proof fn lemma_glyph_tile_ground(source: Seq<char>, map: VillageMap, glyph: char, i: int)
    requires
        map_fault(source) is None,
        map.grid() == grid_of(text_lines(source)),
        0 <= i < grid_glyphs(text_lines(source), glyph, text_lines(source).len() as int).len(),
    ensures
        ({
            let t = grid_glyphs(text_lines(source), glyph, text_lines(source).len() as int)[i];
            &&& map.grid().on_map(t.x as int, t.y as int)
            &&& map.grid().terrain_at(t.x as int, t.y as int) == glyph_terrain(glyph)
        }),
{
    let rows = text_lines(source);
    let h = rows.len() as int;
    lemma_a_map_is_a_rectangle(source);
    let (x, y) = lemma_grid_glyph_at(rows, glyph, h, i);
    let w = rows[0].len() as int;
    assert(rows[y].len() == w);
    assert(map.grid().width == map.width as int);
    assert(map.grid().height == map.height as int);
    assert(tile_at(x, y).x as int == x && tile_at(x, y).y as int == y);
    lemma_cell_of_coords(x, y, w, h);
}

/// Every tile of a map drawn with a glyph stands on the ground that glyph
/// stands for: each home tree on town ground, each banana node in a clearing,
/// and the town centre on town ground. So every one of them is open ground.
pub proof fn lemma_trees_nodes_and_centre_stand_on_their_ground(source: Seq<char>, map: VillageMap)
    requires
        map_fault(source) is None,
        map.grid() == grid_of(text_lines(source)),
        map.trees() == grid_glyphs(text_lines(source), 'T', text_lines(source).len() as int),
        map.banana_nodes() == grid_glyphs(text_lines(source), '*', text_lines(source).len() as int),
        map.centre() == grid_glyphs(text_lines(source), '@', text_lines(source).len() as int)[0],
    ensures
        forall|i: int|
            0 <= i < map.trees().len() ==> map.grid().terrain_at(
                (#[trigger] map.trees()[i]).x as int,
                map.trees()[i].y as int,
            ) == Terrain::Town,
        forall|i: int|
            0 <= i < map.banana_nodes().len() ==> map.grid().terrain_at(
                (#[trigger] map.banana_nodes()[i]).x as int,
                map.banana_nodes()[i].y as int,
            ) == Terrain::Grove,
        map.grid().terrain_at(map.centre().x as int, map.centre().y as int) == Terrain::Town,
{
    assert forall|i: int| 0 <= i < map.trees().len() implies map.grid().terrain_at(
        (#[trigger] map.trees()[i]).x as int,
        map.trees()[i].y as int,
    ) == Terrain::Town by {
        lemma_glyph_tile_ground(source, map, 'T', i);
    }
    assert forall|i: int| 0 <= i < map.banana_nodes().len() implies map.grid().terrain_at(
        (#[trigger] map.banana_nodes()[i]).x as int,
        map.banana_nodes()[i].y as int,
    ) == Terrain::Grove by {
        lemma_glyph_tile_ground(source, map, '*', i);
    }
    lemma_a_map_reaches_every_node(source);
    lemma_glyph_tile_ground(source, map, '@', 0);
}

} // verus!
