//! Why the search's walk is a cheapest one.
//!
//! The octile estimate never overstates what is left of a walk and never drops
//! by more than one move costs, so the cell the queue hands out next is always
//! reached as cheaply as it can be. These are the cost model, the estimate's
//! two properties, and the bookkeeping the search keeps to carry that argument
//! from one expansion to the next.

use vstd::prelude::*;
use crate::map::{
    abs_diff, entry_before, lemma_cell_of_coords, lemma_coords_of_cell, lemma_every_move_is_tried,
    move_dx, move_dy, move_target, octile, queue_live, search_books, Grid, Tile, DIAGONAL_STEP,
    MAX_CELLS, STEP,
};

verus! {

// ────────────────────────────────────────────────────────── the cost model

/// What one move costs: a diagonal more than a step along a row or column.
pub open spec fn move_cost(a: Tile, b: Tile) -> int {
    if a.x != b.x && a.y != b.y {
        DIAGONAL_STEP as int
    } else {
        STEP as int
    }
}

/// What a walk costs: every move of it, summed.
pub open spec fn walk_cost(walk: Seq<Tile>) -> int
    decreases walk.len(),
{
    if walk.len() <= 1 {
        0
    } else {
        walk_cost(walk.drop_last()) + move_cost(walk[walk.len() - 2], walk.last())
    }
}

/// `walk` goes from `from` to `to`, and no walk between them costs less.
pub open spec fn cheapest_walk(g: Grid, walk: Seq<Tile>, from: Tile, to: Tile) -> bool {
    &&& g.is_walk(walk, from, to)
    &&& forall|other: Seq<Tile>| #[trigger] g.is_walk(other, from, to) ==> walk_cost(walk) <= walk_cost(other)
}

/// The octile distance from `t` to `to`: what the cheapest walk between them
/// would cost with no jungle in the way.
pub open spec fn tile_estimate(t: Tile, to: Tile) -> int {
    octile(abs_diff(t.x as int, to.x as int), abs_diff(t.y as int, to.y as int))
}

/// The tile a cell index names.
pub open spec fn cell_tile(g: Grid, c: int) -> Tile {
    Tile { x: g.cell_x(c) as i32, y: g.cell_y(c) as i32 }
}

/// What the move between two cells costs.
pub open spec fn cell_move_cost(g: Grid, c: int, d: int) -> int {
    if g.cell_x(c) != g.cell_x(d) && g.cell_y(c) != g.cell_y(d) {
        DIAGONAL_STEP as int
    } else {
        STEP as int
    }
}

/// The estimate of the walk left from cell `c` to `to`.
pub open spec fn estimate_of(g: Grid, c: int, to: Tile) -> int {
    octile(abs_diff(g.cell_x(c), to.x as int), abs_diff(g.cell_y(c), to.y as int))
}

pub proof fn lemma_walk_cost_push(walk: Seq<Tile>, t: Tile)
    requires
        walk.len() >= 1,
    ensures
        walk_cost(walk.push(t)) == walk_cost(walk) + move_cost(walk.last(), t),
{
    assert(walk.push(t).drop_last() =~= walk);
}

pub proof fn lemma_walk_cost_nonneg(walk: Seq<Tile>)
    ensures
        walk_cost(walk) >= 0,
    decreases walk.len(),
{
    if walk.len() > 1 {
        lemma_walk_cost_nonneg(walk.drop_last());
    }
}

/// Cutting a walk at its `i`th tile splits its cost between the two parts.
pub proof fn lemma_walk_cost_split(walk: Seq<Tile>, i: int, j: int)
    requires
        0 <= i <= j < walk.len(),
    ensures
        walk_cost(walk.subrange(0, j + 1)) == walk_cost(walk.subrange(0, i + 1)) + walk_cost(
            walk.subrange(i, j + 1),
        ),
    decreases j,
{
    if j > i {
        lemma_walk_cost_split(walk, i, j - 1);
        assert(walk.subrange(0, j + 1).drop_last() =~= walk.subrange(0, j));
        assert(walk.subrange(i, j + 1).drop_last() =~= walk.subrange(i, j));
    } else {
        assert(walk.subrange(i, j + 1).len() == 1);
    }
}

/// One move lowers the estimate by at most what the move costs.
pub proof fn lemma_estimate_step(g: Grid, a: Tile, b: Tile, to: Tile)
    requires
        g.step_ok(a.x as int, a.y as int, b.x as int, b.y as int),
    ensures
        tile_estimate(a, to) <= move_cost(a, b) + tile_estimate(b, to),
{
}

/// Along a walk, the estimate never drops by more than the walk costs.
pub proof fn lemma_estimate_along(g: Grid, walk: Seq<Tile>, i: int, j: int, to: Tile)
    requires
        0 <= i <= j < walk.len(),
        forall|k: int| 0 <= k < walk.len() - 1 ==> #[trigger] g.walk_step(walk, k),
    ensures
        tile_estimate(walk[i], to) <= walk_cost(walk.subrange(i, j + 1)) + tile_estimate(
            walk[j],
            to,
        ),
    decreases j,
{
    if j > i {
        lemma_estimate_along(g, walk, i, j - 1, to);
        assert(g.walk_step(walk, j - 1));
        lemma_estimate_step(g, walk[j - 1], walk[j], to);
        assert(walk.subrange(i, j + 1).drop_last() =~= walk.subrange(i, j));
    } else {
        assert(walk.subrange(i, j + 1).len() == 1);
    }
}

/// Every prefix of a walk is a walk to the tile it stops at.
pub proof fn lemma_walk_prefix(g: Grid, walk: Seq<Tile>, from: Tile, to: Tile, k: int)
    requires
        g.is_walk(walk, from, to),
        0 <= k < walk.len(),
    ensures
        g.is_walk(walk.subrange(0, k + 1), from, walk[k]),
{
    let p = walk.subrange(0, k + 1);
    assert forall|i: int| 0 <= i < p.len() - 1 implies #[trigger] g.walk_step(p, i) by {
        assert(g.walk_step(walk, i));
    }
}

/// The tile of a cell is on the map and names that cell back.
pub proof fn lemma_cell_tile(g: Grid, c: int)
    requires
        0 < g.width,
        0 < g.height,
        g.cell_count() <= MAX_CELLS,
        0 <= c < g.cell_count(),
    ensures
        g.on_map(cell_tile(g, c).x as int, cell_tile(g, c).y as int),
        cell_tile(g, c).x == g.cell_x(c),
        cell_tile(g, c).y == g.cell_y(c),
        cell_tile(g, c).y * g.width + cell_tile(g, c).x == c,
{
    lemma_coords_of_cell(c, g.width, g.height);
    assert(g.width <= MAX_CELLS) by (nonlinear_arith)
        requires
            0 < g.height,
            0 < g.width,
            g.width * g.height <= MAX_CELLS,
    ;
    assert(g.height <= MAX_CELLS) by (nonlinear_arith)
        requires
            0 < g.height,
            0 < g.width,
            g.width * g.height <= MAX_CELLS,
    ;
}


/// The cell a tile names.
pub open spec fn tile_cell(g: Grid, t: Tile) -> int {
    t.y * g.width + t.x
}

pub proof fn lemma_tile_cell(g: Grid, t: Tile)
    requires
        g.on_map(t.x as int, t.y as int),
    ensures
        0 <= tile_cell(g, t) < g.cell_count(),
        g.cell_x(tile_cell(g, t)) == t.x,
        g.cell_y(tile_cell(g, t)) == t.y,
        cell_tile(g, tile_cell(g, t)) == t,
{
    lemma_cell_of_coords(t.x as int, t.y as int, g.width, g.height);
}

// ──────────────────────────────────────────────────────────── the books

/// Every reached cell other than the start was reached from the cell it
/// records, at no less than that cell's cost plus the move.
pub open spec fn came_cheaply(g: Grid, start: int, cost: Seq<u64>, came: Seq<usize>) -> bool {
    forall|c: int|
        0 <= c < g.cell_count() && #[trigger] cost[c] < u64::MAX && c != start ==> cost[came[c] as int]
            + cell_move_cost(g, came[c] as int, c) <= cost[c]
}

/// What the search keeps true so that the cell it expands next is reached as
/// cheaply as it can be:
/// - the cheapness of every recorded predecessor;
/// - no queued estimate below the cell's cost plus its estimate;
/// - every reached, unexpanded cell queued at exactly its cost plus estimate;
/// - every expanded cell reached at no more than any walk to it costs;
/// - every move out of an expanded cell other than `busy` tried.
#[verifier::opaque]
pub open spec fn cheapest_books(
    g: Grid,
    from: Tile,
    to: Tile,
    start: int,
    cost: Seq<u64>,
    came: Seq<usize>,
    closed: Seq<bool>,
    open: Seq<(u64, usize)>,
    busy: int,
) -> bool {
    let n = g.cell_count();
    &&& came_cheaply(g, start, cost, came)
    &&& forall|i: int|
        0 <= i < open.len() ==> (#[trigger] open[i]).0 >= cost[open[i].1 as int] + estimate_of(
            g,
            open[i].1 as int,
            to,
        )
    &&& forall|c: int|
        0 <= c < n && #[trigger] cost[c] < u64::MAX && !closed[c] ==> exists|i: int|
            0 <= i < open.len() && (#[trigger] open[i]).1 == c && open[i].0 == cost[c] + estimate_of(
                g,
                c,
                to,
            )
    &&& forall|c: int, w: Seq<Tile>|
        0 <= c < n && closed[c] && #[trigger] g.is_walk(w, from, cell_tile(g, c)) ==> cost[c]
            <= walk_cost(w)
    &&& forall|c: int, d: int|
        0 <= c < n && 0 <= d < n && closed[c] && c != busy && #[trigger] g.cell_step(c, d)
            ==> cost[d] <= cost[c] + cell_move_cost(g, c, d)
}

/// The shape every search state has: a map of some size, searched from an
/// open tile on it.
pub open spec fn search_frame(g: Grid, from: Tile, start: int) -> bool {
    &&& 0 < g.width
    &&& 0 < g.height
    &&& g.cell_count() <= MAX_CELLS
    &&& g.on_map(from.x as int, from.y as int)
    &&& g.open_at(from.x as int, from.y as int)
    &&& start == tile_cell(g, from)
}

/// Every reached cell is reached by some walk from the start, costing no more
/// than the cell's recorded cost: follow the recorded predecessors back.
pub proof fn lemma_reached_by_a_walk(
    g: Grid,
    from: Tile,
    start: int,
    goal: int,
    cost: Seq<u64>,
    came: Seq<usize>,
    closed: Seq<bool>,
    expanded: nat,
    c: int,
) -> (walk: Seq<Tile>)
    requires
        search_frame(g, from, start),
        search_books(g, start, goal, cost, came, closed, expanded),
        came_cheaply(g, start, cost, came),
        0 <= c < g.cell_count(),
        cost[c] < u64::MAX,
    ensures
        g.is_walk(walk, from, cell_tile(g, c)),
        walk_cost(walk) <= cost[c],
    decreases cost[c],
{
    lemma_tile_cell(g, from);
    if c == start {
        seq![from]
    } else {
        let p = came[c] as int;
        assert(cost[p] < cost[c]);
        let before = lemma_reached_by_a_walk(g, from, start, goal, cost, came, closed, expanded, p);
        lemma_cell_tile(g, p);
        lemma_cell_tile(g, c);
        let walk = before.push(cell_tile(g, c));
        lemma_walk_cost_push(before, cell_tile(g, c));
        assert(g.cell_step(p, c));
        assert forall|i: int| 0 <= i < walk.len() - 1 implies #[trigger] g.walk_step(walk, i) by {
            if i < walk.len() - 2 {
                assert(g.walk_step(before, i));
            }
        }
        walk
    }
}

/// The first tile of a walk whose cell is not yet expanded, given that its
/// last tile's cell is not.
proof fn lemma_first_unexpanded(g: Grid, walk: Seq<Tile>, closed: Seq<bool>, i: int) -> (m: int)
    requires
        0 <= i < walk.len(),
        forall|k: int| 0 <= k < walk.len() ==> 0 <= #[trigger] tile_cell(g, walk[k]) < closed.len(),
        forall|k: int| 0 <= k < i ==> closed[#[trigger] tile_cell(g, walk[k])],
        !closed[tile_cell(g, walk.last())],
    ensures
        i <= m < walk.len(),
        !closed[tile_cell(g, walk[m])],
        forall|k: int| 0 <= k < m ==> closed[#[trigger] tile_cell(g, walk[k])],
    decreases walk.len() - i,
{
    if !closed[tile_cell(g, walk[i])] {
        i
    } else {
        lemma_first_unexpanded(g, walk, closed, i + 1)
    }
}

/// The entry the queue hands out next names a cell reached as cheaply as any
/// walk reaches it: the walk's first unexpanded cell is queued at no more than
/// the walk's cost plus the estimate at its end.
proof fn lemma_popped_against(
    g: Grid,
    from: Tile,
    to: Tile,
    start: int,
    goal: int,
    cost: Seq<u64>,
    came: Seq<usize>,
    closed: Seq<bool>,
    expanded: nat,
    open: Seq<(u64, usize)>,
    k: int,
    walk: Seq<Tile>,
)
    requires
        search_frame(g, from, start),
        search_books(g, start, goal, cost, came, closed, expanded),
        expanded <= g.cell_count(),
        cheapest_books(g, from, to, start, cost, came, closed, open, -1),
        queue_live(g.cell_count(), cost, open),
        0 <= k < open.len(),
        forall|i: int| 0 <= i < open.len() ==> !entry_before(#[trigger] open[i], open[k]),
        !closed[open[k].1 as int],
        g.is_walk(walk, from, cell_tile(g, open[k].1 as int)),
    ensures
        cost[open[k].1 as int] <= walk_cost(walk),
{
    reveal(cheapest_books);
    let n = g.cell_count();
    let c = open[k].1 as int;
    let len = walk.len() as int;
    lemma_cell_tile(g, c);
    assert forall|i: int| 0 <= i < len implies g.on_map(#[trigger] walk[i].x as int, walk[i].y as int) by {
        if i > 0 {
            assert(g.walk_step(walk, i - 1));
        }
    }
    assert forall|i: int| 0 <= i < len implies 0 <= #[trigger] tile_cell(g, walk[i]) < closed.len() by {
        lemma_tile_cell(g, walk[i]);
    }
    lemma_tile_cell(g, walk.last());
    assert(tile_cell(g, walk.last()) == c);
    let m = lemma_first_unexpanded(g, walk, closed, 0);
    let cm = tile_cell(g, walk[m]);
    lemma_tile_cell(g, walk[m]);
    // The walk's first unexpanded cell is reached at no more than the walk's cost up to it.
    assert(cost[cm] <= walk_cost(walk.subrange(0, m + 1)) && cost[cm] < u64::MAX) by {
        if m == 0 {
            lemma_tile_cell(g, from);
            assert(walk.subrange(0, 1).len() == 1);
        } else {
            let cp = tile_cell(g, walk[m - 1]);
            lemma_tile_cell(g, walk[m - 1]);
            assert(closed[cp]);
            lemma_walk_prefix(g, walk, from, cell_tile(g, c), m - 1);
            assert(g.is_walk(walk.subrange(0, m), from, cell_tile(g, cp)));
            assert(cost[cp] <= walk_cost(walk.subrange(0, m)));
            assert(g.walk_step(walk, m - 1));
            assert(g.cell_step(cp, cm));
            assert(cost[cm] <= cost[cp] + cell_move_cost(g, cp, cm));
            assert(walk.subrange(0, m + 1).drop_last() =~= walk.subrange(0, m));
            assert(cost[cp] <= expanded * DIAGONAL_STEP);
            assert(expanded * DIAGONAL_STEP <= MAX_CELLS * DIAGONAL_STEP) by (nonlinear_arith)
                requires
                    expanded <= MAX_CELLS,
            ;
        }
    }
    // It is queued at exactly its cost plus its estimate, which the popped entry does not exceed.
    let j = choose|j: int| 0 <= j < open.len() && (#[trigger] open[j]).1 == cm && open[j].0 == cost[cm]
        + estimate_of(g, cm, to);
    assert(!entry_before(open[j], open[k]));
    assert(open[k].0 >= cost[c] + estimate_of(g, c, to));
    lemma_estimate_along(g, walk, m, len - 1, to);
    lemma_walk_cost_split(walk, m, len - 1);
    assert(walk.subrange(0, len) =~= walk);
}

/// The entry the queue hands out next names a cell no walk reaches more cheaply.
pub proof fn lemma_popped_is_cheapest(
    g: Grid,
    from: Tile,
    to: Tile,
    start: int,
    goal: int,
    cost: Seq<u64>,
    came: Seq<usize>,
    closed: Seq<bool>,
    expanded: nat,
    open: Seq<(u64, usize)>,
    k: int,
)
    requires
        search_frame(g, from, start),
        search_books(g, start, goal, cost, came, closed, expanded),
        expanded <= g.cell_count(),
        cheapest_books(g, from, to, start, cost, came, closed, open, -1),
        queue_live(g.cell_count(), cost, open),
        0 <= k < open.len(),
        forall|i: int| 0 <= i < open.len() ==> !entry_before(#[trigger] open[i], open[k]),
        !closed[open[k].1 as int],
    ensures
        forall|walk: Seq<Tile>|
            #[trigger] g.is_walk(walk, from, cell_tile(g, open[k].1 as int)) ==> cost[open[k].1 as int]
                <= walk_cost(walk),
{
    assert forall|walk: Seq<Tile>| #[trigger]
        g.is_walk(walk, from, cell_tile(g, open[k].1 as int)) implies cost[open[k].1 as int] <= walk_cost(
        walk,
    ) by {
        lemma_popped_against(g, from, to, start, goal, cost, came, closed, expanded, open, k, walk);
    }
}


/// The books of a search that has reached only its start.
pub proof fn lemma_cheapest_books_start(
    g: Grid,
    from: Tile,
    to: Tile,
    start: int,
    cost: Seq<u64>,
    came: Seq<usize>,
    closed: Seq<bool>,
    open: Seq<(u64, usize)>,
)
    requires
        search_frame(g, from, start),
        cost.len() == g.cell_count(),
        closed.len() == g.cell_count(),
        forall|c: int| 0 <= c < g.cell_count() && c != start ==> cost[c] == u64::MAX,
        cost[start] == 0,
        forall|c: int| 0 <= c < g.cell_count() ==> !closed[c],
        open.len() == 1,
        open[0].0 == tile_estimate(from, to),
        open[0].1 == start,
    ensures
        cheapest_books(g, from, to, start, cost, came, closed, open, -1),
{
    reveal(cheapest_books);
    lemma_tile_cell(g, from);
    assert forall|c: int|
        0 <= c < g.cell_count() && #[trigger] cost[c] < u64::MAX && !closed[c] implies exists|i: int|
            0 <= i < open.len() && (#[trigger] open[i]).1 == c && open[i].0 == cost[c] + estimate_of(g, c, to) by {
        assert(c == start);
        assert(open[0].1 == c);
    }
}

/// Taking an entry of a cell off the queue keeps every other reached,
/// unexpanded cell queued at its exact cost and estimate.
proof fn lemma_pop_keeps_exact_entries(
    g: Grid,
    to: Tile,
    cost: Seq<u64>,
    closed: Seq<bool>,
    before: Seq<(u64, usize)>,
    open: Seq<(u64, usize)>,
    k: int,
    c: int,
)
    requires
        0 <= k < before.len(),
        open == before.update(k, before.last()).drop_last(),
        c != before[k].1,
        exists|i: int|
            0 <= i < before.len() && (#[trigger] before[i]).1 == c && before[i].0 == cost[c] + estimate_of(g, c, to),
    ensures
        exists|i: int|
            0 <= i < open.len() && (#[trigger] open[i]).1 == c && open[i].0 == cost[c] + estimate_of(g, c, to),
{
    let i = choose|i: int|
        0 <= i < before.len() && (#[trigger] before[i]).1 == c && before[i].0 == cost[c] + estimate_of(g, c, to);
    if i == before.len() - 1 {
        assert(open[k] == before[i]);
    } else {
        assert(open[i] == before[i]);
    }
}

/// Expanding the cell the queue handed out keeps the books, with that cell
/// busy until every move out of it has been tried.
pub proof fn lemma_expanding_the_popped_cell(
    g: Grid,
    from: Tile,
    to: Tile,
    start: int,
    goal: int,
    cost: Seq<u64>,
    came: Seq<usize>,
    closed0: Seq<bool>,
    closed: Seq<bool>,
    expanded: nat,
    before: Seq<(u64, usize)>,
    open: Seq<(u64, usize)>,
    k: int,
)
    requires
        search_frame(g, from, start),
        search_books(g, start, goal, cost, came, closed0, expanded),
        expanded <= g.cell_count(),
        cheapest_books(g, from, to, start, cost, came, closed0, before, -1),
        queue_live(g.cell_count(), cost, before),
        0 <= k < before.len(),
        forall|i: int| 0 <= i < before.len() ==> !entry_before(#[trigger] before[i], before[k]),
        !closed0[before[k].1 as int],
        open == before.update(k, before.last()).drop_last(),
        closed == closed0.update(before[k].1 as int, true),
    ensures
        cheapest_books(g, from, to, start, cost, came, closed, open, before[k].1 as int),
{
    let cell = before[k].1 as int;
    let n = g.cell_count();
    lemma_popped_is_cheapest(g, from, to, start, goal, cost, came, closed0, expanded, before, k);
    reveal(cheapest_books);
    assert forall|i: int| 0 <= i < open.len() implies (#[trigger] open[i]).0 >= cost[open[i].1 as int]
        + estimate_of(g, open[i].1 as int, to) by {
        if i == k {
            assert(open[i] == before[before.len() - 1]);
        } else {
            assert(open[i] == before[i]);
        }
    }
    assert forall|c: int|
        0 <= c < n && #[trigger] cost[c] < u64::MAX && !closed[c] implies exists|i: int|
            0 <= i < open.len() && (#[trigger] open[i]).1 == c && open[i].0 == cost[c] + estimate_of(g, c, to) by {
        assert(!closed0[c] && c != cell);
        lemma_pop_keeps_exact_entries(g, to, cost, closed0, before, open, k, c);
    }
    assert forall|c: int, w: Seq<Tile>|
        0 <= c < n && closed[c] && #[trigger] g.is_walk(w, from, cell_tile(g, c)) implies cost[c] <= walk_cost(w) by {
        if c != cell {
            assert(closed0[c]);
        }
    }
    assert forall|c: int, d: int|
        0 <= c < n && 0 <= d < n && closed[c] && c != cell && #[trigger] g.cell_step(c, d) implies cost[d]
            <= cost[c] + cell_move_cost(g, c, d) by {
        assert(closed0[c]);
    }
}

/// Taking off the queue an entry of a cell already expanded keeps the books.
pub proof fn lemma_stale_pop(
    g: Grid,
    from: Tile,
    to: Tile,
    start: int,
    cost: Seq<u64>,
    came: Seq<usize>,
    closed: Seq<bool>,
    before: Seq<(u64, usize)>,
    open: Seq<(u64, usize)>,
    k: int,
)
    requires
        cheapest_books(g, from, to, start, cost, came, closed, before, -1),
        0 <= k < before.len(),
        closed[before[k].1 as int],
        open == before.update(k, before.last()).drop_last(),
    ensures
        cheapest_books(g, from, to, start, cost, came, closed, open, -1),
{
    reveal(cheapest_books);
    let n = g.cell_count();
    assert forall|i: int| 0 <= i < open.len() implies (#[trigger] open[i]).0 >= cost[open[i].1 as int]
        + estimate_of(g, open[i].1 as int, to) by {
        if i == k {
            assert(open[i] == before[before.len() - 1]);
        } else {
            assert(open[i] == before[i]);
        }
    }
    assert forall|c: int|
        0 <= c < n && #[trigger] cost[c] < u64::MAX && !closed[c] implies exists|i: int|
            0 <= i < open.len() && (#[trigger] open[i]).1 == c && open[i].0 == cost[c] + estimate_of(g, c, to) by {
        lemma_pop_keeps_exact_entries(g, to, cost, closed, before, open, k, c);
    }
}

/// A neighbour whose cost the busy cell can lower has not been expanded: an
/// expanded cell is reached as cheaply as any walk, this one included.
proof fn lemma_relaxed_neighbour_unexpanded(
    g: Grid,
    from: Tile,
    to: Tile,
    start: int,
    goal: int,
    cost0: Seq<u64>,
    came0: Seq<usize>,
    open0: Seq<(u64, usize)>,
    closed: Seq<bool>,
    expanded: nat,
    cell: int,
    nb: int,
    step: u64,
)
    requires
        search_frame(g, from, start),
        search_books(g, start, goal, cost0, came0, closed, expanded),
        cheapest_books(g, from, to, start, cost0, came0, closed, open0, cell),
        0 <= cell < g.cell_count(),
        0 <= nb < g.cell_count(),
        closed[cell],
        g.cell_step(cell, nb),
        step == cost0[cell] + cell_move_cost(g, cell, nb),
        step < cost0[nb],
    ensures
        !closed[nb],
{
    if closed[nb] {
        reveal(cheapest_books);
        let w = lemma_reached_by_a_walk(g, from, start, goal, cost0, came0, closed, expanded, cell);
        lemma_cell_tile(g, cell);
        lemma_cell_tile(g, nb);
        let w2 = w.push(cell_tile(g, nb));
        lemma_walk_cost_push(w, cell_tile(g, nb));
        assert forall|i: int| 0 <= i < w2.len() - 1 implies #[trigger] g.walk_step(w2, i) by {
            if i < w2.len() - 2 {
                assert(g.walk_step(w, i));
            }
        }
        assert(g.is_walk(w2, from, cell_tile(g, nb)));
    }
}

/// Lowering a neighbour's cost through the busy cell keeps the books; and the
/// neighbour cannot have been expanded, since an expanded cell is already
/// reached as cheaply as any walk, this one included.
pub proof fn lemma_relax_cheaply(
    g: Grid,
    from: Tile,
    to: Tile,
    start: int,
    goal: int,
    cost0: Seq<u64>,
    came0: Seq<usize>,
    open0: Seq<(u64, usize)>,
    cost: Seq<u64>,
    came: Seq<usize>,
    open: Seq<(u64, usize)>,
    closed: Seq<bool>,
    expanded: nat,
    cell: int,
    nb: int,
    step: u64,
    priority: u64,
)
    requires
        search_frame(g, from, start),
        search_books(g, start, goal, cost0, came0, closed, expanded),
        cheapest_books(g, from, to, start, cost0, came0, closed, open0, cell),
        queue_live(g.cell_count(), cost0, open0),
        0 <= cell < g.cell_count(),
        0 <= nb < g.cell_count(),
        closed[cell],
        g.cell_step(cell, nb),
        step == cost0[cell] + cell_move_cost(g, cell, nb),
        step < cost0[nb],
        priority == step + estimate_of(g, nb, to),
        cost == cost0.update(nb, step),
        came == came0.update(nb, cell as usize),
        open == open0.push((priority, nb as usize)),
    ensures
        cheapest_books(g, from, to, start, cost, came, closed, open, cell),
        !closed[nb],
{
    lemma_relaxed_neighbour_unexpanded(g, from, to, start, goal, cost0, came0, open0, closed, expanded, cell, nb, step);
    reveal(cheapest_books);
    let n = g.cell_count();
    assert(nb != cell);
    assert forall|c: int|
        0 <= c < n && #[trigger] cost[c] < u64::MAX && c != start implies cost[came[c] as int] + cell_move_cost(
            g,
            came[c] as int,
            c,
        ) <= cost[c] by {
        if c != nb {
            assert(cost0[c] < u64::MAX);
        }
    }
    assert forall|i: int| 0 <= i < open.len() implies (#[trigger] open[i]).0 >= cost[open[i].1 as int]
        + estimate_of(g, open[i].1 as int, to) by {
        if i < open0.len() {
            assert(open[i] == open0[i]);
            assert(open0[i].1 < n);
        }
    }
    assert forall|c: int|
        0 <= c < n && #[trigger] cost[c] < u64::MAX && !closed[c] implies exists|i: int|
            0 <= i < open.len() && (#[trigger] open[i]).1 == c && open[i].0 == cost[c] + estimate_of(g, c, to) by {
        if c == nb {
            assert(open[open0.len() as int].1 == c);
        } else {
            assert(cost0[c] < u64::MAX);
            let i = choose|i: int|
                0 <= i < open0.len() && (#[trigger] open0[i]).1 == c && open0[i].0 == cost0[c] + estimate_of(g, c, to);
            assert(open[i] == open0[i]);
        }
    }
    assert forall|c: int, w: Seq<Tile>|
        0 <= c < n && closed[c] && #[trigger] g.is_walk(w, from, cell_tile(g, c)) implies cost[c] <= walk_cost(w) by {
        assert(c != nb);
    }
    assert forall|c: int, d: int|
        0 <= c < n && 0 <= d < n && closed[c] && c != cell && #[trigger] g.cell_step(c, d) implies cost[d]
            <= cost[c] + cell_move_cost(g, c, d) by {
        assert(c != nb);
    }
}

/// Every move out of the cell at `(x, y)` tried so far reaches its target at
/// no more than the cell's cost plus the move.
pub open spec fn moves_tried(g: Grid, cost: Seq<u64>, cell: int, x: int, y: int, k: int) -> bool {
    forall|j: int|
        0 <= j < k && g.step_ok(x, y, x + move_dx(j), y + move_dy(j)) ==> cost[move_target(g, x, y, j)]
            <= cost[cell] + cell_move_cost(g, cell, #[trigger] move_target(g, x, y, j))
}

/// Once every move out of the busy cell has been tried, it is busy no more.
pub proof fn lemma_every_move_tried(
    g: Grid,
    from: Tile,
    to: Tile,
    start: int,
    cost: Seq<u64>,
    came: Seq<usize>,
    closed: Seq<bool>,
    open: Seq<(u64, usize)>,
    cell: int,
    x: int,
    y: int,
)
    requires
        0 < g.width,
        0 < g.height,
        cheapest_books(g, from, to, start, cost, came, closed, open, cell),
        0 <= cell < g.cell_count(),
        x == g.cell_x(cell),
        y == g.cell_y(cell),
        moves_tried(g, cost, cell, x, y, 8),
    ensures
        cheapest_books(g, from, to, start, cost, came, closed, open, -1),
{
    reveal(cheapest_books);
    let n = g.cell_count();
    assert forall|c: int, d: int|
        0 <= c < n && 0 <= d < n && closed[c] && c != -1 && #[trigger] g.cell_step(c, d) implies cost[d]
            <= cost[c] + cell_move_cost(g, c, d) by {
        if c == cell {
            lemma_coords_of_cell(d, g.width, g.height);
            let j = lemma_every_move_is_tried(g.cell_x(d) - x, g.cell_y(d) - y);
            assert(g.step_ok(x, y, x + move_dx(j), y + move_dy(j)));
            assert(move_target(g, x, y, j) == d);
        }
    }
}


/// The books record every reached cell's predecessor as a cheap one.
pub proof fn lemma_books_record_cheap_predecessors(
    g: Grid,
    from: Tile,
    to: Tile,
    start: int,
    cost: Seq<u64>,
    came: Seq<usize>,
    closed: Seq<bool>,
    open: Seq<(u64, usize)>,
    busy: int,
)
    requires
        cheapest_books(g, from, to, start, cost, came, closed, open, busy),
    ensures
        came_cheaply(g, start, cost, came),
{
    reveal(cheapest_books);
}

} // verus!
