//! The search as a run of expansions, one after another: which cell it takes
//! from the open list, which of its neighbours it reaches more cheaply, and
//! where it stops. Every choice is fixed by the map and the two ends (the
//! open list gives up its lowest estimate first, ties to the lowest cell), so
//! the walk a search finds is the same walk on every run.

use vstd::prelude::*;
use crate::cheapest::tile_cell;
use crate::map::{
    abs_diff, entry_before, lemma_cell_of_coords, move_dx, move_dy, move_target, octile, Grid, Tile,
    DIAGONAL_STEP, MAX_CELLS, STEP,
};

verus! {

/// What a search knows: the cheapest cost found to each cell, the cell each
/// was reached from, the cells expanded, and the open list.
pub struct Books {
    pub cost: Seq<u64>,
    pub came: Seq<usize>,
    pub closed: Seq<bool>,
    pub open: Seq<(u64, usize)>,
}

/// Where a run of expansions stands.
#[derive(PartialEq, Eq, Structural)]
pub enum Progress {
    Running,
    /// The open list ran dry: the goal cannot be reached.
    Exhausted,
    /// The goal came off the open list.
    Found,
}

/// The position, among the first `n` entries of `open`, of the first lowest
/// entry: lowest estimate, ties to the lowest cell.
pub open spec fn lowest_upto(open: Seq<(u64, usize)>, n: int) -> int
    decreases n,
{
    if n <= 1 {
        0
    } else {
        let k = lowest_upto(open, n - 1);
        if entry_before(open[n - 1], open[k]) {
            n - 1
        } else {
            k
        }
    }
}

/// The entry of the open list that is expanded next.
pub open spec fn lowest_index(open: Seq<(u64, usize)>) -> int {
    lowest_upto(open, open.len() as int)
}

/// The books after trying move `j` from `cell`: a neighbour reached by a
/// legal move more cheaply than before gets the new cost, `cell` as where it
/// was reached from, and an entry in the open list with its estimate.
#[verifier::opaque]
pub open spec fn relax_move(g: Grid, to: Tile, b: Books, cell: int, j: int) -> Books {
    let x = g.cell_x(cell);
    let y = g.cell_y(cell);
    let nx = x + move_dx(j);
    let ny = y + move_dy(j);
    let next = move_target(g, x, y, j);
    let step = b.cost[cell] + (if move_dx(j) != 0 && move_dy(j) != 0 {
        DIAGONAL_STEP as int
    } else {
        STEP as int
    });
    if g.step_ok(x, y, nx, ny) && step < b.cost[next] {
        Books {
            cost: b.cost.update(next, step as u64),
            came: b.came.update(next, cell as usize),
            closed: b.closed,
            open: b.open.push(
                (
                    (step + octile(abs_diff(nx, to.x as int), abs_diff(ny, to.y as int))) as u64,
                    next as usize,
                ),
            ),
        }
    } else {
        b
    }
}

/// The books after trying the first `k` moves from `cell`, in order.
#[verifier::opaque]
pub open spec fn relax_upto(g: Grid, to: Tile, b: Books, cell: int, k: int) -> Books
    decreases k,
{
    if k <= 0 {
        b
    } else {
        relax_move(g, to, relax_upto(g, to, b, cell, k - 1), cell, k - 1)
    }
}

/// One expansion: take the lowest entry off the open list; stop if it is the
/// goal, skip it if its cell was expanded already, and otherwise close the
/// cell and try its eight moves.
#[verifier::opaque]
pub open spec fn expand(g: Grid, to: Tile, goal: int, b: Books) -> (Books, Progress) {
    if b.open.len() == 0 {
        (b, Progress::Exhausted)
    } else {
        let k = lowest_index(b.open);
        let cell = b.open[k].1 as int;
        let open = b.open.update(k, b.open.last()).drop_last();
        if cell == goal {
            (Books { open, ..b }, Progress::Found)
        } else if b.closed[cell] {
            (Books { open, ..b }, Progress::Running)
        } else {
            (relax_upto(g, to, Books { closed: b.closed.update(cell, true), open, ..b }, cell, 8), Progress::Running)
        }
    }
}

/// The books a search from `from` to `to` starts with: the start reached at
/// no cost and alone on the open list.
#[verifier::opaque]
pub open spec fn initial_books(g: Grid, from: Tile, to: Tile) -> Books {
    Books {
        cost: Seq::new(g.cell_count() as nat, |i: int| u64::MAX).update(tile_cell(g, from), 0),
        came: Seq::new(g.cell_count() as nat, |i: int| usize::MAX),
        closed: Seq::new(g.cell_count() as nat, |i: int| false),
        open: seq![
            (
                octile(abs_diff(from.x as int, to.x as int), abs_diff(from.y as int, to.y as int)) as u64,
                tile_cell(g, from) as usize,
            ),
        ],
    }
}

/// The search after `n` expansions; once it stops, it stays stopped.
#[verifier::opaque]
pub open spec fn run(g: Grid, from: Tile, to: Tile, n: nat) -> (Books, Progress)
    decreases n,
{
    if n == 0 {
        (initial_books(g, from, to), Progress::Running)
    } else {
        let (b, progress) = run(g, from, to, (n - 1) as nat);
        if progress == Progress::Running {
            expand(g, to, tile_cell(g, to), b)
        } else {
            (b, progress)
        }
    }
}

/// The search stops at its `n`th expansion and not before.
pub open spec fn stops_at(g: Grid, from: Tile, to: Tile, n: nat) -> bool {
    &&& run(g, from, to, n).1 != Progress::Running
    &&& forall|m: nat| m < n ==> (#[trigger] run(g, from, to, m)).1 == Progress::Running
}

/// `walk` follows the recorded predecessors back from the goal: each tile
/// after the first was reached from the one before it, and the first was
/// reached from nowhere.
pub open spec fn traces(g: Grid, came: Seq<usize>, goal: int, walk: Seq<Tile>) -> bool {
    &&& walk.len() >= 1
    &&& tile_cell(g, walk.last()) == goal
    &&& came[tile_cell(g, walk[0])] == usize::MAX
    &&& forall|i: int|
        1 <= i < walk.len() ==> came[tile_cell(g, #[trigger] walk[i])] == tile_cell(g, walk[i - 1])
    &&& forall|i: int| 0 <= i < walk.len() ==> g.on_map((#[trigger] walk[i]).x as int, walk[i].y as int)
}

/// The walk a search from `from` to `to` finds, if any: none when either end
/// is jungle, the one tile when they are the same, and otherwise the walk
/// traced back from the goal through the predecessors the run of expansions
/// recorded, when that run finds the goal.
#[verifier::opaque]
pub open spec fn searched(g: Grid, from: Tile, to: Tile) -> Option<Seq<Tile>> {
    if !g.open_at(from.x as int, from.y as int) || !g.open_at(to.x as int, to.y as int) {
        None
    } else if from == to {
        Some(seq![from])
    } else {
        let n = choose|n: nat| stops_at(g, from, to, n);
        let (b, progress) = run(g, from, to, n);
        if progress == Progress::Found {
            Some(choose|walk: Seq<Tile>| traces(g, b.came, tile_cell(g, to), walk))
        } else {
            None
        }
    }
}

// ──────────────────────────────────────────────────────────────── lemmas

/// A run still going after `n` expansions was going after every earlier one.
pub proof fn lemma_running_before(g: Grid, from: Tile, to: Tile, n: nat)
    requires
        run(g, from, to, n).1 == Progress::Running,
    ensures
        forall|m: nat| m <= n ==> (#[trigger] run(g, from, to, m)).1 == Progress::Running,
    decreases n,
{
    reveal_with_fuel(run, 2);
    if n > 0 {
        lemma_running_before(g, from, to, (n - 1) as nat);
    }
}

/// A run going after `n` expansions stops at the next one exactly when that
/// expansion stops it, and then the search's choice of stopping point is it.
pub proof fn lemma_stops_next(g: Grid, from: Tile, to: Tile, n: nat)
    requires
        run(g, from, to, n).1 == Progress::Running,
        run(g, from, to, n + 1).1 != Progress::Running,
    ensures
        stops_at(g, from, to, n + 1),
        (choose|m: nat| stops_at(g, from, to, m)) == n + 1,
{
    lemma_running_before(g, from, to, n);
    assert forall|m: nat| m < n + 1 implies (#[trigger] run(g, from, to, m)).1 == Progress::Running by {
        assert(m <= n);
    }
    assert(stops_at(g, from, to, n + 1));
    let m = choose|m: nat| stops_at(g, from, to, m);
    if m < n + 1 {
        assert(run(g, from, to, m).1 == Progress::Running);
    } else if m > n + 1 {
        assert(run(g, from, to, n + 1).1 == Progress::Running);
    }
}

/// Two walks that trace the same predecessors back from the same goal are
/// the same walk.
pub proof fn lemma_one_trace(g: Grid, came: Seq<usize>, goal: int, a: Seq<Tile>, b: Seq<Tile>)
    requires
        0 < g.width,
        0 < g.height,
        g.cell_count() <= MAX_CELLS,
        traces(g, came, goal, a),
        traces(g, came, goal, b),
    ensures
        a == b,
    decreases a.len() + b.len(),
{
    let (la, lb) = (a.len() as int, b.len() as int);
    lemma_cell_of_coords(a[la - 1].x as int, a[la - 1].y as int, g.width, g.height);
    lemma_cell_of_coords(b[lb - 1].x as int, b[lb - 1].y as int, g.width, g.height);
    assert(a[la - 1] == b[lb - 1]);
    if la == 1 && lb == 1 {
        assert(a =~= b);
    } else if la == 1 {
        lemma_cell_of_coords(b[lb - 2].x as int, b[lb - 2].y as int, g.width, g.height);
        assert(came[tile_cell(g, b[lb - 1])] == tile_cell(g, b[lb - 2]));
        assert(tile_cell(g, b[lb - 2]) < MAX_CELLS);
    } else if lb == 1 {
        lemma_cell_of_coords(a[la - 2].x as int, a[la - 2].y as int, g.width, g.height);
        assert(came[tile_cell(g, a[la - 1])] == tile_cell(g, a[la - 2]));
        assert(tile_cell(g, a[la - 2]) < MAX_CELLS);
    } else {
        let a2 = a.drop_last();
        let b2 = b.drop_last();
        let prev = tile_cell(g, a[la - 2]);
        assert(came[tile_cell(g, a[la - 1])] == prev);
        assert(came[tile_cell(g, b[lb - 1])] == tile_cell(g, b[lb - 2]));
        assert(traces(g, came, prev, a2)) by {
            assert forall|i: int| 1 <= i < a2.len() implies came[tile_cell(g, #[trigger] a2[i])] == tile_cell(
                g,
                a2[i - 1],
            ) by {
                assert(a2[i] == a[i] && a2[i - 1] == a[i - 1]);
            }
            assert forall|i: int| 0 <= i < a2.len() implies g.on_map((#[trigger] a2[i]).x as int, a2[i].y as int) by {
                assert(a2[i] == a[i]);
            }
        }
        assert(traces(g, came, prev, b2)) by {
            assert forall|i: int| 1 <= i < b2.len() implies came[tile_cell(g, #[trigger] b2[i])] == tile_cell(
                g,
                b2[i - 1],
            ) by {
                assert(b2[i] == b[i] && b2[i - 1] == b[i - 1]);
            }
            assert forall|i: int| 0 <= i < b2.len() implies g.on_map((#[trigger] b2[i]).x as int, b2[i].y as int) by {
                assert(b2[i] == b[i]);
            }
        }
        lemma_one_trace(g, came, prev, a2, b2);
        assert(a =~= a2.push(a[la - 1]));
        assert(b =~= b2.push(b[lb - 1]));
    }
}

/// One more expansion, when the run is still going.
pub proof fn lemma_run_next(g: Grid, from: Tile, to: Tile, n: nat)
    requires
        run(g, from, to, n).1 == Progress::Running,
    ensures
        run(g, from, to, n + 1) == expand(g, to, tile_cell(g, to), run(g, from, to, n).0),
{
    reveal_with_fuel(run, 2);
}

/// A search starts from its initial books.
pub proof fn lemma_run_starts(g: Grid, from: Tile, to: Tile, b: Books)
    requires
        b.cost =~= Seq::new(g.cell_count() as nat, |i: int| u64::MAX).update(tile_cell(g, from), 0),
        b.came =~= Seq::new(g.cell_count() as nat, |i: int| usize::MAX),
        b.closed =~= Seq::new(g.cell_count() as nat, |i: int| false),
        b.open =~= seq![
            (
                octile(abs_diff(from.x as int, to.x as int), abs_diff(from.y as int, to.y as int)) as u64,
                tile_cell(g, from) as usize,
            ),
        ],
    ensures
        run(g, from, to, 0) == (b, Progress::Running),
{
    reveal(run);
    reveal(initial_books);
}

/// An empty open list stops the search.
pub proof fn lemma_expand_dry(g: Grid, to: Tile, goal: int, b: Books)
    requires
        b.open.len() == 0,
    ensures
        expand(g, to, goal, b).1 == Progress::Exhausted,
{
    reveal(expand);
}

/// The expansion of the lowest entry of the open list, `k`, for cell `cell`,
/// leaving the open list `rest`.
pub proof fn lemma_expand_pop(g: Grid, to: Tile, goal: int, b: Books, k: int, cell: int, rest: Seq<(u64, usize)>)
    requires
        b.open.len() > 0,
        k == lowest_index(b.open),
        cell == b.open[k].1,
        rest == b.open.update(k, b.open.last()).drop_last(),
    ensures
        cell == goal ==> expand(g, to, goal, b) == (Books { open: rest, ..b }, Progress::Found),
        cell != goal && b.closed[cell] ==> expand(g, to, goal, b) == (Books { open: rest, ..b }, Progress::Running),
        cell != goal && !b.closed[cell] ==> expand(g, to, goal, b) == (
            relax_upto(g, to, Books { closed: b.closed.update(cell, true), open: rest, ..b }, cell, 8),
            Progress::Running,
        ),
{
    reveal(expand);
}

/// One more move tried.
pub proof fn lemma_relax_next(g: Grid, to: Tile, b: Books, cell: int, k: int)
    requires
        0 <= k,
    ensures
        relax_upto(g, to, b, cell, k + 1) == relax_move(g, to, relax_upto(g, to, b, cell, k), cell, k),
        relax_upto(g, to, b, cell, 0) == b,
{
    reveal_with_fuel(relax_upto, 2);
}

/// A move that is not legal, or reaches its cell no more cheaply than
/// before, changes nothing.
pub proof fn lemma_relax_keep(g: Grid, to: Tile, b: Books, cell: int, j: int)
    requires
        !g.step_ok(
            g.cell_x(cell),
            g.cell_y(cell),
            g.cell_x(cell) + move_dx(j),
            g.cell_y(cell) + move_dy(j),
        ) || b.cost[cell] + (if move_dx(j) != 0 && move_dy(j) != 0 {
            DIAGONAL_STEP as int
        } else {
            STEP as int
        }) >= b.cost[move_target(g, g.cell_x(cell), g.cell_y(cell), j)],
    ensures
        relax_move(g, to, b, cell, j) == b,
{
    reveal(relax_move);
}

/// A legal move that reaches its cell more cheaply records it.
pub proof fn lemma_relax_take(g: Grid, to: Tile, b: Books, cell: int, j: int, step: int, next: int)
    requires
        g.step_ok(g.cell_x(cell), g.cell_y(cell), g.cell_x(cell) + move_dx(j), g.cell_y(cell) + move_dy(j)),
        next == move_target(g, g.cell_x(cell), g.cell_y(cell), j),
        step == b.cost[cell] + (if move_dx(j) != 0 && move_dy(j) != 0 {
            DIAGONAL_STEP as int
        } else {
            STEP as int
        }),
        step < b.cost[next],
    ensures
        relax_move(g, to, b, cell, j) == (Books {
            cost: b.cost.update(next, step as u64),
            came: b.came.update(next, cell as usize),
            closed: b.closed,
            open: b.open.push(
                (
                    (step + octile(
                        abs_diff(g.cell_x(cell) + move_dx(j), to.x as int),
                        abs_diff(g.cell_y(cell) + move_dy(j), to.y as int),
                    )) as u64,
                    next as usize,
                ),
            ),
        }),
{
    reveal(relax_move);
}

/// A search whose ends are not both open ground finds nothing, and one from
/// a tile to itself finds that tile.
pub proof fn lemma_searched_trivially(g: Grid, from: Tile, to: Tile)
    ensures
        !g.open_at(from.x as int, from.y as int) || !g.open_at(to.x as int, to.y as int) ==> searched(
            g,
            from,
            to,
        ) == None::<Seq<Tile>>,
        g.open_at(from.x as int, from.y as int) && g.open_at(to.x as int, to.y as int) && from == to
            ==> searched(g, from, to) == Some(seq![from]),
{
    reveal(searched);
}

/// A search that runs dry after `n + 1` expansions finds nothing.
pub proof fn lemma_searched_dry(g: Grid, from: Tile, to: Tile, n: nat)
    requires
        g.open_at(from.x as int, from.y as int),
        g.open_at(to.x as int, to.y as int),
        from != to,
        run(g, from, to, n).1 == Progress::Running,
        run(g, from, to, n + 1).1 == Progress::Exhausted,
    ensures
        searched(g, from, to) == None::<Seq<Tile>>,
{
    lemma_stops_next(g, from, to, n);
    reveal(searched);
}

/// A search that finds the goal at its `n + 1`th expansion finds the walk
/// traced back through the predecessors recorded by then.
pub proof fn lemma_searched_found(g: Grid, from: Tile, to: Tile, n: nat, walk: Seq<Tile>)
    requires
        0 < g.width,
        0 < g.height,
        g.cell_count() <= MAX_CELLS,
        g.open_at(from.x as int, from.y as int),
        g.open_at(to.x as int, to.y as int),
        from != to,
        run(g, from, to, n).1 == Progress::Running,
        run(g, from, to, n + 1).1 == Progress::Found,
        traces(g, run(g, from, to, n + 1).0.came, tile_cell(g, to), walk),
    ensures
        searched(g, from, to) == Some(walk),
{
    lemma_stops_next(g, from, to, n);
    reveal(searched);
    let came = run(g, from, to, n + 1).0.came;
    let chosen = choose|w: Seq<Tile>| traces(g, came, tile_cell(g, to), w);
    lemma_one_trace(g, came, tile_cell(g, to), chosen, walk);
}

} // verus!
