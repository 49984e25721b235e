//! Straightening a grid walk into the polyline a monkey actually walks.
//!
//! A* on a grid can only turn in 45° steps, so an open diagonal comes back as
//! a staircase. Pulling the string taut against the jungle removes every
//! corner the walk does not need, and a shortcut is only taken when the
//! straight line it stands for stays on walkable ground under the same
//! no-corner-cutting rule the search obeys.

use vstd::prelude::*;
use crate::cheapest::cheapest_walk;
use crate::expansion::searched;
use crate::map::{abs_diff, Grid, Tile, VillageMap};

verus! {

// ─────────────────────────────────────────────────────── the straight line

/// The coordinate `k` steps from `start` in the direction of `d`.
pub open spec fn along(start: int, d: int, k: int) -> int {
    if d > 0 {
        start + k
    } else if d < 0 {
        start - k
    } else {
        start
    }
}

/// Where, along a segment that crosses `n` tile boundaries in the other axis,
/// the segment leaves the `k`th tile of this axis: the fraction `(2k+1)/2m` of
/// its length, scaled by `2mn` so that comparisons between the two axes are
/// exact integer arithmetic.
#[verifier::opaque]
pub open spec fn crossing(k: int, n: int) -> int {
    (2 * k + 1) * n
}

/// Whether the straight segment between the centres of two tiles `r` columns
/// and `u` rows apart touches the tile `i` columns and `j` rows along from the
/// first towards the second: the stretch of the segment inside that column and
/// the stretch inside that row overlap, ends included.
pub open spec fn segment_touches(r: int, u: int, i: int, j: int) -> bool {
    &&& 0 <= i <= r
    &&& 0 <= j <= u
    &&& crossing(i - 1, u) <= crossing(j, r)
    &&& crossing(j - 1, r) <= crossing(i, u)
}

/// The tile `i` columns and `j` rows along from `from` towards `to` is open.
pub open spec fn open_along(g: Grid, from: Tile, to: Tile, i: int, j: int) -> bool {
    g.open_at(
        along(from.x as int, to.x - from.x, i),
        along(from.y as int, to.y - from.y, j),
    )
}

/// A straight walk between the centres of `from` and `to` stays on open
/// ground: every tile the segment touches, corners included, is open.
pub open spec fn line_clear(g: Grid, from: Tile, to: Tile) -> bool {
    let r = abs_diff(to.x as int, from.x as int);
    let u = abs_diff(to.y as int, from.y as int);
    forall|i: int, j: int|
        #![trigger open_along(g, from, to, i, j)]
        segment_touches(r, u, i, j) ==> open_along(g, from, to, i, j)
}

proof fn lemma_crossing_is(k: int, n: int)
    ensures
        crossing(k, n) == (2 * k + 1) * n,
{
    reveal(crossing);
}

proof fn lemma_first_crossings(n: int)
    ensures
        crossing(-1, n) == -n,
        crossing(0, n) == n,
{
    reveal(crossing);
    assert((2 * -1 + 1) * n == -n) by (nonlinear_arith);
    assert((2 * 0 + 1) * n == n) by (nonlinear_arith);
}

proof fn lemma_crossing_step(k: int, n: int)
    ensures
        crossing(k + 1, n) == crossing(k, n) + 2 * n,
{
    reveal(crossing);
    assert((2 * (k + 1) + 1) * n == (2 * k + 1) * n + 2 * n) by (nonlinear_arith);
}

proof fn lemma_crossing_monotone(a: int, b: int, n: int)
    requires
        a <= b,
        0 <= n,
    ensures
        crossing(a, n) <= crossing(b, n),
{
    reveal(crossing);
    assert((2 * a + 1) * n <= (2 * b + 1) * n) by (nonlinear_arith)
        requires
            a <= b,
            0 <= n,
    ;
}

/// Leaving the last column lies beyond leaving the second-last row by the two
/// distances together.
proof fn lemma_crossing_swap(r: int, u: int)
    ensures
        crossing(r, u) == crossing(u - 1, r) + r + u,
{
    reveal(crossing);
    assert((2 * r + 1) * u == (2 * (u - 1) + 1) * r + r + u) by (nonlinear_arith);
}

proof fn lemma_crossing_sign(k: int, n: int)
    requires
        0 <= k,
        0 <= n,
    ensures
        n == 0 ==> crossing(k, n) == 0,
        n > 0 ==> crossing(k, n) > 0,
{
    reveal(crossing);
    assert(n > 0 ==> (2 * k + 1) * n > 0) by (nonlinear_arith)
        requires
            0 <= k,
    ;
}

/// Every crossing of the first `k` tiles of an axis comes no later than the
/// crossing out of the `k`th.
proof fn lemma_earlier_crossings(k: int, n: int)
    requires
        0 <= n,
    ensures
        forall|j: int| j <= k ==> #[trigger] crossing(j, n) <= crossing(k, n),
{
    assert forall|j: int| j <= k implies #[trigger] crossing(j, n) <= crossing(k, n) by {
        lemma_crossing_monotone(j, k, n);
    }
}

/// The two axes' next crossings lie strictly beyond the crossings that brought
/// the walk to column `kx` and row `ky`.
pub open spec fn crossings_ahead(r: int, u: int, kx: int, ky: int) -> bool {
    &&& crossing(ky - 1, r) < crossing(kx, u)
    &&& crossing(kx - 1, u) < crossing(ky, r)
}

impl VillageMap {
    /// Whether a straight walk between two tile centres stays on open ground,
    /// under the same no-corner-cutting rule the search obeys: every tile the
    /// segment touches, not one tile per column, and both tiles beside a
    /// corner it passes exactly through.
    fn clear_line(&self, from: Tile, to: Tile) -> (clear: bool)
        requires
            self.grid().on_map(from.x as int, from.y as int),
            self.grid().on_map(to.x as int, to.y as int),
        ensures
            clear == line_clear(self.grid(), from, to),
    {
        let ghost g = self.grid();
        let r: u64 = if to.x >= from.x {
            (to.x - from.x) as u64
        } else {
            (from.x - to.x) as u64
        };
        let u: u64 = if to.y >= from.y {
            (to.y - from.y) as u64
        } else {
            (from.y - to.y) as u64
        };
        let sx: i32 = if to.x > from.x {
            1
        } else if to.x < from.x {
            -1
        } else {
            0
        };
        let sy: i32 = if to.y > from.y {
            1
        } else if to.y < from.y {
            -1
        } else {
            0
        };
        let ghost dx = to.x - from.x;
        let ghost dy = to.y - from.y;
        proof {
            lemma_first_crossings(u as int);
            lemma_first_crossings(r as int);
        }
        if !self.passable_at(from.x, from.y) {
            proof {
                assert(segment_touches(r as int, u as int, 0, 0));
                assert(!open_along(g, from, to, 0, 0));
            }
            return false;
        }
        let mut x = from.x;
        let mut y = from.y;
        let mut kx: u64 = 0;
        let mut ky: u64 = 0;
        proof {
            assert forall|i: int, j: int|
                segment_touches(r as int, u as int, i, j) && i <= kx && j <= ky implies #[trigger] open_along(
                g,
                from,
                to,
                i,
                j,
            ) by {
                assert(i == 0 && j == 0);
            }
        }
        while kx != r || ky != u
            invariant
                g == self.grid(),
                g.on_map(from.x as int, from.y as int),
                g.on_map(to.x as int, to.y as int),
                r == abs_diff(to.x as int, from.x as int),
                u == abs_diff(to.y as int, from.y as int),
                dx == to.x - from.x,
                dy == to.y - from.y,
                sx == (if dx > 0 {
                    1int
                } else if dx < 0 {
                    -1int
                } else {
                    0int
                }),
                sy == (if dy > 0 {
                    1int
                } else if dy < 0 {
                    -1int
                } else {
                    0int
                }),
                kx <= r,
                ky <= u,
                x == along(from.x as int, dx, kx as int),
                y == along(from.y as int, dy, ky as int),
                !(kx == r && ky == u) ==> crossings_ahead(r as int, u as int, kx as int, ky as int),
                forall|i: int, j: int|
                    segment_touches(r as int, u as int, i, j) && i <= kx && j <= ky
                        ==> #[trigger] open_along(g, from, to, i, j),
            decreases (r - kx) + (u - ky),
        {
            proof {
                lemma_crossing_is(kx as int, u as int);
                lemma_crossing_is(ky as int, r as int);
                lemma_crossing_step(kx as int, u as int);
                lemma_crossing_step(ky as int, r as int);
                lemma_crossing_step(kx as int - 1, u as int);
                lemma_crossing_step(ky as int - 1, r as int);
                lemma_crossing_swap(r as int, u as int);
                lemma_crossing_swap(u as int, r as int);
                lemma_crossing_sign(kx as int, u as int);
                lemma_crossing_sign(ky as int, r as int);
                lemma_earlier_crossings(ky as int - 1, r as int);
                lemma_earlier_crossings(kx as int - 1, u as int);
                lemma_earlier_crossings(u as int - 1, r as int);
                lemma_earlier_crossings(r as int - 1, u as int);
                assert((2 * kx + 1) * u <= 0xffff_ffff * 0x7fff_ffff) by (nonlinear_arith)
                    requires
                        kx <= r < 0x8000_0000,
                        u < 0x8000_0000,
                ;
                assert((2 * ky + 1) * r <= 0xffff_ffff * 0x7fff_ffff) by (nonlinear_arith)
                    requires
                        ky <= u < 0x8000_0000,
                        r < 0x8000_0000,
                ;
            }
            let leave_column = (2 * kx + 1) * u;
            let leave_row = (2 * ky + 1) * r;
            let ghost (kx0, ky0) = (kx as int, ky as int);
            if leave_column == leave_row {
                // Exactly through a corner: both tiles beside it are touched.
                proof {
                    assert(kx < r && ky < u);
                    assert(segment_touches(r as int, u as int, kx0 + 1, ky0));
                    assert(segment_touches(r as int, u as int, kx0, ky0 + 1));
                }
                if !self.passable_at(x + sx, y) {
                    proof {
                        assert(!open_along(g, from, to, kx0 + 1, ky0));
                    }
                    return false;
                }
                if !self.passable_at(x, y + sy) {
                    proof {
                        assert(!open_along(g, from, to, kx0, ky0 + 1));
                    }
                    return false;
                }
                x = x + sx;
                y = y + sy;
                kx = kx + 1;
                ky = ky + 1;
            } else if leave_column < leave_row {
                proof {
                    assert(kx < r);
                }
                x = x + sx;
                kx = kx + 1;
            } else {
                proof {
                    assert(ky < u);
                }
                y = y + sy;
                ky = ky + 1;
            }
            proof {
                assert(segment_touches(r as int, u as int, kx as int, ky as int));
            }
            if !self.passable_at(x, y) {
                proof {
                    assert(!open_along(g, from, to, kx as int, ky as int));
                }
                return false;
            }
            proof {
                assert forall|i: int, j: int|
                    segment_touches(r as int, u as int, i, j) && i <= kx && j <= ky implies #[trigger] open_along(
                    g,
                    from,
                    to,
                    i,
                    j,
                ) by {
                    if i <= kx0 && j <= ky0 {
                    } else if i == kx && j == ky {
                    } else if i == kx0 + 1 && j == ky0 && kx == kx0 + 1 {
                    } else if i == kx0 && j == ky0 + 1 && ky == ky0 + 1 {
                    } else if i > kx0 {
                        assert(crossing(j, r as int) <= crossing(ky0 - 1, r as int));
                    } else {
                        assert(crossing(i, u as int) <= crossing(kx0 - 1, u as int));
                    }
                }
            }
        }
        true
    }
}


/// A single legal move of a walk is a clear straight line: the tiles its
/// segment touches are the two ends and, on a diagonal, the two tiles beside
/// the corner, which the move itself requires to be open.
pub proof fn lemma_a_step_is_a_clear_line(g: Grid, a: Tile, b: Tile)
    requires
        g.open_at(a.x as int, a.y as int),
        g.step_ok(a.x as int, a.y as int, b.x as int, b.y as int),
    ensures
        line_clear(g, a, b),
{
    let r = abs_diff(b.x as int, a.x as int);
    let u = abs_diff(b.y as int, a.y as int);
    assert forall|i: int, j: int| segment_touches(r, u, i, j) implies #[trigger] open_along(g, a, b, i, j) by {
        assert(0 <= i <= 1 && 0 <= j <= 1);
    }
}

// ──────────────────────────────────────────────────────── the taut string

/// The furthest tile of `tiles`, after `anchor + 1` and before `upto`, that a
/// clear straight line from `tiles[anchor]` reaches; `anchor + 1` when none is.
pub open spec fn furthest_visible(g: Grid, tiles: Seq<Tile>, anchor: int, upto: int) -> int
    decreases upto - anchor,
{
    if upto <= anchor + 2 {
        anchor + 1
    } else if line_clear(g, tiles[anchor], tiles[upto - 1]) {
        upto - 1
    } else {
        furthest_visible(g, tiles, anchor, upto - 1)
    }
}

pub proof fn lemma_furthest_visible_range(g: Grid, tiles: Seq<Tile>, anchor: int, upto: int)
    ensures
        anchor + 1 <= furthest_visible(g, tiles, anchor, upto),
        upto >= anchor + 2 ==> furthest_visible(g, tiles, anchor, upto) < upto,
        furthest_visible(g, tiles, anchor, upto) == anchor + 1 || line_clear(
            g,
            tiles[anchor],
            tiles[furthest_visible(g, tiles, anchor, upto)],
        ),
    decreases upto - anchor,
{
    if upto > anchor + 2 && !line_clear(g, tiles[anchor], tiles[upto - 1]) {
        lemma_furthest_visible_range(g, tiles, anchor, upto - 1);
    }
}

/// The corners a taut string keeps after `tiles[anchor]`: from each corner, on
/// to the furthest tile of the walk it can see, until the walk's end.
pub open spec fn corners_after(g: Grid, tiles: Seq<Tile>, anchor: int) -> Seq<Tile>
    decreases tiles.len() - anchor,
{
    if anchor < 0 || anchor + 1 >= tiles.len() {
        seq![]
    } else {
        let next = furthest_visible(g, tiles, anchor, tiles.len() as int);
        proof {
            lemma_furthest_visible_range(g, tiles, anchor, tiles.len() as int);
        }
        seq![tiles[next]] + corners_after(g, tiles, next)
    }
}

/// The walk `tiles` with every corner it does not need dropped.
pub open spec fn pulled_taut(g: Grid, tiles: Seq<Tile>) -> Seq<Tile> {
    seq![tiles[0]] + corners_after(g, tiles, 0)
}

proof fn lemma_corners_after_legs(g: Grid, walk: Seq<Tile>, anchor: int)
    requires
        0 <= anchor < walk.len(),
        forall|k: int| 0 <= k < walk.len() ==> g.open_at(#[trigger] walk[k].x as int, walk[k].y as int),
        forall|k: int| 0 <= k < walk.len() - 1 ==> #[trigger] g.walk_step(walk, k),
    ensures
        ({
            let c = seq![walk[anchor]] + corners_after(g, walk, anchor);
            &&& c.last() == walk.last()
            &&& forall|k: int| 0 <= k < c.len() - 1 ==> line_clear(g, #[trigger] c[k], c[k + 1])
        }),
    decreases walk.len() - anchor,
{
    let c = seq![walk[anchor]] + corners_after(g, walk, anchor);
    if anchor + 1 < walk.len() {
        let next = furthest_visible(g, walk, anchor, walk.len() as int);
        lemma_furthest_visible_range(g, walk, anchor, walk.len() as int);
        lemma_corners_after_legs(g, walk, next);
        let rest = seq![walk[next]] + corners_after(g, walk, next);
        assert(c =~= seq![walk[anchor]] + rest);
        if next == anchor + 1 {
            assert(g.walk_step(walk, anchor));
            lemma_a_step_is_a_clear_line(g, walk[anchor], walk[anchor + 1]);
        }
        assert forall|k: int| 0 <= k < c.len() - 1 implies line_clear(g, #[trigger] c[k], c[k + 1]) by {
            if k > 0 {
                assert(c[k] == rest[k - 1] && c[k + 1] == rest[k]);
            }
        }
    } else {
        assert(c =~= seq![walk[anchor]]);
    }
}

/// Past the tile it picks, the furthest visible tile sees nothing more: no
/// later tile before `upto` is in a clear straight line from the anchor.
proof fn lemma_nothing_visible_past(g: Grid, tiles: Seq<Tile>, anchor: int, upto: int)
    ensures
        forall|m: int|
            furthest_visible(g, tiles, anchor, upto) < m < upto ==> !line_clear(
                g,
                tiles[anchor],
                #[trigger] tiles[m],
            ),
    decreases upto - anchor,
{
    if upto > anchor + 2 && !line_clear(g, tiles[anchor], tiles[upto - 1]) {
        lemma_nothing_visible_past(g, tiles, anchor, upto - 1);
    }
}

/// Where in the walk each corner kept after `tiles[anchor]` stands.
proof fn lemma_corner_positions(g: Grid, tiles: Seq<Tile>, anchor: int) -> (at: Seq<int>)
    requires
        0 <= anchor < tiles.len(),
    ensures
        ({
            let c = seq![tiles[anchor]] + corners_after(g, tiles, anchor);
            &&& at.len() == c.len()
            &&& at[0] == anchor
            &&& at.last() == tiles.len() - 1
            &&& forall|k: int| 0 <= k < c.len() ==> 0 <= #[trigger] at[k] < tiles.len() && c[k] == tiles[at[k]]
            &&& forall|k: int|
                0 <= k < c.len() - 1 ==> {
                    &&& #[trigger] at[k] < at[k + 1]
                    &&& (at[k + 1] == at[k] + 1 || line_clear(g, tiles[at[k]], tiles[at[k + 1]]))
                    &&& forall|m: int|
                        at[k + 1] < m < tiles.len() ==> !line_clear(g, tiles[at[k]], #[trigger] tiles[m])
                }
        }),
    decreases tiles.len() - anchor,
{
    let c = seq![tiles[anchor]] + corners_after(g, tiles, anchor);
    if anchor + 1 >= tiles.len() {
        assert(c =~= seq![tiles[anchor]]);
        seq![anchor]
    } else {
        let next = furthest_visible(g, tiles, anchor, tiles.len() as int);
        lemma_furthest_visible_range(g, tiles, anchor, tiles.len() as int);
        lemma_nothing_visible_past(g, tiles, anchor, tiles.len() as int);
        let rest = lemma_corner_positions(g, tiles, next);
        let rc = seq![tiles[next]] + corners_after(g, tiles, next);
        assert(c =~= seq![tiles[anchor]] + rc);
        let at = seq![anchor] + rest;
        assert forall|k: int| 0 <= k < c.len() implies 0 <= #[trigger] at[k] < tiles.len() && c[k] == tiles[at[k]] by {
            if k > 0 {
                assert(at[k] == rest[k - 1] && c[k] == rc[k - 1]);
            }
        }
        assert forall|k: int| 0 <= k < c.len() - 1 implies {
            &&& #[trigger] at[k] < at[k + 1]
            &&& (at[k + 1] == at[k] + 1 || line_clear(g, tiles[at[k]], tiles[at[k + 1]]))
            &&& forall|m: int|
                at[k + 1] < m < tiles.len() ==> !line_clear(g, tiles[at[k]], #[trigger] tiles[m])
        } by {
            if k > 0 {
                assert(at[k] == rest[k - 1] && at[k + 1] == rest[k]);
            }
        }
        at
    }
}

/// A taut string keeps, after each corner, the furthest tile of the walk that
/// a clear straight line from that corner reaches (or the very next tile when
/// none further does): its corners are tiles of the walk, in order, from the
/// first to the last, and no tile past the next corner is in clear sight of
/// the one before it.
pub proof fn lemma_each_corner_is_the_furthest_in_sight(g: Grid, walk: Seq<Tile>) -> (at: Seq<int>)
    requires
        walk.len() >= 1,
    ensures
        ({
            let c = pulled_taut(g, walk);
            &&& at.len() == c.len()
            &&& at[0] == 0
            &&& at.last() == walk.len() - 1
            &&& forall|k: int| 0 <= k < c.len() ==> 0 <= #[trigger] at[k] < walk.len() && c[k] == walk[at[k]]
            &&& forall|k: int|
                0 <= k < c.len() - 1 ==> {
                    &&& #[trigger] at[k] < at[k + 1]
                    &&& (at[k + 1] == at[k] + 1 || line_clear(g, walk[at[k]], walk[at[k + 1]]))
                    &&& forall|m: int|
                        at[k + 1] < m < walk.len() ==> !line_clear(g, walk[at[k]], #[trigger] walk[m])
                }
        }),
{
    lemma_corner_positions(g, walk, 0)
}

/// A taut string starts and ends where its walk does, and every leg of it is
/// a clear straight line: the drawn route never leaves the walkable map.
pub proof fn lemma_a_taut_walk_stays_on_open_ground(g: Grid, walk: Seq<Tile>, from: Tile, to: Tile)
    requires
        g.is_walk(walk, from, to),
    ensures
        ({
            let c = pulled_taut(g, walk);
            &&& c.len() >= 1
            &&& c[0] == from
            &&& c.last() == to
            &&& forall|k: int| 0 <= k < c.len() - 1 ==> line_clear(g, #[trigger] c[k], c[k + 1])
        }),
{
    assert forall|k: int| 0 <= k < walk.len() implies g.open_at(#[trigger] walk[k].x as int, walk[k].y as int) by {
        if k > 0 {
            assert(g.walk_step(walk, k - 1));
        }
    }
    lemma_corners_after_legs(g, walk, 0);
}

impl VillageMap {
    /// Drop every corner the walk does not need: from each corner, go on to the
    /// furthest tile of the walk a clear straight line reaches. Greedy, so not
    /// an optimal any-angle path; the scan keeps going past a tile it cannot
    /// see, because visibility is not monotone along a walk that hugs an
    /// obstacle.
    fn string_pull(&self, tiles: &Vec<Tile>) -> (corners: Vec<Tile>)
        requires
            tiles@.len() >= 1,
            forall|k: int|
                0 <= k < tiles@.len() ==> self.grid().on_map(
                    #[trigger] tiles@[k].x as int,
                    tiles@[k].y as int,
                ),
        ensures
            corners@ == pulled_taut(self.grid(), tiles@),
    {
        let ghost g = self.grid();
        let ghost t = tiles@;
        let mut corners: Vec<Tile> = Vec::new();
        corners.push(tiles[0]);
        let mut anchor: usize = 0;
        proof {
            assert(corners@ =~= seq![t[0]]);
        }
        while anchor < tiles.len() - 1
            invariant
                g == self.grid(),
                t == tiles@,
                t.len() >= 1,
                forall|k: int| 0 <= k < t.len() ==> g.on_map(#[trigger] t[k].x as int, t[k].y as int),
                anchor < t.len(),
                corners@ + corners_after(g, t, anchor as int) == pulled_taut(g, t),
            decreases t.len() - anchor,
        {
            let mut furthest = anchor + 1;
            let mut candidate = anchor + 2;
            while candidate < tiles.len()
                invariant
                    g == self.grid(),
                    t == tiles@,
                    forall|k: int| 0 <= k < t.len() ==> g.on_map(#[trigger] t[k].x as int, t[k].y as int),
                    anchor + 2 <= candidate <= t.len(),
                    furthest == furthest_visible(g, t, anchor as int, candidate as int),
                decreases t.len() - candidate,
            {
                if self.clear_line(tiles[anchor], tiles[candidate]) {
                    furthest = candidate;
                }
                candidate = candidate + 1;
            }
            proof {
                lemma_furthest_visible_range(g, t, anchor as int, t.len() as int);
                let rest = corners_after(g, t, furthest as int);
                assert(corners_after(g, t, anchor as int) == seq![t[furthest as int]] + rest);
                assert(corners@.push(t[furthest as int]) + rest =~= corners@ + (seq![t[furthest as int]] + rest));
            }
            corners.push(tiles[furthest]);
            anchor = furthest;
        }
        proof {
            assert(corners_after(g, t, anchor as int) == Seq::<Tile>::empty());
            assert(corners@ + Seq::<Tile>::empty() =~= corners@);
        }
        corners
    }

    /// A cheapest walk between two tiles, straightened: the corners of the
    /// polyline a monkey walks, first tile to last. The walk is the one
    /// [`VillageMap::search`] finds, ties broken on the cell index, so a route
    /// is the same route on every run. `None` when either end is jungle or
    /// the goal is walled off; a walk to where you stand is that one tile.
    pub fn route(&self, from: Tile, to: Tile) -> (corners: Option<Vec<Tile>>)
        ensures
            corners is Some <==> self.grid().reachable(from, to),
            corners matches Some(c) ==> exists|walk: Seq<Tile>|
                #[trigger] cheapest_walk(self.grid(), walk, from, to) && c@ == pulled_taut(self.grid(), walk),
            corners matches Some(c) ==> (searched(self.grid(), from, to) matches Some(walk) && c@
                == pulled_taut(self.grid(), walk)),
            corners matches Some(c) ==> {
                &&& c@.len() >= 1
                &&& c@[0] == from
                &&& c@.last() == to
                &&& forall|k: int|
                    0 <= k < c@.len() - 1 ==> line_clear(self.grid(), #[trigger] c@[k], c@[k + 1])
            },
            from == to ==> (corners matches Some(c) ==> c@ == seq![from]),
    {
        let ghost g = self.grid();
        match self.search(from, to) {
            None => None,
            Some(walk) => {
                proof {
                    assert forall|k: int| 0 <= k < walk@.len() implies g.on_map(
                        #[trigger] walk@[k].x as int,
                        walk@[k].y as int,
                    ) by {
                        if k > 0 {
                            assert(g.walk_step(walk@, k - 1));
                        }
                    }
                    lemma_a_taut_walk_stays_on_open_ground(g, walk@, from, to);
                }
                let corners = self.string_pull(&walk);
                proof {
                    assert(cheapest_walk(g, walk@, from, to));
                    if from == to {
                        assert(corners_after(g, walk@, 0) == Seq::<Tile>::empty());
                        assert(corners@ =~= seq![from]);
                    }
                }
                Some(corners)
            },
        }
    }
}

} // verus!
