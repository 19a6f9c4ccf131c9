//! Escaping a corrupted memory grid.
//!
//! Obstacles fall onto a small grid one by one; the task is the length of
//! a shortest safe walk from one corner to the other after a prefix of
//! them has fallen, and then the first obstacle whose fall cuts the exit
//! off. The shortest-walk search itself is done by an outside
//! breadth-first routine; the aggregation and the bisection over obstacle
//! prefixes are verified.

use vstd::prelude::*;

verus! {

#[verifier::external_type_specification]
#[verifier::external_body]
/// The outside grid type: a set of traversable cells inside a rectangle.
pub struct ExGrid(pathfinding::grid::Grid);

/// The set of traversable cells a grid holds.
pub uninterp spec fn grid_cells(g: pathfinding::grid::Grid) -> Set<(usize, usize)>;

/// The rectangle (width, height) a grid spans.
pub uninterp spec fn grid_dims(g: pathfinding::grid::Grid) -> (usize, usize);

/// The first `limit` obstacles (or all of them, when there are fewer).
pub open spec fn taken_points(pts: Seq<(usize, usize)>, limit: int) -> Seq<(usize, usize)> {
    if limit <= pts.len() {
        pts.take(limit)
    } else {
        pts
    }
}

/// One more than the largest first coordinate, 0 for no points at all.
pub open spec fn points_width(pts: Seq<(usize, usize)>) -> int
    decreases pts.len(),
{
    if pts.len() == 0 {
        0
    } else {
        let w = points_width(pts.drop_last());
        if pts.last().0 + 1 > w {
            pts.last().0 + 1
        } else {
            w
        }
    }
}

/// One more than the largest second coordinate, 0 for no points at all.
pub open spec fn points_height(pts: Seq<(usize, usize)>) -> int
    decreases pts.len(),
{
    if pts.len() == 0 {
        0
    } else {
        let h = points_height(pts.drop_last());
        if pts.last().1 + 1 > h {
            pts.last().1 + 1
        } else {
            h
        }
    }
}

/// Every coordinate fits comfortably below a sixteen-bit bound, so that
/// the rectangle arithmetic inside the grid crate (one more than a
/// coordinate, width times height) stays inside a machine word on every
/// word size.
pub open spec fn small_coords(pts: Seq<(usize, usize)>) -> bool {
    forall|k: int| 0 <= k < pts.len() ==> (#[trigger] pts[k]).0 < 0xFFFF && pts[k].1 < 0xFFFF
}

/// Relies on Grid's FromIterator: the collected grid holds exactly the
/// given cells, inside the smallest rectangle that fits them. The
/// coordinate bound keeps the crate's rectangle arithmetic from
/// overflowing.
#[verifier::external_body]
fn grid_collect(points: &Vec<(usize, usize)>) -> (g: pathfinding::grid::Grid)
    requires
        small_coords(points@),
    ensures
        grid_cells(g) == points@.to_set(),
        grid_dims(g).0 == points_width(points@),
        grid_dims(g).1 == points_height(points@),
{
    points.iter().copied().collect()
}

/// The first `limit` obstacles, copied out.
fn prefix_points(points: &Vec<(usize, usize)>, limit: usize) -> (r: Vec<(usize, usize)>)
    ensures
        r@ == taken_points(points@, limit as int),
{
    let n = if limit <= points.len() {
        limit
    } else {
        points.len()
    };
    let mut r: Vec<(usize, usize)> = Vec::new();
    let mut k: usize = 0;
    while k < n
        invariant
            0 <= k <= n <= points@.len(),
            r@ =~= points@.take(k as int),
        decreases n - k,
    {
        r.push(points[k]);
        k = k + 1;
    }
    proof {
        if limit > points@.len() {
            assert(points@.take(points@.len() as int) =~= points@);
        }
    }
    r
}

/// Relies on Grid::invert: afterwards the grid holds exactly the cells of
/// its rectangle that it did not hold before.
#[verifier::external_body]
fn grid_invert(g: &mut pathfinding::grid::Grid)
    ensures
        grid_dims(*final(g)) == grid_dims(*old(g)),
        grid_cells(*final(g)) == Set::new(
            |c: (usize, usize)|
                c.0 < grid_dims(*old(g)).0 && c.1 < grid_dims(*old(g)).1 && !grid_cells(
                    *old(g),
                ).contains(c),
        ),
{
    g.invert();
}

/// Two cells share an edge.
pub open spec fn adjacent(a: (usize, usize), b: (usize, usize)) -> bool {
    ||| (a.0 == b.0 && (a.1 + 1 == b.1 || b.1 + 1 == a.1))
    ||| (a.1 == b.1 && (a.0 + 1 == b.0 || b.0 + 1 == a.0))
}

/// A walk from `start` to `end`: every step moves to an adjacent cell of
/// the grid, and any walk that moves at all also starts on a cell of the
/// grid.
pub open spec fn valid_path(
    cells: Set<(usize, usize)>,
    p: Seq<(usize, usize)>,
    start: (usize, usize),
    end: (usize, usize),
) -> bool {
    &&& p.len() >= 1
    &&& p[0] == start
    &&& p[p.len() - 1] == end
    &&& (p.len() > 1 ==> cells.contains(start))
    &&& forall|i: int|
        1 <= i < p.len() ==> cells.contains(#[trigger] p[i]) && adjacent(p[i - 1], p[i])
}

/// Relies on pathfinding's bfs over Grid::neighbours: a breadth-first
/// search returns a shortest walk from `start` to `end` over the grid's
/// cells, or nothing exactly when no walk exists.
#[verifier::external_body]
fn bfs_grid(
    g: &pathfinding::grid::Grid,
    start: (usize, usize),
    end: (usize, usize),
) -> (r: Option<Vec<(usize, usize)>>)
    ensures
        r matches Some(p) ==> valid_path(grid_cells(*g), p@, start, end),
        r matches Some(p) ==> forall|q: Seq<(usize, usize)>|
            valid_path(grid_cells(*g), q, start, end) ==> p@.len() <= q.len(),
        r is None ==> forall|q: Seq<(usize, usize)>|
            !valid_path(grid_cells(*g), q, start, end),
{
    pathfinding::prelude::bfs(&start, |p| g.neighbours(*p), |p| *p == end)
}

/// The cells that remain free after the first `limit` obstacles have
/// fallen: the obstacle rectangle, minus the obstacles.
pub open spec fn free_cells(obstacles: Seq<(usize, usize)>, limit: int) -> Set<(usize, usize)> {
    Set::new(
        |c: (usize, usize)|
            c.0 < points_width(taken_points(obstacles, limit)) && c.1 < points_height(
                taken_points(obstacles, limit),
            ) && !taken_points(obstacles, limit).to_set().contains(c),
    )
}

/// A shortest walk from `start` to `end` that avoids the first `limit`
/// obstacles, or nothing when every way is cut off.
pub fn get_path(
    obstacles: &Vec<(usize, usize)>,
    limit: usize,
    start: (usize, usize),
    end: (usize, usize),
) -> (r: Option<Vec<(usize, usize)>>)
    requires
        small_coords(obstacles@),
    ensures
        r matches Some(p) ==> valid_path(free_cells(obstacles@, limit as int), p@, start, end),
        r matches Some(p) ==> forall|q: Seq<(usize, usize)>|
            valid_path(free_cells(obstacles@, limit as int), q, start, end) ==> p@.len()
                <= q.len(),
        r is None ==> forall|q: Seq<(usize, usize)>|
            !valid_path(free_cells(obstacles@, limit as int), q, start, end),
{
    let taken = prefix_points(obstacles, limit);
    proof {
        assert forall|k: int| 0 <= k < taken@.len() implies (#[trigger] taken@[k]).0 < 0xFFFF
            && taken@[k].1 < 0xFFFF by {
            if limit <= obstacles@.len() {
                assert(taken@[k] == obstacles@[k]);
            }
        }
    }
    let mut grid = grid_collect(&taken);
    grid_invert(&mut grid);
    proof {
        assert(grid_cells(grid) =~= free_cells(obstacles@, limit as int));
    }
    bfs_grid(&grid, start, end)
}

/// The number of steps of a shortest safe walk after the first `limit`
/// obstacles have fallen. Some safe walk must exist.
pub fn part1(
    obstacles: &Vec<(usize, usize)>,
    limit: usize,
    start: (usize, usize),
    end: (usize, usize),
) -> (r: usize)
    requires
        small_coords(obstacles@),
        exists|q: Seq<(usize, usize)>|
            valid_path(free_cells(obstacles@, limit as int), q, start, end),
    ensures
        exists|q: Seq<(usize, usize)>|
            valid_path(free_cells(obstacles@, limit as int), q, start, end) && q.len() == r + 1,
        forall|q: Seq<(usize, usize)>|
            valid_path(free_cells(obstacles@, limit as int), q, start, end) ==> r + 1 <= q.len(),
{
    let path = get_path(obstacles, limit, start, end);
    match path {
        Some(p) => p.len() - 1,
        None => {
            proof {
                let q = choose|q: Seq<(usize, usize)>|
                    valid_path(free_cells(obstacles@, limit as int), q, start, end);
                assert(!valid_path(free_cells(obstacles@, limit as int), q, start, end));
            }
            0
        },
    }
}

/// Whether some safe walk exists once the first `limit` obstacles have
/// fallen.
pub open spec fn reachable(
    obstacles: Seq<(usize, usize)>,
    limit: int,
    start: (usize, usize),
    end: (usize, usize),
) -> bool {
    exists|q: Seq<(usize, usize)>| valid_path(free_cells(obstacles, limit), q, start, end)
}

/// The obstacle that cuts the exit off: bisects between a prefix count
/// that still leaves a way out and one that does not, and returns the
/// obstacle at the boundary it narrows down to.
pub fn part2(
    obstacles: &Vec<(usize, usize)>,
    limit: usize,
    start: (usize, usize),
    end: (usize, usize),
) -> (r: (usize, usize))
    requires
        small_coords(obstacles@),
        limit + 1 < obstacles@.len(),
        reachable(obstacles@, limit as int, start, end),
        !reachable(obstacles@, obstacles@.len() - 1, start, end),
    ensures
        exists|k: int|
            limit <= k < obstacles@.len() - 1 && r == obstacles@[k] && reachable(
                obstacles@,
                k,
                start,
                end,
            ) && !reachable(obstacles@, k + 1, start, end),
{
    let mut left: usize = limit;
    let mut right: usize = obstacles.len() - 1;
    while left + 1 != right
        invariant
            small_coords(obstacles@),
            limit <= left < right <= obstacles@.len() - 1,
            reachable(obstacles@, left as int, start, end),
            !reachable(obstacles@, right as int, start, end),
        decreases right - left,
    {
        let mid = left + (right - left) / 2;
        if get_path(obstacles, mid, start, end).is_some() {
            left = mid;
        } else {
            right = mid;
        }
    }
    obstacles[left]
}

} // verus!
