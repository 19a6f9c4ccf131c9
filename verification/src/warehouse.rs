//! Goods Positioning System sums for a box warehouse.
//!
//! Boxes sit on a grid; a box's GPS coordinate is one hundred times its
//! distance from the top edge plus its distance from the left edge. In the
//! doubled-width warehouse every box spans two cells and only its left
//! half counts.

use vstd::prelude::*;

verus! {

/// What occupies a warehouse cell.
#[derive(Debug, Clone, Copy, PartialEq, Eq, Structural)]
pub enum Type {
    Wall,
    Box,
    BoxL,
    BoxR,
    Robot,
    Empty,
}

/// One occupied cell: its column, row, and what sits there.
#[derive(Debug, Clone, Copy, PartialEq, Eq, Structural)]
pub struct Position {
    pub x: usize,
    pub y: usize,
    pub typ: Type,
}

impl Position {
    /// A cell at column `x`, row `y` holding `typ`.
    pub fn new(x: usize, y: usize, typ: Type) -> (r: Self)
        ensures
            r.x == x && r.y == y && r.typ == typ,
    {
        Self { x, y, typ }
    }
}

/// The GPS coordinate of one cell.
pub open spec fn gps(p: Position) -> int {
    p.y * 100 + p.x
}

/// The GPS sum of a list of cells: every cell counts in the narrow
/// warehouse, only left box halves in the wide one.
pub open spec fn spec_gps_sum(ps: Seq<Position>, part2: bool) -> int
    decreases ps.len(),
{
    if ps.len() == 0 {
        0
    } else {
        spec_gps_sum(ps.drop_last(), part2) + if !part2 || ps.last().typ == Type::BoxL {
            gps(ps.last())
        } else {
            0
        }
    }
}

/// Sums the GPS coordinates of the given cells.
pub fn sum_coordinates(positions: &[Position], part2: bool) -> (r: usize)
    requires
        spec_gps_sum(positions@, part2) <= usize::MAX,
        forall|i: int| 0 <= i < positions@.len() ==> gps(#[trigger] positions@[i]) <= usize::MAX,
    ensures
        r == spec_gps_sum(positions@, part2),
{
    let mut sum: usize = 0;
    let mut i: usize = 0;
    while i < positions.len()
        invariant
            0 <= i <= positions@.len(),
            spec_gps_sum(positions@, part2) <= usize::MAX,
            forall|t: int|
                0 <= t < positions@.len() ==> gps(#[trigger] positions@[t]) <= usize::MAX,
            sum == spec_gps_sum(positions@.take(i as int), part2),
        decreases positions@.len() - i,
    {
        proof {
            assert(positions@.take(i + 1).drop_last() =~= positions@.take(i as int));
            assert(positions@.take(i + 1).last() == positions@[i as int]);
            lemma_gps_sum_prefix(positions@, part2, i + 1);
        }
        let p = positions[i];
        if !part2 || p.typ == Type::BoxL {
            sum = sum + p.y * 100 + p.x;
        }
        i = i + 1;
    }
    proof {
        assert(positions@.take(positions@.len() as int) =~= positions@);
    }
    sum
}

/// Every prefix sum is at most the whole sum.
proof fn lemma_gps_sum_prefix(ps: Seq<Position>, part2: bool, k: int)
    requires
        0 <= k <= ps.len(),
    ensures
        spec_gps_sum(ps.take(k), part2) <= spec_gps_sum(ps, part2),
        spec_gps_sum(ps.take(k), part2) >= 0,
    decreases ps.len() - k,
{
    if k == ps.len() {
        assert(ps.take(k) =~= ps);
        lemma_gps_sum_nonneg(ps, part2);
    } else {
        lemma_gps_sum_prefix(ps, part2, k + 1);
        assert(ps.take(k + 1).drop_last() =~= ps.take(k));
        lemma_gps_sum_nonneg(ps.take(k), part2);
    }
}

/// GPS sums are never negative.
proof fn lemma_gps_sum_nonneg(ps: Seq<Position>, part2: bool)
    ensures
        spec_gps_sum(ps, part2) >= 0,
    decreases ps.len(),
{
    if ps.len() > 0 {
        lemma_gps_sum_nonneg(ps.drop_last(), part2);
    }
}

} // verus!
