//! Robots patrolling a wrapping rectangular area.
//!
//! Each robot has a position and a velocity on a grid whose edges wrap
//! around. The safety factor multiplies the number of robots in each of the
//! four quadrants; robots on the middle row or column count for none. The
//! picture-finding search steps all robots until every robot sits on its
//! own cell, and returns how many steps that took.

use vstd::prelude::*;

verus! {

/// One robot: where it is, how far it moves each second, and the size of
/// the area it patrols.
#[derive(Debug, Clone, Copy, PartialEq, Eq)]
pub struct Robot {
    pub pos: (i64, i64),
    pub vel: (i64, i64),
    pub map: (i64, i64),
}

/// A robot whose position is inside its area and whose speed never crosses
/// the whole area in one step: the domain on which one wrapping addition
/// per axis is enough.
pub open spec fn robot_wf(r: Robot) -> bool {
    &&& 0 < r.map.0 <= 0x4000_0000_0000_0000 && 0 < r.map.1 <= 0x4000_0000_0000_0000
    &&& 0 <= r.pos.0 < r.map.0 && 0 <= r.pos.1 < r.map.1
    &&& -r.map.0 <= r.vel.0 <= r.map.0 && -r.map.1 <= r.vel.1 <= r.map.1
}

/// The position one step later: the velocity added, wrapped into the area.
pub open spec fn spec_step_pos(r: Robot) -> (i64, i64) {
    (((r.pos.0 + r.vel.0) % (r.map.0 as int)) as i64, ((r.pos.1 + r.vel.1) % (r.map.1 as int)) as i64)
}

/// The robot after one step.
pub open spec fn spec_step(r: Robot) -> Robot {
    Robot { pos: spec_step_pos(r), ..r }
}

/// The robot after `n` steps.
pub open spec fn spec_nstep(r: Robot, n: nat) -> Robot
    decreases n,
{
    if n == 0 {
        r
    } else {
        spec_step(spec_nstep(r, (n - 1) as nat))
    }
}

/// Stepping any number of times keeps a robot well formed.
pub proof fn lemma_nstep_wf(r: Robot, n: nat)
    requires
        robot_wf(r),
    ensures
        robot_wf(spec_nstep(r, n)),
    decreases n,
{
    if n > 0 {
        lemma_nstep_wf(r, (n - 1) as nat);
    }
}

impl Robot {
    /// A robot at `pos` moving by `vel` each step inside `map`.
    pub fn new(pos: (i64, i64), vel: (i64, i64), map: (i64, i64)) -> (r: Self)
        ensures
            r.pos == pos && r.vel == vel && r.map == map,
    {
        Self { pos, vel, map }
    }

    /// Moves the robot one step, wrapping around the area's edges.
    pub fn step(&mut self)
        requires
            robot_wf(*old(self)),
        ensures
            *final(self) == spec_step(*old(self)),
    {
        self.pos.0 = self.pos.0 + self.vel.0;
        if self.pos.0 < 0 {
            self.pos.0 = self.pos.0 + self.map.0;
        }
        if self.pos.0 > self.map.0 - 1 {
            self.pos.0 = self.pos.0 % self.map.0;
        }
        self.pos.1 = self.pos.1 + self.vel.1;
        if self.pos.1 < 0 {
            self.pos.1 = self.pos.1 + self.map.1;
        }
        if self.pos.1 > self.map.1 - 1 {
            self.pos.1 = self.pos.1 % self.map.1;
        }
        proof {
            let o = *old(self);
            let q0 = o.pos.0 + o.vel.0;
            let m0 = o.map.0 as int;
            if q0 < 0 {
                vstd::arithmetic::div_mod::lemma_mod_add_multiples_vanish(q0, m0);
                vstd::arithmetic::div_mod::lemma_small_mod((q0 + m0) as nat, m0 as nat);
            } else if q0 < m0 {
                vstd::arithmetic::div_mod::lemma_small_mod(q0 as nat, m0 as nat);
            }
            let q1 = o.pos.1 + o.vel.1;
            let m1 = o.map.1 as int;
            if q1 < 0 {
                vstd::arithmetic::div_mod::lemma_mod_add_multiples_vanish(q1, m1);
                vstd::arithmetic::div_mod::lemma_small_mod((q1 + m1) as nat, m1 as nat);
            } else if q1 < m1 {
                vstd::arithmetic::div_mod::lemma_small_mod(q1 as nat, m1 as nat);
            }
        }
    }

    /// Moves the robot `step` steps.
    pub fn nstep(&mut self, step: usize)
        requires
            robot_wf(*old(self)),
        ensures
            *final(self) == spec_nstep(*old(self), step as nat),
    {
        let ghost r0 = *self;
        let mut i: usize = 0;
        while i < step
            invariant
                0 <= i <= step,
                robot_wf(r0),
                robot_wf(*self),
                *self == spec_nstep(r0, i as nat),
            decreases step - i,
        {
            self.step();
            proof {
                lemma_nstep_wf(r0, i as nat);
            }
            i = i + 1;
        }
    }
}

/// Which quadrant a robot sits in, with 0 for the middle row or column.
pub open spec fn quadrant(r: Robot, m: (i64, i64)) -> int {
    if r.pos.0 < m.0 / 2 && r.pos.1 < m.1 / 2 {
        1
    } else if r.pos.0 > m.0 / 2 && r.pos.1 < m.1 / 2 {
        2
    } else if r.pos.0 < m.0 / 2 && r.pos.1 > m.1 / 2 {
        3
    } else if r.pos.0 > m.0 / 2 && r.pos.1 > m.1 / 2 {
        4
    } else {
        0
    }
}

/// How many of the robots sit in quadrant `q`.
pub open spec fn count_quadrant(rs: Seq<Robot>, m: (i64, i64), q: int) -> nat
    decreases rs.len(),
{
    if rs.len() == 0 {
        0
    } else {
        count_quadrant(rs.drop_last(), m, q) + if quadrant(rs.last(), m) == q {
            1nat
        } else {
            0nat
        }
    }
}

/// Counting robots never exceeds the number of robots.
proof fn lemma_count_quadrant_le(rs: Seq<Robot>, m: (i64, i64), q: int)
    ensures
        count_quadrant(rs, m, q) <= rs.len(),
    decreases rs.len(),
{
    if rs.len() > 0 {
        lemma_count_quadrant_le(rs.drop_last(), m, q);
    }
}

/// The safety factor: the product of the four per-quadrant robot counts.
/// Robots on the middle row or column are ignored.
pub fn calc_safety(robots: &Vec<Robot>, map: &(i64, i64)) -> (r: usize)
    requires
        map.0 > 0 && map.1 > 0,
        robots@.len() <= 255 || (usize::BITS == 64 && robots@.len() <= 50000),
    ensures
        r == count_quadrant(robots@, *map, 1) * count_quadrant(robots@, *map, 2) * count_quadrant(
            robots@,
            *map,
            3,
        ) * count_quadrant(robots@, *map, 4),
{
    let mut q1: usize = 0;
    let mut q2: usize = 0;
    let mut q3: usize = 0;
    let mut q4: usize = 0;
    let mut i: usize = 0;
    while i < robots.len()
        invariant
            0 <= i <= robots@.len(),
            map.0 > 0 && map.1 > 0,
            q1 == count_quadrant(robots@.take(i as int), *map, 1),
            q2 == count_quadrant(robots@.take(i as int), *map, 2),
            q3 == count_quadrant(robots@.take(i as int), *map, 3),
            q4 == count_quadrant(robots@.take(i as int), *map, 4),
            q1 <= i && q2 <= i && q3 <= i && q4 <= i,
        decreases robots@.len() - i,
    {
        let robot = &robots[i];
        proof {
            assert(robots@.take(i + 1).drop_last() =~= robots@.take(i as int));
            assert(robots@.take(i + 1).last() == robots@[i as int]);
        }
        if robot.pos.0 < map.0 / 2 && robot.pos.1 < map.1 / 2 {
            q1 = q1 + 1;
        }
        if robot.pos.0 > map.0 / 2 && robot.pos.1 < map.1 / 2 {
            q2 = q2 + 1;
        }
        if robot.pos.0 < map.0 / 2 && robot.pos.1 > map.1 / 2 {
            q3 = q3 + 1;
        }
        if robot.pos.0 > map.0 / 2 && robot.pos.1 > map.1 / 2 {
            q4 = q4 + 1;
        }
        i = i + 1;
    }
    proof {
        assert(robots@.take(robots@.len() as int) =~= robots@);
        lemma_count_quadrant_le(robots@, *map, 1);
        lemma_count_quadrant_le(robots@, *map, 2);
        lemma_count_quadrant_le(robots@, *map, 3);
        lemma_count_quadrant_le(robots@, *map, 4);
        let n = robots@.len();
        assert(q1 * q2 <= n * n && q1 * q2 * q3 <= n * n * n && q1 * q2 * q3 * q4 <= n * n * n * n)
            by (nonlinear_arith)
            requires
                q1 <= n && q2 <= n && q3 <= n && q4 <= n,
        ;
        if n <= 255 {
            assert(n * n <= 255 * 255 && n * n * n <= 255 * 255 * 255 && n * n * n * n <= 255
                * 255 * 255 * 255) by (nonlinear_arith)
                requires
                    n <= 255,
            ;
        } else {
            assert(n * n <= 50000 * 50000 && n * n * n <= 50000 * 50000 * 50000 && n * n * n * n
                <= 50000 * 50000 * 50000 * 50000) by (nonlinear_arith)
                requires
                    n <= 50000,
            ;
        }
    }
    let r = q1 * q2;
    let r = r * q3;
    let r = r * q4;
    r
}

/// No two robots share a cell.
pub open spec fn all_distinct(rs: Seq<Robot>) -> bool {
    forall|i: int, j: int| 0 <= i < j < rs.len() ==> (#[trigger] rs[i]).pos != (#[trigger] rs[j]).pos
}

/// Is every robot on a cell of its own?
pub fn unique_positions(robots: &Vec<Robot>) -> (r: bool)
    ensures
        r == all_distinct(robots@),
{
    let mut i: usize = 0;
    while i < robots.len()
        invariant
            0 <= i <= robots@.len(),
            forall|a: int, b: int|
                0 <= a < b < robots@.len() && a < i ==> (#[trigger] robots@[a]).pos != (
                #[trigger] robots@[b]).pos,
        decreases robots@.len() - i,
    {
        let mut j: usize = i + 1;
        while j < robots.len()
            invariant
                0 <= i < j <= robots@.len(),
                forall|b: int|
                    i < b < j ==> (#[trigger] robots@[b]).pos != robots@[i as int].pos,
            decreases robots@.len() - j,
        {
            if robots[j].pos.0 == robots[i].pos.0 && robots[j].pos.1 == robots[i].pos.1 {
                return false;
            }
            j = j + 1;
        }
        i = i + 1;
    }
    true
}

/// All robots, moved one step.
pub open spec fn step_all(rs: Seq<Robot>) -> Seq<Robot> {
    rs.map_values(|r: Robot| spec_step(r))
}

/// All robots, moved `n` steps.
pub open spec fn nstep_all(rs: Seq<Robot>, n: nat) -> Seq<Robot>
    decreases n,
{
    if n == 0 {
        rs
    } else {
        step_all(nstep_all(rs, (n - 1) as nat))
    }
}

/// Stepping a whole fleet preserves well-formedness.
proof fn lemma_nstep_all_wf(rs: Seq<Robot>, n: nat)
    requires
        forall|t: int| 0 <= t < rs.len() ==> robot_wf(#[trigger] rs[t]),
    ensures
        forall|t: int| 0 <= t < nstep_all(rs, n).len() ==> robot_wf(#[trigger] nstep_all(rs, n)[t]),
        nstep_all(rs, n).len() == rs.len(),
    decreases n,
{
    if n > 0 {
        lemma_nstep_all_wf(rs, (n - 1) as nat);
    }
}

/// Steps the whole fleet until every robot is on a cell of its own, and
/// says after how many steps that first happens. Some such moment must
/// exist within the step budget; the result is the earliest one.
pub fn calc_easter_egg(robots: &mut Vec<Robot>) -> (r: usize)
    requires
        forall|t: int| 0 <= t < old(robots)@.len() ==> robot_wf(#[trigger] old(robots)@[t]),
        exists|n: nat| n <= 0xFFFF_FFFF && all_distinct(#[trigger] nstep_all(old(robots)@, n)),
    ensures
        r <= 0xFFFF_FFFF,
        final(robots)@ == nstep_all(old(robots)@, r as nat),
        all_distinct(final(robots)@),
        forall|m: nat| m < r ==> !all_distinct(#[trigger] nstep_all(old(robots)@, m)),
{
    let ghost rs0 = robots@;
    let ghost n0 = choose|n: nat| n <= 0xFFFF_FFFF && all_distinct(#[trigger] nstep_all(rs0, n));
    let mut steps: usize = 0;
    while !unique_positions(robots)
        invariant
            rs0 == old(robots)@,
            forall|t: int| 0 <= t < rs0.len() ==> robot_wf(#[trigger] rs0[t]),
            robots@ == nstep_all(rs0, steps as nat),
            steps <= n0,
            n0 <= 0xFFFF_FFFF && all_distinct(nstep_all(rs0, n0)),
            forall|m: nat| m < steps ==> !all_distinct(#[trigger] nstep_all(rs0, m)),
        decreases n0 - steps,
    {
        let ghost prev = robots@;
        proof {
            lemma_nstep_all_wf(rs0, steps as nat);
        }
        let mut idx: usize = 0;
        while idx < robots.len()
            invariant
                0 <= idx <= robots@.len(),
                robots@.len() == prev.len(),
                forall|t: int| 0 <= t < prev.len() ==> robot_wf(#[trigger] prev[t]),
                forall|t: int| 0 <= t < idx ==> robots@[t] == spec_step(#[trigger] prev[t]),
                forall|t: int| idx <= t < prev.len() ==> robots@[t] == #[trigger] prev[t],
            decreases robots@.len() - idx,
        {
            let mut one = robots[idx];
            proof {
                assert(robots@[idx as int] == prev[idx as int]);
                assert(robot_wf(prev[idx as int]));
            }
            one.step();
            robots.set(idx, one);
            idx = idx + 1;
        }
        proof {
            assert(robots@ =~= step_all(prev));
            lemma_nstep_all_wf(rs0, steps as nat);
            assert(steps < n0);
        }
        steps = steps + 1;
    }
    steps
}

} // verus!
