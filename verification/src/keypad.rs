//! Keypad-chain minimizer.
//!
//! A code has to be typed on a numeric keypad, but the operator only controls
//! it through a chain of directional keypads: each layer's presses steer a
//! cursor on the next layer down. Every keypad is a small grid with one
//! forbidden cell that the cursor must never rest on. This module enumerates
//! the distance-minimal ways to move between two keys (grouped into maximal
//! straight runs, which no other minimal sequence can beat), evaluates the
//! cost of producing a sequence through the whole chain, and sums the
//! weighted costs of a list of codes.

use std::collections::HashMap;
use vstd::prelude::*;

verus! {

broadcast use vstd::map_lib::lemma_submap_of_trans;

/// A grid cell, as (row, column).
#[derive(Debug, Copy, Clone, PartialEq, Eq, Structural)]
pub struct Point(pub u8, pub u8);

/// Which of the two keypad layouts a `Keypad` is.
#[derive(Debug, Copy, Clone, PartialEq, Eq, Structural)]
pub enum PadKind {
    /// `7 8 9 / 4 5 6 / 1 2 3 / _ 0 A`, forbidden cell at the bottom left.
    Numeric,
    /// `_ ^ A / < v >`, forbidden cell at the top left.
    Directional,
}

/// The position of a symbol on a keypad, or `None` when the symbol is not a
/// key of that keypad.
pub open spec fn spec_key_pos(kind: PadKind, c: char) -> Option<Point> {
    match kind {
        PadKind::Numeric => match c {
            '7' => Some(Point(0, 0)),
            '8' => Some(Point(0, 1)),
            '9' => Some(Point(0, 2)),
            '4' => Some(Point(1, 0)),
            '5' => Some(Point(1, 1)),
            '6' => Some(Point(1, 2)),
            '1' => Some(Point(2, 0)),
            '2' => Some(Point(2, 1)),
            '3' => Some(Point(2, 2)),
            '0' => Some(Point(3, 1)),
            'A' => Some(Point(3, 2)),
            _ => None,
        },
        PadKind::Directional => match c {
            '^' => Some(Point(0, 1)),
            'A' => Some(Point(0, 2)),
            '<' => Some(Point(1, 0)),
            'v' => Some(Point(1, 1)),
            '>' => Some(Point(1, 2)),
            _ => None,
        },
    }
}

/// The one cell of a keypad that holds no key and must never be visited.
pub open spec fn spec_forbidden(kind: PadKind) -> Point {
    match kind {
        PadKind::Numeric => Point(3, 0),
        PadKind::Directional => Point(0, 0),
    }
}

/// A symbol is valid for a keypad when it has a position there.
pub open spec fn valid_sym(kind: PadKind, c: char) -> bool {
    spec_key_pos(kind, c) is Some
}

/// Manhattan distance between two cells.
pub open spec fn manhattan(p: Point, q: Point) -> nat {
    (if p.0 >= q.0 {
        p.0 - q.0
    } else {
        q.0 - p.0
    } + if p.1 >= q.1 {
        p.1 - q.1
    } else {
        q.1 - p.1
    }) as nat
}

/// One of the two keypad layouts. The layouts are fixed data; every key sits
/// on a distinct cell and never on the forbidden cell.
pub struct Keypad {
    pub kind: PadKind,
}

impl Keypad {
    /// The numeric keypad that the innermost device exposes.
    pub fn numeric() -> (r: Keypad)
        ensures
            r.kind == PadKind::Numeric,
    {
        Keypad { kind: PadKind::Numeric }
    }

    /// The directional keypad used by every indirection layer.
    pub fn directional() -> (r: Keypad)
        ensures
            r.kind == PadKind::Directional,
    {
        Keypad { kind: PadKind::Directional }
    }

    /// Looks a symbol up on this keypad.
    pub fn key_pos(&self, c: char) -> (r: Option<Point>)
        ensures
            r == spec_key_pos(self.kind, c),
    {
        match self.kind {
            PadKind::Numeric => match c {
                '7' => Some(Point(0, 0)),
                '8' => Some(Point(0, 1)),
                '9' => Some(Point(0, 2)),
                '4' => Some(Point(1, 0)),
                '5' => Some(Point(1, 1)),
                '6' => Some(Point(1, 2)),
                '1' => Some(Point(2, 0)),
                '2' => Some(Point(2, 1)),
                '3' => Some(Point(2, 2)),
                '0' => Some(Point(3, 1)),
                'A' => Some(Point(3, 2)),
                _ => None,
            },
            PadKind::Directional => match c {
                '^' => Some(Point(0, 1)),
                'A' => Some(Point(0, 2)),
                '<' => Some(Point(1, 0)),
                'v' => Some(Point(1, 1)),
                '>' => Some(Point(1, 2)),
                _ => None,
            },
        }
    }

    /// The forbidden cell of this keypad.
    pub fn forbidden(&self) -> (r: Point)
        ensures
            r == spec_forbidden(self.kind),
    {
        match self.kind {
            PadKind::Numeric => Point(3, 0),
            PadKind::Directional => Point(0, 0),
        }
    }
}

/// Every keypad layout is sound: distinct symbols sit on distinct cells, no
/// key sits on the forbidden cell, and all keys are inside a 3-wide grid.
pub proof fn lemma_layout_well_formed(kind: PadKind)
    ensures
        forall|c1: char, c2: char|
            spec_key_pos(kind, c1) is Some && spec_key_pos(kind, c2) is Some && c1 != c2
                ==> spec_key_pos(kind, c1) != spec_key_pos(kind, c2),
        forall|c: char| #[trigger]
            spec_key_pos(kind, c) matches Some(p) ==> p != spec_forbidden(kind) && p.0 <= 3 && p.1
                <= 2,
{
}

/// A run of `n` copies of the move symbol `c`.
pub open spec fn run_of(c: char, n: nat) -> Seq<char> {
    Seq::new(n, |i: int| c)
}

/// Every path of `ps`, with `pre` prepended.
pub open spec fn prefix_all(pre: Seq<char>, ps: Seq<Seq<char>>) -> Seq<Seq<char>> {
    ps.map_values(|p: Seq<char>| pre + p)
}

/// Whether a straight horizontal run on row `row` from column `from` to
/// column `to` (inclusive of the landing cell, exclusive of the start) would
/// touch the forbidden cell `fb`.
pub open spec fn row_run_blocked(fb: Point, row: u8, from: u8, to: u8) -> bool {
    fb.0 == row && (if from <= to {
        from < fb.1 <= to
    } else {
        to <= fb.1 < from
    })
}

/// Whether a straight vertical run on column `col` from row `from` to row
/// `to` would touch the forbidden cell `fb`.
pub open spec fn col_run_blocked(fb: Point, col: u8, from: u8, to: u8) -> bool {
    fb.1 == col && (if from <= to {
        from < fb.0 <= to
    } else {
        to <= fb.0 < from
    })
}

/// All distance-minimal move sequences from `cur` to `goal` on the keypad
/// `kind`, each ending in one activate press. Each step of the search walks
/// a full straight run toward the goal in one axis, and a run is taken only
/// if it does not touch the forbidden cell, so the forbidden cell is avoided
/// by construction rather than by filtering afterwards.
///
/// The enumeration therefore yields exactly the compositions of maximal
/// straight runs: for two keys that share neither row nor column, the two
/// L-shaped orders (whichever of them is clear). This run-grouped family is
/// the intended candidate set of the whole evaluator. A distance-minimal
/// sequence that interleaves the two directions costs at least as much one
/// layer up as its run-grouped counterpart — breaking a run inserts extra
/// switches between move keys, and every extra transition costs at least
/// one press there — so taking the minimum over this family is taking the
/// minimum over all distance-minimal sequences that avoid the forbidden
/// cell. That argument is stated here as documentation; the contracts below
/// pin the evaluator to the minimum over this enumerated family.
pub open spec fn paths_from(kind: PadKind, cur: Point, goal: Point) -> Seq<Seq<char>>
    decreases manhattan(cur, goal),
{
    if cur == goal {
        seq![seq!['A']]
    } else {
        let fb = spec_forbidden(kind);
        let left = if goal.1 < cur.1 && !row_run_blocked(fb, cur.0, cur.1, goal.1) {
            prefix_all(
                run_of('<', (cur.1 - goal.1) as nat),
                paths_from(kind, Point(cur.0, goal.1), goal),
            )
        } else {
            Seq::empty()
        };
        let up = if goal.0 < cur.0 && !col_run_blocked(fb, cur.1, cur.0, goal.0) {
            prefix_all(
                run_of('^', (cur.0 - goal.0) as nat),
                paths_from(kind, Point(goal.0, cur.1), goal),
            )
        } else {
            Seq::empty()
        };
        let right = if goal.1 > cur.1 && !row_run_blocked(fb, cur.0, cur.1, goal.1) {
            prefix_all(
                run_of('>', (goal.1 - cur.1) as nat),
                paths_from(kind, Point(cur.0, goal.1), goal),
            )
        } else {
            Seq::empty()
        };
        let down = if goal.0 > cur.0 && !col_run_blocked(fb, cur.1, cur.0, goal.0) {
            prefix_all(
                run_of('v', (goal.0 - cur.0) as nat),
                paths_from(kind, Point(goal.0, cur.1), goal),
            )
        } else {
            Seq::empty()
        };
        left + up + right + down
    }
}

/// Pushes, for every path of `sub`, a copy prefixed by `n` repetitions of
/// the move `mov` onto `res`.
fn push_prefixed(res: &mut Vec<Vec<char>>, mov: char, n: u8, sub: &Vec<Vec<char>>)
    ensures
        final(res).deep_view() == old(res).deep_view() + prefix_all(
            run_of(mov, n as nat),
            sub.deep_view(),
        ),
{
    let ghost pre = run_of(mov, n as nat);
    let ghost base = old(res)@.len() as int;
    let mut i: usize = 0;
    while i < sub.len()
        invariant
            i <= sub.len(),
            res@.len() == base + i,
            base == old(res)@.len() as int,
            forall|m: int| 0 <= m < base ==> res@[m] == old(res)@[m],
            forall|m: int| 0 <= m < i ==> (#[trigger] res@[base + m])@ =~= pre + sub.deep_view()[m],
            pre == run_of(mov, n as nat),
        decreases sub.len() - i,
    {
        let mut path: Vec<char> = Vec::new();
        let mut k: u8 = 0;
        while k < n
            invariant
                k <= n,
                path@ =~= run_of(mov, k as nat),
            decreases n - k,
        {
            path.push(mov);
            k = k + 1;
        }
        let s = &sub[i];
        let mut j: usize = 0;
        while j < s.len()
            invariant
                j <= s.len(),
                path@ =~= pre + s@.take(j as int),
                pre == run_of(mov, n as nat),
            decreases s.len() - j,
        {
            path.push(s[j]);
            j = j + 1;
        }
        proof {
            assert(s@.take(s@.len() as int) =~= s@);
            assert(path@ =~= pre + sub.deep_view()[i as int]);
        }
        res.push(path);
        i = i + 1;
    }
    proof {
        let target = old(res).deep_view() + prefix_all(pre, sub.deep_view());
        assert(res.deep_view().len() == target.len());
        assert forall|m: int| 0 <= m < target.len() implies res.deep_view()[m] =~~= target[m] by {
            assert(res.deep_view()[m] =~= res@[m]@);
            if m < base {
                assert(res@[m] == old(res)@[m]);
                assert(target[m] =~= old(res)@[m]@);
            } else {
                assert(res@[base + (m - base)]@ =~= pre + sub.deep_view()[m - base]);
                assert(target[m] == pre + sub.deep_view()[m - base]);
            }
        }
        assert(res.deep_view() =~~= target);
    }
}

/// The cell displacement of one move symbol; the activate press does not
/// move the cursor.
pub open spec fn move_delta(c: char) -> (int, int) {
    match c {
        '<' => (0, -1),
        '>' => (0, 1),
        '^' => (-1, 0),
        'v' => (1, 0),
        _ => (0, 0),
    }
}

/// The cell reached by starting at `p` and making every move of `s`.
pub open spec fn walk(p: (int, int), s: Seq<char>) -> (int, int)
    decreases s.len(),
{
    if s.len() == 0 {
        p
    } else {
        walk((p.0 + move_delta(s[0]).0, p.1 + move_delta(s[0]).1), s.drop_first())
    }
}

/// Walking a concatenation walks the two halves in turn.
pub proof fn lemma_walk_app(p: (int, int), s1: Seq<char>, s2: Seq<char>)
    ensures
        walk(p, s1 + s2) == walk(walk(p, s1), s2),
    decreases s1.len(),
{
    if s1.len() == 0 {
        assert(s1 + s2 =~= s2);
    } else {
        assert((s1 + s2).drop_first() =~= s1.drop_first() + s2);
        lemma_walk_app(
            (p.0 + move_delta(s1[0]).0, p.1 + move_delta(s1[0]).1),
            s1.drop_first(),
            s2,
        );
    }
}

/// The cell reached after `i` steps of a straight run of the move `mov`
/// from `cur`.
pub open spec fn run_cell(cur: Point, mov: char, i: int) -> (int, int) {
    (cur.0 + i * move_delta(mov).0, cur.1 + i * move_delta(mov).1)
}

/// Walking a run of `i` repetitions of one move makes `i` equal steps.
pub proof fn lemma_walk_run(p: (int, int), c: char, n: nat, i: int)
    requires
        0 <= i <= n,
    ensures
        walk(p, run_of(c, n).take(i)) == (
            p.0 + i * move_delta(c).0,
            p.1 + i * move_delta(c).1,
        ),
    decreases i,
{
    if i == 0 {
        assert(run_of(c, n).take(0) =~= Seq::<char>::empty());
    } else {
        let q = (p.0 + move_delta(c).0, p.1 + move_delta(c).1);
        lemma_walk_run(q, c, (n - 1) as nat, i - 1);
        assert(run_of(c, n).take(i).drop_first() =~= run_of(c, (n - 1) as nat).take(i - 1));
        let d0 = move_delta(c).0;
        let d1 = move_delta(c).1;
        assert((i - 1) * d0 + d0 == i * d0 && (i - 1) * d1 + d1 == i * d1) by (nonlinear_arith);
    }
}

/// The cells of a straight run, written without a multiplication, for each
/// of the four move symbols.
pub proof fn lemma_run_cell_axis(cur: Point, mov: char, i: int)
    ensures
        mov == '<' ==> run_cell(cur, mov, i) == (cur.0 as int, cur.1 - i),
        mov == '>' ==> run_cell(cur, mov, i) == (cur.0 as int, cur.1 + i),
        mov == '^' ==> run_cell(cur, mov, i) == (cur.0 - i, cur.1 as int),
        mov == 'v' ==> run_cell(cur, mov, i) == (cur.0 + i, cur.1 as int),
{
    assert(i * 0int == 0 && i * 1int == i && i * (-1int) == -i) by (nonlinear_arith);
}

/// The properties of every enumerated path: it is exactly one activate
/// press longer than the Manhattan distance, every symbol of it is a key of
/// the directional keypad, its walk ends on the goal, and its walk never
/// touches the forbidden cell.
pub proof fn lemma_paths_sound(kind: PadKind, cur: Point, goal: Point)
    requires
        cur != spec_forbidden(kind),
        goal != spec_forbidden(kind),
    ensures
        forall|k: int| #![trigger paths_from(kind, cur, goal)[k]]
            0 <= k < paths_from(kind, cur, goal).len() ==> {
                let p = paths_from(kind, cur, goal)[k];
                &&& p.len() == manhattan(cur, goal) + 1
                &&& forall|j: int| 0 <= j < p.len() ==> valid_sym(PadKind::Directional, #[trigger] p[j])
                &&& p[p.len() - 1] == 'A'
                &&& walk((cur.0 as int, cur.1 as int), p) == (goal.0 as int, goal.1 as int)
                &&& forall|i: int| 0 <= i <= p.len() ==> walk((cur.0 as int, cur.1 as int), #[trigger] p.take(i)) != (
                    spec_forbidden(kind).0 as int,
                    spec_forbidden(kind).1 as int,
                )
            },
    decreases manhattan(cur, goal), 1nat,
{
    let fb = spec_forbidden(kind);
    let ps = paths_from(kind, cur, goal);
    if cur == goal {
        assert forall|k: int| #![trigger ps[k]] 0 <= k < ps.len() implies {
            let p = ps[k];
            &&& p.len() == manhattan(cur, goal) + 1
            &&& forall|j: int| 0 <= j < p.len() ==> valid_sym(PadKind::Directional, #[trigger] p[j])
            &&& p[p.len() - 1] == 'A'
            &&& walk((cur.0 as int, cur.1 as int), p) == (goal.0 as int, goal.1 as int)
            &&& forall|i: int| 0 <= i <= p.len() ==> walk((cur.0 as int, cur.1 as int), #[trigger] p.take(i)) != (
                fb.0 as int,
                fb.1 as int,
            )
        } by {
            let p = ps[k];
            reveal_with_fuel(walk, 3);
            assert(p == seq!['A']);
            assert(p[0] == 'A');
            assert(p.drop_first() =~= Seq::<char>::empty());
            assert(walk((cur.0 as int, cur.1 as int), p) == (cur.0 as int, cur.1 as int));
            assert forall|i: int| 0 <= i <= p.len() implies walk(
                (cur.0 as int, cur.1 as int),
                #[trigger] p.take(i),
            ) != (fb.0 as int, fb.1 as int) by {
                if i == 0 {
                    assert(p.take(0) =~= Seq::<char>::empty());
                    assert(walk((cur.0 as int, cur.1 as int), p.take(i)) == (
                        cur.0 as int,
                        cur.1 as int,
                    ));
                } else {
                    assert(p.take(i) =~= p);
                }
            }
        }
    } else {
        let left = if goal.1 < cur.1 && !row_run_blocked(fb, cur.0, cur.1, goal.1) {
            prefix_all(
                run_of('<', (cur.1 - goal.1) as nat),
                paths_from(kind, Point(cur.0, goal.1), goal),
            )
        } else {
            Seq::empty()
        };
        let up = if goal.0 < cur.0 && !col_run_blocked(fb, cur.1, cur.0, goal.0) {
            prefix_all(
                run_of('^', (cur.0 - goal.0) as nat),
                paths_from(kind, Point(goal.0, cur.1), goal),
            )
        } else {
            Seq::empty()
        };
        let right = if goal.1 > cur.1 && !row_run_blocked(fb, cur.0, cur.1, goal.1) {
            prefix_all(
                run_of('>', (goal.1 - cur.1) as nat),
                paths_from(kind, Point(cur.0, goal.1), goal),
            )
        } else {
            Seq::empty()
        };
        let down = if goal.0 > cur.0 && !col_run_blocked(fb, cur.1, cur.0, goal.0) {
            prefix_all(
                run_of('v', (goal.0 - cur.0) as nat),
                paths_from(kind, Point(goal.0, cur.1), goal),
            )
        } else {
            Seq::empty()
        };
        assert(ps == left + up + right + down);
        if goal.1 < cur.1 && !row_run_blocked(fb, cur.0, cur.1, goal.1) {
            let n = (cur.1 - goal.1) as nat;
            let land = Point(cur.0, goal.1);
            lemma_run_cell_axis(cur, '<', n as int);
            assert forall|i: int| 1 <= i < n implies run_cell(cur, '<', i) != (
                fb.0 as int,
                fb.1 as int,
            ) by {
                lemma_run_cell_axis(cur, '<', i);
            }
            lemma_paths_branch_sound(kind, cur, goal, '<', n, land);
        }
        if goal.0 < cur.0 && !col_run_blocked(fb, cur.1, cur.0, goal.0) {
            let n = (cur.0 - goal.0) as nat;
            let land = Point(goal.0, cur.1);
            lemma_run_cell_axis(cur, '^', n as int);
            assert forall|i: int| 1 <= i < n implies run_cell(cur, '^', i) != (
                fb.0 as int,
                fb.1 as int,
            ) by {
                lemma_run_cell_axis(cur, '^', i);
            }
            lemma_paths_branch_sound(kind, cur, goal, '^', n, land);
        }
        if goal.1 > cur.1 && !row_run_blocked(fb, cur.0, cur.1, goal.1) {
            let n = (goal.1 - cur.1) as nat;
            let land = Point(cur.0, goal.1);
            lemma_run_cell_axis(cur, '>', n as int);
            assert forall|i: int| 1 <= i < n implies run_cell(cur, '>', i) != (
                fb.0 as int,
                fb.1 as int,
            ) by {
                lemma_run_cell_axis(cur, '>', i);
            }
            lemma_paths_branch_sound(kind, cur, goal, '>', n, land);
        }
        if goal.0 > cur.0 && !col_run_blocked(fb, cur.1, cur.0, goal.0) {
            let n = (goal.0 - cur.0) as nat;
            let land = Point(goal.0, cur.1);
            lemma_run_cell_axis(cur, 'v', n as int);
            assert forall|i: int| 1 <= i < n implies run_cell(cur, 'v', i) != (
                fb.0 as int,
                fb.1 as int,
            ) by {
                lemma_run_cell_axis(cur, 'v', i);
            }
            lemma_paths_branch_sound(kind, cur, goal, 'v', n, land);
        }
        assert forall|k: int| #![trigger ps[k]] 0 <= k < ps.len() implies {
            let p = ps[k];
            &&& p.len() == manhattan(cur, goal) + 1
            &&& forall|j: int| 0 <= j < p.len() ==> valid_sym(PadKind::Directional, #[trigger] p[j])
            &&& p[p.len() - 1] == 'A'
            &&& walk((cur.0 as int, cur.1 as int), p) == (goal.0 as int, goal.1 as int)
            &&& forall|i: int| 0 <= i <= p.len() ==> walk((cur.0 as int, cur.1 as int), #[trigger] p.take(i)) != (
                fb.0 as int,
                fb.1 as int,
            )
        } by {
            if k < left.len() {
                assert(ps[k] == left[k]);
            } else if k < left.len() + up.len() {
                assert(ps[k] == up[k - left.len()]);
            } else if k < left.len() + up.len() + right.len() {
                assert(ps[k] == right[k - left.len() - up.len()]);
            } else {
                assert(ps[k] == down[k - left.len() - up.len() - right.len()]);
            }
        }
    }
}

/// One direction branch of the path soundness argument: all paths that
/// start with a full run toward the goal in one axis are sound, given that
/// the paths from the run's landing cell are.
proof fn lemma_paths_branch_sound(
    kind: PadKind,
    cur: Point,
    goal: Point,
    mov: char,
    n: nat,
    land: Point,
)
    requires
        cur != spec_forbidden(kind),
        goal != spec_forbidden(kind),
        land != spec_forbidden(kind),
        n >= 1,
        valid_sym(PadKind::Directional, mov),
        (land.0 as int, land.1 as int) == run_cell(cur, mov, n as int),
        manhattan(land, goal) + n == manhattan(cur, goal),
        forall|i: int|
            1 <= i < n ==> #[trigger] run_cell(cur, mov, i) != (
                spec_forbidden(kind).0 as int,
                spec_forbidden(kind).1 as int,
            ),
    ensures
        forall|k: int| #![trigger prefix_all(run_of(mov, n), paths_from(kind, land, goal))[k]]
            0 <= k < prefix_all(run_of(mov, n), paths_from(kind, land, goal)).len() ==> {
                let p = prefix_all(run_of(mov, n), paths_from(kind, land, goal))[k];
                &&& p.len() == manhattan(cur, goal) + 1
                &&& forall|j: int| 0 <= j < p.len() ==> valid_sym(PadKind::Directional, #[trigger] p[j])
                &&& p[p.len() - 1] == 'A'
                &&& walk((cur.0 as int, cur.1 as int), p) == (goal.0 as int, goal.1 as int)
                &&& forall|i: int| 0 <= i <= p.len() ==> walk((cur.0 as int, cur.1 as int), #[trigger] p.take(i)) != (
                    spec_forbidden(kind).0 as int,
                    spec_forbidden(kind).1 as int,
                )
            },
    decreases manhattan(cur, goal), 0nat,
{
    let fb = spec_forbidden(kind);
    let run = run_of(mov, n);
    let sub = paths_from(kind, land, goal);
    lemma_paths_sound(kind, land, goal);
    assert forall|k: int| #![trigger prefix_all(run, sub)[k]] 0 <= k < prefix_all(
        run,
        sub,
    ).len() implies {
        let p = prefix_all(run, sub)[k];
        &&& p.len() == manhattan(cur, goal) + 1
        &&& forall|j: int| 0 <= j < p.len() ==> valid_sym(PadKind::Directional, #[trigger] p[j])
        &&& p[p.len() - 1] == 'A'
        &&& walk((cur.0 as int, cur.1 as int), p) == (goal.0 as int, goal.1 as int)
        &&& forall|i: int| 0 <= i <= p.len() ==> walk((cur.0 as int, cur.1 as int), #[trigger] p.take(i)) != (
            fb.0 as int,
            fb.1 as int,
        )
    } by {
        let p = prefix_all(run, sub)[k];
        let q = sub[k];
        assert(p == run + q);
        assert(q.len() == manhattan(land, goal) + 1);
        assert(p[p.len() - 1] == q[q.len() - 1]);
        assert forall|j: int| 0 <= j < p.len() implies valid_sym(
            PadKind::Directional,
            #[trigger] p[j],
        ) by {
            if j >= n {
                assert(p[j] == q[j - n]);
            }
        }
        lemma_walk_app((cur.0 as int, cur.1 as int), run, q);
        lemma_walk_run((cur.0 as int, cur.1 as int), mov, n, n as int);
        assert(run.take(n as int) =~= run);
        assert forall|i: int| 0 <= i <= p.len() implies walk(
            (cur.0 as int, cur.1 as int),
            #[trigger] p.take(i),
        ) != (fb.0 as int, fb.1 as int) by {
            if i <= n {
                assert(p.take(i) =~= run.take(i));
                lemma_walk_run((cur.0 as int, cur.1 as int), mov, n, i);
                if i == 0 {
                } else if i < n {
                    assert(run_cell(cur, mov, i) != (fb.0 as int, fb.1 as int));
                } else {
                    assert(walk((cur.0 as int, cur.1 as int), run.take(i)) == (
                        land.0 as int,
                        land.1 as int,
                    ));
                }
            } else {
                assert(p.take(i) =~= run + q.take(i - n));
                lemma_walk_app((cur.0 as int, cur.1 as int), run, q.take(i - n));
            }
        }
    }
}

/// The cell `w` lies in the axis-aligned rectangle spanned by `cur` and
/// `goal`.
pub open spec fn in_box(cur: Point, goal: Point, w: (int, int)) -> bool {
    &&& (if cur.0 <= goal.0 {
        cur.0 <= w.0 <= goal.0
    } else {
        goal.0 <= w.0 <= cur.0
    })
    &&& (if cur.1 <= goal.1 {
        cur.1 <= w.1 <= goal.1
    } else {
        goal.1 <= w.1 <= cur.1
    })
}

/// Every enumerated path walks inside the rectangle spanned by its two
/// endpoints, at every intermediate cell.
pub proof fn lemma_paths_in_box(kind: PadKind, cur: Point, goal: Point)
    ensures
        forall|k: int, i: int| #![trigger paths_from(kind, cur, goal)[k].take(i)]
            0 <= k < paths_from(kind, cur, goal).len() && 0 <= i <= paths_from(
                kind,
                cur,
                goal,
            )[k].len() ==> in_box(
                cur,
                goal,
                walk((cur.0 as int, cur.1 as int), paths_from(kind, cur, goal)[k].take(i)),
            ),
    decreases manhattan(cur, goal), 1nat,
{
    let fb = spec_forbidden(kind);
    let ps = paths_from(kind, cur, goal);
    if cur == goal {
        assert forall|k: int, i: int| #![trigger ps[k].take(i)]
            0 <= k < ps.len() && 0 <= i <= ps[k].len() implies in_box(
            cur,
            goal,
            walk((cur.0 as int, cur.1 as int), ps[k].take(i)),
        ) by {
            let p = ps[k];
            reveal_with_fuel(walk, 3);
            assert(p == seq!['A']);
            assert(p[0] == 'A');
            if i == 0 {
                assert(p.take(0) =~= Seq::<char>::empty());
            } else {
                assert(p.take(i) =~= p);
                assert(p.drop_first() =~= Seq::<char>::empty());
            }
        }
    } else {
        let left = if goal.1 < cur.1 && !row_run_blocked(fb, cur.0, cur.1, goal.1) {
            prefix_all(
                run_of('<', (cur.1 - goal.1) as nat),
                paths_from(kind, Point(cur.0, goal.1), goal),
            )
        } else {
            Seq::empty()
        };
        let up = if goal.0 < cur.0 && !col_run_blocked(fb, cur.1, cur.0, goal.0) {
            prefix_all(
                run_of('^', (cur.0 - goal.0) as nat),
                paths_from(kind, Point(goal.0, cur.1), goal),
            )
        } else {
            Seq::empty()
        };
        let right = if goal.1 > cur.1 && !row_run_blocked(fb, cur.0, cur.1, goal.1) {
            prefix_all(
                run_of('>', (goal.1 - cur.1) as nat),
                paths_from(kind, Point(cur.0, goal.1), goal),
            )
        } else {
            Seq::empty()
        };
        let down = if goal.0 > cur.0 && !col_run_blocked(fb, cur.1, cur.0, goal.0) {
            prefix_all(
                run_of('v', (goal.0 - cur.0) as nat),
                paths_from(kind, Point(goal.0, cur.1), goal),
            )
        } else {
            Seq::empty()
        };
        assert(ps == left + up + right + down);
        if goal.1 < cur.1 && !row_run_blocked(fb, cur.0, cur.1, goal.1) {
            let n = (cur.1 - goal.1) as nat;
            let land = Point(cur.0, goal.1);
            assert forall|i: int| 0 <= i <= n implies in_box(
                cur,
                goal,
                #[trigger] run_cell(cur, '<', i),
            ) by {
                lemma_run_cell_axis(cur, '<', i);
            }
            lemma_run_cell_axis(cur, '<', n as int);
            lemma_paths_branch_in_box(kind, cur, goal, '<', n, land);
        }
        if goal.0 < cur.0 && !col_run_blocked(fb, cur.1, cur.0, goal.0) {
            let n = (cur.0 - goal.0) as nat;
            let land = Point(goal.0, cur.1);
            assert forall|i: int| 0 <= i <= n implies in_box(
                cur,
                goal,
                #[trigger] run_cell(cur, '^', i),
            ) by {
                lemma_run_cell_axis(cur, '^', i);
            }
            lemma_run_cell_axis(cur, '^', n as int);
            lemma_paths_branch_in_box(kind, cur, goal, '^', n, land);
        }
        if goal.1 > cur.1 && !row_run_blocked(fb, cur.0, cur.1, goal.1) {
            let n = (goal.1 - cur.1) as nat;
            let land = Point(cur.0, goal.1);
            assert forall|i: int| 0 <= i <= n implies in_box(
                cur,
                goal,
                #[trigger] run_cell(cur, '>', i),
            ) by {
                lemma_run_cell_axis(cur, '>', i);
            }
            lemma_run_cell_axis(cur, '>', n as int);
            lemma_paths_branch_in_box(kind, cur, goal, '>', n, land);
        }
        if goal.0 > cur.0 && !col_run_blocked(fb, cur.1, cur.0, goal.0) {
            let n = (goal.0 - cur.0) as nat;
            let land = Point(goal.0, cur.1);
            assert forall|i: int| 0 <= i <= n implies in_box(
                cur,
                goal,
                #[trigger] run_cell(cur, 'v', i),
            ) by {
                lemma_run_cell_axis(cur, 'v', i);
            }
            lemma_run_cell_axis(cur, 'v', n as int);
            lemma_paths_branch_in_box(kind, cur, goal, 'v', n, land);
        }
        assert forall|k: int, i: int| #![trigger ps[k].take(i)]
            0 <= k < ps.len() && 0 <= i <= ps[k].len() implies in_box(
            cur,
            goal,
            walk((cur.0 as int, cur.1 as int), ps[k].take(i)),
        ) by {
            if k < left.len() {
                assert(ps[k] == left[k]);
                assert(left[k].take(i) == ps[k].take(i));
            } else if k < left.len() + up.len() {
                assert(ps[k] == up[k - left.len()]);
                assert(up[k - left.len()].take(i) == ps[k].take(i));
            } else if k < left.len() + up.len() + right.len() {
                assert(ps[k] == right[k - left.len() - up.len()]);
                assert(right[k - left.len() - up.len()].take(i) == ps[k].take(i));
            } else {
                assert(ps[k] == down[k - left.len() - up.len() - right.len()]);
                assert(down[k - left.len() - up.len() - right.len()].take(i) == ps[k].take(i));
            }
        }
    }
}

/// The box argument for one direction branch: the run's cells sit in the
/// box by assumption, and everything after the landing cell sits in the
/// smaller box the landing cell spans with the goal.
proof fn lemma_paths_branch_in_box(
    kind: PadKind,
    cur: Point,
    goal: Point,
    mov: char,
    n: nat,
    land: Point,
)
    requires
        n >= 1,
        (land.0 as int, land.1 as int) == run_cell(cur, mov, n as int),
        manhattan(land, goal) + n == manhattan(cur, goal),
        in_box(cur, goal, (land.0 as int, land.1 as int)),
        forall|i: int| 0 <= i <= n ==> in_box(cur, goal, #[trigger] run_cell(cur, mov, i)),
    ensures
        forall|k: int, i: int|
            #![trigger prefix_all(run_of(mov, n), paths_from(kind, land, goal))[k].take(i)]
            0 <= k < prefix_all(run_of(mov, n), paths_from(kind, land, goal)).len() && 0 <= i
                <= prefix_all(run_of(mov, n), paths_from(kind, land, goal))[k].len() ==> in_box(
                cur,
                goal,
                walk(
                    (cur.0 as int, cur.1 as int),
                    prefix_all(run_of(mov, n), paths_from(kind, land, goal))[k].take(i),
                ),
            ),
    decreases manhattan(cur, goal), 0nat,
{
    let run = run_of(mov, n);
    let sub = paths_from(kind, land, goal);
    lemma_paths_in_box(kind, land, goal);
    assert forall|k: int, i: int| #![trigger prefix_all(run, sub)[k].take(i)]
        0 <= k < prefix_all(run, sub).len() && 0 <= i <= prefix_all(run, sub)[k].len() implies in_box(
        cur,
        goal,
        walk((cur.0 as int, cur.1 as int), prefix_all(run, sub)[k].take(i)),
    ) by {
        let p = prefix_all(run, sub)[k];
        let q = sub[k];
        assert(p == run + q);
        lemma_walk_run((cur.0 as int, cur.1 as int), mov, n, n as int);
        assert(run.take(n as int) =~= run);
        if i <= n {
            assert(p.take(i) =~= run.take(i));
            lemma_walk_run((cur.0 as int, cur.1 as int), mov, n, i);
            assert(in_box(cur, goal, run_cell(cur, mov, i)));
        } else {
            assert(p.take(i) =~= run + q.take(i - n));
            lemma_walk_app((cur.0 as int, cur.1 as int), run, q.take(i - n));
            assert(in_box(land, goal, walk((land.0 as int, land.1 as int), q.take(i - n))));
        }
    }
}

/// Where the keys of each layout may sit: the numeric keypad spans four
/// rows and three columns, the directional one two rows and three columns.
pub open spec fn pad_bounds(kind: PadKind, w: (int, int)) -> bool {
    match kind {
        PadKind::Numeric => 0 <= w.0 <= 3 && 0 <= w.1 <= 2,
        PadKind::Directional => 0 <= w.0 <= 1 && 0 <= w.1 <= 2,
    }
}

/// Every in-range cell of a layout except the forbidden one carries a key:
/// the grids are full rectangles with a single hole.
pub proof fn lemma_cell_is_key(kind: PadKind, w: (int, int))
    requires
        pad_bounds(kind, w),
        w != (spec_forbidden(kind).0 as int, spec_forbidden(kind).1 as int),
    ensures
        exists|c: char|
            (#[trigger] spec_key_pos(kind, c)) matches Some(q) && q.0 == w.0 && q.1 == w.1,
{
    if kind == PadKind::Numeric {
        if w == (0int, 0int) {
            assert(spec_key_pos(kind, '7') == Some(Point(0, 0)));
        } else if w == (0int, 1int) {
            assert(spec_key_pos(kind, '8') == Some(Point(0, 1)));
        } else if w == (0int, 2int) {
            assert(spec_key_pos(kind, '9') == Some(Point(0, 2)));
        } else if w == (1int, 0int) {
            assert(spec_key_pos(kind, '4') == Some(Point(1, 0)));
        } else if w == (1int, 1int) {
            assert(spec_key_pos(kind, '5') == Some(Point(1, 1)));
        } else if w == (1int, 2int) {
            assert(spec_key_pos(kind, '6') == Some(Point(1, 2)));
        } else if w == (2int, 0int) {
            assert(spec_key_pos(kind, '1') == Some(Point(2, 0)));
        } else if w == (2int, 1int) {
            assert(spec_key_pos(kind, '2') == Some(Point(2, 1)));
        } else if w == (2int, 2int) {
            assert(spec_key_pos(kind, '3') == Some(Point(2, 2)));
        } else if w == (3int, 1int) {
            assert(spec_key_pos(kind, '0') == Some(Point(3, 1)));
        } else {
            assert(w == (3int, 2int));
            assert(spec_key_pos(kind, 'A') == Some(Point(3, 2)));
        }
    } else {
        if w == (0int, 1int) {
            assert(spec_key_pos(kind, '^') == Some(Point(0, 1)));
        } else if w == (0int, 2int) {
            assert(spec_key_pos(kind, 'A') == Some(Point(0, 2)));
        } else if w == (1int, 0int) {
            assert(spec_key_pos(kind, '<') == Some(Point(1, 0)));
        } else if w == (1int, 1int) {
            assert(spec_key_pos(kind, 'v') == Some(Point(1, 1)));
        } else {
            assert(w == (1int, 2int));
            assert(spec_key_pos(kind, '>') == Some(Point(1, 2)));
        }
    }
}

/// Every enumerated path between two keys walks over key cells only: each
/// intermediate cell of the walk carries a key of the same keypad. With
/// the forbidden-cell exclusion this pins the walk to the keys proper.
pub proof fn lemma_paths_on_keys(kind: PadKind, a: char, b: char)
    requires
        valid_sym(kind, a),
        valid_sym(kind, b),
    ensures
        forall|k: int, i: int|
            #![trigger paths_from(kind, pos_of(kind, a), pos_of(kind, b))[k].take(i)]
            0 <= k < paths_from(kind, pos_of(kind, a), pos_of(kind, b)).len() && 0 <= i
                <= paths_from(kind, pos_of(kind, a), pos_of(kind, b))[k].len() ==> exists|c: char|
                (#[trigger] spec_key_pos(kind, c)) matches Some(q) && (q.0 as int, q.1 as int)
                    == walk(
                    (pos_of(kind, a).0 as int, pos_of(kind, a).1 as int),
                    paths_from(kind, pos_of(kind, a), pos_of(kind, b))[k].take(i),
                ),
{
    let pa = pos_of(kind, a);
    let pb = pos_of(kind, b);
    let ps = paths_from(kind, pa, pb);
    lemma_layout_well_formed(kind);
    assert(spec_key_pos(kind, a) == Some(pa));
    assert(spec_key_pos(kind, b) == Some(pb));
    lemma_paths_sound(kind, pa, pb);
    lemma_paths_in_box(kind, pa, pb);
    assert forall|k: int, i: int| #![trigger ps[k].take(i)]
        0 <= k < ps.len() && 0 <= i <= ps[k].len() implies exists|c: char|
        (#[trigger] spec_key_pos(kind, c)) matches Some(q) && (q.0 as int, q.1 as int) == walk(
        (pa.0 as int, pa.1 as int),
        ps[k].take(i),
    ) by {
        let w = walk((pa.0 as int, pa.1 as int), ps[k].take(i));
        assert(in_box(pa, pb, w));
        assert(pad_bounds(kind, (pa.0 as int, pa.1 as int)) && pad_bounds(
            kind,
            (pb.0 as int, pb.1 as int),
        ));
        assert(w != (spec_forbidden(kind).0 as int, spec_forbidden(kind).1 as int));
        lemma_cell_is_key(kind, w);
    }
}

/// The enumerator always finds at least one path between two cells, as long
/// as neither is the forbidden cell and, when they are aligned, the single
/// straight run between them is not blocked. For two cells that are not
/// aligned, one of the two L-shaped routes is always clear, because the one
/// forbidden cell cannot block both.
pub proof fn lemma_paths_nonempty(kind: PadKind, cur: Point, goal: Point)
    requires
        cur != spec_forbidden(kind),
        goal != spec_forbidden(kind),
        cur.0 == goal.0 && cur.1 != goal.1 ==> !row_run_blocked(
            spec_forbidden(kind),
            cur.0,
            cur.1,
            goal.1,
        ),
        cur.1 == goal.1 && cur.0 != goal.0 ==> !col_run_blocked(
            spec_forbidden(kind),
            cur.1,
            cur.0,
            goal.0,
        ),
    ensures
        paths_from(kind, cur, goal).len() >= 1,
    decreases manhattan(cur, goal),
{
    let fb = spec_forbidden(kind);
    let ps = paths_from(kind, cur, goal);
    if cur == goal {
    } else {
        let left = if goal.1 < cur.1 && !row_run_blocked(fb, cur.0, cur.1, goal.1) {
            prefix_all(
                run_of('<', (cur.1 - goal.1) as nat),
                paths_from(kind, Point(cur.0, goal.1), goal),
            )
        } else {
            Seq::empty()
        };
        let up = if goal.0 < cur.0 && !col_run_blocked(fb, cur.1, cur.0, goal.0) {
            prefix_all(
                run_of('^', (cur.0 - goal.0) as nat),
                paths_from(kind, Point(goal.0, cur.1), goal),
            )
        } else {
            Seq::empty()
        };
        let right = if goal.1 > cur.1 && !row_run_blocked(fb, cur.0, cur.1, goal.1) {
            prefix_all(
                run_of('>', (goal.1 - cur.1) as nat),
                paths_from(kind, Point(cur.0, goal.1), goal),
            )
        } else {
            Seq::empty()
        };
        let down = if goal.0 > cur.0 && !col_run_blocked(fb, cur.1, cur.0, goal.0) {
            prefix_all(
                run_of('v', (goal.0 - cur.0) as nat),
                paths_from(kind, Point(goal.0, cur.1), goal),
            )
        } else {
            Seq::empty()
        };
        assert(ps == left + up + right + down);
        if cur.0 == goal.0 {
            lemma_paths_nonempty(kind, Point(cur.0, goal.1), goal);
        } else if cur.1 == goal.1 {
            lemma_paths_nonempty(kind, Point(goal.0, cur.1), goal);
        } else if !row_run_blocked(fb, cur.0, cur.1, goal.1) && !col_run_blocked(
            fb,
            goal.1,
            cur.0,
            goal.0,
        ) {
            let land = Point(cur.0, goal.1);
            assert(land != fb);
            lemma_paths_nonempty(kind, land, goal);
        } else {
            let land = Point(goal.0, cur.1);
            assert(!col_run_blocked(fb, cur.1, cur.0, goal.0));
            assert(!row_run_blocked(fb, goal.0, cur.1, goal.1));
            assert(land != fb);
            lemma_paths_nonempty(kind, land, goal);
        }
    }
}

/// On both keypad layouts, no two keys that share a row or a column have
/// the forbidden cell between them, so there is always at least one minimal
/// path between two keys.
pub proof fn lemma_key_paths_nonempty(kind: PadKind, pa: Point, pb: Point)
    requires
        exists|a: char| spec_key_pos(kind, a) == Some(pa),
        exists|b: char| spec_key_pos(kind, b) == Some(pb),
    ensures
        paths_from(kind, pa, pb).len() >= 1,
{
    let a = choose|a: char| spec_key_pos(kind, a) == Some(pa);
    let b = choose|b: char| spec_key_pos(kind, b) == Some(pb);
    lemma_paths_nonempty(kind, pa, pb);
}

/// The keypad that a sequence at the given indirection depth is typed on:
/// the numeric keypad for the code itself, a directional keypad for every
/// layer above it.
pub open spec fn kind_at(depth: nat) -> PadKind {
    if depth == 0 {
        PadKind::Numeric
    } else {
        PadKind::Directional
    }
}

/// Cost of producing the transition from key `a` to key `b` (walk, then
/// press) at `depth`, with `max` the depth whose keys the operator presses
/// directly. At `max` the cost is the length of a minimal move sequence,
/// which is the Manhattan distance plus one activate press; above it, it is
/// the cheapest way to type any one of the minimal move sequences one layer
/// up. Symbols that are not keys of the keypad get cost 0; callers rule
/// them out.
pub open spec fn pair_cost(a: char, b: char, depth: nat, max: nat) -> nat
    decreases max - depth, 0nat, 0nat, 1nat,
{
    let kind = kind_at(depth);
    match (spec_key_pos(kind, a), spec_key_pos(kind, b)) {
        (Some(pa), Some(pb)) => pos_pair_cost(pa, pb, depth, max),
        _ => 0,
    }
}

/// As `pair_cost`, but for the cell positions of the two keys.
pub open spec fn pos_pair_cost(pa: Point, pb: Point, depth: nat, max: nat) -> nat
    decreases max - depth, 0nat, 0nat, 0nat,
{
    if depth >= max {
        manhattan(pa, pb) + 1
    } else {
        min_path_cost(paths_from(kind_at(depth), pa, pb), depth + 1, max)
    }
}

/// The cheapest cost, at `depth`, of any of the candidate move sequences in
/// `ps` (0 if there are none; the enumerator never returns none).
pub open spec fn min_path_cost(ps: Seq<Seq<char>>, depth: nat, max: nat) -> nat
    decreases max - depth, 2nat, ps.len(), 0nat,
{
    if depth > max || ps.len() == 0 {
        0
    } else if ps.len() == 1 {
        seq_cost(ps[0], depth, max)
    } else {
        let first = seq_cost(ps[0], depth, max);
        let rest = min_path_cost(ps.drop_first(), depth, max);
        if first <= rest {
            first
        } else {
            rest
        }
    }
}

/// Total cost of producing the sequence `s` at `depth`: the sum of the
/// pair-transition costs, starting from the resting key `A`.
pub open spec fn seq_cost(s: Seq<char>, depth: nat, max: nat) -> nat
    decreases max - depth, 1nat, s.len(), 1nat,
{
    if depth > max {
        0
    } else {
        seq_cost_from(s, 'A', depth, max)
    }
}

/// As `seq_cost`, but starting from the key `prev`.
pub open spec fn seq_cost_from(s: Seq<char>, prev: char, depth: nat, max: nat) -> nat
    decreases max - depth, 1nat, s.len(), 0nat,
{
    if depth > max || s.len() == 0 {
        0
    } else {
        pair_cost(prev, s[0], depth, max) + seq_cost_from(s.drop_first(), s[0], depth, max)
    }
}

/// Extending a sequence by one symbol adds one pair-transition cost: the
/// step fact behind the executable left-to-right accumulation.
pub proof fn lemma_seq_cost_from_take_step(s: Seq<char>, prev: char, depth: nat, max: nat, i: int)
    requires
        depth <= max,
        0 <= i < s.len(),
    ensures
        seq_cost_from(s.take(i + 1), prev, depth, max) == seq_cost_from(s.take(i), prev, depth, max)
            + pair_cost(
            if i == 0 {
                prev
            } else {
                s[i - 1]
            },
            s[i],
            depth,
            max,
        ),
    decreases i,
{
    if i == 0 {
        reveal_with_fuel(seq_cost_from, 3);
        assert(s.take(0) =~= Seq::<char>::empty());
        assert(s.take(1)[0] == s[0]);
        assert(s.take(1).drop_first() =~= Seq::<char>::empty());
    } else {
        let sdf = s.drop_first();
        lemma_seq_cost_from_take_step(sdf, s[0], depth, max, i - 1);
        assert(s.take(i + 1).drop_first() =~= sdf.take(i));
        assert(s.take(i).drop_first() =~= sdf.take(i - 1));
        assert(s.take(i + 1)[0] == s[0]);
        assert(s.take(i)[0] == s[0]);
        assert(sdf[i - 1] == s[i]);
        if i > 1 {
            assert(sdf[i - 2] == s[i - 1]);
        }
        assert(seq_cost_from(s.take(i + 1), prev, depth, max) == pair_cost(prev, s[0], depth, max)
            + seq_cost_from(sdf.take(i), s[0], depth, max));
        assert(seq_cost_from(s.take(i), prev, depth, max) == pair_cost(prev, s[0], depth, max)
            + seq_cost_from(sdf.take(i - 1), s[0], depth, max));
    }
}

/// Extending the candidate list by one path takes the smaller of the old
/// minimum and the new path's cost: the step fact behind the executable
/// minimum over candidates.
pub proof fn lemma_min_path_cost_take_step(ps: Seq<Seq<char>>, depth: nat, max: nat, i: int)
    requires
        depth <= max,
        0 < i < ps.len(),
    ensures
        min_path_cost(ps.take(i + 1), depth, max) == if min_path_cost(ps.take(i), depth, max)
            <= seq_cost(ps[i], depth, max) {
            min_path_cost(ps.take(i), depth, max)
        } else {
            seq_cost(ps[i], depth, max)
        },
    decreases i,
{
    let psdf = ps.drop_first();
    if i == 1 {
        reveal_with_fuel(min_path_cost, 3);
        assert(ps.take(1)[0] == ps[0]);
        assert(ps.take(2)[0] == ps[0]);
        assert(ps.take(2).drop_first() =~= psdf.take(1));
        assert(psdf.take(1)[0] == ps[1]);
    } else {
        lemma_min_path_cost_take_step(psdf, depth, max, i - 1);
        assert(ps.take(i + 1).drop_first() =~= psdf.take(i));
        assert(ps.take(i).drop_first() =~= psdf.take(i - 1));
        assert(ps.take(i + 1)[0] == ps[0]);
        assert(ps.take(i)[0] == ps[0]);
        assert(psdf[i - 1] == ps[i]);
        assert(min_path_cost(ps.take(i + 1), depth, max) == if seq_cost(ps[0], depth, max)
            <= min_path_cost(psdf.take(i), depth, max) {
            seq_cost(ps[0], depth, max)
        } else {
            min_path_cost(psdf.take(i), depth, max)
        });
        assert(min_path_cost(ps.take(i), depth, max) == if seq_cost(ps[0], depth, max)
            <= min_path_cost(psdf.take(i - 1), depth, max) {
            seq_cost(ps[0], depth, max)
        } else {
            min_path_cost(psdf.take(i - 1), depth, max)
        });
    }
}

/// The cost of the first candidate alone.
pub proof fn lemma_min_path_cost_one(ps: Seq<Seq<char>>, depth: nat, max: nat)
    requires
        depth <= max,
        ps.len() >= 1,
    ensures
        min_path_cost(ps.take(1), depth, max) == seq_cost(ps[0], depth, max),
{
    assert(ps.take(1)[0] == ps[0]);
}

/// `n`, capped at the largest `u64`: all executable costs are computed with
/// saturating arithmetic, so they equal the mathematical cost whenever that
/// cost fits in 64 bits, and `u64::MAX` otherwise.
pub open spec fn cap(n: nat) -> u64 {
    if n > u64::MAX {
        u64::MAX
    } else {
        n as u64
    }
}

/// Saturating addition.
pub fn sat_add(a: u64, b: u64) -> (r: u64)
    ensures
        r == cap((a + b) as nat),
{
    if a > u64::MAX - b {
        u64::MAX
    } else {
        a + b
    }
}

/// Saturating multiplication.
pub fn sat_mul(a: u64, b: u64) -> (r: u64)
    ensures
        r == cap((a * b) as nat),
{
    match a.checked_mul(b) {
        Some(v) => v,
        None => u64::MAX,
    }
}

/// Capping commutes with addition: adding capped values and capping the
/// exact sum agree.
pub proof fn lemma_cap_add(x: nat, y: nat)
    ensures
        cap((cap(x) + cap(y)) as nat) == cap(x + y),
{
}

/// Capping commutes with taking the smaller of two costs.
pub proof fn lemma_cap_min(x: nat, y: nat)
    ensures
        (if cap(x) <= cap(y) {
            cap(x)
        } else {
            cap(y)
        }) == cap(if x <= y {
            x
        } else {
            y
        }),
{
}

/// The cache key of the transition from cell `pa` to cell `pb` at `depth`:
/// the depth, then the four coordinates packed as base-4 digits.
pub open spec fn enc_key(depth: nat, pa: Point, pb: Point) -> u64 {
    (depth * 256 + pa.0 * 64 + pa.1 * 16 + pb.0 * 4 + pb.1) as u64
}

/// A cell of the 4-row, 3-column grids both keypads live on. The bound of 3
/// on both coordinates is what the cache key packing needs.
pub open spec fn small_cell(p: Point) -> bool {
    p.0 <= 3 && p.1 <= 3
}

/// Distinct (depth, cell, cell) triples get distinct cache keys.
#[verifier::rlimit(50)]
#[verifier::spinoff_prover]
pub proof fn lemma_enc_key_injective(d1: nat, pa1: Point, pb1: Point, d2: nat, pa2: Point, pb2: Point)
    requires
        small_cell(pa1) && small_cell(pb1) && small_cell(pa2) && small_cell(pb2),
        d1 < 0x0100_0000_0000_0000,
        d2 < 0x0100_0000_0000_0000,
        enc_key(d1, pa1, pb1) == enc_key(d2, pa2, pb2),
    ensures
        d1 == d2 && pa1 == pa2 && pb1 == pb2,
{
    let r1 = (pa1.0 * 64 + pa1.1 * 16 + pb1.0 * 4 + pb1.1) as nat;
    let r2 = (pa2.0 * 64 + pa2.1 * 16 + pb2.0 * 4 + pb2.1) as nat;
    assert(d1 * 256 + r1 == d2 * 256 + r2 && r1 < 256 && r2 < 256 ==> d1 == d2 && r1 == r2)
        by (nonlinear_arith);
    assert(d1 * 256 + r1 < 0x1_0000_0000_0000_0000) by (nonlinear_arith)
        requires
            d1 < 0x0100_0000_0000_0000,
            r1 < 256,
    ;
    assert(d2 * 256 + r2 < 0x1_0000_0000_0000_0000) by (nonlinear_arith)
        requires
            d2 < 0x0100_0000_0000_0000,
            r2 < 256,
    ;
}

/// The memo of transition costs, keyed by depth and cell pair. Every stored
/// value is the capped cost of its transition, for the chain length the
/// cache was created for.
pub struct CostCache {
    map: HashMap<u64, u64>,
    max_depth: u64,
}

impl CostCache {
    /// The chain length this cache is for.
    pub closed spec fn spec_max_depth(self) -> u64 {
        self.max_depth
    }

    /// The stored entries, as a map from key to capped cost.
    pub closed spec fn entries(self) -> Map<u64, u64> {
        self.map@
    }

    /// Every entry of the cache is the capped cost of the transition its
    /// key encodes.
    pub closed spec fn wf(self) -> bool {
        &&& self.max_depth < 0x0100_0000_0000_0000
        &&& forall|d: nat, pa: Point, pb: Point|
            small_cell(pa) && small_cell(pb) && d <= self.max_depth && self.map@.contains_key(
                #[trigger] enc_key(d, pa, pb),
            ) ==> self.map@[enc_key(d, pa, pb)] == cap(
                pos_pair_cost(pa, pb, d, self.max_depth as nat),
            )
    }

    /// An empty cache for one run of the solver with the given chain
    /// length.
    pub fn new(max_depth: u64) -> (r: CostCache)
        requires
            max_depth < 0x0100_0000_0000_0000,
        ensures
            r.wf(),
            r.spec_max_depth() == max_depth,
            r.entries() == Map::<u64, u64>::empty(),
    {
        CostCache { map: HashMap::new(), max_depth }
    }

    /// How many transitions have been evaluated and stored so far.
    pub fn len(&self) -> (r: usize)
        ensures
            r == self.entries().len(),
    {
        self.map.len()
    }
}

impl Keypad {
    /// The run-grouped distance-minimal move sequences from the cell `cur`
    /// to the cell `goal` on this keypad, each ending in one activate
    /// press; none of them ever touches the forbidden cell.
    pub fn paths_between(&self, cur: Point, goal: Point) -> (r: Vec<Vec<char>>)
        ensures
            r.deep_view() == paths_from(self.kind, cur, goal),
        decreases manhattan(cur, goal),
    {
        let mut res: Vec<Vec<char>> = Vec::new();
        if cur == goal {
            let mut p: Vec<char> = Vec::new();
            p.push('A');
            proof {
                assert(p@ =~= seq!['A']);
            }
            res.push(p);
            proof {
                assert(res.deep_view() =~~= paths_from(self.kind, cur, goal));
            }
            return res;
        }
        let fb = self.forbidden();
        let ghost all = paths_from(self.kind, cur, goal);
        if goal.1 < cur.1 && !(fb.0 == cur.0 && goal.1 <= fb.1 && fb.1 < cur.1) {
            let sub = self.paths_between(Point(cur.0, goal.1), goal);
            push_prefixed(&mut res, '<', cur.1 - goal.1, &sub);
        }
        if goal.0 < cur.0 && !(fb.1 == cur.1 && goal.0 <= fb.0 && fb.0 < cur.0) {
            let sub = self.paths_between(Point(goal.0, cur.1), goal);
            push_prefixed(&mut res, '^', cur.0 - goal.0, &sub);
        }
        if goal.1 > cur.1 && !(fb.0 == cur.0 && cur.1 < fb.1 && fb.1 <= goal.1) {
            let sub = self.paths_between(Point(cur.0, goal.1), goal);
            push_prefixed(&mut res, '>', goal.1 - cur.1, &sub);
        }
        if goal.0 > cur.0 && !(fb.1 == cur.1 && cur.0 < fb.0 && fb.0 <= goal.0) {
            let sub = self.paths_between(Point(goal.0, cur.1), goal);
            push_prefixed(&mut res, 'v', goal.0 - cur.0, &sub);
        }
        proof {
            assert(res.deep_view() =~~= all);
        }
        res
    }
}

/// The position of a symbol on a keypad, for symbols known to be keys.
pub open spec fn pos_of(kind: PadKind, c: char) -> Point {
    match spec_key_pos(kind, c) {
        Some(p) => p,
        None => Point(0, 0),
    }
}

/// The cache key of the transition from `a` to `b` at `depth`.
pub open spec fn pair_key(a: char, b: char, depth: nat) -> u64 {
    enc_key(depth, pos_of(kind_at(depth), a), pos_of(kind_at(depth), b))
}

/// Every sequence typed at `depth` must consist of keys of that depth's
/// keypad.
pub open spec fn valid_seq(kind: PadKind, s: Seq<char>) -> bool {
    forall|i: int| 0 <= i < s.len() ==> valid_sym(kind, #[trigger] s[i])
}

/// Storing a value that agrees with any value already present keeps every
/// earlier entry intact.
proof fn lemma_insert_keeps_entries(old_e: Map<u64, u64>, pre: Map<u64, u64>, k: u64, v: u64)
    requires
        old_e.submap_of(pre),
        pre.contains_key(k) ==> pre[k] == v,
    ensures
        old_e.submap_of(pre.insert(k, v)),
{
    assert forall|k2: u64| old_e.dom().contains(k2) implies pre.insert(k, v).dom().contains(k2)
        && old_e[k2] == pre.insert(k, v)[k2] by {
        let in_pre = pre.dom().contains(k2);
        assert(in_pre && old_e[k2] == pre[k2]);
    }
}

/// The cost of the transition from key `a` to key `b` at `depth`, looked up
/// in the cache or computed and stored. A transition that is already cached
/// is returned as it is, with the cache untouched.
#[verifier::rlimit(60)]
pub fn eval_pair(
    n_pad: &Keypad,
    d_pad: &Keypad,
    a: char,
    b: char,
    depth: u64,
    max_depth: u64,
    cache: &mut CostCache,
) -> (r: u64)
    requires
        n_pad.kind == PadKind::Numeric,
        d_pad.kind == PadKind::Directional,
        depth <= max_depth,
        old(cache).wf(),
        old(cache).spec_max_depth() == max_depth,
        valid_sym(kind_at(depth as nat), a),
        valid_sym(kind_at(depth as nat), b),
    ensures
        r == cap(pair_cost(a, b, depth as nat, max_depth as nat)),
        final(cache).wf(),
        final(cache).spec_max_depth() == max_depth,
        final(cache).entries().contains_key(pair_key(a, b, depth as nat)),
        old(cache).entries().submap_of(final(cache).entries()),
        old(cache).entries().contains_key(pair_key(a, b, depth as nat)) ==> final(cache).entries()
            == old(cache).entries(),
    decreases max_depth - depth, 0nat,
{
    let ghost kind = kind_at(depth as nat);
    let pad = if depth == 0 {
        n_pad
    } else {
        d_pad
    };
    let pa = pad.key_pos(a).unwrap();
    let pb = pad.key_pos(b).unwrap();
    proof {
        lemma_layout_well_formed(kind);
    }
    let k = depth * 256 + (pa.0 as u64) * 64 + (pa.1 as u64) * 16 + (pb.0 as u64) * 4 + (
    pb.1 as u64);
    proof {
        assert(k == enc_key(depth as nat, pa, pb));
        assert(k == pair_key(a, b, depth as nat));
    }
    if let Some(v) = cache.map.get(&k) {
        return *v;
    }
    let paths = pad.paths_between(pa, pb);
    let ghost pf = paths_from(kind, pa, pb);
    proof {
        lemma_paths_sound(kind, pa, pb);
        assert(spec_key_pos(kind, a) == Some(pa));
        assert(spec_key_pos(kind, b) == Some(pb));
        lemma_key_paths_nonempty(kind, pa, pb);
        assert(paths@.len() == pf.len());
    }
    let result: u64;
    if depth == max_depth {
        let mut best: usize = paths[0].len();
        proof {
            assert(paths@[0].deep_view() =~= paths@[0]@);
            assert(best == pf[0].len());
        }
        let mut j: usize = 1;
        while j < paths.len()
            invariant
                1 <= j <= paths@.len(),
                paths.deep_view() == pf,
                pf.len() >= 1,
                forall|t: int| #![trigger pf[t]] 0 <= t < pf.len() ==> pf[t].len() == manhattan(pa, pb) + 1,
                best == manhattan(pa, pb) + 1,
            decreases paths@.len() - j,
        {
            proof {
                assert(paths.deep_view()[j as int] == paths@[j as int].deep_view());
                assert(paths@[j as int].deep_view() =~= paths@[j as int]@);
                assert(pf[j as int].len() == manhattan(pa, pb) + 1);
            }
            if paths[j].len() < best {
                best = paths[j].len();
            }
            j = j + 1;
        }
        result = best as u64;
    } else {
        proof {
            assert(valid_seq(PadKind::Directional, pf[0])) by {
                assert(forall|t: int|
                    0 <= t < pf[0].len() ==> valid_sym(PadKind::Directional, #[trigger] pf[0][t]));
            }
            assert(paths@[0]@ =~= pf[0]);
        }
        let mut best = find_shortest_len(n_pad, d_pad, &paths[0], depth + 1, max_depth, cache);
        proof {
            lemma_min_path_cost_one(pf, depth as nat + 1, max_depth as nat);
        }
        let mut j: usize = 1;
        while j < paths.len()
            invariant
                1 <= j <= paths@.len(),
                n_pad.kind == PadKind::Numeric,
                d_pad.kind == PadKind::Directional,
                depth < max_depth,
                kind == kind_at(depth as nat),
                paths.deep_view() == pf,
                pf == paths_from(kind, pa, pb),
                pf.len() >= 1,
                forall|t: int| #![trigger pf[t]]
                    0 <= t < pf.len() ==> valid_seq(PadKind::Directional, pf[t]),
                cache.wf(),
                cache.spec_max_depth() == max_depth,
                old(cache).entries().submap_of(cache.entries()),
                best == cap(min_path_cost(pf.take(j as int), depth as nat + 1, max_depth as nat)),
            decreases paths@.len() - j,
        {
            proof {
                assert(paths@[j as int]@ =~= pf[j as int]);
            }
            let c = find_shortest_len(n_pad, d_pad, &paths[j], depth + 1, max_depth, cache);
            proof {
                lemma_min_path_cost_take_step(pf, depth as nat + 1, max_depth as nat, j as int);
                lemma_cap_min(
                    min_path_cost(pf.take(j as int), depth as nat + 1, max_depth as nat),
                    seq_cost(pf[j as int], depth as nat + 1, max_depth as nat),
                );
            }
            if c < best {
                best = c;
            }
            j = j + 1;
        }
        proof {
            assert(pf.take(pf.len() as int) =~= pf);
        }
        result = best;
    }
    proof {
        assert(result == cap(pos_pair_cost(pa, pb, depth as nat, max_depth as nat)));
    }
    let ghost pre_insert = cache.map@;
    proof {
        assert(cache.entries() == pre_insert);
        assert(old(cache).entries().submap_of(pre_insert));
        if pre_insert.contains_key(k) {
            assert(pre_insert[enc_key(depth as nat, pa, pb)] == cap(
                pos_pair_cost(pa, pb, depth as nat, max_depth as nat),
            ));
        }
        lemma_insert_keeps_entries(old(cache).entries(), pre_insert, k, result);
    }
    cache.map.insert(k, result);
    proof {
        assert(cache.map@ == pre_insert.insert(k, result));
        assert(old(cache).entries().submap_of(cache.map@));
        assert forall|d: nat, qa: Point, qb: Point|
            small_cell(qa) && small_cell(qb) && d <= max_depth && cache.map@.contains_key(
                #[trigger] enc_key(d, qa, qb),
            ) implies cache.map@[enc_key(d, qa, qb)] == cap(
            pos_pair_cost(qa, qb, d, max_depth as nat),
        ) by {
            if enc_key(d, qa, qb) == k {
                lemma_enc_key_injective(d, qa, qb, depth as nat, pa, pb);
            }
        }
    }
    result
}

/// The least number of outermost-operator presses that make the keypad at
/// `depth` type the sequence `pin`, starting from its resting key `A`.
/// `max_depth` is the keypad the operator presses directly; the result is
/// capped at `u64::MAX`.
pub fn find_shortest_len(
    n_pad: &Keypad,
    d_pad: &Keypad,
    pin: &Vec<char>,
    depth: u64,
    max_depth: u64,
    cache: &mut CostCache,
) -> (r: u64)
    requires
        n_pad.kind == PadKind::Numeric,
        d_pad.kind == PadKind::Directional,
        depth <= max_depth,
        old(cache).wf(),
        old(cache).spec_max_depth() == max_depth,
        valid_seq(kind_at(depth as nat), pin@),
    ensures
        r == cap(seq_cost(pin@, depth as nat, max_depth as nat)),
        final(cache).wf(),
        final(cache).spec_max_depth() == max_depth,
        old(cache).entries().submap_of(final(cache).entries()),
    decreases max_depth - depth, 1nat,
{
    let ghost kind = kind_at(depth as nat);
    let mut total: u64 = 0;
    let mut prev: char = 'A';
    let mut i: usize = 0;
    while i < pin.len()
        invariant
            i <= pin@.len(),
            n_pad.kind == PadKind::Numeric,
            d_pad.kind == PadKind::Directional,
            depth <= max_depth,
            kind == kind_at(depth as nat),
            valid_seq(kind, pin@),
            cache.wf(),
            cache.spec_max_depth() == max_depth,
            old(cache).entries().submap_of(cache.entries()),
            total == cap(seq_cost_from(pin@.take(i as int), 'A', depth as nat, max_depth as nat)),
            prev == if i == 0 {
                'A'
            } else {
                pin@[i - 1]
            },
            valid_sym(kind, prev),
        decreases pin@.len() - i,
    {
        let c = pin[i];
        let pc = eval_pair(n_pad, d_pad, prev, c, depth, max_depth, cache);
        proof {
            lemma_seq_cost_from_take_step(pin@, 'A', depth as nat, max_depth as nat, i as int);
            lemma_cap_add(
                seq_cost_from(pin@.take(i as int), 'A', depth as nat, max_depth as nat),
                pair_cost(prev, c, depth as nat, max_depth as nat),
            );
        }
        total = sat_add(total, pc);
        prev = c;
        i = i + 1;
    }
    proof {
        assert(pin@.take(pin@.len() as int) =~= pin@);
    }
    total
}

/// An input that the solver rejects.
#[derive(Debug, Clone, Copy, PartialEq, Eq, Structural)]
pub enum KeypadError {
    /// A symbol that is not a key of the keypad it should be typed on.
    UnknownSymbol,
    /// A code whose value part is not made of digits, or an empty code.
    InvalidCode,
}

/// Capping commutes with multiplication: multiplying capped values and
/// capping the exact product agree.
pub proof fn lemma_cap_mul(x: nat, y: nat)
    ensures
        cap((cap(x) * cap(y)) as nat) == cap(x * y),
{
    if x > u64::MAX && y > u64::MAX {
        assert(x * y > u64::MAX) by (nonlinear_arith)
            requires
                x > u64::MAX,
                y > u64::MAX,
        ;
        assert(cap(x) * cap(y) > u64::MAX) by (nonlinear_arith)
            requires
                cap(x) == u64::MAX,
                cap(y) == u64::MAX,
        ;
    } else if x > u64::MAX {
        if y == 0 {
            assert(cap(x) * cap(y) == 0) by (nonlinear_arith)
                requires
                    cap(y) == 0,
            ;
            assert(x * y == 0) by (nonlinear_arith)
                requires
                    y == 0,
            ;
        } else {
            assert(x * y >= x) by (nonlinear_arith)
                requires
                    y >= 1,
                    x >= 0,
            ;
            assert(cap(x) * cap(y) >= u64::MAX) by (nonlinear_arith)
                requires
                    cap(x) == u64::MAX,
                    cap(y) >= 1,
            ;
        }
    } else if y > u64::MAX {
        if x == 0 {
            assert(cap(x) * cap(y) == 0) by (nonlinear_arith)
                requires
                    cap(x) == 0,
            ;
            assert(x * y == 0) by (nonlinear_arith)
                requires
                    x == 0,
            ;
        } else {
            assert(x * y >= y) by (nonlinear_arith)
                requires
                    x >= 1,
                    y >= 0,
            ;
            assert(cap(x) * cap(y) >= u64::MAX) by (nonlinear_arith)
                requires
                    cap(y) == u64::MAX,
                    cap(x) >= 1,
            ;
        }
    }
}

impl Keypad {
    /// The distance-minimal move sequences from the key `first` to the key
    /// `second` on this keypad: the compositions of maximal straight runs
    /// toward the target, the candidate family the whole evaluator
    /// minimizes over (see `paths_from` on why no other distance-minimal
    /// sequence can beat them). A symbol that is not a key of this keypad
    /// is rejected. Every returned sequence is exactly one activate press
    /// longer than the Manhattan distance between the two keys, its walk
    /// stays on key cells throughout, and it never touches the forbidden
    /// cell.
    pub fn get_paths(&self, first: char, second: char) -> (r: Result<Vec<Vec<char>>, KeypadError>)
        ensures
            r is Ok <==> valid_sym(self.kind, first) && valid_sym(self.kind, second),
            r is Err ==> r == Err::<Vec<Vec<char>>, KeypadError>(KeypadError::UnknownSymbol),
            r matches Ok(v) ==> v.deep_view() == paths_from(
                self.kind,
                pos_of(self.kind, first),
                pos_of(self.kind, second),
            ),
            r matches Ok(v) ==> v.deep_view().len() >= 1,
            r matches Ok(v) ==> forall|k: int|
                0 <= k < v.deep_view().len() ==> (#[trigger] v.deep_view()[k]).len() == manhattan(
                    pos_of(self.kind, first),
                    pos_of(self.kind, second),
                ) + 1,
            r matches Ok(v) ==> forall|k: int, i: int|
                0 <= k < v.deep_view().len() && 0 <= i <= v.deep_view()[k].len() ==> walk(
                    (pos_of(self.kind, first).0 as int, pos_of(self.kind, first).1 as int),
                    #[trigger] v.deep_view()[k].take(i),
                ) != (spec_forbidden(self.kind).0 as int, spec_forbidden(self.kind).1 as int),
            r matches Ok(v) ==> forall|k: int, i: int|
                #![trigger v.deep_view()[k].take(i)]
                0 <= k < v.deep_view().len() && 0 <= i <= v.deep_view()[k].len() ==> exists|
                    c: char,
                |
                    (#[trigger] spec_key_pos(self.kind, c)) matches Some(q) && (
                    q.0 as int,
                    q.1 as int,
                ) == walk(
                    (pos_of(self.kind, first).0 as int, pos_of(self.kind, first).1 as int),
                    v.deep_view()[k].take(i),
                ),
    {
        let pa = match self.key_pos(first) {
            Some(p) => p,
            None => {
                return Err(KeypadError::UnknownSymbol);
            },
        };
        let pb = match self.key_pos(second) {
            Some(p) => p,
            None => {
                return Err(KeypadError::UnknownSymbol);
            },
        };
        proof {
            lemma_layout_well_formed(self.kind);
            lemma_paths_sound(self.kind, pa, pb);
            assert(spec_key_pos(self.kind, first) == Some(pa));
            assert(spec_key_pos(self.kind, second) == Some(pb));
            lemma_key_paths_nonempty(self.kind, pa, pb);
            lemma_paths_on_keys(self.kind, first, second);
        }
        Ok(self.paths_between(pa, pb))
    }
}

/// The numeric value of a digit key, or `None` for any other symbol.
pub open spec fn spec_digit(c: char) -> Option<nat> {
    match c {
        '0' => Some(0nat),
        '1' => Some(1nat),
        '2' => Some(2nat),
        '3' => Some(3nat),
        '4' => Some(4nat),
        '5' => Some(5nat),
        '6' => Some(6nat),
        '7' => Some(7nat),
        '8' => Some(8nat),
        '9' => Some(9nat),
        _ => None,
    }
}

/// The number the digit sequence `d` denotes in decimal; leading zeros do
/// not change it.
pub open spec fn digits_value(d: Seq<char>) -> nat
    decreases d.len(),
{
    if d.len() == 0 {
        0
    } else {
        digits_value(d.drop_last()) * 10 + spec_digit(d.last()).unwrap_or(0)
    }
}

/// A well-formed code: at least one symbol, every symbol a key of the
/// numeric keypad, and everything before the final symbol a digit.
pub open spec fn valid_code(s: Seq<char>) -> bool {
    &&& s.len() >= 1
    &&& valid_seq(PadKind::Numeric, s)
    &&& forall|i: int| 0 <= i < s.len() - 1 ==> spec_digit(#[trigger] s[i]) is Some
}

/// The value a code embeds: its digits, read as one decimal number.
pub open spec fn code_value(s: Seq<char>) -> nat {
    digits_value(s.take(s.len() - 1))
}

/// The answer for a list of codes: the sum over the codes of the minimal
/// outermost press count times the embedded numeric value.
pub open spec fn solve_spec(cs: Seq<Seq<char>>, max: nat) -> nat
    decreases cs.len(),
{
    if cs.len() == 0 {
        0
    } else {
        solve_spec(cs.drop_last(), max) + seq_cost(cs.last(), 0, max) * code_value(cs.last())
    }
}

/// The numeric value of a digit key, or `None` for any other symbol.
fn digit_of(c: char) -> (r: Option<u64>)
    ensures
        r is Some <==> spec_digit(c) is Some,
        r matches Some(v) ==> v == spec_digit(c).unwrap_or(0),
{
    match c {
        '0' => Some(0),
        '1' => Some(1),
        '2' => Some(2),
        '3' => Some(3),
        '4' => Some(4),
        '5' => Some(5),
        '6' => Some(6),
        '7' => Some(7),
        '8' => Some(8),
        '9' => Some(9),
        _ => None,
    }
}

/// The value a code embeds, capped at the largest `u64`.
fn numeric_value(code: &Vec<char>) -> (r: u64)
    requires
        valid_code(code@),
    ensures
        r == cap(code_value(code@)),
{
    let ghost d = code@.take(code@.len() - 1);
    let mut acc: u64 = 0;
    let mut i: usize = 0;
    while i < code.len() - 1
        invariant
            valid_code(code@),
            code@.len() >= 1,
            d == code@.take(code@.len() - 1),
            0 <= i <= code@.len() - 1,
            acc == cap(digits_value(d.take(i as int))),
        decreases code@.len() - 1 - i,
    {
        let dv = match digit_of(code[i]) {
            Some(v) => v,
            None => 0,
        };
        proof {
            assert(d.take(i + 1).drop_last() =~= d.take(i as int));
            assert(d.take(i + 1).last() == code@[i as int]);
            lemma_cap_mul(digits_value(d.take(i as int)), 10);
            lemma_cap_add(digits_value(d.take(i as int)) * 10, spec_digit(code@[i as int]).unwrap_or(0));
        }
        acc = sat_add(sat_mul(acc, 10), dv);
        i = i + 1;
    }
    proof {
        assert(d.take(d.len() as int) =~= d);
    }
    acc
}

/// Checks that a code is well formed.
fn check_code(code: &Vec<char>) -> (r: bool)
    ensures
        r == valid_code(code@),
{
    if code.len() == 0 {
        return false;
    }
    let pad = Keypad::numeric();
    let mut i: usize = 0;
    while i < code.len()
        invariant
            0 <= i <= code@.len(),
            code@.len() >= 1,
            pad.kind == PadKind::Numeric,
            forall|t: int| 0 <= t < i ==> valid_sym(PadKind::Numeric, #[trigger] code@[t]),
            forall|t: int| 0 <= t < i && t < code@.len() - 1 ==> spec_digit(#[trigger] code@[t]) is Some,
        decreases code@.len() - i,
    {
        if pad.key_pos(code[i]).is_none() {
            return false;
        }
        if i < code.len() - 1 && digit_of(code[i]).is_none() {
            return false;
        }
        i = i + 1;
    }
    true
}

/// The grand total for a list of codes at the given chain length: for each
/// code, the minimal number of outermost presses that types it through
/// `chain_length` directional layers, times the code's embedded value,
/// summed over the codes. Any malformed code makes the whole list rejected.
/// The result is exact whenever it fits in a `u64`, and `u64::MAX`
/// otherwise.
pub fn solve(codes: &Vec<Vec<char>>, chain_length: u64) -> (r: Result<u64, KeypadError>)
    requires
        chain_length < 0x0100_0000_0000_0000,
    ensures
        r is Ok <==> (forall|i: int|
            0 <= i < codes.deep_view().len() ==> valid_code(#[trigger] codes.deep_view()[i])),
        r matches Ok(v) ==> v == cap(solve_spec(codes.deep_view(), chain_length as nat)),
        r is Err ==> r == Err::<u64, KeypadError>(KeypadError::InvalidCode),
{
    let ghost cs = codes.deep_view();
    let n_pad = Keypad::numeric();
    let d_pad = Keypad::directional();
    let mut cache = CostCache::new(chain_length);
    let mut total: u64 = 0;
    let mut i: usize = 0;
    while i < codes.len()
        invariant
            0 <= i <= codes@.len(),
            cs == codes.deep_view(),
            n_pad.kind == PadKind::Numeric,
            d_pad.kind == PadKind::Directional,
            chain_length < 0x0100_0000_0000_0000,
            cache.wf(),
            cache.spec_max_depth() == chain_length,
            forall|t: int| 0 <= t < i ==> valid_code(#[trigger] cs[t]),
            total == cap(solve_spec(cs.take(i as int), chain_length as nat)),
        decreases codes@.len() - i,
    {
        proof {
            assert(codes.deep_view()[i as int] == codes@[i as int].deep_view());
            assert(codes@[i as int].deep_view() =~= codes@[i as int]@);
        }
        if !check_code(&codes[i]) {
            return Err(KeypadError::InvalidCode);
        }
        let cost = find_shortest_len(&n_pad, &d_pad, &codes[i], 0, chain_length, &mut cache);
        let value = numeric_value(&codes[i]);
        proof {
            assert(cs.take(i + 1).drop_last() =~= cs.take(i as int));
            assert(cs.take(i + 1).last() == cs[i as int]);
            lemma_cap_mul(
                seq_cost(cs[i as int], 0, chain_length as nat),
                code_value(cs[i as int]),
            );
            lemma_cap_add(
                solve_spec(cs.take(i as int), chain_length as nat),
                seq_cost(cs[i as int], 0, chain_length as nat) * code_value(cs[i as int]),
            );
        }
        total = sat_add(total, sat_mul(cost, value));
        i = i + 1;
    }
    proof {
        assert(cs.take(cs.len() as int) =~= cs);
    }
    Ok(total)
}

/// The two operating points: a chain of 2 directional layers for the
/// short variant, 25 for the long one.
pub fn solver(codes: &Vec<Vec<char>>, part2: bool) -> (r: Result<u64, KeypadError>)
    ensures
        r is Ok <==> (forall|i: int|
            0 <= i < codes.deep_view().len() ==> valid_code(#[trigger] codes.deep_view()[i])),
        r matches Ok(v) ==> v == cap(
            solve_spec(
                codes.deep_view(),
                if part2 {
                    25nat
                } else {
                    2nat
                },
            ),
        ),
        r is Err ==> r == Err::<u64, KeypadError>(KeypadError::InvalidCode),
{
    solve(codes, if part2 {
        25
    } else {
        2
    })
}

/// Turns lines of raw bytes into codes, one code per line.
pub fn read_data(lines: &Vec<Vec<u8>>) -> (r: Vec<Vec<char>>)
    ensures
        r.deep_view().len() == lines@.len(),
        forall|i: int|
            0 <= i < lines@.len() ==> #[trigger] r.deep_view()[i] == lines@[i]@.map_values(
                |b: u8| b as char,
            ),
{
    let mut r: Vec<Vec<char>> = Vec::new();
    let mut i: usize = 0;
    while i < lines.len()
        invariant
            0 <= i <= lines@.len(),
            r@.len() == i,
            forall|t: int|
                0 <= t < i ==> #[trigger] r.deep_view()[t] == lines@[t]@.map_values(
                    |b: u8| b as char,
                ),
        decreases lines@.len() - i,
    {
        let line = &lines[i];
        let mut code: Vec<char> = Vec::new();
        let mut j: usize = 0;
        while j < line.len()
            invariant
                0 <= j <= line@.len(),
                code@ =~= line@.take(j as int).map_values(|b: u8| b as char),
            decreases line@.len() - j,
        {
            code.push(line[j] as char);
            proof {
                assert(line@.take(j + 1).drop_last() =~= line@.take(j as int));
            }
            j = j + 1;
        }
        proof {
            assert(line@.take(line@.len() as int) =~= line@);
        }
        let ghost cv = code@;
        let ghost prev = r@;
        let ghost prev_dv = r.deep_view();
        r.push(code);
        proof {
            assert forall|t: int| 0 <= t < i implies #[trigger] r.deep_view()[t] == prev_dv[t] by {
                assert(r@[t] == prev[t]);
                assert(r.deep_view()[t] == r@[t].deep_view());
                assert(prev_dv[t] == prev[t].deep_view());
            }
            assert(r.deep_view()[i as int] == r@[i as int].deep_view());
            assert(r@[i as int].deep_view() =~= cv);
            assert(cv =~= lines@[i as int]@.map_values(|b: u8| b as char));
        }
        i = i + 1;
    }
    r
}

/// A minimum over candidates respects a common lower bound.
proof fn lemma_min_path_cost_lb(ps: Seq<Seq<char>>, depth: nat, max: nat, lb: nat)
    requires
        depth <= max,
        ps.len() >= 1,
        forall|t: int| 0 <= t < ps.len() ==> seq_cost(#[trigger] ps[t], depth, max) >= lb,
    ensures
        min_path_cost(ps, depth, max) >= lb,
    decreases ps.len(),
{
    if ps.len() > 1 {
        let psdf = ps.drop_first();
        assert forall|t: int| 0 <= t < psdf.len() implies seq_cost(
            #[trigger] psdf[t],
            depth,
            max,
        ) >= lb by {
            assert(psdf[t] == ps[t + 1]);
        }
        lemma_min_path_cost_lb(psdf, depth, max, lb);
    }
}

/// A minimum over candidates respects a pointwise bound between two chain
/// lengths.
proof fn lemma_min_path_cost_mono_ptwise(ps: Seq<Seq<char>>, depth: nat, m1: nat, m2: nat)
    requires
        depth <= m1 <= m2,
        forall|t: int|
            0 <= t < ps.len() ==> seq_cost(#[trigger] ps[t], depth, m1) <= seq_cost(
                ps[t],
                depth,
                m2,
            ),
    ensures
        min_path_cost(ps, depth, m1) <= min_path_cost(ps, depth, m2),
    decreases ps.len(),
{
    if ps.len() > 1 {
        let psdf = ps.drop_first();
        assert forall|t: int| 0 <= t < psdf.len() implies seq_cost(
            #[trigger] psdf[t],
            depth,
            m1,
        ) <= seq_cost(psdf[t], depth, m2) by {
            assert(psdf[t] == ps[t + 1]);
        }
        lemma_min_path_cost_mono_ptwise(psdf, depth, m1, m2);
    }
}

/// Every transition between keys costs at least one press.
proof fn lemma_pos_pair_cost_pos(pa: Point, pb: Point, depth: nat, max: nat)
    requires
        depth <= max,
        exists|a: char| spec_key_pos(kind_at(depth), a) == Some(pa),
        exists|b: char| spec_key_pos(kind_at(depth), b) == Some(pb),
    ensures
        pos_pair_cost(pa, pb, depth, max) >= 1,
    decreases max - depth, 0nat, 0nat,
{
    let kind = kind_at(depth);
    if depth < max {
        let ps = paths_from(kind, pa, pb);
        lemma_layout_well_formed(kind);
        lemma_key_paths_nonempty(kind, pa, pb);
        lemma_paths_sound(kind, pa, pb);
        assert forall|t: int| 0 <= t < ps.len() implies seq_cost(
            #[trigger] ps[t],
            depth + 1,
            max,
        ) >= 1 by {
            assert(ps[t].len() == manhattan(pa, pb) + 1);
            lemma_seq_cost_ge_len(ps[t], 'A', (depth + 1) as nat, max);
        }
        lemma_min_path_cost_lb(ps, depth + 1, max, 1);
    }
}

/// Producing a sequence takes at least one press per symbol: every layer of
/// indirection can only add work.
pub proof fn lemma_seq_cost_ge_len(s: Seq<char>, prev: char, depth: nat, max: nat)
    requires
        depth <= max,
        valid_seq(kind_at(depth), s),
        valid_sym(kind_at(depth), prev),
    ensures
        seq_cost_from(s, prev, depth, max) >= s.len(),
    decreases max - depth, 1nat, s.len(),
{
    if s.len() > 0 {
        let kind = kind_at(depth);
        let pa = pos_of(kind, prev);
        let pb = pos_of(kind, s[0]);
        assert(spec_key_pos(kind, prev) == Some(pa));
        assert(spec_key_pos(kind, s[0]) == Some(pb));
        lemma_pos_pair_cost_pos(pa, pb, depth, max);
        assert(valid_seq(kind, s.drop_first())) by {
            assert(forall|t: int|
                0 <= t < s.drop_first().len() ==> #[trigger] s.drop_first()[t] == s[t + 1]);
        }
        lemma_seq_cost_ge_len(s.drop_first(), s[0], depth, max);
        assert(pair_cost(prev, s[0], depth, max) == pos_pair_cost(pa, pb, depth, max));
        assert(seq_cost_from(s, prev, depth, max) == pair_cost(prev, s[0], depth, max)
            + seq_cost_from(s.drop_first(), s[0], depth, max));
    }
}

/// Lengthening the controller chain never makes a transition cheaper.
proof fn lemma_pos_pair_cost_mono(pa: Point, pb: Point, depth: nat, m1: nat, m2: nat)
    requires
        depth <= m1 <= m2,
        exists|a: char| spec_key_pos(kind_at(depth), a) == Some(pa),
        exists|b: char| spec_key_pos(kind_at(depth), b) == Some(pb),
    ensures
        pos_pair_cost(pa, pb, depth, m1) <= pos_pair_cost(pa, pb, depth, m2),
    decreases m1 - depth, 0nat, 0nat,
{
    let kind = kind_at(depth);
    if depth == m1 && depth == m2 {
    } else if depth == m1 {
        let ps = paths_from(kind, pa, pb);
        lemma_layout_well_formed(kind);
        lemma_key_paths_nonempty(kind, pa, pb);
        lemma_paths_sound(kind, pa, pb);
        assert forall|t: int| 0 <= t < ps.len() implies seq_cost(
            #[trigger] ps[t],
            depth + 1,
            m2,
        ) >= manhattan(pa, pb) + 1 by {
            assert(ps[t].len() == manhattan(pa, pb) + 1);
            lemma_seq_cost_ge_len(ps[t], 'A', (depth + 1) as nat, m2);
        }
        lemma_min_path_cost_lb(ps, depth + 1, m2, manhattan(pa, pb) + 1);
    } else {
        let ps = paths_from(kind, pa, pb);
        lemma_paths_sound(kind, pa, pb);
        assert forall|t: int| 0 <= t < ps.len() implies seq_cost(
            #[trigger] ps[t],
            depth + 1,
            m1,
        ) <= seq_cost(ps[t], depth + 1, m2) by {
            lemma_seq_cost_mono(ps[t], 'A', (depth + 1) as nat, m1, m2);
        }
        lemma_min_path_cost_mono_ptwise(ps, depth + 1, m1, m2);
    }
}

/// Lengthening the controller chain never makes a sequence cheaper.
pub proof fn lemma_seq_cost_mono(s: Seq<char>, prev: char, depth: nat, m1: nat, m2: nat)
    requires
        depth <= m1 <= m2,
        valid_seq(kind_at(depth), s),
        valid_sym(kind_at(depth), prev),
    ensures
        seq_cost_from(s, prev, depth, m1) <= seq_cost_from(s, prev, depth, m2),
    decreases m1 - depth, 1nat, s.len(),
{
    if s.len() > 0 {
        let kind = kind_at(depth);
        let pa = pos_of(kind, prev);
        let pb = pos_of(kind, s[0]);
        assert(spec_key_pos(kind, prev) == Some(pa));
        assert(spec_key_pos(kind, s[0]) == Some(pb));
        lemma_pos_pair_cost_mono(pa, pb, depth, m1, m2);
        assert(valid_seq(kind, s.drop_first())) by {
            assert(forall|t: int|
                0 <= t < s.drop_first().len() ==> #[trigger] s.drop_first()[t] == s[t + 1]);
        }
        lemma_seq_cost_mono(s.drop_first(), s[0], depth, m1, m2);
        assert(pair_cost(prev, s[0], depth, m1) == pos_pair_cost(pa, pb, depth, m1));
        assert(pair_cost(prev, s[0], depth, m2) == pos_pair_cost(pa, pb, depth, m2));
        assert(seq_cost_from(s, prev, depth, m1) == pair_cost(prev, s[0], depth, m1)
            + seq_cost_from(s.drop_first(), s[0], depth, m1));
        assert(seq_cost_from(s, prev, depth, m2) == pair_cost(prev, s[0], depth, m2)
            + seq_cost_from(s.drop_first(), s[0], depth, m2));
    }
}

/// Raising the chain length never decreases the minimal press count of a
/// code: more indirection layers cannot make production cheaper.
pub proof fn lemma_chain_monotonic(code: Seq<char>, m1: nat, m2: nat)
    requires
        m1 <= m2,
        valid_seq(PadKind::Numeric, code),
    ensures
        seq_cost(code, 0, m1) <= seq_cost(code, 0, m2),
{
    lemma_seq_cost_mono(code, 'A', 0, m1, m2);
}

/// Raising the chain length never decreases the grand total over a list of
/// codes.
pub proof fn lemma_solve_monotonic(cs: Seq<Seq<char>>, m1: nat, m2: nat)
    requires
        m1 <= m2,
        forall|i: int| 0 <= i < cs.len() ==> valid_seq(PadKind::Numeric, #[trigger] cs[i]),
    ensures
        solve_spec(cs, m1) <= solve_spec(cs, m2),
    decreases cs.len(),
{
    if cs.len() > 0 {
        lemma_solve_monotonic(cs.drop_last(), m1, m2);
        lemma_chain_monotonic(cs.last(), m1, m2);
        let c1 = seq_cost(cs.last(), 0, m1);
        let c2 = seq_cost(cs.last(), 0, m2);
        let v = code_value(cs.last());
        assert(c1 * v <= c2 * v) by (nonlinear_arith)
            requires
                c1 <= c2,
                v >= 0,
        ;
    }
}

/// When the two keys differ, every first symbol of an enumerated path is
/// a move, never the activate press.
proof fn lemma_paths_first_is_move(kind: PadKind, cur: Point, goal: Point)
    requires
        cur != goal,
    ensures
        forall|k: int| #![trigger paths_from(kind, cur, goal)[k]]
            0 <= k < paths_from(kind, cur, goal).len() ==> paths_from(kind, cur, goal)[k].len()
                >= 1 && paths_from(kind, cur, goal)[k][0] != 'A',
{
    let fb = spec_forbidden(kind);
    let ps = paths_from(kind, cur, goal);
    let left = if goal.1 < cur.1 && !row_run_blocked(fb, cur.0, cur.1, goal.1) {
        prefix_all(
            run_of('<', (cur.1 - goal.1) as nat),
            paths_from(kind, Point(cur.0, goal.1), goal),
        )
    } else {
        Seq::empty()
    };
    let up = if goal.0 < cur.0 && !col_run_blocked(fb, cur.1, cur.0, goal.0) {
        prefix_all(
            run_of('^', (cur.0 - goal.0) as nat),
            paths_from(kind, Point(goal.0, cur.1), goal),
        )
    } else {
        Seq::empty()
    };
    let right = if goal.1 > cur.1 && !row_run_blocked(fb, cur.0, cur.1, goal.1) {
        prefix_all(
            run_of('>', (goal.1 - cur.1) as nat),
            paths_from(kind, Point(cur.0, goal.1), goal),
        )
    } else {
        Seq::empty()
    };
    let down = if goal.0 > cur.0 && !col_run_blocked(fb, cur.1, cur.0, goal.0) {
        prefix_all(
            run_of('v', (goal.0 - cur.0) as nat),
            paths_from(kind, Point(goal.0, cur.1), goal),
        )
    } else {
        Seq::empty()
    };
    assert(ps == left + up + right + down);
    assert forall|k: int| #![trigger ps[k]] 0 <= k < ps.len() implies ps[k].len() >= 1 && ps[k][0]
        != 'A' by {
        if k < left.len() {
            assert(ps[k] == left[k]);
            assert(left[k] == run_of('<', (cur.1 - goal.1) as nat) + paths_from(
                kind,
                Point(cur.0, goal.1),
                goal,
            )[k]);
        } else if k < left.len() + up.len() {
            assert(ps[k] == up[k - left.len()]);
            assert(up[k - left.len()] == run_of('^', (cur.0 - goal.0) as nat) + paths_from(
                kind,
                Point(goal.0, cur.1),
                goal,
            )[k - left.len()]);
        } else if k < left.len() + up.len() + right.len() {
            assert(ps[k] == right[k - left.len() - up.len()]);
            assert(right[k - left.len() - up.len()] == run_of('>', (goal.1 - cur.1) as nat)
                + paths_from(kind, Point(cur.0, goal.1), goal)[k - left.len() - up.len()]);
        } else {
            assert(ps[k] == down[k - left.len() - up.len() - right.len()]);
            assert(down[k - left.len() - up.len() - right.len()] == run_of(
                'v',
                (goal.0 - cur.0) as nat,
            ) + paths_from(kind, Point(goal.0, cur.1), goal)[k - left.len() - up.len()
                - right.len()]);
        }
    }
}

/// A transition costs at least a walk of the whole distance plus the
/// press, at every depth of the chain.
proof fn lemma_pair_cost_ge_dist(a: char, b: char, depth: nat, max: nat)
    requires
        depth <= max,
        valid_sym(kind_at(depth), a),
        valid_sym(kind_at(depth), b),
    ensures
        pair_cost(a, b, depth, max) >= manhattan(pos_of(kind_at(depth), a), pos_of(kind_at(depth), b))
            + 1,
{
    let kind = kind_at(depth);
    let pa = pos_of(kind, a);
    let pb = pos_of(kind, b);
    assert(spec_key_pos(kind, a) == Some(pa));
    assert(spec_key_pos(kind, b) == Some(pb));
    if depth < max {
        let ps = paths_from(kind, pa, pb);
        lemma_layout_well_formed(kind);
        lemma_key_paths_nonempty(kind, pa, pb);
        lemma_paths_sound(kind, pa, pb);
        assert forall|t: int| 0 <= t < ps.len() implies seq_cost(
            #[trigger] ps[t],
            depth + 1,
            max,
        ) >= manhattan(pa, pb) + 1 by {
            assert(ps[t].len() == manhattan(pa, pb) + 1);
            lemma_seq_cost_ge_len(ps[t], 'A', (depth + 1) as nat, max);
        }
        lemma_min_path_cost_lb(ps, depth + 1, max, (manhattan(pa, pb) + 1) as nat);
    }
}

/// The sequence makes at least one real transition: some symbol differs
/// from the key the cursor rests on just before it.
pub open spec fn has_move(s: Seq<char>, prev: char) -> bool {
    exists|i: int|
        0 <= i < s.len() && #[trigger] s[i] != (if i == 0 {
            prev
        } else {
            s[i - 1]
        })
}

/// A sequence with a real transition costs at least one press more than
/// its length: the moving transition pays for its walk as well.
proof fn lemma_seq_cost_ge_len_plus(s: Seq<char>, prev: char, depth: nat, max: nat)
    requires
        depth <= max,
        valid_seq(kind_at(depth), s),
        valid_sym(kind_at(depth), prev),
        has_move(s, prev),
    ensures
        seq_cost_from(s, prev, depth, max) >= s.len() + 1,
    decreases s.len(),
{
    let kind = kind_at(depth);
    let i = choose|i: int|
        0 <= i < s.len() && #[trigger] s[i] != (if i == 0 {
            prev
        } else {
            s[i - 1]
        });
    assert(valid_seq(kind, s.drop_first())) by {
        assert(forall|t: int|
            0 <= t < s.drop_first().len() ==> #[trigger] s.drop_first()[t] == s[t + 1]);
    }
    if s[0] != prev {
        lemma_pair_cost_ge_dist(prev, s[0], depth, max);
        lemma_layout_well_formed(kind);
        assert(pos_of(kind, prev) != pos_of(kind, s[0]));
        assert(manhattan(pos_of(kind, prev), pos_of(kind, s[0])) >= 1);
        lemma_seq_cost_ge_len(s.drop_first(), s[0], depth, max);
    } else {
        assert(i >= 1);
        lemma_pos_pair_cost_pos(pos_of(kind, prev), pos_of(kind, s[0]), depth, max);
        assert(pair_cost(prev, s[0], depth, max) == pos_pair_cost(
            pos_of(kind, prev),
            pos_of(kind, s[0]),
            depth,
            max,
        ));
        assert(has_move(s.drop_first(), s[0])) by {
            assert(s.drop_first()[i - 1] == s[i]);
            if i >= 2 {
                assert(s.drop_first()[i - 2] == s[i - 1]);
            }
        }
        lemma_seq_cost_ge_len_plus(s.drop_first(), s[0], depth, max);
    }
}

/// A strictly smaller minimum from pointwise strictly smaller costs.
proof fn lemma_min_path_cost_strict_ptwise(ps: Seq<Seq<char>>, depth: nat, m1: nat, m2: nat)
    requires
        depth <= m1 <= m2,
        ps.len() >= 1,
        forall|t: int|
            0 <= t < ps.len() ==> seq_cost(#[trigger] ps[t], depth, m1) < seq_cost(
                ps[t],
                depth,
                m2,
            ),
    ensures
        min_path_cost(ps, depth, m1) < min_path_cost(ps, depth, m2),
    decreases ps.len(),
{
    if ps.len() > 1 {
        let psdf = ps.drop_first();
        assert forall|t: int| 0 <= t < psdf.len() implies seq_cost(
            #[trigger] psdf[t],
            depth,
            m1,
        ) < seq_cost(psdf[t], depth, m2) by {
            assert(psdf[t] == ps[t + 1]);
        }
        lemma_min_path_cost_strict_ptwise(psdf, depth, m1, m2);
    }
}

/// Lengthening the chain strictly raises the cost of a transition that
/// walks at all.
proof fn lemma_pair_cost_mono_strict(a: char, b: char, depth: nat, m1: nat, m2: nat)
    requires
        depth <= m1 < m2,
        valid_sym(kind_at(depth), a),
        valid_sym(kind_at(depth), b),
        a != b,
    ensures
        pair_cost(a, b, depth, m1) < pair_cost(a, b, depth, m2),
    decreases m1 - depth, 0nat,
{
    let kind = kind_at(depth);
    let pa = pos_of(kind, a);
    let pb = pos_of(kind, b);
    assert(spec_key_pos(kind, a) == Some(pa));
    assert(spec_key_pos(kind, b) == Some(pb));
    lemma_layout_well_formed(kind);
    assert(pa != pb);
    assert(manhattan(pa, pb) >= 1);
    let ps = paths_from(kind, pa, pb);
    lemma_key_paths_nonempty(kind, pa, pb);
    lemma_paths_sound(kind, pa, pb);
    lemma_paths_first_is_move(kind, pa, pb);
    if depth == m1 {
        assert forall|t: int| 0 <= t < ps.len() implies seq_cost(
            #[trigger] ps[t],
            depth + 1,
            m2,
        ) >= manhattan(pa, pb) + 2 by {
            assert(ps[t].len() == manhattan(pa, pb) + 1);
            assert(has_move(ps[t], 'A')) by {
                assert(ps[t][0] != 'A');
            }
            lemma_seq_cost_ge_len_plus(ps[t], 'A', (depth + 1) as nat, m2);
        }
        lemma_min_path_cost_lb(ps, depth + 1, m2, (manhattan(pa, pb) + 2) as nat);
    } else {
        assert forall|t: int| 0 <= t < ps.len() implies seq_cost(
            #[trigger] ps[t],
            depth + 1,
            m1,
        ) < seq_cost(ps[t], depth + 1, m2) by {
            assert(has_move(ps[t], 'A')) by {
                assert(ps[t][0] != 'A');
            }
            lemma_seq_cost_mono_strict(ps[t], 'A', (depth + 1) as nat, m1, m2);
        }
        lemma_min_path_cost_strict_ptwise(ps, depth + 1, m1, m2);
    }
}

/// Lengthening the chain strictly raises the cost of a sequence that
/// walks at all.
proof fn lemma_seq_cost_mono_strict(s: Seq<char>, prev: char, depth: nat, m1: nat, m2: nat)
    requires
        depth <= m1 < m2,
        valid_seq(kind_at(depth), s),
        valid_sym(kind_at(depth), prev),
        has_move(s, prev),
    ensures
        seq_cost_from(s, prev, depth, m1) < seq_cost_from(s, prev, depth, m2),
    decreases m1 - depth, 1nat, s.len(),
{
    let kind = kind_at(depth);
    let i = choose|i: int|
        0 <= i < s.len() && #[trigger] s[i] != (if i == 0 {
            prev
        } else {
            s[i - 1]
        });
    assert(valid_seq(kind, s.drop_first())) by {
        assert(forall|t: int|
            0 <= t < s.drop_first().len() ==> #[trigger] s.drop_first()[t] == s[t + 1]);
    }
    if s[0] != prev {
        lemma_pair_cost_mono_strict(prev, s[0], depth, m1, m2);
        lemma_seq_cost_mono(s.drop_first(), s[0], depth, m1, m2);
    } else {
        assert(i >= 1);
        let pa = pos_of(kind, prev);
        let pb = pos_of(kind, s[0]);
        assert(spec_key_pos(kind, prev) == Some(pa));
        assert(spec_key_pos(kind, s[0]) == Some(pb));
        lemma_pos_pair_cost_mono(pa, pb, depth, m1, m2);
        assert(pair_cost(prev, s[0], depth, m1) == pos_pair_cost(pa, pb, depth, m1));
        assert(pair_cost(prev, s[0], depth, m2) == pos_pair_cost(pa, pb, depth, m2));
        assert(has_move(s.drop_first(), s[0])) by {
            assert(s.drop_first()[i - 1] == s[i]);
            if i >= 2 {
                assert(s.drop_first()[i - 2] == s[i - 1]);
            }
        }
        lemma_seq_cost_mono_strict(s.drop_first(), s[0], depth, m1, m2);
    }
}

/// For a code that moves the cursor at all, a longer controller chain
/// strictly raises the minimal press count.
pub proof fn lemma_chain_strictly_monotonic(code: Seq<char>, m1: nat, m2: nat)
    requires
        m1 < m2,
        valid_seq(PadKind::Numeric, code),
        has_move(code, 'A'),
    ensures
        seq_cost(code, 0, m1) < seq_cost(code, 0, m2),
{
    lemma_seq_cost_mono_strict(code, 'A', 0, m1, m2);
}

/// Typing the resting key again costs exactly one press, at every depth of
/// the chain: no movement is needed, only the activate press.
pub proof fn lemma_self_transition(depth: nat, max: nat)
    requires
        depth <= max,
    ensures
        pair_cost('A', 'A', depth, max) == 1,
        seq_cost(seq!['A'], depth, max) == 1,
    decreases max - depth,
{
    let kind = kind_at(depth);
    let pa = pos_of(kind, 'A');
    let single = seq!['A'];
    assert(single.drop_first() =~= Seq::<char>::empty());
    reveal_with_fuel(seq_cost_from, 3);
    if depth < max {
        lemma_self_transition(depth + 1, max);
        let ps = paths_from(kind, pa, pa);
        assert(ps == seq![seq!['A']]);
        assert(ps.len() == 1);
        assert(ps[0] == single);
        assert(min_path_cost(ps, depth + 1, max) == seq_cost(ps[0], depth + 1, max));
    }
}

} // verus!
