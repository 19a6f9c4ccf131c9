//! Claw machines: two buttons, one prize.
//!
//! Button presses move the claw by fixed amounts; pressing the first button
//! costs 3 tokens and the second 1. For each machine the token price is
//! determined by the unique solution of the two linear equations the
//! buttons and prize positions form — or it is 0 when no whole number of
//! presses reaches the prize.

use vstd::arithmetic::div_mod::{lemma_div_multiples_vanish, lemma_div_nonincreasing};
use vstd::assert_by_contradiction;
use vstd::prelude::*;

verus! {

/// One machine: the two button displacements and the prize position.
#[derive(Debug, Clone, Copy, PartialEq, Eq)]
pub struct Machine {
    pub a: (i64, i64),
    pub b: (i64, i64),
    pub prize: (i64, i64),
}

impl Machine {
    /// A machine from its button displacements and prize position.
    pub fn new(a: (i64, i64), b: (i64, i64), prize: (i64, i64)) -> (r: Self)
        ensures
            r.a == a && r.b == b && r.prize == prize,
    {
        Self { a, b, prize }
    }
}

/// The determinant of the two button displacements. The price is defined
/// only for machines whose buttons are not parallel.
pub open spec fn spec_det(m: Machine) -> int {
    m.b.1 * m.a.0 - m.b.0 * m.a.1
}

/// `x` presses of the first button and `y` of the second put the claw on
/// the prize.
pub open spec fn hits_prize(m: Machine, x: int, y: int) -> bool {
    &&& m.a.0 * x + m.b.0 * y == m.prize.0
    &&& m.a.1 * x + m.b.1 * y == m.prize.1
}

/// The bounds within which the price computation is exact: small positive
/// button displacements and a prize that fits the far-away unit
/// conversion.
pub open spec fn machine_wf(m: Machine) -> bool {
    &&& 1 <= m.a.0 <= 10000 && 1 <= m.a.1 <= 10000
    &&& 1 <= m.b.0 <= 10000 && 1 <= m.b.1 <= 10000
    &&& 0 <= m.prize.0 <= 100_000_000_000_000 && 0 <= m.prize.1 <= 100_000_000_000_000
}

/// The token price of a machine: three per press of the first button, one
/// per press of the second, for the unique whole-number press pair that
/// reaches the prize; 0 when no such pair exists. The second variant moves
/// the prize a fixed ten-trillion cells further in both axes first.
pub fn get_price(m: &mut Machine, part2: bool) -> (res: i64)
    requires
        machine_wf(*old(m)),
        spec_det(*old(m)) != 0,
    ensures
        final(m).a == old(m).a && final(m).b == old(m).b,
        final(m).prize.0 == old(m).prize.0 + if part2 {
            10000000000000int
        } else {
            0int
        },
        final(m).prize.1 == old(m).prize.1 + if part2 {
            10000000000000int
        } else {
            0int
        },
        forall|x: int, y: int| hits_prize(*final(m), x, y) ==> res == 3 * x + y,
        !(exists|x: int, y: int| hits_prize(*final(m), x, y)) ==> res == 0,
{
    if part2 {
        m.prize.0 = m.prize.0 + 10000000000000;
        m.prize.1 = m.prize.1 + 10000000000000;
    }
    let ghost mm = *m;
    let ax = m.a.0 as i128;
    let ay = m.a.1 as i128;
    let bx = m.b.0 as i128;
    let by = m.b.1 as i128;
    let px = m.prize.0 as i128;
    let py = m.prize.1 as i128;
    proof {
        assert(by * ax == mm.b.1 * mm.a.0 && bx * ay == mm.b.0 * mm.a.1 && 0 <= by * ax
            <= 100000000 && 0 <= bx * ay <= 100000000 && 0 <= py * ax <= 1110000000000000000 && 0
            <= px * ay <= 1110000000000000000) by (nonlinear_arith)
            requires
                1 <= ax <= 10000 && 1 <= ay <= 10000 && 1 <= bx <= 10000 && 1 <= by <= 10000,
                0 <= px <= 110000000000000 && 0 <= py <= 110000000000000,
                ax == mm.a.0 && ay == mm.a.1 && bx == mm.b.0 && by == mm.b.1,
        ;
    }
    let det = by * ax - bx * ay;
    let num = py * ax - px * ay;
    let (nn, dd) = if det < 0 {
        (-num, -det)
    } else {
        (num, det)
    };
    proof {
        if nn >= 0 {
            lemma_div_nonincreasing(nn as int, dd as int);
            vstd::arithmetic::div_mod::lemma_div_pos_is_pos(nn as int, dd as int);
        } else {
            lemma_div_nonincreasing(-nn as int, dd as int);
            vstd::arithmetic::div_mod::lemma_div_pos_is_pos(-nn as int, dd as int);
        }
    }
    let bq = nn / dd;
    proof {
        assert(-1110000000000000000 <= bq <= 1110000000000000000);
        assert(-11100000000000000000000 <= bq * bx <= 11100000000000000000000) by (nonlinear_arith)
            requires
                -1110000000000000000 <= bq <= 1110000000000000000,
                1 <= bx <= 10000,
        ;
    }
    let anum = px - bq * bx;
    proof {
        if anum >= 0 {
            lemma_div_nonincreasing(anum as int, ax as int);
            vstd::arithmetic::div_mod::lemma_div_pos_is_pos(anum as int, ax as int);
        } else {
            lemma_div_nonincreasing(-anum as int, ax as int);
            vstd::arithmetic::div_mod::lemma_div_pos_is_pos(-anum as int, ax as int);
        }
    }
    let aq = anum / ax;
    proof {
        assert(-11200000000000000000000 <= aq <= 11200000000000000000000);
        assert(-112000000000000000000000000 <= ax * aq <= 112000000000000000000000000
            && -112000000000000000000000000 <= bx * bq <= 112000000000000000000000000
            && -112000000000000000000000000 <= ay * aq <= 112000000000000000000000000
            && -112000000000000000000000000 <= by * bq <= 112000000000000000000000000)
            by (nonlinear_arith)
            requires
                -11200000000000000000000 <= aq <= 11200000000000000000000,
                -1110000000000000000 <= bq <= 1110000000000000000,
                1 <= ax <= 10000 && 1 <= ay <= 10000 && 1 <= bx <= 10000 && 1 <= by <= 10000,
        ;
    }
    let x_chk = ax * aq + bx * bq;
    let y_chk = ay * aq + by * bq;
    if x_chk != px || y_chk != py {
        proof {
            assert_by_contradiction!(!(exists|x: int, y: int| hits_prize(mm, x, y)), {
                let (x, y) = choose|x: int, y: int| hits_prize(mm, x, y);
                assert(num == (det as int) * y) by (nonlinear_arith)
                    requires
                        ax * x + bx * y == px,
                        ay * x + by * y == py,
                        num == py * ax - px * ay,
                        det == by * ax - bx * ay,
                        ax == mm.a.0 && ay == mm.a.1 && bx == mm.b.0 && by == mm.b.1,
                        px == mm.prize.0 && py == mm.prize.1,
                        hits_prize(mm, x, y),
                ;
                assert(nn == (dd as int) * y) by (nonlinear_arith)
                    requires
                        num == (det as int) * y,
                        (det < 0 && nn == -num && dd == -det) || (det >= 0 && nn == num && dd
                            == det),
                ;
                if nn >= 0 {
                    lemma_div_multiples_vanish(y, dd as int);
                } else {
                    lemma_div_multiples_vanish(-y, dd as int);
                    assert((-nn) as int == (dd as int) * (-y)) by (nonlinear_arith)
                        requires
                            nn == (dd as int) * y,
                    ;
                }
                assert(bq == y);
                assert(anum == (ax as int) * x) by (nonlinear_arith)
                    requires
                        ax * x + bx * y == px,
                        anum == px - bq * bx,
                        bq == y,
                ;
                if anum >= 0 {
                    lemma_div_multiples_vanish(x, ax as int);
                } else {
                    lemma_div_multiples_vanish(-x, ax as int);
                    assert((-anum) as int == (ax as int) * (-x)) by (nonlinear_arith)
                        requires
                            anum == (ax as int) * x,
                    ;
                }
                assert(aq == x);
                assert(x_chk == px && y_chk == py) by (nonlinear_arith)
                    requires
                        aq == x && bq == y,
                        ax * x + bx * y == px,
                        ay * x + by * y == py,
                        x_chk == ax * aq + bx * bq,
                        y_chk == ay * aq + by * bq,
                ;
            });
        }
        return 0;
    }
    proof {
        assert(hits_prize(mm, aq as int, bq as int));
        assert((det as int) * bq == num && (det as int) * aq == px * by - py * bx)
            by (nonlinear_arith)
            requires
                ax * aq + bx * bq == px,
                ay * aq + by * bq == py,
                num == py * ax - px * ay,
                det == by * ax - bx * ay,
        ;
        assert forall|x: int, y: int| hits_prize(mm, x, y) implies x == aq && y == bq by {
            assert((det as int) * y == num) by (nonlinear_arith)
                requires
                    ax * x + bx * y == px,
                    ay * x + by * y == py,
                    num == py * ax - px * ay,
                    det == by * ax - bx * ay,
                    ax == mm.a.0 && ay == mm.a.1 && bx == mm.b.0 && by == mm.b.1,
                    px == mm.prize.0 && py == mm.prize.1,
                    hits_prize(mm, x, y),
            ;
            assert(y == bq) by (nonlinear_arith)
                requires
                    (det as int) * y == num,
                    (det as int) * bq == num,
                    det != 0,
            ;
            assert((ax as int) * x == (ax as int) * aq) by (nonlinear_arith)
                requires
                    ax * x + bx * y == px,
                    ax * aq + bx * bq == px,
                    y == bq,
                    ax == mm.a.0 && bx == mm.b.0 && px == mm.prize.0,
                    hits_prize(mm, x, y),
            ;
            assert(x == aq) by (nonlinear_arith)
                requires
                    (ax as int) * x == (ax as int) * aq,
                    ax != 0,
            ;
        }
        assert(-1110000000000000000 <= px * by - py * bx <= 1110000000000000000)
            by (nonlinear_arith)
            requires
                0 <= px <= 110000000000000 && 0 <= py <= 110000000000000,
                1 <= bx <= 10000 && 1 <= by <= 10000,
        ;
        assert(-1110000000000000000 <= bq <= 1110000000000000000 && -1110000000000000000 <= aq
            <= 1110000000000000000) by (nonlinear_arith)
            requires
                (det as int) * bq == num,
                (det as int) * aq == px * by - py * bx,
                det != 0,
                -100000000 <= det <= 100000000,
                -1110000000000000000 <= num <= 1110000000000000000,
                -1110000000000000000 <= px * by - py * bx <= 1110000000000000000,
        ;
    }
    (3 * aq + bq) as i64
}

} // verus!
