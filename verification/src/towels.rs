//! Counting the ways to build striped designs out of towel patterns.
//!
//! A design can be built by laying towel patterns end to end. The number
//! of distinct decompositions obeys a simple recurrence over the position
//! reached so far; the heavy counting is done by an outside path-counting
//! routine over exactly that graph, and the aggregation over designs is
//! verified against the recurrence.

use vstd::prelude::*;

verus! {

/// A position inside a design: how many of its stripes are already built.
#[derive(Debug, PartialEq, Eq, Hash)]
pub struct Pos(pub usize);

/// Pattern `p` can be laid at position `i` of design `d`.
pub open spec fn pattern_matches(p: Seq<u8>, d: Seq<u8>, i: int) -> bool {
    &&& p.len() >= 1
    &&& 0 <= i
    &&& i + p.len() <= d.len()
    &&& d.subrange(i, i + p.len()) == p
}

/// The positions reachable from position `i` by laying one pattern, one
/// entry per matching pattern.
pub open spec fn successor_seq(ps: Seq<Seq<u8>>, d: Seq<u8>, i: int) -> Seq<Pos>
    decreases ps.len(),
{
    if ps.len() == 0 {
        Seq::empty()
    } else {
        successor_seq(ps.drop_last(), d, i) + if pattern_matches(ps.last(), d, i) {
            seq![Pos((i + ps.last().len()) as usize)]
        } else {
            Seq::empty()
        }
    }
}

/// The number of ways to finish the design from position `i`: one when the
/// design is complete, otherwise the sum over every pattern that can be
/// laid here of the ways from the position it reaches.
pub open spec fn ways(ps: Seq<Seq<u8>>, d: Seq<u8>, i: int) -> nat
    decreases d.len() - i, ps.len() + 1,
{
    if i == d.len() {
        1
    } else if !(0 <= i < d.len()) {
        0
    } else {
        ways_sum(ps, ps.len() as int, d, i)
    }
}

/// The ways from `i` summed over the first `k` patterns.
pub open spec fn ways_sum(ps: Seq<Seq<u8>>, k: int, d: Seq<u8>, i: int) -> nat
    decreases d.len() - i, k,
{
    if k <= 0 || !(0 <= i < d.len()) {
        0
    } else {
        ways_sum(ps, k - 1, d, i) + if pattern_matches(ps[k - 1], d, i) {
            ways(ps, d, i + ps[k - 1].len())
        } else {
            0
        }
    }
}

impl Pos {
    /// The positions reachable from here in the given design by laying one
    /// of the patterns.
    pub fn successors(&self, patterns: &Vec<Vec<u8>>, design: &Vec<u8>) -> (r: Vec<Pos>)
        ensures
            r@ == successor_seq(patterns.deep_view(), design@, self.0 as int),
    {
        let mut r: Vec<Pos> = Vec::new();
        let mut k: usize = 0;
        while k < patterns.len()
            invariant
                0 <= k <= patterns@.len(),
                r@ =~= successor_seq(
                    patterns.deep_view().take(k as int),
                    design@,
                    self.0 as int,
                ),
            decreases patterns@.len() - k,
        {
            let p = &patterns[k];
            proof {
                assert(patterns.deep_view()[k as int] == patterns@[k as int].deep_view());
                assert(patterns@[k as int].deep_view() =~= p@);
                assert(patterns.deep_view().take(k + 1).drop_last() =~= patterns.deep_view().take(
                    k as int,
                ));
                assert(patterns.deep_view().take(k + 1).last() == patterns.deep_view()[k as int]);
            }
            if p.len() >= 1 && p.len() <= design.len() && self.0 <= design.len() - p.len() {
                let mut eq = true;
                let mut j: usize = 0;
                let ghost mut wit: int = 0;
                while j < p.len() && eq
                    invariant
                        0 <= j <= p@.len(),
                        p@.len() >= 1,
                        design@.len() <= usize::MAX,
                        self.0 + p@.len() <= design@.len(),
                        eq ==> forall|m: int|
                            0 <= m < j ==> design@[self.0 + m] == #[trigger] p@[m],
                        !eq ==> 0 <= wit < p@.len() && design@[self.0 + wit] != p@[wit],
                    decreases p@.len() - j,
                {
                    if design[self.0 + j] != p[j] {
                        eq = false;
                        proof {
                            wit = j as int;
                        }
                    }
                    j = j + 1;
                }
                let ghost sub = design@.subrange(self.0 as int, self.0 + p@.len());
                proof {
                    if eq {
                        assert(sub =~= p@);
                    } else {
                        assert(sub[wit] == design@[self.0 + wit]);
                        assert(sub != p@);
                    }
                }
                if eq {
                    r.push(Pos(self.0 + p.len()));
                }
            }
            k = k + 1;
        }
        proof {
            assert(patterns.deep_view().take(patterns.deep_view().len() as int)
                =~= patterns.deep_view());
        }
        r
    }
}

/// Relies on pathfinding's count_paths: a memoized depth-first count of
/// the distinct pattern decompositions of the design, over the graph whose
/// nodes are positions and whose edges lay one pattern. The pattern list
/// must be free of empty patterns (the graph is then loop-free) and all
/// the intermediate counts must fit a machine word, since the routine sums
/// in one.
#[verifier::external_body]
fn count_decompositions(patterns: &Vec<Vec<u8>>, design: &Vec<u8>) -> (r: usize)
    requires
        patterns@.len() >= 1,
        forall|k: int| 0 <= k < patterns@.len() ==> (#[trigger] patterns@[k])@.len() >= 1,
        forall|i: int|
            0 <= i <= design@.len() ==> #[trigger] ways(patterns.deep_view(), design@, i)
                <= usize::MAX,
    ensures
        r == ways(patterns.deep_view(), design@, 0),
{
    pathfinding::prelude::count_paths(
        Pos(0),
        |p: &Pos| p.successors(patterns, design),
        |p: &Pos| p.0 == design.len(),
    )
}

/// How many of the designs can be built at all.
pub open spec fn count_constructable(ps: Seq<Seq<u8>>, ds: Seq<Seq<u8>>) -> nat
    decreases ds.len(),
{
    if ds.len() == 0 {
        0
    } else {
        count_constructable(ps, ds.drop_last()) + if ways(ps, ds.last(), 0) > 0 {
            1nat
        } else {
            0nat
        }
    }
}

/// The total number of decompositions over all the designs.
pub open spec fn total_ways(ps: Seq<Seq<u8>>, ds: Seq<Seq<u8>>) -> nat
    decreases ds.len(),
{
    if ds.len() == 0 {
        0
    } else {
        total_ways(ps, ds.drop_last()) + ways(ps, ds.last(), 0)
    }
}

/// How many designs can be built, or in how many different ways all of
/// them can be built.
pub fn solver(patterns: &Vec<Vec<u8>>, designs: &Vec<Vec<u8>>, part2: bool) -> (r: usize)
    requires
        patterns@.len() >= 1,
        forall|k: int| 0 <= k < patterns@.len() ==> (#[trigger] patterns@[k])@.len() >= 1,
        forall|t: int, i: int|
            0 <= t < designs.deep_view().len() && 0 <= i <= designs.deep_view()[t].len()
                ==> #[trigger] ways(patterns.deep_view(), designs.deep_view()[t], i) <= usize::MAX,
        total_ways(patterns.deep_view(), designs.deep_view()) <= usize::MAX,
    ensures
        part2 ==> r == total_ways(patterns.deep_view(), designs.deep_view()),
        !part2 ==> r == count_constructable(patterns.deep_view(), designs.deep_view()),
{
    let ghost ps = patterns.deep_view();
    let ghost ds = designs.deep_view();
    let mut constructable: usize = 0;
    let mut design_count: usize = 0;
    let mut t: usize = 0;
    while t < designs.len()
        invariant
            0 <= t <= ds.len(),
            ps == patterns.deep_view(),
            ds == designs.deep_view(),
            patterns@.len() >= 1,
            forall|k: int| 0 <= k < patterns@.len() ==> (#[trigger] patterns@[k])@.len() >= 1,
            forall|u: int, i: int|
                0 <= u < ds.len() && 0 <= i <= ds[u].len() ==> #[trigger] ways(ps, ds[u], i)
                    <= usize::MAX,
            total_ways(ps, ds) <= usize::MAX,
            constructable <= t,
            constructable == count_constructable(ps, ds.take(t as int)),
            design_count == total_ways(ps, ds.take(t as int)),
        decreases ds.len() - t,
    {
        proof {
            assert(designs.deep_view()[t as int] == designs@[t as int].deep_view());
            assert(designs@[t as int].deep_view() =~= designs@[t as int]@);
            assert(ds.take(t + 1).drop_last() =~= ds.take(t as int));
            assert(ds.take(t + 1).last() == ds[t as int]);
            lemma_total_ways_prefix(ps, ds, t + 1);
        }
        let count = count_decompositions(patterns, &designs[t]);
        if count > 0 {
            constructable = constructable + 1;
            design_count = design_count + count;
        }
        t = t + 1;
    }
    proof {
        assert(ds.take(ds.len() as int) =~= ds);
    }
    if part2 {
        design_count
    } else {
        constructable
    }
}

/// Every prefix of the designs accounts for at most the whole total.
proof fn lemma_total_ways_prefix(ps: Seq<Seq<u8>>, ds: Seq<Seq<u8>>, k: int)
    requires
        0 <= k <= ds.len(),
    ensures
        total_ways(ps, ds.take(k)) <= total_ways(ps, ds),
    decreases ds.len() - k,
{
    if k == ds.len() {
        assert(ds.take(k) =~= ds);
    } else {
        lemma_total_ways_prefix(ps, ds, k + 1);
        assert(ds.take(k + 1).drop_last() =~= ds.take(k));
    }
}

} // verus!
