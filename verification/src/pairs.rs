//! Similarity of two columns of location numbers.
//!
//! The first measure pairs the two columns off smallest-to-smallest and
//! sums the distances of the pairs. The second weighs every number of the
//! first column by how often it appears in the second.

use vstd::assert_multisets_equal;
use vstd::prelude::*;
use vstd::seq_lib::group_seq_properties;
use vstd::seq_lib::to_multiset_update;

verus! {

/// The distance of two numbers: the bigger minus the smaller.
pub fn get_difference(n1: i32, n2: i32) -> (r: i64)
    ensures
        r == if n1 > n2 {
            n1 - n2
        } else {
            n2 - n1
        },
{
    if n1 > n2 {
        n1 as i64 - n2 as i64
    } else {
        n2 as i64 - n1 as i64
    }
}

/// A weakly increasing sequence.
pub open spec fn sorted(s: Seq<i32>) -> bool {
    forall|a: int, b: int| 0 <= a < b < s.len() ==> s[a] <= s[b]
}

/// Sorts the numbers in place: afterwards they are weakly increasing and
/// are the same numbers as before.
pub fn sort_numbers(v: &mut Vec<i32>)
    ensures
        sorted(final(v)@),
        final(v)@.to_multiset() == old(v)@.to_multiset(),
{
    broadcast use group_seq_properties, to_multiset_update;

    let n = v.len();
    let mut i: usize = 0;
    while i < n
        invariant
            0 <= i <= n == v@.len(),
            v@.to_multiset() == old(v)@.to_multiset(),
            forall|a: int, b: int| 0 <= a < b < i ==> v@[a] <= v@[b],
            forall|a: int, b: int| 0 <= a < i <= b < n ==> v@[a] <= v@[b],
        decreases n - i,
    {
        let mut m: usize = i;
        let mut j: usize = i + 1;
        while j < n
            invariant
                0 <= i <= m < j <= n == v@.len(),
                forall|t: int| i <= t < j ==> v@[m as int] <= v@[t],
            decreases n - j,
        {
            if v[j] < v[m] {
                m = j;
            }
            j = j + 1;
        }
        let a = v[i];
        let b = v[m];
        let ghost before = v@;
        v.set(i, b);
        v.set(m, a);
        proof {
            before.to_multiset_ensures();
            let mid = before.update(i as int, b);
            assert(v@ =~= mid.update(m as int, a));
            vstd::seq_lib::to_multiset_update(before, i as int, b);
            vstd::seq_lib::to_multiset_update(mid, m as int, a);
            assert(mid[m as int] == b);
            assert(v@.to_multiset() == mid.to_multiset().insert(a).remove(b));
            assert_multisets_equal!(v@.to_multiset(), before.to_multiset());
        }
        i = i + 1;
    }
}

/// The summed distances of the pairs at equal positions.
pub open spec fn sum_diffs(s1: Seq<i32>, s2: Seq<i32>, k: int) -> int
    decreases k,
{
    if k <= 0 {
        0
    } else {
        sum_diffs(s1, s2, k - 1) + if s1[k - 1] > s2[k - 1] {
            s1[k - 1] - s2[k - 1]
        } else {
            s2[k - 1] - s1[k - 1]
        }
    }
}

/// The total similarity of the two columns: sort each, pair the entries
/// off by rank, and sum the pairwise distances. Well-formed input has the
/// two columns of equal length (they are read off the same rows); rows
/// where one column is shorter have no rank partner, so they are ruled
/// out here rather than paired arbitrarily.
pub fn part1(row1: Vec<i32>, row2: Vec<i32>) -> (r: i64)
    requires
        row1@.len() == row2@.len(),
        row1@.len() <= 0x1000_0000,
    ensures
        exists|s1: Seq<i32>, s2: Seq<i32>|
            {
                &&& sorted(s1) && s1.to_multiset() == row1@.to_multiset()
                &&& sorted(s2) && s2.to_multiset() == row2@.to_multiset()
                &&& r == sum_diffs(s1, s2, s1.len() as int)
            },
{
    broadcast use group_seq_properties;

    let mut row1 = row1;
    let mut row2 = row2;
    let ghost m1 = row1@.to_multiset();
    let ghost m2 = row2@.to_multiset();
    sort_numbers(&mut row1);
    sort_numbers(&mut row2);
    proof {
        assert(row1@.len() == m1.len() && row2@.len() == m2.len());
    }
    let mut differences: i64 = 0;
    let mut i: usize = 0;
    while i < row1.len()
        invariant
            0 <= i <= row1@.len(),
            row1@.len() == row2@.len() <= 0x1000_0000,
            differences == sum_diffs(row1@, row2@, i as int),
            0 <= differences <= i * 0x1_0000_0000,
        decreases row1@.len() - i,
    {
        proof {
            assert(i * 0x1_0000_0000 + 0x1_0000_0000 == (i + 1) * 0x1_0000_0000)
                by (nonlinear_arith);
            assert((i + 1) * 0x1_0000_0000 <= 0x1000_0001 * 0x1_0000_0000) by (nonlinear_arith)
                requires
                    0 <= i + 1 <= 0x1000_0001,
            ;
        }
        differences = differences + get_difference(row1[i], row2[i]);
        i = i + 1;
    }
    proof {
        assert(sorted(row1@) && row1@.to_multiset() == m1);
        assert(sorted(row2@) && row2@.to_multiset() == m2);
    }
    differences
}

/// How often `v` appears in `s`, over the first `k` entries.
pub open spec fn count_eq(s: Seq<i32>, v: i32, k: int) -> nat
    decreases k,
{
    if k <= 0 {
        0
    } else {
        count_eq(s, v, k - 1) + if s[k - 1] == v {
            1nat
        } else {
            0nat
        }
    }
}

/// The weighted similarity of the first `k` numbers of `row1`: each
/// weighted by how often it appears in `row2`.
pub open spec fn sum_weighted(row1: Seq<i32>, row2: Seq<i32>, k: int) -> int
    decreases k,
{
    if k <= 0 {
        0
    } else {
        sum_weighted(row1, row2, k - 1) + count_eq(row2, row1[k - 1], row2.len() as int) * row1[k
            - 1]
    }
}

/// Counts how often `v` appears in the row.
fn count_occurrences(row: &Vec<i32>, v: i32) -> (r: usize)
    ensures
        r == count_eq(row@, v, row@.len() as int),
        r <= row@.len(),
{
    let mut r: usize = 0;
    let mut i: usize = 0;
    while i < row.len()
        invariant
            0 <= i <= row@.len(),
            r == count_eq(row@, v, i as int),
            r <= i,
        decreases row@.len() - i,
    {
        if row[i] == v {
            r = r + 1;
        }
        i = i + 1;
    }
    r
}

/// The weighted similarity of the two columns: every number of the first,
/// multiplied by how often the second holds it, summed up.
pub fn part2(row1: Vec<i32>, row2: Vec<i32>) -> (r: i64)
    requires
        row1@.len() <= 0xFFFF,
        row2@.len() <= 0xFFFF,
    ensures
        r == sum_weighted(row1@, row2@, row1@.len() as int),
{
    let mut similarity: i64 = 0;
    let mut i: usize = 0;
    while i < row1.len()
        invariant
            0 <= i <= row1@.len() <= 0xFFFF,
            row2@.len() <= 0xFFFF,
            similarity == sum_weighted(row1@, row2@, i as int),
            -(i * 0x8000_0000_0000) <= similarity <= i * 0x8000_0000_0000,
        decreases row1@.len() - i,
    {
        let count = count_occurrences(&row2, row1[i]);
        proof {
            assert(-0x8000_0000_0000 <= (count as i64) * (row1@[i as int] as i64)
                <= 0x8000_0000_0000) by (nonlinear_arith)
                requires
                    0 <= count <= 0xFFFF,
                    -0x8000_0000 <= row1@[i as int] <= 0x7FFF_FFFF,
            ;
            assert(i * 0x8000_0000_0000 + 0x8000_0000_0000 == (i + 1) * 0x8000_0000_0000)
                by (nonlinear_arith);
            assert((i + 1) * 0x8000_0000_0000 <= 0x10000 * 0x8000_0000_0000) by (nonlinear_arith)
                requires
                    0 <= i + 1 <= 0x10000,
            ;
            assert((count as i64) as int == count_eq(
                row2@,
                row1@[i as int],
                row2@.len() as int,
            ) as int);
            assert((row1@[i as int] as i64) as int == row1@[i as int] as int);
            assert((count as i64) * (row1@[i as int] as i64) == count_eq(
                row2@,
                row1@[i as int],
                row2@.len() as int,
            ) * row1@[i as int]);
        }
        let term: i64 = (count as i64) * (row1[i] as i64);
        similarity = similarity + term;
        i = i + 1;
    }
    similarity
}

} // verus!
