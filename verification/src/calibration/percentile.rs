//! Percentiles of the values that a tensor has taken.

use vstd::prelude::*;
use vstd::relations::{sorted_by, total_ordering};

verus! {

/// Where a finite single stands among all of them: the order of these places is
/// the order of the values, with negative zero before zero.
pub open spec fn place(bits: u32) -> int {
    if bits >= 0x8000_0000 {
        0xffff_ffff - bits
    } else {
        bits + 0x8000_0000
    }
}

/// Not after, by value.
pub open spec fn by_value() -> spec_fn(u32, u32) -> bool {
    |a: u32, b: u32| place(a) <= place(b)
}

/// Values from the smallest to the largest.
pub open spec fn in_order(values: Seq<u32>) -> Seq<u32> {
    values.sort_by(by_value())
}

/// How many of `n` values a percentile (in hundredths of a percent) covers: the
/// nearest rank, which is at least the first and at most the last.
pub open spec fn covered(percentile: u32, n: nat) -> nat {
    let rank = (percentile as nat * n + 9999) / 10000;
    if rank < 1 {
        1
    } else if rank > n {
        n
    } else {
        rank
    }
}

/// The bounds that a percentile puts on values: the largest of the covered ones
/// counted from the smallest value up, and the smallest of those counted from the
/// largest value down.
pub open spec fn percentile_bounds(values: Seq<u32>, percentile: u32) -> (u32, u32) {
    let all = in_order(values);
    let k = covered(percentile, all.len());
    (all[all.len() - k], all[k - 1])
}

proof fn lemma_by_value()
    ensures
        total_ordering(by_value()),
{
}

fn is_before(a: u32, b: u32) -> (r: bool)
    ensures
        r == by_value()(a, b),
{
    let p: u32 = if a >= 0x8000_0000 {
        0xffff_ffff - a
    } else {
        a + 0x8000_0000
    };
    let q: u32 = if b >= 0x8000_0000 {
        0xffff_ffff - b
    } else {
        b + 0x8000_0000
    };
    p <= q
}

/// Every value of one list is not after any of another.
spec fn all_before(a: Seq<u32>, b: Seq<u32>) -> bool {
    forall|i: int, j: int|
        0 <= i < a.len() && 0 <= j < b.len() ==> by_value()(#[trigger] a[i], #[trigger] b[j])
}

fn merge(a: &Vec<u32>, b: &Vec<u32>) -> (r: Vec<u32>)
    requires
        sorted_by(a@, by_value()),
        sorted_by(b@, by_value()),
    ensures
        sorted_by(r@, by_value()),
        r@.to_multiset() == a@.to_multiset().add(b@.to_multiset()),
{
    broadcast use vstd::seq_lib::group_to_multiset_ensures;

    let mut r: Vec<u32> = Vec::new();
    let mut i: usize = 0;
    let mut j: usize = 0;
    assert(a@.take(0) =~= Seq::empty());
    assert(b@.take(0) =~= Seq::empty());
    assert(r@.to_multiset() =~= a@.take(0).to_multiset().add(b@.take(0).to_multiset()));
    while i < a.len() || j < b.len()
        invariant
            i <= a@.len(),
            j <= b@.len(),
            sorted_by(a@, by_value()),
            sorted_by(b@, by_value()),
            sorted_by(r@, by_value()),
            all_before(r@, a@.skip(i as int)),
            all_before(r@, b@.skip(j as int)),
            r@.to_multiset() == a@.take(i as int).to_multiset().add(
                b@.take(j as int).to_multiset(),
            ),
        decreases a@.len() - i + b@.len() - j,
    {
        broadcast use vstd::seq_lib::group_to_multiset_ensures;

        let from_a: bool = j >= b.len() || (i < a.len() && is_before(a[i], b[j]));
        let ghost before = r@;
        if from_a {
            let x: u32 = a[i];
            proof {
                assert(a@.skip(i as int)[0] == x);
                assert(a@.take(i + 1) =~= a@.take(i as int).push(x));
                assert(a@.take(i as int).push(x).to_multiset() =~= a@.take(
                    i as int,
                ).to_multiset().insert(x));
                assert(before.push(x).to_multiset() =~= before.to_multiset().insert(x));
                assert(before.push(x).to_multiset() =~= a@.take(i + 1).to_multiset().add(
                    b@.take(j as int).to_multiset(),
                ));
                if j < b@.len() {
                    assert(b@.skip(j as int)[0] == b@[j as int]);
                }
                lemma_pushed(before, x, a@, i as int, b@, j as int);
            }
            r.push(x);
            i = i + 1;
        } else {
            let x: u32 = b[j];
            proof {
                assert(b@.skip(j as int)[0] == x);
                assert(b@.take(j + 1) =~= b@.take(j as int).push(x));
                assert(b@.take(j as int).push(x).to_multiset() =~= b@.take(
                    j as int,
                ).to_multiset().insert(x));
                assert(before.push(x).to_multiset() =~= before.to_multiset().insert(x));
                assert(before.push(x).to_multiset() =~= a@.take(i as int).to_multiset().add(
                    b@.take(j + 1).to_multiset(),
                ));
                lemma_pushed(before, x, b@, j as int, a@, i as int);
            }
            r.push(x);
            j = j + 1;
        }
    }
    assert(a@.take(i as int) =~= a@);
    assert(b@.take(j as int) =~= b@);
    r
}

/// The next value of one list may follow if it is not after the next of the other.
proof fn lemma_pushed(r: Seq<u32>, x: u32, a: Seq<u32>, i: int, b: Seq<u32>, j: int)
    requires
        0 <= i < a.len(),
        0 <= j <= b.len(),
        x == a[i],
        sorted_by(a, by_value()),
        sorted_by(b, by_value()),
        sorted_by(r, by_value()),
        all_before(r, a.skip(i)),
        all_before(r, b.skip(j)),
        j < b.len() ==> by_value()(x, b[j]),
    ensures
        sorted_by(r.push(x), by_value()),
        all_before(r.push(x), a.skip(i + 1)),
        all_before(r.push(x), b.skip(j)),
{
    let s = r.push(x);
    let leq = by_value();
    assert(a.skip(i)[0] == x);
    assert forall|p: int, q: int| 0 <= p < s.len() && 0 <= q < a.skip(i + 1).len() implies leq(
        #[trigger] s[p],
        #[trigger] a.skip(i + 1)[q],
    ) by {
        if p < r.len() {
            assert(a.skip(i)[q + 1] == a.skip(i + 1)[q]);
        } else {
            assert(leq(a[i], a[i + 1 + q]));
        }
    }
    assert forall|p: int, q: int| 0 <= p < s.len() && 0 <= q < b.skip(j).len() implies leq(
        #[trigger] s[p],
        #[trigger] b.skip(j)[q],
    ) by {
        if p < r.len() {
            assert(leq(r[p], b.skip(j)[q]));
        } else if q > 0 {
            assert(leq(b[j], b[j + q]));
        }
    }
    assert forall|p: int, q: int| 0 <= p < q < s.len() implies leq(#[trigger] s[p], #[trigger] s[q]) by {
        if q == r.len() {
            assert(leq(r[p], a.skip(i)[0]));
        } else {
            assert(leq(r[p], r[q]));
        }
    }
}

fn sort_part(v: &Vec<u32>, from: usize, to: usize) -> (r: Vec<u32>)
    requires
        from <= to <= v@.len(),
    ensures
        sorted_by(r@, by_value()),
        r@.to_multiset() == v@.subrange(from as int, to as int).to_multiset(),
    decreases to - from,
{
    if to - from <= 1 {
        let mut r: Vec<u32> = Vec::new();
        if from < to {
            r.push(v[from]);
        }
        assert(r@ =~= v@.subrange(from as int, to as int));
        return r;
    }
    let middle: usize = from + (to - from) / 2;
    let a: Vec<u32> = sort_part(v, from, middle);
    let b: Vec<u32> = sort_part(v, middle, to);
    proof {
        let left = v@.subrange(from as int, middle as int);
        let right = v@.subrange(middle as int, to as int);
        vstd::seq_lib::lemma_multiset_commutative(left, right);
        assert(left + right =~= v@.subrange(from as int, to as int));
    }
    merge(&a, &b)
}

/// Sort values from the smallest to the largest.
pub fn sort(v: &Vec<u32>) -> (r: Vec<u32>)
    ensures
        r@ == in_order(v@),
{
    let r: Vec<u32> = sort_part(v, 0, v.len());
    proof {
        lemma_by_value();
        assert(v@.subrange(0, v@.len() as int) =~= v@);
        v@.lemma_sort_by_ensures(by_value());
        vstd::seq_lib::lemma_sorted_unique(r@, in_order(v@), by_value());
    }
    r
}

proof fn lemma_in_order_len(values: Seq<u32>)
    ensures
        in_order(values).len() == values.len(),
{
    broadcast use vstd::seq_lib::group_to_multiset_ensures;

    lemma_by_value();
    values.lemma_sort_by_ensures(by_value());
    assert(in_order(values).to_multiset().len() == values.to_multiset().len());
}

/// The bounds that a percentile puts on values.
pub fn find_percentile_bounds(values: &Vec<u32>, percentile: u32) -> (r: (u32, u32))
    requires
        values@.len() > 0,
    ensures
        r == percentile_bounds(values@, percentile),
{
    let all: Vec<u32> = sort(values);
    proof {
        lemma_in_order_len(values@);
    }
    let n: usize = all.len();
    assert(percentile as nat * n as nat <= 0xffff_ffff * 0xffff_ffff_ffff_ffff) by (nonlinear_arith)
        requires
            percentile <= 0xffff_ffff,
            n <= 0xffff_ffff_ffff_ffff,
    ;
    let rank: u128 = (percentile as u128 * n as u128 + 9999) / 10000;
    let k: usize = if rank < 1 {
        1
    } else if rank > n as u128 {
        n
    } else {
        rank as usize
    };
    (all[n - k], all[k - 1])
}

/// The whole range: where a percentile covers everything, every value lies within its bounds.
pub proof fn law_full_percentile_is_the_range(values: Seq<u32>, percentile: u32, i: int)
    requires
        0 <= i < values.len(),
        percentile >= 10000,
    ensures
        place(percentile_bounds(values, percentile).0) <= place(values[i]) <= place(
            percentile_bounds(values, percentile).1,
        ),
{
    broadcast use vstd::seq_lib::group_to_multiset_ensures;

    let all = in_order(values);
    let n = values.len();
    lemma_in_order_len(values);
    lemma_by_value();
    values.lemma_sort_by_ensures(by_value());
    assert((percentile as nat * n + 9999) / 10000 >= n) by (nonlinear_arith)
        requires
            percentile >= 10000,
    ;
    assert(covered(percentile, n) == n);
    assert(values.contains(values[i]));
    assert(values.to_multiset().count(values[i]) > 0);
    assert(all.contains(values[i]));
    let j = choose|j: int| 0 <= j < all.len() && all[j] == values[i];
    let leq = by_value();
    if j > 0 {
        assert(leq(all[0], all[j]));
    }
    if j < n - 1 {
        assert(leq(all[j], all[n - 1]));
    }
}

/// A percentile of more than a half puts the bounds the right way round.
pub proof fn law_percentile_bounds_are_ordered(values: Seq<u32>, percentile: u32)
    requires
        values.len() > 0,
        percentile >= 5001,
    ensures
        place(percentile_bounds(values, percentile).0) <= place(
            percentile_bounds(values, percentile).1,
        ),
{
    let all = in_order(values);
    let n = values.len();
    lemma_in_order_len(values);
    lemma_by_value();
    values.lemma_sort_by_ensures(by_value());
    let k = covered(percentile, n);
    assert(2 * ((percentile as nat * n + 9999) / 10000) >= n + 1) by (nonlinear_arith)
        requires
            percentile >= 5001,
            n > 0,
    ;
    let leq = by_value();
    if n - k < k - 1 {
        assert(leq(all[n - k], all[k - 1]));
    }
}

/// Whether a list is another one from the smallest value to the largest.
pub open spec fn is_ranking(all: Seq<u32>, values: Seq<u32>) -> bool {
    &&& all.to_multiset() == values.to_multiset()
    &&& all.len() == values.len()
    &&& forall|i: int, j: int|
        0 <= i <= j < all.len() ==> place(#[trigger] all[i]) <= place(#[trigger] all[j])
}

/// The bounds of a percentile are values themselves, at the nearest rank: ranked
/// from the smallest, no fewer values than the percentile asks for are at or
/// before the upper one, and one fewer is too few. The lower one has the same
/// rank from the largest.
pub proof fn law_percentile_is_the_nearest_rank(values: Seq<u32>, percentile: u32)
    requires
        values.len() > 0,
        0 < percentile <= 10000,
    ensures
        exists|all: Seq<u32>, k: int|
            #![trigger is_ranking(all, values), all[k - 1]]
            {
                &&& is_ranking(all, values)
                &&& 1 <= k <= values.len()
                &&& (k - 1) * 10000 < percentile * values.len() <= k * 10000
                &&& percentile_bounds(values, percentile) == (all[all.len() - k], all[k - 1])
            },
{
    let all = in_order(values);
    let n = values.len();
    lemma_in_order_len(values);
    lemma_by_value();
    values.lemma_sort_by_ensures(by_value());
    let k = covered(percentile, n) as int;
    let leq = by_value();
    assert forall|i: int, j: int| 0 <= i <= j < all.len() implies place(#[trigger] all[i]) <= place(
        #[trigger] all[j],
    ) by {
        if i < j {
            assert(leq(all[i], all[j]));
        }
    }
    let rank = (percentile as nat * n + 9999) / 10000;
    let asked = percentile as int * n;
    assert(0 < asked <= n * 10000) by (nonlinear_arith)
        requires
            0 < percentile <= 10000,
            n > 0,
            asked == percentile as int * n,
    ;
    assert(k == rank);
    assert(is_ranking(all, values));
    assert(all[k - 1] == percentile_bounds(values, percentile).1);
}

} // verus!
