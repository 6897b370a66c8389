//! Small helpers on integers and sequences.

use vstd::prelude::*;
use vstd::relations::{sorted_by, total_ordering};
use vstd::seq_lib::{
    group_to_multiset_ensures, lemma_sorted_unique, to_multiset_build, to_multiset_insert,
};

verus! {

/// The elements of `v` from `start` on, then those before it.
pub fn ring_iter<T: Copy>(v: &Vec<T>, start: usize) -> (r: Vec<T>)
    requires
        start <= v@.len(),
    ensures
        r@ == v@.subrange(start as int, v@.len() as int) + v@.subrange(0, start as int),
{
    let n = v.len();
    let mut r: Vec<T> = Vec::new();
    let mut k: usize = start;
    while k < n
        invariant
            n == v@.len(),
            start <= k <= n,
            r@ == v@.subrange(start as int, k as int),
        decreases n - k,
    {
        r.push(v[k]);
        k = k + 1;
        assert(r@ =~= v@.subrange(start as int, k as int));
    }
    let mut k: usize = 0;
    while k < start
        invariant
            n == v@.len(),
            start <= n,
            k <= start,
            r@ == v@.subrange(start as int, n as int) + v@.subrange(0, k as int),
        decreases start - k,
    {
        r.push(v[k]);
        k = k + 1;
        assert(r@ =~= v@.subrange(start as int, n as int) + v@.subrange(0, k as int));
    }
    r
}

/// The two values in ascending order.
pub fn minmax(lhs: i64, rhs: i64) -> (r: (i64, i64))
    ensures
        r == if lhs <= rhs {
            (lhs, rhs)
        } else {
            (rhs, lhs)
        },
{
    if lhs <= rhs {
        (lhs, rhs)
    } else {
        (rhs, lhs)
    }
}

/// Whether `lhs` would be a new minimum against `rhs`.
pub fn maybe_min(lhs: i64, rhs: i64) -> (r: bool)
    ensures
        r == (lhs < rhs),
{
    lhs < rhs
}

/// Lowers `lhs` to `rhs` where `rhs` is not above it; says whether it did.
pub fn min_in_place(lhs: &mut i64, rhs: i64) -> (r: bool)
    ensures
        r == (*old(lhs) >= rhs),
        *final(lhs) == if *old(lhs) >= rhs {
            rhs
        } else {
            *old(lhs)
        },
{
    if *lhs >= rhs {
        *lhs = rhs;
        return true;
    }
    false
}

pub open spec fn le(a: i64, b: i64) -> bool {
    a <= b
}

/// The middle element of `d` in ascending order: the one at index
/// `len / 2` of the sorted values.
pub fn median(d: Vec<i64>) -> (r: i64)
    requires
        d@.len() > 0,
    ensures
        r == d@.sort_by(|a: i64, b: i64| le(a, b))[(d@.len() / 2) as int],
{
    let sorted = sort_ascending(&d);
    let ghost leq = |a: i64, b: i64| le(a, b);
    proof {
        assert(total_ordering(leq));
        d@.lemma_sort_by_ensures(leq);
        lemma_sorted_unique(sorted@, d@.sort_by(leq), leq);
    }
    sorted[d.len() / 2]
}

/// The values of `d` in ascending order.
fn sort_ascending(d: &Vec<i64>) -> (r: Vec<i64>)
    ensures
        sorted_by(r@, |a: i64, b: i64| le(a, b)),
        r@.to_multiset() == d@.to_multiset(),
        r@.len() == d@.len(),
{
    broadcast use group_to_multiset_ensures;

    let n = d.len();
    let mut r: Vec<i64> = Vec::new();
    let mut i: usize = 0;
    while i < n
        invariant
            n == d@.len(),
            i <= n,
            forall|a: int, b: int| 0 <= a < b < r@.len() ==> #[trigger] r@[a] <= #[trigger] r@[b],
            r@.to_multiset() == d@.subrange(0, i as int).to_multiset(),
            r@.len() == i,
        decreases n - i,
    {
        let x = d[i];
        let mut pos: usize = 0;
        while pos < r.len() && r[pos] <= x
            invariant
                pos <= r@.len(),
                forall|t: int| 0 <= t < pos ==> #[trigger] r@[t] <= x,
            decreases r@.len() - pos,
        {
            pos = pos + 1;
        }
        let ghost r0 = r@;
        r.insert(pos, x);
        proof {
            assert(r@ == r0.insert(pos as int, x));
            assert(d@.subrange(0, i + 1) =~= d@.subrange(0, i as int).push(x));
            to_multiset_insert(r0, pos as int, x);
            to_multiset_build(d@.subrange(0, i as int), x);
            assert forall|a: int, b: int| 0 <= a < b < r@.len() implies #[trigger] r@[a]
                <= #[trigger] r@[b] by {
                if pos < r0.len() {
                    assert(r0[pos as int] > x);
                }
                let a0 = if a < pos { a } else { a - 1 };
                let b0 = if b < pos { b } else { b - 1 };
                if a != pos && b != pos {
                    assert(r@[a] == r0[a0]);
                    assert(r@[b] == r0[b0]);
                } else if a == pos {
                    assert(r@[b] == r0[b0]);
                    if b0 > pos {
                        assert(r0[pos as int] <= r0[b0]);
                    }
                } else {
                    assert(r@[a] == r0[a0]);
                }
            }
        }
        i = i + 1;
    }
    assert(d@.subrange(0, n as int) =~= d@);
    r
}

} // verus!
