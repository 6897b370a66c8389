//! Faces of a mesh: each a run of points in a shared buffer.

use vstd::prelude::*;

verus! {

/// A face: `count` consecutive points of a buffer, from `start`.
#[derive(Clone, Copy, Debug, PartialEq, Eq, Structural)]
pub struct Polygon {
    start: usize,
    count: usize,
}

pub open spec fn clamp(i: int, n: int) -> int {
    if i < n {
        i
    } else {
        n
    }
}

impl Polygon {
    pub fn new(start: usize, count: usize) -> (r: Polygon)
        ensures
            r.start_spec() == start,
            r.count_spec() == count,
    {
        Polygon { start, count }
    }

    pub closed spec fn start_spec(&self) -> usize {
        self.start
    }

    pub closed spec fn count_spec(&self) -> usize {
        self.count
    }

    /// The face's points: those of `buffer` from `start` on, at most
    /// `count` of them.
    pub fn points<T: Copy>(&self, buffer: &Vec<T>) -> (r: Vec<T>)
        ensures
            r@ == buffer@.subrange(
                clamp(self.start_spec() as int, buffer@.len() as int),
                clamp(self.start_spec() + self.count_spec(), buffer@.len() as int),
            ),
    {
        let n = buffer.len();
        let from = if self.start < n {
            self.start
        } else {
            n
        };
        let to = if self.count <= n - from {
            from + self.count
        } else {
            n
        };
        let mut r: Vec<T> = Vec::new();
        let mut k: usize = from;
        while k < to
            invariant
                n == buffer@.len(),
                from <= k <= to <= n,
                r@ == buffer@.subrange(from as int, k as int),
            decreases to - k,
        {
            r.push(buffer[k]);
            k = k + 1;
            assert(r@ =~= buffer@.subrange(from as int, k as int));
        }
        r
    }
}

} // verus!
