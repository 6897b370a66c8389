//! The grid: an append-only set of boxes that partitions a root region,
//! with a symmetric adjacency relation repaired on every split.

use crate::geom::{
    aabox_are_adjacent, box_contains, box_wf, boxes_adjacent, lemma_split_partitions,
    box_center, point_in_aabox, split_halves, splittable, AABox, Point,
};
use crate::graph::{relaxed, sat_add, weight, Graph, Node, INFINITY};
use crate::metric::lemma_dist_nonneg;
use vstd::prelude::*;

verus! {

/// An entry of an adjacency list: the neighbor's index, and whether the
/// link may still be used by the search.
#[derive(Clone, Copy, Debug, PartialEq, Eq, Structural)]
pub struct Neighbor {
    pub index: usize,
    pub valid: bool,
}

/// Errors of the grid and of the search.
#[derive(Clone, Copy, Debug, PartialEq, Eq, Structural)]
pub enum SearchError {
    /// A point lies in no box.
    QueryNotFound,
    /// The search tried its whole budget of candidates.
    IterationLimitExceeded,
}

/// Boxes and their adjacency lists, in parallel: `neighbors[i]` lists the
/// boxes that touch `boxes[i]`. Indices are never reused or removed.
pub struct Grid {
    pub root: AABox,
    pub boxes: Vec<AABox>,
    pub neighbors: Vec<Vec<Neighbor>>,
}

/// `row` holds the entry `(j, v)`.
pub open spec fn lists(row: Seq<Neighbor>, j: int, v: bool) -> bool {
    exists|m: int| 0 <= m < row.len() && (#[trigger] row[m]).index == j && row[m].valid == v
}

/// `row` holds an entry for `j`, valid or not.
pub open spec fn links(row: Seq<Neighbor>, j: int) -> bool {
    lists(row, j, true) || lists(row, j, false)
}

/// No index appears twice in a row.
pub open spec fn row_unique(row: Seq<Neighbor>) -> bool {
    forall|a: int, b: int|
        0 <= a < row.len() && 0 <= b < row.len() && a != b ==> #[trigger] row[a].index
            != #[trigger] row[b].index
}

/// Every box of `boxes` lies in `root`, every point of `root` lies in one of
/// them, and no point lies in two.
pub open spec fn partitions(root: AABox, boxes: Seq<AABox>) -> bool {
    &&& forall|i: int, p: Point|
        0 <= i < boxes.len() && #[trigger] box_contains(boxes[i], p) ==> box_contains(root, p)
    &&& forall|p: Point|
        #[trigger] box_contains(root, p) ==> exists|i: int|
            0 <= i < boxes.len() && #[trigger] box_contains(boxes[i], p)
    &&& forall|i: int, j: int, p: Point|
        0 <= i < boxes.len() && 0 <= j < boxes.len() && i != j && #[trigger] box_contains(
            boxes[i],
            p,
        ) ==> !#[trigger] box_contains(boxes[j], p)
}

/// Every entry names another, existing box; rows have no repeated index;
/// and each link is listed from both ends with the same validity.
pub open spec fn adjacency_wf(n: int, adj: Seq<Seq<Neighbor>>) -> bool {
    &&& adj.len() == n
    &&& forall|i: int| 0 <= i < n ==> row_unique(#[trigger] adj[i])
    &&& forall|i: int, j: int, v: bool|
        0 <= i < n && #[trigger] lists(adj[i], j, v) ==> j < n && j != i && lists(
            adj[j],
            i,
            v,
        )
}

/// Every link joins two adjacent boxes.
pub open spec fn links_adjacent(boxes: Seq<AABox>, adj: Seq<Seq<Neighbor>>) -> bool {
    forall|i: int, j: int, v: bool|
        0 <= i < adj.len() && #[trigger] lists(adj[i], j, v) ==> boxes_adjacent(
            boxes[i],
            boxes[j],
        )
}

/// The links of `adj` are those of `old`, plus `a <-> b` as a valid link
/// where `old` had none.
pub open spec fn linked_from(old: Seq<Seq<Neighbor>>, adj: Seq<Seq<Neighbor>>, a: int, b: int) -> bool {
    &&& adj.len() == old.len()
    &&& forall|i: int, j: int, v: bool|
        0 <= i < adj.len() ==> (#[trigger] lists(adj[i], j, v) <==> lists(old[i], j, v) || (v
            && !links(old[a], b) && ((i == a && j == b) || (i == b && j == a))))
}

/// The links of `adj` are those of `old` but `a <-> b`.
pub open spec fn unlinked_from(old: Seq<Seq<Neighbor>>, adj: Seq<Seq<Neighbor>>, a: int, b: int) -> bool {
    &&& adj.len() == old.len()
    &&& forall|i: int, j: int, v: bool|
        0 <= i < adj.len() ==> (#[trigger] lists(adj[i], j, v) <==> lists(old[i], j, v) && !((
        i == a && j == b) || (i == b && j == a)))
}

/// The links of `adj` are those of `old`, with `a <-> b` marked invalid.
pub open spec fn invalidated_from(old: Seq<Seq<Neighbor>>, adj: Seq<Seq<Neighbor>>, a: int, b: int) -> bool {
    &&& adj.len() == old.len()
    &&& forall|i: int, j: int, v: bool|
        0 <= i < adj.len() ==> (#[trigger] lists(adj[i], j, v) <==> if (i == a && j == b) || (i
            == b && j == a) {
            links(old[i], j) && !v
        } else {
            lists(old[i], j, v)
        })
}

/// Box `x` is named by one of the first `pos` entries of `f`.
pub open spec fn in_prefix(f: Seq<Neighbor>, pos: int, x: int) -> bool {
    exists|q: int| 0 <= q < pos && (#[trigger] f[q]).index == x
}

/// The links while box `index` (split into `index` and `k`) has its first
/// `pos` former neighbors `f` repaired, before `index` and `k` are joined.
pub open spec fn repairing(
    a0: Seq<Seq<Neighbor>>,
    b1: Seq<AABox>,
    index: int,
    k: int,
    f: Seq<Neighbor>,
    pos: int,
    i: int,
    j: int,
    v: bool,
) -> bool {
    if (i == index && j == k) || (i == k && j == index) {
        false
    } else if i == k || j == k {
        let x = if i == k { j } else { i };
        in_prefix(f, pos, x) && boxes_adjacent(b1[x], b1[k]) && v
    } else if i == index || j == index {
        let x = if i == index { j } else { i };
        lists(a0[i], j, v) && (in_prefix(f, pos, x) ==> boxes_adjacent(b1[x], b1[index]))
    } else {
        lists(a0[i], j, v)
    }
}

/// The links once box `index` of a grid whose links were `a0` is split:
/// `b1` are the boxes after the split, the far half taking the new index `k`.
/// The halves are joined; a former neighbor keeps its link to `index`
/// where it still touches the near half, and gains a valid link to `k`
/// where it touches the far half; no other link changes.
pub open spec fn split_links(
    a0: Seq<Seq<Neighbor>>,
    b1: Seq<AABox>,
    index: int,
    k: int,
    i: int,
    j: int,
    v: bool,
) -> bool {
    if (i == index && j == k) || (i == k && j == index) {
        v
    } else if i == k || j == k {
        let x = if i == k { j } else { i };
        links(a0[index], x) && boxes_adjacent(b1[x], b1[k]) && v
    } else if i == index || j == index {
        let x = if i == index { j } else { i };
        lists(a0[i], j, v) && boxes_adjacent(b1[x], b1[index])
    } else {
        lists(a0[i], j, v)
    }
}

/// Replacing box `index` by its two halves keeps the partition.
proof fn lemma_split_keeps_partition(root: AABox, b0: Seq<AABox>, index: int)
    requires
        partitions(root, b0),
        0 <= index < b0.len(),
        box_wf(b0[index]),
        splittable(b0[index]),
    ensures
        partitions(
            root,
            b0.update(index, split_halves(b0[index]).0).push(split_halves(b0[index]).1),
        ),
{
    let h = split_halves(b0[index]);
    let b1 = b0.update(index, h.0).push(h.1);
    let n = b0.len() as int;
    assert forall|i: int, p: Point|
        0 <= i < b1.len() && #[trigger] box_contains(b1[i], p) implies box_contains(root, p) by {
        lemma_split_partitions(b0[index], p);
        if i == index || i == n {
            assert(box_contains(b0[index], p));
        } else {
            assert(box_contains(b0[i], p));
        }
    }
    assert forall|p: Point| #[trigger] box_contains(root, p) implies exists|i: int|
        0 <= i < b1.len() && #[trigger] box_contains(b1[i], p) by {
        let i = choose|i: int| 0 <= i < b0.len() && #[trigger] box_contains(b0[i], p);
        lemma_split_partitions(b0[index], p);
        if i == index {
            if box_contains(h.0, p) {
                assert(box_contains(b1[index], p));
            } else {
                assert(box_contains(b1[n], p));
            }
        } else {
            assert(box_contains(b1[i], p));
        }
    }
    assert forall|i: int, j: int, p: Point|
        0 <= i < b1.len() && 0 <= j < b1.len() && i != j && #[trigger] box_contains(b1[i], p)
            implies !#[trigger] box_contains(b1[j], p) by {
        lemma_split_partitions(b0[index], p);
        let i0 = if i == n { index } else { i };
        let j0 = if j == n { index } else { j };
        if box_contains(b1[j], p) {
            assert(box_contains(b0[i0], p));
            assert(box_contains(b0[j0], p));
        }
    }
}

/// The two halves of a split touch along the cut.
proof fn lemma_halves_adjacent(b: AABox)
    requires
        box_wf(b),
        splittable(b),
    ensures
        boxes_adjacent(split_halves(b).0, split_halves(b).1),
        boxes_adjacent(split_halves(b).1, split_halves(b).0),
{
}

proof fn lemma_unlinked_wf(n: int, old: Seq<Seq<Neighbor>>, adj: Seq<Seq<Neighbor>>, a: int, b: int)
    requires
        adjacency_wf(n, old),
        unlinked_from(old, adj, a, b),
        forall|i: int| 0 <= i < n ==> row_unique(#[trigger] adj[i]),
    ensures
        adjacency_wf(n, adj),
{
    assert forall|i: int, j: int, v: bool| 0 <= i < n && #[trigger] lists(adj[i], j, v) implies j < n
        && j != i && lists(adj[j], i, v) by {
        assert(lists(old[i], j, v));
        assert(lists(old[j], i, v));
    }
}

proof fn lemma_invalidated_wf(
    n: int,
    old: Seq<Seq<Neighbor>>,
    adj: Seq<Seq<Neighbor>>,
    a: int,
    b: int,
)
    requires
        adjacency_wf(n, old),
        invalidated_from(old, adj, a, b),
        forall|i: int| 0 <= i < n ==> row_unique(#[trigger] adj[i]),
    ensures
        adjacency_wf(n, adj),
{
    assert forall|i: int, j: int, v: bool| 0 <= i < n && #[trigger] lists(adj[i], j, v) implies j < n
        && j != i && lists(adj[j], i, v) by {
        if (i == a && j == b) || (i == b && j == a) {
            if lists(old[i], j, true) {
                assert(lists(old[j], i, true));
            } else {
                assert(lists(old[j], i, false));
            }
        } else {
            assert(lists(old[j], i, v));
        }
    }
}

proof fn lemma_push(row: Seq<Neighbor>, e: Neighbor)
    ensures
        forall|j: int, v: bool|
            #[trigger] lists(row.push(e), j, v) <==> lists(row, j, v) || (e.index == j && e.valid == v),
        row_unique(row) && !links(row, e.index as int) ==> row_unique(row.push(e)),
{
    let r2 = row.push(e);
    assert forall|j: int, v: bool| #[trigger] lists(r2, j, v) <==> lists(row, j, v) || (e.index == j && e.valid == v) by {
        if lists(r2, j, v) {
            let m = choose|m: int|
                0 <= m < r2.len() && (#[trigger] r2[m]).index == j && r2[m].valid == v;
            if m < row.len() {
                assert(row[m] == r2[m]);
            }
        }
        if lists(row, j, v) {
            let m = choose|m: int|
                0 <= m < row.len() && (#[trigger] row[m]).index == j && row[m].valid == v;
            assert(r2[m] == row[m]);
        }
        if e.index == j && e.valid == v {
            assert(r2[row.len() as int] == e);
        }
    }
    if row_unique(row) && !links(row, e.index as int) {
        assert forall|a: int, b: int|
            0 <= a < r2.len() && 0 <= b < r2.len() && a != b implies #[trigger] r2[a].index
            != #[trigger] r2[b].index by {
            if a == row.len() {
                assert(lists(row, row[b].index as int, row[b].valid));
            } else if b == row.len() {
                assert(lists(row, row[a].index as int, row[a].valid));
            }
        }
    }
}

proof fn lemma_remove(row: Seq<Neighbor>, m: int)
    requires
        row_unique(row),
        0 <= m < row.len(),
    ensures
        row_unique(row.remove(m)),
        forall|j: int, v: bool|
            #[trigger] lists(row.remove(m), j, v) <==> lists(row, j, v) && j != row[m].index as int,
{
    let r2 = row.remove(m);
    assert forall|j: int, v: bool| #[trigger] lists(r2, j, v) <==> lists(row, j, v) && j
        != row[m].index by {
        if lists(r2, j, v) {
            let k = choose|k: int|
                0 <= k < r2.len() && (#[trigger] r2[k]).index == j && r2[k].valid == v;
            let k0 = if k < m { k } else { k + 1 };
            assert(row[k0] == r2[k]);
            assert(row[k0].index != row[m].index);
        }
        if lists(row, j, v) && j != row[m].index as int {
            let k = choose|k: int|
                0 <= k < row.len() && (#[trigger] row[k]).index == j && row[k].valid == v;
            if k < m {
                assert(r2[k] == row[k]);
            } else {
                assert(r2[k - 1] == row[k]);
            }
        }
    }
    assert forall|a: int, b: int|
        0 <= a < r2.len() && 0 <= b < r2.len() && a != b implies #[trigger] r2[a].index
        != #[trigger] r2[b].index by {
        let a0 = if a < m { a } else { a + 1 };
        let b0 = if b < m { b } else { b + 1 };
        assert(r2[a] == row[a0]);
        assert(r2[b] == row[b0]);
    }
}

proof fn lemma_update(row: Seq<Neighbor>, m: int, e: Neighbor)
    requires
        row_unique(row),
        0 <= m < row.len(),
        e.index == row[m].index,
    ensures
        row_unique(row.update(m, e)),
        forall|j: int, v: bool|
            #[trigger] lists(row.update(m, e), j, v) <==> if j == e.index as int {
                e.valid == v
            } else {
                lists(row, j, v)
            },
{
    let r2 = row.update(m, e);
    assert forall|j: int, v: bool| #[trigger] lists(r2, j, v) <==> if j == e.index as int {
        e.valid == v
    } else {
        lists(row, j, v)
    } by {
        if lists(r2, j, v) {
            let k = choose|k: int|
                0 <= k < r2.len() && (#[trigger] r2[k]).index == j && r2[k].valid == v;
            if k != m {
                assert(row[k] == r2[k]);
                assert(row[k].index != row[m].index);
            }
        }
        if j == e.index as int && e.valid == v {
            assert(r2[m] == e);
        }
        if j != e.index as int && lists(row, j, v) {
            let k = choose|k: int|
                0 <= k < row.len() && (#[trigger] row[k]).index == j && row[k].valid == v;
            assert(r2[k] == row[k]);
        }
    }
    assert forall|a: int, b: int|
        0 <= a < r2.len() && 0 <= b < r2.len() && a != b implies #[trigger] r2[a].index
        != #[trigger] r2[b].index by {
        assert(row[a].index == r2[a].index);
        assert(row[b].index == r2[b].index);
    }
}

/// The position of the entry for `j` in `row`.
fn find(row: &Vec<Neighbor>, j: usize) -> (r: Option<usize>)
    ensures
        match r {
            Some(m) => m < row@.len() && row@[m as int].index == j,
            None => !links(row@, j as int),
        },
{
    let n = row.len();
    let mut k: usize = 0;
    while k < n
        invariant
            n == row@.len(),
            k <= n,
            forall|q: int| 0 <= q < k ==> (#[trigger] row@[q]).index != j,
        decreases n - k,
    {
        if row[k].index == j {
            return Some(k);
        }
        k = k + 1;
    }
    None
}

impl Grid {
    /// Well formed: the boxes are well-formed boxes that partition `root`,
    /// and the links are symmetric and join adjacent boxes.
    pub open spec fn wf(&self) -> bool {
        &&& box_wf(self.root)
        &&& self.boxes@.len() >= 1
        &&& forall|i: int| 0 <= i < self.boxes@.len() ==> box_wf(#[trigger] self.boxes@[i])
        &&& partitions(self.root, self.boxes@)
        &&& adjacency_wf(self.boxes@.len() as int, self.adj())
        &&& links_adjacent(self.boxes@, self.adj())
    }

    /// The adjacency lists as sequences.
    pub open spec fn adj(&self) -> Seq<Seq<Neighbor>> {
        self.neighbors@.map_values(|r: Vec<Neighbor>| r@)
    }

    /// A grid of one box covering `region`, with no links.
    pub fn new(region: AABox) -> (r: Grid)
        requires
            box_wf(region),
        ensures
            r.wf(),
            r.root == region,
            r.boxes@ == seq![region],
            r.adj() == seq![Seq::<Neighbor>::empty()],
    {
        let mut boxes: Vec<AABox> = Vec::new();
        boxes.push(region);
        let mut neighbors: Vec<Vec<Neighbor>> = Vec::new();
        neighbors.push(Vec::new());
        let g = Grid { root: region, boxes, neighbors };
        assert(g.adj() =~= seq![Seq::<Neighbor>::empty()]);
        assert forall|p: Point| #[trigger] box_contains(region, p) implies exists|i: int|
            0 <= i < g.boxes@.len() && #[trigger] box_contains(g.boxes@[i], p) by {
            assert(box_contains(g.boxes@[0], p));
        }
        g
    }

    pub fn len(&self) -> (r: usize)
        ensures
            r == self.boxes@.len(),
    {
        self.boxes.len()
    }

    /// The index of the box that holds `pt`.
    pub fn query(&self, pt: &Point) -> (r: Result<usize, SearchError>)
        requires
            self.wf(),
        ensures
            match r {
                Ok(i) => i < self.boxes@.len() && box_contains(self.boxes@[i as int], *pt),
                Err(e) => e == SearchError::QueryNotFound && !box_contains(self.root, *pt),
            },
    {
        let n = self.boxes.len();
        let mut i: usize = 0;
        while i < n
            invariant
                self.wf(),
                n == self.boxes@.len(),
                i <= n,
                forall|k: int| 0 <= k < i ==> !box_contains(#[trigger] self.boxes@[k], *pt),
            decreases n - i,
        {
            if point_in_aabox(pt, &self.boxes[i]) {
                return Ok(i);
            }
            i = i + 1;
        }
        proof {
            if box_contains(self.root, *pt) {
                let k = choose|k: int|
                    0 <= k < self.boxes@.len() && #[trigger] box_contains(self.boxes@[k], *pt);
                assert(box_contains(self.boxes@[k], *pt));
            }
        }
        Err(SearchError::QueryNotFound)
    }

    /// Adds a valid link `a <-> b`, unless the two are already linked.
    fn link(&mut self, a: usize, b: usize)
        requires
            adjacency_wf(old(self).boxes@.len() as int, old(self).adj()),
            a < old(self).boxes@.len(),
            b < old(self).boxes@.len(),
            a != b,
        ensures
            final(self).root == old(self).root,
            final(self).boxes@ == old(self).boxes@,
            adjacency_wf(final(self).boxes@.len() as int, final(self).adj()),
            linked_from(old(self).adj(), final(self).adj(), a as int, b as int),
    {
        let ghost old_adj = self.adj();
        if find(&self.neighbors[a], b).is_none() {
            proof {
                if links(old_adj[b as int], a as int) {
                    if lists(old_adj[b as int], a as int, true) {
                        assert(lists(old_adj[a as int], b as int, true));
                    } else {
                        assert(lists(old_adj[a as int], b as int, false));
                    }
                }
                lemma_push(old_adj[a as int], Neighbor { index: b, valid: true });
                lemma_push(old_adj[b as int], Neighbor { index: a, valid: true });
            }
            self.neighbors[a].push(Neighbor { index: b, valid: true });
            self.neighbors[b].push(Neighbor { index: a, valid: true });
            proof {
                let new_adj = old_adj.update(a as int, old_adj[a as int].push(
                    Neighbor { index: b, valid: true },
                )).update(b as int, old_adj[b as int].push(Neighbor { index: a, valid: true }));
                assert(self.adj() =~= new_adj);
            }
        } else {
            assert(self.adj() =~= old_adj);
        }
    }

    /// Removes the link `a <-> b`, if there is one.
    fn unlink(&mut self, a: usize, b: usize)
        requires
            adjacency_wf(old(self).boxes@.len() as int, old(self).adj()),
            a < old(self).boxes@.len(),
            b < old(self).boxes@.len(),
            a != b,
        ensures
            final(self).root == old(self).root,
            final(self).boxes@ == old(self).boxes@,
            adjacency_wf(final(self).boxes@.len() as int, final(self).adj()),
            unlinked_from(old(self).adj(), final(self).adj(), a as int, b as int),
    {
        let ghost old_adj = self.adj();
        match find(&self.neighbors[a], b) {
            None => {
                proof {
                    if links(old_adj[b as int], a as int) {
                        if lists(old_adj[b as int], a as int, true) {
                            assert(lists(old_adj[a as int], b as int, true));
                        } else {
                            assert(lists(old_adj[a as int], b as int, false));
                        }
                    }
                }
                assert(self.adj() =~= old_adj);
            },
            Some(m) => {
                let v = self.neighbors[a][m].valid;
                proof {
                    assert(old_adj[a as int][m as int] == Neighbor { index: b, valid: v });
                    assert(lists(old_adj[a as int], b as int, v));
                    assert(lists(old_adj[b as int], a as int, v));
                }
                match find(&self.neighbors[b], a) {
                    None => {},
                    Some(k) => {
                        proof {
                            lemma_remove(old_adj[a as int], m as int);
                            lemma_remove(old_adj[b as int], k as int);
                        }
                        self.neighbors[a].remove(m);
                        self.neighbors[b].remove(k);
                        proof {
                            let new_adj = old_adj.update(
                                a as int,
                                old_adj[a as int].remove(m as int),
                            ).update(b as int, old_adj[b as int].remove(k as int));
                            assert(self.adj() =~= new_adj);
                            lemma_unlinked_wf(
                                self.boxes@.len() as int,
                                old_adj,
                                self.adj(),
                                a as int,
                                b as int,
                            );
                        }
                    },
                }
            },
        }
    }

    /// Marks the link `a <-> b` invalid from both ends, if there is one.
    pub fn invalidate(&mut self, a: usize, b: usize)
        requires
            old(self).wf(),
            a < old(self).boxes@.len(),
            b < old(self).boxes@.len(),
            a != b,
        ensures
            final(self).wf(),
            final(self).root == old(self).root,
            final(self).boxes@ == old(self).boxes@,
            invalidated_from(old(self).adj(), final(self).adj(), a as int, b as int),
    {
        self.invalidate_link(a, b);
        proof {
            let o = old(self).adj();
            let f = self.adj();
            assert forall|i: int, j: int, v: bool|
                0 <= i < f.len() && #[trigger] lists(f[i], j, v) implies boxes_adjacent(
                self.boxes@[i],
                self.boxes@[j],
            ) by {
                if lists(o[i], j, true) {
                } else if lists(o[i], j, false) {
                } else {
                    assert(lists(o[i], j, v));
                }
            }
        }
    }

    fn invalidate_link(&mut self, a: usize, b: usize)
        requires
            adjacency_wf(old(self).boxes@.len() as int, old(self).adj()),
            a < old(self).boxes@.len(),
            b < old(self).boxes@.len(),
            a != b,
        ensures
            final(self).root == old(self).root,
            final(self).boxes@ == old(self).boxes@,
            adjacency_wf(final(self).boxes@.len() as int, final(self).adj()),
            invalidated_from(old(self).adj(), final(self).adj(), a as int, b as int),
    {
        let ghost old_adj = self.adj();
        match find(&self.neighbors[a], b) {
            None => {
                proof {
                    if links(old_adj[b as int], a as int) {
                        if lists(old_adj[b as int], a as int, true) {
                            assert(lists(old_adj[a as int], b as int, true));
                        } else {
                            assert(lists(old_adj[a as int], b as int, false));
                        }
                    }
                }
                assert(self.adj() =~= old_adj);
            },
            Some(m) => {
                let v = self.neighbors[a][m].valid;
                proof {
                    assert(old_adj[a as int][m as int] == Neighbor { index: b, valid: v });
                    assert(lists(old_adj[a as int], b as int, v));
                    assert(lists(old_adj[b as int], a as int, v));
                }
                match find(&self.neighbors[b], a) {
                    None => {},
                    Some(k) => {
                        let ea = Neighbor { index: b, valid: false };
                        let eb = Neighbor { index: a, valid: false };
                        proof {
                            lemma_update(old_adj[a as int], m as int, ea);
                            lemma_update(old_adj[b as int], k as int, eb);
                        }
                        self.neighbors[a].set(m, ea);
                        self.neighbors[b].set(k, eb);
                        proof {
                            let new_adj = old_adj.update(
                                a as int,
                                old_adj[a as int].update(m as int, ea),
                            ).update(b as int, old_adj[b as int].update(k as int, eb));
                            assert(self.adj() =~= new_adj);
                            lemma_invalidated_wf(
                                self.boxes@.len() as int,
                                old_adj,
                                self.adj(),
                                a as int,
                                b as int,
                            );
                        }
                    },
                }
            },
        }
    }

    /// A fresh scoring graph: one node per box, at the box's center, with
    /// score `INFINITY` and an edge for each valid link.
    pub fn into_graph(&self) -> (r: Graph)
        requires
            self.wf(),
        ensures
            r.wf(),
            r.nodes@.len() == self.boxes@.len(),
            relaxed(r.nodes@),
            forall|i: int|
                0 <= i < r.nodes@.len() ==> (#[trigger] r.nodes@[i]).center == box_center(
                    self.boxes@[i],
                ) && r.nodes@[i].score == INFINITY && r.nodes@[i].neighbors@.no_duplicates(),
            forall|i: int, y: usize|
                0 <= i < r.nodes@.len() ==> (#[trigger] r.nodes@[i].neighbors@.contains(y)
                    <==> lists(self.adj()[i], y as int, true)),
    {
        let n = self.boxes.len();
        let mut nodes: Vec<Node> = Vec::new();
        let mut i: usize = 0;
        while i < n
            invariant
                self.wf(),
                n == self.boxes@.len(),
                i <= n,
                nodes@.len() == i,
                forall|q: int|
                    0 <= q < i ==> (#[trigger] nodes@[q]).center == box_center(self.boxes@[q])
                        && nodes@[q].score == INFINITY && nodes@[q].neighbors@.no_duplicates()
                        && (forall|y: usize|
                        nodes@[q].neighbors@.contains(y) <==> lists(self.adj()[q], y as int, true))
                        && (forall|t: int|
                        0 <= t < nodes@[q].neighbors@.len() ==> lists(
                            self.adj()[q],
                            #[trigger] nodes@[q].neighbors@[t] as int,
                            true,
                        )),
            decreases n - i,
        {
            assert(self.adj()[i as int] == self.neighbors@[i as int]@);
            let targets = valid_targets(&self.neighbors[i]);
            let center = self.boxes[i].center();
            nodes.push(Node { center, score: INFINITY, neighbors: targets });
            i = i + 1;
        }
        let g = Graph { nodes };
        proof {
            assert forall|u: int, m: int|
                0 <= u < g.nodes@.len() && 0 <= m < g.nodes@[u].neighbors@.len() implies (
                #[trigger] g.nodes@[u].neighbors@[m]) < g.nodes@.len() by {
                assert(lists(self.adj()[u], g.nodes@[u].neighbors@[m] as int, true));
            }
            assert forall|u: int, m: int|
                0 <= u < g.nodes@.len() && 0 <= m < g.nodes@[u].neighbors@.len() implies g.nodes@[(
                #[trigger] g.nodes@[u].neighbors@[m]) as int].score <= sat_add(
                g.nodes@[u].score as int,
                weight(g.nodes@, u, g.nodes@[u].neighbors@[m] as int),
            ) by {
                let v = g.nodes@[u].neighbors@[m] as int;
                lemma_dist_nonneg(g.nodes@[u].center, g.nodes@[v].center);
            }
        }
        g
    }

    /// Halves box `index` along its longer side (see `AABox::split_mut`) and
    /// repairs the links. Returns the far half's index, or `None`, changing
    /// nothing, where the box is too small to halve.
    pub fn split(&mut self, index: usize) -> (r: Option<usize>)
        requires
            old(self).wf(),
            index < old(self).boxes@.len(),
            old(self).boxes@.len() < usize::MAX,
        ensures
            final(self).wf(),
            final(self).root == old(self).root,
            match r {
                None => !splittable(old(self).boxes@[index as int]) && final(self).boxes@ == old(
                    self,
                ).boxes@ && final(self).adj() == old(self).adj(),
                Some(k) => {
                    &&& splittable(old(self).boxes@[index as int])
                    &&& k == old(self).boxes@.len()
                    &&& final(self).boxes@ == old(self).boxes@.update(
                        index as int,
                        split_halves(old(self).boxes@[index as int]).0,
                    ).push(split_halves(old(self).boxes@[index as int]).1)
                    &&& forall|i: int, j: int, v: bool|
                        0 <= i < final(self).boxes@.len() ==> (#[trigger] lists(
                            final(self).adj()[i],
                            j,
                            v,
                        ) <==> split_links(
                            old(self).adj(),
                            final(self).boxes@,
                            index as int,
                            k as int,
                            i,
                            j,
                            v,
                        ))
                },
            },
    {
        if !(if self.boxes[index].dim.x >= self.boxes[index].dim.y {
            self.boxes[index].dim.x >= 2
        } else {
            self.boxes[index].dim.y >= 2
        }) {
            return None;
        }
        let ghost a0 = self.adj();
        let ghost b0 = self.boxes@;
        let mut near = self.boxes[index];
        let far = near.split_mut();
        let k = self.boxes.len();
        proof {
            lemma_split_keeps_partition(self.root, b0, index as int);
        }
        self.boxes.set(index, near);
        self.boxes.push(far);
        self.neighbors.push(Vec::new());
        let ghost b1 = self.boxes@;
        let ghost a1 = self.adj();
        proof {
            assert(a1 =~= a0.push(Seq::<Neighbor>::empty()));
            assert forall|i: int, j: int, v: bool|
                0 <= i < a1.len() && #[trigger] lists(a1[i], j, v) implies j < a1.len() && j != i
                && lists(a1[j], i, v) by {
                if i < k {
                    assert(a1[i] == a0[i]);
                    assert(a1[j] == a0[j]);
                }
            }
            assert forall|i: int| 0 <= i < a1.len() implies row_unique(#[trigger] a1[i]) by {
                if i < k {
                    assert(a1[i] == a0[i]);
                }
            }
        }
        let former = copy_row(&self.neighbors[index]);
        let ghost f = former@;
        let nf = former.len();
        let mut pos: usize = 0;
        while pos < nf
            invariant
                self.root == old(self).root,
                box_wf(self.root),
                self.boxes@ == b1,
                b1.len() == k + 1,
                k == b0.len(),
                index < k,
                forall|i: int| 0 <= i < b1.len() ==> box_wf(#[trigger] b1[i]),
                f == a0[index as int],
                former@ == f,
                far == b1[k as int],
                near == b1[index as int],
                nf == f.len(),
                pos <= nf,
                adjacency_wf(b0.len() as int, a0),
                links_adjacent(b0, a0),
                forall|i: int| 0 <= i < b0.len() && i != index ==> b1[i] == b0[i],
                adjacency_wf(b1.len() as int, self.adj()),
                forall|i: int, j: int, v: bool|
                    0 <= i < b1.len() ==> (#[trigger] lists(self.adj()[i], j, v) <==> repairing(
                        a0,
                        b1,
                        index as int,
                        k as int,
                        f,
                        pos as int,
                        i,
                        j,
                        v,
                    )),
            decreases nf - pos,
        {
            let j = former[pos].index;
            proof {
                assert(f[pos as int].index == j);
                assert(lists(a0[index as int], j as int, f[pos as int].valid));
                assert(row_unique(a0[index as int]));
            }
            let ghost before = self.adj();
            proof {
                assert(!in_prefix(f, pos as int, j as int)) by {
                    if in_prefix(f, pos as int, j as int) {
                        let q = choose|q: int| 0 <= q < pos && (#[trigger] f[q]).index == j;
                        assert(f[q].index != f[pos as int].index);
                    }
                }
                assert forall|x: int| #[trigger] in_prefix(f, pos + 1, x) <==> in_prefix(
                    f,
                    pos as int,
                    x,
                ) || x == j by {
                    if in_prefix(f, pos + 1, x) && x != j {
                        let q = choose|q: int| 0 <= q < pos + 1 && (#[trigger] f[q]).index == x;
                        assert(q < pos);
                    }
                    if x == j {
                        assert(f[pos as int].index == j);
                    }
                    if in_prefix(f, pos as int, x) {
                        let q = choose|q: int| 0 <= q < pos && (#[trigger] f[q]).index == x;
                        assert(f[q].index == x);
                    }
                }
                assert(!links(before[j as int], k as int));
            }
            let touches_far = aabox_are_adjacent(&self.boxes[j], &far);
            if touches_far {
                self.link(j, k);
            }
            let ghost mid = self.adj();
            proof {
                assert forall|i: int, jj: int, v: bool| 0 <= i < b1.len() implies (#[trigger] lists(
                    mid[i],
                    jj,
                    v,
                ) <==> lists(before[i], jj, v) || (v && touches_far && ((i == j && jj == k) || (i
                    == k && jj == j)))) by {
                    if !touches_far {
                        assert(mid == before);
                    }
                }
            }
            let touches_near = aabox_are_adjacent(&self.boxes[j], &near);
            if !touches_near {
                self.unlink(j, index);
            }
            proof {
                let a2 = self.adj();
                assert forall|i: int, jj: int, v: bool| 0 <= i < b1.len() implies (#[trigger] lists(
                    a2[i],
                    jj,
                    v,
                ) <==> lists(mid[i], jj, v) && !(!touches_near && ((i == j && jj == index) || (i
                    == index && jj == j)))) by {
                    if touches_near {
                        assert(a2 == mid);
                    }
                }
                assert forall|i: int, jj: int, v: bool| 0 <= i < b1.len() implies (#[trigger] lists(
                    a2[i],
                    jj,
                    v,
                ) <==> repairing(a0, b1, index as int, k as int, f, pos + 1, i, jj, v)) by {
                    assert(lists(a2[i], jj, v) <==> lists(mid[i], jj, v) && !(!touches_near && ((i
                        == j && jj == index) || (i == index && jj == j))));
                    assert(lists(mid[i], jj, v) <==> lists(before[i], jj, v) || (v && touches_far
                        && ((i == j && jj == k) || (i == k && jj == j))));
                    assert(lists(before[i], jj, v) <==> repairing(
                        a0,
                        b1,
                        index as int,
                        k as int,
                        f,
                        pos as int,
                        i,
                        jj,
                        v,
                    ));
                    if i == k || jj == k {
                        let x = if i == k {
                            jj
                        } else {
                            i
                        };
                        assert(in_prefix(f, pos + 1, x) <==> in_prefix(f, pos as int, x) || x == j);
                    } else if i == index || jj == index {
                        let x = if i == index {
                            jj
                        } else {
                            i
                        };
                        assert(in_prefix(f, pos + 1, x) <==> in_prefix(f, pos as int, x) || x == j);
                    }
                }
            }
            pos = pos + 1;
        }
        let ghost a3 = self.adj();
        proof {
            assert(!links(a3[index as int], k as int));
        }
        self.link(index, k);
        proof {
            let a4 = self.adj();
            lemma_halves_adjacent(b0[index as int]);
            assert forall|x: int| #[trigger] in_prefix(f, nf as int, x) <==> links(f, x) by {
                if in_prefix(f, nf as int, x) {
                    let q = choose|q: int| 0 <= q < nf && (#[trigger] f[q]).index == x;
                    if f[q].valid {
                        assert(lists(f, x, true));
                    } else {
                        assert(lists(f, x, false));
                    }
                }
                if lists(f, x, true) {
                    let q = choose|q: int| 0 <= q < f.len() && (#[trigger] f[q]).index == x && f[q].valid == true;
                    assert(f[q].index == x);
                }
                if lists(f, x, false) {
                    let q = choose|q: int| 0 <= q < f.len() && (#[trigger] f[q]).index == x && f[q].valid == false;
                    assert(f[q].index == x);
                }
            }
            assert forall|i: int, jj: int, v: bool| 0 <= i < b1.len() implies (#[trigger] lists(
                a4[i],
                jj,
                v,
            ) <==> split_links(a0, b1, index as int, k as int, i, jj, v)) by {
                assert(lists(a3[i], jj, v) <==> repairing(
                    a0,
                    b1,
                    index as int,
                    k as int,
                    f,
                    nf as int,
                    i,
                    jj,
                    v,
                ));
                if i == index && jj != k && i != jj && lists(a0[i], jj, v) {
                    assert(links(f, jj));
                }
                if jj == index && i != k && i != jj && lists(a0[i], jj, v) {
                    assert(lists(a0[index as int], i, v));
                    assert(links(f, i));
                }
            }
            assert forall|i: int, jj: int, v: bool|
                0 <= i < a4.len() && #[trigger] lists(a4[i], jj, v) implies boxes_adjacent(
                b1[i],
                b1[jj],
            ) by {
                assert(split_links(a0, b1, index as int, k as int, i, jj, v));
                if !((i == index && jj == k) || (i == k && jj == index)) && i != k && jj != k && i
                    != index && jj != index {
                    assert(lists(a0[i], jj, v));
                    assert(boxes_adjacent(b0[i], b0[jj]));
                }
            }
        }
        Some(k)
    }
}

/// The indices of the valid entries of `row`.
fn valid_targets(row: &Vec<Neighbor>) -> (r: Vec<usize>)
    requires
        row_unique(row@),
    ensures
        forall|y: usize| r@.contains(y) <==> lists(row@, y as int, true),
        r@.no_duplicates(),
        forall|t: int| 0 <= t < r@.len() ==> lists(row@, #[trigger] r@[t] as int, true),
{
    let mut r: Vec<usize> = Vec::new();
    let n = row.len();
    let mut k: usize = 0;
    while k < n
        invariant
            n == row@.len(),
            k <= n,
            row_unique(row@),
            forall|y: usize|
                r@.contains(y) <==> exists|q: int|
                    0 <= q < k && (#[trigger] row@[q]).index == y && row@[q].valid,
            r@.no_duplicates(),
        decreases n - k,
    {
        let e = row[k];
        let ghost r0 = r@;
        if e.valid {
            proof {
                if r0.contains(e.index) {
                    let q = choose|q: int| 0 <= q < k && (#[trigger] row@[q]).index == e.index && row@[q].valid;
                    assert(row@[q].index != row@[k as int].index);
                }
            }
            r.push(e.index);
            proof {
                assert forall|y: usize| r@.contains(y) <==> exists|q: int|
                    0 <= q < k + 1 && (#[trigger] row@[q]).index == y && row@[q].valid by {
                    if r@.contains(y) {
                        let t = choose|t: int| 0 <= t < r@.len() && r@[t] == y;
                        if t < r0.len() {
                            assert(r0[t] == y);
                            assert(r0.contains(y));
                        } else {
                            assert(row@[k as int].index == y);
                        }
                    }
                    if exists|q: int| 0 <= q < k + 1 && (#[trigger] row@[q]).index == y && row@[q].valid {
                        let q = choose|q: int| 0 <= q < k + 1 && (#[trigger] row@[q]).index == y && row@[q].valid;
                        if q < k {
                            assert(r0.contains(y));
                            let t = choose|t: int| 0 <= t < r0.len() && r0[t] == y;
                            assert(r@[t] == y);
                        } else {
                            assert(r@[r0.len() as int] == y);
                        }
                    }
                }
            }
        } else {
            proof {
                assert forall|y: usize| r@.contains(y) <==> exists|q: int|
                    0 <= q < k + 1 && (#[trigger] row@[q]).index == y && row@[q].valid by {
                    if exists|q: int| 0 <= q < k + 1 && (#[trigger] row@[q]).index == y && row@[q].valid {
                        let q = choose|q: int| 0 <= q < k + 1 && (#[trigger] row@[q]).index == y && row@[q].valid;
                        assert(q < k);
                    }
                }
            }
        }
        k = k + 1;
    }
    proof {
        assert forall|y: usize| r@.contains(y) <==> lists(row@, y as int, true) by {
            if lists(row@, y as int, true) {
                let q = choose|q: int| 0 <= q < row@.len() && (#[trigger] row@[q]).index == y as int && row@[q].valid == true;
                assert(row@[q].index == y);
            }
        }
        assert forall|t: int| 0 <= t < r@.len() implies lists(row@, #[trigger] r@[t] as int, true) by {
            assert(r@.contains(r@[t]));
        }
    }
    r
}

/// A copy of an adjacency list.
fn copy_row(row: &Vec<Neighbor>) -> (r: Vec<Neighbor>)
    ensures
        r@ == row@,
{
    let mut r: Vec<Neighbor> = Vec::new();
    let n = row.len();
    let mut k: usize = 0;
    while k < n
        invariant
            n == row@.len(),
            k <= n,
            r@ == row@.subrange(0, k as int),
        decreases n - k,
    {
        r.push(row[k]);
        k = k + 1;
        assert(r@ =~= row@.subrange(0, k as int));
    }
    assert(r@ =~= row@);
    r
}

/// Every point of the root region lies in exactly one box. A grid made by
/// `Grid::new` and changed by any sequence of splits is well formed, so
/// this holds after any sequence of splits, and `query` finds that box.
pub proof fn lemma_partition(g: &Grid, p: Point)
    requires
        g.wf(),
        box_contains(g.root, p),
    ensures
        exists|i: int| 0 <= i < g.boxes@.len() && #[trigger] box_contains(g.boxes@[i], p),
        forall|i: int, j: int|
            0 <= i < g.boxes@.len() && 0 <= j < g.boxes@.len() && #[trigger] box_contains(
                g.boxes@[i],
                p,
            ) && #[trigger] box_contains(g.boxes@[j], p) ==> i == j,
{
}

/// Adjacency is symmetric: where box `i` lists box `j`, box `j` lists box
/// `i` with the same validity; and no box lists itself.
pub proof fn lemma_adjacency_symmetric(g: &Grid, i: int, j: int, v: bool)
    requires
        g.wf(),
        0 <= i < g.boxes@.len(),
        lists(g.adj()[i], j, v),
    ensures
        0 <= j < g.boxes@.len(),
        j != i,
        lists(g.adj()[j], i, v),
{
}

} // verus!
