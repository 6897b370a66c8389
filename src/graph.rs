//! The scoring graph: one node per box, with a distance-to-goal score that
//! a label-correcting relaxation lowers from a seeded goal.

use crate::geom::Point;
use crate::metric::{dist, distance, lemma_dist_nonneg};
use vstd::prelude::*;

verus! {

/// The score of a node that no path reaches.
pub const INFINITY: u64 = 18446744073709551615;

broadcast use lemma_dist_nonneg;

/// A node: the center of its box, its score, and the boxes it may move to.
pub struct Node {
    pub center: Point,
    pub score: u64,
    pub neighbors: Vec<usize>,
}

/// One node per box of the grid it was built from, with the same indices.
pub struct Graph {
    pub nodes: Vec<Node>,
}

/// `a + b`, saturating at `INFINITY`.
pub open spec fn sat_add(a: int, b: int) -> int {
    if a + b < INFINITY {
        a + b
    } else {
        INFINITY as int
    }
}

/// The length of the edge from node `u` to node `v`.
pub open spec fn weight(nodes: Seq<Node>, u: int, v: int) -> int {
    dist(nodes[u].center, nodes[v].center)
}

/// Every neighbor names a node.
pub open spec fn nodes_wf(nodes: Seq<Node>) -> bool {
    forall|u: int, m: int|
        0 <= u < nodes.len() && 0 <= m < nodes[u].neighbors@.len() ==> (
        #[trigger] nodes[u].neighbors@[m]) < nodes.len()
}

/// No edge can lower a score: `score(v) <= score(u) + weight(u, v)` along
/// every edge `u -> v`.
pub open spec fn relaxed(nodes: Seq<Node>) -> bool {
    forall|u: int, m: int|
        0 <= u < nodes.len() && 0 <= m < nodes[u].neighbors@.len() ==> nodes[(
        #[trigger] nodes[u].neighbors@[m]) as int].score <= sat_add(
            nodes[u].score as int,
            weight(nodes, u, nodes[u].neighbors@[m] as int),
        )
}

/// Some edge `u -> v` reaches `v` at a total of at most `q`.
pub open spec fn reached(nodes: Seq<Node>, v: int, q: int) -> bool {
    exists|u: int, m: int|
        0 <= u < nodes.len() && 0 <= m < nodes[u].neighbors@.len() && (
        #[trigger] nodes[u].neighbors@[m]) == v && nodes[u].score + weight(nodes, u, v) <= q
}

/// The two graphs differ in scores at most.
pub open spec fn same_shape(a: Seq<Node>, b: Seq<Node>) -> bool {
    &&& a.len() == b.len()
    &&& forall|i: int|
        0 <= i < a.len() ==> (#[trigger] a[i]).center == b[i].center && a[i].neighbors@
            == b[i].neighbors@
}

/// The sum of all scores.
pub open spec fn total(nodes: Seq<Node>) -> int
    decreases nodes.len(),
{
    if nodes.len() == 0 {
        0
    } else {
        total(nodes.drop_last()) + nodes.last().score
    }
}

proof fn lemma_total_shrinks(nodes: Seq<Node>, i: int, n: Node)
    requires
        0 <= i < nodes.len(),
        n.score < nodes[i].score,
    ensures
        total(nodes.update(i, n)) < total(nodes),
        total(nodes.update(i, n)) >= 0,
    decreases nodes.len(),
{
    lemma_total_nonneg(nodes.update(i, n));
    if i == nodes.len() - 1 {
        assert(nodes.update(i, n).drop_last() =~= nodes.drop_last());
    } else {
        lemma_total_shrinks(nodes.drop_last(), i, n);
        assert(nodes.update(i, n).drop_last() =~= nodes.drop_last().update(i, n));
    }
}

proof fn lemma_total_nonneg(nodes: Seq<Node>)
    ensures
        total(nodes) >= 0,
    decreases nodes.len(),
{
    if nodes.len() > 0 {
        lemma_total_nonneg(nodes.drop_last());
    }
}

/// Lowering scores keeps every node reached.
proof fn lemma_reached_mono(a: Seq<Node>, b: Seq<Node>)
    requires
        nodes_wf(a),
        same_shape(a, b),
        forall|i: int| 0 <= i < b.len() ==> #[trigger] b[i].score <= a[i].score,
    ensures
        forall|v: int, q: int| #[trigger] reached(a, v, q) ==> reached(b, v, q),
{
    assert forall|v: int, q: int| #[trigger] reached(a, v, q) implies reached(b, v, q) by {
        let (u, m) = choose|u: int, m: int|
            0 <= u < a.len() && 0 <= m < a[u].neighbors@.len() && (#[trigger] a[u].neighbors@[m])
                == v && a[u].score + weight(a, u, v) <= q;
        assert(b[u].neighbors@[m] == v);
        assert(b[u].score <= a[u].score);
        assert(a[u].center == b[u].center);
        assert(a[v].center == b[v].center);
    }
}

/// An entry of the work list offers `v` a score of at most `q`.
pub open spec fn pending(stack: Seq<(usize, u64)>, v: int, q: int) -> bool {
    exists|t: int| 0 <= t < stack.len() && (#[trigger] stack[t]).0 == v && stack[t].1 <= q
}

/// The edge `u -> v` (the `m`-th of `u`) is relaxed, or an entry of the work
/// list will relax it.
pub open spec fn edge_settled(nodes: Seq<Node>, stack: Seq<(usize, u64)>, u: int, m: int) -> bool {
    let v = nodes[u].neighbors@[m] as int;
    let bound = sat_add(nodes[u].score as int, weight(nodes, u, v));
    nodes[v].score <= bound || pending(stack, v, bound)
}

/// What relaxing `node` with `score` leaves: no score rose; `node` holds at
/// most `score`; every lowered score is `score` at `node` or is reached
/// along an edge.
pub open spec fn lowered_from(old: Seq<Node>, nodes: Seq<Node>, node: int, score: int) -> bool {
    &&& forall|i: int| 0 <= i < nodes.len() ==> #[trigger] nodes[i].score <= old[i].score
    &&& nodes[node].score <= score
    &&& forall|v: int|
        0 <= v < nodes.len() && #[trigger] nodes[v].score < old[v].score ==> (v == node
            && nodes[v].score == score) || reached(nodes, v, nodes[v].score as int)
}

/// The loop invariant of `relax`: the shape is kept, scores only fell,
/// every entry of the work list is justified, and every edge is settled.
pub open spec fn work_inv(
    old: Seq<Node>,
    nodes: Seq<Node>,
    stack: Seq<(usize, u64)>,
    node: int,
    score: int,
) -> bool {
    &&& nodes_wf(nodes)
    &&& 0 <= node < nodes.len()
    &&& same_shape(nodes, old)
    &&& lowered_from(old, nodes, node, score)
    &&& forall|t: int| 0 <= t < stack.len() ==> (#[trigger] stack[t]).0 < nodes.len()
    &&& forall|t: int|
        0 <= t < stack.len() && (#[trigger] stack[t]).1 < INFINITY ==> reached(
            nodes,
            stack[t].0 as int,
            stack[t].1 as int,
        )
    &&& forall|u: int, m: int|
        0 <= u < nodes.len() && 0 <= m < nodes[u].neighbors@.len() ==> #[trigger] edge_settled(
            nodes,
            stack,
            u,
            m,
        )
}

/// What `push_neighbors` leaves: `s1` followed by one entry per neighbor of
/// `x`, offering it `score(x) + weight`.
pub open spec fn pushed(nodes: Seq<Node>, s1: Seq<(usize, u64)>, s2: Seq<(usize, u64)>, x: int) -> bool {
    &&& s2.len() == s1.len() + nodes[x].neighbors@.len()
    &&& forall|t: int| 0 <= t < s1.len() ==> #[trigger] s2[t] == s1[t]
    &&& forall|m: int|
        0 <= m < nodes[x].neighbors@.len() ==> #[trigger] s2[s1.len() + m] == (
            nodes[x].neighbors@[m],
            sat_add(nodes[x].score as int, weight(nodes, x, nodes[x].neighbors@[m] as int)) as u64,
        )
}

/// Seeding `node` with `score` below its score starts the loop.
proof fn lemma_seed(n0: Seq<Node>, n1: Seq<Node>, stack: Seq<(usize, u64)>, node: int, score: u64)
    requires
        nodes_wf(n0),
        relaxed(n0),
        0 <= node < n0.len(),
        score < n0[node].score,
        n1 == n0.update(node, Node { score, ..n0[node] }),
        pushed(n1, Seq::empty(), stack, node),
    ensures
        work_inv(n0, n1, stack, node, score as int),
        total(n1) >= 0,
{
    lemma_total_nonneg(n1);
    assert forall|i: int| 0 <= i < n0.len() implies (#[trigger] n1[i]).center == n0[i].center
        && n1[i].neighbors@ == n0[i].neighbors@ by {}
    assert forall|t: int| 0 <= t < stack.len() implies (#[trigger] stack[t]).0 < n1.len() by {
        assert(stack[0 + t] == stack[t]);
    }
    assert forall|t: int| 0 <= t < stack.len() && (#[trigger] stack[t]).1 < INFINITY implies reached(
        n1,
        stack[t].0 as int,
        stack[t].1 as int,
    ) by {
        assert(stack[0 + t] == stack[t]);
        let y = n1[node].neighbors@[t];
        assert(n1[node].neighbors@[t] == y);
    }
    assert forall|u: int, m: int|
        0 <= u < n1.len() && 0 <= m < n1[u].neighbors@.len() implies #[trigger] edge_settled(
        n1,
        stack,
        u,
        m,
    ) by {
        let v = n1[u].neighbors@[m];
        assert(n0[u].neighbors@[m] == v);
        assert(weight(n1, u, v as int) == weight(n0, u, v as int));
        if u == node {
            assert(stack[0 + m] == stack[m]);
            let bound = sat_add(score as int, weight(n1, u, v as int));
            assert(stack[m].0 == v && stack[m].1 <= bound);
        }
    }
}

/// A popped entry that lowers the score of its node keeps the invariant
/// once the node's neighbors are offered their new totals.
proof fn lemma_step_lowers(
    old: Seq<Node>,
    n1: Seq<Node>,
    n2: Seq<Node>,
    s0: Seq<(usize, u64)>,
    s2: Seq<(usize, u64)>,
    node: int,
    score: int,
)
    requires
        work_inv(old, n1, s0, node, score),
        s0.len() > 0,
        s0.last().1 < n1[s0.last().0 as int].score,
        n2 == n1.update(s0.last().0 as int, Node { score: s0.last().1, ..n1[s0.last().0 as int] }),
        pushed(n2, s0.drop_last(), s2, s0.last().0 as int),
    ensures
        work_inv(old, n2, s2, node, score),
{
    let x = s0.last().0 as int;
    let p = s0.last().1;
    let s1 = s0.drop_last();
    let l1 = s1.len() as int;
    assert forall|i: int| 0 <= i < n2.len() implies (#[trigger] n2[i]).center == n1[i].center
        && n2[i].neighbors@ == n1[i].neighbors@ by {}
    assert forall|i: int| 0 <= i < n2.len() implies #[trigger] n2[i].score <= n1[i].score by {}
    lemma_reached_mono(n1, n2);
    assert forall|v: int|
        0 <= v < n2.len() && #[trigger] n2[v].score < old[v].score implies (v == node
        && n2[v].score == score) || reached(n2, v, n2[v].score as int) by {
        if v == x {
            assert(s0[s0.len() - 1].1 < INFINITY);
            assert(reached(n1, x, p as int));
        } else {
            assert(n2[v] == n1[v]);
        }
    }
    assert forall|i: int| 0 <= i < n2.len() implies #[trigger] n2[i].score <= old[i].score by {
        assert(n1[i].score <= old[i].score);
    }
    assert forall|t: int| 0 <= t < s2.len() && (#[trigger] s2[t]).1 < INFINITY implies reached(
        n2,
        s2[t].0 as int,
        s2[t].1 as int,
    ) by {
        if t < l1 {
            assert(s2[t] == s0[t]);
        } else {
            let m = t - l1;
            let y = n2[x].neighbors@[m] as int;
            assert(s2[l1 + m] == s2[t]);
            assert(n2[x].neighbors@[m] == y);
            assert(n2[x].score + weight(n2, x, y) <= s2[t].1);
        }
    }
    assert(nodes_wf(n2));
    assert(same_shape(n2, old));
    assert(n2[node].score <= n1[node].score);
    assert forall|t: int| 0 <= t < s2.len() implies (#[trigger] s2[t]).0 < n2.len() by {
        if t < l1 {
            assert(s2[t] == s0[t]);
        } else {
            assert(s2[l1 + (t - l1)] == s2[t]);
        }
    }
    assert forall|u: int, m: int|
        0 <= u < n2.len() && 0 <= m < n2[u].neighbors@.len() implies #[trigger] edge_settled(
        n2,
        s2,
        u,
        m,
    ) by {
        let v = n2[u].neighbors@[m] as int;
        assert(n1[u].neighbors@[m] == v);
        assert(weight(n2, u, v) == weight(n1, u, v));
        if u == x {
            let bound = sat_add(n2[u].score as int, weight(n2, u, v));
            assert(s2[l1 + m].0 == v && s2[l1 + m].1 <= bound);
        } else {
            assert(edge_settled(n1, s0, u, m));
            let bound = sat_add(n1[u].score as int, weight(n1, u, v));
            if n1[v].score > bound {
                let t = choose|t: int|
                    0 <= t < s0.len() && (#[trigger] s0[t]).0 == v && s0[t].1 <= bound;
                if t < s0.len() - 1 {
                    assert(s2[t] == s0[t]);
                }
            }
        }
    }
}

/// A popped entry that lowers nothing keeps the invariant.
proof fn lemma_step_skips(
    old: Seq<Node>,
    n1: Seq<Node>,
    s0: Seq<(usize, u64)>,
    s1: Seq<(usize, u64)>,
    node: int,
    score: int,
)
    requires
        work_inv(old, n1, s0, node, score),
        s0.len() > 0,
        s0.last().1 >= n1[s0.last().0 as int].score,
        s1 == s0.drop_last(),
    ensures
        work_inv(old, n1, s1, node, score),
{
    assert forall|t: int| 0 <= t < s1.len() implies #[trigger] s1[t] == s0[t] by {}
    assert forall|u: int, m: int|
        0 <= u < n1.len() && 0 <= m < n1[u].neighbors@.len() implies #[trigger] edge_settled(
        n1,
        s1,
        u,
        m,
    ) by {
        let v = n1[u].neighbors@[m] as int;
        assert(edge_settled(n1, s0, u, m));
        let bound = sat_add(n1[u].score as int, weight(n1, u, v));
        if n1[v].score > bound {
            let t = choose|t: int| 0 <= t < s0.len() && (#[trigger] s0[t]).0 == v && s0[t].1 <= bound;
            if t < s0.len() - 1 {
                assert(s1[t] == s0[t]);
            }
        }
    }
}

impl Graph {
    /// Well formed: every edge leads to a node of the graph.
    pub open spec fn wf(&self) -> bool {
        nodes_wf(self.nodes@)
    }

    /// Offers `node` the score `score`. Where that is lower than its score,
    /// the node takes it and offers `score + weight` to each neighbor, and
    /// so on, with a work list, until no score can be lowered. No score
    /// rises, a relaxed graph stays relaxed, and every score that fell is
    /// `score` at `node` or is reached along an edge. From all scores at
    /// `INFINITY` and a goal relaxed at 0, these are the conditions that
    /// characterise shortest-path lengths from the goal.
    pub fn relax(&mut self, node: usize, score: u64)
        requires
            old(self).wf(),
            node < old(self).nodes@.len(),
            relaxed(old(self).nodes@),
        ensures
            final(self).wf(),
            same_shape(final(self).nodes@, old(self).nodes@),
            relaxed(final(self).nodes@),
            lowered_from(old(self).nodes@, final(self).nodes@, node as int, score as int),
            score == 0 ==> final(self).nodes@[node as int].score == 0,
    {
        if score >= self.nodes[node].score {
            proof {
                assert forall|v: int|
                    0 <= v < self.nodes@.len() && #[trigger] self.nodes@[v].score
                        < old(self).nodes@[v].score implies (v == node && self.nodes@[v].score
                    == score) || reached(self.nodes@, v, self.nodes@[v].score as int) by {}
            }
            return;
        }
        let ghost n0 = self.nodes@;
        self.nodes[node].score = score;
        let ghost n1 = self.nodes@;
        let mut stack: Vec<(usize, u64)> = Vec::new();
        self.push_neighbors(node, &mut stack);
        proof {
            lemma_seed(n0, n1, stack@, node as int, score);
        }
        while stack.len() > 0
            invariant
                self.wf(),
                node < self.nodes@.len(),
                total(self.nodes@) >= 0,
                work_inv(old(self).nodes@, self.nodes@, stack@, node as int, score as int),
            decreases total(self.nodes@), stack@.len(),
        {
            let ghost s0 = stack@;
            let ghost n1 = self.nodes@;
            let (x, p) = stack.pop().unwrap();
            proof {
                assert(stack@ =~= s0.drop_last());
                assert(s0[s0.len() - 1] == (x, p));
            }
            if p < self.nodes[x].score {
                proof {
                    lemma_total_shrinks(n1, x as int, Node { score: p, ..n1[x as int] });
                }
                self.nodes[x].score = p;
                let ghost n2 = self.nodes@;
                self.push_neighbors(x, &mut stack);
                proof {
                    lemma_step_lowers(old(self).nodes@, n1, n2, s0, stack@, node as int, score as int);
                }
            } else {
                proof {
                    lemma_step_skips(old(self).nodes@, n1, s0, stack@, node as int, score as int);
                }
            }
        }
        proof {
            assert forall|u: int, m: int|
                0 <= u < self.nodes@.len() && 0 <= m < self.nodes@[u].neighbors@.len() implies
                self.nodes@[(#[trigger] self.nodes@[u].neighbors@[m]) as int].score <= sat_add(
                self.nodes@[u].score as int,
                weight(self.nodes@, u, self.nodes@[u].neighbors@[m] as int),
            ) by {
                assert(edge_settled(self.nodes@, stack@, u, m));
            }
        }
    }

    /// Pushes `(y, score(x) + weight(x, y))` for every neighbor `y` of `x`.
    fn push_neighbors(&self, x: usize, stack: &mut Vec<(usize, u64)>)
        requires
            self.wf(),
            x < self.nodes@.len(),
        ensures
            pushed(self.nodes@, old(stack)@, final(stack)@, x as int),
    {
        let ghost start = stack@.len();
        let k = self.nodes[x].neighbors.len();
        let mut m: usize = 0;
        while m < k
            invariant
                self.wf(),
                x < self.nodes@.len(),
                k == self.nodes@[x as int].neighbors@.len(),
                m <= k,
                stack@.len() == start + m,
                start == old(stack)@.len(),
                forall|t: int| 0 <= t < start ==> #[trigger] stack@[t] == old(stack)@[t],
                forall|q: int|
                    0 <= q < m ==> #[trigger] stack@[start + q] == (
                        self.nodes@[x as int].neighbors@[q],
                        sat_add(
                            self.nodes@[x as int].score as int,
                            weight(
                                self.nodes@,
                                x as int,
                                self.nodes@[x as int].neighbors@[q] as int,
                            ),
                        ) as u64,
                    ),
            decreases k - m,
        {
            let y = self.nodes[x].neighbors[m];
            let w = distance(&self.nodes[x].center, &self.nodes[y].center);
            let q = self.nodes[x].score.saturating_add(w);
            stack.push((y, q));
            m = m + 1;
        }
    }

    /// The neighbors of `node` whose score is strictly below its own, in
    /// ascending order of score (ties in neighbor order).
    pub fn candidates(&self, node: usize) -> (r: Vec<usize>)
        requires
            self.wf(),
            node < self.nodes@.len(),
        ensures
            forall|y: usize|
                r@.contains(y) <==> self.nodes@[node as int].neighbors@.contains(y)
                    && self.nodes@[y as int].score < self.nodes@[node as int].score,
            forall|a: int, b: int|
                0 <= a < b < r@.len() ==> self.nodes@[r@[a] as int].score <= self.nodes@[r@[
                    b
                ] as int].score,
            self.nodes@[node as int].neighbors@.no_duplicates() ==> r@.no_duplicates(),
    {
        let own = self.nodes[node].score;
        let ghost nb = self.nodes@[node as int].neighbors@;
        let k = self.nodes[node].neighbors.len();
        let mut r: Vec<usize> = Vec::new();
        let mut i: usize = 0;
        while i < k
            invariant
                self.wf(),
                node < self.nodes@.len(),
                own == self.nodes@[node as int].score,
                nb == self.nodes@[node as int].neighbors@,
                k == nb.len(),
                i <= k,
                forall|t: int| 0 <= t < r@.len() ==> (#[trigger] r@[t]) < self.nodes@.len(),
                forall|y: usize|
                    r@.contains(y) <==> (exists|q: int| 0 <= q < i && #[trigger] nb[q] == y)
                        && self.nodes@[y as int].score < own,
                forall|a: int, b: int|
                    0 <= a < b < r@.len() ==> self.nodes@[(#[trigger] r@[a]) as int].score
                        <= self.nodes@[(#[trigger] r@[b]) as int].score,
                nb.no_duplicates() ==> r@.no_duplicates(),
            decreases k - i,
        {
            let y = self.nodes[node].neighbors[i];
            let sy = self.nodes[y].score;
            let ghost r0 = r@;
            if sy < own {
                let mut pos: usize = 0;
                while pos < r.len() && self.nodes[r[pos]].score <= sy
                    invariant
                        self.wf(),
                        r@ == r0,
                        pos <= r@.len(),
                        forall|t: int| 0 <= t < r@.len() ==> (#[trigger] r@[t]) < self.nodes@.len(),
                        forall|t: int| 0 <= t < pos ==> self.nodes@[(#[trigger] r@[t]) as int].score <= sy,
                    decreases r@.len() - pos,
                {
                    pos = pos + 1;
                }
                proof {
                    assert(nb[i as int] == y);
                    if nb.no_duplicates() && r0.contains(y) {
                        let q = choose|q: int| 0 <= q < i && #[trigger] nb[q] == y;
                        assert(nb[q] == nb[i as int]);
                    }
                }
                r.insert(pos, y);
                proof {
                    let r1 = r@;
                    assert(r1 =~= r0.insert(pos as int, y));
                    assert forall|t: int| 0 <= t < r1.len() implies (#[trigger] r1[t]) < self.nodes@.len() by {
                        if t < pos {
                            assert(r1[t] == r0[t]);
                        } else if t > pos {
                            assert(r1[t] == r0[t - 1]);
                        }
                    }
                    assert forall|z: usize| r1.contains(z) <==> (exists|q: int|
                        0 <= q < i + 1 && #[trigger] nb[q] == z) && self.nodes@[z as int].score
                        < own by {
                        if r1.contains(z) {
                            let t = choose|t: int| 0 <= t < r1.len() && r1[t] == z;
                            if t < pos {
                                assert(r1[t] == r0[t]);
                                assert(r0.contains(z));
                            } else if t > pos {
                                assert(r1[t] == r0[t - 1]);
                                assert(r0.contains(z));
                            }
                        }
                        if (exists|q: int| 0 <= q < i + 1 && #[trigger] nb[q] == z)
                            && self.nodes@[z as int].score < own {
                            if z == y {
                                assert(r1[pos as int] == y);
                            } else {
                                let q = choose|q: int| 0 <= q < i + 1 && #[trigger] nb[q] == z;
                                assert(q < i);
                                assert(r0.contains(z));
                                let t = choose|t: int| 0 <= t < r0.len() && r0[t] == z;
                                if t < pos {
                                    assert(r1[t] == z);
                                } else {
                                    assert(r1[t + 1] == z);
                                }
                            }
                        }
                    }
                    assert forall|a: int, b: int| 0 <= a < b < r1.len() implies self.nodes@[(
                    #[trigger] r1[a]) as int].score <= self.nodes@[(#[trigger] r1[b]) as int].score by {
                        if pos < r0.len() {
                            assert(self.nodes@[r0[pos as int] as int].score > sy);
                        }
                        if a < pos && b == pos {
                            assert(r1[a] == r0[a]);
                        } else if a == pos && b > pos {
                            assert(r1[b] == r0[b - 1]);
                            if b - 1 > pos {
                                assert(self.nodes@[r0[pos as int] as int].score <= self.nodes@[r0[b - 1] as int].score);
                            }
                        } else if a < pos && b < pos {
                            assert(r1[a] == r0[a]);
                            assert(r1[b] == r0[b]);
                        } else if a < pos && b > pos {
                            assert(r1[a] == r0[a]);
                            assert(r1[b] == r0[b - 1]);
                        } else if a > pos {
                            assert(r1[a] == r0[a - 1]);
                            assert(r1[b] == r0[b - 1]);
                        }
                    }
                    if nb.no_duplicates() {
                        assert forall|a: int, b: int| 0 <= a < r1.len() && 0 <= b < r1.len() && a != b implies r1[a] != r1[b] by {
                            let a0 = if a < pos { a } else { a - 1 };
                            let b0 = if b < pos { b } else { b - 1 };
                            if a != pos && b != pos {
                                assert(r1[a] == r0[a0]);
                                assert(r1[b] == r0[b0]);
                            } else if a == pos {
                                assert(r1[b] == r0[b0]);
                                assert(r0.contains(r1[b]));
                            } else {
                                assert(r1[a] == r0[a0]);
                                assert(r0.contains(r1[a]));
                            }
                        }
                    }
                }
            } else {
                proof {
                    assert forall|z: usize| r@.contains(z) <==> (exists|q: int|
                        0 <= q < i + 1 && #[trigger] nb[q] == z) && self.nodes@[z as int].score
                        < own by {
                        if (exists|q: int| 0 <= q < i + 1 && #[trigger] nb[q] == z) && z != y {
                            let q = choose|q: int| 0 <= q < i + 1 && #[trigger] nb[q] == z;
                            assert(q < i);
                        }
                    }
                }
            }
            i = i + 1;
        }
        proof {
            assert forall|y: usize| r@.contains(y) <==> nb.contains(y) && self.nodes@[y as int].score < own by {
                if nb.contains(y) {
                    let q = choose|q: int| 0 <= q < nb.len() && nb[q] == y;
                    assert(nb[q] == y);
                }
            }
        }
        r
    }
}

} // verus!
