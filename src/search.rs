//! The step search: one call decides the next move from `current` toward
//! `goal` around an obstacle polygon, or refines the grid.

use crate::geom::{
    box_center, box_contains, crosses_ring, inside_polygon, intersect_polygon, point_in_polygon,
    segment, split_halves, splittable, AABox, Line, Point,
};
use crate::graph::{nodes_wf, reached, relaxed, Graph, Node, INFINITY};
use crate::grid::{links, lists, Grid, Neighbor, SearchError};
use vstd::prelude::*;

verus! {

/// The outcome of one step of the search.
#[derive(Clone, Copy, Debug, PartialEq, Eq, Structural)]
pub enum StepResult {
    /// Move to this waypoint, the center of a box next to the current one.
    Step(Point),
    /// The goal is in direct sight.
    Success,
    /// The grid was refined; call again.
    Split,
}

/// How many candidates one call may try.
pub const MAX_ATTEMPTS: usize = 10;

/// `p` lies outside the polygon and the segment from `from` to `p` crosses
/// none of its edges.
pub open spec fn visible(from: Point, p: Point, poly: Seq<Point>) -> bool {
    !inside_polygon(p, poly) && !crosses_ring(segment(from, p), poly)
}

/// Whether `p` is visible from `from` past the polygon `poly`.
pub fn is_visible(from: &Point, p: &Point, poly: &Vec<Point>) -> (r: bool)
    ensures
        r == visible(*from, *p, poly@),
{
    if point_in_polygon(p, poly) {
        return false;
    }
    let line = Line::new_segment(*from, *p);
    !intersect_polygon(&line, poly)
}

/// `nodes` scores the boxes `boxes`, linked by the valid links of `adj`,
/// by their distance to box `target`: the target scores 0, no link can
/// lower a score, and every other finite score is reached along a link.
pub open spec fn goal_scores(
    boxes: Seq<AABox>,
    adj: Seq<Seq<Neighbor>>,
    target: int,
    nodes: Seq<Node>,
) -> bool {
    &&& nodes.len() == boxes.len()
    &&& 0 <= target < nodes.len()
    &&& nodes_wf(nodes)
    &&& forall|i: int| 0 <= i < nodes.len() ==> (#[trigger] nodes[i]).center == box_center(boxes[i])
    &&& forall|i: int, y: usize|
        0 <= i < nodes.len() ==> (#[trigger] nodes[i].neighbors@.contains(y) <==> lists(
            adj[i],
            y as int,
            true,
        ))
    &&& relaxed(nodes)
    &&& nodes[target].score == 0
    &&& forall|v: int|
        0 <= v < nodes.len() && v != target && (#[trigger] nodes[v]).score < INFINITY ==> reached(
            nodes,
            v,
            nodes[v].score as int,
        )
}

/// `cs` lists the boxes that box `b` may move to, lowest score first: each
/// box that `b` has a valid link to and that scores below `b`, once.
pub open spec fn ranked(adj: Seq<Seq<Neighbor>>, b: int, nodes: Seq<Node>, cs: Seq<usize>) -> bool {
    &&& cs.no_duplicates()
    &&& forall|y: usize|
        #[trigger] cs.contains(y) <==> lists(adj[b], y as int, true) && nodes[y as int].score
            < nodes[b].score
    &&& forall|i: int, j: int|
        0 <= i < j < cs.len() ==> nodes[cs[i] as int].score <= nodes[cs[j] as int].score
}

/// The first `k` boxes of `cs` are hidden from `from`: their centers are
/// not visible.
pub open spec fn first_hidden(
    boxes: Seq<AABox>,
    cs: Seq<usize>,
    k: int,
    from: Point,
    poly: Seq<Point>,
) -> bool {
    forall|i: int| 0 <= i < k ==> !visible(from, box_center(boxes[#[trigger] cs[i] as int]), poly)
}

/// Node `i` has no score, or a neighbor without one.
pub open spec fn on_frontier(nodes: Seq<Node>, i: int) -> bool {
    nodes[i].score == INFINITY || exists|m: int|
        0 <= m < nodes[i].neighbors@.len() && nodes[nodes[i].neighbors@[m] as int].score
            == INFINITY
}

/// Box `i` after the frontier of `nodes` was split: halved where it was on
/// the frontier and large enough, else as it was.
pub open spec fn after_frontier_split(boxes: Seq<AABox>, nodes: Seq<Node>, i: int) -> AABox {
    if on_frontier(nodes, i) && splittable(boxes[i]) {
        split_halves(boxes[i]).0
    } else {
        boxes[i]
    }
}

fn frontier_contains(g: &Graph, i: usize) -> (r: bool)
    requires
        g.wf(),
        i < g.nodes@.len(),
    ensures
        r == on_frontier(g.nodes@, i as int),
{
    if g.nodes[i].score == INFINITY {
        return true;
    }
    let k = g.nodes[i].neighbors.len();
    let mut m: usize = 0;
    while m < k
        invariant
            g.wf(),
            i < g.nodes@.len(),
            k == g.nodes@[i as int].neighbors@.len(),
            m <= k,
            g.nodes@[i as int].score != INFINITY,
            forall|q: int|
                0 <= q < m ==> g.nodes@[(#[trigger] g.nodes@[i as int].neighbors@[q]) as int].score
                    != INFINITY,
        decreases k - m,
    {
        let j = g.nodes[i].neighbors[m];
        if g.nodes[j].score == INFINITY {
            return true;
        }
        m = m + 1;
    }
    false
}

/// Splits every box on the frontier of `g`, a graph of `grid`.
fn split_frontier(grid: &mut Grid, g: &Graph, cur: usize)
    requires
        old(grid).wf(),
        g.wf(),
        g.nodes@.len() == old(grid).boxes@.len(),
        2 * old(grid).boxes@.len() < usize::MAX,
        cur < old(grid).boxes@.len(),
        on_frontier(g.nodes@, cur as int),
    ensures
        final(grid).wf(),
        final(grid).root == old(grid).root,
        old(grid).boxes@.len() <= final(grid).boxes@.len() <= 2 * old(grid).boxes@.len(),
        splittable(old(grid).boxes@[cur as int]) ==> final(grid).boxes@.len() > old(
            grid,
        ).boxes@.len(),
        forall|q: int|
            0 <= q < old(grid).boxes@.len() ==> #[trigger] final(grid).boxes@[q]
                == after_frontier_split(old(grid).boxes@, g.nodes@, q),
{
    let n = grid.len();
    let mut i: usize = 0;
    while i < n
        invariant
            grid.wf(),
            grid.root == old(grid).root,
            g.wf(),
            g.nodes@.len() == n,
            n == old(grid).boxes@.len(),
            2 * n < usize::MAX,
            cur < n,
            on_frontier(g.nodes@, cur as int),
            i <= n,
            forall|q: int|
                0 <= q < i ==> #[trigger] grid.boxes@[q] == after_frontier_split(
                    old(grid).boxes@,
                    g.nodes@,
                    q,
                ),
            forall|q: int| i <= q < n ==> #[trigger] grid.boxes@[q] == old(grid).boxes@[q],
            n + 0 <= grid.boxes@.len() <= n + i,
            i <= cur ==> grid.boxes@[cur as int] == old(grid).boxes@[cur as int],
            i > cur && splittable(old(grid).boxes@[cur as int]) ==> grid.boxes@.len() > n,
        decreases n - i,
    {
        let ghost b0 = grid.boxes@;
        if frontier_contains(g, i) {
            let _ = grid.split(i);
        }
        proof {
            assert forall|q: int| 0 <= q < n && q != i implies #[trigger] grid.boxes@[q] == b0[q] by {}
        }
        i = i + 1;
    }
}

/// One step of the search from `current` toward `goal` around `polygon`.
///
/// Returns `Success` where the goal is in direct sight. Otherwise it scores
/// the boxes by their distance to the goal's box; where the current box has
/// no score, it splits the frontier and returns `Split`. Else it tries the
/// neighbors of the current box with a lower score, lowest first, at most
/// `MAX_ATTEMPTS` of them: the first whose center is visible is returned as
/// a `Step`, and each one rejected has its link marked invalid. Where all of
/// them were rejected, the current box is split and `Split` returned; where
/// the attempts ran out first, `IterationLimitExceeded`.
pub fn step_search(current: &Point, goal: &Point, polygon: &Vec<Point>, grid: &mut Grid) -> (r:
    Result<StepResult, SearchError>)
    requires
        old(grid).wf(),
        2 * old(grid).boxes@.len() < usize::MAX,
    ensures
        final(grid).wf(),
        final(grid).root == old(grid).root,
        old(grid).boxes@.len() <= final(grid).boxes@.len() <= 2 * old(grid).boxes@.len(),
        (r == Ok::<StepResult, SearchError>(StepResult::Success)) <==> !crosses_ring(
            segment(*current, *goal),
            polygon@,
        ),
        r == Ok::<StepResult, SearchError>(StepResult::Success) ==> final(grid).boxes@ == old(
            grid,
        ).boxes@ && final(grid).adj() == old(grid).adj(),
        r == Err::<StepResult, SearchError>(SearchError::QueryNotFound) <==> crosses_ring(
            segment(*current, *goal),
            polygon@,
        ) && (!box_contains(old(grid).root, *current) || !box_contains(old(grid).root, *goal)),
        r == Err::<StepResult, SearchError>(SearchError::QueryNotFound) ==> final(grid).boxes@
            == old(grid).boxes@ && final(grid).adj() == old(grid).adj(),
        match r {
            Ok(StepResult::Success) | Err(SearchError::QueryNotFound) => true,
            _ => crosses_ring(segment(*current, *goal), polygon@) && box_contains(
                old(grid).root,
                *current,
            ) && box_contains(old(grid).root, *goal),
        },
        r == Ok::<StepResult, SearchError>(StepResult::Split) ==> forall|b: int|
            0 <= b < old(grid).boxes@.len() && box_contains(old(grid).boxes@[b], *current)
                && splittable(old(grid).boxes@[b]) ==> final(grid).boxes@.len() > old(
                grid,
            ).boxes@.len(),
        match r {
            Ok(StepResult::Step(_)) | Err(SearchError::IterationLimitExceeded) => forall|
                i: int,
                j: int,
            |
                0 <= i < old(grid).boxes@.len() ==> (#[trigger] links(final(grid).adj()[i], j)
                    <==> links(old(grid).adj()[i], j)),
            _ => true,
        },
        match r {
            Ok(StepResult::Step(p)) => {
                &&& final(grid).boxes@ == old(grid).boxes@
                &&& exists|b: int, t: int, nodes: Seq<Node>, cs: Seq<usize>, a: int|
                    #![trigger goal_scores(old(grid).boxes@, old(grid).adj(), t, nodes), ranked(old(grid).adj(), b, nodes, cs), cs[a]]
                    0 <= b < old(grid).boxes@.len() && 0 <= t < old(grid).boxes@.len()
                        && box_contains(old(grid).boxes@[b], *current) && box_contains(
                        old(grid).boxes@[t],
                        *goal,
                    ) && goal_scores(old(grid).boxes@, old(grid).adj(), t, nodes) && ranked(
                        old(grid).adj(),
                        b,
                        nodes,
                        cs,
                    ) && 0 <= a < cs.len() && a < MAX_ATTEMPTS && first_hidden(
                        old(grid).boxes@,
                        cs,
                        a,
                        *current,
                        polygon@,
                    ) && p == box_center(old(grid).boxes@[cs[a] as int]) && visible(
                        *current,
                        p,
                        polygon@,
                    )
            },
            Ok(StepResult::Split) => (exists|b: int, t: int, nodes: Seq<Node>|
                #![trigger goal_scores(old(grid).boxes@, old(grid).adj(), t, nodes), nodes[b]]
                0 <= b < old(grid).boxes@.len() && 0 <= t < old(grid).boxes@.len() && box_contains(
                    old(grid).boxes@[b],
                    *current,
                ) && box_contains(old(grid).boxes@[t], *goal) && goal_scores(
                    old(grid).boxes@,
                    old(grid).adj(),
                    t,
                    nodes,
                ) && nodes[b].score == INFINITY && forall|q: int|
                    0 <= q < old(grid).boxes@.len() ==> #[trigger] final(grid).boxes@[q]
                        == after_frontier_split(old(grid).boxes@, nodes, q)) || (exists|
                b: int,
                t: int,
                nodes: Seq<Node>,
                cs: Seq<usize>,
            |
                #![trigger goal_scores(old(grid).boxes@, old(grid).adj(), t, nodes), ranked(old(grid).adj(), b, nodes, cs)]
                0 <= b < old(grid).boxes@.len() && 0 <= t < old(grid).boxes@.len() && box_contains(
                    old(grid).boxes@[b],
                    *current,
                ) && box_contains(old(grid).boxes@[t], *goal) && goal_scores(
                    old(grid).boxes@,
                    old(grid).adj(),
                    t,
                    nodes,
                ) && ranked(old(grid).adj(), b, nodes, cs) && cs.len() <= MAX_ATTEMPTS
                    && first_hidden(old(grid).boxes@, cs, cs.len() as int, *current, polygon@)
                    && final(grid).boxes@ == if splittable(old(grid).boxes@[b]) {
                    old(grid).boxes@.update(b, split_halves(old(grid).boxes@[b]).0).push(
                        split_halves(old(grid).boxes@[b]).1,
                    )
                } else {
                    old(grid).boxes@
                }),
            Err(SearchError::IterationLimitExceeded) => {
                &&& final(grid).boxes@ == old(grid).boxes@
                &&& exists|b: int, t: int, nodes: Seq<Node>, cs: Seq<usize>|
                    #![trigger goal_scores(old(grid).boxes@, old(grid).adj(), t, nodes), ranked(old(grid).adj(), b, nodes, cs)]
                    0 <= b < old(grid).boxes@.len() && 0 <= t < old(grid).boxes@.len()
                        && box_contains(old(grid).boxes@[b], *current) && box_contains(
                        old(grid).boxes@[t],
                        *goal,
                    ) && goal_scores(old(grid).boxes@, old(grid).adj(), t, nodes)
                        && nodes[b].score < INFINITY && ranked(old(grid).adj(), b, nodes, cs)
                        && cs.len() > MAX_ATTEMPTS && first_hidden(
                        old(grid).boxes@,
                        cs,
                        MAX_ATTEMPTS as int,
                        *current,
                        polygon@,
                    )
            },
            _ => true,
        },
{
    let direct = Line::new_segment(*current, *goal);
    if !intersect_polygon(&direct, polygon) {
        return Ok(StepResult::Success);
    }
    let cur = match grid.query(current) {
        Ok(i) => i,
        Err(e) => {
            return Err(e);
        },
    };
    let target = match grid.query(goal) {
        Ok(i) => i,
        Err(e) => {
            return Err(e);
        },
    };
    proof {
        assert(box_contains(grid.boxes@[cur as int], *current));
        assert(box_contains(grid.boxes@[target as int], *goal));
    }
    let mut graph = grid.into_graph();
    let ghost g1 = graph.nodes@;
    graph.relax(target, 0);
    proof {
        assert forall|v: int|
            0 <= v < graph.nodes@.len() && v != target && (#[trigger] graph.nodes@[v]).score
                < INFINITY implies reached(graph.nodes@, v, graph.nodes@[v].score as int) by {
            assert(graph.nodes@[v].score < g1[v].score);
        }
        assert(goal_scores(old(grid).boxes@, old(grid).adj(), target as int, graph.nodes@));
    }
    if graph.nodes[cur].score == INFINITY {
        proof {
            assert(graph.nodes@[cur as int].score == INFINITY);
            assert forall|b: int|
                0 <= b < grid.boxes@.len() && box_contains(grid.boxes@[b], *current) implies b
                == cur by {}
        }
        split_frontier(grid, &graph, cur);
        return Ok(StepResult::Split);
    }
    let cands = graph.candidates(cur);
    let ghost g0 = *old(grid);
    proof {
        assert forall|t: int| 0 <= t < cands@.len() implies lists(
            g0.adj()[cur as int],
            #[trigger] cands@[t] as int,
            true,
        ) by {
            assert(cands@.contains(cands@[t]));
            assert(graph.nodes@[cur as int].neighbors@.contains(cands@[t]));
        }
        assert forall|t: int| 0 <= t < cands@.len() implies graph.nodes@[#[trigger] cands@[t] as int].score
            < graph.nodes@[cur as int].score by {
            assert(cands@.contains(cands@[t]));
        }
        assert(ranked(g0.adj(), cur as int, graph.nodes@, cands@));
    }
    let mut attempt: usize = 0;
    while attempt < cands.len() && attempt < MAX_ATTEMPTS
        invariant
            grid.wf(),
            grid.root == g0.root,
            grid.boxes@ == g0.boxes@,
            g0 == *old(grid),
            g0.wf(),
            crosses_ring(segment(*current, *goal), polygon@),
            box_contains(g0.root, *current),
            box_contains(g0.root, *goal),
            graph.wf(),
            graph.nodes@.len() == g0.boxes@.len(),
            cur < g0.boxes@.len(),
            box_contains(g0.boxes@[cur as int], *current),
            forall|i: int| 0 <= i < graph.nodes@.len() ==> (#[trigger] graph.nodes@[i]).center
                == box_center(g0.boxes@[i]),
            forall|t: int|
                0 <= t < cands@.len() ==> lists(g0.adj()[cur as int], #[trigger] cands@[t] as int, true),
            forall|t: int|
                0 <= t < cands@.len() ==> graph.nodes@[#[trigger] cands@[t] as int].score
                    < graph.nodes@[cur as int].score,
            goal_scores(g0.boxes@, g0.adj(), target as int, graph.nodes@),
            target < g0.boxes@.len(),
            box_contains(g0.boxes@[target as int], *goal),
            first_hidden(g0.boxes@, cands@, attempt as int, *current, polygon@),
            ranked(g0.adj(), cur as int, graph.nodes@, cands@),
            attempt <= MAX_ATTEMPTS,
            forall|y: usize|
                cands@.contains(y) <==> graph.nodes@[cur as int].neighbors@.contains(y)
                    && graph.nodes@[y as int].score < graph.nodes@[cur as int].score,
            attempt <= cands@.len(),
            forall|i: int, j: int|
                0 <= i < g0.boxes@.len() ==> (#[trigger] links(grid.adj()[i], j) <==> links(
                    g0.adj()[i],
                    j,
                )),
        decreases cands@.len() - attempt,
    {
        let c = cands[attempt];
        let p = graph.nodes[c].center;
        if is_visible(current, &p, polygon) {
            proof {
                assert(goal_scores(g0.boxes@, g0.adj(), target as int, graph.nodes@));
                assert(cands@[attempt as int] == c);
            }
            return Ok(StepResult::Step(p));
        }
        let ghost before = grid.adj();
        grid.invalidate(cur, c);
        proof {
            assert forall|i: int, j: int| 0 <= i < g0.boxes@.len() implies (#[trigger] links(
                grid.adj()[i],
                j,
            ) <==> links(g0.adj()[i], j)) by {
                assert(links(before[i], j) <==> links(g0.adj()[i], j));
                if lists(before[i], j, true) {
                    assert(lists(grid.adj()[i], j, true) || lists(grid.adj()[i], j, false));
                }
                if lists(before[i], j, false) {
                    assert(lists(grid.adj()[i], j, false));
                }
            }
        }
        attempt = attempt + 1;
    }
    if attempt == cands.len() {
        proof {
            assert forall|b: int|
                0 <= b < g0.boxes@.len() && box_contains(g0.boxes@[b], *current) implies b
                == cur by {}
        }
        let _ = grid.split(cur);
        return Ok(StepResult::Split);
    }
    Err(SearchError::IterationLimitExceeded)
}

/// Each point of `path` sees the next one past the polygon.
pub open spec fn path_clear(path: Seq<Point>, poly: Seq<Point>) -> bool {
    forall|i: int|
        0 <= i < path.len() - 1 ==> !crosses_ring(segment(path[i], #[trigger] path[i + 1]), poly)
}

/// Smooths a path by string pulling: from its last point back to its
/// first, each kept point is followed by the earliest point of the path
/// whose segment to it crosses no edge of `poly`. Returns the indices kept,
/// from the last point's down to 0.
pub fn smooth_path(path: &Vec<Point>, poly: &Vec<Point>) -> (r: Vec<usize>)
    requires
        path@.len() >= 1,
        path_clear(path@, poly@),
    ensures
        r@.len() >= 1,
        r@[0] == path@.len() - 1,
        r@[r@.len() - 1] == 0,
        forall|i: int| 0 <= i < r@.len() ==> #[trigger] r@[i] < path@.len(),
        forall|i: int|
            0 <= i < r@.len() - 1 ==> {
                &&& #[trigger] r@[i + 1] < r@[i]
                &&& !crosses_ring(segment(path@[r@[i + 1] as int], path@[r@[i] as int]), poly@)
                &&& forall|j: int|
                    0 <= j < r@[i + 1] ==> crosses_ring(
                        segment(path@[j], path@[r@[i] as int]),
                        poly@,
                    )
            },
{
    let n = path.len();
    let mut r: Vec<usize> = Vec::new();
    let mut k: usize = n - 1;
    r.push(k);
    while k > 0
        invariant
            n == path@.len(),
            path_clear(path@, poly@),
            k < n,
            r@.len() >= 1,
            r@[0] == n - 1,
            r@[r@.len() - 1] == k,
            forall|i: int| 0 <= i < r@.len() ==> #[trigger] r@[i] < n,
            forall|i: int|
                0 <= i < r@.len() - 1 ==> {
                    &&& #[trigger] r@[i + 1] < r@[i]
                    &&& !crosses_ring(segment(path@[r@[i + 1] as int], path@[r@[i] as int]), poly@)
                    &&& forall|j: int|
                        0 <= j < r@[i + 1] ==> crosses_ring(
                            segment(path@[j], path@[r@[i] as int]),
                            poly@,
                        )
                },
        decreases k,
    {
        assert(!crosses_ring(segment(path@[k - 1], path@[(k - 1) + 1]), poly@));
        let mut j: usize = 0;
        while j < k && intersect_polygon(&Line::new_segment(path[j], path[k]), poly)
            invariant
                n == path@.len(),
                k < n,
                j <= k,
                !crosses_ring(segment(path@[k - 1], path@[k as int]), poly@),
                forall|q: int| 0 <= q < j ==> crosses_ring(segment(path@[q], path@[k as int]), poly@),
            decreases k - j,
        {
            j = j + 1;
        }
        let ghost r0 = r@;
        r.push(j);
        proof {
            assert(j < k);
            assert forall|i: int| 0 <= i < r@.len() - 1 implies {
                &&& #[trigger] r@[i + 1] < r@[i]
                &&& !crosses_ring(segment(path@[r@[i + 1] as int], path@[r@[i] as int]), poly@)
                &&& forall|q: int|
                    0 <= q < r@[i + 1] ==> crosses_ring(segment(path@[q], path@[r@[i] as int]), poly@)
            } by {
                if i < r0.len() - 1 {
                    assert(r@[i] == r0[i] && r@[i + 1] == r0[i + 1]);
                } else {
                    assert(r@[i] == k && r@[i + 1] == j);
                }
            }
            assert forall|i: int| 0 <= i < r@.len() implies #[trigger] r@[i] < n by {
                if i < r0.len() {
                    assert(r@[i] == r0[i]);
                }
            }
        }
        k = j;
    }
    r
}

} // verus!
