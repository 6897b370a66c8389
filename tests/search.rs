use navgrid::geom::{AABox, Point};
use navgrid::graph::INFINITY;
use navgrid::grid::{Grid, SearchError};
use navgrid::metric::distance;
use navgrid::search::{is_visible, smooth_path, step_search, StepResult, MAX_ATTEMPTS};

fn v(x: i32, y: i32) -> Point {
    Point::new(x, y)
}

fn root() -> AABox {
    AABox { start: v(0, 0), dim: v(100, 100) }
}

fn lists(g: &Grid, i: usize, j: usize) -> Option<bool> {
    g.neighbors[i].iter().find(|e| e.index == j).map(|e| e.valid)
}

fn assert_symmetric(g: &Grid) {
    for i in 0..g.boxes.len() {
        for e in &g.neighbors[i] {
            assert_ne!(e.index, i);
            assert_eq!(lists(g, e.index, i), Some(e.valid));
        }
    }
}

fn assert_partition(g: &Grid) {
    for x in (0..100).step_by(3) {
        for y in (0..100).step_by(3) {
            let p = v(x, y);
            let holders = g
                .boxes
                .iter()
                .filter(|b| p.x >= b.start.x && p.x < b.start.x + b.dim.x && p.y >= b.start.y && p.y < b.start.y + b.dim.y)
                .count();
            assert_eq!(holders, 1);
            let i = g.query(&p).unwrap();
            let b = g.boxes[i];
            assert!(p.x >= b.start.x && p.x < b.start.x + b.dim.x);
            assert!(p.y >= b.start.y && p.y < b.start.y + b.dim.y);
        }
    }
}

#[test]
fn new_grid_has_one_box() {
    let g = Grid::new(root());
    assert_eq!(g.len(), 1);
    assert_eq!(g.query(&v(50, 50)), Ok(0));
    assert_eq!(g.query(&v(100, 50)), Err(SearchError::QueryNotFound));
    assert_eq!(g.query(&v(-1, 0)), Err(SearchError::QueryNotFound));
}

#[test]
fn splits_keep_a_partition_and_symmetric_links() {
    let mut g = Grid::new(root());
    assert_eq!(g.split(0), Some(1));
    assert_eq!(lists(&g, 0, 1), Some(true));
    assert_eq!(lists(&g, 1, 0), Some(true));
    let mut k = 0;
    while g.len() < 40 {
        let i = (k * 7) % g.len();
        g.split(i);
        assert_symmetric(&g);
        k += 1;
    }
    assert_partition(&g);
}

#[test]
fn split_repairs_links() {
    let mut g = Grid::new(root());
    g.split(0); // 0 = [0,50)x[0,100), 1 = [50,100)x[0,100)
    g.split(1); // 1 = [50,100)x[0,50), 2 = [50,100)x[50,100)
    assert_eq!(lists(&g, 0, 1), Some(true));
    assert_eq!(lists(&g, 0, 2), Some(true));
    assert_eq!(lists(&g, 1, 2), Some(true));
    g.invalidate(0, 1);
    assert_eq!(lists(&g, 0, 1), Some(false));
    assert_eq!(lists(&g, 1, 0), Some(false));
    g.split(0); // 0 = [0,50)x[0,50), 3 = [0,50)x[50,100)
    // 3 touches 2 along a side and 1 at a corner; 0 keeps 2 by a corner.
    assert_eq!(lists(&g, 0, 2), Some(true));
    assert_eq!(lists(&g, 3, 2), Some(true));
    assert_eq!(lists(&g, 3, 1), Some(true));
    assert_eq!(lists(&g, 0, 1), Some(false));
    assert_eq!(lists(&g, 0, 3), Some(true));
    assert_symmetric(&g);
}

#[test]
fn split_drops_links_that_no_longer_touch() {
    let mut g = Grid::new(root());
    g.split(0); // 0 = [0,50)x[0,100), 1 = [50,100)x[0,100)
    g.split(0); // 0 = [0,50)x[0,50), 2 = [0,50)x[50,100)
    g.split(0); // 0 = [0,25)x[0,50), 3 = [25,50)x[0,50)
    // 0 no longer touches 1; 3 takes its place.
    assert_eq!(lists(&g, 0, 1), None);
    assert_eq!(lists(&g, 1, 0), None);
    assert_eq!(lists(&g, 3, 1), Some(true));
    assert_eq!(lists(&g, 0, 2), Some(true));
    assert_eq!(lists(&g, 0, 3), Some(true));
    assert_symmetric(&g);
}

#[test]
fn unit_box_does_not_split() {
    let mut g = Grid::new(AABox { start: v(0, 0), dim: v(1, 1) });
    assert_eq!(g.split(0), None);
    assert_eq!(g.len(), 1);
}

#[test]
fn distance_rounds_down() {
    assert_eq!(distance(&v(0, 0), &v(3, 4)), 5);
    assert_eq!(distance(&v(0, 0), &v(1, 1)), 1);
    assert_eq!(distance(&v(-2, -2), &v(2, 2)), 5);
    assert_eq!(distance(&v(7, 7), &v(7, 7)), 0);
    assert_eq!(distance(&v(i32::MIN, i32::MIN), &v(i32::MAX, i32::MAX)), 6074000998);
}

#[test]
fn relaxation_scores_shortest_paths() {
    let mut g = Grid::new(root());
    g.split(0);
    g.split(0);
    g.split(1);
    let mut graph = g.into_graph();
    for n in &graph.nodes {
        assert_eq!(n.score, INFINITY);
    }
    let before: Vec<u64> = graph.nodes.iter().map(|n| n.score).collect();
    graph.relax(1, 0);
    assert_eq!(graph.nodes[1].score, 0);
    for (i, n) in graph.nodes.iter().enumerate() {
        assert!(n.score <= before[i]);
        assert!(n.score < INFINITY);
        for &j in &n.neighbors {
            let d = distance(&n.center, &graph.nodes[j].center);
            assert!(graph.nodes[j].score <= n.score + d);
        }
    }
    // Relaxing again changes nothing, and the goal stays at 0.
    let settled: Vec<u64> = graph.nodes.iter().map(|n| n.score).collect();
    graph.relax(1, 0);
    let again: Vec<u64> = graph.nodes.iter().map(|n| n.score).collect();
    assert_eq!(settled, again);
    assert_eq!(graph.nodes[1].score, 0);
}

#[test]
fn candidates_are_lower_neighbors_in_order() {
    let mut g = Grid::new(root());
    g.split(0);
    g.split(1);
    g.split(0);
    let mut graph = g.into_graph();
    graph.relax(2, 0);
    let own = graph.nodes[0].score;
    let c = graph.candidates(0);
    for w in c.windows(2) {
        assert!(graph.nodes[w[0]].score <= graph.nodes[w[1]].score);
    }
    for &j in &graph.nodes[0].neighbors {
        assert_eq!(c.contains(&j), graph.nodes[j].score < own);
    }
    assert_eq!(c[0], 2);
}

#[test]
fn direct_success() {
    let mut g = Grid::new(root());
    let obstacle = vec![v(80, 10), v(95, 10), v(95, 30)];
    let r = step_search(&v(10, 10), &v(90, 90), &obstacle, &mut g);
    assert_eq!(r, Ok(StepResult::Success));
    assert_eq!(g.len(), 1);
}

#[test]
fn wall_forces_split_then_routes_around() {
    let mut g = Grid::new(root());
    let wall = vec![v(50, 20), v(50, 80)];
    let goal = v(90, 50);
    let mut current = v(10, 50);
    let first = step_search(&current, &goal, &wall, &mut g);
    assert_eq!(first, Ok(StepResult::Split));
    let mut steps = Vec::new();
    let mut done = false;
    for _ in 0..2000 {
        match step_search(&current, &goal, &wall, &mut g) {
            Ok(StepResult::Success) => {
                done = true;
                break;
            }
            Ok(StepResult::Step(p)) => {
                assert!(is_visible(&current, &p, &wall));
                current = p;
                steps.push(p);
            }
            Ok(StepResult::Split) => {}
            Err(e) => panic!("search failed: {:?}", e),
        }
    }
    assert!(done);
    assert!(!steps.is_empty());
}

#[test]
fn all_links_invalid_gives_split() {
    let mut g = Grid::new(root());
    g.split(0);
    g.split(0);
    g.split(1);
    let wall = vec![v(20, 0), v(20, 100)];
    let current = v(5, 5);
    let cur = g.query(&current).unwrap();
    let others: Vec<usize> = g.neighbors[cur].iter().map(|e| e.index).collect();
    for j in others {
        g.invalidate(cur, j);
    }
    let n = g.len();
    let r = step_search(&current, &v(90, 90), &wall, &mut g);
    assert_eq!(r, Ok(StepResult::Split));
    assert!(g.len() > n);
}

#[test]
fn too_many_blocked_candidates_hit_the_limit() {
    let mut g = Grid::new(AABox { start: v(0, 0), dim: v(64, 64) });
    g.split(0); // 0 = [0,32)x[0,64), 1 = [32,64)x[0,64)
    loop {
        let mut changed = false;
        for i in 1..g.len() {
            if g.boxes[i].dim.y > 4 {
                g.split(i);
                changed = true;
            }
        }
        if !changed {
            break;
        }
    }
    let wall = vec![v(20, -10), v(20, 100)];
    let before = g.len();
    let r = step_search(&v(10, 30), &v(62, 32), &wall, &mut g);
    assert_eq!(r, Err(SearchError::IterationLimitExceeded));
    assert_eq!(g.len(), before);
    let invalid = g.neighbors[0].iter().filter(|e| !e.valid).count();
    assert_eq!(invalid, MAX_ATTEMPTS);
}

#[test]
fn point_outside_the_grid_is_an_error() {
    let mut g = Grid::new(root());
    let wall = vec![v(50, -200), v(50, 200)];
    let r = step_search(&v(-10, 50), &v(90, 50), &wall, &mut g);
    assert_eq!(r, Err(SearchError::QueryNotFound));
    let r = step_search(&v(10, 50), &v(190, 50), &wall, &mut g);
    assert_eq!(r, Err(SearchError::QueryNotFound));
}

#[test]
fn string_pulling_skips_needless_waypoints() {
    let wall = vec![v(50, 20), v(50, 80)];
    let path = vec![v(10, 50), v(10, 90), v(25, 90), v(75, 90), v(90, 50)];
    assert_eq!(smooth_path(&path, &wall), vec![4, 3, 1, 0]);
    let open = vec![v(200, 200), v(210, 200)];
    assert_eq!(smooth_path(&path, &open), vec![4, 0]);
    assert_eq!(smooth_path(&vec![v(1, 1)], &wall), vec![0]);
}
