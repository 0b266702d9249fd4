use voronoi::bfs::{bfs_run, is_edge, Step, Tolerance, BFS};
use voronoi::point::Point;

const HALF: Tolerance = Tolerance { units: 32768 };

const ONE: Tolerance = Tolerance { units: 65536 };

fn run(bfs: &mut BFS) -> usize {
    let mut steps = 0;
    while bfs.step() {
        steps += 1;
        assert!(steps <= 1_000_000);
    }
    steps
}

#[test]
fn cells_near_x_five_lie_between_the_two_sites() {
    let sites = vec![Point::new(0, 0), Point::new(10, 0)];
    let mut bfs = BFS::new(sites.clone(), HALF, 20, 20);
    run(&mut bfs);
    assert_eq!(bfs.visited.len(), 400);
    let edges = bfs.edges();
    assert_eq!(edges.len(), 1);
    assert_eq!(edges[0].between, (Point::new(0, 0), Point::new(10, 0)));
    assert_eq!(edges[0].cells.len(), 20);
    for cell in edges[0].cells.iter() {
        assert_eq!(cell.x, 5);
        assert!(0 <= cell.y && cell.y < 20);
    }
    for y in 0..20 {
        assert!(edges[0].cells.contains(&Point::new(5, y)));
        assert_eq!(is_edge(Point::new(5, y), sites.clone(), HALF), Some((sites[0], sites[1])));
        assert_eq!(is_edge(Point::new(4, y), sites.clone(), HALF), None);
        assert_eq!(is_edge(Point::new(6, y), sites.clone(), HALF), None);
    }
}

#[test]
fn each_step_visits_exactly_one_new_cell() {
    let sites = vec![Point::new(2, 3), Point::new(7, 1), Point::new(4, 8), Point::new(2, 3)];
    let mut bfs = BFS::new(sites, ONE, 10, 9);
    let mut before = bfs.visited.len();
    assert_eq!(before, 0);
    let mut steps = 0;
    loop {
        let next = *bfs.frontier.back().unwrap_or(&Point::new(-1, -1));
        let more = bfs.step();
        if !more {
            assert_eq!(bfs.visited.len(), before);
            break;
        }
        steps += 1;
        assert_eq!(bfs.visited.len(), before + 1);
        assert_eq!(*bfs.visited.last().unwrap(), next);
        before = bfs.visited.len();
        for waiting in bfs.frontier.iter() {
            assert!(!bfs.visited.contains(waiting));
        }
        for (i, cell) in bfs.visited.iter().enumerate() {
            assert!(!bfs.visited[..i].contains(cell));
        }
    }
    assert_eq!(steps, 90);
    assert_eq!(bfs.visited.len(), 90);
    assert!(bfs.frontier.is_empty());
    assert!(!bfs.step());
    assert!(!bfs.step());
    assert_eq!(bfs.visited.len(), 90);
}

#[test]
fn fill_without_sites_is_done_at_once() {
    let mut bfs = BFS::new(vec![], HALF, 20, 20);
    assert!(bfs.frontier.is_empty());
    assert!(!bfs.step());
    assert!(bfs.visited.is_empty());
    assert!(bfs.edges().is_empty());
}

#[test]
fn fill_starts_with_the_sites_on_the_frontier() {
    let sites = vec![Point::new(1, 1), Point::new(5, 2), Point::new(3, 3)];
    let bfs = BFS::new(sites.clone(), HALF, 8, 8);
    assert_eq!(bfs.sites, sites);
    assert!(bfs.visited.is_empty());
    assert!(bfs.edges.is_empty());
    let waiting: Vec<Point> = bfs.frontier.iter().copied().collect();
    assert_eq!(waiting, vec![Point::new(3, 3), Point::new(5, 2), Point::new(1, 1)]);
}

#[test]
fn first_step_visits_the_first_site() {
    let sites = vec![Point::new(1, 1), Point::new(5, 2)];
    let mut bfs = BFS::new(sites, HALF, 8, 8);
    assert!(bfs.step());
    assert_eq!(bfs.visited, vec![Point::new(1, 1)]);
    let waiting: Vec<Point> = bfs.frontier.iter().copied().collect();
    assert_eq!(
        waiting,
        vec![
            Point::new(5, 2),
            Point::new(0, 1),
            Point::new(1, 0),
            Point::new(2, 1),
            Point::new(1, 2)
        ]
    );
    assert!(bfs.step());
    assert_eq!(bfs.visited, vec![Point::new(1, 1), Point::new(1, 2)]);
}

#[test]
fn visited_copy_of_a_cell_leaves_the_frontier() {
    // (1, 0) and (0, 1) both put (1, 1) on the frontier
    let mut bfs = BFS::new(vec![Point::new(0, 0)], HALF, 2, 2);
    let steps = run(&mut bfs);
    assert_eq!(steps, 4);
    assert_eq!(
        bfs.visited,
        vec![Point::new(0, 0), Point::new(0, 1), Point::new(1, 1), Point::new(1, 0)]
    );
}

#[test]
fn neighbours_come_left_up_right_down() {
    let mut bfs = BFS::new(vec![Point::new(3, 3)], HALF, 8, 8);
    assert_eq!(
        bfs.get_unvisited_neighbors(Point::new(3, 3)),
        vec![Point::new(2, 3), Point::new(3, 2), Point::new(4, 3), Point::new(3, 4)]
    );
    assert!(bfs.step());
    assert!(bfs.step());
    assert_eq!(bfs.visited, vec![Point::new(3, 3), Point::new(3, 4)]);
    assert_eq!(
        bfs.get_unvisited_neighbors(Point::new(3, 3)),
        vec![Point::new(2, 3), Point::new(3, 2), Point::new(4, 3)]
    );
    assert_eq!(
        bfs.get_unvisited_neighbors(Point::new(2, 4)),
        vec![Point::new(1, 4), Point::new(2, 3), Point::new(2, 5)]
    );
}

#[test]
fn neighbours_stay_on_the_grid() {
    let bfs = BFS::new(vec![], HALF, 4, 3);
    assert_eq!(
        bfs.get_unvisited_neighbors(Point::new(0, 0)),
        vec![Point::new(1, 0), Point::new(0, 1)]
    );
    assert_eq!(
        bfs.get_unvisited_neighbors(Point::new(3, 2)),
        vec![Point::new(2, 2), Point::new(3, 1)]
    );
    assert_eq!(bfs.get_unvisited_neighbors(Point::new(4, 1)), vec![Point::new(3, 1)]);
    assert_eq!(bfs.get_unvisited_neighbors(Point::new(2, 3)), vec![Point::new(2, 2)]);
    assert_eq!(bfs.get_unvisited_neighbors(Point::new(-1, 1)), vec![Point::new(0, 1)]);
    assert_eq!(bfs.get_unvisited_neighbors(Point::new(9, 9)), vec![]);
    assert_eq!(bfs.get_unvisited_neighbors(Point::new(9, 1)), vec![]);
    assert_eq!(bfs.get_unvisited_neighbors(Point::new(i32::MAX, i32::MAX)), vec![]);
    assert_eq!(bfs.get_unvisited_neighbors(Point::new(i32::MIN, i32::MIN)), vec![]);
    let none = BFS::new(vec![], HALF, 0, 0);
    assert_eq!(none.get_unvisited_neighbors(Point::new(0, 0)), vec![]);
    let wide = BFS::new(vec![], HALF, i32::MAX, i32::MAX);
    assert_eq!(
        wide.get_unvisited_neighbors(Point::new(i32::MAX - 1, i32::MAX - 1)),
        vec![Point::new(i32::MAX - 2, i32::MAX - 1), Point::new(i32::MAX - 1, i32::MAX - 2)]
    );
}

#[test]
fn site_outside_the_grid_is_visited_alone() {
    let mut bfs = BFS::new(vec![Point::new(50, 50)], HALF, 4, 4);
    assert_eq!(run(&mut bfs), 1);
    assert_eq!(bfs.visited, vec![Point::new(50, 50)]);
}

#[test]
fn tolerance_is_a_strict_bound() {
    let sites = vec![Point::new(3, 0), Point::new(4, 0)];
    let p = Point::new(0, 0);
    // the distances are 3 and 4
    assert_eq!(is_edge(p, sites.clone(), Tolerance { units: 65536 }), None);
    assert_eq!(is_edge(p, sites.clone(), Tolerance { units: 65535 }), None);
    assert_eq!(
        is_edge(p, sites.clone(), Tolerance { units: 65537 }),
        Some((Point::new(3, 0), Point::new(4, 0)))
    );
    assert_eq!(is_edge(p, sites.clone(), Tolerance { units: 0 }), None);
    assert_eq!(
        is_edge(p, sites, Tolerance { units: u32::MAX }),
        Some((Point::new(3, 0), Point::new(4, 0)))
    );
}

#[test]
fn tolerance_is_exact_on_roots() {
    // the distances are 1 and sqrt(2); 0.41421356 * 65536 = 27145.98
    let sites = vec![Point::new(1, 0), Point::new(1, 1)];
    let p = Point::new(0, 0);
    assert_eq!(is_edge(p, sites.clone(), Tolerance { units: 27145 }), None);
    assert_eq!(
        is_edge(p, sites, Tolerance { units: 27146 }),
        Some((Point::new(1, 0), Point::new(1, 1)))
    );
}

#[test]
fn equal_distances_need_a_tolerance_above_zero() {
    let sites = vec![Point::new(-2, 0), Point::new(2, 0)];
    assert_eq!(is_edge(Point::new(0, 5), sites.clone(), Tolerance { units: 0 }), None);
    assert_eq!(
        is_edge(Point::new(0, 5), sites, Tolerance { units: 1 }),
        Some((Point::new(-2, 0), Point::new(2, 0)))
    );
}

#[test]
fn edge_is_the_nearest_site_and_the_first_site_near_enough() {
    let sites = vec![Point::new(9, 0), Point::new(0, 5), Point::new(5, 0), Point::new(-5, 0)];
    // (0, 5), (5, 0) and (-5, 0) are equally near to the origin
    assert_eq!(
        is_edge(Point::new(0, 0), sites.clone(), HALF),
        Some((Point::new(0, 5), Point::new(5, 0)))
    );
    // a site that equals the nearest one is no partner
    let twice = vec![Point::new(0, 5), Point::new(0, 5), Point::new(-5, 0)];
    assert_eq!(
        is_edge(Point::new(0, 0), twice, HALF),
        Some((Point::new(0, 5), Point::new(-5, 0)))
    );
    let alone = vec![Point::new(0, 5), Point::new(0, 5)];
    assert_eq!(is_edge(Point::new(0, 0), alone, HALF), None);
}

#[test]
fn edge_of_no_site_or_one_site_is_none() {
    assert_eq!(is_edge(Point::new(0, 0), vec![], HALF), None);
    assert_eq!(is_edge(Point::new(0, 0), vec![Point::new(0, 0)], HALF), None);
}

#[test]
fn edge_far_apart_does_not_overflow() {
    let sites = vec![Point::new(i32::MAX, i32::MAX), Point::new(i32::MAX, i32::MAX - 1)];
    let p = Point::new(i32::MIN, i32::MIN);
    // the distances differ by about 0.7
    assert_eq!(is_edge(p, sites.clone(), HALF), None);
    assert_eq!(is_edge(p, sites.clone(), ONE), Some((sites[1], sites[0])));
}

#[test]
fn boundaries_are_keyed_by_the_pair_whatever_its_order() {
    // on the left the nearest site is (2, 2), on the right (6, 2)
    let sites = vec![Point::new(6, 2), Point::new(2, 2)];
    let mut bfs = BFS::new(sites, Tolerance { units: 3 * 65536 }, 9, 5);
    run(&mut bfs);
    let edges = bfs.edges();
    assert_eq!(edges.len(), 1);
    assert_eq!(edges[0].between, (Point::new(2, 2), Point::new(6, 2)));
    assert!(edges[0].cells.contains(&Point::new(3, 2)));
    assert!(edges[0].cells.contains(&Point::new(5, 2)));
    assert!(edges[0].cells.contains(&Point::new(4, 0)));
    // cells come in the order of their visit
    let order: Vec<usize> = edges[0]
        .cells
        .iter()
        .map(|c| bfs.visited.iter().position(|v| v == c).unwrap())
        .collect();
    for pair in order.windows(2) {
        assert!(pair[0] < pair[1]);
    }
}

#[test]
fn three_sites_give_three_boundaries() {
    let sites = vec![Point::new(2, 2), Point::new(12, 2), Point::new(7, 12)];
    let mut bfs = BFS::new(sites.clone(), HALF, 15, 15);
    run(&mut bfs);
    assert_eq!(bfs.visited.len(), 225);
    let edges = bfs.edges();
    assert_eq!(edges.len(), 3);
    for (i, e) in edges.iter().enumerate() {
        assert!(e.between.0 <= e.between.1);
        assert!(sites.contains(&e.between.0) && sites.contains(&e.between.1));
        for other in edges[..i].iter() {
            assert_ne!(other.between, e.between);
        }
        for cell in e.cells.iter() {
            let pair = is_edge(*cell, sites.clone(), HALF).unwrap();
            assert!(pair == e.between || (pair.1, pair.0) == e.between);
        }
    }
    let found: usize = edges.iter().map(|e| e.cells.len()).sum();
    let expected = bfs
        .visited
        .iter()
        .filter(|c| is_edge(**c, sites.clone(), HALF).is_some())
        .count();
    assert_eq!(found, expected);
}

#[test]
fn advance_reports_what_the_step_did() {
    let sites = vec![Point::new(0, 0), Point::new(2, 0)];
    let mut bfs = BFS::new(sites.clone(), HALF, 3, 1);
    assert_eq!(bfs.advance(), Step::Visited(Point::new(0, 0), None));
    assert_eq!(
        bfs.advance(),
        Step::Visited(Point::new(1, 0), Some((Point::new(0, 0), Point::new(2, 0))))
    );
    assert_eq!(bfs.advance(), Step::Visited(Point::new(2, 0), None));
    assert_eq!(bfs.advance(), Step::Done);
    assert_eq!(bfs.advance(), Step::Done);
    assert_eq!(bfs.visited.len(), 3);
}

#[test]
fn advance_drops_a_cell_that_was_visited() {
    let mut bfs = BFS::new(vec![Point::new(1, 1)], HALF, 3, 3);
    assert_eq!(bfs.advance(), Step::Visited(Point::new(1, 1), None));
    bfs.frontier.push_back(Point::new(1, 1));
    let before = bfs.visited.clone();
    let waiting = bfs.frontier.len();
    assert_eq!(bfs.advance(), Step::Skipped(Point::new(1, 1)));
    assert_eq!(bfs.visited, before);
    assert_eq!(bfs.frontier.len(), waiting - 1);
}

#[test]
fn whole_fill_gives_every_cell_with_its_pair() {
    let sites = vec![Point::new(0, 0), Point::new(10, 0)];
    let cells = bfs_run(sites.clone(), HALF, 20, 20);
    assert_eq!(cells.len(), 400);
    let mut bfs = BFS::new(sites.clone(), HALF, 20, 20);
    run(&mut bfs);
    let visited: Vec<Point> = cells.iter().map(|c| c.0).collect();
    assert_eq!(visited, bfs.visited);
    for (cell, pair) in cells.iter() {
        assert_eq!(*pair, is_edge(*cell, sites.clone(), HALF));
        assert_eq!(pair.is_some(), cell.x == 5);
    }
    assert_eq!(cells[0], (Point::new(0, 0), None));
}

#[test]
fn whole_fill_without_sites_is_empty() {
    assert!(bfs_run(vec![], HALF, 20, 20).is_empty());
    assert_eq!(bfs_run(vec![Point::new(3, 3)], HALF, 0, 0), vec![(Point::new(3, 3), None)]);
}
