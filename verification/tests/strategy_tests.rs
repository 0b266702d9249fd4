use voronoi::bfs::{bfs_run, Tolerance};
use voronoi::bisector::bisectors_and_intersections;
use voronoi::dulaney::dulaney_triangulation;
use voronoi::point::Point;
use voronoi::strategy::{compute, Config, Diagram, Strategy};
use voronoi::triangle::GeometryError;

fn config() -> Config {
    Config { epsilon: Tolerance { units: 32768 }, width: 12, height: 12 }
}

fn sites() -> Vec<Point> {
    vec![Point::new(2, 2), Point::new(9, 3), Point::new(5, 9)]
}

#[test]
fn flood_fill_strategy_gives_the_cells() {
    match compute(Strategy::FloodFill, sites(), config()) {
        Ok(Diagram::Cells(cells)) => {
            assert_eq!(cells.len(), 144);
            assert_eq!(cells, bfs_run(sites(), config().epsilon, 12, 12));
        }
        other => panic!("{:?}", other),
    }
}

#[test]
fn bisector_strategy_gives_lines_and_crossings() {
    match compute(Strategy::Bisectors, sites(), config()) {
        Ok(Diagram::Lines(lines, crossings)) => {
            let expected = bisectors_and_intersections(&sites());
            assert_eq!(lines, expected.0);
            assert_eq!(crossings, expected.1);
            assert_eq!(lines.len(), 3);
        }
        other => panic!("{:?}", other),
    }
}

#[test]
fn triangulation_strategy_gives_the_triangles() {
    match compute(Strategy::Triangulation, sites(), config()) {
        Ok(Diagram::Triangles(triangles)) => {
            assert_eq!(triangles, dulaney_triangulation(&sites(), 12, 12).unwrap());
            assert_eq!(triangles.len(), 1);
        }
        other => panic!("{:?}", other),
    }
}

#[test]
fn triangulation_strategy_passes_the_error_on() {
    // a site on the base of the surrounding triangle
    let on_base = vec![Point::new(4, -1)];
    assert!(matches!(
        compute(Strategy::Triangulation, on_base, config()),
        Err(GeometryError::Degenerate)
    ));
}

#[test]
fn every_strategy_takes_no_sites() {
    assert!(matches!(
        compute(Strategy::FloodFill, vec![], config()),
        Ok(Diagram::Cells(c)) if c.is_empty()
    ));
    assert!(matches!(
        compute(Strategy::Bisectors, vec![], config()),
        Ok(Diagram::Lines(l, c)) if l.is_empty() && c.is_empty()
    ));
    assert!(matches!(
        compute(Strategy::Triangulation, vec![], config()),
        Ok(Diagram::Triangles(t)) if t.is_empty()
    ));
}
