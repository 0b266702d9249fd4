//! One entry point for the three ways to a Voronoi diagram.

use crate::bfs::{bfs_run, BfsState, Tolerance};
use crate::bisector::{all_bisectors, all_crossings, bisectors_and_intersections, Bisector};
use crate::dulaney::{
    bounds_fit, dulaney_triangulation, free_of_later_sites, super_corners, triangulation_degenerate,
    triangulation_spec,
};
use crate::point::Point;
use crate::triangle::{GeometryError, Triangle};
use vstd::prelude::*;

verus! {

/// The way in which the diagram is computed.
#[derive(Debug, Clone, Copy, PartialEq, Eq, Structural)]
pub enum Strategy {
    /// Flood fill of the grid, tagging the cells between two sites.
    FloodFill,
    /// The perpendicular bisector of every pair of sites and their crossings.
    Bisectors,
    /// The triangulation whose dual is the diagram.
    Triangulation,
}

/// What the strategies need besides the sites: the tolerance of the flood
/// fill and the size of the grid.
#[derive(Debug, Clone, Copy, PartialEq, Eq, Structural)]
pub struct Config {
    pub epsilon: Tolerance,
    pub width: i32,
    pub height: i32,
}

/// What a strategy gives.
#[derive(Debug)]
pub enum Diagram {
    /// The visited cells in the order of their visit, each with the pair of
    /// sites between which it lies, if any.
    Cells(Vec<(Point, Option<(Point, Point)>)>),
    /// The bisectors and the points where two of them cross.
    Lines(Vec<Bisector>, Vec<Point>),
    /// The triangles.
    Triangles(Vec<Triangle>),
}

/// The diagram of `sites` by the chosen strategy. Only the triangulation can
/// fail; for it the corners of the surrounding triangle must fit into the
/// coordinates.
pub fn compute(strategy: Strategy, sites: Vec<Point>, config: Config) -> (r: Result<
    Diagram,
    GeometryError,
>)
    requires
        strategy == Strategy::Triangulation ==> bounds_fit(
            config.width as int,
            config.height as int,
        ),
    ensures
        strategy == Strategy::FloodFill ==> (r matches Ok(Diagram::Cells(cells)) && exists|n: nat|
            {
                let end = (#[trigger] BfsState::start(
                    sites@,
                    config.epsilon,
                    config.width as int,
                    config.height as int,
                ).after(n));
                end.done() && end.wf() && cells@ == end.trace()
            }),
        strategy == Strategy::Bisectors ==> (r matches Ok(Diagram::Lines(lines, crossings))
            && lines@ == all_bisectors(sites@) && crossings@ == all_crossings(lines@)),
        strategy == Strategy::Triangulation ==> {
            &&& triangulation_degenerate(sites@, config.width as int, config.height as int)
                <==> r is Err
            &&& r is Ok ==> (r matches Ok(Diagram::Triangles(ts)) && ts@ == triangulation_spec(
                sites@,
                config.width as int,
                config.height as int,
            ) && forall|i: int|
                0 <= i < ts@.len() ==> free_of_later_sites(
                    #[trigger] ts@[i],
                    sites@,
                    super_corners(config.width as int, config.height as int),
                ))
        },
{
    match strategy {
        Strategy::FloodFill => Ok(
            Diagram::Cells(bfs_run(sites, config.epsilon, config.width, config.height)),
        ),
        Strategy::Bisectors => {
            let (lines, crossings) = bisectors_and_intersections(sites.as_slice());
            Ok(Diagram::Lines(lines, crossings))
        },
        Strategy::Triangulation => {
            match dulaney_triangulation(sites.as_slice(), config.width, config.height) {
                Ok(ts) => Ok(Diagram::Triangles(ts)),
                Err(e) => Err(e),
            }
        },
    }
}

} // verus!
