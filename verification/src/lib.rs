//! Fixed-cardinality shortest paths over a complete graph of planar points.
//!
//! A request names a source, a destination and a number `k`, and asks for
//! a short route from the source to the destination over exactly `k` other
//! nodes of the graph. Three constructors answer it: the greedy constructor
//! grows the route by cheapest insertion, its fast variant does so among
//! the `k` nodes nearest to the straight way, and the ant colony lets
//! generations of ants draw their way by desirability and pheromone. For
//! all three `k` counts the nodes strictly between the two ends.
//!
//! Coordinates, distances and lengths are integers: a point lies on a grid,
//! the distance of two points is the Euclidean distance rounded down to a
//! whole grid unit, and the length of a route is the exact sum of the
//! distances of its consecutive points. In the text form of points a
//! grid unit is a thousandth.

pub mod colony;
pub mod data;
pub mod fast;
pub mod fraction;
pub mod graph;
pub mod greedy;
pub mod records;
pub mod util;
pub mod weights;
