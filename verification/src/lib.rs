//! Weighted A* search on a rectangular occupancy grid.
//!
//! A [`grid::GridMap`] records which cells are impassable. The search in
//! [`search`] walks it in eight directions from a start cell to a goal cell
//! and hands back the cells of the route it found, or `None` when the goal
//! cannot be reached.
//!
//! * [`grid`]: the grid and the vocabulary of cells, adjacency and routes.
//! * [`distance`]: distance functions in whole numbers.
//! * [`node`], [`node_order`], [`open_set`]: the search nodes, their
//!   equality and order, and the heap they wait in.
//! * [`model`]: the search as a state machine, which names the route that
//!   comes out.
//! * [`safety`], [`descent`], [`straight`], [`routes`]: what is proved of
//!   every state of the search, of its straight runs, of the straight-line
//!   distance, and of routes as such.
//! * [`search`]: the search itself.
//! * [`random`]: grids with obstacles scattered at random.
//! * [`render`]: what a picture of a grid and a route shows.

pub mod descent;
pub mod distance;
pub mod grid;
pub mod model;
pub mod node;
pub mod node_order;
pub mod open_set;
pub mod random;
pub mod render;
pub mod routes;
pub mod safety;
pub mod search;
pub mod straight;
