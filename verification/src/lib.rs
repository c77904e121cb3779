//! comiket-tsp: plan an efficient walking route around Comiket circles as a TSP.
//!
//! The crate holds the I/O-free logic: space ids ([`space`]), the island table and its
//! serpentine numbering ([`layout`], [`crossing`]), the cost matrix ([`distance`]), the
//! route search ([`solve`], over the tour arithmetic of [`tour`]), and the route as legs
//! and itinerary rows ([`path`], [`itinerary`]).

pub mod crossing;
pub mod distance;
pub mod error;
pub mod itinerary;
pub mod layout;
pub mod path;
pub mod solve;
pub mod space;
pub mod text;
pub mod tour;

pub use distance::DistanceMatrix;
pub use error::CometError;
pub use layout::{default_cluster, Block, BlockKind, Dir, Layout, Space};
pub use solve::{solve, SolveConfig, SolveOutcome};
pub use space::{Building, Side, SpaceId};

