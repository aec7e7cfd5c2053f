//! A best-first shortest-path search over 2D grids with randomized terrain
//! costs, implemented twice over interchangeable backing stores: hash-based
//! containers and dense index-addressed arrays.  Both engines are proved to
//! return exactly the path that the shared mathematical model defines, so
//! they are deterministic and agree with each other cell for cell.

pub mod hash;
pub mod index;
pub mod lemmas;
pub mod model;
pub mod rng;
pub mod score;
