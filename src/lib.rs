// Solvers for two combinatorial puzzles, with their proofs:
// - packing nine labeled blocks into a 12x11x9 cuboid so that each outer
//   face sums to 100 (`volume`, on the rotations of `rotation` and the
//   geometry of `common`), with the face pre-filter of `constraints`;
// - labeling the faces of a dodecahedron so that every triangle of three
//   neighbouring facets sums to 96 (`dodeca`).
// Both searches are stepwise depth-first searches; `search` holds the
// ranking that proves they end.
pub mod common;
pub mod constraints;
pub mod dodeca;
pub mod rotation;
pub mod search;
pub mod volume;
