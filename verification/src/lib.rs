//! Verified kernels for a collection of small combinatorial puzzles:
//! grid walks, best-path search, memoised counting, region and clique
//! analysis, a three-register machine, a disk compactor and a few numeric
//! helpers. Every executable function carries a contract that Verus proves.
//!
//! Grids live in `array2d::Array2D`, and the connected components of a
//! grid's regions come from `petgraph`; the few things that the proofs
//! take on trust about the two are the items marked `external_body` in
//! `grid` and `regions`, together with one wrapper of the standard
//! library's sort in `lists`.

pub mod antennas;
pub mod arith;
pub mod calibration;
pub mod claw;
pub mod cliques;
pub mod disk;
pub mod grid;
pub mod lists;
pub mod locks;
pub mod machine;
pub mod maze;
pub mod memory;
pub mod multiply;
pub mod page_order;
pub mod patrol;
pub mod racetrack;
pub mod regions;
pub mod reports;
pub mod robots;
pub mod search;
pub mod secrets;
pub mod stones;
pub mod towels;
pub mod trails;
pub mod warehouse;
pub mod wires;
pub mod word_search;
