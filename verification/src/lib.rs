//! Tabu search for gamma-quasi-cliques on undirected simple graphs.
//!
//! A gamma-quasi-clique is a vertex subset S whose density
//! 2 m(S) / (|S| (|S| - 1)) is at least gamma. `solve_fixed_k` searches for
//! the densest subset of a given size, `solve_maxk` for the largest subset
//! of density at least gamma.
//!
//! Densities and the threshold gamma are exact fractions (`ratio`), so every
//! comparison is one of integers. Subsets are bitmaps (`bits`) over the rows
//! of the adjacency matrix (`graph`); a `Solution` keeps |S| and m(S) current
//! under each change. The search is built from the constructors of an
//! initial subset (`construct`), the swap step (`neighbour`) with its
//! critical sets (`critical`) and tabu memories (`tabu`), the perturbations
//! (`diversify`) with their threshold (`roots`), and the long-term memory
//! of moved vertices (`memory`). `restart` runs the fixed-k search, `maxk`
//! the search over sizes, whose degree bound `bound` proves sound. `dimacs`
//! reads graphs, `rng` is the random source, `params` the parameters.

pub mod bits;
pub mod bound;
pub mod construct;
pub mod critical;
pub mod dimacs;
pub mod diversify;
pub mod graph;
pub mod maxk;
pub mod memory;
pub mod neighbour;
pub mod params;
pub mod ratio;
pub mod restart;
pub mod rng;
pub mod roots;
pub mod solution;
pub mod tabu;

pub use bits::Bitmap;
pub use dimacs::ParseError;
pub use graph::Graph;
pub use maxk::solve_maxk;
pub use params::{InvalidArgument, Params};
pub use ratio::Ratio;
pub use restart::solve_fixed_k;
pub use solution::Solution;
