//! Network data structures and combinatorial building blocks of a
//! Frank–Wolfe traffic assignment solver: sorted-sequence iterators,
//! permit bundles and paths, interning indices, the road network graph,
//! travel demand, reachability, the syntax of floating-point numerals, the
//! TNTP text formats and the cordon edge map.

pub mod bundle_index;
pub mod collections;
pub mod common;
pub mod cordon;
pub mod demand;
pub mod float_syntax;
pub mod frank_wolfe;
pub mod graph;
pub mod graph_check;
pub mod index;
pub mod iter;
pub mod order;
pub mod order_laws;
pub mod output;
pub mod path_index;
pub mod reachability;
pub mod sorted;
pub mod text;
pub mod tntp;
