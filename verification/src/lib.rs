//! Combinatorial-optimization heuristics over two classic problems: the 0/1
//! knapsack problem and the traveling salesman problem.  Candidate solutions
//! carry a cached objective value; search drivers (genetic algorithm,
//! simulated annealing, tabu search, GRASP and ant-colony optimization)
//! derive neighbours and offspring from them and track an incumbent best.

pub mod anneal;
pub mod graph;
pub mod knapsack;
pub mod ksp_ag;
pub mod ksp_grasp;
pub mod ksp_sa;
pub mod ksp_tabu;
pub mod order;
pub mod rng;
pub mod text;
pub mod tsp;
pub mod tsp_ag;
pub mod tsp_ant;
pub mod tsp_grasp;
pub mod tsp_sa;
pub mod tsp_tabu;

pub use graph::add_nodes;
pub use graph::fill_graph;
pub use graph::Edge;
pub use graph::Graph;
pub use graph::GraphMat;
pub use graph::Node;
pub use graph::Weight;
pub use text::debug_to_kw;
