//! Maximum flow in a directed network with integer capacities, computed with
//! the Edmonds-Karp method (shortest augmenting paths found by breadth-first
//! search), and a check of a claimed flow against the flow on the edges.

pub mod edmonds_karp_solver;
pub mod flow_check;
pub mod flow_model;
pub mod laws;
