//! Maximum pressure release over a network of valves joined by timed tunnels,
//! for one agent or two cooperating agents.
pub mod graph_tools;
pub mod plans;
pub mod routes;
pub mod search;
pub mod valve;

pub use graph_tools::{complete_distances, condense, connect_neighbors_min, remove_valve};
pub use search::{visit_max_pressures, visit_max_pressures_2};
pub use valve::{create_valve_graph, BuildError, Network, Record, Valve, Walker};
