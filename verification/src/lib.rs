//! Rolling-stock scheduling: vehicle tours over a timetabled network, train
//! formations per trip, depot bookkeeping, and the objective and search
//! machinery that improves a schedule.

pub mod base_types;
pub mod distance;
pub mod time;
pub mod iso_time;
pub mod vehicle_types;
pub mod config;
pub mod depot;
pub mod locations;
pub mod network;
pub mod json_serialisation;
pub mod chain;
pub mod segment;
pub mod path;
pub mod tour;
pub mod tour_laws;
pub mod train_formation;
pub mod persistent;
pub mod schedule;
pub mod objective;
pub mod local_search;
pub mod first_phase_objective;
pub mod greedy;
pub mod flow;
pub mod min_cost_flow_solver;
pub mod clusters;
pub mod transition;
pub mod transition_cycle_tsp;
