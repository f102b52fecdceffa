//! Flight network planner for airlines of the Minecart Rapid Transit server.
//!
//! The planner picks pairs of gates to connect, preferring routes that no
//! other airline flies, and hands out flight numbers from configured ranges.
pub mod lists;
pub mod gate;
pub mod flight_type;
pub mod flight_data;
pub mod config;
pub mod score;
pub mod flight;
pub mod fng;
pub mod run;
pub mod run_laws;
pub mod text;
pub mod stats;
pub mod flight_utils;
pub mod gate_keys;
