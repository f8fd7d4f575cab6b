//! Hexagonal edge-matching puzzles: boards, pieces, generators and solvers.
//!
//! A board is a hexagon of hexagonal cells. A piece carries six signed edge
//! values; two neighbouring pieces fit when their facing values cancel, and
//! every value on the rim of the board is zero.

pub mod ascending;
pub mod candidate;
pub mod candidate_laws;
pub mod clusters;
pub mod config;
pub mod config_laws;
pub mod decoy_laws;
pub mod decoys;
pub mod edge_map;
pub mod edges;
pub mod generator;
pub mod geometry;
pub mod geometry_laws;
pub mod grid;
pub mod id_plan;
pub mod node_limits;
pub mod number;
pub mod number_laws;
pub mod orient;
pub mod plan_laws;
pub mod repair;
pub mod rng;
pub mod search;
pub mod search_laws;
pub mod shape_laws;
pub mod shapes;
pub mod solutions;
pub mod solver;
pub mod trial;
pub mod trial_decoys;
pub mod trial_ids;
pub mod trial_laws;
pub mod trial_pieces;
pub mod trial_search;
pub mod trial_solver;
