//! Structure of equivalent-circuit models for impedance spectroscopy:
//! the circuit description language, the element supply, and the network
//! that a circuit description denotes.
pub mod syntax;
pub mod element_map;
pub mod network;
pub mod model;
pub mod data;
