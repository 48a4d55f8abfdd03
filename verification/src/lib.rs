//! Verified core of a hex-grid electrical-circuit life simulator.
//!
//! Molecules are circuits built from hexagonal atoms. This crate holds the
//! parts of the simulation that are exact integer logic: axial hex-grid
//! geometry and a sparse hex grid, the atom taxonomy and its logic gates, the
//! deterministic xorshift128+ generator, the structural operators on genomes
//! (growth sites, seeding, connectivity pruning) and the bond table of a
//! molecule. Each is specified over a mathematical model and proved.

pub mod atom;
pub mod config;
mod fx;
pub mod genome;
pub mod growth;
pub mod hex_grid;
pub mod molecule;
pub mod rng;
pub mod shape;
pub mod world;
