//! Discrete logic of the Life's Progress simulation framework, verified with Verus:
//! L-System rewriting and interpretation planning, thermal-equilibrium grouping,
//! frequency tables for information measures, energy-ledger bookkeeping,
//! deterministic pair iteration, Barnes-Hut quadrant decisions, wave-grid
//! indexing and save-file versioning.

pub mod equilibrium;
pub mod frequencies;
pub mod generator;
pub mod grammar;
pub mod interpreter;
pub mod ledger;
pub mod lsystem;
pub mod pairwise;
pub mod quadtree;
pub mod text;
pub mod versioning;
pub mod wave_grid;
