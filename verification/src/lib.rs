//! Column roll-up of tab-separated values with units, together with the
//! nibble-level checks and small utilities that accompany it.

pub mod aggregate;
pub mod cli;
pub mod detect;
pub mod gold;
pub mod nibble;
pub mod number;
pub mod order;
pub mod rows;
pub mod samples;
pub mod schedule;
pub mod text;
