//! Signal-quality tiers, active-connection snapshots and the rows of a
//! wireless network report, with their contracts proved by Verus.

pub mod access;
pub mod connection;
pub mod reading;
pub mod report;
pub mod signal;
pub mod text;
