//! The scheduling policies.

pub mod cfs;
pub mod round_robin;

pub use cfs::CFS;
pub use round_robin::RoundRobin;
