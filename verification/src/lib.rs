//! Per-directory disk usage: the rules by which one directory listing is
//! summed up, the bookkeeping that drives a traversal to completion, and the
//! shaping of the finished sizes into a report.

pub mod counting;
pub mod probe;
pub mod results;
pub mod scheduler;
pub mod sort;
pub mod text;
pub mod traversal;
pub mod view;
