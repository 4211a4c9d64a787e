//! A watchdog library for a single named OS process: it decides, from each
//! observation of the process table, whether the process must be restarted
//! because it disappeared or because its memory use went over a configured
//! ceiling. The decisions, the threshold policy, the configuration-file
//! grammar and the target-name match are verified; the host binary performs
//! the process queries, sleeps and terminations that the decisions call for.

pub mod ascii;
pub mod config;
pub mod inspector;
pub mod monitor;
pub mod policy;
