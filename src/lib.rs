//! Periodic compressed snapshots of named directory trees ("worlds"), with a
//! per-world retention cap.
//!
//! The verified core decides everything that does not touch the disk: the
//! settings and their validation, the archive file names, and which archives a
//! retention pass removes.

pub mod config;
pub mod cycle;
pub mod naming;
pub mod retention;
pub mod text;
