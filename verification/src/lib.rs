//! Verified core of the Kinetix tiling engine: window state bookkeeping,
//! layout strategies, the binary split tree, drop-zone detection and the
//! decisions the daemon takes around its I/O.

pub mod backend;
pub mod config;
pub mod engine;
pub mod overlay;
pub mod state;
pub mod startup;
pub mod text;
