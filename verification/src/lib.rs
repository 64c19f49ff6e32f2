//! Core state and chart-data engine for a terminal dashboard that browses a
//! read-only store of machine-learning experiment runs.
//!
//! The library keeps a set of user-driven selection states consistent across
//! wholesale data refreshes: a multi-run comparison set keyed by stable run
//! identity, a circular metric-slot window, an incremental Unicode-correct
//! configuration search, and a navigation state machine. It also turns metric
//! time series into axis bounds, smoothed values and stable style assignments
//! for a drawing layer.

pub mod chart;
pub mod comparison;
pub mod config_text;
pub mod models;
pub mod nav;
pub mod search;
pub mod strings;
pub mod window;
