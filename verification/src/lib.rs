//! Code-graph and change-history reasoning over a project index.
//!
//! The library decides; what it decides on is read elsewhere. Rows of an
//! index, the output of Git and the text of files come in as plain values, and
//! what to read next, what to write and what to say goes out the same way.
pub mod branch_overlap;
pub mod brief;
pub mod bundle;
pub mod calendar;
pub mod call_path;
pub mod context;
pub mod drift;
pub mod drift_compare;
pub mod drift_log;
pub mod drift_scan;
pub mod edit_callers;
pub mod edit_check;
pub mod edit_report;
pub mod globs;
pub mod history;
pub mod hook_health;
pub mod impact;
pub mod impact_report;
pub mod import_graph;
pub mod imports;
pub mod index;
pub mod laws;
pub mod model;
pub mod order;
pub mod paths;
pub mod resolution;
pub mod resolver;
pub mod surroundings;
pub mod symbols;
pub mod syntax;
pub mod text;
pub mod walk_cache;
pub mod walk_course;
pub mod walk_run;
