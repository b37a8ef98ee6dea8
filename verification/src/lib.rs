//! A static code-health analyzer and refactoring planner.
//!
//! Given what is known of the files of a project (their text, their role,
//! what they depend on), the library measures each file, finds what no entry
//! point reaches, finds folders worth merging or splitting, and sets down the
//! work as plans and task files. Reading and writing files is left to the
//! caller; everything here is a function of plain values, with a contract
//! that Verus checks.

pub mod agent;
pub mod consolidator;
pub mod drivers;
pub mod emit;
pub mod graph;
pub mod guard;
pub mod map_guard;
pub mod order;
pub mod paths;
pub mod pattern;
pub mod rescript_auto_discovery;
pub mod resolver;
pub mod state;
pub mod synth;
pub mod table;
pub mod tasks;
pub mod taxonomy;
pub mod text;
pub mod units;
