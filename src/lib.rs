//! Planning engine for tasks with efforts, dependencies and resources.
//!
//! - `interval`: intervals over timestamps with open, closed and unbounded ends,
//!   and sorted collections of separate intervals.
//! - `availability`: the free time of a resource from weekly hours, time zone,
//!   vacations and holidays.
//! - `slot`: per-resource slots of free time and their upkeep.
//! - `placer`, `plan`: greedy placement of tasks on slots, milestones fulfilled.
//! - `graph_build`, `problem`: the dependency graph, group elimination,
//!   transitive reduction and structural issues.
//! - `gene`: the choices of the genetic search, from given random draws.
//! - `recalc`: decisions of the debounced recalculation loop.
//! - `issue`: issue codes and kinds.

pub mod interval;
pub mod issue;
pub mod recalc;
pub mod availability;
pub mod slot;
pub mod placer;
pub mod problem;
pub mod plan;
pub mod gene;
pub mod graph_build;
