//! Grouping and aggregation of per-process memory usage.
//!
//! Processes are grouped by executable basename; each group keeps a map
//! from pid to its memory figures together with a running total that
//! always equals the sum of the map's values. A snapshot of records is
//! folded into such groups in one pass, and the groups can be laid out
//! in the deterministic order a report uses: by descending private
//! memory, ties broken by ascending basename.

pub mod groups;
pub mod memory;
pub mod report;
pub mod snapshot;

pub use groups::ProcessGroups;
pub use memory::MemTotals;
pub use memory::MemoryUsage;
pub use snapshot::GroupedProcess;
pub use snapshot::ProcessRecord;
