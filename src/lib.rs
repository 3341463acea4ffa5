//! Coordination layer for queries that span many independently owned data
//! cells: a registry of cells, cost heuristics and strategy selection, the
//! combination of per-cell responses, result aggregation, a TTL result cache,
//! execution history and cursor-based streams; and, on the cells' side,
//! record storage and schema validation.
pub mod types;
pub mod registry;
pub mod coordination;
pub mod aggregation;
pub mod optimization;
pub mod streaming;
pub mod storage;
pub mod validation;
