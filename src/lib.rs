//! Traceability over a flow network of transfers.
//!
//! `dag_tracer` builds the transfer multigraph and traces origins forward to
//! their descendants and backward to their ancestors, listing every simple
//! path between each pair. `aggregation` and `grouping` reduce traced rows
//! per group with direction-aware weighting. Each path names transfer records
//! by index, so that a caller multiplies and adds their share factors.

pub mod error;
pub mod text;
pub mod graph;
pub mod walks;
pub mod dag_tracer;
pub mod trace_facts;
pub mod aggregation;
pub mod grouping;
