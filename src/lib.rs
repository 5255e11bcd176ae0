//! Per-device sensor telemetry: a columnar buffer with retention trimming,
//! time-bucketed mean aggregation, a registry of device sessions and the
//! per-connection ingestion state machine.

pub mod aggregate;
pub mod connection;
pub mod duration;
pub mod fetch;
pub mod handler;
pub mod plot;
pub mod registry;
pub mod row;
pub mod table;
