//! Telemetry ingestion pipeline: wire decoding, processing under a latency budget,
//! rolling metrics and sampled fan-out decisions.
pub mod telemetry;
pub mod metrics;
pub mod processor;
